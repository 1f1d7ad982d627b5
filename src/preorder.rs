use vstd::prelude::*;
use crate::tree::Tree;

verus! {

/// `j` lies in the subtree rooted at `i`: following parents from `j` reaches `i`.
pub open spec fn is_desc(t: Tree, j: usize, i: usize) -> bool
    decreases j,
{
    j == i || (t.contains(j) && j > 0 && t.parent_of(j).is_some() && t.parent_of(j).unwrap() < j
        && is_desc(t, t.parent_of(j).unwrap(), i))
}

proof fn lemma_desc_ge(t: Tree, j: usize, i: usize)
    requires
        is_desc(t, j, i),
    ensures
        j >= i,
    decreases j,
{
    if j != i {
        lemma_desc_ge(t, t.parent_of(j).unwrap(), i);
    }
}

/// A descendant of a child of `i` is a descendant of `i`.
proof fn lemma_desc_step(t: Tree, x: usize, c: usize, i: usize)
    requires
        t.wf(),
        t.contains(c),
        i < c,
        t.parent_of(c) == Some(i),
        is_desc(t, x, c),
    ensures
        is_desc(t, x, i),
    decreases x,
{
    if x != c {
        lemma_desc_step(t, t.parent_of(x).unwrap(), c, i);
    } else {
        assert(is_desc(t, i, i));
        assert(c > 0);
    }
}

/// No node descends from two different children of one node.
proof fn lemma_desc_unique(t: Tree, x: usize, a: usize, b: usize, i: usize)
    requires
        t.wf(),
        t.contains(a),
        t.contains(b),
        a != b,
        i < a,
        i < b,
        t.parent_of(a) == Some(i),
        t.parent_of(b) == Some(i),
    ensures
        !(is_desc(t, x, a) && is_desc(t, x, b)),
    decreases x,
{
    if !(is_desc(t, x, a) && is_desc(t, x, b)) {
    } else if x == a {
        lemma_desc_ge(t, i, b);
    } else if x == b {
        lemma_desc_ge(t, i, a);
    } else {
        lemma_desc_unique(t, t.parent_of(x).unwrap(), a, b, i);
    }
}

/// Membership in the children's subtrees from the `k`-th on.
proof fn lemma_from_members(t: Tree, i: usize, k: int)
    requires
        t.wf(),
        t.contains(i),
        0 <= k,
    ensures
        forall|x: usize|
            t.subtrees_from(i, k).contains(x) <==> exists|l: int|
                k <= l < t.kids(i).len() && #[trigger] t.subtree(t.kids(i)[l]).contains(x),
    decreases t.kids(i).len() - k,
{
    if k < t.kids(i).len() {
        lemma_from_members(t, i, k + 1);
        let c = t.kids(i)[k];
        let first = t.subtree(c);
        let rest = t.subtrees_from(i, k + 1);
        assert(t.subtrees_from(i, k) == first + rest);
        assert forall|x: usize| t.subtrees_from(i, k).contains(x) <==> exists|l: int|
            k <= l < t.kids(i).len() && #[trigger] t.subtree(t.kids(i)[l]).contains(x) by {
            if t.subtrees_from(i, k).contains(x) {
                let m = choose|m: int| 0 <= m < (first + rest).len() && (first + rest)[m] == x;
                if m < first.len() {
                    assert(first[m] == x);
                    assert(t.subtree(t.kids(i)[k]).contains(x));
                } else {
                    assert(rest[m - first.len()] == x);
                    assert(rest.contains(x));
                }
            }
            if exists|l: int| k <= l < t.kids(i).len() && #[trigger] t.subtree(t.kids(i)[l]).contains(x) {
                let l = choose|l: int| k <= l < t.kids(i).len() && #[trigger] t.subtree(t.kids(i)[l]).contains(x);
                if l == k {
                    let m = choose|m: int| 0 <= m < first.len() && first[m] == x;
                    assert((first + rest)[m] == x);
                } else {
                    assert(rest.contains(x));
                    let m = choose|m: int| 0 <= m < rest.len() && rest[m] == x;
                    assert((first + rest)[first.len() + m] == x);
                }
            }
        }
    }
}

/// Every member of the subtree of `i` descends from `i`.
proof fn lemma_members_desc(t: Tree, i: usize)
    requires
        t.wf(),
        t.contains(i),
    ensures
        forall|x: usize| t.subtree(i).contains(x) ==> is_desc(t, x, i),
    decreases t.len() - i,
{
    lemma_from_members(t, i, 0);
    assert forall|x: usize| t.subtree(i).contains(x) implies is_desc(t, x, i) by {
        if x != i {
            let s = t.subtrees_from(i, 0);
            assert(t.subtree(i) == seq![i] + s);
            let m = choose|m: int| 0 <= m < t.subtree(i).len() && t.subtree(i)[m] == x;
            assert(s[m - 1] == x);
            assert(s.contains(x));
            let l = choose|l: int| 0 <= l < t.kids(i).len() && #[trigger] t.subtree(t.kids(i)[l]).contains(x);
            let c = t.kids(i)[l];
            lemma_members_desc(t, c);
            lemma_desc_step(t, x, c, i);
        }
    }
}

/// The subtree of `i` lists no node twice.
proof fn lemma_subtree_distinct(t: Tree, i: usize)
    requires
        t.wf(),
        t.contains(i),
    ensures
        t.subtree(i).no_duplicates(),
    decreases t.len() - i, 1int, 0int,
{
    lemma_from_distinct(t, i, 0);
    lemma_from_members(t, i, 0);
    let s = t.subtrees_from(i, 0);
    assert(!s.contains(i)) by {
        if s.contains(i) {
            let l = choose|l: int| 0 <= l < t.kids(i).len() && #[trigger] t.subtree(t.kids(i)[l]).contains(i);
            let c = t.kids(i)[l];
            lemma_members_desc(t, c);
            lemma_desc_ge(t, i, c);
        }
    }
    assert(t.subtree(i) == seq![i] + s);
    assert forall|a: int, b: int| 0 <= a < b < t.subtree(i).len() implies t.subtree(i)[a] != t.subtree(i)[b] by {
        if a == 0 {
            assert(t.subtree(i)[b] == s[b - 1]);
        } else {
            assert(t.subtree(i)[a] == s[a - 1] && t.subtree(i)[b] == s[b - 1]);
        }
    }
}

/// The children's subtrees from the `k`-th on list no node twice.
proof fn lemma_from_distinct(t: Tree, i: usize, k: int)
    requires
        t.wf(),
        t.contains(i),
        0 <= k,
    ensures
        t.subtrees_from(i, k).no_duplicates(),
    decreases t.len() - i, 0int, t.kids(i).len() - k,
{
    if k < t.kids(i).len() {
        let c = t.kids(i)[k];
        lemma_subtree_distinct(t, c);
        lemma_from_distinct(t, i, k + 1);
        lemma_from_members(t, i, k + 1);
        lemma_members_desc(t, c);
        let first = t.subtree(c);
        let rest = t.subtrees_from(i, k + 1);
        assert(t.subtrees_from(i, k) == first + rest);
        assert forall|x: usize| first.contains(x) implies !rest.contains(x) by {
            if rest.contains(x) {
                let l = choose|l: int| k + 1 <= l < t.kids(i).len() && #[trigger] t.subtree(t.kids(i)[l]).contains(x);
                let d = t.kids(i)[l];
                assert(c < d);
                lemma_members_desc(t, d);
                lemma_desc_unique(t, x, c, d, i);
            }
        }
        let all = first + rest;
        assert forall|a: int, b: int| 0 <= a < b < all.len() implies all[a] != all[b] by {
            if a < first.len() && b >= first.len() {
                assert(first.contains(all[a]));
                assert(rest[b - first.len()] == all[b]);
            } else if a >= first.len() {
                assert(rest[a - first.len()] == all[a] && rest[b - first.len()] == all[b]);
            } else {
                assert(first[a] == all[a] && first[b] == all[b]);
            }
        }
    }
}

/// The subtree of `i` holds the children of each of its members.
proof fn lemma_subtree_closed(t: Tree, i: usize)
    requires
        t.wf(),
        t.contains(i),
    ensures
        forall|x: usize, k: int|
            t.subtree(i).contains(x) && 0 <= k < t.kids(x).len() ==> t.subtree(i).contains(
                #[trigger] t.kids(x)[k],
            ),
    decreases t.len() - i,
{
    lemma_from_members(t, i, 0);
    let s = t.subtrees_from(i, 0);
    assert(t.subtree(i) == seq![i] + s);
    assert forall|y: usize| s.contains(y) implies t.subtree(i).contains(y) by {
        let m = choose|m: int| 0 <= m < s.len() && s[m] == y;
        assert(t.subtree(i)[m + 1] == y);
    }
    assert forall|x: usize, k: int|
        t.subtree(i).contains(x) && 0 <= k < t.kids(x).len() implies t.subtree(i).contains(
            #[trigger] t.kids(x)[k],
        ) by {
        if x == i {
            let c = t.kids(i)[k];
            assert(t.contains(c));
            assert(t.subtree(c) == seq![c] + t.subtrees_from(c, 0));
            assert(t.subtree(c)[0] == c);
            assert(t.subtree(t.kids(i)[k]).contains(c));
            assert(s.contains(c));
        } else {
            let m = choose|m: int| 0 <= m < t.subtree(i).len() && t.subtree(i)[m] == x;
            assert(s[m - 1] == x);
            assert(s.contains(x));
            let l = choose|l: int| 0 <= l < t.kids(i).len() && #[trigger] t.subtree(t.kids(i)[l]).contains(x);
            let c = t.kids(i)[l];
            lemma_subtree_closed(t, c);
            assert(t.subtree(c).contains(t.kids(x)[k]));
            assert(s.contains(t.kids(x)[k]));
        }
    }
}

/// The preorder sequence from the root lists every node of the tree exactly
/// once, and nothing else; it is what the exporter writes, record by record.
pub proof fn lemma_preorder_lists_each_node_once(t: Tree)
    requires
        t.wf(),
    ensures
        t.subtree(0).no_duplicates(),
        forall|j: usize| t.subtree(0).contains(j) <==> t.contains(j),
{
    lemma_subtree_distinct(t, 0);
    lemma_subtree_closed(t, 0);
    lemma_members_desc(t, 0);
    assert forall|j: usize| t.subtree(0).contains(j) <==> t.contains(j) by {
        if t.subtree(0).contains(j) {
            if j != 0 {
                assert(is_desc(t, j, 0));
            }
        }
        if t.contains(j) {
            lemma_reaches_root(t, j);
        }
    }
}

proof fn lemma_reaches_root(t: Tree, j: usize)
    requires
        t.wf(),
        t.contains(j),
    ensures
        t.subtree(0).contains(j),
    decreases j,
{
    if j == 0 {
        assert(t.subtree(0)[0] == 0);
    } else {
        let p = t.parent_of(j).unwrap();
        lemma_reaches_root(t, p);
        lemma_subtree_closed(t, 0);
        assert(t.kids(p).contains(j));
        let k = choose|k: int| 0 <= k < t.kids(p).len() && t.kids(p)[k] == j;
        assert(t.subtree(0).contains(t.kids(p)[k]));
    }
}

/// Every id of a subtree is a node of the tree.
pub proof fn lemma_subtree_ids(t: Tree, i: usize)
    ensures
        forall|j: usize| t.subtree(i).contains(j) ==> t.contains(j),
    decreases t.len() - i, 1int, 0int,
{
    if t.contains(i) {
        lemma_subtrees_from_ids(t, i, 0);
        assert forall|j: usize| t.subtree(i).contains(j) implies t.contains(j) by {
            let s = t.subtrees_from(i, 0);
            if j != i {
                let m = choose|m: int| 0 <= m < t.subtree(i).len() && t.subtree(i)[m] == j;
                assert(s[m - 1] == j);
            }
        }
    }
}

/// Every id in the subtrees of the children of `i` from the `k`-th on is a node of the tree.
pub proof fn lemma_subtrees_from_ids(t: Tree, i: usize, k: int)
    ensures
        forall|j: usize| t.subtrees_from(i, k).contains(j) ==> t.contains(j),
    decreases t.len() - i, 0int, t.kids(i).len() - k,
{
    if t.contains(i) && 0 <= k < t.kids(i).len() {
        let c = t.kids(i)[k];
        let first = if i < c && t.contains(c) {
            t.subtree(c)
        } else {
            seq![]
        };
        if i < c && t.contains(c) {
            lemma_subtree_ids(t, c);
        }
        lemma_subtrees_from_ids(t, i, k + 1);
        let rest = t.subtrees_from(i, k + 1);
        assert(t.subtrees_from(i, k) == first + rest);
        assert forall|j: usize| t.subtrees_from(i, k).contains(j) implies t.contains(j) by {
            let m = choose|m: int|
                0 <= m < t.subtrees_from(i, k).len() && t.subtrees_from(i, k)[m] == j;
            if m < first.len() {
                assert(first[m] == j);
            } else {
                assert(rest[m - first.len()] == j);
            }
        }
    }
}

} // verus!
