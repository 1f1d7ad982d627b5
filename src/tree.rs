use vstd::prelude::*;

verus! {

/// A value stored under an attribute key.
pub enum AttrValue {
    Int(i64),
    Text(String),
    Bytes(Vec<u8>),
    Nested(Vec<Attribute>),
}

/// One key/value pair of a node's attribute mapping.
pub struct Attribute {
    pub key: String,
    pub value: AttrValue,
}

/// One entity of the artifact tree.
pub struct ArtifactNode {
    pub id: usize,
    pub name: String,
    pub parent: Option<usize>,
    pub children: Vec<usize>,
    pub attributes: Vec<Attribute>,
    /// Datatype tags not yet consumed by any plugin.
    pub datatypes: Vec<String>,
}

/// Errors of tree operations.
#[derive(Debug, PartialEq, Eq, Structural, Clone, Copy)]
pub enum TreeError {
    NotFound,
}

/// Arena of nodes indexed by id; the root has id 0.
pub struct Tree {
    pub(crate) nodes: Vec<ArtifactNode>,
}

/// `s` with every repeated element after its first occurrence left out.
pub open spec fn distinct_tags(s: Seq<Seq<char>>) -> Seq<Seq<char>>
    decreases s.len(),
{
    if s.len() == 0 {
        seq![]
    } else {
        let before = distinct_tags(s.drop_last());
        if before.contains(s.last()) {
            before
        } else {
            before.push(s.last())
        }
    }
}

/// `distinct_tags(s)` holds each element of `s` once, and nothing else.
pub proof fn lemma_distinct_tags(s: Seq<Seq<char>>)
    ensures
        distinct_tags(s).no_duplicates(),
        forall|x: Seq<char>| distinct_tags(s).contains(x) <==> s.contains(x),
    decreases s.len(),
{
    if s.len() > 0 {
        lemma_distinct_tags(s.drop_last());
        let before = distinct_tags(s.drop_last());
        assert forall|x: Seq<char>| distinct_tags(s).contains(x) <==> s.contains(x) by {
            if s.contains(x) && x != s.last() {
                let m = choose|m: int| 0 <= m < s.len() && s[m] == x;
                assert(s.drop_last()[m] == x);
            }
            if s.drop_last().contains(x) {
                let m = choose|m: int| 0 <= m < s.drop_last().len() && s.drop_last()[m] == x;
                assert(s[m] == x);
            }
            if !before.contains(s.last()) && distinct_tags(s).contains(x) && x != s.last() {
                let m = choose|m: int| 0 <= m < distinct_tags(s).len() && distinct_tags(s)[m] == x;
                assert(before[m] == x);
            }
            if x == s.last() {
                assert(s[s.len() - 1] == x);
                if !before.contains(x) {
                    assert(distinct_tags(s)[before.len() as int] == x);
                }
            }
            if before.contains(x) && !before.contains(s.last()) {
                let m = choose|m: int| 0 <= m < before.len() && before[m] == x;
                assert(distinct_tags(s)[m] == x);
            }
        }
    }
}

/// The character views of a sequence of strings.
pub open spec fn views(v: Seq<String>) -> Seq<Seq<char>> {
    v.map_values(|s: String| s@)
}

/// `tags` with repeated tags left out, first occurrences kept in order.
pub fn distinct(tags: &Vec<String>) -> (r: Vec<String>)
    ensures
        views(r@) == distinct_tags(views(tags@)),
{
    let mut r: Vec<String> = Vec::new();
    let mut i: usize = 0;
    while i < tags.len()
        invariant
            i <= tags@.len(),
            views(r@) == distinct_tags(views(tags@).subrange(0, i as int)),
        decreases tags@.len() - i,
    {
        let ghost before = r@;
        let ghost s = views(tags@).subrange(0, i + 1);
        proof {
            assert(s.drop_last() =~= views(tags@).subrange(0, i as int));
            assert(s.last() == tags@[i as int]@);
        }
        if !has_text(&r, &tags[i]) {
            let c = tags[i].clone();
            r.push(c);
            proof {
                assert(views(r@) =~= views(before).push(tags@[i as int]@));
            }
        }
        i = i + 1;
    }
    proof {
        assert(views(tags@).subrange(0, tags@.len() as int) =~= views(tags@));
    }
    r
}

/// Whether `tag` occurs among `tags`.
pub fn has_text(tags: &Vec<String>, tag: &String) -> (r: bool)
    ensures
        r == views(tags@).contains(tag@),
{
    let mut i: usize = 0;
    while i < tags.len()
        invariant
            i <= tags@.len(),
            forall|j: int| 0 <= j < i ==> tags@[j]@ != tag@,
        decreases tags@.len() - i,
    {
        if tags[i].eq(tag) {
            assert(views(tags@)[i as int] == tag@);
            return true;
        }
        i = i + 1;
    }
    proof {
        if views(tags@).contains(tag@) {
            let j = choose|j: int| 0 <= j < views(tags@).len() && views(tags@)[j] == tag@;
            assert(tags@[j]@ == tag@);
        }
    }
    false
}

impl Tree {
    pub closed spec fn len(&self) -> nat {
        self.nodes@.len()
    }

    pub closed spec fn node(&self, i: usize) -> ArtifactNode {
        self.nodes@[i as int]
    }

    pub open spec fn contains(&self, i: usize) -> bool {
        (i as nat) < self.len()
    }

    pub open spec fn name_of(&self, i: usize) -> Seq<char> {
        self.node(i).name@
    }

    pub open spec fn parent_of(&self, i: usize) -> Option<usize> {
        self.node(i).parent
    }

    pub open spec fn kids(&self, i: usize) -> Seq<usize> {
        self.node(i).children@
    }

    pub open spec fn tags_of(&self, i: usize) -> Seq<Seq<char>> {
        views(self.node(i).datatypes@)
    }

    /// Ids are positions; the root is the only node without a parent; a parent
    /// always has a smaller id than its child (so there is no cycle); children
    /// lists are strictly increasing and hold exactly the nodes naming that parent.
    pub open spec fn wf(&self) -> bool {
        &&& 1 <= self.len() < usize::MAX
        &&& self.parent_of(0).is_none()
        &&& forall|i: usize| #[trigger] self.contains(i) ==> self.node(i).id == i
        &&& forall|i: usize|
            0 < i && #[trigger] self.contains(i) ==> self.parent_of(i).is_some()
                && self.parent_of(i).unwrap() < i
        &&& forall|i: usize, k: int|
            self.contains(i) && 0 <= k < self.kids(i).len() ==> i < #[trigger] self.kids(i)[k]
                && self.contains(self.kids(i)[k]) && self.parent_of(self.kids(i)[k]) == Some(i)
        &&& forall|i: usize, k: int, l: int|
            self.contains(i) && 0 <= k < l < self.kids(i).len() ==> #[trigger] self.kids(i)[k]
                < #[trigger] self.kids(i)[l]
        &&& forall|j: usize|
            0 < j && #[trigger] self.contains(j) ==> self.kids(self.parent_of(j).unwrap()).contains(j)
        &&& forall|i: usize| #[trigger] self.contains(i) ==> self.tags_of(i).no_duplicates()
    }

    /// Names from the root down to node `i`.
    pub open spec fn path(&self, i: usize) -> Seq<Seq<char>>
        decreases i,
    {
        if self.contains(i) && i > 0 && self.parent_of(i).is_some() && self.parent_of(i).unwrap()
            < i {
            self.path(self.parent_of(i).unwrap()).push(self.name_of(i))
        } else {
            seq![self.name_of(i)]
        }
    }

    /// Preorder sequence of the subtree rooted at `i`.
    pub open spec fn subtree(&self, i: usize) -> Seq<usize>
        decreases self.len() - i, 1int, 0int,
    {
        if self.contains(i) {
            seq![i] + self.subtrees_from(i, 0)
        } else {
            seq![]
        }
    }

    /// Concatenated preorder sequences of the children of `i`, from the `k`-th on.
    pub open spec fn subtrees_from(&self, i: usize, k: int) -> Seq<usize>
        decreases self.len() - i, 0int, self.kids(i).len() - k,
    {
        if self.contains(i) && 0 <= k < self.kids(i).len() {
            let c = self.kids(i)[k];
            let first = if i < c && self.contains(c) {
                self.subtree(c)
            } else {
                seq![]
            };
            first + self.subtrees_from(i, k + 1)
        } else {
            seq![]
        }
    }

    /// A tree holding a single root node.
    pub fn create(root_name: String) -> (t: Tree)
        ensures
            t.wf(),
            t.len() == 1,
            t.name_of(0) == root_name@,
            t.kids(0).len() == 0,
            t.tags_of(0).len() == 0,
    {
        let root = ArtifactNode {
            id: 0,
            name: root_name,
            parent: None,
            children: Vec::new(),
            attributes: Vec::new(),
            datatypes: Vec::new(),
        };
        let mut nodes: Vec<ArtifactNode> = Vec::new();
        nodes.push(root);
        let t = Tree { nodes };
        proof {
            assert(views(t.node(0).datatypes@) =~= seq![]);
            assert(t.tags_of(0).no_duplicates());
        }
        t
    }

    /// Identifier of the root node.
    pub fn root_id(&self) -> (r: usize)
        ensures
            r == 0,
    {
        0
    }

    /// Number of nodes in the tree.
    pub fn node_count(&self) -> (r: usize)
        ensures
            r == self.len(),
    {
        self.nodes.len()
    }
    /// Appends a new node under `parent`, carrying the given attributes and
    /// outstanding datatypes; the new id is the number of nodes before the call.
    pub fn attach_node(
        &mut self,
        parent: usize,
        name: String,
        attributes: Vec<Attribute>,
        datatypes: Vec<String>,
    ) -> (r: Result<usize, TreeError>)
        requires
            old(self).wf(),
            old(self).len() + 1 < usize::MAX,
        ensures
            final(self).wf(),
            r.is_err() <==> !old(self).contains(parent),
            r.is_err() ==> *final(self) == *old(self),
            r.is_ok() ==> old(self).attached(*final(self), parent, r.unwrap(), name@),
            r.is_ok() ==> final(self).node(r.unwrap()).attributes == attributes
                && final(self).tags_of(r.unwrap()) == distinct_tags(views(datatypes@))
                && final(self).node(r.unwrap()).name == name,
    {
        if parent >= self.nodes.len() {
            return Err(TreeError::NotFound);
        }
        let id = self.nodes.len();
        let tags = distinct(&datatypes);
        let node = ArtifactNode {
            id,
            name,
            parent: Some(parent),
            children: Vec::new(),
            attributes,
            datatypes: tags,
        };
        self.nodes[parent].children.push(id);
        self.nodes.push(node);
        proof {
            let o = *old(self);
            let f = *self;
            assert forall|j: usize| 0 < j && #[trigger] f.contains(j) implies f.kids(
                f.parent_of(j).unwrap(),
            ).contains(j) by {
                if j < id {
                    assert(o.contains(j));
                    assert(o.kids(o.parent_of(j).unwrap()).contains(j));
                    let q = o.parent_of(j).unwrap();
                    let k = choose|k: int| 0 <= k < o.kids(q).len() && o.kids(q)[k] == j;
                    assert(o.contains(q));
                    if q != parent {
                        assert(f.node(q) == o.node(q));
                    }
                    assert(f.kids(q)[k] == j);
                } else {
                    assert(f.kids(parent)[f.kids(parent).len() - 1] == id);
                }
            }
            assert forall|i: usize| #[trigger] f.contains(i) implies f.node(i).id == i by {
                if i < id {
                    assert(o.contains(i));
                    if i == parent {
                        assert(o.node(i).id == i);
                    }
                }
            }
            assert forall|i: usize|
                0 < i && #[trigger] f.contains(i) implies f.parent_of(i).is_some()
                && f.parent_of(i).unwrap() < i by {
                if i < id {
                    assert(o.contains(i));
                }
            }
            assert forall|i: usize, k: int|
                f.contains(i) && 0 <= k < f.kids(i).len() implies i < #[trigger] f.kids(i)[k]
                && f.contains(f.kids(i)[k]) && f.parent_of(f.kids(i)[k]) == Some(i) by {
                if i < id {
                    assert(o.contains(i));
                    if !(i == parent && k == f.kids(i).len() - 1) {
                        assert(o.kids(i)[k] == f.kids(i)[k]);
                        assert(o.contains(o.kids(i)[k]));
                    }
                }
            }
            assert forall|i: usize, k: int, l: int|
                f.contains(i) && 0 <= k < l < f.kids(i).len() implies #[trigger] f.kids(i)[k]
                < #[trigger] f.kids(i)[l] by {
                if i == parent && l == f.kids(i).len() - 1 {
                    assert(o.contains(o.kids(i)[k]));
                }
            }
            lemma_distinct_tags(views(datatypes@));
            assert forall|i: usize| #[trigger] f.contains(i) implies f.tags_of(i).no_duplicates() by {
                if i < id {
                    assert(o.contains(i));
                    assert(f.node(i).datatypes == o.node(i).datatypes);
                }
            }
        }
        Ok(id)
    }

    /// Appends a new node named `name` under `parent`.
    pub fn attach(&mut self, parent: usize, name: String) -> (r: Result<usize, TreeError>)
        requires
            old(self).wf(),
            old(self).len() + 1 < usize::MAX,
        ensures
            final(self).wf(),
            r.is_err() <==> !old(self).contains(parent),
            r.is_err() ==> *final(self) == *old(self),
            r.is_ok() ==> old(self).attached(*final(self), parent, r.unwrap(), name@),
            r.is_ok() ==> final(self).tags_of(r.unwrap()).len() == 0,
            r.is_ok() ==> final(self).node(r.unwrap()).attributes@.len() == 0,
    {
        let r = self.attach_node(parent, name, Vec::new(), Vec::new());
        proof {
            if r.is_ok() {
                assert(self.tags_of(r.unwrap()) =~= seq![]);
            }
        }
        r
    }

    /// The node with id `id`.
    pub fn get(&self, id: usize) -> (r: Result<&ArtifactNode, TreeError>)
        ensures
            r.is_err() <==> !self.contains(id),
            r.is_ok() ==> *r.unwrap() == self.node(id),
    {
        if id < self.nodes.len() {
            Ok(&self.nodes[id])
        } else {
            Err(TreeError::NotFound)
        }
    }

    /// The ordered child ids of `id`.
    pub fn children_of(&self, id: usize) -> (r: Result<Vec<usize>, TreeError>)
        ensures
            r.is_err() <==> !self.contains(id),
            r.is_ok() ==> r.unwrap()@ == self.kids(id),
    {
        if id < self.nodes.len() {
            Ok(self.nodes[id].children.clone())
        } else {
            Err(TreeError::NotFound)
        }
    }

    /// The names from the root down to `id`.
    pub fn path_of(&self, id: usize) -> (r: Result<Vec<String>, TreeError>)
        requires
            self.wf(),
        ensures
            r.is_err() <==> !self.contains(id),
            r.is_ok() ==> views(r.unwrap()@) == self.path(id),
    {
        if id >= self.nodes.len() {
            return Err(TreeError::NotFound);
        }
        let mut res: Vec<String> = Vec::new();
        let mut cur: usize = id;
        loop
            invariant_except_break
                self.path(id) == self.path(cur) + views(res@),
            invariant
                self.wf(),
                self.contains(cur),
            ensures
                views(res@) == self.path(id),
            decreases cur,
        {
            let name = self.nodes[cur].name.clone();
            let ghost before = res@;
            res.insert(0, name);
            proof {
                assert(views(res@) =~= seq![self.name_of(cur)] + views(before));
            }
            if cur == 0 {
                proof {
                    assert(self.path(id) =~= views(res@));
                }
                break;
            }
            let p = self.nodes[cur].parent.unwrap();
            proof {
                assert(self.path(cur) == self.path(p).push(self.name_of(cur)));
                assert(self.path(id) =~= self.path(p) + views(res@));
            }
            cur = p;
        }
        Ok(res)
    }

    /// Appends the preorder sequence of the subtree rooted at `i` to `out`.
    fn collect(&self, i: usize, out: &mut Vec<usize>)
        requires
            self.wf(),
            self.contains(i),
        ensures
            final(out)@ == old(out)@ + self.subtree(i),
        decreases self.len() - i, 1int, 0int,
    {
        out.push(i);
        self.collect_from(i, 0, out);
        proof {
            assert(final(out)@ =~= old(out)@ + self.subtree(i));
        }
    }

    /// Appends the preorder sequences of the children of `i`, from the `k`-th on.
    fn collect_from(&self, i: usize, k: usize, out: &mut Vec<usize>)
        requires
            self.wf(),
            self.contains(i),
            k <= self.kids(i).len(),
        ensures
            final(out)@ == old(out)@ + self.subtrees_from(i, k as int),
        decreases self.len() - i, 0int, self.kids(i).len() - k,
    {
        if k < self.nodes[i].children.len() {
            let c = self.nodes[i].children[k];
            let ghost mid = out@;
            self.collect(c, out);
            self.collect_from(i, k + 1, out);
            proof {
                assert(final(out)@ =~= old(out)@ + self.subtrees_from(i, k as int));
            }
        } else {
            proof {
                assert(final(out)@ =~= old(out)@ + self.subtrees_from(i, k as int));
            }
        }
    }

    /// All ids reachable from `start` (the root when `None`), in preorder.
    pub fn enumerate(&self, start: Option<usize>) -> (r: Result<Vec<usize>, TreeError>)
        requires
            self.wf(),
        ensures
            r.is_err() <==> (start.is_some() && !self.contains(start.unwrap())),
            r.is_ok() ==> r.unwrap()@ == self.subtree(
                match start {
                    Some(s) => s,
                    None => 0,
                },
            ),
    {
        let s = match start {
            Some(s) => s,
            None => 0,
        };
        if s >= self.nodes.len() {
            return Err(TreeError::NotFound);
        }
        let mut out: Vec<usize> = Vec::new();
        self.collect(s, &mut out);
        proof {
            assert(out@ =~= self.subtree(s));
        }
        Ok(out)
    }

    /// Replaces the outstanding datatypes of node `id`; nothing else changes.
    pub fn set_datatypes(&mut self, id: usize, datatypes: Vec<String>)
        requires
            old(self).wf(),
            old(self).contains(id),
            views(datatypes@).no_duplicates(),
        ensures
            final(self).wf(),
            final(self).len() == old(self).len(),
            final(self).node(id).datatypes == datatypes,
            final(self).node(id).id == old(self).node(id).id,
            final(self).node(id).name == old(self).node(id).name,
            final(self).node(id).parent == old(self).node(id).parent,
            final(self).node(id).children == old(self).node(id).children,
            final(self).node(id).attributes == old(self).node(id).attributes,
            forall|j: usize| #[trigger] old(self).contains(j) && j != id ==> final(self).node(j)
                == old(self).node(j),
    {
        self.nodes[id].datatypes = datatypes;
        proof {
            let o = *old(self);
            let f = *self;
            assert forall|j: usize| #[trigger] f.contains(j) implies f.node(j).id == o.node(j).id
                && f.node(j).parent == o.node(j).parent && f.node(j).children == o.node(j).children
                && f.node(j).id == j by {
                assert(o.contains(j));
            }
            assert forall|i: usize|
                0 < i && #[trigger] f.contains(i) implies f.parent_of(i).is_some()
                && f.parent_of(i).unwrap() < i by {
                assert(o.contains(i));
            }
            assert forall|i: usize, k: int|
                f.contains(i) && 0 <= k < f.kids(i).len() implies i < #[trigger] f.kids(i)[k]
                && f.contains(f.kids(i)[k]) && f.parent_of(f.kids(i)[k]) == Some(i) by {
                assert(o.contains(i));
                assert(o.contains(o.kids(i)[k]));
            }
            assert forall|i: usize, k: int, l: int|
                f.contains(i) && 0 <= k < l < f.kids(i).len() implies #[trigger] f.kids(i)[k]
                < #[trigger] f.kids(i)[l] by {
                assert(o.contains(i));
                assert(o.kids(i)[k] < o.kids(i)[l]);
            }
            assert(f.contains(0) && o.contains(0));
            assert forall|i: usize| #[trigger] f.contains(i) implies f.tags_of(i).no_duplicates() by {
                assert(o.contains(i));
            }
            assert(f.parent_of(0).is_none());
            assert(f.len() == o.len());
            assert forall|j: usize|
                0 < j && #[trigger] f.contains(j) implies f.kids(f.parent_of(j).unwrap()).contains(
                j,
            ) by {
                assert(o.contains(j));
                assert(o.contains(o.parent_of(j).unwrap()));
            }
        }
    }

    /// `next` is this tree with one more node `id`, named `name`, appended as the
    /// last child of `parent`; every other node is unchanged but for that child list.
    pub open spec fn attached(&self, next: Tree, parent: usize, id: usize, name: Seq<char>) -> bool {
        &&& self.contains(parent)
        &&& id == self.len()
        &&& next.len() == self.len() + 1
        &&& next.name_of(id) == name
        &&& next.parent_of(id) == Some(parent)
        &&& next.kids(id).len() == 0
        &&& next.kids(parent) == self.kids(parent).push(id)
        &&& next.node(parent).name == self.node(parent).name
        &&& next.node(parent).parent == self.node(parent).parent
        &&& next.node(parent).attributes == self.node(parent).attributes
        &&& next.node(parent).datatypes == self.node(parent).datatypes
        &&& forall|j: usize| #[trigger] self.contains(j) && j != parent ==> next.node(j) == self.node(j)
    }
}

} // verus!
