use vstd::prelude::*;
use crate::registry::{Registry, same_text};
use crate::preorder::lemma_subtree_ids;
use crate::tree::{Tree, has_text, views};

verus! {

/// Ordered plugin preferences for one datatype tag.
pub struct ConfigEntry {
    pub tag: String,
    pub plugins: Vec<String>,
}

/// Mapping from datatype tag to an ordered list of acceptable plugin names.
pub struct Config {
    pub(crate) entries: Vec<ConfigEntry>,
}

/// An outstanding datatype `tag` on node `node`.
pub struct Pending {
    pub node: usize,
    pub tag: String,
}

/// A plugin chosen for node `node`, with every outstanding tag of that node
/// that resolved to it.
pub struct Resolution {
    pub node: usize,
    pub plugin: String,
    pub tags: Vec<String>,
}

/// A resolved group: node, plugin, and the tags that resolved to the plugin.
pub type Group = (usize, Seq<char>, Seq<Seq<char>>);

pub open spec fn pending_views(ps: Seq<Pending>) -> Seq<(usize, Seq<char>)> {
    ps.map_values(|p: Pending| (p.node, p.tag@))
}

pub open spec fn resolution_views(rs: Seq<Resolution>) -> Seq<Group> {
    rs.map_values(|r: Resolution| (r.node, r.plugin@, views(r.tags@)))
}

/// Position, at or after `k`, of the group of node `n` and plugin `p`; -1 if none.
pub open spec fn group_index(g: Seq<Group>, n: usize, p: Seq<char>, k: int) -> int
    decreases g.len() - k,
{
    if k < 0 || k >= g.len() {
        -1
    } else if g[k].0 == n && g[k].1 == p {
        k
    } else {
        group_index(g, n, p, k + 1)
    }
}

/// `g` with `tag` added to the group of node `n` and plugin `p`: a new group
/// at the end when there is none, nothing when the group already holds `tag`.
pub open spec fn add_tag(g: Seq<Group>, n: usize, p: Seq<char>, tag: Seq<char>) -> Seq<Group> {
    let i = group_index(g, n, p, 0);
    if i < 0 {
        g.push((n, p, seq![tag]))
    } else if g[i].2.contains(tag) {
        g
    } else {
        g.update(i, (n, p, g[i].2.push(tag)))
    }
}

pub open spec fn opt_view(o: Option<String>) -> Option<Seq<char>> {
    match o {
        Some(s) => Some(s@),
        None => None,
    }
}

/// The preference list of the first entry at or after `k` whose tag is `tag`.
pub open spec fn configured_from(es: Seq<ConfigEntry>, tag: Seq<char>, k: int) -> Option<
    Seq<Seq<char>>,
>
    decreases es.len() - k,
{
    if k < 0 || k >= es.len() {
        None
    } else if es[k].tag@ == tag {
        Some(views(es[k].plugins@))
    } else {
        configured_from(es, tag, k + 1)
    }
}

/// The first candidate at or after `k` that is registered.
pub open spec fn first_registered(reg: Registry, cands: Seq<Seq<char>>, k: int) -> Option<
    Seq<char>,
>
    decreases cands.len() - k,
{
    if k < 0 || k >= cands.len() {
        None
    } else if reg.is_registered(cands[k]) {
        Some(cands[k])
    } else {
        first_registered(reg, cands, k + 1)
    }
}

/// Candidates for `tag`: the configured list when there is one, else the
/// plugins declaring the tag, in registration order.
pub open spec fn candidates(reg: Registry, cfg: Config, tag: Seq<char>) -> Seq<Seq<char>> {
    match cfg.preference_of(tag) {
        Some(l) => l,
        None => reg.capable(tag),
    }
}

/// The plugin that `tag` resolves to, if any.
pub open spec fn choice(reg: Registry, cfg: Config, tag: Seq<char>) -> Option<Seq<char>> {
    first_registered(reg, candidates(reg, cfg, tag), 0)
}

/// The outstanding (node, tag) pairs of the first `k` tags of node `i`.
pub open spec fn node_pending(t: Tree, i: usize, k: int) -> Seq<(usize, Seq<char>)>
    decreases k,
{
    if k <= 0 {
        seq![]
    } else {
        node_pending(t, i, k - 1).push((i, t.tags_of(i)[k - 1]))
    }
}

/// The outstanding (node, tag) pairs of the nodes `ids`, in that order, each
/// node's tags in their stored order.
pub open spec fn pending_of(t: Tree, ids: Seq<usize>) -> Seq<(usize, Seq<char>)>
    decreases ids.len(),
{
    if ids.len() == 0 {
        seq![]
    } else {
        let i = ids.last();
        pending_of(t, ids.drop_last()) + node_pending(t, i, t.tags_of(i).len() as int)
    }
}

/// The outstanding (node, tag) pairs of the whole tree, in preorder.
pub open spec fn outstanding(t: Tree) -> Seq<(usize, Seq<char>)> {
    pending_of(t, t.subtree(0))
}

/// The groups of the pairs `ps`: one per (node, plugin) pair, in the order in
/// which the pair is first chosen, each holding the tags that resolved to it.
/// Pairs whose tag resolves to no plugin are left out.
pub open spec fn resolutions_of(reg: Registry, cfg: Config, ps: Seq<(usize, Seq<char>)>) -> Seq<
    Group,
>
    decreases ps.len(),
{
    if ps.len() == 0 {
        seq![]
    } else {
        let before = resolutions_of(reg, cfg, ps.drop_last());
        let (n, tag) = ps.last();
        match choice(reg, cfg, tag) {
            Some(p) => add_tag(before, n, p, tag),
            None => before,
        }
    }
}

/// What the resolver yields for tree `t`.
pub open spec fn resolution(t: Tree, reg: Registry, cfg: Config) -> Seq<Group> {
    resolutions_of(reg, cfg, outstanding(t))
}

/// The first name of `cands` that is registered in `reg`.
pub fn first_registered_in(reg: &Registry, cands: &Vec<String>) -> (r: Option<String>)
    ensures
        opt_view(r) == first_registered(*reg, views(cands@), 0),
{
    let mut i: usize = 0;
    while i < cands.len()
        invariant
            i <= cands@.len(),
            first_registered(*reg, views(cands@), 0) == first_registered(
                *reg,
                views(cands@),
                i as int,
            ),
        decreases cands@.len() - i,
    {
        if reg.contains(&cands[i]) {
            return Some(cands[i].clone());
        }
        i = i + 1;
    }
    None
}

/// The plugin that `tag` resolves to: the first registered name of the
/// configured list for `tag`, or, with no such list, the first plugin declaring `tag`.
pub fn resolve_tag(reg: &Registry, cfg: &Config, tag: &String) -> (r: Option<String>)
    ensures
        opt_view(r) == choice(*reg, *cfg, tag@),
{
    match cfg.preference(tag) {
        Some(l) => first_registered_in(reg, l),
        None => {
            let cap = reg.capability_match(tag);
            first_registered_in(reg, &cap)
        },
    }
}

/// The outstanding (node, tag) pairs of the whole tree, in preorder.
pub fn scan(t: &Tree) -> (r: Vec<Pending>)
    requires
        t.wf(),
    ensures
        pending_views(r@) == outstanding(*t),
{
    let ids = match t.enumerate(None) {
        Ok(ids) => ids,
        Err(_) => Vec::new(),
    };
    let mut r: Vec<Pending> = Vec::new();
    let mut i: usize = 0;
    while i < ids.len()
        invariant
            t.wf(),
            ids@ == t.subtree(0),
            i <= ids@.len(),
            pending_views(r@) == pending_of(*t, ids@.subrange(0, i as int)),
        decreases ids@.len() - i,
    {
        let id = ids[i];
        proof {
            assert(t.subtree(0).contains(id));
            lemma_subtree_ids(*t, 0);
        }
        let node = match t.get(id) {
            Ok(n) => n,
            Err(_) => {
                return r;
            },
        };
        let ghost base = pending_views(r@);
        let mut k: usize = 0;
        while k < node.datatypes.len()
            invariant
                node.datatypes@ == t.node(id).datatypes@,
                k <= node.datatypes@.len(),
                pending_views(r@) == base + node_pending(*t, id, k as int),
            decreases node.datatypes@.len() - k,
        {
            let ghost before = r@;
            r.push(Pending { node: id, tag: node.datatypes[k].clone() });
            proof {
                assert(pending_views(r@) =~= pending_views(before).push(
                    (id, node.datatypes@[k as int]@),
                ));
                assert(t.tags_of(id)[k as int] == node.datatypes@[k as int]@);
                assert(node_pending(*t, id, k + 1) == node_pending(*t, id, k as int).push(
                    (id, t.tags_of(id)[k as int]),
                ));
                assert(r@.last().tag@ == node.datatypes@[k as int]@);
                assert(pending_views(r@) =~= base + node_pending(*t, id, k + 1));
            }
            k = k + 1;
        }
        proof {
            let s = ids@.subrange(0, i + 1);
            assert(s.drop_last() =~= ids@.subrange(0, i as int));
        }
        i = i + 1;
    }
    proof {
        assert(ids@.subrange(0, ids@.len() as int) =~= ids@);
    }
    r
}

/// Position of the group of node `n` and plugin `p` in `rs`.
pub fn find_group(rs: &Vec<Resolution>, n: usize, p: &String) -> (r: Option<usize>)
    ensures
        r.is_none() <==> group_index(resolution_views(rs@), n, p@, 0) < 0,
        r.is_some() ==> r.unwrap() == group_index(resolution_views(rs@), n, p@, 0),
{
    let ghost g = resolution_views(rs@);
    let mut i: usize = 0;
    while i < rs.len()
        invariant
            g == resolution_views(rs@),
            i <= rs@.len(),
            group_index(g, n, p@, 0) == group_index(g, n, p@, i as int),
        decreases rs@.len() - i,
    {
        if rs[i].node == n && same_text(&rs[i].plugin, p) {
            return Some(i);
        }
        i = i + 1;
    }
    None
}

/// The groups of every outstanding pair of the tree: one per (node, plugin)
/// pair, in preorder, each with the tags of that node that resolved to the plugin.
pub fn resolve(t: &Tree, reg: &Registry, cfg: &Config) -> (r: Vec<Resolution>)
    requires
        t.wf(),
    ensures
        resolution_views(r@) == resolution(*t, *reg, *cfg),
{
    let ps = scan(t);
    let mut r: Vec<Resolution> = Vec::new();
    let mut i: usize = 0;
    while i < ps.len()
        invariant
            i <= ps@.len(),
            pending_views(ps@) == outstanding(*t),
            resolution_views(r@) == resolutions_of(
                *reg,
                *cfg,
                pending_views(ps@).subrange(0, i as int),
            ),
        decreases ps@.len() - i,
    {
        let ghost before = resolution_views(r@);
        let p = &ps[i];
        let chosen = resolve_tag(reg, cfg, &p.tag);
        match chosen {
            Some(name) => {
                proof {
                    lemma_group_index(before, p.node, name@, 0);
                }
                match find_group(&r, p.node, &name) {
                    None => {
                        let mut tags: Vec<String> = Vec::new();
                        tags.push(p.tag.clone());
                        r.push(Resolution { node: p.node, plugin: name, tags });
                        proof {
                            assert(views(tags@) =~= seq![p.tag@]);
                            assert(resolution_views(r@) =~= add_tag(before, p.node, name@, p.tag@));
                        }
                    },
                    Some(j) => {
                        if !has_text(&r[j].tags, &p.tag) {
                            let ghost old_tags = r@[j as int].tags@;
                            r[j].tags.push(p.tag.clone());
                            proof {
                                assert(views(r@[j as int].tags@) =~= views(old_tags).push(p.tag@));
                                assert(resolution_views(r@) =~= add_tag(before, p.node, name@, p.tag@));
                            }
                        }
                    },
                }
            },
            None => {},
        }
        proof {
            let s = pending_views(ps@).subrange(0, i + 1);
            assert(s.drop_last() =~= pending_views(ps@).subrange(0, i as int));
            assert(s.last() == (p.node, p.tag@));
        }
        i = i + 1;
    }
    proof {
        assert(pending_views(ps@).subrange(0, ps@.len() as int) =~= pending_views(ps@));
    }
    r
}

proof fn lemma_node_pending_has(t: Tree, i: usize, k: int, j: int)
    requires
        0 <= j < k,
    ensures
        node_pending(t, i, k).contains((i, t.tags_of(i)[j])),
    decreases k,
{
    if j < k - 1 {
        lemma_node_pending_has(t, i, k - 1, j);
        let before = node_pending(t, i, k - 1);
        let m = choose|m: int| 0 <= m < before.len() && before[m] == (i, t.tags_of(i)[j]);
        assert(node_pending(t, i, k)[m] == (i, t.tags_of(i)[j]));
    } else {
        let before = node_pending(t, i, k - 1);
        assert(node_pending(t, i, k)[before.len() as int] == (i, t.tags_of(i)[j]));
    }
}

/// A tag of a listed node is among the listed outstanding pairs.
pub proof fn lemma_pending_has(t: Tree, ids: Seq<usize>, n: usize, tag: Seq<char>)
    requires
        ids.contains(n),
        t.tags_of(n).contains(tag),
    ensures
        pending_of(t, ids).contains((n, tag)),
    decreases ids.len(),
{
    let front = pending_of(t, ids.drop_last());
    let last = ids.last();
    let tail = node_pending(t, last, t.tags_of(last).len() as int);
    assert(pending_of(t, ids) == front + tail);
    if last == n {
        let j = choose|j: int| 0 <= j < t.tags_of(n).len() && t.tags_of(n)[j] == tag;
        lemma_node_pending_has(t, n, t.tags_of(n).len() as int, j);
        let m = choose|m: int| 0 <= m < tail.len() && tail[m] == (n, tag);
        assert((front + tail)[front.len() + m] == (n, tag));
    } else {
        let m = choose|m: int| 0 <= m < ids.len() && ids[m] == n;
        assert(ids.drop_last()[m] == n);
        lemma_pending_has(t, ids.drop_last(), n, tag);
        let q = choose|q: int| 0 <= q < front.len() && front[q] == (n, tag);
        assert((front + tail)[q] == (n, tag));
    }
}

/// What `group_index` finds is a group of that node and plugin; when it finds
/// nothing, no group from `k` on is of that node and plugin.
pub proof fn lemma_group_index(g: Seq<Group>, n: usize, p: Seq<char>, k: int)
    requires
        0 <= k,
    ensures
        group_index(g, n, p, k) >= 0 ==> k <= group_index(g, n, p, k) < g.len() && g[group_index(
            g,
            n,
            p,
            k,
        )].0 == n && g[group_index(g, n, p, k)].1 == p,
        group_index(g, n, p, k) < 0 ==> forall|m: int| k <= m < g.len() ==> !(#[trigger] g[m].0 == n && g[m].1 == p),
    decreases g.len() - k,
{
    if k < g.len() {
        lemma_group_index(g, n, p, k + 1);
    }
}

/// A listed pair whose tag resolves to `p` puts the tag in a group of its node and `p`.
pub proof fn lemma_resolutions_have(
    reg: Registry,
    cfg: Config,
    ps: Seq<(usize, Seq<char>)>,
    n: usize,
    tag: Seq<char>,
    p: Seq<char>,
)
    requires
        ps.contains((n, tag)),
        choice(reg, cfg, tag) == Some(p),
    ensures
        exists|i: int|
            0 <= i < resolutions_of(reg, cfg, ps).len() && (#[trigger] resolutions_of(reg, cfg, ps)[i]).0 == n
                && resolutions_of(reg, cfg, ps)[i].1 == p && resolutions_of(reg, cfg, ps)[i].2.contains(tag),
    decreases ps.len(),
{
    let before = resolutions_of(reg, cfg, ps.drop_last());
    let g = resolutions_of(reg, cfg, ps);
    let (ln, lt) = ps.last();
    if ps.last() == (n, tag) {
        lemma_group_index(before, n, p, 0);
        let gi = group_index(before, n, p, 0);
        if gi < 0 {
            assert(g[before.len() as int].2 == seq![tag]);
            assert(g[before.len() as int].2[0] == tag);
        } else if before[gi].2.contains(tag) {
            assert(g[gi].2.contains(tag));
        } else {
            assert(g[gi].2 == before[gi].2.push(tag));
            assert(g[gi].2[before[gi].2.len() as int] == tag);
        }
    } else {
        let m = choose|m: int| 0 <= m < ps.len() && ps[m] == (n, tag);
        assert(ps.drop_last()[m] == (n, tag));
        lemma_resolutions_have(reg, cfg, ps.drop_last(), n, tag, p);
        let i = choose|i: int|
            0 <= i < before.len() && (#[trigger] before[i]).0 == n && before[i].1 == p && before[i].2.contains(tag);
        match choice(reg, cfg, lt) {
            Some(q) => {
                lemma_group_index(before, ln, q, 0);
                let gi = group_index(before, ln, q, 0);
                if gi < 0 {
                    assert(g[i] == before[i]);
                } else if before[gi].2.contains(lt) {
                } else if gi == i {
                    assert(g[i].2 == before[i].2.push(lt));
                    let k = choose|k: int| 0 <= k < before[i].2.len() && before[i].2[k] == tag;
                    assert(g[i].2[k] == tag);
                } else {
                    assert(g[i] == before[i]);
                }
            },
            None => {},
        }
    }
}

/// The resolver yields each (node, plugin) pair at most once.
pub proof fn lemma_resolution_pairs_distinct(reg: Registry, cfg: Config, ps: Seq<(usize, Seq<char>)>)
    ensures
        forall|i: int, j: int|
            0 <= i < j < resolutions_of(reg, cfg, ps).len() ==> (#[trigger] resolutions_of(reg, cfg, ps)[i]).0
                != (#[trigger] resolutions_of(reg, cfg, ps)[j]).0 || resolutions_of(reg, cfg, ps)[i].1
                != resolutions_of(reg, cfg, ps)[j].1,
    decreases ps.len(),
{
    if ps.len() > 0 {
        lemma_resolution_pairs_distinct(reg, cfg, ps.drop_last());
        let before = resolutions_of(reg, cfg, ps.drop_last());
        let g = resolutions_of(reg, cfg, ps);
        let (n, tag) = ps.last();
        match choice(reg, cfg, tag) {
            Some(p) => {
                lemma_group_index(before, n, p, 0);
                let gi = group_index(before, n, p, 0);
                assert forall|i: int, j: int| 0 <= i < j < g.len() implies (#[trigger] g[i]).0
                    != (#[trigger] g[j]).0 || g[i].1 != g[j].1 by {
                    if gi < 0 {
                        if j == before.len() {
                            assert(g[i] == before[i]);
                        } else {
                            assert(g[i] == before[i] && g[j] == before[j]);
                        }
                    } else {
                        assert(g[i].0 == before[i].0 && g[i].1 == before[i].1);
                        assert(g[j].0 == before[j].0 && g[j].1 == before[j].1);
                    }
                }
            },
            None => {},
        }
    }
}

proof fn lemma_first_registered_same(r1: Registry, r2: Registry, cands: Seq<Seq<char>>, k: int)
    requires
        r1.descriptors() == r2.descriptors(),
    ensures
        first_registered(r1, cands, k) == first_registered(r2, cands, k),
    decreases cands.len() - k,
{
    if 0 <= k < cands.len() {
        lemma_first_registered_same(r1, r2, cands, k + 1);
    }
}

proof fn lemma_resolutions_same(
    r1: Registry,
    c1: Config,
    r2: Registry,
    c2: Config,
    ps: Seq<(usize, Seq<char>)>,
)
    requires
        r1.descriptors() == r2.descriptors(),
        c1.entries() == c2.entries(),
    ensures
        resolutions_of(r1, c1, ps) == resolutions_of(r2, c2, ps),
    decreases ps.len(),
{
    if ps.len() > 0 {
        lemma_resolutions_same(r1, c1, r2, c2, ps.drop_last());
        let tag = ps.last().1;
        assert(candidates(r1, c1, tag) == candidates(r2, c2, tag));
        lemma_first_registered_same(r1, r2, candidates(r1, c1, tag), 0);
    }
}

/// The resolver is deterministic: trees with the same outstanding pairs,
/// registries holding the same descriptors in the same order, and
/// configurations holding the same entries yield the same resolved sequence.
pub proof fn lemma_resolve_deterministic(
    t1: Tree,
    r1: Registry,
    c1: Config,
    t2: Tree,
    r2: Registry,
    c2: Config,
)
    requires
        outstanding(t1) == outstanding(t2),
        r1.descriptors() == r2.descriptors(),
        c1.entries() == c2.entries(),
    ensures
        resolution(t1, r1, c1) == resolution(t2, r2, c2),
{
    lemma_resolutions_same(r1, c1, r2, c2, outstanding(t1));
}

impl Config {
    pub closed spec fn entries(&self) -> Seq<ConfigEntry> {
        self.entries@
    }

    /// The configured preference list for `tag`, if any.
    pub open spec fn preference_of(&self, tag: Seq<char>) -> Option<Seq<Seq<char>>> {
        configured_from(self.entries(), tag, 0)
    }

    /// A configuration with no preferences.
    pub fn new() -> (c: Config)
        ensures
            forall|tag: Seq<char>| c.preference_of(tag).is_none(),
    {
        Config { entries: Vec::new() }
    }

    /// Sets the preference list of `tag`, replacing an earlier one.
    pub fn set_preference(&mut self, tag: String, plugins: Vec<String>)
        ensures
            final(self).preference_of(tag@) == Some(views(plugins@)),
            forall|other: Seq<char>|
                other != tag@ ==> final(self).preference_of(other) == old(self).preference_of(
                    other,
                ),
    {
        let ghost t = tag@;
        let ghost pv = views(plugins@);
        self.entries.insert(0, ConfigEntry { tag, plugins });
        proof {
            let o = old(self).entries();
            let n = self.entries();
            assert forall|other: Seq<char>| other != t implies #[trigger] configured_from(
                n,
                other,
                0,
            ) == configured_from(o, other, 0) by {
                lemma_configured_shift(o, n, other, 0);
                assert(configured_from(n, other, 0) == configured_from(n, other, 1));
            }
        }
    }

    /// The configured preference list for `tag`, if any.
    pub fn preference(&self, tag: &String) -> (r: Option<&Vec<String>>)
        ensures
            match r {
                Some(l) => self.preference_of(tag@) == Some(views(l@)),
                None => self.preference_of(tag@).is_none(),
            },
    {
        let mut i: usize = 0;
        while i < self.entries.len()
            invariant
                i <= self.entries@.len(),
                configured_from(self.entries@, tag@, 0) == configured_from(
                    self.entries@,
                    tag@,
                    i as int,
                ),
            decreases self.entries@.len() - i,
        {
            if same_text(&self.entries[i].tag, tag) {
                return Some(&self.entries[i].plugins);
            }
            i = i + 1;
        }
        None
    }
}

/// Putting one entry in front shifts every lookup of another tag by one.
proof fn lemma_configured_shift(o: Seq<ConfigEntry>, n: Seq<ConfigEntry>, tag: Seq<char>, k: int)
    requires
        n.len() == o.len() + 1,
        n[0].tag@ != tag,
        forall|j: int| 0 <= j < o.len() ==> n[j + 1] == o[j],
        0 <= k <= o.len(),
    ensures
        configured_from(n, tag, k + 1) == configured_from(o, tag, k),
    decreases o.len() - k,
{
    if k < o.len() {
        lemma_configured_shift(o, n, tag, k + 1);
    }
}

} // verus!
