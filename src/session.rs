use vstd::prelude::*;
use crate::registry::{Registry, same_text};
use crate::resolver::{
    choice,
    lemma_pending_has,
    lemma_resolutions_have,
    Config,
    Pending,
    Group,
    outstanding,
    pending_views,
    resolution,
    resolution_views,
    resolve,
    scan,
};
use crate::preorder::lemma_preorder_lists_each_node_once;
use crate::tree::{Attribute, Tree, TreeError, distinct_tags, has_text, views};

verus! {

/// The argument object handed to a plugin.
#[derive(Debug, PartialEq, Eq)]
pub enum Payload {
    /// `{"file": node}`
    File(usize),
    /// `{"files": [node, ...]}`
    Files(Vec<usize>),
    /// `{"mount_point": node, "files": [path, ...]}`
    MountFiles { mount_point: usize, files: Vec<String> },
    /// `{"mount_point": node, "path": path}`
    MountDevice { mount_point: usize, path: String },
}

/// One plugin run on one node, for the outstanding datatypes of that node
/// that resolved to the plugin.
pub struct Invocation {
    pub node: usize,
    pub plugin: String,
    pub tags: Vec<String>,
    pub payload: Payload,
}

/// A (node, plugin) run that failed.
pub struct Attempt {
    pub node: usize,
    pub plugin: String,
}

/// A node created by a plugin run: placed under the run's target node when
/// `parent` is `None`, else under the `k`-th node created earlier by the same run.
pub struct NewNode {
    pub parent: Option<usize>,
    pub name: String,
    pub attributes: Vec<Attribute>,
    pub datatypes: Vec<String>,
}

/// What a plugin run produced, and whether it succeeded.
pub struct Outcome {
    pub nodes: Vec<NewNode>,
    pub succeeded: bool,
}

/// What the extraction loop does next.
pub enum Step {
    /// No outstanding datatype is left anywhere in the tree.
    Done,
    /// The scan equals the previous one and the tree did not grow.
    Stalled,
    /// Run these invocations, then hand back their outcomes.
    Round(Vec<Invocation>),
}

/// Errors of the bootstrap mount.
#[derive(Debug, PartialEq, Eq, Structural, Clone, Copy)]
pub enum MountError {
    /// The bootstrap plugin reported a failure.
    Failed,
    /// A created node named a parent that does not exist.
    NotFound,
}

/// The payload convention: `exif` takes a list of files, every other plugin one file.
pub open spec fn payload_matches(plugin: Seq<char>, node: usize, p: Payload) -> bool {
    if plugin == "exif"@ {
        match p {
            Payload::Files(v) => v@ == seq![node],
            _ => false,
        }
    } else {
        p == Payload::File(node)
    }
}

pub open spec fn invocation_views(v: Seq<Invocation>) -> Seq<Group> {
    v.map_values(|i: Invocation| (i.node, i.plugin@, views(i.tags@)))
}

pub open spec fn attempt_views(v: Seq<Attempt>) -> Seq<(usize, Seq<char>)> {
    v.map_values(|a: Attempt| (a.node, a.plugin@))
}

/// The groups of `rs`, in order, but those whose (node, plugin) pair is listed in `failed`.
pub open spec fn untried(rs: Seq<Group>, failed: Seq<(usize, Seq<char>)>) -> Seq<Group>
    decreases rs.len(),
{
    if rs.len() == 0 {
        seq![]
    } else {
        let before = untried(rs.drop_last(), failed);
        if failed.contains((rs.last().0, rs.last().1)) {
            before
        } else {
            before.push(rs.last())
        }
    }
}

/// `tags` with every occurrence of a tag of `gone` taken out.
pub open spec fn without(tags: Seq<Seq<char>>, gone: Seq<Seq<char>>) -> Seq<Seq<char>>
    decreases tags.len(),
{
    if tags.len() == 0 {
        seq![]
    } else {
        let before = without(tags.drop_last(), gone);
        if gone.contains(tags.last()) {
            before
        } else {
            before.push(tags.last())
        }
    }
}

/// Every created node that names an earlier one names one created before it.
pub open spec fn slots_valid(nodes: Seq<NewNode>) -> bool {
    forall|m: int| 0 <= m < nodes.len() && (#[trigger] nodes[m]).parent.is_some() ==> nodes[m].parent.unwrap() < m
}

/// The tree id of the parent of a created node, when the run's nodes are numbered from `base`.
pub open spec fn slot_parent(base: nat, target: usize, slot: Option<usize>) -> int {
    match slot {
        None => target as int,
        Some(k) => base + k,
    }
}

/// `next` is `t` with `nodes` grafted below `target`: nodes other than the
/// target are untouched, the target keeps its name, parent, attributes and
/// datatypes and only gains children, and each created node carries what the
/// run gave it.
pub open spec fn grafted(t: Tree, next: Tree, target: usize, nodes: Seq<NewNode>) -> bool {
    &&& settled(t, next, target, nodes)
    &&& next.node(target).datatypes == t.node(target).datatypes
}

/// As `grafted`, but saying nothing of the target's datatypes.
pub open spec fn settled(t: Tree, next: Tree, target: usize, nodes: Seq<NewNode>) -> bool {
    &&& next.len() == t.len() + nodes.len()
    &&& forall|j: usize| #[trigger] t.contains(j) && j != target ==> next.node(j) == t.node(j)
    &&& next.node(target).name == t.node(target).name
    &&& next.node(target).parent == t.node(target).parent
    &&& next.node(target).attributes == t.node(target).attributes
    &&& t.kids(target).is_prefix_of(next.kids(target))
    &&& forall|m: int|
        0 <= m < nodes.len() ==> {
            let n = #[trigger] next.node((t.len() + m) as usize);
            &&& n.name == nodes[m].name
            &&& n.attributes == nodes[m].attributes
            &&& views(n.datatypes@) == distinct_tags(views(nodes[m].datatypes@))
            &&& n.parent == Some(slot_parent(t.len(), target, nodes[m].parent) as usize)
        }
}

/// The payload for running `plugin` on `node`.
pub fn payload_for(plugin: &String, node: usize) -> (r: Payload)
    ensures
        payload_matches(plugin@, node, r),
{
    let exif = "exif".to_owned();
    if same_text(plugin, &exif) {
        let mut files: Vec<usize> = Vec::new();
        files.push(node);
        proof {
            assert(files@ =~= seq![node]);
        }
        Payload::Files(files)
    } else {
        Payload::File(node)
    }
}

/// Whether running `plugin` on `node` is among `failed`.
pub fn was_failed(failed: &Vec<Attempt>, node: usize, plugin: &String) -> (b: bool)
    ensures
        b == attempt_views(failed@).contains((node, plugin@)),
{
    let mut i: usize = 0;
    while i < failed.len()
        invariant
            i <= failed@.len(),
            forall|j: int| 0 <= j < i ==> attempt_views(failed@)[j] != (node, plugin@),
        decreases failed@.len() - i,
    {
        let f = &failed[i];
        if f.node == node && same_text(&f.plugin, plugin) {
            assert(attempt_views(failed@)[i as int] == (node, plugin@));
            return true;
        }
        i = i + 1;
    }
    false
}

/// Whether two scans list the same (node, tag) pairs in the same order.
pub fn same_scan(a: &Vec<Pending>, b: &Vec<Pending>) -> (r: bool)
    ensures
        r == (pending_views(a@) == pending_views(b@)),
{
    if a.len() != b.len() {
        proof {
            assert(pending_views(a@).len() != pending_views(b@).len());
        }
        return false;
    }
    let mut i: usize = 0;
    while i < a.len()
        invariant
            a@.len() == b@.len(),
            i <= a@.len(),
            forall|j: int| 0 <= j < i ==> pending_views(a@)[j] == pending_views(b@)[j],
        decreases a@.len() - i,
    {
        if a[i].node != b[i].node || !same_text(&a[i].tag, &b[i].tag) {
            proof {
                assert(pending_views(a@)[i as int] != pending_views(b@)[i as int]);
            }
            return false;
        }
        i = i + 1;
    }
    proof {
        assert(pending_views(a@) =~= pending_views(b@));
    }
    true
}

/// Queue of the invocations of the current round.
pub struct Scheduler {
    pub(crate) queue: Vec<Invocation>,
}

impl Scheduler {
    pub closed spec fn queued(&self) -> Seq<Invocation> {
        self.queue@
    }

    /// A scheduler with nothing queued.
    pub fn new() -> (s: Scheduler)
        ensures
            s.queued().len() == 0,
    {
        Scheduler { queue: Vec::new() }
    }

    /// Enqueues running `plugin` on `node` for datatypes `tags` in the current round.
    pub fn schedule(&mut self, node: usize, plugin: String, tags: Vec<String>, payload: Payload)
        ensures
            final(self).queued() == old(self).queued().push(
                Invocation { node, plugin, tags, payload },
            ),
    {
        self.queue.push(Invocation { node, plugin, tags, payload });
    }

    /// Hands over every invocation of the round, in the order they were
    /// scheduled, and leaves the queue empty for the next round.
    pub fn take_round(&mut self) -> (round: Vec<Invocation>)
        ensures
            round@ == old(self).queued(),
            final(self).queued().len() == 0,
    {
        let mut round: Vec<Invocation> = Vec::new();
        std::mem::swap(&mut round, &mut self.queue);
        round
    }
}

/// Grafts `nodes` below `target`, in order.
fn graft(t: &mut Tree, target: usize, nodes: Vec<NewNode>)
    requires
        old(t).wf(),
        old(t).contains(target),
        slots_valid(nodes@),
        old(t).len() + nodes@.len() + 1 < usize::MAX,
    ensures
        final(t).wf(),
        grafted(*old(t), *final(t), target, nodes@),
{
    let ghost t0 = *old(t);
    let ghost all = nodes@;
    let base = t.node_count();
    let mut rest = nodes;
    let mut m: usize = 0;
    while rest.len() > 0
        invariant
            t.wf(),
            t0.wf(),
            t0.contains(target),
            slots_valid(all),
            base == t0.len(),
            t0.len() + all.len() + 1 < usize::MAX,
            m <= all.len(),
            rest@ == all.subrange(m as int, all.len() as int),
            t.len() == base + m,
            forall|j: usize| #[trigger] t0.contains(j) && j != target ==> t.node(j) == t0.node(j),
            t.node(target).name == t0.node(target).name,
            t.node(target).parent == t0.node(target).parent,
            t.node(target).attributes == t0.node(target).attributes,
            t.node(target).datatypes == t0.node(target).datatypes,
            t0.kids(target).is_prefix_of(t.kids(target)),
            forall|q: int|
                0 <= q < m ==> {
                    let n = #[trigger] t.node((t0.len() + q) as usize);
                    &&& n.name == all[q].name
                    &&& n.attributes == all[q].attributes
                    &&& views(n.datatypes@) == distinct_tags(views(all[q].datatypes@))
                    &&& n.parent == Some(slot_parent(t0.len(), target, all[q].parent) as usize)
                },
        decreases rest@.len(),
    {
        let ghost tb = *t;
        let nn = rest.remove(0);
        assert(nn == all[m as int]);
        let parent = match nn.parent {
            None => target,
            Some(k) => base + k,
        };
        let r = t.attach_node(parent, nn.name, nn.attributes, nn.datatypes);
        proof {
            assert(r.is_ok());
            let id = r.unwrap();
            assert(id == t0.len() + m);
            assert forall|j: usize| #[trigger] t0.contains(j) && j != target implies t.node(j)
                == t0.node(j) by {
                assert(tb.contains(j));
            }
            assert(tb.contains(target));
            if parent == target {
                assert(t.kids(target) == tb.kids(target).push(id));
            } else {
                assert(t.node(target) == tb.node(target));
            }
            assert(t0.kids(target).is_prefix_of(t.kids(target)));
            assert forall|q: int| 0 <= q < m + 1 implies {
                let n = #[trigger] t.node((t0.len() + q) as usize);
                &&& n.name == all[q].name
                &&& n.attributes == all[q].attributes
                &&& views(n.datatypes@) == distinct_tags(views(all[q].datatypes@))
                &&& n.parent == Some(slot_parent(t0.len(), target, all[q].parent) as usize)
            } by {
                let j = (t0.len() + q) as usize;
                if q < m {
                    assert(tb.contains(j));
                    let nb = tb.node(j);
                    assert(nb.name == all[q].name);
                    if j != parent {
                        assert(t.node(j) == nb);
                    }
                } else {
                    assert(j == id);
                    assert(t.node(j).name == all[q].name);
                }
            }
            assert(rest@ =~= all.subrange(m + 1, all.len() as int));
        }
        m = m + 1;
    }
}

/// Taking tags out keeps the others, in order, and keeps them distinct.
proof fn lemma_without_distinct(tags: Seq<Seq<char>>, gone: Seq<Seq<char>>)
    requires
        tags.no_duplicates(),
    ensures
        without(tags, gone).no_duplicates(),
        forall|x: Seq<char>| without(tags, gone).contains(x) ==> tags.contains(x),
    decreases tags.len(),
{
    if tags.len() > 0 {
        let d = tags.drop_last();
        assert(d.no_duplicates()) by {
            assert forall|a: int, b: int| 0 <= a < b < d.len() implies d[a] != d[b] by {
                assert(d[a] == tags[a] && d[b] == tags[b]);
            }
        }
        lemma_without_distinct(d, gone);
        let before = without(d, gone);
        assert forall|x: Seq<char>| without(tags, gone).contains(x) implies tags.contains(x) by {
            let w = without(tags, gone);
            let m = choose|m: int| 0 <= m < w.len() && w[m] == x;
            if m < before.len() {
                assert(before[m] == x);
                assert(before.contains(x));
                assert(d.contains(x));
                let q = choose|q: int| 0 <= q < d.len() && d[q] == x;
                assert(tags[q] == x);
            } else {
                assert(tags[tags.len() - 1] == x);
            }
        }
        if !gone.contains(tags.last()) {
            assert(!before.contains(tags.last())) by {
                if before.contains(tags.last()) {
                    assert(d.contains(tags.last()));
                    let m = choose|m: int| 0 <= m < d.len() && d[m] == tags.last();
                    assert(tags[m] == tags[tags.len() - 1]);
                }
            }
            assert forall|x: Seq<char>| without(tags, gone).contains(x) implies before.contains(x) || x == tags.last() by {
                let m = choose|m: int| 0 <= m < without(tags, gone).len() && without(tags, gone)[m] == x;
                if m < before.len() {
                    assert(before[m] == x);
                }
            }
        }
    }
}

/// A copy of `v`, string by string.
fn copy_texts(v: &Vec<String>) -> (r: Vec<String>)
    ensures
        views(r@) == views(v@),
{
    let mut r: Vec<String> = Vec::new();
    let mut i: usize = 0;
    while i < v.len()
        invariant
            i <= v@.len(),
            views(r@) == views(v@).subrange(0, i as int),
        decreases v@.len() - i,
    {
        let ghost before = r@;
        let c = v[i].clone();
        r.push(c);
        proof {
            assert(views(r@) =~= views(before).push(v@[i as int]@));
            assert(views(r@) =~= views(v@).subrange(0, i + 1));
        }
        i = i + 1;
    }
    proof {
        assert(views(v@).subrange(0, v@.len() as int) =~= views(v@));
    }
    r
}

/// `tags` without those of `gone`.
fn strip_tags(tags: &Vec<String>, gone: &Vec<String>) -> (r: Vec<String>)
    ensures
        views(r@) == without(views(tags@), views(gone@)),
{
    let mut r: Vec<String> = Vec::new();
    let mut i: usize = 0;
    while i < tags.len()
        invariant
            i <= tags@.len(),
            views(r@) == without(views(tags@).subrange(0, i as int), views(gone@)),
        decreases tags@.len() - i,
    {
        let ghost before = r@;
        let ghost s = views(tags@).subrange(0, i + 1);
        proof {
            assert(s.drop_last() =~= views(tags@).subrange(0, i as int));
            assert(s.last() == tags@[i as int]@);
        }
        if !has_text(gone, &tags[i]) {
            r.push(tags[i].clone());
            proof {
                assert(views(r@) =~= views(before).push(tags@[i as int]@));
            }
        }
        i = i + 1;
    }
    proof {
        assert(views(tags@).subrange(0, tags@.len() as int) =~= views(tags@));
    }
    r
}

/// Whether every created node that names an earlier one names one created before it.
pub fn check_slots(nodes: &Vec<NewNode>) -> (r: bool)
    ensures
        r == slots_valid(nodes@),
{
    let mut i: usize = 0;
    while i < nodes.len()
        invariant
            i <= nodes@.len(),
            forall|m: int|
                0 <= m < i && (#[trigger] nodes@[m]).parent.is_some() ==> nodes@[m].parent.unwrap()
                    < m,
        decreases nodes@.len() - i,
    {
        match nodes[i].parent {
            Some(k) => {
                if k >= i {
                    return false;
                }
            },
            None => {},
        }
        i = i + 1;
    }
    true
}

/// Where the extraction starts from.
pub enum Source {
    File(String),
    Device(String),
}

/// The bootstrap plugin for `source` and its payload, mounting under `root`:
/// `local` with the file list for a file, `device` with the path for a device.
pub fn bootstrap(source: Source, root: usize) -> (r: (String, Payload))
    ensures
        match source {
            Source::File(path) => r.0@ == "local"@ && match r.1 {
                Payload::MountFiles { mount_point, files } => mount_point == root && files@ == seq![
                    path,
                ],
                _ => false,
            },
            Source::Device(path) => r.0@ == "device"@ && r.1 == Payload::MountDevice {
                mount_point: root,
                path,
            },
        },
{
    match source {
        Source::File(path) => {
            let mut files: Vec<String> = Vec::new();
            files.push(path);
            proof {
                assert(files@ =~= seq![path]);
            }
            ("local".to_owned(), Payload::MountFiles { mount_point: root, files })
        },
        Source::Device(path) => (
            "device".to_owned(),
            Payload::MountDevice { mount_point: root, path },
        ),
    }
}

/// A failing run of a round, applied after a successful one, leaves what the
/// successful one did in place: its created nodes and what it consumed.
pub proof fn lemma_failure_keeps_siblings(
    t1: Tree,
    t2: Tree,
    t3: Tree,
    a: usize,
    nodes_a: Seq<NewNode>,
    b: usize,
    nodes_b: Seq<NewNode>,
)
    requires
        t2.wf(),
        t1.contains(a),
        t1.contains(b),
        settled(t1, t2, a, nodes_a),
        grafted(t2, t3, b, nodes_b),
    ensures
        forall|m: int|
            0 <= m < nodes_a.len() ==> #[trigger] t3.node((t1.len() + m) as usize) == t2.node(
                (t1.len() + m) as usize,
            ),
        t3.node(a).datatypes == t2.node(a).datatypes,
        t3.node(a).attributes == t2.node(a).attributes,
        t3.node(a).name == t2.node(a).name,
        t2.kids(a).is_prefix_of(t3.kids(a)),
{
    assert forall|m: int| 0 <= m < nodes_a.len() implies #[trigger] t3.node(
        (t1.len() + m) as usize,
    ) == t2.node((t1.len() + m) as usize) by {
        let j = (t1.len() + m) as usize;
        assert(t2.contains(j) && j != b);
    }
    assert(t2.contains(a));
    if a != b {
        assert(t3.node(a) == t2.node(a));
        assert(t2.kids(a).is_prefix_of(t3.kids(a)));
    }
}

proof fn lemma_untried_has(rs: Seq<Group>, failed: Seq<(usize, Seq<char>)>, x: Group)
    requires
        rs.contains(x),
        !failed.contains((x.0, x.1)),
    ensures
        untried(rs, failed).contains(x),
    decreases rs.len(),
{
    let before = untried(rs.drop_last(), failed);
    if rs.last() == x {
        assert(untried(rs, failed) == before.push(x));
        assert(untried(rs, failed)[before.len() as int] == x);
    } else {
        let m = choose|m: int| 0 <= m < rs.len() && rs[m] == x;
        assert(rs.drop_last()[m] == x);
        lemma_untried_has(rs.drop_last(), failed, x);
        let j = choose|j: int| 0 <= j < before.len() && before[j] == x;
        if !failed.contains((rs.last().0, rs.last().1)) {
            assert(before.push(rs.last())[j] == x);
        }
    }
}

/// `u` holds a run of plugin `p` on node `n` that carries `tag`.
pub open spec fn runs_with(u: Seq<Group>, n: usize, p: Seq<char>, tag: Seq<char>) -> bool {
    exists|i: int| 0 <= i < u.len() && (#[trigger] u[i]).0 == n && u[i].1 == p && u[i].2.contains(tag)
}

proof fn lemma_untried_runs(
    t: Tree,
    reg: Registry,
    cfg: Config,
    failed: Seq<(usize, Seq<char>)>,
    n: usize,
    tag: Seq<char>,
    p: Seq<char>,
)
    requires
        t.wf(),
        t.contains(n),
        t.tags_of(n).contains(tag),
        choice(reg, cfg, tag) == Some(p),
        !failed.contains((n, p)),
    ensures
        runs_with(untried(resolution(t, reg, cfg), failed), n, p, tag),
{
    lemma_preorder_lists_each_node_once(t);
    lemma_pending_has(t, t.subtree(0), n, tag);
    lemma_resolutions_have(reg, cfg, outstanding(t), n, tag, p);
    let rs = resolution(t, reg, cfg);
    let i = choose|i: int| 0 <= i < rs.len() && (#[trigger] rs[i]).0 == n && rs[i].1 == p && rs[i].2.contains(tag);
    assert(rs.contains(rs[i]));
    lemma_untried_has(rs, failed, rs[i]);
    let u = untried(rs, failed);
    let k = choose|k: int| 0 <= k < u.len() && u[k] == rs[i];
    assert(u[k].0 == n && u[k].1 == p && u[k].2.contains(tag));
}

/// A node carrying two outstanding tags that resolve to two different plugins,
/// neither having failed on that node before, gets two runs in the same round:
/// one of each plugin, each carrying its tag.
pub proof fn lemma_two_tags_two_runs(
    t: Tree,
    reg: Registry,
    cfg: Config,
    failed: Seq<(usize, Seq<char>)>,
    n: usize,
    a: Seq<char>,
    b: Seq<char>,
    pa: Seq<char>,
    pb: Seq<char>,
)
    requires
        t.wf(),
        t.contains(n),
        t.tags_of(n).contains(a),
        t.tags_of(n).contains(b),
        choice(reg, cfg, a) == Some(pa),
        choice(reg, cfg, b) == Some(pb),
        pa != pb,
        !failed.contains((n, pa)),
        !failed.contains((n, pb)),
    ensures
        runs_with(untried(resolution(t, reg, cfg), failed), n, pa, a),
        runs_with(untried(resolution(t, reg, cfg), failed), n, pb, b),
{
    lemma_untried_runs(t, reg, cfg, failed, n, a, pa);
    lemma_untried_runs(t, reg, cfg, failed, n, b, pb);
}

/// An extraction session: the tree, the plugins, the preferences, the runs
/// that failed, and the previous scan.
pub struct Session {
    pub(crate) tree: Tree,
    pub(crate) registry: Registry,
    pub(crate) config: Config,
    pub(crate) failed: Vec<Attempt>,
    pub(crate) previous: Option<(usize, Vec<Pending>)>,
}

impl Session {
    pub closed spec fn tree_of(&self) -> Tree {
        self.tree
    }

    pub closed spec fn registry_of(&self) -> Registry {
        self.registry
    }

    pub closed spec fn config_of(&self) -> Config {
        self.config
    }

    /// The (node, plugin) runs that failed.
    pub closed spec fn failures(&self) -> Seq<(usize, Seq<char>)> {
        attempt_views(self.failed@)
    }

    /// Node count and outstanding pairs of the previous scan that led to a round.
    pub closed spec fn previous_scan(&self) -> Option<(nat, Seq<(usize, Seq<char>)>)> {
        match self.previous {
            Some((n, ps)) => Some((n as nat, pending_views(ps@))),
            None => None,
        }
    }

    pub open spec fn wf(&self) -> bool {
        self.tree_of().wf()
    }

    /// A session whose tree holds only a root named `root_name`.
    pub fn new(root_name: String, registry: Registry, config: Config) -> (s: Session)
        ensures
            s.wf(),
            s.tree_of().len() == 1,
            s.tree_of().name_of(0) == root_name@,
            s.tree_of().kids(0).len() == 0,
            s.tree_of().tags_of(0).len() == 0,
            s.registry_of() == registry,
            s.config_of() == config,
            s.failures().len() == 0,
            s.previous_scan().is_none(),
    {
        let s = Session {
            tree: Tree::create(root_name),
            registry,
            config,
            failed: Vec::new(),
            previous: None,
        };
        proof {
            assert(s.failures() =~= seq![]);
        }
        s
    }

    /// The artifact tree.
    pub fn tree(&self) -> (t: &Tree)
        ensures
            *t == self.tree_of(),
    {
        &self.tree
    }

    /// The plugin registry.
    pub fn registry(&self) -> (r: &Registry)
        ensures
            *r == self.registry_of(),
    {
        &self.registry
    }

    /// Applies the outcome of a run of `inv`: grafts its nodes below the run's
    /// node; on success none of the run's tags is outstanding there any more,
    /// on failure the node keeps its tags and the (node, plugin) run is
    /// recorded as failed.
    /// Fails, changing nothing, when the node is missing or a created node
    /// names a parent that does not exist.
    pub fn complete(&mut self, inv: &Invocation, outcome: Outcome) -> (r: Result<(), TreeError>)
        requires
            old(self).wf(),
            old(self).tree_of().len() + outcome.nodes@.len() + 1 < usize::MAX,
        ensures
            final(self).wf(),
            final(self).registry_of() == old(self).registry_of(),
            final(self).config_of() == old(self).config_of(),
            final(self).previous_scan() == old(self).previous_scan(),
            r.is_err() <==> !(old(self).tree_of().contains(inv.node) && slots_valid(
                outcome.nodes@,
            )),
            r.is_err() ==> final(self).tree_of() == old(self).tree_of() && final(self).failures()
                == old(self).failures(),
            r.is_ok() ==> settled(old(self).tree_of(), final(self).tree_of(), inv.node, outcome.nodes@),
            r.is_ok() && outcome.succeeded ==> final(self).tree_of().tags_of(inv.node) == without(
                old(self).tree_of().tags_of(inv.node),
                views(inv.tags@),
            ) && final(self).failures() == old(self).failures(),
            r.is_ok() && !outcome.succeeded ==> final(self).tree_of().node(inv.node).datatypes
                == old(self).tree_of().node(inv.node).datatypes && final(self).failures() == old(
                self,
            ).failures().push((inv.node, inv.plugin@)),
    {
        if inv.node >= self.tree.node_count() || !check_slots(&outcome.nodes) {
            return Err(TreeError::NotFound);
        }
        let ghost t0 = self.tree;
        let succeeded = outcome.succeeded;
        graft(&mut self.tree, inv.node, outcome.nodes);
        if succeeded {
            let ghost t1 = self.tree;
            let kept = match self.tree.get(inv.node) {
                Ok(n) => strip_tags(&n.datatypes, &inv.tags),
                Err(_) => Vec::new(),
            };
            proof {
                assert(t1.contains(inv.node));
                lemma_without_distinct(t1.tags_of(inv.node), views(inv.tags@));
            }
            self.tree.set_datatypes(inv.node, kept);
            proof {
                assert forall|j: usize| #[trigger] t0.contains(j) && j != inv.node implies self.tree.node(j) == t0.node(j) by {
                    assert(t1.contains(j));
                }
                assert forall|m: int| 0 <= m < outcome.nodes@.len() implies #[trigger] self.tree.node((t0.len() + m) as usize) == t1.node((t0.len() + m) as usize) by {
                    assert(t1.contains((t0.len() + m) as usize));
                }
            }
        } else {
            let ghost before = self.failed@;
            self.failed.push(Attempt { node: inv.node, plugin: inv.plugin.clone() });
            proof {
                assert(attempt_views(self.failed@) =~= attempt_views(before).push(
                    (inv.node, inv.plugin@),
                ));
            }
        }
        Ok(())
    }

    /// Applies the outcome of the bootstrap run: on success its nodes are
    /// grafted below the root; a failure, or a created node naming a parent
    /// that does not exist, changes nothing.
    pub fn mount(&mut self, outcome: Outcome) -> (r: Result<(), MountError>)
        requires
            old(self).wf(),
            old(self).tree_of().len() + outcome.nodes@.len() + 1 < usize::MAX,
        ensures
            final(self).wf(),
            final(self).registry_of() == old(self).registry_of(),
            final(self).config_of() == old(self).config_of(),
            final(self).failures() == old(self).failures(),
            final(self).previous_scan() == old(self).previous_scan(),
            r == Err::<(), MountError>(MountError::Failed) <==> !outcome.succeeded,
            r == Err::<(), MountError>(MountError::NotFound) <==> outcome.succeeded && !slots_valid(
                outcome.nodes@,
            ),
            r.is_err() ==> final(self).tree_of() == old(self).tree_of(),
            r.is_ok() ==> grafted(old(self).tree_of(), final(self).tree_of(), 0, outcome.nodes@),
    {
        if !outcome.succeeded {
            return Err(MountError::Failed);
        }
        if !check_slots(&outcome.nodes) {
            return Err(MountError::NotFound);
        }
        graft(&mut self.tree, 0, outcome.nodes);
        Ok(())
    }

    /// Scans the tree and decides what the loop does next: `Done` when no
    /// datatype is outstanding; `Stalled` when the scan and the node count equal
    /// those of the previous round; otherwise a round holding, in order, every
    /// resolved (node, plugin) group whose run has not failed before.
    pub fn next_round(&mut self) -> (step: Step)
        requires
            old(self).wf(),
        ensures
            final(self).wf(),
            final(self).tree_of() == old(self).tree_of(),
            final(self).registry_of() == old(self).registry_of(),
            final(self).config_of() == old(self).config_of(),
            final(self).failures() == old(self).failures(),
            (step is Done) <==> outstanding(old(self).tree_of()).len() == 0,
            (step is Stalled) <==> outstanding(old(self).tree_of()).len() > 0
                && old(self).previous_scan() == Some(
                (old(self).tree_of().len(), outstanding(old(self).tree_of())),
            ),
            step is Round ==> final(self).previous_scan() == Some(
                (old(self).tree_of().len(), outstanding(old(self).tree_of())),
            ),
            match step {
                Step::Round(v) => invocation_views(v@) == untried(
                    resolution(old(self).tree_of(), old(self).registry_of(), old(self).config_of()),
                    old(self).failures(),
                ) && forall|k: int|
                    0 <= k < v@.len() ==> payload_matches(
                        (#[trigger] v@[k]).plugin@,
                        v@[k].node,
                        v@[k].payload,
                    ),
                _ => final(self).previous_scan() == old(self).previous_scan(),
            },
    {
        let ps = scan(&self.tree);
        if ps.len() == 0 {
            return Step::Done;
        }
        let n = self.tree.node_count();
        let stalled = match &self.previous {
            Some((pn, pp)) => *pn == n && same_scan(pp, &ps),
            None => false,
        };
        if stalled {
            return Step::Stalled;
        }
        let rs = resolve(&self.tree, &self.registry, &self.config);
        let mut sched = Scheduler::new();
        let mut i: usize = 0;
        while i < rs.len()
            invariant
                i <= rs@.len(),
                invocation_views(sched.queued()) == untried(
                    resolution_views(rs@).subrange(0, i as int),
                    attempt_views(self.failed@),
                ),
                forall|k: int|
                    0 <= k < sched.queued().len() ==> payload_matches(
                        (#[trigger] sched.queued()[k]).plugin@,
                        sched.queued()[k].node,
                        sched.queued()[k].payload,
                    ),
            decreases rs@.len() - i,
        {
            let r = &rs[i];
            let ghost before = sched.queued();
            let ghost s = resolution_views(rs@).subrange(0, i + 1);
            proof {
                assert(s.drop_last() =~= resolution_views(rs@).subrange(0, i as int));
                assert(s.last() == (r.node, r.plugin@, views(r.tags@)));
            }
            if !was_failed(&self.failed, r.node, &r.plugin) {
                let payload = payload_for(&r.plugin, r.node);
                let tags = copy_texts(&r.tags);
                sched.schedule(r.node, r.plugin.clone(), tags, payload);
                proof {
                    assert(invocation_views(sched.queued()) =~= invocation_views(before).push(
                        (r.node, r.plugin@, views(r.tags@)),
                    ));
                }
            }
            i = i + 1;
        }
        proof {
            assert(resolution_views(rs@).subrange(0, rs@.len() as int) =~= resolution_views(rs@));
        }
        self.previous = Some((n, ps));
        Step::Round(sched.take_round())
    }
}

} // verus!
