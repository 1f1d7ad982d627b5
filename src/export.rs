use vstd::prelude::*;
use crate::tree::{Attribute, Tree, views};
use crate::preorder::{lemma_preorder_lists_each_node_once, lemma_subtree_ids};

verus! {

/// One exported line: a node, its name, the names from the root down to it,
/// and its attributes.
pub struct Record<'a> {
    pub node: usize,
    pub name: String,
    pub path: Vec<String>,
    pub attributes: &'a Vec<Attribute>,
}

/// `r` describes node `id` of `t`.
pub open spec fn describes(t: Tree, r: Record<'_>, id: usize) -> bool {
    &&& r.node == id
    &&& r.name@ == t.name_of(id)
    &&& views(r.path@) == t.path(id)
    &&& *r.attributes == t.node(id).attributes
}

/// One record per node reachable from the root, in preorder.
pub fn export<'a>(t: &'a Tree) -> (r: Vec<Record<'a>>)
    requires
        t.wf(),
    ensures
        r@.len() == t.subtree(0).len(),
        forall|k: int| 0 <= k < r@.len() ==> describes(*t, #[trigger] r@[k], t.subtree(0)[k]),
{
    let ids = match t.enumerate(None) {
        Ok(ids) => ids,
        Err(_) => Vec::new(),
    };
    proof {
        lemma_subtree_ids(*t, 0);
    }
    let mut r: Vec<Record> = Vec::new();
    let mut i: usize = 0;
    while i < ids.len()
        invariant
            t.wf(),
            ids@ == t.subtree(0),
            forall|j: usize| t.subtree(0).contains(j) ==> t.contains(j),
            i <= ids@.len(),
            r@.len() == i,
            forall|k: int| 0 <= k < i ==> describes(*t, #[trigger] r@[k], ids@[k]),
        decreases ids@.len() - i,
    {
        let id = ids[i];
        assert(t.subtree(0).contains(id));
        let node = match t.get(id) {
            Ok(n) => n,
            Err(_) => {
                return r;
            },
        };
        let path = match t.path_of(id) {
            Ok(p) => p,
            Err(_) => {
                return r;
            },
        };
        r.push(Record { node: id, name: node.name.clone(), path, attributes: &node.attributes });
        i = i + 1;
    }
    r
}

/// The exporter writes exactly one record for each node of the tree: every
/// node has a record, and no two records are of the same node.
pub proof fn lemma_export_each_node_once(t: Tree, records: Seq<Record<'_>>)
    requires
        t.wf(),
        records.len() == t.subtree(0).len(),
        forall|k: int| 0 <= k < records.len() ==> describes(t, #[trigger] records[k], t.subtree(0)[k]),
    ensures
        forall|j: usize| t.contains(j) <==> exists|k: int| 0 <= k < records.len() && #[trigger] records[k].node == j,
        forall|k: int, l: int| 0 <= k < l < records.len() ==> #[trigger] records[k].node != #[trigger] records[l].node,
{
    lemma_preorder_lists_each_node_once(t);
    let ids = t.subtree(0);
    assert forall|j: usize| t.contains(j) <==> exists|k: int| 0 <= k < records.len() && #[trigger] records[k].node == j by {
        if t.contains(j) {
            let k = choose|k: int| 0 <= k < ids.len() && ids[k] == j;
            assert(describes(t, records[k], ids[k]));
        }
        if exists|k: int| 0 <= k < records.len() && #[trigger] records[k].node == j {
            let k = choose|k: int| 0 <= k < records.len() && #[trigger] records[k].node == j;
            assert(describes(t, records[k], ids[k]));
            assert(ids.contains(j));
        }
    }
    assert forall|k: int, l: int| 0 <= k < l < records.len() implies #[trigger] records[k].node != #[trigger] records[l].node by {
        assert(describes(t, records[k], ids[k]));
        assert(describes(t, records[l], ids[l]));
    }
}

} // verus!
