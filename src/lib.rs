// Recursive extraction of artifacts from a root input by plugins, and the
// flat export of the resulting tree.
//
// tree      the artifact tree, an arena of nodes indexed by id
// preorder  why a preorder walk lists every node once
// registry  the plugins and the datatypes they declare
// resolver  configuration, scans of outstanding datatypes, plugin choice
// session   payloads, the round queue, the extraction loop's steps
// export    one record per node
use vstd::prelude::*;

pub mod export;
pub mod preorder;
pub mod registry;
pub mod resolver;
pub mod session;
pub mod tree;

verus! {

} // verus!
