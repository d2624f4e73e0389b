//! Reachability over the call graph, for dead-code elimination.
//!
//! The graph is a list of directed edges over `u32` node indices; the
//! traversal itself is done by petgraph's depth-first search.

use vstd::prelude::*;
use petgraph::graph::{DiGraph, NodeIndex};
use petgraph::visit::{Dfs, Visitable};

verus! {

/// Some listed edge leads from `a` to `b`.
pub open spec fn spec_has_edge(edges: Seq<(u32, u32)>, a: int, b: int) -> bool {
    exists|k: int| 0 <= k < edges.len() && (#[trigger] edges[k]).0 == a && edges[k].1 == b
}

/// `path` walks the edges from a root to `node`.
pub open spec fn spec_path_connects(
    edges: Seq<(u32, u32)>,
    roots: Seq<u32>,
    path: Seq<int>,
    node: int,
) -> bool {
    &&& path.len() > 0
    &&& path.last() == node
    &&& exists|r: int| 0 <= r < roots.len() && (#[trigger] roots[r]) == path[0]
    &&& forall|t: int| 0 < t < path.len() ==> spec_has_edge(edges, path[t - 1], #[trigger] path[t])
}

/// `node` lies on a path from some root.
pub open spec fn spec_reachable(edges: Seq<(u32, u32)>, roots: Seq<u32>, node: int) -> bool {
    exists|path: Seq<int>| spec_path_connects(edges, roots, path, node)
}

/// Compute, for each of the `n` nodes, whether it is reachable from the
/// roots along the edges.
///
/// Relies on petgraph's `Dfs`: a depth-first search started from the root
/// nodes visits exactly the nodes reachable from them.
#[verifier::external_body]
pub fn reachable_nodes(n: usize, edges: &Vec<(u32, u32)>, roots: &Vec<u32>) -> (r: Vec<bool>)
    requires
        n <= u32::MAX,
        forall|i: int| 0 <= i < roots@.len() ==> (#[trigger] roots@[i]) < n,
        forall|j: int|
            0 <= j < edges@.len() ==> (#[trigger] edges@[j]).0 < n && edges@[j].1 < n,
    ensures
        r@.len() == n,
        forall|i: int| 0 <= i < n ==> r@[i] == spec_reachable(edges@, roots@, i),
{
    let mut g: DiGraph<(), ()> = DiGraph::new();
    for _ in 0..n {
        g.add_node(());
    }
    g.extend_with_edges(edges.iter().copied());
    let root_ix: Vec<NodeIndex> = roots.iter().map(|&r| NodeIndex::new(r as usize)).collect();
    let mut dfs = Dfs::from_parts(root_ix, g.visit_map());
    let mut out = vec![false; n];
    while let Some(x) = dfs.next(&g) {
        out[x.index()] = true;
    }
    out
}

} // verus!
