//! Plain terms for what the analyses speak of: edges at a node, file hubs and stubs, members of
//! communities. The laws of the analyses are stated in these terms.
use vstd::prelude::*;

use crate::graph::{EdgeView, GraphView};

verus! {

/// The number of edges at the node `id`; an edge from the node to itself counts once.
pub open spec fn edges_at(g: GraphView, id: Seq<char>) -> nat {
    g.edges.filter(|e: EdgeView| e.source == id || e.target == id).len()
}

/// `s` ends in `tail`.
pub open spec fn ends_in(s: Seq<char>, tail: Seq<char>) -> bool {
    exists|front: Seq<char>| s == #[trigger] (front + tail)
}

/// `s` begins with `head`.
pub open spec fn begins_in(s: Seq<char>, head: Seq<char>) -> bool {
    exists|rest: Seq<char>| s == #[trigger] (head + rest)
}

/// The `i`-th node has a source file and is labelled with its file name.
pub open spec fn is_hub(g: GraphView, i: int) -> bool {
    g.nodes[i].source_file.len() > 0 && g.names[i] == Some(g.nodes[i].label)
}

/// The label of the `i`-th node ends in `()`, and it begins with a dot or the node has at most
/// one edge.
pub open spec fn is_call_stub(g: GraphView, i: int) -> bool {
    ends_in(g.nodes[i].label, "()"@) && (begins_in(g.nodes[i].label, "."@) || edges_at(g, g.nodes[i].id) <= 1)
}

/// The `i`-th node is neither a hub nor a stub.
pub open spec fn is_proper(g: GraphView, i: int) -> bool {
    !is_hub(g, i) && !is_call_stub(g, i)
}

/// The community `c` lists the node `id`.
pub open spec fn has_member(communities: Map<usize, Vec<String>>, c: usize, id: Seq<char>) -> bool {
    communities.contains_key(c) && exists|k: int| 0 <= k < communities[c]@.len() && (#[trigger] communities[c]@[k])@ == id
}

/// The node `id` belongs to the community `c`: no community with a larger number lists it.
pub open spec fn belongs_to(communities: Map<usize, Vec<String>>, id: Seq<char>, c: usize) -> bool {
    has_member(communities, c, id) && forall|d: usize| #[trigger] has_member(communities, d, id) ==> d <= c
}

/// The two nodes belong to different communities.
pub open spec fn are_apart(communities: Map<usize, Vec<String>>, a: Seq<char>, b: Seq<char>) -> bool {
    exists|c: usize, d: usize| #[trigger] belongs_to(communities, a, c) && #[trigger] belongs_to(communities, b, d) && c != d
}

/// The node at the other end of the `e`-th edge, seen from `id`.
pub open spec fn across(g: GraphView, e: int, id: Seq<char>) -> Seq<char> {
    if g.edges[e].source == id {
        g.edges[e].target
    } else {
        g.edges[e].source
    }
}

/// The `e`-th edge is at the node `id`.
pub open spec fn is_at(g: GraphView, e: int, id: Seq<char>) -> bool {
    0 <= e < g.edges.len() && (g.edges[e].source == id || g.edges[e].target == id)
}

/// The node `id` goes by the number `n`: it belongs to the community `n`, or `n` is the largest
/// number and no community lists the node.
pub open spec fn goes_by(communities: Map<usize, Vec<String>>, id: Seq<char>, n: usize) -> bool {
    ||| belongs_to(communities, id, n)
    ||| n == usize::MAX && forall|c: usize| !#[trigger] has_member(communities, c, id)
}

/// The edge is at the node `id` and leads to a node that belongs to another community.
pub open spec fn leads_away(communities: Map<usize, Vec<String>>, e: EdgeView, id: Seq<char>) -> bool {
    ||| e.source == id && are_apart(communities, id, e.target)
    ||| e.source != id && e.target == id && are_apart(communities, id, e.source)
}

/// The number of edges at the node `id` that lead to nodes of other communities.
pub open spec fn edges_away(g: GraphView, communities: Map<usize, Vec<String>>, id: Seq<char>) -> nat {
    g.edges.filter(|e: EdgeView| leads_away(communities, e, id)).len()
}

} // verus!
