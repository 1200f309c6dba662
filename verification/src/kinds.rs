//! Kinds of nodes that the analyses treat apart: file hubs, method stubs and concepts.
use vstd::prelude::*;

use crate::graph::{GraphNode, GraphView, KnowledgeGraph, NodeView};
use crate::paths::{file_name_of, is_file_name, is_portable};
use crate::terms::{begins_in, is_call_stub, is_hub, is_proper};
use crate::text::{begins_with, ends_in_call, has_char, is_call_label, same_text, split, split_path};

verus! {

/// The node stands for a file: its label is the name of its source file.
pub open spec fn is_file(g: GraphView, n: NodeView) -> bool {
    n.source_file.len() > 0 && g.file_name(n.id) == Some(n.label)
}

/// The node is a stub: a method, or a function with at most one edge.
pub open spec fn is_stub(g: GraphView, n: NodeView) -> bool {
    ends_in_call(n.label) && ((n.label.len() > 0 && n.label[0] == '.') || g.degree(n.id) <= 1)
}

/// The node is a concept: it has no source file, or one without an extension.
pub open spec fn is_concept(n: NodeView) -> bool {
    n.source_file.len() == 0 || !split(n.source_file, '/').last().contains('.')
}

/// The analyses that pass over file hubs and stubs consider this node.
pub open spec fn is_entity(g: GraphView, n: NodeView) -> bool {
    !is_file(g, n) && !is_stub(g, n)
}

/// Is this a file-level hub node?
pub fn is_file_node(graph: &KnowledgeGraph, node_id: &str) -> (yes: bool)
    ensures
        yes == (graph@.has(node_id@) && is_file(graph@, graph@.node(node_id@))),
{
    match graph.position(node_id) {
        Some(i) => {
            let node: &GraphNode = &graph.nodes()[i];
            assert(graph@.nodes[i as int] == node@);
            if node.source_file.as_str().is_empty() {
                return false;
            }
            match graph.file_name(i) {
                Some(name) => same_text(node.label.as_str(), name.as_str()),
                None => false,
            }
        },
        None => false,
    }
}

/// Is this a method stub, such as `.method_name()`, or an isolated function?
pub fn is_method_stub(graph: &KnowledgeGraph, node_id: &str) -> (yes: bool)
    ensures
        yes == (graph@.has(node_id@) && is_stub(graph@, graph@.node(node_id@))),
{
    match graph.get_node(node_id) {
        Some(node) => {
            proof {
                let i = graph@.place(node_id@);
                assert(graph@.nodes[i].id == node_id@);
            }
            let call: bool = is_call_label(node.label.as_str());
            if begins_with(node.label.as_str(), '.') && call {
                return true;
            }
            call && graph.degree(node_id) <= 1
        },
        None => false,
    }
}

/// Is this a concept node, one with no file or no extension?
pub fn is_concept_node(graph: &KnowledgeGraph, node_id: &str) -> (yes: bool)
    ensures
        yes == (graph@.has(node_id@) && is_concept(graph@.node(node_id@))),
{
    match graph.get_node(node_id) {
        Some(node) => {
            if node.source_file.as_str().is_empty() {
                return true;
            }
            let parts: Vec<String> = split_path(node.source_file.as_str());
            proof {
                crate::text::split_nonempty(node.source_file@, '/');
                assert(parts@.len() == crate::text::texts(parts@).len());
            }
            !has_char(parts[parts.len() - 1].as_str(), '.')
        },
        None => false,
    }
}

/// A node whose source file has a path that means the same on every platform stands for a file
/// exactly if its label is what follows the last slash of the path, less trailing slashes and
/// dots.
pub proof fn file_hubs_by_path(g: GraphView, i: int)
    requires
        g.wf(),
        0 <= i < g.nodes.len(),
        is_portable(g.nodes[i].source_file),
    ensures
        is_file(g, g.nodes[i]) <==> g.nodes[i].source_file.len() > 0 && file_name_of(g.nodes[i].source_file) == Some(g.nodes[i].label),
{
    crate::graph::place_of_id(g, i);
    assert(is_file_name(g.nodes[i].source_file, g.names[i]));
}

/// Hubs, stubs and the nodes that are neither, in plain terms.
pub proof fn kinds_by_label(g: GraphView, i: int)
    requires
        g.wf(),
        0 <= i < g.nodes.len(),
    ensures
        is_file(g, g.nodes[i]) <==> is_hub(g, i),
        is_stub(g, g.nodes[i]) <==> is_call_stub(g, i),
        is_entity(g, g.nodes[i]) <==> is_proper(g, i),
{
    let label = g.nodes[i].label;
    crate::graph::place_of_id(g, i);
    crate::text::calls_end_in_parentheses(label);
    crate::graph::neighbors_across_edges(g, g.nodes[i].id);
    reveal_strlit(".");
    assert("."@ =~= seq!['.']);
    if label.len() > 0 && label[0] == '.' {
        assert(label =~= "."@ + label.skip(1));
    }
    if begins_in(label, "."@) {
        let rest = choose|rest: Seq<char>| label == #[trigger] ("."@ + rest);
        assert(label[0] == "."@[0]);
    }
}

/// A node is a concept exactly if it has no source file, or the path of the file has no dot
/// behind its last slash.
pub proof fn concepts_by_path(n: NodeView)
    ensures
        is_concept(n) <==> {
            ||| n.source_file == Seq::<char>::empty()
            ||| forall|i: int|
                0 <= i < n.source_file.len() && #[trigger] n.source_file[i] == '.' ==> exists|j: int|
                    i < j < n.source_file.len() && #[trigger] n.source_file[j] == '/'
        },
{
    last_piece(n.source_file, '/');
    let path = n.source_file;
    let last = split(path, '/').last();
    let from = path.len() - last.len();
    assert(path.len() == 0 <==> path =~= Seq::<char>::empty());
    if last.contains('.') {
        let k = choose|k: int| 0 <= k < last.len() && last[k] == '.';
        assert(path[from + k] == '.');
        assert forall|j: int| from + k < j < path.len() implies #[trigger] path[j] != '/' by {
            assert(path[j] == last[j - from]);
            assert(last.contains(last[j - from]));
        }
    } else {
        assert forall|i: int| 0 <= i < path.len() && #[trigger] path[i] == '.' implies exists|j: int|
            i < j < path.len() && #[trigger] path[j] == '/' by {
            if i >= from {
                assert(last[i - from] == path[i]);
                assert(last.contains('.'));
            }
            assert(from > 0);
            assert(path[from - 1] == '/');
        }
    }
}

/// The last piece of a text is what follows its last separator.
proof fn last_piece(s: Seq<char>, sep: char)
    ensures
        split(s, sep).last().len() <= s.len(),
        forall|k: int|
            0 <= k < split(s, sep).last().len() ==> #[trigger] split(s, sep).last()[k] == s[s.len() - split(s, sep).last().len() + k],
        !split(s, sep).last().contains(sep),
        split(s, sep).last().len() < s.len() ==> s[s.len() - split(s, sep).last().len() - 1] == sep,
    decreases s.len(),
{
    crate::text::split_nonempty(s, sep);
    crate::text::pieces_hold_no_separator(s, sep);
    let all = split(s, sep);
    assert(!all[all.len() - 1].contains(sep));
    if s.len() > 0 {
        last_piece(s.drop_last(), sep);
        crate::text::split_nonempty(s.drop_last(), sep);
    }
}

} // verus!
