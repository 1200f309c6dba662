//! The knowledge graph: nodes with distinct ids, and edges between them.
use vstd::hash_map::StringHashMap;
use vstd::prelude::*;

use crate::paths::{is_file_name, name_view, platform_file_name};
use crate::sequences::{are_places, pushed_contains};
use crate::terms::{across, edges_at, is_at};
use crate::text::texts;

verus! {

/// How sure the extraction was of an edge.
#[derive(Clone, Copy, Debug, PartialEq, Eq, Structural)]
pub enum Confidence {
    Extracted,
    Inferred,
    Ambiguous,
}

/// A node: an entity found in some source file.
#[derive(Debug)]
pub struct GraphNode {
    pub id: String,
    pub label: String,
    pub source_file: String,
    pub community: Option<usize>,
}

/// An edge: a relation between two entities.
#[derive(Debug)]
pub struct GraphEdge {
    pub source: String,
    pub target: String,
    pub relation: String,
    pub confidence: Confidence,
}

/// Why a node or an edge cannot be added.
#[derive(Debug)]
pub enum GraphError {
    /// A node with this id is there already.
    DuplicateNode(String),
    /// No node has this id.
    NodeNotFound(String),
}

impl Clone for GraphNode {
    fn clone(&self) -> (copy: GraphNode)
        ensures
            copy == *self,
    {
        GraphNode {
            id: self.id.clone(),
            label: self.label.clone(),
            source_file: self.source_file.clone(),
            community: self.community,
        }
    }
}

impl Clone for GraphEdge {
    fn clone(&self) -> (copy: GraphEdge)
        ensures
            copy == *self,
    {
        GraphEdge {
            source: self.source.clone(),
            target: self.target.clone(),
            relation: self.relation.clone(),
            confidence: self.confidence,
        }
    }
}

/// What a node says.
pub struct NodeView {
    pub id: Seq<char>,
    pub label: Seq<char>,
    pub source_file: Seq<char>,
    pub community: Option<usize>,
}

/// What an edge says.
pub struct EdgeView {
    pub source: Seq<char>,
    pub target: Seq<char>,
    pub relation: Seq<char>,
    pub confidence: Confidence,
}

/// What a graph says: its nodes and edges, each in the order in which they were added, and for
/// each node the file name that the platform reads from the path of its source file.
pub struct GraphView {
    pub nodes: Seq<NodeView>,
    pub edges: Seq<EdgeView>,
    pub names: Seq<Option<Seq<char>>>,
}

impl View for GraphNode {
    type V = NodeView;

    open spec fn view(&self) -> NodeView {
        NodeView {
            id: self.id@,
            label: self.label@,
            source_file: self.source_file@,
            community: self.community,
        }
    }
}

impl View for GraphEdge {
    type V = EdgeView;

    open spec fn view(&self) -> EdgeView {
        EdgeView {
            source: self.source@,
            target: self.target@,
            relation: self.relation@,
            confidence: self.confidence,
        }
    }
}

/// What the nodes say.
pub open spec fn node_views(nodes: Seq<GraphNode>) -> Seq<NodeView> {
    Seq::new(nodes.len(), |i: int| nodes[i]@)
}

/// What the edges say.
pub open spec fn edge_views(edges: Seq<GraphEdge>) -> Seq<EdgeView> {
    Seq::new(edges.len(), |i: int| edges[i]@)
}

/// The texts of names that may be missing.
pub open spec fn name_views(names: Seq<Option<String>>) -> Seq<Option<Seq<char>>> {
    Seq::new(names.len(), |i: int| name_view(names[i]))
}

/// The other ends of the edges at the node `id`, one for each edge, in the order of the edges;
/// an edge from a node to itself counts once.
pub open spec fn other_ends(edges: Seq<EdgeView>, id: Seq<char>) -> Seq<Seq<char>>
    decreases edges.len(),
{
    if edges.len() == 0 {
        Seq::empty()
    } else {
        let before = other_ends(edges.drop_last(), id);
        let e = edges.last();
        if e.source == id {
            before.push(e.target)
        } else if e.target == id {
            before.push(e.source)
        } else {
            before
        }
    }
}

impl GraphView {
    /// Some node has this id.
    pub open spec fn has(self, id: Seq<char>) -> bool {
        exists|i: int| 0 <= i < self.nodes.len() && (#[trigger] self.nodes[i]).id == id
    }

    /// The position of the node with this id.
    pub open spec fn place(self, id: Seq<char>) -> int {
        choose|i: int| 0 <= i < self.nodes.len() && (#[trigger] self.nodes[i]).id == id
    }

    /// The node with this id.
    pub open spec fn node(self, id: Seq<char>) -> NodeView {
        self.nodes[self.place(id)]
    }

    /// The file name of the source file of the node with this id.
    pub open spec fn file_name(self, id: Seq<char>) -> Option<Seq<char>> {
        self.names[self.place(id)]
    }

    /// The ids of the nodes.
    pub open spec fn ids(self) -> Seq<Seq<char>> {
        Seq::new(self.nodes.len(), |i: int| self.nodes[i].id)
    }

    /// No two nodes share an id, both ends of every edge are nodes, and the file names are those
    /// of the source files.
    pub open spec fn wf(self) -> bool {
        &&& forall|i: int, j: int|
            0 <= i < self.nodes.len() && 0 <= j < self.nodes.len() && i != j
                ==> (#[trigger] self.nodes[i]).id != (#[trigger] self.nodes[j]).id
        &&& forall|e: int|
            #![trigger self.edges[e]]
            0 <= e < self.edges.len() ==> self.has(self.edges[e].source) && self.has(self.edges[e].target)
        &&& self.names.len() == self.nodes.len()
        &&& forall|i: int| 0 <= i < self.names.len() ==> is_file_name(self.nodes[i].source_file, #[trigger] self.names[i])
    }

    /// The ids of the neighbours of the node `id`, one for each of its edges.
    pub open spec fn neighbors(self, id: Seq<char>) -> Seq<Seq<char>> {
        other_ends(self.edges, id)
    }

    /// The number of edges at the node `id`.
    pub open spec fn degree(self, id: Seq<char>) -> nat {
        self.neighbors(id).len()
    }
}

/// In a well-formed graph the id of the `i`-th node leads back to it.
pub proof fn place_of_id(g: GraphView, i: int)
    requires
        g.wf(),
        0 <= i < g.nodes.len(),
    ensures
        g.has(g.nodes[i].id),
        g.place(g.nodes[i].id) == i,
        g.node(g.nodes[i].id) == g.nodes[i],
{
    let p = g.place(g.nodes[i].id);
    assert(0 <= p < g.nodes.len() && g.nodes[p].id == g.nodes[i].id);
}

/// The other ends of the edges of a well-formed graph are nodes.
pub proof fn neighbors_are_nodes(g: GraphView, id: Seq<char>, k: int)
    requires
        g.wf(),
        0 <= k < g.neighbors(id).len(),
    ensures
        g.has(g.neighbors(id)[k]),
    decreases g.edges.len(),
{
    let shorter = GraphView { edges: g.edges.drop_last(), ..g };
    assert(shorter.wf()) by {
        assert forall|e: int| #![trigger shorter.edges[e]] 0 <= e < shorter.edges.len() implies shorter.has(shorter.edges[e].source)
            && shorter.has(shorter.edges[e].target) by {
            assert(g.has(g.edges[e].source) && g.has(g.edges[e].target));
        }
    }
    let e = g.edges.last();
    assert(g.has(g.edges[g.edges.len() - 1].source) && g.has(g.edges[g.edges.len() - 1].target));
    if k < shorter.neighbors(id).len() {
        neighbors_are_nodes(shorter, id, k);
        assert(shorter.has(g.neighbors(id)[k]));
    }
}

/// Being neighbours is symmetric.
pub proof fn neighbors_symmetric(g: GraphView, a: Seq<char>, b: Seq<char>)
    ensures
        g.neighbors(a).contains(b) <==> g.neighbors(b).contains(a),
    decreases g.edges.len(),
{
    if g.edges.len() > 0 {
        let shorter = GraphView { edges: g.edges.drop_last(), ..g };
        neighbors_symmetric(shorter, a, b);
        let e = g.edges.last();
        pushed_contains(shorter.neighbors(a), e.target, b);
        pushed_contains(shorter.neighbors(a), e.source, b);
        pushed_contains(shorter.neighbors(b), e.target, a);
        pushed_contains(shorter.neighbors(b), e.source, a);
    }
}

/// The graph as it is stored: `index` finds the position of an id, and `links` holds for each
/// node the positions of its neighbours, `names` the file name of its source file.
struct GraphData {
    nodes: Vec<GraphNode>,
    edges: Vec<GraphEdge>,
    index: StringHashMap<usize>,
    links: Vec<Vec<usize>>,
    names: Vec<Option<String>>,
}

impl GraphData {
    spec fn says(self) -> GraphView {
        GraphView { nodes: node_views(self.nodes@), edges: edge_views(self.edges@), names: name_views(self.names@) }
    }

    spec fn indexed(self) -> bool {
        &&& forall|id: Seq<char>| #[trigger] self.index@.contains_key(id) ==> self.index@[id] < self.nodes@.len()
            && self.nodes@[self.index@[id] as int].id@ == id
        &&& forall|i: int|
            0 <= i < self.nodes@.len() ==> self.index@.contains_key((#[trigger] self.nodes@[i]).id@)
                && self.index@[self.nodes@[i].id@] == i
    }

    /// `links` of the node at `i` stand for the other ends of its edges.
    spec fn linked(self, i: int) -> bool {
        let ends = other_ends(edge_views(self.edges@), self.nodes@[i].id@);
        &&& self.links@[i]@.len() == ends.len()
        &&& forall|k: int|
            0 <= k < ends.len() ==> (#[trigger] self.links@[i]@[k]) < self.nodes@.len()
                && self.nodes@[self.links@[i]@[k] as int].id@ == ends[k]
    }

    spec fn wf(self) -> bool {
        &&& self.indexed()
        &&& self.says().wf()
        &&& self.links@.len() == self.nodes@.len()
        &&& forall|i: int| 0 <= i < self.nodes@.len() ==> #[trigger] self.linked(i)
    }

    proof fn index_finds(self, id: Seq<char>)
        requires
            self.wf(),
        ensures
            self.index@.contains_key(id) <==> self.says().has(id),
            self.index@.contains_key(id) ==> self.says().place(id) == self.index@[id],
    {
        let g = self.says();
        if self.index@.contains_key(id) {
            let i = self.index@[id] as int;
            assert(g.nodes[i].id == id);
            place_of_id(g, i);
        }
        if g.has(id) {
            let i = choose|i: int| 0 <= i < g.nodes.len() && (#[trigger] g.nodes[i]).id == id;
            assert(self.index@.contains_key(self.nodes@[i].id@));
        }
    }
}

/// A graph whose nodes have distinct ids and whose edges run between its nodes.
pub struct KnowledgeGraph {
    data: GraphData,
}

impl View for KnowledgeGraph {
    type V = GraphView;

    closed spec fn view(&self) -> GraphView {
        self.data.says()
    }
}

impl KnowledgeGraph {
    #[verifier::type_invariant]
    spec fn stored_well(self) -> bool {
        self.data.wf()
    }

    /// The graph without nodes.
    pub fn new() -> (g: KnowledgeGraph)
        ensures
            g@.nodes.len() == 0,
            g@.edges.len() == 0,
            g@.names.len() == 0,
            g@.wf(),
    {
        let data: GraphData = GraphData {
            nodes: Vec::new(),
            edges: Vec::new(),
            index: StringHashMap::new(),
            links: Vec::new(),
            names: Vec::new(),
        };
        KnowledgeGraph { data }
    }

    /// Adds a node, unless its id is taken.
    pub fn add_node(&mut self, node: GraphNode) -> (done: Result<(), GraphError>)
        ensures
            final(self)@.wf(),
            match done {
                Ok(_) => !old(self)@.has(node@.id) && is_file_name(node@.source_file, final(self)@.names.last())
                    && final(self)@ == (GraphView {
                    nodes: old(self)@.nodes.push(node@),
                    edges: old(self)@.edges,
                    names: old(self)@.names.push(final(self)@.names.last()),
                }),
                Err(GraphError::DuplicateNode(id)) => old(self)@.has(node@.id) && id@ == node@.id
                    && final(self)@ == old(self)@,
                Err(GraphError::NodeNotFound(_)) => false,
            },
    {
        proof {
            use_type_invariant(&*self);
            self.data.index_finds(node.id@);
        }
        if self.data.index.contains_key(node.id.as_str()) {
            return Err(GraphError::DuplicateNode(node.id.clone()));
        }
        let mut data: GraphData = GraphData {
            nodes: Vec::new(),
            edges: Vec::new(),
            index: StringHashMap::new(),
            links: Vec::new(),
            names: Vec::new(),
        };
        std::mem::swap(&mut data, &mut self.data);
        let ghost pre = data;
        let place: usize = data.nodes.len();
        data.index.insert(node.id.clone(), place);
        let none: Vec<usize> = Vec::new();
        data.links.push(none);
        data.names.push(platform_file_name(node.source_file.as_str()));
        data.nodes.push(node);
        proof {
            let g = pre.says();
            let h = data.says();
            assert(h.nodes =~= g.nodes.push(node@));
            assert(h.edges == g.edges);
            assert(h.names =~= g.names.push(h.names.last()));
            no_ends(g, node.id@);
            assert forall|i: int| 0 <= i < data.nodes@.len() implies #[trigger] data.linked(i) by {
                if i < pre.nodes@.len() {
                    assert(pre.linked(i));
                    assert(data.nodes@[i] == pre.nodes@[i]);
                    let ends = other_ends(edge_views(data.edges@), data.nodes@[i].id@);
                    assert forall|k: int| 0 <= k < ends.len() implies (#[trigger] data.links@[i]@[k]) < data.nodes@.len()
                        && data.nodes@[data.links@[i]@[k] as int].id@ == ends[k] by {
                        assert(pre.links@[i]@[k] < pre.nodes@.len());
                    }
                }
            }
            assert(data.indexed()) by {
                assert forall|id: Seq<char>| #[trigger] data.index@.contains_key(id) implies data.index@[id] < data.nodes@.len()
                    && data.nodes@[data.index@[id] as int].id@ == id by {
                    if id != node.id@ {
                        assert(pre.index@.contains_key(id));
                    }
                }
                assert forall|i: int| 0 <= i < data.nodes@.len() implies data.index@.contains_key((#[trigger] data.nodes@[i]).id@)
                    && data.index@[data.nodes@[i].id@] == i by {
                    if i < pre.nodes@.len() {
                        assert(pre.index@.contains_key(pre.nodes@[i].id@));
                    }
                }
            }
            assert(h.wf()) by {
                assert forall|i: int, j: int| 0 <= i < h.nodes.len() && 0 <= j < h.nodes.len() && i != j implies
                    (#[trigger] h.nodes[i]).id != (#[trigger] h.nodes[j]).id by {
                    if h.nodes[i].id == h.nodes[j].id {
                        assert(data.index@[data.nodes@[i].id@] == i);
                        assert(data.index@[data.nodes@[j].id@] == j);
                    }
                }
                assert forall|e: int| #![trigger h.edges[e]] 0 <= e < h.edges.len() implies h.has(h.edges[e].source) && h.has(h.edges[e].target) by {
                    assert(g.has(g.edges[e].source) && g.has(g.edges[e].target));
                    let s = g.place(g.edges[e].source);
                    let t = g.place(g.edges[e].target);
                    assert(h.nodes[s] == g.nodes[s] && h.nodes[t] == g.nodes[t]);
                }
                assert forall|i: int| 0 <= i < h.names.len() implies is_file_name(h.nodes[i].source_file, #[trigger] h.names[i]) by {
                    if i < g.names.len() {
                        assert(is_file_name(g.nodes[i].source_file, g.names[i]));
                    }
                }
            }
        }
        self.data = data;
        Ok(())
    }

    /// Adds an edge, unless one of its ends is not there; the source is looked for first.
    pub fn add_edge(&mut self, edge: GraphEdge) -> (done: Result<(), GraphError>)
        ensures
            final(self)@.wf(),
            match done {
                Ok(_) => old(self)@.has(edge@.source) && old(self)@.has(edge@.target) && final(self)@ == (GraphView {
                    nodes: old(self)@.nodes,
                    edges: old(self)@.edges.push(edge@),
                    names: old(self)@.names,
                }),
                Err(GraphError::NodeNotFound(id)) => {
                    &&& id@ == if old(self)@.has(edge@.source) { edge@.target } else { edge@.source }
                    &&& !old(self)@.has(id@)
                    &&& final(self)@ == old(self)@
                },
                Err(GraphError::DuplicateNode(_)) => false,
            },
    {
        proof {
            use_type_invariant(&*self);
            self.data.index_finds(edge.source@);
            self.data.index_finds(edge.target@);
        }
        let s: usize = match self.data.index.get(edge.source.as_str()) {
            Some(s) => *s,
            None => {
                return Err(GraphError::NodeNotFound(edge.source.clone()));
            },
        };
        let t: usize = match self.data.index.get(edge.target.as_str()) {
            Some(t) => *t,
            None => {
                return Err(GraphError::NodeNotFound(edge.target.clone()));
            },
        };
        let mut data: GraphData = GraphData {
            nodes: Vec::new(),
            edges: Vec::new(),
            index: StringHashMap::new(),
            links: Vec::new(),
            names: Vec::new(),
        };
        std::mem::swap(&mut data, &mut self.data);
        let ghost pre = data;
        data.links[s].push(t);
        if s != t {
            data.links[t].push(s);
        }
        data.edges.push(edge);
        proof {
            let g = pre.says();
            let h = data.says();
            assert(h.edges =~= g.edges.push(edge@));
            assert(h.edges.drop_last() =~= g.edges);
            assert(h.nodes == g.nodes);
            assert forall|i: int| 0 <= i < data.nodes@.len() implies #[trigger] data.linked(i) by {
                assert(pre.linked(i));
                let id = data.nodes@[i].id@;
                let ends = other_ends(h.edges, id);
                assert(pre.index@[pre.nodes@[i].id@] == i);
                assert(i == s <==> id == edge.source@);
                assert(i == t <==> id == edge.target@);
                assert forall|k: int| 0 <= k < ends.len() implies (#[trigger] data.links@[i]@[k]) < data.nodes@.len()
                    && data.nodes@[data.links@[i]@[k] as int].id@ == ends[k] by {
                    if k < pre.links@[i]@.len() {
                        assert(pre.links@[i]@[k] < pre.nodes@.len());
                    }
                }
            }
            assert(h.wf()) by {
                assert forall|e: int| #![trigger h.edges[e]] 0 <= e < h.edges.len() implies h.has(h.edges[e].source) && h.has(h.edges[e].target) by {
                    if e < g.edges.len() {
                        assert(g.has(g.edges[e].source) && g.has(g.edges[e].target));
                        assert(h.has(g.edges[e].source) && h.has(g.edges[e].target));
                    } else {
                        assert(g.has(edge@.source) && g.has(edge@.target));
                        assert(h.has(edge@.source) && h.has(edge@.target));
                    }
                }
            }
        }
        self.data = data;
        Ok(())
    }

    /// The nodes, in the order in which they were added.
    pub fn nodes(&self) -> (nodes: &Vec<GraphNode>)
        ensures
            node_views(nodes@) == self@.nodes,
            self@.wf(),
    {
        proof {
            use_type_invariant(self);
        }
        &self.data.nodes
    }

    /// The edges, in the order in which they were added.
    pub fn edges(&self) -> (edges: &Vec<GraphEdge>)
        ensures
            edge_views(edges@) == self@.edges,
            self@.wf(),
    {
        proof {
            use_type_invariant(self);
        }
        &self.data.edges
    }

    /// The number of nodes.
    pub fn node_count(&self) -> (n: usize)
        ensures
            n == self@.nodes.len(),
            self@.wf(),
    {
        proof {
            use_type_invariant(self);
        }
        self.data.nodes.len()
    }

    /// The number of edges.
    pub fn edge_count(&self) -> (n: usize)
        ensures
            n == self@.edges.len(),
            self@.wf(),
    {
        proof {
            use_type_invariant(self);
        }
        self.data.edges.len()
    }

    /// The ids of the nodes.
    pub fn node_ids(&self) -> (ids: Vec<String>)
        ensures
            texts(ids@) == self@.ids(),
            self@.wf(),
    {
        proof {
            use_type_invariant(self);
        }
        let nodes: &Vec<GraphNode> = &self.data.nodes;
        let mut ids: Vec<String> = Vec::new();
        let mut i: usize = 0;
        while i < nodes.len()
            invariant
                node_views(nodes@) == self@.nodes,
                i <= nodes@.len(),
                ids@.len() == i,
                forall|k: int| 0 <= k < i ==> (#[trigger] ids@[k])@ == nodes@[k].id@,
            decreases nodes@.len() - i,
        {
            ids.push(nodes[i].id.clone());
            i += 1;
        }
        assert forall|k: int| 0 <= k < ids@.len() implies ids@[k]@ == #[trigger] self@.ids()[k] by {
            assert(node_views(nodes@)[k] == nodes@[k]@);
        }
        assert(texts(ids@) =~= self@.ids());
        ids
    }

    /// The position of the node with this id.
    pub fn position(&self, id: &str) -> (at: Option<usize>)
        ensures
            self@.wf(),
            match at {
                Some(i) => self@.has(id@) && self@.place(id@) == i && i < self@.nodes.len() && self@.nodes[i as int].id == id@,
                None => !self@.has(id@),
            },
    {
        proof {
            use_type_invariant(self);
            self.data.index_finds(id@);
        }
        match self.data.index.get(id) {
            Some(i) => Some(*i),
            None => None,
        }
    }

    /// The node with this id.
    pub fn get_node(&self, id: &str) -> (node: Option<&GraphNode>)
        ensures
            self@.wf(),
            match node {
                Some(node) => self@.has(id@) && node@ == self@.node(id@),
                None => !self@.has(id@),
            },
    {
        proof {
            use_type_invariant(self);
        }
        match self.position(id) {
            Some(i) => Some(&self.data.nodes[i]),
            None => None,
        }
    }

    /// The positions of the neighbours of the `i`-th node, one for each of its edges.
    pub fn links(&self, i: usize) -> (links: &Vec<usize>)
        requires
            i < self@.nodes.len(),
        ensures
            self@.wf(),
            links@.len() == self@.degree(self@.nodes[i as int].id),
            forall|k: int| 0 <= k < links@.len() ==> (#[trigger] links@[k]) < self@.nodes.len()
                && self@.nodes[links@[k] as int].id == self@.neighbors(self@.nodes[i as int].id)[k],
    {
        proof {
            use_type_invariant(self);
            assert(self.data.linked(i as int));
        }
        &self.data.links[i]
    }

    /// The file name of the source file of the `i`-th node.
    pub fn file_name(&self, i: usize) -> (name: Option<&String>)
        requires
            i < self@.nodes.len(),
        ensures
            self@.wf(),
            match name {
                Some(name) => self@.names[i as int] == Some(name@),
                None => self@.names[i as int] is None,
            },
    {
        proof {
            use_type_invariant(self);
            assert(self@.names[i as int] == name_view(self.data.names@[i as int]));
        }
        match &self.data.names[i] {
            Some(name) => Some(name),
            None => None,
        }
    }

    /// The number of edges at the node with this id; none if there is no such node.
    pub fn degree(&self, id: &str) -> (n: usize)
        ensures
            n == self@.degree(id@),
    {
        match self.position(id) {
            Some(i) => self.links(i).len(),
            None => {
                proof {
                    no_ends(self@, id@);
                }
                0
            },
        }
    }

    /// The ids of the neighbours of the node with this id, one for each of its edges; none if
    /// there is no such node.
    pub fn neighbor_ids(&self, id: &str) -> (ids: Vec<String>)
        ensures
            texts(ids@) == self@.neighbors(id@),
            self@.wf(),
    {
        let mut ids: Vec<String> = Vec::new();
        match self.position(id) {
            Some(i) => {
                let nodes: &Vec<GraphNode> = self.nodes();
                let links: &Vec<usize> = self.links(i);
                let mut k: usize = 0;
                while k < links.len()
                    invariant
                        self@.wf(),
                        node_views(nodes@) == self@.nodes,
                        links@.len() == self@.neighbors(id@).len(),
                        forall|k: int| 0 <= k < links@.len() ==> (#[trigger] links@[k]) < self@.nodes.len()
                            && self@.nodes[links@[k] as int].id == self@.neighbors(id@)[k],
                        k <= links@.len(),
                        ids@.len() == k,
                        forall|q: int| 0 <= q < k ==> (#[trigger] ids@[q])@ == self@.neighbors(id@)[q],
                    decreases links@.len() - k,
                {
                    let j: usize = links[k];
                    assert(self@.nodes[j as int] == nodes@[j as int]@);
                    ids.push(nodes[j].id.clone());
                    k += 1;
                }
            },
            None => {
                proof {
                    no_ends(self@, id@);
                }
            },
        }
        assert(texts(ids@) =~= self@.neighbors(id@));
        ids
    }
}

/// In a well-formed graph, no edge is at an id that no node has.
pub proof fn no_ends(g: GraphView, id: Seq<char>)
    requires
        g.wf(),
        !g.has(id),
    ensures
        g.neighbors(id).len() == 0,
    decreases g.edges.len(),
{
    if g.edges.len() > 0 {
        let shorter = GraphView { edges: g.edges.drop_last(), ..g };
        assert(shorter.wf()) by {
            assert forall|e: int| #![trigger shorter.edges[e]] 0 <= e < shorter.edges.len() implies shorter.has(shorter.edges[e].source)
                && shorter.has(shorter.edges[e].target) by {
                assert(g.has(g.edges[e].source) && g.has(g.edges[e].target));
                let s = g.place(g.edges[e].source);
                let t = g.place(g.edges[e].target);
                assert(shorter.nodes[s].id == g.edges[e].source && shorter.nodes[t].id == g.edges[e].target);
            }
        }
        assert(!shorter.has(id)) by {
            if shorter.has(id) {
                let i = shorter.place(id);
                assert(g.nodes[i].id == id);
            }
        }
        no_ends(shorter, id);
        assert(g.has(g.edges[g.edges.len() - 1].source) && g.has(g.edges[g.edges.len() - 1].target));
    }
}

/// The neighbours of a node are the other ends of the edges at it, in the order of the edges, and
/// its degree is the number of these edges.
pub proof fn neighbors_across_edges(g: GraphView, id: Seq<char>) -> (at: Seq<int>)
    ensures
        are_places(g.edges.len(), |e: int| is_at(g, e, id), at),
        g.neighbors(id).len() == at.len(),
        forall|k: int| 0 <= k < at.len() ==> #[trigger] g.neighbors(id)[k] == across(g, at[k], id),
        g.degree(id) == at.len(),
        g.degree(id) == edges_at(g, id),
    decreases g.edges.len(),
{
    let wanted = |e: EdgeView| e.source == id || e.target == id;
    if g.edges.len() == 0 {
        crate::sequences::filter_none(g.edges, wanted);
        assert(g.edges.take(0) =~= g.edges);
        Seq::empty()
    } else {
        let last = g.edges.len() - 1;
        let shorter = GraphView { edges: g.edges.drop_last(), ..g };
        let before = neighbors_across_edges(shorter, id);
        crate::sequences::filter_next(g.edges, wanted, last);
        assert(g.edges.take(last + 1) =~= g.edges);
        assert(g.edges.take(last) =~= shorter.edges);
        assert forall|k: int| 0 <= k < before.len() implies 0 <= (#[trigger] before[k]) < last && is_at(g, before[k], id) && across(
            g,
            before[k],
            id,
        ) == across(shorter, before[k], id) by {
            assert(is_at(shorter, before[k], id));
        }
        let at = if is_at(g, last, id) {
            before.push(last)
        } else {
            before
        };
        assert forall|e: int| 0 <= e < g.edges.len() && #[trigger] is_at(g, e, id) implies at.contains(e) by {
            if e < last {
                assert(is_at(shorter, e, id));
                assert((|e: int| is_at(shorter, e, id))(e));
                assert(before.contains(e));
                let k = choose|k: int| 0 <= k < before.len() && before[k] == e;
                assert(at[k] == e);
            } else {
                assert(at[before.len() as int] == e);
            }
        }
        at
    }
}

/// A graph has an id exactly if one of its nodes has it, and then finds that node and its file
/// name by the id.
pub proof fn ids_find_nodes(g: GraphView, id: Seq<char>)
    ensures
        g.has(id) <==> exists|i: int| 0 <= i < g.nodes.len() && (#[trigger] g.nodes[i]).id == id,
        g.ids().len() == g.nodes.len(),
        forall|i: int| 0 <= i < g.nodes.len() ==> #[trigger] g.ids()[i] == g.nodes[i].id,
        g.wf() ==> forall|i: int|
            0 <= i < g.nodes.len() && (#[trigger] g.nodes[i]).id == id ==> g.place(id) == i && g.node(id) == g.nodes[i] && g.file_name(id)
                == g.names[i],
{
    if g.wf() {
        assert forall|i: int| 0 <= i < g.nodes.len() && (#[trigger] g.nodes[i]).id == id implies g.place(id) == i && g.node(id) == g.nodes[i]
            && g.file_name(id) == g.names[i] by {
            place_of_id(g, i);
        }
    }
}

/// A graph is well-formed exactly if its nodes have different ids, its edges run between its
/// nodes, and each node has a file name that its source file can have.
pub proof fn what_is_well_formed(g: GraphView)
    ensures
        g.wf() <==> {
            &&& forall|i: int, j: int|
                0 <= i < j < g.nodes.len() ==> (#[trigger] g.nodes[i]).id != (#[trigger] g.nodes[j]).id
            &&& forall|e: int|
                0 <= e < g.edges.len() ==> (exists|i: int, j: int|
                    0 <= i < g.nodes.len() && 0 <= j < g.nodes.len() && (#[trigger] g.nodes[i]).id == (#[trigger] g.edges[e]).source && (
                    #[trigger] g.nodes[j]).id == g.edges[e].target)
            &&& g.names.len() == g.nodes.len()
            &&& forall|i: int| 0 <= i < g.nodes.len() ==> is_file_name(#[trigger] g.nodes[i].source_file, g.names[i])
        },
{
    if g.wf() {
        assert forall|e: int| 0 <= e < g.edges.len() implies (exists|i: int, j: int|
            0 <= i < g.nodes.len() && 0 <= j < g.nodes.len() && (#[trigger] g.nodes[i]).id == (#[trigger] g.edges[e]).source && (
            #[trigger] g.nodes[j]).id == g.edges[e].target) by {
            assert(g.has(g.edges[e].source) && g.has(g.edges[e].target));
            let i = g.place(g.edges[e].source);
            let j = g.place(g.edges[e].target);
            assert(g.nodes[i].id == g.edges[e].source && g.nodes[j].id == g.edges[e].target);
        }
        assert forall|i: int| 0 <= i < g.nodes.len() implies is_file_name(#[trigger] g.nodes[i].source_file, g.names[i]) by {
            let name = g.names[i];
        }
    }
}

/// Nodes and edges say what their fields hold.
pub proof fn graph_views(n: GraphNode, e: GraphEdge)
    ensures
        n@.id == n.id@ && n@.label == n.label@ && n@.source_file == n.source_file@ && n@.community == n.community,
        e@.source == e.source@ && e@.target == e.target@ && e@.relation == e.relation@ && e@.confidence == e.confidence,
{
}

} // verus!
