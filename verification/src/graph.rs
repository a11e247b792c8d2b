//! The graph: nodes and edges with their labels, the annotations beside them,
//! and the place where the graph is kept.

use vstd::prelude::*;
use vstd::string::StringExecFns;
use petgraph::stable_graph::StableGraph;
use petgraph::Directed;
use crate::clock::timestamp_now;
use crate::label::Label;
use crate::overlay::{
    annotations_of, overlay_map, texts_under, with_text_added, with_texts, Annotations, NodeMeta,
    Overlay, OverlayModel, StringSet,
};
use crate::text::{decimal, lemma_numbered_texts_differ, push_decimal};
use crate::topology::{
    topology_add_edge, topology_add_node, topology_contains_node, topology_edges, topology_new,
    topology_nodes,
};
use crate::wire::{lemma_lies_at_join, lemma_lies_at_split, models, Wire};

verus! {

/// Why the graph refused a request.
#[derive(Clone, Copy, Debug, PartialEq, Eq, Structural)]
pub enum GraphError {
    /// An endpoint is not a node of the graph.
    UnknownNode,
    /// The bytes are not the encoding of a graph.
    Corrupt,
}

/// A node: the label that the caller attached to it.
#[derive(Clone, Debug)]
pub struct Node<K> {
    pub label: K,
}

/// An edge: where it starts, where it ends, and its label.
#[derive(Clone, Debug)]
pub struct Edge<V> {
    pub source: usize,
    pub target: usize,
    pub label: V,
}

impl<K: Wire> Wire for Node<K> {
    type Model = K::Model;

    open spec fn model(&self) -> K::Model {
        self.label.model()
    }

    open spec fn valid(m: K::Model) -> bool {
        K::valid(m)
    }

    /// A node is stored as its label.
    open spec fn image(m: K::Model) -> Seq<u8> {
        K::image(m)
    }

    open spec fn parse(s: Seq<u8>, at: int) -> Option<(K::Model, int)> {
        K::parse(s, at)
    }

    proof fn lemma_parse_image(m: K::Model, s: Seq<u8>, at: int) {
        K::lemma_parse_image(m, s, at);
    }

    proof fn lemma_image_parse(s: Seq<u8>, at: int) {
        K::lemma_image_parse(s, at);
    }

    fn write(&self, out: &mut Vec<u8>) {
        self.label.write(out);
    }

    fn read(bytes: &[u8], at: usize) -> (r: Option<(Self, usize)>) {
        match K::read(bytes, at) {
            Some((label, end)) => Some((Node { label }, end)),
            None => None,
        }
    }
}

impl<V: Wire> Wire for Edge<V> {
    type Model = (usize, usize, V::Model);

    open spec fn model(&self) -> (usize, usize, V::Model) {
        (self.source, self.target, self.label.model())
    }

    open spec fn valid(m: (usize, usize, V::Model)) -> bool {
        V::valid(m.2)
    }

    /// An edge is stored as its source, its target and its label.
    open spec fn image(m: (usize, usize, V::Model)) -> Seq<u8> {
        usize::image(m.0) + usize::image(m.1) + V::image(m.2)
    }

    open spec fn parse(s: Seq<u8>, at: int) -> Option<((usize, usize, V::Model), int)> {
        match usize::parse(s, at) {
            Some((source, after_source)) => match usize::parse(s, after_source) {
                Some((target, after_target)) => match V::parse(s, after_target) {
                    Some((label, end)) => Some(((source, target, label), end)),
                    None => None,
                },
                None => None,
            },
            None => None,
        }
    }

    proof fn lemma_parse_image(m: (usize, usize, V::Model), s: Seq<u8>, at: int) {
        let a = usize::image(m.0);
        let b = usize::image(m.1);
        lemma_lies_at_split(s, at, a + b, V::image(m.2));
        lemma_lies_at_split(s, at, a, b);
        usize::lemma_parse_image(m.0, s, at);
        usize::lemma_parse_image(m.1, s, at + a.len());
        V::lemma_parse_image(m.2, s, at + a.len() + b.len());
    }

    proof fn lemma_image_parse(s: Seq<u8>, at: int) {
        usize::lemma_image_parse(s, at);
        let (source, after_source) = usize::parse(s, at)->0;
        usize::lemma_image_parse(s, after_source);
        let (target, after_target) = usize::parse(s, after_source)->0;
        V::lemma_image_parse(s, after_target);
        let (label, end) = V::parse(s, after_target)->0;
        lemma_lies_at_join(s, at, usize::image(source), usize::image(target));
        lemma_lies_at_join(s, at, usize::image(source) + usize::image(target), V::image(label));
    }

    fn write(&self, out: &mut Vec<u8>) {
        self.source.write(out);
        self.target.write(out);
        self.label.write(out);
    }

    fn read(bytes: &[u8], at: usize) -> (r: Option<(Self, usize)>) {
        match usize::read(bytes, at) {
            Some((source, after_source)) => match usize::read(bytes, after_source) {
                Some((target, after_target)) => match V::read(bytes, after_target) {
                    Some((label, end)) => Some((Edge { source, target, label }, end)),
                    None => None,
                },
                None => None,
            },
            None => None,
        }
    }
}

/// What a graph is: its node labels and its edges in the order in which they
/// were added, the stored annotations, and the path.
pub struct GraphModel<KM, VM> {
    pub nodes: Seq<KM>,
    pub edges: Seq<(usize, usize, VM)>,
    pub meta: OverlayModel,
    pub path: Seq<char>,
}

impl<KM, VM> GraphModel<KM, VM> {
    /// What the annotations say, by node.
    pub open spec fn annotations(self) -> Map<usize, Annotations> {
        overlay_map(self.meta)
    }

    /// Every edge runs between nodes of the graph, and the annotations are
    /// stored in order.
    pub open spec fn wf(self) -> bool {
        &&& forall|i: int|
            0 <= i < self.edges.len() ==> (#[trigger] self.edges[i]).0 < self.nodes.len()
                && self.edges[i].1 < self.nodes.len()
        &&& Overlay::valid(self.meta)
    }
}

/// The key under which a node's time of creation is noted.
pub open spec fn created_key() -> Seq<char> {
    "created"@
}

/// The key under which a node's outgoing edges are noted.
pub open spec fn edges_key() -> Seq<char> {
    "edges"@
}

/// The note made of an edge: its id, its source, its target and its label,
/// with a space between them.
pub open spec fn edge_note(id: usize, source: usize, target: usize, label: Seq<char>) -> Seq<char> {
    decimal(id as nat) + seq![' '] + decimal(source as nat) + seq![' '] + decimal(target as nat)
        + seq![' '] + label
}

/// Writes the note of an edge.
pub fn write_edge_note<V: Label>(id: usize, source: usize, target: usize, label: &V) -> (note:
    String)
    ensures
        note@ == edge_note(id, source, target, V::rendering(label.model())),
{
    proof {
        reveal_strlit(" ");
    }
    assert(" "@ =~= seq![' ']);
    let mut note = String::new();
    push_decimal(&mut note, id);
    note.append(" ");
    push_decimal(&mut note, source);
    note.append(" ");
    push_decimal(&mut note, target);
    note.append(" ");
    let shown = label.render();
    note.append(shown.as_str());
    assert(note@ =~= edge_note(id, source, target, V::rendering(label.model())));
    note
}

/// The notes of two edges with different ids differ.
pub proof fn lemma_edge_notes_differ(
    id1: usize,
    source1: usize,
    target1: usize,
    label1: Seq<char>,
    id2: usize,
    source2: usize,
    target2: usize,
    label2: Seq<char>,
)
    requires
        id1 != id2,
    ensures
        edge_note(id1, source1, target1, label1) != edge_note(id2, source2, target2, label2),
{
    let rest1 = decimal(source1 as nat) + seq![' '] + decimal(target1 as nat) + seq![' '] + label1;
    let rest2 = decimal(source2 as nat) + seq![' '] + decimal(target2 as nat) + seq![' '] + label2;
    lemma_numbered_texts_differ(id1 as nat, rest1, id2 as nat, rest2);
    assert(edge_note(id1, source1, target1, label1) =~= decimal(id1 as nat) + seq![' '] + rest1);
    assert(edge_note(id2, source2, target2, label2) =~= decimal(id2 as nat) + seq![' '] + rest2);
}

/// Setting replaces: after the texts under a key are set twice, the key
/// holds what was set last, and nothing of what was set first remains.
pub proof fn lemma_set_replaces(
    all: Map<usize, Annotations>,
    node: usize,
    key: Seq<char>,
    first: Set<Seq<char>>,
    second: Set<Seq<char>>,
)
    ensures
        with_texts(with_texts(all, node, key, first), node, key, second)[node][key] == second,
        with_texts(with_texts(all, node, key, first), node, key, second) == with_texts(
            all,
            node,
            key,
            second,
        ),
{
    let once = with_texts(all, node, key, first);
    assert(annotations_of(once, node).insert(key, second) =~= annotations_of(all, node).insert(
        key,
        second,
    ));
    assert(with_texts(once, node, key, second) =~= with_texts(all, node, key, second));
}

/// Noting adds: after two edges from one source are noted, both notes are
/// under the source's key for edges, they are two notes, and what was
/// there before is there still.
pub proof fn lemma_notes_accumulate(
    all: Map<usize, Annotations>,
    source: usize,
    id1: usize,
    target1: usize,
    label1: Seq<char>,
    id2: usize,
    target2: usize,
    label2: Seq<char>,
)
    requires
        id1 != id2,
    ensures
        ({
            let note1 = edge_note(id1, source, target1, label1);
            let note2 = edge_note(id2, source, target2, label2);
            let once = with_text_added(all, source, edges_key(), note1);
            let twice = with_text_added(once, source, edges_key(), note2);
            &&& note1 != note2
            &&& twice[source][edges_key()].contains(note1)
            &&& twice[source][edges_key()].contains(note2)
            &&& texts_under(annotations_of(all, source), edges_key()).subset_of(
                twice[source][edges_key()],
            )
        }),
{
    lemma_edge_notes_differ(id1, source, target1, label1, id2, source, target2, label2);
}

/// A directed graph with labels on its nodes and edges.
pub struct AppGraph<K: Label, V: Label> {
    topology: StableGraph<usize, usize, Directed, usize>,
    nodes: Vec<Node<K>>,
    edges: Vec<Edge<V>>,
    meta: Overlay,
    path: String,
}

impl<K: Label, V: Label> View for AppGraph<K, V> {
    type V = GraphModel<K::Model, V::Model>;

    closed spec fn view(&self) -> GraphModel<K::Model, V::Model> {
        GraphModel {
            nodes: models(self.nodes@),
            edges: models(self.edges@),
            meta: self.meta.model(),
            path: self.path@,
        }
    }
}

impl<K: Label, V: Label> AppGraph<K, V> {
    /// The graph is in order: its model is, and the shape kept beside the
    /// labels has a node for each label and an edge for each edge.
    pub closed spec fn wf(&self) -> bool {
        &&& self.meta.wf()
        &&& forall|i: int|
            0 <= i < self.edges@.len() ==> (#[trigger] self.edges@[i]).source < self.nodes@.len()
                && self.edges@[i].target < self.nodes@.len()
        &&& topology_nodes(self.topology) == Seq::new(
            self.nodes@.len(),
            |i: int| Some(i as usize),
        )
        &&& topology_edges(self.topology).len() == self.edges@.len()
        &&& forall|i: int|
            0 <= i < self.edges@.len() ==> #[trigger] topology_edges(self.topology)[i] == Some(
                (self.edges@[i].source, self.edges@[i].target, i as usize),
            )
    }

    /// A graph that is in order has a model that is.
    pub proof fn lemma_wf(&self)
        requires
            self.wf(),
        ensures
            self@.wf(),
    {
        assert forall|i: int| 0 <= i < self@.edges.len() implies (#[trigger] self@.edges[i]).0
            < self@.nodes.len() && self@.edges[i].1 < self@.nodes.len() by {
            assert(self.edges@[i].source < self.nodes@.len());
        }
    }

    /// An empty graph that is kept at `path`.
    pub fn new(path: String) -> (g: Self)
        ensures
            g.wf(),
            g@.nodes == Seq::<K::Model>::empty(),
            g@.edges == Seq::<(usize, usize, V::Model)>::empty(),
            g@.annotations() == Map::<usize, Annotations>::empty(),
            g@.path == path@,
    {
        let g = AppGraph {
            topology: topology_new(),
            nodes: Vec::new(),
            edges: Vec::new(),
            meta: Overlay::new(),
            path,
        };
        assert(g@.nodes =~= Seq::empty());
        assert(g@.edges =~= Seq::empty());
        assert(topology_nodes(g.topology) =~= Seq::new(0, |i: int| Some(i as usize)));
        assert(g@.annotations() =~= Map::empty());
        g
    }

    /// Adds a node that was created at the time `stamp`, and gives its id.
    pub fn add_node_at(&mut self, label: K, stamp: String) -> (id: usize)
        requires
            old(self).wf(),
        ensures
            final(self).wf(),
            id == old(self)@.nodes.len(),
            final(self)@.nodes == old(self)@.nodes.push(label.model()),
            final(self)@.edges == old(self)@.edges,
            final(self)@.path == old(self)@.path,
            final(self)@.annotations() == with_text_added(
                old(self)@.annotations(),
                id,
                created_key(),
                stamp@,
            ),
    {
        let ghost slots = topology_nodes(self.topology);
        let id = topology_add_node(&mut self.topology, self.nodes.len());
        self.nodes.push(Node { label });
        self.meta.add_text(id, String::from_str("created"), stamp);
        assert(final(self)@.nodes =~= old(self)@.nodes.push(label.model()));
        assert(final(self)@.edges =~= old(self)@.edges);
        assert(topology_nodes(self.topology) =~= Seq::new(
            self.nodes@.len(),
            |i: int| Some(i as usize),
        ));
        id
    }

    /// Adds a node, notes the present time as its time of creation, and gives
    /// its id.
    pub fn add_node(&mut self, n: K) -> (id: usize)
        requires
            old(self).wf(),
        ensures
            final(self).wf(),
            id == old(self)@.nodes.len(),
            final(self)@.nodes == old(self)@.nodes.push(n.model()),
            final(self)@.edges == old(self)@.edges,
            final(self)@.path == old(self)@.path,
            exists|stamp: Seq<char>|
                final(self)@.annotations() == #[trigger] with_text_added(
                    old(self)@.annotations(),
                    id,
                    created_key(),
                    stamp,
                ),
    {
        let stamp = timestamp_now();
        self.add_node_at(n, stamp)
    }

    /// Adds an edge from `a` to `b`, notes it under the source, and gives its
    /// id. Where `a` or `b` is no node, nothing changes.
    pub fn add_edge(&mut self, a: usize, b: usize, v: V) -> (r: Result<usize, GraphError>)
        requires
            old(self).wf(),
        ensures
            final(self).wf(),
            match r {
                Ok(id) => {
                    &&& a < old(self)@.nodes.len()
                    &&& b < old(self)@.nodes.len()
                    &&& id == old(self)@.edges.len()
                    &&& final(self)@.edges == old(self)@.edges.push((a, b, v.model()))
                    &&& final(self)@.nodes == old(self)@.nodes
                    &&& final(self)@.path == old(self)@.path
                    &&& final(self)@.annotations() == with_text_added(
                        old(self)@.annotations(),
                        a,
                        edges_key(),
                        edge_note(id, a, b, V::rendering(v.model())),
                    )
                },
                Err(e) => {
                    &&& e == GraphError::UnknownNode
                    &&& !(a < old(self)@.nodes.len() && b < old(self)@.nodes.len())
                    &&& final(self)@ == old(self)@
                },
            },
    {
        if !topology_contains_node(&self.topology, a) || !topology_contains_node(
            &self.topology,
            b,
        ) {
            return Err(GraphError::UnknownNode);
        }
        let id = topology_add_edge(&mut self.topology, a, b, self.edges.len());
        let note = write_edge_note(id, a, b, &v);
        self.edges.push(Edge { source: a, target: b, label: v });
        self.meta.add_text(a, String::from_str("edges"), note);
        assert(final(self)@.edges =~= old(self)@.edges.push((a, b, v.model())));
        assert(final(self)@.nodes =~= old(self)@.nodes);
        Ok(id)
    }

    /// The node with the id `n`.
    pub fn get_node(&self, n: usize) -> (r: Option<&Node<K>>)
        ensures
            match r {
                Some(node) => n < self@.nodes.len() && node.label.model() == self@.nodes[n as int],
                None => n >= self@.nodes.len(),
            },
    {
        if n < self.nodes.len() {
            Some(&self.nodes[n])
        } else {
            None
        }
    }

    /// The edge with the id `e`.
    pub fn get_edge(&self, e: usize) -> (r: Option<&Edge<V>>)
        ensures
            match r {
                Some(edge) => e < self@.edges.len() && (
                    edge.source,
                    edge.target,
                    edge.label.model(),
                ) == self@.edges[e as int],
                None => e >= self@.edges.len(),
            },
    {
        if e < self.edges.len() {
            Some(&self.edges[e])
        } else {
            None
        }
    }

    /// The node with the id `n`, for the caller to change its label.
    pub fn get_node_mut(&mut self, n: usize) -> (r: Option<&mut Node<K>>)
        requires
            old(self).wf(),
        ensures
            final(self).wf(),
            final(self)@.edges == old(self)@.edges,
            final(self)@.meta == old(self)@.meta,
            final(self)@.path == old(self)@.path,
            match r {
                Some(node) => {
                    &&& n < old(self)@.nodes.len()
                    &&& node.label.model() == old(self)@.nodes[n as int]
                    &&& final(self)@.nodes == old(self)@.nodes.update(
                        n as int,
                        final(node).label.model(),
                    )
                },
                None => n >= old(self)@.nodes.len() && final(self)@.nodes == old(self)@.nodes,
            },
    {
        if n < self.nodes.len() {
            let node = &mut self.nodes[n];
            Some(node)
        } else {
            None
        }
    }

    /// The label of the edge with the id `e`, for the caller to change it.
    /// Where an edge runs is fixed.
    pub fn get_edge_mut(&mut self, e: usize) -> (r: Option<&mut V>)
        requires
            old(self).wf(),
        ensures
            final(self).wf(),
            final(self)@.nodes == old(self)@.nodes,
            final(self)@.meta == old(self)@.meta,
            final(self)@.path == old(self)@.path,
            match r {
                Some(label) => {
                    &&& e < old(self)@.edges.len()
                    &&& label.model() == old(self)@.edges[e as int].2
                    &&& final(self)@.edges == old(self)@.edges.update(
                        e as int,
                        (
                            old(self)@.edges[e as int].0,
                            old(self)@.edges[e as int].1,
                            final(label).model(),
                        ),
                    )
                },
                None => e >= old(self)@.edges.len() && final(self)@.edges == old(self)@.edges,
            },
    {
        if e < self.edges.len() {
            let label = &mut self.edges[e].label;
            Some(label)
        } else {
            None
        }
    }

    /// The id `n`, if it is the id of a node.
    pub fn get_node_index(&self, n: usize) -> (r: Option<usize>)
        ensures
            r == if n < self@.nodes.len() { Some(n) } else { None },
    {
        if n < self.nodes.len() {
            Some(n)
        } else {
            None
        }
    }

    /// The id `e`, if it is the id of an edge.
    pub fn get_edge_index(&self, e: usize) -> (r: Option<usize>)
        ensures
            r == if e < self@.edges.len() { Some(e) } else { None },
    {
        if e < self.edges.len() {
            Some(e)
        } else {
            None
        }
    }

    /// The annotations of the node `ni`, if any were ever written.
    pub fn get_meta(&self, ni: usize) -> (r: Option<&NodeMeta>)
        requires
            self.wf(),
        ensures
            match r {
                Some(m) => self@.annotations().contains_key(ni) && m.says()
                    == self@.annotations()[ni] && m.wf(),
                None => !self@.annotations().contains_key(ni),
            },
    {
        self.meta.of_node(ni)
    }

    /// The annotations of the node `n`, if any were ever written.
    pub fn get_node_data(&self, n: usize) -> (r: Option<&NodeMeta>)
        requires
            self.wf(),
        ensures
            match r {
                Some(m) => self@.annotations().contains_key(n) && m.says()
                    == self@.annotations()[n] && m.wf(),
                None => !self@.annotations().contains_key(n),
            },
    {
        self.get_meta(n)
    }

    /// Replaces the texts under the key `k` of the node `ni` by `v`.
    pub fn set_meta(&mut self, ni: usize, k: String, v: StringSet)
        requires
            old(self).wf(),
            v.wf(),
        ensures
            final(self).wf(),
            final(self)@.nodes == old(self)@.nodes,
            final(self)@.edges == old(self)@.edges,
            final(self)@.path == old(self)@.path,
            final(self)@.annotations() == with_texts(old(self)@.annotations(), ni, k@, v.texts()),
    {
        self.meta.set_texts(ni, k, v);
        assert(final(self)@.nodes =~= old(self)@.nodes);
        assert(final(self)@.edges =~= old(self)@.edges);
    }

    /// Changes the place where the graph is kept. Nothing is read or written.
    pub fn set_path(&mut self, p: String)
        requires
            old(self).wf(),
        ensures
            final(self).wf(),
            final(self)@.path == p@,
            final(self)@.nodes == old(self)@.nodes,
            final(self)@.edges == old(self)@.edges,
            final(self)@.meta == old(self)@.meta,
    {
        self.path = p;
        assert(final(self)@.nodes =~= old(self)@.nodes);
        assert(final(self)@.edges =~= old(self)@.edges);
    }

    /// The place where the graph is kept.
    pub fn get_path(&self) -> (p: &String)
        ensures
            p@ == self@.path,
    {
        &self.path
    }

    /// The annotations of all nodes.
    pub fn meta(&self) -> (r: &Overlay)
        requires
            self.wf(),
        ensures
            r.wf(),
            r.model() == self@.meta,
    {
        &self.meta
    }

    /// The shape of the graph, for the algorithms of `petgraph`: node `i` has
    /// the weight `i`, and edge `i` runs as the edge with the id `i` does.
    pub fn topology(&self) -> (g: &StableGraph<usize, usize, Directed, usize>)
        requires
            self.wf(),
        ensures
            topology_nodes(*g) == Seq::new(self@.nodes.len(), |i: int| Some(i as usize)),
            topology_edges(*g) == Seq::new(
                self@.edges.len(),
                |i: int| Some((self@.edges[i].0, self@.edges[i].1, i as usize)),
            ),
    {
        assert(topology_edges(self.topology) =~= Seq::new(
            self@.edges.len(),
            |i: int| Some((self@.edges[i].0, self@.edges[i].1, i as usize)),
        ));
        &self.topology
    }

    /// The models that can be stored: a graph in order, every part of which
    /// can be stored.
    pub open spec fn storable(g: GraphModel<K::Model, V::Model>) -> bool {
        &&& Vec::<Node<K>>::valid(g.nodes)
        &&& Vec::<Edge<V>>::valid(g.edges)
        &&& Overlay::valid(g.meta)
        &&& String::valid(g.path)
        &&& g.wf()
    }

    /// The bytes that stand for a graph: its nodes, its edges, its
    /// annotations and its path, in this order.
    pub open spec fn payload(g: GraphModel<K::Model, V::Model>) -> Seq<u8> {
        Vec::<Node<K>>::image(g.nodes) + Vec::<Edge<V>>::image(g.edges) + Overlay::image(g.meta)
            + String::image(g.path)
    }

    /// The graph that `s` stands for, if it stands for one from its first
    /// byte to its last.
    pub open spec fn parsed(s: Seq<u8>) -> Option<GraphModel<K::Model, V::Model>> {
        match Vec::<Node<K>>::parse(s, 0) {
            Some((nodes, after_nodes)) => match Vec::<Edge<V>>::parse(s, after_nodes) {
                Some((edges, after_edges)) => match Overlay::parse(s, after_edges) {
                    Some((meta, after_meta)) => match String::parse(s, after_meta) {
                        Some((path, end)) => {
                            let g = GraphModel { nodes, edges, meta, path };
                            if end == s.len() && g.wf() {
                                Some(g)
                            } else {
                                None
                            }
                        },
                        None => None,
                    },
                    None => None,
                },
                None => None,
            },
            None => None,
        }
    }

    /// The bytes of a graph stand for that graph.
    pub proof fn lemma_parsed_payload(g: GraphModel<K::Model, V::Model>)
        requires
            Self::storable(g),
        ensures
            Self::parsed(Self::payload(g)) == Some(g),
    {
        let a = Vec::<Node<K>>::image(g.nodes);
        let b = Vec::<Edge<V>>::image(g.edges);
        let c = Overlay::image(g.meta);
        let d = String::image(g.path);
        let s = Self::payload(g);
        assert(s.subrange(0, s.len() as int) =~= s);
        lemma_lies_at_split(s, 0, a + b + c, d);
        lemma_lies_at_split(s, 0, a + b, c);
        lemma_lies_at_split(s, 0, a, b);
        Vec::<Node<K>>::lemma_parse_image(g.nodes, s, 0);
        Vec::<Edge<V>>::lemma_parse_image(g.edges, s, a.len() as int);
        Overlay::lemma_parse_image(g.meta, s, (a.len() + b.len()) as int);
        String::lemma_parse_image(g.path, s, (a.len() + b.len() + c.len()) as int);
    }

    /// What is read as a graph is the bytes of that graph, and it can be
    /// stored.
    pub proof fn lemma_payload_parsed(s: Seq<u8>)
        requires
            Self::parsed(s) is Some,
        ensures
            Self::storable(Self::parsed(s)->0),
            Self::payload(Self::parsed(s)->0) == s,
    {
        Vec::<Node<K>>::lemma_image_parse(s, 0);
        let (nodes, after_nodes) = Vec::<Node<K>>::parse(s, 0)->0;
        Vec::<Edge<V>>::lemma_image_parse(s, after_nodes);
        let (edges, after_edges) = Vec::<Edge<V>>::parse(s, after_nodes)->0;
        Overlay::lemma_image_parse(s, after_edges);
        let (meta, after_meta) = Overlay::parse(s, after_edges)->0;
        String::lemma_image_parse(s, after_meta);
        let (path, end) = String::parse(s, after_meta)->0;
        let a = Vec::<Node<K>>::image(nodes);
        let b = Vec::<Edge<V>>::image(edges);
        let c = Overlay::image(meta);
        let d = String::image(path);
        lemma_lies_at_join(s, 0, a, b);
        lemma_lies_at_join(s, 0, a + b, c);
        lemma_lies_at_join(s, 0, a + b + c, d);
        assert(s.subrange(0, s.len() as int) =~= s);
    }

    /// Writes the graph out.
    pub fn write_payload(&self) -> (bytes: Vec<u8>)
        requires
            self.wf(),
        ensures
            bytes@ == Self::payload(self@),
            Self::storable(self@),
    {
        let mut i: usize = 0;
        while i < self.nodes.len()
            invariant
                i <= self.nodes@.len(),
                forall|j: int| 0 <= j < i ==> K::valid(#[trigger] models(self.nodes@)[j]),
            decreases self.nodes@.len() - i,
        {
            self.nodes[i].label.confirm_storable();
            i += 1;
        }
        let mut i: usize = 0;
        while i < self.edges.len()
            invariant
                i <= self.edges@.len(),
                forall|j: int| 0 <= j < i ==> V::valid((#[trigger] models(self.edges@)[j]).2),
            decreases self.edges@.len() - i,
        {
            self.edges[i].label.confirm_storable();
            i += 1;
        }
        self.path.confirm_storable();
        proof {
            self.lemma_wf();
        }
        let mut bytes: Vec<u8> = Vec::new();
        self.nodes.write(&mut bytes);
        self.edges.write(&mut bytes);
        self.meta.write(&mut bytes);
        self.path.write(&mut bytes);
        assert(bytes@ =~= Self::payload(self@));
        bytes
    }

    /// Puts a graph together from its parts, if every edge runs between
    /// nodes that are there.
    pub fn from_parts(nodes: Vec<Node<K>>, edges: Vec<Edge<V>>, meta: Overlay, path: String) -> (r:
        Option<Self>)
        requires
            meta.wf(),
        ensures
            ({
                let g = GraphModel {
                    nodes: models(nodes@),
                    edges: models(edges@),
                    meta: meta.model(),
                    path: path@,
                };
                match r {
                    Some(graph) => graph.wf() && graph@ == g && g.wf(),
                    None => !g.wf(),
                }
            }),
    {
        let ghost g = GraphModel::<K::Model, V::Model> {
            nodes: models(nodes@),
            edges: models(edges@),
            meta: meta.model(),
            path: path@,
        };
        let mut topology = topology_new();
        let mut i: usize = 0;
        while i < nodes.len()
            invariant
                i <= nodes@.len(),
                topology_nodes(topology) =~= Seq::new(i as nat, |j: int| Some(j as usize)),
                topology_edges(topology) =~= Seq::<Option<(usize, usize, usize)>>::empty(),
            decreases nodes@.len() - i,
        {
            let id = topology_add_node(&mut topology, i);
            i += 1;
        }
        let mut i: usize = 0;
        while i < edges.len()
            invariant
                i <= edges@.len(),
                g == (GraphModel::<K::Model, V::Model> {
                    nodes: models(nodes@),
                    edges: models(edges@),
                    meta: meta.model(),
                    path: path@,
                }),
                topology_nodes(topology) =~= Seq::new(nodes@.len(), |j: int| Some(j as usize)),
                topology_edges(topology).len() == i,
                forall|j: int|
                    0 <= j < i ==> #[trigger] topology_edges(topology)[j] == Some(
                        (edges@[j].source, edges@[j].target, j as usize),
                    ),
                forall|j: int|
                    0 <= j < i ==> (#[trigger] edges@[j]).source < nodes@.len() && edges@[j].target
                        < nodes@.len(),
            decreases edges@.len() - i,
        {
            let source = edges[i].source;
            let target = edges[i].target;
            if !topology_contains_node(&topology, source) || !topology_contains_node(
                &topology,
                target,
            ) {
                assert(g.edges[i as int] == edges@[i as int].model());
                assert(!(g.edges[i as int].0 < g.nodes.len() && g.edges[i as int].1
                    < g.nodes.len()));
                return None;
            }
            let id = topology_add_edge(&mut topology, source, target, i);
            i += 1;
        }
        let graph = AppGraph { topology, nodes, edges, meta, path };
        proof {
            graph.lemma_wf();
        }
        Some(graph)
    }

    /// Reads a graph that was written out.
    pub fn read_payload(bytes: &[u8]) -> (r: Option<Self>)
        ensures
            match r {
                Some(graph) => graph.wf() && Self::parsed(bytes@) == Some(graph@)
                    && Self::storable(graph@),
                None => Self::parsed(bytes@) is None,
            },
    {
        match Vec::<Node<K>>::read(bytes, 0) {
            Some((nodes, after_nodes)) => match Vec::<Edge<V>>::read(bytes, after_nodes) {
                Some((edges, after_edges)) => match Overlay::read(bytes, after_edges) {
                    Some((meta, after_meta)) => match String::read(bytes, after_meta) {
                        Some((path, end)) => {
                            if end != bytes.len() {
                                return None;
                            }
                            Self::from_parts(nodes, edges, meta, path)
                        },
                        None => None,
                    },
                    None => None,
                },
                None => None,
            },
            None => None,
        }
    }
}

} // verus!
