//! The structural causal graph: packages and what they depend on.

use vstd::hash_map::StringHashMap;
use vstd::prelude::*;
use vstd::slice::slice_to_vec;

use crate::scheduler::layering::{
    is_layering, law_layering_complete, law_layering_respects, layers, respects, selects,
};

verus! {

/// Kinds of nodes that can appear in the causal graph.
#[derive(Debug, Clone, Copy, PartialEq, Eq, Structural)]
pub enum NodeType {
    Package,
    Module,
    External,
    SourceDirectory,
}

/// Kinds of dependencies that can connect two nodes.
#[derive(Debug, Clone, Copy, PartialEq, Eq, Structural)]
pub enum DependencyType {
    Compile,
    Runtime,
    Dev,
    Feature,
    Structure,
}

/// A node in the structural causal graph.
#[derive(Debug)]
pub struct SCMNode {
    pub id: usize,
    pub name: String,
    /// Where it stands, as the bytes of a path.
    pub path: Vec<u8>,
    pub language: String,
    pub node_type: NodeType,
}

/// A directed edge in the structural causal graph, from a package to what it
/// depends on.
#[derive(Debug, Clone, Copy, PartialEq, Eq, Structural)]
pub struct SCMEdge {
    pub from: usize,
    pub to: usize,
    pub dependency_type: DependencyType,
}

/// What a node says, with its texts as character sequences.
pub struct NodeView {
    pub id: usize,
    pub name: Seq<char>,
    pub path: Seq<u8>,
    pub language: Seq<char>,
    pub node_type: NodeType,
}

impl View for SCMNode {
    type V = NodeView;

    open spec fn view(&self) -> NodeView {
        NodeView {
            id: self.id,
            name: self.name@,
            path: self.path@,
            language: self.language@,
            node_type: self.node_type,
        }
    }
}

impl Clone for SCMNode {
    fn clone(&self) -> (copy: Self)
        ensures
            copy@ == self@,
    {
        SCMNode {
            id: self.id,
            name: self.name.clone(),
            path: slice_to_vec(self.path.as_slice()),
            language: self.language.clone(),
            node_type: self.node_type,
        }
    }
}

/// A language-agnostic graph of packages and their dependencies.
pub struct StructuralCausalGraph {
    pub nodes: Vec<SCMNode>,
    pub edges: Vec<SCMEdge>,
    /// The place of each node, by name.
    pub by_name: StringHashMap<usize>,
}

/// The nodes of a graph, and its edges.
pub struct GraphView {
    pub nodes: Seq<NodeView>,
    pub edges: Seq<SCMEdge>,
}

impl View for StructuralCausalGraph {
    type V = GraphView;

    open spec fn view(&self) -> GraphView {
        GraphView {
            nodes: Seq::new(self.nodes@.len(), |i: int| self.nodes@[i]@),
            edges: self.edges@,
        }
    }
}

/// The edges as pairs of a package and what it depends on.
pub open spec fn edge_pairs(edges: Seq<SCMEdge>) -> Seq<(usize, usize)> {
    Seq::new(edges.len(), |e: int| (edges[e].from, edges[e].to))
}

impl GraphView {
    /// The node at place `i` is called `name`.
    pub open spec fn is_named(self, i: int, name: Seq<char>) -> bool {
        0 <= i < self.nodes.len() && self.nodes[i].name == name
    }

    /// Some node is called `name`.
    pub open spec fn has(self, name: Seq<char>) -> bool {
        exists|i: int| self.is_named(i, name)
    }

    /// The place of the node called `name`.
    pub open spec fn place(self, name: Seq<char>) -> int {
        choose|i: int| self.is_named(i, name)
    }

    /// The graph with a node called `name`: as it is if there is one, else with
    /// a new node at its end.
    pub open spec fn ensured(
        self,
        name: Seq<char>,
        node_type: NodeType,
        language: Seq<char>,
        path: Seq<u8>,
    ) -> GraphView {
        if self.has(name) {
            self
        } else {
            GraphView {
                nodes: self.nodes.push(
                    NodeView { id: self.nodes.len() as usize, name, path, language, node_type },
                ),
                edges: self.edges,
            }
        }
    }

    /// Every node carries its place as its id, and no two have the same name.
    pub open spec fn wf(self) -> bool {
        &&& forall|i: int| 0 <= i < self.nodes.len() ==> (#[trigger] self.nodes[i]).id == i
        &&& forall|i: int, j: int|
            0 <= i < j < self.nodes.len() ==> (#[trigger] self.nodes[i]).name != (
            #[trigger] self.nodes[j]).name
    }

    /// In a well-formed graph a name has one place.
    pub proof fn lemma_place(self, i: int, name: Seq<char>)
        requires
            self.wf(),
            self.is_named(i, name),
        ensures
            self.place(name) == i,
            self.has(name),
    {
        let j = self.place(name);
        assert(self.is_named(j, name));
        if i < j {
            assert(self.nodes[i].name != self.nodes[j].name);
        }
        if j < i {
            assert(self.nodes[j].name != self.nodes[i].name);
        }
    }

    /// Every edge starts at a node.
    pub open spec fn edges_start_inside(self) -> bool {
        forall|e: int| 0 <= e < self.edges.len() ==> (#[trigger] self.edges[e]).from < self.nodes.len()
    }

    /// Every edge joins two nodes.
    pub open spec fn edges_inside(self) -> bool {
        forall|e: int|
            0 <= e < self.edges.len() ==> (#[trigger] self.edges[e]).from < self.nodes.len()
                && self.edges[e].to < self.nodes.len()
    }

    /// `order` lists every node, each after everything it depends on.
    pub open spec fn is_build_order(self, order: Seq<usize>) -> bool {
        &&& selects(self.nodes.len() as int, order)
        &&& order.len() == self.nodes.len()
        &&& respects(edge_pairs(self.edges), order)
    }
}

impl StructuralCausalGraph {
    /// The nodes are well formed and the name index agrees with them.
    pub open spec fn wf(&self) -> bool {
        &&& self@.wf()
        &&& forall|name: Seq<char>| #[trigger] self.by_name@.contains_key(name) <==> self@.has(name)
        &&& forall|i: int|
            0 <= i < self@.nodes.len() ==> self.by_name@[(#[trigger] self@.nodes[i]).name] == i
    }

    pub fn new() -> (graph: Self)
        ensures
            graph.wf(),
            graph@.nodes.len() == 0,
            graph@.edges.len() == 0,
    {
        StructuralCausalGraph {
            nodes: Vec::new(),
            edges: Vec::new(),
            by_name: StringHashMap::new(),
        }
    }

    /// Add a node and return its stable id. If a node with the same name
    /// already exists, the existing id is returned and the new node is dropped.
    pub fn add_node(&mut self, node: SCMNode) -> (id: usize)
        requires
            old(self).wf(),
        ensures
            final(self).wf(),
            final(self)@.is_named(id as int, node.name@),
            final(self)@.edges == old(self)@.edges,
            if old(self)@.has(node.name@) {
                final(self)@ == old(self)@
            } else {
                &&& id == old(self)@.nodes.len()
                &&& final(self)@.nodes == old(self)@.nodes.push((NodeView { id, ..node@ }))
            },
    {
        if let Some(id) = self.by_name.get(&node.name) {
            let id: usize = *id;
            proof {
                assert(self.by_name@.contains_key(node.name@));
                let i = choose|i: int| self@.is_named(i, node.name@);
                assert(self.by_name@[self@.nodes[i].name] == i);
            }
            return id;
        }
        let id: usize = self.nodes.len();
        let mut node = node;
        node.id = id;
        self.by_name.insert(node.name.clone(), id);
        self.nodes.push(node);
        proof {
            let before = old(self)@;
            let after = self@;
            assert(!old(self).by_name@.contains_key(node.name@));
            assert(after.nodes =~= before.nodes.push(node@));
            assert(after.is_named(id as int, node.name@));
            assert forall|name: Seq<char>| #[trigger] self.by_name@.contains_key(
                name,
            ) <==> after.has(name) by {
                if before.has(name) {
                    let i = choose|i: int| before.is_named(i, name);
                    assert(after.is_named(i, name));
                }
                if after.has(name) && name != node.name@ {
                    let i = choose|i: int| after.is_named(i, name);
                    assert(before.is_named(i, name));
                }
            }
            assert forall|i: int| 0 <= i < after.nodes.len() implies self.by_name@[(
            #[trigger] after.nodes[i]).name] == i by {
                if i < before.nodes.len() {
                    assert(before.is_named(i, before.nodes[i].name));
                    assert(old(self).by_name@[before.nodes[i].name] == i);
                }
            }
            assert forall|i: int, j: int| 0 <= i < j < after.nodes.len() implies (
            #[trigger] after.nodes[i]).name != (#[trigger] after.nodes[j]).name by {
                if j == before.nodes.len() {
                    assert(before.is_named(i, before.nodes[i].name));
                }
            }
        }
        id
    }

    /// The id of the node called `name`. If there is none, a node with this
    /// name, kind, language and path is added.
    pub fn ensure_node(
        &mut self,
        name: &str,
        node_type: NodeType,
        language: &str,
        path: &[u8],
    ) -> (id: usize)
        requires
            old(self).wf(),
        ensures
            final(self).wf(),
            final(self)@ == old(self)@.ensured(name@, node_type, language@, path@),
            id == final(self)@.place(name@),
            final(self)@.is_named(id as int, name@),
            id < final(self).nodes@.len() && final(self).nodes@[id as int].name@ == name@,
            final(self).edges@ == old(self).edges@,
            final(self).nodes@.len() == old(self).nodes@.len() || final(self).nodes@.len()
                == old(self).nodes@.len() + 1,
            final(self).nodes@.len() > old(self).nodes@.len() ==> id == old(self).nodes@.len()
                && final(self).nodes@[id as int].node_type == node_type
                && final(self).nodes@[id as int].language@ == language@
                && final(self).nodes@[id as int].path@ == path@,
    {
        let id = self.add_node(
            SCMNode {
                id: 0,
                name: name.to_owned(),
                path: slice_to_vec(path),
                language: language.to_owned(),
                node_type,
            },
        );
        proof {
            self@.lemma_place(id as int, name@);
        }
        id
    }

    /// Make the node at place `id` a package with this path and language.
    pub fn place_package(&mut self, id: usize, path: &[u8], language: &str)
        requires
            old(self).wf(),
            id < old(self)@.nodes.len(),
        ensures
            final(self).wf(),
            final(self)@.edges == old(self)@.edges,
            final(self)@.nodes == old(self)@.nodes.update(
                id as int,
                (NodeView {
                    path: path@,
                    language: language@,
                    node_type: NodeType::Package,
                    ..old(self)@.nodes[id as int]
                }),
            ),
    {
        let name = self.nodes[id].name.clone();
        self.nodes.set(
            id,
            SCMNode {
                id,
                name,
                path: slice_to_vec(path),
                language: language.to_owned(),
                node_type: NodeType::Package,
            },
        );
        proof {
            let before = old(self)@;
            let after = self@;
            assert(before.nodes[id as int].id == id);
            assert(after.nodes =~= before.nodes.update(id as int, after.nodes[id as int]));
            assert forall|i: int| 0 <= i < after.nodes.len() implies (
            #[trigger] after.nodes[i]).name == before.nodes[i].name && after.nodes[i].id
                == before.nodes[i].id by {}
            assert forall|name: Seq<char>| #[trigger] after.has(name) == before.has(name) by {
                if before.has(name) {
                    let i = choose|i: int| before.is_named(i, name);
                    assert(after.is_named(i, name));
                }
                if after.has(name) {
                    let i = choose|i: int| after.is_named(i, name);
                    assert(before.is_named(i, name));
                }
            }
        }
    }

    /// The node called `name`, if there is one.
    pub fn node_by_name(&self, name: &str) -> (node: Option<&SCMNode>)
        requires
            self.wf(),
        ensures
            node is Some <==> self@.has(name@),
            node matches Some(found) ==> found.name@ == name@ && found.id < self.nodes.len()
                && *found == self.nodes[found.id as int],
    {
        match self.by_name.get(name) {
            Some(id) => {
                proof {
                    let i = choose|i: int| self@.is_named(i, name@);
                    assert(self.by_name@[self@.nodes[i].name] == i);
                    assert(self@.nodes[i].id == i);
                }
                Some(&self.nodes[*id])
            },
            None => None,
        }
    }

    /// Add an edge from a package to something it depends on.
    pub fn add_edge(&mut self, from: usize, to: usize, dependency_type: DependencyType)
        ensures
            final(self).nodes == old(self).nodes,
            final(self).by_name == old(self).by_name,
            final(self)@.edges == old(self)@.edges.push((SCMEdge { from, to, dependency_type })),
            old(self).wf() ==> final(self).wf(),
    {
        self.edges.push(SCMEdge { from, to, dependency_type });
        proof {
            assert(self@.nodes =~= old(self)@.nodes);
            assert forall|name: Seq<char>| self@.has(name) <==> old(self)@.has(name) by {
                assert forall|i: int| self@.is_named(i, name) == old(self)@.is_named(i, name) by {}
            }
        }
    }

    /// The edges as pairs of a package and what it depends on.
    fn pairs(&self) -> (pairs: Vec<(usize, usize)>)
        ensures
            pairs@ == edge_pairs(self.edges@),
    {
        let mut pairs: Vec<(usize, usize)> = Vec::new();
        let mut e: usize = 0;
        while e < self.edges.len()
            invariant
                e <= self.edges.len(),
                pairs@ =~= edge_pairs(self.edges@).take(e as int),
            decreases self.edges.len() - e,
        {
            pairs.push((self.edges[e].from, self.edges[e].to));
            e = e + 1;
        }
        assert(edge_pairs(self.edges@).take(e as int) =~= edge_pairs(self.edges@));
        pairs
    }

    /// An order in which every node comes after what it depends on, or nothing
    /// if there is no such order. Among the nodes that are ready, the one that
    /// became ready first comes first.
    pub fn topological_order(&self) -> (order: Option<Vec<usize>>)
        requires
            self.wf(),
            self@.edges_start_inside(),
        ensures
            match order {
                Some(order) => {
                    &&& self@.is_build_order(order@)
                    &&& exists|ends: Seq<usize>|
                        is_layering(
                            self@.nodes.len() as int,
                            edge_pairs(self@.edges),
                            order@,
                            ends,
                        )
                },
                None => forall|order: Seq<usize>| !self@.is_build_order(order),
            },
            order matches Some(order) ==> order@.no_duplicates() && order@.len() == self.nodes@.len()
                && forall|i: int, e: int|
                #![trigger order@[i], self.edges@[e]]
                0 <= i < order@.len() && 0 <= e < self.edges@.len() && self.edges@[e].from == order@[i]
                    ==> order@.take(i).contains(self.edges@[e].to),
    {
        let pairs = self.pairs();
        let layered = layers(self.nodes.len(), &pairs);
        proof {
            let count = self.nodes.len() as int;
            law_layering_complete(count, pairs@, layered.order@, layered.ends@);
            law_layering_respects(count, pairs@, layered.order@, layered.ends@);
            assert forall|order: Seq<usize>| layered.order.len() != count implies !self@.is_build_order(order) by {
                if self@.is_build_order(order) {
                    assert(respects(pairs@, order));
                }
            }
        }
        if layered.order.len() == self.nodes.len() {
            proof {
                let order = layered.order@;
                assert forall|i: int, e: int|
                    #![trigger order[i], self.edges@[e]]
                    0 <= i < order.len() && 0 <= e < self.edges@.len() && self.edges@[e].from
                        == order[i] implies order.take(i).contains(self.edges@[e].to) by {
                    assert(pairs@[e].0 == order[i]);
                }
            }
            Some(layered.order)
        } else {
            None
        }
    }
}

impl Default for StructuralCausalGraph {
    fn default() -> (graph: Self)
        ensures
            graph.wf(),
            graph@.nodes.len() == 0,
            graph@.edges.len() == 0,
    {
        Self::new()
    }
}

impl Clone for StructuralCausalGraph {
    fn clone(&self) -> (copy: Self)
        ensures
            copy@ == self@,
            self.wf() ==> copy.wf(),
    {
        let mut copy = StructuralCausalGraph {
            nodes: Vec::new(),
            edges: self.edges.clone(),
            by_name: StringHashMap::new(),
        };
        let mut i: usize = 0;
        while i < self.nodes.len()
            invariant
                i <= self.nodes.len(),
                copy.nodes.len() == i,
                forall|j: int| 0 <= j < i ==> (#[trigger] copy.nodes@[j])@ == self.nodes@[j]@,
                copy.edges@ =~= self.edges@,
                forall|name: Seq<char>| copy.by_name@.contains_key(name) <==> exists|j: int|
                    0 <= j < i && (#[trigger] self.nodes@[j]).name@ == name,
                self.wf() ==> forall|j: int| 0 <= j < i ==> copy.by_name@[(#[trigger] self.nodes@[j]).name@] == j,
            decreases self.nodes.len() - i,
        {
            copy.by_name.insert(self.nodes[i].name.clone(), i);
            copy.nodes.push(self.nodes[i].clone());
            proof {
                assert(self.nodes@[i as int].name@ == self.nodes@[i as int].name@);
                if self.wf() {
                    assert forall|j: int| 0 <= j < i + 1 implies copy.by_name@[(#[trigger] self.nodes@[j]).name@] == j by {
                        if j < i {
                            assert(self@.nodes[j].name != self@.nodes[i as int].name);
                        }
                    }
                }
            }
            i = i + 1;
        }
        proof {
            assert(copy@.nodes =~= self@.nodes);
            if self.wf() {
                assert forall|name: Seq<char>| #[trigger] copy.by_name@.contains_key(name) <==> copy@.has(name) by {
                    if copy.by_name@.contains_key(name) {
                        let j = choose|j: int| 0 <= j < i && (#[trigger] self.nodes@[j]).name@ == name;
                        assert(copy@.is_named(j, name));
                    }
                    if copy@.has(name) {
                        let j = choose|j: int| copy@.is_named(j, name);
                        assert(self.nodes@[j].name@ == name);
                    }
                }
            }
        }
        copy
    }
}

/// Edges are taken as pairs of the node at which they start and the node at which
/// they end, whatever kind they are of and one for each.
pub proof fn law_edge_pairs(edges: Seq<SCMEdge>)
    ensures
        edge_pairs(edges) == edges.map_values(|edge: SCMEdge| (edge.from, edge.to)),
{
    assert(edge_pairs(edges) =~= edges.map_values(|edge: SCMEdge| (edge.from, edge.to)));
}

/// A graph gets a node for a name at most once. It is put behind the others, with
/// what was asked for, and a node that has the name already stays as it is.
pub proof fn law_ensured_nodes(
    graph: GraphView,
    name: Seq<char>,
    node_type: NodeType,
    language: Seq<char>,
    path: Seq<u8>,
)
    requires
        graph.wf(),
        graph.nodes.len() < usize::MAX,
    ensures
        ({
            let after = graph.ensured(name, node_type, language, path);
            let named = exists|i: int| 0 <= i < graph.nodes.len() && (#[trigger] graph.nodes[i]).name == name;
            &&& named ==> after == graph
            &&& !named ==> {
                &&& after.nodes.len() == graph.nodes.len() + 1
                &&& after.nodes.drop_last() == graph.nodes
                &&& after.nodes.last().id == graph.nodes.len()
                &&& after.nodes.last().name == name
                &&& after.nodes.last().node_type == node_type
                &&& after.nodes.last().language == language
                &&& after.nodes.last().path == path
            }
            &&& after.edges == graph.edges
            &&& after.ensured(name, node_type, language, path) == after
        }),
{
    let after = graph.ensured(name, node_type, language, path);
    if exists|i: int| 0 <= i < graph.nodes.len() && (#[trigger] graph.nodes[i]).name == name {
        let i = choose|i: int| 0 <= i < graph.nodes.len() && (#[trigger] graph.nodes[i]).name == name;
        assert(graph.is_named(i, name));
    } else {
        assert forall|i: int| !graph.is_named(i, name) by {}
        assert(after.nodes.drop_last() =~= graph.nodes);
        assert(after.is_named(graph.nodes.len() as int, name));
    }
}

} // verus!
