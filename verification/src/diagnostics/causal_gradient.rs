//! Causal gradient analysis: which change most likely broke a build.
//!
//! Every changed node gets a score that balances the size of its change with
//! its distance from the failing node along the dependency edges. The node with
//! the highest score is the suspect.

use std::collections::HashMap;

use vstd::prelude::*;
use vstd::std_specs::hash::group_hash_axioms;
use vstd::string::StringExecFns;

use crate::float_bits::{at_most, is_finite, is_nan, rank, INFINITY};
use crate::scm::graph::{SCMEdge, StructuralCausalGraph};
use crate::text::{decimal, decimal_text};

verus! {

broadcast use group_hash_axioms;

/// A compiler failure event.
#[derive(Debug)]
pub struct CompilerFailure {
    pub node_id: Option<usize>,
    pub message: String,
    pub exit_code: Option<i32>,
}

impl Clone for CompilerFailure {
    fn clone(&self) -> (copy: Self)
        ensures
            copy == *self,
    {
        CompilerFailure {
            node_id: self.node_id,
            message: self.message.clone(),
            exit_code: self.exit_code,
        }
    }
}

/// A root-cause hypothesis. The scores are bit patterns of numbers.
#[derive(Debug)]
pub struct CausalReport {
    pub failure: CompilerFailure,
    pub root_cause_node: Option<usize>,
    pub gradient_scores: HashMap<usize, u64>,
    pub explanation: String,
}

/// `node` can be reached from `start` in `steps` steps along the edges.
pub open spec fn reaches(edges: Seq<SCMEdge>, start: usize, steps: nat, node: usize) -> bool
    decreases steps,
{
    if steps == 0 {
        node == start
    } else {
        exists|e: int|
            0 <= e < edges.len() && (#[trigger] edges[e]).to == node && reaches(
                edges,
                start,
                (steps - 1) as nat,
                edges[e].from,
            )
    }
}

/// `node` can be reached from `start` along the edges.
pub open spec fn is_upstream(edges: Seq<SCMEdge>, start: usize, node: usize) -> bool {
    exists|steps: nat| reaches(edges, start, steps, node)
}

/// `distance` is the least number of steps from `start` to `node`.
pub open spec fn is_distance(edges: Seq<SCMEdge>, start: usize, node: usize, distance: nat) -> bool {
    &&& reaches(edges, start, distance, node)
    &&& forall|fewer: nat| fewer < distance ==> !#[trigger] reaches(edges, start, fewer, node)
}

/// One of the edges below `bound` leads from `node` to `target`.
spec fn leads_to(edges: Seq<SCMEdge>, bound: int, node: usize, target: usize) -> bool {
    exists|e: int| 0 <= e < bound && (#[trigger] edges[e]).from == node && edges[e].to == target
}

/// The entries of `row` are what the edges below `bound` from `node` lead to.
spec fn lists_targets(edges: Seq<SCMEdge>, bound: int, node: usize, row: Seq<usize>) -> bool {
    &&& forall|c: int|
        0 <= c < row.len() ==> leads_to(edges, bound, node, #[trigger] row[c])
    &&& forall|e: int|
        0 <= e < bound && (#[trigger] edges[e]).from == node ==> row.contains(edges[e].to)
}

proof fn lemma_lists_targets_step(edges: Seq<SCMEdge>, bound: int, node: usize, row: Seq<usize>)
    requires
        0 <= bound < edges.len(),
        lists_targets(edges, bound, node, row),
    ensures
        lists_targets(
            edges,
            bound + 1,
            node,
            if edges[bound].from == node {
                row.push(edges[bound].to)
            } else {
                row
            },
        ),
{
    let grown = if edges[bound].from == node {
        row.push(edges[bound].to)
    } else {
        row
    };
    assert forall|c: int| 0 <= c < grown.len() implies leads_to(
        edges,
        bound + 1,
        node,
        #[trigger] grown[c],
    ) by {
        if c < row.len() {
            let e = choose|e: int|
                0 <= e < bound && (#[trigger] edges[e]).from == node && edges[e].to == row[c];
            assert(edges[e].to == grown[c]);
        } else {
            assert(edges[bound].to == grown[c]);
        }
    }
    assert forall|e: int|
        0 <= e < bound + 1 && (#[trigger] edges[e]).from == node implies grown.contains(
        edges[e].to,
    ) by {
        if e < bound {
            let c = choose|c: int| 0 <= c < row.len() && row[c] == edges[e].to;
            assert(grown[c] == edges[e].to);
        } else {
            assert(grown[row.len() as int] == edges[e].to);
        }
    }
}

/// For each node with outgoing edges, where its targets are listed.
struct Targets {
    rows: HashMap<usize, usize>,
    lists: Vec<Vec<usize>>,
}

impl Targets {
    spec fn lists_edges(&self, edges: Seq<SCMEdge>, bound: int) -> bool {
        &&& forall|node: usize| #[trigger]
            self.rows@.contains_key(node) ==> self.rows@[node] < self.lists.len() && lists_targets(
                edges,
                bound,
                node,
                self.lists[self.rows@[node] as int]@,
            )
        &&& forall|e: int|
            0 <= e < bound ==> self.rows@.contains_key((#[trigger] edges[e]).from)
        &&& forall|a: usize, b: usize|
            #![trigger self.rows@[a], self.rows@[b]]
            self.rows@.contains_key(a) && self.rows@.contains_key(b) && a != b ==> self.rows@[a]
                != self.rows@[b]
    }

    fn of(edges: &Vec<SCMEdge>) -> (targets: Self)
        ensures
            targets.lists_edges(edges@, edges@.len() as int),
    {
        let mut targets = Targets { rows: HashMap::new(), lists: Vec::new() };
        let mut e: usize = 0;
        while e < edges.len()
            invariant
                e <= edges.len(),
                targets.lists_edges(edges@, e as int),
            decreases edges.len() - e,
        {
            let edge = edges[e];
            let ghost before = targets;
            match targets.rows.get(&edge.from) {
                Some(row) => {
                    let row: usize = *row;
                    targets.lists[row].push(edge.to);
                },
                None => {
                    targets.rows.insert(edge.from, targets.lists.len());
                    let mut list: Vec<usize> = Vec::new();
                    list.push(edge.to);
                    targets.lists.push(list);
                },
            }
            proof {
                let now = targets;
                assert forall|node: usize| #[trigger] now.rows@.contains_key(node) implies now.rows@[node] < now.lists.len()
                    && lists_targets(edges@, e + 1, node, now.lists[now.rows@[node] as int]@) by {
                    if before.rows@.contains_key(node) {
                        lemma_lists_targets_step(
                            edges@,
                            e as int,
                            node,
                            before.lists[before.rows@[node] as int]@,
                        );
                        if before.rows@.contains_key(edge.from) && node != edge.from {
                            assert(before.rows@[node] != before.rows@[edge.from]);
                        }
                    } else {
                        assert(lists_targets(edges@, e as int, node, Seq::empty())) by {
                            assert forall|d: int| 0 <= d < e && (#[trigger] edges@[d]).from == node implies false by {
                                assert(before.rows@.contains_key(edges@[d].from));
                            }
                        }
                        lemma_lists_targets_step(edges@, e as int, node, Seq::empty());
                        assert(now.lists[now.rows@[node] as int]@ =~= Seq::<usize>::empty().push(edge.to));
                    }
                }
                assert forall|a: usize, b: usize|
                    #![trigger now.rows@[a], now.rows@[b]]
                    now.rows@.contains_key(a) && now.rows@.contains_key(b) && a != b implies now.rows@[a]
                    != now.rows@[b] by {
                    if before.rows@.contains_key(a) {
                        assert(before.rows@[a] < before.lists.len());
                    }
                    if before.rows@.contains_key(b) {
                        assert(before.rows@[b] < before.lists.len());
                    }
                }
            }
            e = e + 1;
        }
        targets
    }
}

/// What holds while nodes are visited by increasing distance: the nodes before
/// place `head` of `order` have been left along all their edges.
spec fn is_search(
    edges: Seq<SCMEdge>,
    start: usize,
    order: Seq<usize>,
    distances: Map<usize, usize>,
    head: int,
) -> bool {
    &&& 0 <= head <= order.len()
    &&& order.no_duplicates()
    &&& distances.contains_key(start) && distances[start] == 0
    &&& forall|node: usize| #[trigger] distances.contains_key(node) ==> order.contains(node)
    &&& forall|i: int|
        0 <= i < order.len() ==> {
            &&& distances.contains_key(#[trigger] order[i])
            &&& distances[order[i]] <= i
            &&& reaches(edges, start, distances[order[i]] as nat, order[i])
            &&& order[i] == start || leads_anywhere(edges, order[i])
            &&& head < order.len() ==> distances[order[i]] <= distances[order[head]] + 1
        }
    &&& forall|i: int, j: int|
        0 <= i < j < order.len() ==> distances[#[trigger] order[i]] <= distances[#[trigger] order[j]]
    &&& forall|i: int, e: int|
        #![trigger order[i], edges[e]]
        0 <= i < head && 0 <= e < edges.len() && edges[e].from == order[i]
            ==> distances.contains_key(edges[e].to) && distances[edges[e].to] <= distances[order[i]] + 1
}

/// Some edge leads to `node`.
spec fn leads_anywhere(edges: Seq<SCMEdge>, node: usize) -> bool {
    exists|e: int| 0 <= e < edges.len() && (#[trigger] edges[e]).to == node
}

proof fn lemma_search_len(
    edges: Seq<SCMEdge>,
    start: usize,
    order: Seq<usize>,
    distances: Map<usize, usize>,
    head: int,
)
    requires
        is_search(edges, start, order, distances, head),
    ensures
        order.len() <= edges.len() + 1,
{
    let targets = edges.map_values(|edge: SCMEdge| edge.to);
    targets.lemma_cardinality_of_set();
    order.unique_seq_to_set();
    assert forall|node: usize| order.to_set().contains(node) implies #[trigger] targets.to_set().insert(start).contains(node) by {
        let i = choose|i: int| 0 <= i < order.len() && order[i] == node;
        if order[i] != start {
            let e = choose|e: int| 0 <= e < edges.len() && (#[trigger] edges[e]).to == node;
            assert(targets[e] == node);
        }
    }
    assert(order.to_set().subset_of(targets.to_set().insert(start)));
    vstd::set_lib::lemma_len_subset(order.to_set(), targets.to_set().insert(start));
}

/// Visiting a node that was not known yet, from the node at place `head`.
proof fn lemma_search_visit(
    edges: Seq<SCMEdge>,
    start: usize,
    order: Seq<usize>,
    distances: Map<usize, usize>,
    head: int,
    e: int,
    distance: usize,
)
    requires
        is_search(edges, start, order, distances, head),
        head < order.len(),
        0 <= e < edges.len(),
        edges[e].from == order[head],
        !distances.contains_key(edges[e].to),
        distance == distances[order[head]] + 1,
    ensures
        is_search(
            edges,
            start,
            order.push(edges[e].to),
            distances.insert(edges[e].to, distance),
            head,
        ),
{
    let node = edges[e].to;
    let grown = order.push(node);
    let known = distances.insert(node, distance);
    assert(!order.contains(node)) by {
        if order.contains(node) {
            let i = choose|i: int| 0 <= i < order.len() && order[i] == node;
            assert(distances.contains_key(order[i]));
        }
    }
    assert(reaches(edges, start, distance as nat, node)) by {
        assert(reaches(edges, start, distances[order[head]] as nat, order[head]));
        assert(edges[e].to == node);
    }
    assert forall|other: usize| #[trigger] known.contains_key(other) implies grown.contains(other) by {
        if other == node {
            assert(grown[order.len() as int] == node);
        } else {
            let i = choose|i: int| 0 <= i < order.len() && order[i] == other;
            assert(grown[i] == other);
        }
    }
    assert forall|i: int, j: int| 0 <= i < j < grown.len() implies known[#[trigger] grown[i]] <= known[#[trigger] grown[j]] by {
        assert(distances.contains_key(order[i]));
        if j < order.len() {
            assert(distances.contains_key(order[j]));
        }
    }
    assert forall|i: int| 0 <= i < grown.len() implies {
            &&& known.contains_key(#[trigger] grown[i])
            &&& known[grown[i]] <= i
            &&& reaches(edges, start, known[grown[i]] as nat, grown[i])
            &&& grown[i] == start || leads_anywhere(edges, grown[i])
            &&& head < grown.len() ==> known[grown[i]] <= known[grown[head]] + 1
        } by {
        assert(distances.contains_key(order[head]));
        assert(grown[head] == order[head]);
        if i < order.len() {
            assert(grown[i] == order[i]);
            assert(distances.contains_key(order[i]));
        }
    }
    assert forall|i: int, d: int|
        #![trigger grown[i], edges[d]]
        0 <= i < head && 0 <= d < edges.len() && edges[d].from == grown[i]
            implies known.contains_key(edges[d].to) && known[edges[d].to] <= known[grown[i]] + 1 by {
        assert(grown[i] == order[i]);
        assert(distances.contains_key(order[i]));
    }
}

/// Once every node has been left along its edges, the distances are exact.
proof fn lemma_search_done(
    edges: Seq<SCMEdge>,
    start: usize,
    order: Seq<usize>,
    distances: Map<usize, usize>,
    steps: nat,
    node: usize,
)
    requires
        is_search(edges, start, order, distances, order.len() as int),
        reaches(edges, start, steps, node),
    ensures
        distances.contains_key(node),
        distances[node] <= steps,
    decreases steps,
{
    if steps > 0 {
        let e = choose|e: int|
            0 <= e < edges.len() && (#[trigger] edges[e]).to == node && reaches(
                edges,
                start,
                (steps - 1) as nat,
                edges[e].from,
            );
        lemma_search_done(edges, start, order, distances, (steps - 1) as nat, edges[e].from);
        let i = choose|i: int| 0 <= i < order.len() && order[i] == edges[e].from;
        assert(order[i] == edges[e].from);
    }
}

/// The shortest distance from `failure_id` to every node that it depends on,
/// directly or not, along the dependency edges. Nodes that it does not depend
/// on have no entry.
pub fn upstream_distances(graph: &StructuralCausalGraph, failure_id: usize) -> (distances: HashMap<
    usize,
    usize,
>)
    ensures
        forall|node: usize| #[trigger] distances@.contains_key(node) <==> is_upstream(
            graph@.edges,
            failure_id,
            node,
        ),
        forall|node: usize| #[trigger] distances@.contains_key(node) ==> is_distance(
            graph@.edges,
            failure_id,
            node,
            distances@[node] as nat,
        ),
        distances@.contains_key(failure_id) && distances@[failure_id] == 0,
        forall|e: int|
            0 <= e < graph.edges@.len() && distances@.contains_key((#[trigger] graph.edges@[e]).from)
                ==> distances@.contains_key(graph.edges@[e].to) && distances@[graph.edges@[e].to]
                <= distances@[graph.edges@[e].from] + 1,
        forall|node: usize| #[trigger]
            distances@.contains_key(node) && node != failure_id ==> has_step_before(
                graph.edges@,
                distances@,
                node,
            ),
{
    let ghost edges = graph.edges@;
    let targets = Targets::of(&graph.edges);
    let mut distances: HashMap<usize, usize> = HashMap::new();
    let mut order: Vec<usize> = Vec::new();
    distances.insert(failure_id, 0);
    order.push(failure_id);
    let mut head: usize = 0;
    assert(order@[0] == failure_id);
    assert(is_search(edges, failure_id, order@, distances@, 0));
    while head < order.len()
        invariant
            edges == graph.edges@,
            targets.lists_edges(edges, edges.len() as int),
            is_search(edges, failure_id, order@, distances@, head as int),
        decreases edges.len() + 1 - head,
    {
        let current: usize = order[head];
        assert(distances@.contains_key(order@[head as int]));
        let distance: usize = match distances.get(&current) {
            Some(distance) => *distance,
            None => 0,
        };
        match targets.rows.get(&current) {
            Some(row) => {
                let list = &targets.lists[*row];
                let ghost row = list@;
                let mut c: usize = 0;
                while c < list.len()
                    invariant
                        edges == graph.edges@,
                        row == list@,
                        lists_targets(edges, edges.len() as int, current, row),
                        is_search(edges, failure_id, order@, distances@, head as int),
                        head < order.len(),
                        order[head as int] == current,
                        distances@[current] == distance,
                        c <= list.len(),
                        forall|d: int|
                            0 <= d < c ==> distances@.contains_key(#[trigger] row[d])
                                && distances@[row[d]] <= distance + 1,
                    decreases list.len() - c,
                {
                    let next: usize = list[c];
                    proof {
                        assert(leads_to(edges, edges.len() as int, current, row[c as int]));
                        assert(distances@.contains_key(order@[head as int]));
                    }
                    if !distances.contains_key(&next) {
                        let ghost e = choose|e: int|
                            0 <= e < edges.len() && (#[trigger] edges[e]).from == current
                                && edges[e].to == next;
                        proof {
                            lemma_search_visit(
                                edges,
                                failure_id,
                                order@,
                                distances@,
                                head as int,
                                e,
                                (distance + 1) as usize,
                            );
                        }
                        distances.insert(next, distance + 1);
                        order.push(next);
                    } else {
                        proof {
                            assert(order@.contains(next));
                            let i = choose|i: int| 0 <= i < order@.len() && order@[i] == next;
                            assert(distances@[order@[i]] <= distance + 1);
                        }
                    }
                    c = c + 1;
                }
                proof {
                    assert forall|e: int|
                        0 <= e < edges.len() && (#[trigger] edges[e]).from == current
                        implies distances@.contains_key(edges[e].to) && distances@[edges[e].to]
                        <= distance + 1 by {
                        let d = choose|d: int| 0 <= d < row.len() && row[d] == edges[e].to;
                        assert(distances@.contains_key(row[d]));
                    }
                }
            },
            None => {},
        }
        proof {
            assert forall|i: int| 0 <= i < order@.len() implies distances@[#[trigger] order@[i]]
                <= distance + 1 by {}
            if head + 1 < order.len() {
                assert(distances@[order@[head as int]] <= distances@[order@[head + 1]]);
            }
            lemma_search_len(edges, failure_id, order@, distances@, head as int);
        }
        head = head + 1;
    }
    proof {
        assert forall|node: usize| #[trigger] distances@.contains_key(node) implies is_distance(
            edges,
            failure_id,
            node,
            distances@[node] as nat,
        ) by {
            let i = choose|i: int| 0 <= i < order@.len() && order@[i] == node;
            assert(reaches(edges, failure_id, distances@[order@[i]] as nat, order@[i]));
            assert forall|fewer: nat| fewer < distances@[node] implies !#[trigger] reaches(
                edges,
                failure_id,
                fewer,
                node,
            ) by {
                if reaches(edges, failure_id, fewer, node) {
                    lemma_search_done(edges, failure_id, order@, distances@, fewer, node);
                }
            }
        }
        assert forall|node: usize| #[trigger] distances@.contains_key(node) <==> is_upstream(
            edges,
            failure_id,
            node,
        ) by {
            if is_upstream(edges, failure_id, node) {
                let steps = choose|steps: nat| reaches(edges, failure_id, steps, node);
                lemma_search_done(edges, failure_id, order@, distances@, steps, node);
            }
            if distances@.contains_key(node) {
                assert(is_distance(edges, failure_id, node, distances@[node] as nat));
            }
        }
        law_distances(edges, failure_id, distances@);
    }
    distances
}

/// An edge leads to the node from one that is one step nearer.
pub open spec fn has_step_before(
    edges: Seq<SCMEdge>,
    distances: Map<usize, usize>,
    node: usize,
) -> bool {
    exists|e: int|
        0 <= e < edges.len() && (#[trigger] edges[e]).to == node && distances.contains_key(
            edges[e].from,
        ) && distances[edges[e].from] + 1 == distances[node]
}

/// Distances start at zero. No edge, of whatever kind, leads further than one
/// step, and to every node but the first some edge leads from one that is a step
/// nearer.
pub proof fn law_distances(edges: Seq<SCMEdge>, start: usize, distances: Map<usize, usize>)
    requires
        forall|node: usize| #[trigger]
            distances.contains_key(node) <==> is_upstream(edges, start, node),
        forall|node: usize| #[trigger]
            distances.contains_key(node) ==> is_distance(edges, start, node, distances[node] as nat),
    ensures
        distances.contains_key(start),
        distances[start] == 0,
        forall|e: int|
            0 <= e < edges.len() && distances.contains_key((#[trigger] edges[e]).from)
                ==> distances.contains_key(edges[e].to) && distances[edges[e].to]
                <= distances[edges[e].from] + 1,
        forall|node: usize| #[trigger]
            distances.contains_key(node) && node != start ==> has_step_before(edges, distances, node),
{
    assert(reaches(edges, start, 0, start));
    assert(is_upstream(edges, start, start));
    assert(distances.contains_key(start));
    assert(is_distance(edges, start, start, distances[start] as nat));
    assert forall|e: int|
        0 <= e < edges.len() && distances.contains_key((#[trigger] edges[e]).from)
        implies distances.contains_key(edges[e].to) && distances[edges[e].to]
        <= distances[edges[e].from] + 1 by {
        let steps = distances[edges[e].from] as nat;
        assert(is_distance(edges, start, edges[e].from, steps));
        assert(reaches(edges, start, steps + 1, edges[e].to));
        assert(distances.contains_key(edges[e].to));
        assert(is_distance(edges, start, edges[e].to, distances[edges[e].to] as nat));
    }
    assert forall|node: usize| #[trigger]
        distances.contains_key(node) && node != start implies has_step_before(
        edges,
        distances,
        node,
    ) by {
        let steps = distances[node] as nat;
        assert(is_distance(edges, start, node, steps));
        assert(steps > 0);
        let e = choose|e: int|
            0 <= e < edges.len() && (#[trigger] edges[e]).to == node && reaches(
                edges,
                start,
                (steps - 1) as nat,
                edges[e].from,
            );
        assert(distances.contains_key(edges[e].from));
        assert(is_distance(edges, start, edges[e].from, distances[edges[e].from] as nat));
        assert(distances[edges[e].from] <= steps - 1);
        assert(distances[edges[e].to] <= distances[edges[e].from] + 1);
    }
}

/// What lies outside of a set that no edge leaves is not upstream of anything in
/// it.
pub proof fn law_no_edge_no_path(edges: Seq<SCMEdge>, start: usize, inside: Set<usize>, node: usize)
    requires
        inside.contains(start),
        !inside.contains(node),
        forall|e: int|
            0 <= e < edges.len() && inside.contains((#[trigger] edges[e]).from) ==> inside.contains(
                edges[e].to,
            ),
    ensures
        !is_upstream(edges, start, node),
{
    if is_upstream(edges, start, node) {
        let steps = choose|steps: nat| reaches(edges, start, steps, node);
        lemma_stays_inside(edges, start, inside, steps, node);
    }
}

proof fn lemma_stays_inside(
    edges: Seq<SCMEdge>,
    start: usize,
    inside: Set<usize>,
    steps: nat,
    node: usize,
)
    requires
        inside.contains(start),
        forall|e: int|
            0 <= e < edges.len() && inside.contains((#[trigger] edges[e]).from) ==> inside.contains(
                edges[e].to,
            ),
        reaches(edges, start, steps, node),
    ensures
        inside.contains(node),
    decreases steps,
{
    if steps > 0 {
        let e = choose|e: int|
            0 <= e < edges.len() && (#[trigger] edges[e]).to == node && reaches(
                edges,
                start,
                (steps - 1) as nat,
                edges[e].from,
            );
        lemma_stays_inside(edges, start, inside, (steps - 1) as nat, edges[e].from);
    }
}

/// The explanation for a failing node that the graph does not hold.
pub open spec fn missing_node_text(id: usize) -> Seq<char> {
    "Failure node "@ + decimal(id as nat)
        + " is not present in the causal graph; no gradient computed."@
}

/// The explanation for the root cause that was found.
pub open spec fn explanation_text(failing: Option<usize>, cause: Option<usize>) -> Seq<char> {
    match (failing, cause) {
        (Some(fail_id), Some(cause_id)) => "Node "@ + decimal(cause_id as nat)
            + " has the strongest causal gradient relative to failure "@ + decimal(fail_id as nat)
            + "."@,
        (None, Some(cause_id)) => "Node "@ + decimal(cause_id as nat)
            + " has the strongest causal gradient."@,
        (_, None) => "No AST deltas were available to compute a causal gradient."@,
    }
}

fn missing_node(id: usize) -> (text: String)
    ensures
        text@ == missing_node_text(id),
{
    let mut text = "Failure node ".to_owned();
    text.append(&decimal_text(id as u128));
    text.append(" is not present in the causal graph; no gradient computed.");
    text
}

fn explanation(failing: Option<usize>, cause: Option<usize>) -> (text: String)
    ensures
        text@ == explanation_text(failing, cause),
{
    match cause {
        Some(cause_id) => {
            let mut text = "Node ".to_owned();
            text.append(&decimal_text(cause_id as u128));
            match failing {
                Some(fail_id) => {
                    text.append(" has the strongest causal gradient relative to failure ");
                    text.append(&decimal_text(fail_id as u128));
                    text.append(".");
                },
                None => {
                    text.append(" has the strongest causal gradient.");
                },
            }
            text
        },
        None => "No AST deltas were available to compute a causal gradient.".to_owned(),
    }
}

/// `cause` has the highest score, which is finite and above zero. There is no
/// cause if no score is above zero, or if the highest is not finite.
pub open spec fn is_root_cause(scores: Map<usize, u64>, cause: Option<usize>) -> bool {
    match cause {
        Some(id) => {
            &&& scores.contains_key(id)
            &&& rank(scores[id]) > 0
            &&& is_finite(scores[id])
            &&& forall|other: usize| #[trigger]
                scores.contains_key(other) ==> rank(scores[other]) <= rank(scores[id])
        },
        None => {
            ||| forall|other: usize| #[trigger] scores.contains_key(other) ==> rank(scores[other]) <= 0
            ||| exists|other: usize| #[trigger] scores.contains_key(other) && scores[other] == INFINITY
        },
    }
}

/// The score of a changed node: what `score` makes of its change and its
/// distance from the failing node, and zero if the failing node does not depend
/// on it.
pub open spec fn is_score<D, F: Fn(&D, usize) -> u64>(
    score: F,
    edges: Seq<SCMEdge>,
    failing: Option<usize>,
    node: usize,
    delta: D,
    result: u64,
) -> bool {
    match failing {
        Some(id) if is_upstream(edges, id, node) => exists|distance: usize|
            is_distance(edges, id, node, distance as nat) && #[trigger] call_ensures(
                score,
                (&delta, distance),
                result,
            ),
        _ => result == 0,
    }
}

/// `report` is what the analysis of a failure says. A failing node that the
/// graph does not hold has no scores; otherwise every change is scored, and the
/// strongest is the root cause.
pub open spec fn is_diagnosis<D, F: Fn(&D, usize) -> u64>(
    score: F,
    failure: CompilerFailure,
    graph: StructuralCausalGraph,
    deltas: Map<usize, D>,
    report: CausalReport,
) -> bool {
    &&& report.failure == failure
    &&& match failure.node_id {
        Some(id) if id >= graph@.nodes.len() => {
            &&& report.root_cause_node is None
            &&& report.gradient_scores@ == Map::<usize, u64>::empty()
            &&& report.explanation@ == missing_node_text(id)
        },
        _ => {
            &&& report.gradient_scores@.dom() == deltas.dom()
            &&& forall|node: usize| #[trigger]
                deltas.contains_key(node) ==> is_score(
                    score,
                    graph@.edges,
                    failure.node_id,
                    node,
                    deltas[node],
                    report.gradient_scores@[node],
                )
            &&& is_root_cause(report.gradient_scores@, report.root_cause_node)
            &&& report.explanation@ == explanation_text(failure.node_id, report.root_cause_node)
        },
    }
}

/// Computes causal gradient metrics from changes and the graph.
pub struct CausalGradientAnalyzer;

impl CausalGradientAnalyzer {
    /// Analyze a compiler failure and name the most likely root-cause node.
    ///
    /// `deltas` holds what changed in each node. `score` is the number, as a bit
    /// pattern, for a change at a distance from the failing node.
    pub fn diagnose<D, F: Fn(&D, usize) -> u64>(
        failure: &CompilerFailure,
        graph: &StructuralCausalGraph,
        deltas: &HashMap<usize, D>,
        score: F,
    ) -> (report: CausalReport)
        requires
            forall|delta: &D, distance: usize| call_requires(score, (delta, distance)),
            forall|delta: &D, distance: usize, result: u64|
                call_ensures(score, (delta, distance), result) ==> !is_nan(result),
        ensures
            is_diagnosis(score, *failure, *graph, deltas@, report),
            failure.node_id matches Some(id) && id >= graph.nodes@.len() ==> report.explanation@
                == "Failure node "@ + decimal(failure.node_id->0 as nat)
                + " is not present in the causal graph; no gradient computed."@,
    {
        let distances = match failure.node_id {
            Some(id) => {
                if id >= graph.nodes.len() {
                    return CausalReport {
                        failure: failure.clone(),
                        root_cause_node: None,
                        gradient_scores: HashMap::new(),
                        explanation: missing_node(id),
                    };
                }
                upstream_distances(graph, id)
            },
            None => HashMap::new(),
        };
        let ghost edges = graph@.edges;
        let ghost failing = failure.node_id;
        let mut scores: HashMap<usize, u64> = HashMap::new();
        for (node, delta) in it: deltas.iter()
            invariant
                forall|delta: &D, distance: usize| call_requires(score, (delta, distance)),
                forall|delta: &D, distance: usize, result: u64|
                    call_ensures(score, (delta, distance), result) ==> !is_nan(result),
                forall|i: int|
                    0 <= i < it.seq().len() ==> deltas@.contains_key(*(#[trigger] it.seq()[i]).0)
                        && deltas@[*it.seq()[i].0] == *it.seq()[i].1,
                forall|node: usize| #[trigger]
                    distances@.contains_key(node) <==> (failing is Some && is_upstream(
                        edges,
                        failing->0,
                        node,
                    )),
                forall|node: usize| #[trigger]
                    distances@.contains_key(node) ==> is_distance(
                        edges,
                        failing->0,
                        node,
                        distances@[node] as nat,
                    ),
                forall|node: usize| #[trigger]
                    scores@.contains_key(node) ==> deltas@.contains_key(node) && is_score(
                        score,
                        edges,
                        failing,
                        node,
                        deltas@[node],
                        scores@[node],
                    ) && !is_nan(scores@[node]),
                forall|i: int|
                    0 <= i < it.index() ==> scores@.contains_key(*(#[trigger] it.seq()[i]).0),
        {
            let value: u64 = match distances.get(node) {
                Some(distance) => score(delta, *distance),
                None => 0,
            };
            proof {
                assert(deltas@.contains_key(*it.seq()[it.index() as int].0));
                assert(distances@.contains_key(*node) ==> is_distance(
                    edges,
                    failing->0,
                    *node,
                    distances@[*node] as nat,
                ));
                assert(is_score(score, edges, failing, *node, deltas@[*node], value));
            }
            scores.insert(*node, value);
        }
        assert(scores@.dom() =~= deltas@.dom());
        let cause = strongest(&scores);
        CausalReport {
            failure: failure.clone(),
            root_cause_node: cause,
            gradient_scores: scores,
            explanation: explanation(failure.node_id, cause),
        }
    }
}

/// The node with the highest score, if that is finite and above zero.
fn strongest(scores: &HashMap<usize, u64>) -> (cause: Option<usize>)
    requires
        forall|node: usize| #[trigger] scores@.contains_key(node) ==> !is_nan(scores@[node]),
    ensures
        is_root_cause(scores@, cause),
{
    let mut best: Option<(usize, u64)> = None;
    for (node, value) in it: scores.iter()
        invariant
            forall|node: usize| #[trigger] scores@.contains_key(node) ==> !is_nan(scores@[node]),
            forall|i: int|
                0 <= i < it.seq().len() ==> scores@.contains_key(*(#[trigger] it.seq()[i]).0)
                    && scores@[*it.seq()[i].0] == *it.seq()[i].1,
            match best {
                Some((id, top)) => {
                    &&& scores@.contains_key(id) && scores@[id] == top
                    &&& forall|i: int|
                        0 <= i < it.index() ==> rank(*(#[trigger] it.seq()[i]).1) <= rank(top)
                },
                None => it.index() == 0,
            },
    {
        assert(scores@.contains_key(*it.seq()[it.index() as int].0));
        let higher: bool = match best {
            Some((_, top)) => at_most(top, *value),
            None => true,
        };
        if higher {
            best = Some((*node, *value));
        }
    }
    match best {
        Some((id, top)) => {
            if !at_most(top, 0) && !at_most(INFINITY, top) {
                Some(id)
            } else {
                None
            }
        },
        None => None,
    }
}

/// The root cause is a changed node that the failing node depends on, or the
/// failing node itself. Without a failing node there is none.
pub proof fn law_root_cause_is_upstream<D, F: Fn(&D, usize) -> u64>(
    score: F,
    failure: CompilerFailure,
    graph: StructuralCausalGraph,
    deltas: Map<usize, D>,
    report: CausalReport,
)
    requires
        is_diagnosis(score, failure, graph, deltas, report),
        report.root_cause_node is Some,
    ensures
        failure.node_id is Some,
        is_upstream(graph@.edges, failure.node_id->0, report.root_cause_node->0),
        deltas.contains_key(report.root_cause_node->0),
{
    let cause = report.root_cause_node->0;
    assert(report.gradient_scores@.dom().contains(cause));
    assert(deltas.contains_key(cause));
}

/// A failure in a node that the graph does not hold, or without any change to
/// blame, has no root cause.
pub proof fn law_no_cause_without_changes<D, F: Fn(&D, usize) -> u64>(
    score: F,
    failure: CompilerFailure,
    graph: StructuralCausalGraph,
    deltas: Map<usize, D>,
    report: CausalReport,
)
    requires
        is_diagnosis(score, failure, graph, deltas, report),
        failure.node_id is None || failure.node_id->0 >= graph@.nodes.len() || deltas
            == Map::<usize, D>::empty(),
    ensures
        report.root_cause_node is None,
{
    if report.root_cause_node is Some {
        law_root_cause_is_upstream(score, failure, graph, deltas, report);
    }
}

/// The root cause has the highest score, by its bits. Its score is above zero and
/// below infinity, and a score with the sign bit is never higher. There is none
/// only if no score is above zero, or if one is infinite.
pub proof fn law_root_cause_is_strongest(scores: Map<usize, u64>, cause: Option<usize>, node: usize)
    requires
        is_root_cause(scores, cause),
        scores.contains_key(node),
        scores[node] <= 0x7ff0_0000_0000_0000 || 0x8000_0000_0000_0000 <= scores[node]
            <= 0xfff0_0000_0000_0000,
    ensures
        cause matches Some(id) ==> scores.contains_key(id) && 0 < scores[id] < 0x7ff0_0000_0000_0000
            && (scores[node] <= scores[id] || scores[node] >= 0x8000_0000_0000_0000),
        cause is None && 0 < scores[node] < 0x8000_0000_0000_0000 ==> exists|other: usize| #[trigger]
            scores.contains_key(other) && scores[other] == 0x7ff0_0000_0000_0000,
{
    if cause is None && 0 < scores[node] < 0x8000_0000_0000_0000 {
        assert(rank(scores[node]) > 0);
    }
}

/// A change in the failing node is scored at no distance, one in a node that it
/// depends on directly at one step, and one in a node that it does not depend on
/// at all is scored as zero.
pub proof fn law_scores_by_distance<D, F: Fn(&D, usize) -> u64>(
    score: F,
    failure: CompilerFailure,
    graph: StructuralCausalGraph,
    deltas: Map<usize, D>,
    report: CausalReport,
    node: usize,
    inside: Set<usize>,
)
    requires
        is_diagnosis(score, failure, graph, deltas, report),
        failure.node_id matches Some(id) && id < graph.nodes@.len(),
        deltas.contains_key(node),
    ensures
        ({
            let id = failure.node_id->0;
            let value = report.gradient_scores@[node];
            &&& report.gradient_scores@.contains_key(node)
            &&& node == id ==> call_ensures(score, (&deltas[node], 0usize), value)
            &&& node != id && (exists|e: int|
                0 <= e < graph.edges@.len() && (#[trigger] graph.edges@[e]).from == id
                    && graph.edges@[e].to == node) ==> call_ensures(
                score,
                (&deltas[node], 1usize),
                value,
            )
            &&& inside.contains(id) && !inside.contains(node) && (forall|e: int|
                0 <= e < graph.edges@.len() && inside.contains((#[trigger] graph.edges@[e]).from)
                    ==> inside.contains(graph.edges@[e].to)) ==> value == 0
        }),
{
    let id = failure.node_id->0;
    let edges = graph@.edges;
    let value = report.gradient_scores@[node];
    assert(report.gradient_scores@.dom().contains(node));
    assert(is_score(score, edges, failure.node_id, node, deltas[node], value));
    assert(reaches(edges, id, 0, id));
    if node == id {
        let distance = choose|distance: usize|
            is_distance(edges, id, node, distance as nat) && #[trigger] call_ensures(
                score,
                (&deltas[node], distance),
                value,
            );
        assert(distance == 0);
    } else if exists|e: int|
        0 <= e < edges.len() && (#[trigger] edges[e]).from == id && edges[e].to == node {
        let e = choose|e: int|
            0 <= e < edges.len() && (#[trigger] edges[e]).from == id && edges[e].to == node;
        assert(reaches(edges, id, 1, edges[e].to));
        let distance = choose|distance: usize|
            is_distance(edges, id, node, distance as nat) && #[trigger] call_ensures(
                score,
                (&deltas[node], distance),
                value,
            );
        assert(!reaches(edges, id, 0, node));
        assert(distance == 1);
    }
    if inside.contains(id) && !inside.contains(node) && (forall|e: int|
        0 <= e < edges.len() && inside.contains((#[trigger] edges[e]).from) ==> inside.contains(
            edges[e].to,
        )) {
        law_no_edge_no_path(edges, id, inside, node);
    }
}

/// The explanation names the root cause and the failing node by their numbers,
/// or says that nothing could be computed.
pub proof fn law_explanations<D, F: Fn(&D, usize) -> u64>(
    score: F,
    failure: CompilerFailure,
    graph: StructuralCausalGraph,
    deltas: Map<usize, D>,
    report: CausalReport,
)
    requires
        is_diagnosis(score, failure, graph, deltas, report),
    ensures
        report.failure == failure,
        report.root_cause_node is Some ==> report.explanation@ == "Node "@ + decimal(
            report.root_cause_node->0 as nat,
        ) + " has the strongest causal gradient relative to failure "@ + decimal(
            failure.node_id->0 as nat,
        ) + "."@,
        report.root_cause_node is None && (failure.node_id is None || failure.node_id->0
            < graph.nodes@.len()) ==> report.explanation@
            == "No AST deltas were available to compute a causal gradient."@,
        failure.node_id is Some && failure.node_id->0 >= graph.nodes@.len() ==> report.explanation@
            == "Failure node "@ + decimal(failure.node_id->0 as nat)
            + " is not present in the causal graph; no gradient computed."@,
{
    if report.root_cause_node is Some {
        law_root_cause_is_upstream(score, failure, graph, deltas, report);
    }
}

/// An explanation names the root cause, and the failing node if there is one. If
/// there is no root cause, it says that.
pub proof fn law_explanation_texts(failing: usize, cause: usize, other: Option<usize>)
    ensures
        explanation_text(Some(failing), Some(cause)) == "Node "@ + decimal(cause as nat)
            + " has the strongest causal gradient relative to failure "@ + decimal(failing as nat)
            + "."@,
        explanation_text(None, Some(cause)) == "Node "@ + decimal(cause as nat)
            + " has the strongest causal gradient."@,
        explanation_text(other, None)
            == "No AST deltas were available to compute a causal gradient."@,
        missing_node_text(failing) == "Failure node "@ + decimal(failing as nat)
            + " is not present in the causal graph; no gradient computed."@,
{
}

} // verus!
