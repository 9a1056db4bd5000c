//! Wavefront scheduling: compilation units in topological bands.
//!
//! Each band holds units whose dependencies all stand in earlier bands, so the
//! units of one band can be built side by side.

use std::collections::HashMap;

use vstd::prelude::*;
use vstd::std_specs::hash::group_hash_axioms;

use crate::scheduler::layering::{
    is_layering, law_layering_unique, law_layers_are_tight, law_requirements_in_earlier_layers,
    layer_start, layers, selects,
};
use crate::scheduler::recorder::Recorder;
use crate::scheduler::work_stealing::{clamped, WorkStealingPool};
use crate::scm::graph::{edge_pairs, GraphView, SCMEdge, SCMNode, StructuralCausalGraph};

verus! {

broadcast use group_hash_axioms;

/// A single node of work derived from the structural causal graph.
#[derive(Debug, PartialEq)]
pub struct CompilationUnit {
    pub id: usize,
    pub name: String,
    pub language: String,
    pub dependencies: Vec<usize>,
}

/// What a unit says, with its texts and its dependencies as sequences.
#[verifier::ext_equal]
pub struct UnitView {
    pub id: usize,
    pub name: Seq<char>,
    pub language: Seq<char>,
    pub dependencies: Seq<usize>,
}

impl View for CompilationUnit {
    type V = UnitView;

    open spec fn view(&self) -> UnitView {
        UnitView {
            id: self.id,
            name: self.name@,
            language: self.language@,
            dependencies: self.dependencies@,
        }
    }
}

impl Clone for CompilationUnit {
    fn clone(&self) -> (copy: Self)
        ensures
            copy@ == self@,
    {
        let dependencies = self.dependencies.clone();
        assert(dependencies@ =~= self.dependencies@);
        CompilationUnit {
            id: self.id,
            name: self.name.clone(),
            language: self.language.clone(),
            dependencies,
        }
    }
}

impl From<&SCMNode> for CompilationUnit {
    fn from(node: &SCMNode) -> (unit: Self)
        ensures
            unit@ == (UnitView {
                id: node.id,
                name: node.name@,
                language: node.language@,
                dependencies: Seq::empty(),
            }),
    {
        CompilationUnit {
            id: node.id,
            name: node.name.clone(),
            language: node.language.clone(),
            dependencies: Vec::new(),
        }
    }
}

impl vstd::std_specs::convert::FromSpecImpl<&SCMNode> for CompilationUnit {
    open spec fn obeys_from_spec() -> bool {
        false
    }

    open spec fn from_spec(node: &SCMNode) -> Self {
        arbitrary()
    }
}

/// The views of a list of units.
pub open spec fn unit_views(units: Seq<CompilationUnit>) -> Seq<UnitView> {
    Seq::new(units.len(), |i: int| units[i]@)
}

/// What `id` depends on, in the order of the edges.
pub open spec fn dependencies_of(edges: Seq<SCMEdge>, id: usize) -> Seq<usize>
    decreases edges.len(),
{
    if edges.len() == 0 {
        Seq::empty()
    } else {
        let before = dependencies_of(edges.drop_last(), id);
        if edges.last().from == id {
            before.push(edges.last().to)
        } else {
            before
        }
    }
}

/// The unit of the node at place `id`.
pub open spec fn unit_of(graph: GraphView, id: int) -> UnitView {
    UnitView {
        id: graph.nodes[id].id,
        name: graph.nodes[id].name,
        language: graph.nodes[id].language,
        dependencies: dependencies_of(graph.edges, graph.nodes[id].id),
    }
}

/// `units` are those of the nodes, in the graph's topological order. A graph
/// without one has no units.
pub open spec fn is_unit_list(graph: GraphView, units: Seq<UnitView>) -> bool {
    if exists|order: Seq<usize>| graph.is_build_order(order) {
        exists|order: Seq<usize>, ends: Seq<usize>|
            {
                &&& #[trigger] is_layering(
                    graph.nodes.len() as int,
                    edge_pairs(graph.edges),
                    order,
                    ends,
                )
                &&& graph.is_build_order(order)
                &&& units == Seq::new(order.len(), |i: int| unit_of(graph, order[i] as int))
            }
    } else {
        units.len() == 0
    }
}

/// No two units have the same id.
pub open spec fn distinct_ids(units: Seq<UnitView>) -> bool {
    forall|i: int, j: int|
        0 <= i < j < units.len() ==> (#[trigger] units[i]).id != (#[trigger] units[j]).id
}

/// The unit at place `i` has this id.
pub open spec fn is_at(units: Seq<UnitView>, i: int, id: usize) -> bool {
    0 <= i < units.len() && units[i].id == id
}

/// Some unit has this id.
pub open spec fn is_known(units: Seq<UnitView>, id: usize) -> bool {
    exists|i: int| is_at(units, i, id)
}

/// The place of the unit with this id; behind the last unit if there is none.
pub open spec fn place_of(units: Seq<UnitView>, id: usize) -> int {
    if is_known(units, id) {
        choose|i: int| is_at(units, i, id)
    } else {
        units.len() as int
    }
}

/// The first `n` dependencies of the unit at place `i` as edges between
/// places. Dependencies that are not units of the list are left out if
/// `known_only`; otherwise they point behind the last unit.
pub open spec fn unit_row(units: Seq<UnitView>, known_only: bool, i: int, n: int) -> Seq<
    (usize, usize),
>
    decreases n,
{
    if n <= 0 {
        Seq::empty()
    } else {
        let before = unit_row(units, known_only, i, n - 1);
        let dependency = units[i].dependencies[n - 1];
        if known_only && !is_known(units, dependency) {
            before
        } else {
            before.push((i as usize, place_of(units, dependency) as usize))
        }
    }
}

/// The dependencies of the first `n` units as edges between places.
pub open spec fn unit_edges(units: Seq<UnitView>, known_only: bool, n: int) -> Seq<(usize, usize)>
    decreases n,
{
    if n <= 0 {
        Seq::empty()
    } else {
        unit_edges(units, known_only, n - 1) + unit_row(
            units,
            known_only,
            n - 1,
            units[n - 1].dependencies.len() as int,
        )
    }
}

/// `bands` holds the units at the places in `order`, cut at `ends`.
pub open spec fn is_cut_of(
    units: Seq<UnitView>,
    order: Seq<usize>,
    ends: Seq<usize>,
    bands: Seq<Seq<UnitView>>,
) -> bool {
    &&& bands.len() == ends.len()
    &&& forall|k: int|
        0 <= k < ends.len() ==> (#[trigger] bands[k]) == Seq::new(
            (ends[k] - layer_start(ends, k)) as nat,
            |i: int| units[order[layer_start(ends, k) + i] as int],
        )
}

/// `bands` are the wavefront bands of `units`: the layering of the units under
/// their dependencies. With `known_only` a dependency that is not a unit of the
/// list is disregarded; otherwise nothing that waits for it is scheduled.
pub open spec fn is_banding(
    units: Seq<UnitView>,
    known_only: bool,
    bands: Seq<Seq<UnitView>>,
) -> bool {
    exists|order: Seq<usize>, ends: Seq<usize>|
        {
            &&& #[trigger] is_layering(
                units.len() as int,
                unit_edges(units, known_only, units.len() as int),
                order,
                ends,
            )
            &&& is_cut_of(units, order, ends, bands)
        }
}

/// The views of a list of bands.
pub open spec fn band_views(bands: Seq<Vec<CompilationUnit>>) -> Seq<Seq<UnitView>> {
    Seq::new(bands.len(), |k: int| unit_views(bands[k]@))
}

/// The place of each unit, by id.
fn places(units: &[CompilationUnit]) -> (places: HashMap<usize, usize>)
    requires
        distinct_ids(unit_views(units@)),
    ensures
        forall|id: usize|
            #![trigger places@.contains_key(id)]
            {
                &&& places@.contains_key(id) <==> is_known(unit_views(units@), id)
                &&& places@.contains_key(id) ==> places@[id] == place_of(unit_views(units@), id)
            },
{
    let ghost views = unit_views(units@);
    let mut places: HashMap<usize, usize> = HashMap::new();
    let mut i: usize = 0;
    while i < units.len()
        invariant
            i <= units.len(),
            views == unit_views(units@),
            distinct_ids(views),
            forall|id: usize| #[trigger]
                places@.contains_key(id) <==> exists|j: int| 0 <= j < i && is_at(views, j, id),
            forall|j: int| 0 <= j < i ==> places@[(#[trigger] views[j]).id] == j,
        decreases units.len() - i,
    {
        proof {
            assert(is_at(views, i as int, views[i as int].id));
            assert(views[i as int].id == units[i as int].id);
        }
        places.insert(units[i].id, i);
        i = i + 1;
    }
    proof {
        assert forall|id: usize|
            #![trigger places@.contains_key(id)]
            {
                &&& places@.contains_key(id) <==> is_known(views, id)
                &&& places@.contains_key(id) ==> places@[id] == place_of(views, id)
            } by {
            if is_known(views, id) {
                let j = choose|j: int| is_at(views, j, id);
                assert(places@[views[j].id] == j);
            }
        }
    }
    places
}

/// The dependencies of the units as edges between places.
fn place_edges(units: &[CompilationUnit], known_only: bool) -> (edges: Vec<(usize, usize)>)
    requires
        distinct_ids(unit_views(units@)),
    ensures
        edges@ == unit_edges(unit_views(units@), known_only, units@.len() as int),
        forall|e: int| 0 <= e < edges.len() ==> (#[trigger] edges[e]).0 < units.len(),
{
    let ghost views = unit_views(units@);
    let known = places(units);
    let count: usize = units.len();
    let mut edges: Vec<(usize, usize)> = Vec::new();
    let mut i: usize = 0;
    while i < count
        invariant
            i <= count == units.len(),
            views == unit_views(units@),
            forall|id: usize|
                #![trigger known@.contains_key(id)]
                {
                    &&& known@.contains_key(id) <==> is_known(views, id)
                    &&& known@.contains_key(id) ==> known@[id] == place_of(views, id)
                },
            edges@ == unit_edges(views, known_only, i as int),
            forall|e: int| 0 <= e < edges.len() ==> (#[trigger] edges[e]).0 < i,
        decreases count - i,
    {
        let ghost before = edges@;
        let mut j: usize = 0;
        assert(views[i as int].dependencies == units[i as int].dependencies@);
        assert(before + unit_row(views, known_only, i as int, 0) =~= before);
        while j < units[i].dependencies.len()
            invariant
                i < count == units.len(),
                views == unit_views(units@),
                forall|id: usize|
                    #![trigger known@.contains_key(id)]
                    {
                        &&& known@.contains_key(id) <==> is_known(views, id)
                        &&& known@.contains_key(id) ==> known@[id] == place_of(views, id)
                    },
                j <= units[i as int].dependencies.len(),
                views[i as int].dependencies == units[i as int].dependencies@,
                edges@ == before + unit_row(views, known_only, i as int, j as int),
                forall|e: int| 0 <= e < edges.len() ==> (#[trigger] edges[e]).0 < i + 1,
            decreases units[i as int].dependencies.len() - j,
        {
            let dependency: usize = units[i].dependencies[j];
            let ghost row = unit_row(views, known_only, i as int, j as int);
            match known.get(&dependency) {
                Some(place) => {
                    assert(known@.contains_key(dependency));
                    edges.push((i, *place));
                },
                None => {
                    assert(!known@.contains_key(dependency));
                    if !known_only {
                        edges.push((i, count));
                    }
                },
            }
            j = j + 1;
            assert(edges@ =~= before + unit_row(views, known_only, i as int, j as int));
        }
        i = i + 1;
    }
    edges
}

/// The wavefront bands of `units`.
pub(crate) fn banded(units: &[CompilationUnit], known_only: bool) -> (bands: Vec<
    Vec<CompilationUnit>,
>)
    requires
        distinct_ids(unit_views(units@)),
    ensures
        is_banding(unit_views(units@), known_only, band_views(bands@)),
{
    let ghost views = unit_views(units@);
    let edges = place_edges(units, known_only);
    let layered = layers(units.len(), &edges);
    let mut bands: Vec<Vec<CompilationUnit>> = Vec::new();
    let mut start: usize = 0;
    let mut k: usize = 0;
    while k < layered.ends.len()
        invariant
            views == unit_views(units@),
            is_layering(units@.len() as int, edges@, layered.order@, layered.ends@),
            k <= layered.ends.len(),
            start == layer_start(layered.ends@, k as int),
            bands.len() == k,
            forall|j: int|
                0 <= j < k ==> unit_views((#[trigger] bands[j])@) == Seq::new(
                    (layered.ends@[j] - layer_start(layered.ends@, j)) as nat,
                    |i: int| views[layered.order@[layer_start(layered.ends@, j) + i] as int],
                ),
        decreases layered.ends.len() - k,
    {
        let end: usize = layered.ends[k];
        assert(layer_start(layered.ends@, k as int) < layered.ends@[k as int]
            <= layered.order@.len());
        let mut band: Vec<CompilationUnit> = Vec::new();
        let mut i: usize = start;
        while i < end
            invariant
                views == unit_views(units@),
                selects(units@.len() as int, layered.order@),
                start <= i <= end <= layered.order.len(),
                band.len() == i - start,
                forall|j: int|
                    0 <= j < band.len() ==> (#[trigger] band[j])@ == views[layered.order@[start
                        + j] as int],
            decreases end - i,
        {
            assert(layered.order@[i as int] < units.len());
            band.push(units[layered.order[i]].clone());
            i = i + 1;
        }
        proof {
            let expected = Seq::new(
                (layered.ends@[k as int] - layer_start(layered.ends@, k as int)) as nat,
                |i: int| views[layered.order@[layer_start(layered.ends@, k as int) + i] as int],
            );
            assert(unit_views(band@) =~= expected);
        }
        bands.push(band);
        start = end;
        k = k + 1;
    }
    proof {
        assert(is_layering(
            views.len() as int,
            unit_edges(views, known_only, views.len() as int),
            layered.order@,
            layered.ends@,
        ));
        assert(is_cut_of(views, layered.order@, layered.ends@, band_views(bands@)));
    }
    bands
}

/// The results of units, by id, in the order of the ids. An id that comes again
/// has no second result.
pub open spec fn in_order<R>(ids: Seq<usize>, results: Map<usize, R>) -> Seq<(usize, R)>
    decreases ids.len(),
{
    if ids.len() == 0 {
        Seq::empty()
    } else if results.contains_key(ids[0]) {
        seq![(ids[0], results[ids[0]])] + in_order(ids.drop_first(), results.remove(ids[0]))
    } else {
        in_order(ids.drop_first(), results)
    }
}

/// The ids of a list of units.
pub open spec fn unit_ids(units: Seq<UnitView>) -> Seq<usize> {
    Seq::new(units.len(), |i: int| units[i].id)
}

/// The results of units, by id, in the order of the units.
pub fn results_in_order<R>(units: &[CompilationUnit], results: HashMap<usize, R>) -> (list: Vec<
    (usize, R),
>)
    ensures
        list@ == in_order(unit_ids(unit_views(units@)), results@),
{
    let ghost ids = unit_ids(unit_views(units@));
    let ghost all = results@;
    let mut results = results;
    let mut list: Vec<(usize, R)> = Vec::new();
    let mut i: usize = 0;
    assert(ids.skip(0) =~= ids);
    assert(list@ + in_order(ids.skip(0), results@) =~= in_order(ids, all));
    while i < units.len()
        invariant
            i <= units.len(),
            ids == unit_ids(unit_views(units@)),
            list@ + in_order(ids.skip(i as int), results@) == in_order(ids, all),
        decreases units.len() - i,
    {
        let ghost rest = ids.skip(i as int);
        let ghost so_far = list@;
        let id: usize = units[i].id;
        proof {
            assert(rest[0] == id);
            assert(rest.drop_first() =~= ids.skip(i + 1));
        }
        let ghost before = results@;
        match results.remove(&id) {
            Some(result) => {
                list.push((id, result));
                assert(list@ + in_order(ids.skip(i + 1), results@) =~= so_far + in_order(rest, before));
            },
            None => {
                assert(results@ =~= before);
            },
        }
        i = i + 1;
    }
    assert(ids.skip(i as int) =~= Seq::<usize>::empty());
    assert(list@ + Seq::<(usize, R)>::empty() =~= list@);
    list
}

/// `result` is what `work` gives for a unit of the list.
pub open spec fn is_result<R, F: Fn(&CompilationUnit) -> R>(
    work: F,
    units: Seq<UnitView>,
    id: usize,
    result: R,
) -> bool {
    exists|unit: CompilationUnit|
        unit.id == id && units.contains(unit@) && #[trigger] call_ensures(work, (&unit,), result)
}

/// Schedules compilation units in topological wavefront bands.
pub struct WavefrontScheduler {
    pub pool: WorkStealingPool,
}

impl WavefrontScheduler {
    /// Create a scheduler for the machine's parallelism, if that is known.
    pub fn new(available: Option<usize>) -> (scheduler: Self)
        ensures
            scheduler.pool.wf(),
            scheduler.pool.workers == match available {
                Some(threads) => clamped(threads),
                None => 1,
            },
            available is None ==> scheduler.pool.workers == 1,
            available matches Some(threads) && 1 <= threads <= 256 ==> scheduler.pool.workers
                == available->0,
    {
        WavefrontScheduler { pool: WorkStealingPool::default_threads(available) }
    }

    /// Create a scheduler with a specific number of worker threads.
    pub fn with_threads(threads: usize) -> (scheduler: Self)
        ensures
            scheduler.pool.wf(),
            scheduler.pool.workers == clamped(threads),
            1 <= threads <= 256 ==> scheduler.pool.workers == threads,
            threads == 0 ==> scheduler.pool.workers == 1,
            threads > 256 ==> scheduler.pool.workers == 256,
    {
        WavefrontScheduler { pool: WorkStealingPool::new(threads) }
    }

    /// Run `work` over the graph in wavefront bands, in the calling thread. The
    /// results are ordered by the graph's topological order.
    pub fn run<R, F: Fn(&CompilationUnit) -> R>(
        &self,
        graph: &StructuralCausalGraph,
        work: F,
    ) -> (results: Vec<(usize, R)>)
        requires
            graph.wf(),
            graph@.edges_start_inside(),
            forall|unit: &CompilationUnit| call_requires(work, (unit,)),
        ensures
            exists|units: Seq<UnitView>|
                is_unit_list(graph@, units) && #[trigger] is_run_of(work, units, results@),
    {
        let units = Self::units_from_graph(graph);
        let results = self.run_units(&units, work);
        assert(is_run_of(work, unit_views(units@), results@));
        results
    }

    /// Run `work` over a list of compilation units grouped into wavefront
    /// bands, in the calling thread, as `run_recorded` does. The results are
    /// ordered like the units.
    pub fn run_units<R, F: Fn(&CompilationUnit) -> R>(
        &self,
        units: &Vec<CompilationUnit>,
        work: F,
    ) -> (list: Vec<(usize, R)>)
        requires
            distinct_ids(unit_views(units@)),
            forall|unit: &CompilationUnit| call_requires(work, (unit,)),
        ensures
            is_run_of(work, unit_views(units@), list@),
    {
        let mut recorder = Recorder::new(work);
        let list = self.run_recorded(units, &mut recorder);
        proof {
            let (bands, found) = choose|bands: Seq<Seq<UnitView>>, found: Map<usize, R>|
                #[trigger] is_gathering(work, unit_views(units@), bands, found, list@)
                    && recorder.calls() == Seq::<UnitView>::empty() + flat(bands);
            assert(is_gathering(work, unit_views(units@), bands, found, list@));
        }
        list
    }

    /// Run work over a list of compilation units, band after band: it is called
    /// on each unit that stands in a band, and each call returns before the next
    /// one begins. The results are ordered like the units.
    pub fn run_recorded<R, F: Fn(&CompilationUnit) -> R>(
        &self,
        units: &Vec<CompilationUnit>,
        recorder: &mut Recorder<F>,
    ) -> (list: Vec<(usize, R)>)
        requires
            distinct_ids(unit_views(units@)),
            forall|unit: &CompilationUnit| call_requires(old(recorder).work(), (unit,)),
        ensures
            final(recorder).work() == old(recorder).work(),
            exists|bands: Seq<Seq<UnitView>>, found: Map<usize, R>|
                #[trigger] is_gathering(
                    old(recorder).work(),
                    unit_views(units@),
                    bands,
                    found,
                    list@,
                ) && final(recorder).calls() == old(recorder).calls() + flat(bands),
    {
        let ghost views = unit_views(units@);
        let ghost work = recorder.work();
        let ghost earlier = recorder.calls();
        let bands = Self::bands(units.as_slice());
        let ghost all = band_views(bands@);
        proof {
            assert(all.take(0) =~= Seq::<Seq<UnitView>>::empty());
            assert(earlier + flat(all.take(0)) =~= earlier);
        }
        let mut results: HashMap<usize, R> = HashMap::new();
        let mut k: usize = 0;
        while k < bands.len()
            invariant
                k <= bands.len(),
                views == unit_views(units@),
                is_banding(views, false, band_views(bands@)),
                all == band_views(bands@),
                recorder.work() == work,
                recorder.calls() == earlier + flat(all.take(k as int)),
                forall|unit: &CompilationUnit| call_requires(work, (unit,)),
                forall|id: usize| #[trigger]
                    results@.contains_key(id) <==> is_banded(band_views(bands@).take(k as int), id),
                forall|id: usize| #[trigger]
                    results@.contains_key(id) ==> is_result(work, views, id, results@[id]),
            decreases bands.len() - k,
        {
            let mut i: usize = 0;
            let ghost so_far = recorder.calls();
            assert(so_far + all[k as int].take(0) =~= so_far);
            while i < bands[k].len()
                invariant
                    k < bands.len(),
                    i <= bands[k as int].len(),
                    views == unit_views(units@),
                    is_banding(views, false, band_views(bands@)),
                    all == band_views(bands@),
                    recorder.work() == work,
                    recorder.calls() == so_far + all[k as int].take(i as int),
                    forall|unit: &CompilationUnit| call_requires(work, (unit,)),
                    forall|id: usize| #[trigger]
                        results@.contains_key(id) <==> is_banded(
                            band_views(bands@).take(k as int),
                            id,
                        ) || exists|j: int| 0 <= j < i && (#[trigger] bands[k as int][j]).id == id,
                    forall|id: usize| #[trigger]
                        results@.contains_key(id) ==> is_result(work, views, id, results@[id]),
                decreases bands[k as int].len() - i,
            {
                let result = recorder.call(&bands[k][i]);
                proof {
                    let unit = bands[k as int][i as int];
                    assert(all[k as int].take(i + 1) =~= all[k as int].take(i as int).push(unit@));
                    assert(recorder.calls() =~= so_far + all[k as int].take(i + 1));
                    law_bands_hold_units(views, false, band_views(bands@), k as int, i as int);
                    assert(band_views(bands@)[k as int][i as int] == unit@);
                    assert(call_ensures(work, (&unit,), result));
                    assert(is_result(work, views, unit.id, result));
                }
                results.insert(bands[k][i].id, result);
                i = i + 1;
            }
            proof {
                let fewer = band_views(bands@).take(k as int);
                let more = band_views(bands@).take(k + 1);
                assert(more.drop_last() =~= fewer);
                assert(all[k as int].take(i as int) =~= all[k as int]);
                assert(recorder.calls() =~= earlier + flat(more));
                assert forall|id: usize| #[trigger] results@.contains_key(id) <==> is_banded(
                    more,
                    id,
                ) by {
                    if is_banded(fewer, id) {
                        let (l, j) = choose|l: int, j: int|
                            0 <= l < fewer.len() && 0 <= j < fewer[l].len() && (
                            #[trigger] fewer[l][j]).id == id;
                        assert(more[l][j].id == id);
                    }
                    if exists|j: int|
                        0 <= j < i && (#[trigger] bands[k as int][j]).id == id {
                        let j = choose|j: int|
                            0 <= j < i && (#[trigger] bands[k as int][j]).id == id;
                        assert(more[k as int][j].id == id);
                    }
                    if is_banded(more, id) {
                        let (l, j) = choose|l: int, j: int|
                            0 <= l < more.len() && 0 <= j < more[l].len() && (
                            #[trigger] more[l][j]).id == id;
                        if l < k {
                            assert(fewer[l][j].id == id);
                        } else {
                            assert(bands[k as int][j].id == id);
                        }
                    }
                }
            }
            k = k + 1;
        }
        proof {
            assert(band_views(bands@).take(k as int) =~= band_views(bands@));
        }
        let ghost found = results@;
        let list = results_in_order(units.as_slice(), results);
        proof {
            assert(is_gathering(work, views, band_views(bands@), found, list@));
        }
        list
    }

    /// Convert a graph into a topologically-ordered list of compilation units,
    /// wiring dependency edges from the graph. A graph without a topological
    /// order yields no units.
    pub fn units_from_graph(graph: &StructuralCausalGraph) -> (units: Vec<CompilationUnit>)
        requires
            graph.wf(),
            graph@.edges_start_inside(),
        ensures
            is_unit_list(graph@, unit_views(units@)),
            distinct_ids(unit_views(units@)),
            units@.len() == 0 || units@.len() == graph@.nodes.len(),
            forall|u: int|
                0 <= u < units@.len() ==> {
                    let unit = (#[trigger] units@[u])@;
                    &&& unit.id < graph@.nodes.len()
                    &&& unit.name == graph@.nodes[unit.id as int].name
                    &&& unit.language == graph@.nodes[unit.id as int].language
                    &&& unit.dependencies == graph@.edges.filter(
                        |edge: SCMEdge| edge.from == unit.id,
                    ).map_values(|edge: SCMEdge| edge.to)
                },
    {
        let order = match graph.topological_order() {
            Some(order) => order,
            None => return Vec::new(),
        };
        let mut dependencies: Vec<Vec<usize>> = Vec::new();
        let mut i: usize = 0;
        while i < graph.nodes.len()
            invariant
                i <= graph.nodes.len(),
                dependencies.len() == i,
                forall|j: int| 0 <= j < i ==> (#[trigger] dependencies[j])@ == Seq::<usize>::empty(),
            decreases graph.nodes.len() - i,
        {
            dependencies.push(Vec::new());
            i = i + 1;
        }
        let mut e: usize = 0;
        while e < graph.edges.len()
            invariant
                e <= graph.edges.len(),
                graph@.edges_start_inside(),
                dependencies.len() == graph.nodes.len(),
                forall|j: int|
                    0 <= j < dependencies.len() ==> (#[trigger] dependencies[j])@ == dependencies_of(
                        graph@.edges.take(e as int),
                        j as usize,
                    ),
            decreases graph.edges.len() - e,
        {
            let edge = graph.edges[e];
            assert(graph@.edges.take(e + 1).drop_last() =~= graph@.edges.take(e as int));
            assert(graph@.edges[e as int].from < graph.nodes.len());
            dependencies[edge.from].push(edge.to);
            e = e + 1;
        }
        assert(graph@.edges.take(e as int) =~= graph@.edges);
        let mut units: Vec<CompilationUnit> = Vec::new();
        let mut k: usize = 0;
        while k < order.len()
            invariant
                k <= order.len(),
                graph.wf(),
                graph@.is_build_order(order@),
                dependencies.len() == graph.nodes.len(),
                forall|j: int|
                    0 <= j < dependencies.len() ==> (#[trigger] dependencies[j])@ == dependencies_of(
                        graph@.edges,
                        j as usize,
                    ),
                units.len() == k,
                forall|j: int|
                    0 <= j < k ==> (#[trigger] units[j])@ == unit_of(graph@, order[j] as int),
            decreases order.len() - k,
        {
            let id: usize = order[k];
            assert(order@[k as int] < graph@.nodes.len());
            let mut unit = CompilationUnit::from(&graph.nodes[id]);
            unit.dependencies = dependencies[id].clone();
            proof {
                assert(unit.dependencies@ =~= dependencies[id as int]@);
                assert(graph@.nodes[id as int].id == id);
            }
            units.push(unit);
            k = k + 1;
        }
        proof {
            let expected = Seq::new(order@.len(), |i: int| unit_of(graph@, order[i] as int));
            assert(unit_views(units@) =~= expected);
            assert forall|i: int, j: int| 0 <= i < j < expected.len() implies (
            #[trigger] expected[i]).id != (#[trigger] expected[j]).id by {
                assert(order@[i] != order@[j]);
                assert(graph@.nodes[order@[i] as int].id == order@[i]);
                assert(graph@.nodes[order@[j] as int].id == order@[j]);
            }
            assert forall|u: int| 0 <= u < units@.len() implies {
                let unit = (#[trigger] units@[u])@;
                &&& unit.id < graph@.nodes.len()
                &&& unit.name == graph@.nodes[unit.id as int].name
                &&& unit.language == graph@.nodes[unit.id as int].language
                &&& unit.dependencies == graph@.edges.filter(
                    |edge: SCMEdge| edge.from == unit.id,
                ).map_values(|edge: SCMEdge| edge.to)
            } by {
                assert(units@[u]@ == expected[u]);
                assert(order@[u] < graph@.nodes.len());
                assert(graph@.nodes[order@[u] as int].id == order@[u]);
                lemma_dependencies_filtered(graph@.edges, units@[u]@.id);
            }
        }
        units
    }

    /// Compute dependency-aware wavefront bands. Each band contains units whose
    /// dependencies all stand in earlier bands. A unit is left out if it waits
    /// for something that is not among the units, or for itself.
    pub fn bands(units: &[CompilationUnit]) -> (bands: Vec<Vec<CompilationUnit>>)
        requires
            distinct_ids(unit_views(units@)),
        ensures
            is_banding(unit_views(units@), false, band_views(bands@)),
    {
        banded(units, false)
    }
}

/// The units of bands, one band after the other.
pub open spec fn flat(bands: Seq<Seq<UnitView>>) -> Seq<UnitView>
    decreases bands.len(),
{
    if bands.len() == 0 {
        Seq::empty()
    } else {
        flat(bands.drop_last()) + bands.last()
    }
}

/// Where the units of band `k` begin.
pub open spec fn band_start(bands: Seq<Seq<UnitView>>, k: int) -> int {
    flat(bands.take(k)).len() as int
}

/// A unit of a band stands behind those of the bands before.
pub proof fn lemma_flat_unit(bands: Seq<Seq<UnitView>>, k: int, i: int)
    requires
        0 <= k < bands.len(),
        0 <= i < bands[k].len(),
    ensures
        0 <= band_start(bands, k) + i < flat(bands).len(),
        flat(bands)[band_start(bands, k) + i] == bands[k][i],
    decreases bands.len(),
{
    let fewer = bands.drop_last();
    if k < fewer.len() {
        lemma_flat_unit(fewer, k, i);
        assert(fewer.take(k) =~= bands.take(k));
    } else {
        assert(bands.take(k) =~= fewer);
    }
}

proof fn lemma_find_unit(bands: Seq<Seq<UnitView>>, p: int) -> (place: (int, int))
    requires
        0 <= p < flat(bands).len(),
    ensures
        0 <= place.0 < bands.len(),
        0 <= place.1 < bands[place.0].len(),
        p == band_start(bands, place.0) + place.1,
    decreases bands.len(),
{
    let fewer = bands.drop_last();
    let last = bands.len() - 1;
    assert(bands.take(last) =~= fewer);
    if p < flat(fewer).len() {
        let place = lemma_find_unit(fewer, p);
        assert(fewer.take(place.0) =~= bands.take(place.0));
        place
    } else {
        (last, p - flat(fewer).len())
    }
}

proof fn lemma_bands_in_order(bands: Seq<Seq<UnitView>>, l: int, k: int)
    requires
        0 <= l < k < bands.len(),
    ensures
        band_start(bands, l) + bands[l].len() <= band_start(bands, k),
    decreases k,
{
    let before = bands.take(k);
    assert(before.drop_last() =~= bands.take(k - 1));
    if l < k - 1 {
        lemma_bands_in_order(bands, l, k - 1);
    }
}

/// `list` holds the results in `found`, which are those of the units in the
/// bands.
pub open spec fn is_gathering<R, F: Fn(&CompilationUnit) -> R>(
    work: F,
    units: Seq<UnitView>,
    bands: Seq<Seq<UnitView>>,
    found: Map<usize, R>,
    list: Seq<(usize, R)>,
) -> bool {
    &&& is_banding(units, false, bands)
    &&& list == in_order(unit_ids(units), found)
    &&& forall|id: usize| #[trigger] found.contains_key(id) <==> is_banded(bands, id)
    &&& forall|id: usize| #[trigger]
        found.contains_key(id) ==> is_result(work, units, id, found[id])
}

/// `list` holds a result of `work` for each unit that stands in a band, in the
/// order of the units.
pub open spec fn is_run_of<R, F: Fn(&CompilationUnit) -> R>(
    work: F,
    units: Seq<UnitView>,
    list: Seq<(usize, R)>,
) -> bool {
    exists|bands: Seq<Seq<UnitView>>, found: Map<usize, R>|
        is_gathering(work, units, bands, found, list)
}

proof fn lemma_row_holds(units: Seq<UnitView>, known_only: bool, i: int, n: int, j: int)
    requires
        0 <= j < n <= units[i].dependencies.len(),
        known_only ==> is_known(units, units[i].dependencies[j]),
    ensures
        unit_row(units, known_only, i, n).contains(
            (i as usize, place_of(units, units[i].dependencies[j]) as usize),
        ),
    decreases n,
{
    let edge = (i as usize, place_of(units, units[i].dependencies[j]) as usize);
    let row = unit_row(units, known_only, i, n);
    if j == n - 1 {
        assert(row[row.len() - 1] == edge);
    } else {
        lemma_row_holds(units, known_only, i, n - 1, j);
        let before = unit_row(units, known_only, i, n - 1);
        let e = choose|e: int| 0 <= e < before.len() && before[e] == edge;
        assert(row[e] == edge);
    }
}

proof fn lemma_row_only(units: Seq<UnitView>, known_only: bool, i: int, n: int, e: int) -> (j: int)
    requires
        0 <= n <= units[i].dependencies.len(),
        0 <= e < unit_row(units, known_only, i, n).len(),
    ensures
        0 <= j < n,
        known_only ==> is_known(units, units[i].dependencies[j]),
        unit_row(units, known_only, i, n)[e] == (
            i as usize,
            place_of(units, units[i].dependencies[j]) as usize,
        ),
    decreases n,
{
    let before = unit_row(units, known_only, i, n - 1);
    if e < before.len() {
        lemma_row_only(units, known_only, i, n - 1, e)
    } else {
        n - 1
    }
}

/// Every dependency that counts is an edge.
proof fn lemma_edges_hold(units: Seq<UnitView>, known_only: bool, n: int, i: int, j: int)
    requires
        0 <= i < n <= units.len(),
        0 <= j < units[i].dependencies.len(),
        known_only ==> is_known(units, units[i].dependencies[j]),
    ensures
        unit_edges(units, known_only, n).contains(
            (i as usize, place_of(units, units[i].dependencies[j]) as usize),
        ),
    decreases n,
{
    let edge = (i as usize, place_of(units, units[i].dependencies[j]) as usize);
    let edges = unit_edges(units, known_only, n);
    let before = unit_edges(units, known_only, n - 1);
    let row = unit_row(units, known_only, n - 1, units[n - 1].dependencies.len() as int);
    if i == n - 1 {
        lemma_row_holds(units, known_only, i, units[i].dependencies.len() as int, j);
        let e = choose|e: int| 0 <= e < row.len() && row[e] == edge;
        assert(edges[before.len() + e] == edge);
    } else {
        lemma_edges_hold(units, known_only, n - 1, i, j);
        let e = choose|e: int| 0 <= e < before.len() && before[e] == edge;
        assert(edges[e] == edge);
    }
}

/// Every edge is a dependency that counts.
proof fn lemma_edges_only(units: Seq<UnitView>, known_only: bool, n: int, e: int) -> (found: (
    int,
    int,
))
    requires
        0 <= n <= units.len(),
        0 <= e < unit_edges(units, known_only, n).len(),
    ensures
        0 <= found.0 < n,
        0 <= found.1 < units[found.0].dependencies.len(),
        known_only ==> is_known(units, units[found.0].dependencies[found.1]),
        unit_edges(units, known_only, n)[e] == (
            found.0 as usize,
            place_of(units, units[found.0].dependencies[found.1]) as usize,
        ),
    decreases n,
{
    let before = unit_edges(units, known_only, n - 1);
    if e < before.len() {
        lemma_edges_only(units, known_only, n - 1, e)
    } else {
        let j = lemma_row_only(
            units,
            known_only,
            n - 1,
            units[n - 1].dependencies.len() as int,
            e - before.len(),
        );
        (n - 1, j)
    }
}

/// Every place before layer `k` lies in one of the layers before it.
proof fn lemma_layer_of(ends: Seq<usize>, k: int, p: int) -> (layer: int)
    requires
        0 <= k <= ends.len(),
        0 <= p < layer_start(ends, k),
    ensures
        0 <= layer < k,
        layer_start(ends, layer) <= p < ends[layer],
    decreases k,
{
    if p < layer_start(ends, k - 1) {
        lemma_layer_of(ends, k - 1, p)
    } else {
        k - 1
    }
}

/// The place in the order of the unit at `i` in band `k`.
proof fn lemma_band_place(
    units: Seq<UnitView>,
    edges: Seq<(usize, usize)>,
    order: Seq<usize>,
    ends: Seq<usize>,
    bands: Seq<Seq<UnitView>>,
    k: int,
    i: int,
)
    requires
        is_layering(units.len() as int, edges, order, ends),
        is_cut_of(units, order, ends, bands),
        0 <= k < bands.len(),
        0 <= i < bands[k].len(),
    ensures
        0 <= layer_start(ends, k) <= layer_start(ends, k) + i < ends[k] <= order.len(),
        order[layer_start(ends, k) + i] < units.len(),
        bands[k][i] == units[order[layer_start(ends, k) + i] as int],
{
    assert(layer_start(ends, k) < ends[k] <= order.len());
}

/// A unit in the order stands in a band.
proof fn lemma_order_in_bands(
    units: Seq<UnitView>,
    edges: Seq<(usize, usize)>,
    order: Seq<usize>,
    ends: Seq<usize>,
    bands: Seq<Seq<UnitView>>,
    p: int,
) -> (at: (int, int))
    requires
        is_layering(units.len() as int, edges, order, ends),
        is_cut_of(units, order, ends, bands),
        0 <= p < order.len(),
    ensures
        0 <= at.0 < bands.len(),
        0 <= at.1 < bands[at.0].len(),
        layer_start(ends, at.0) + at.1 == p,
        bands[at.0][at.1] == units[order[p] as int],
{
    assert(layer_start(ends, ends.len() as int) == order.len());
    let layer = lemma_layer_of(ends, ends.len() as int, p);
    (layer, p - layer_start(ends, layer))
}

/// Some band holds the unit with this id.
pub open spec fn is_banded(bands: Seq<Seq<UnitView>>, id: usize) -> bool {
    exists|k: int, i: int|
        0 <= k < bands.len() && 0 <= i < bands[k].len() && (#[trigger] bands[k][i]).id == id
}

/// `dependency` is one of the dependencies that the bands heed.
pub open spec fn is_heeded(units: Seq<UnitView>, known_only: bool, dependency: usize) -> bool {
    known_only ==> is_known(units, dependency)
}

/// The units of the bands are units of the list.
pub proof fn law_bands_hold_units(
    units: Seq<UnitView>,
    known_only: bool,
    bands: Seq<Seq<UnitView>>,
    k: int,
    i: int,
)
    requires
        is_banding(units, known_only, bands),
        0 <= k < bands.len(),
        0 <= i < bands[k].len(),
    ensures
        units.contains(bands[k][i]),
{
    let edges = unit_edges(units, known_only, units.len() as int);
    let (order, ends) = choose|order: Seq<usize>, ends: Seq<usize>|
        {
            &&& #[trigger] is_layering(units.len() as int, edges, order, ends)
            &&& is_cut_of(units, order, ends, bands)
        };
    lemma_band_place(units, edges, order, ends, bands, k, i);
}

/// No unit appears in two bands, or twice in one, and no band is empty.
pub proof fn law_bands_hold_each_unit_once(
    units: Seq<UnitView>,
    known_only: bool,
    bands: Seq<Seq<UnitView>>,
    k: int,
    i: int,
    l: int,
    j: int,
)
    requires
        distinct_ids(units),
        is_banding(units, known_only, bands),
        0 <= k < bands.len(),
        0 <= l < bands.len(),
        0 <= i < bands[k].len(),
        0 <= j < bands[l].len(),
        bands[k][i].id == bands[l][j].id,
    ensures
        k == l,
        i == j,
{
    let edges = unit_edges(units, known_only, units.len() as int);
    let (order, ends) = choose|order: Seq<usize>, ends: Seq<usize>|
        {
            &&& #[trigger] is_layering(units.len() as int, edges, order, ends)
            &&& is_cut_of(units, order, ends, bands)
        };
    lemma_band_place(units, edges, order, ends, bands, k, i);
    lemma_band_place(units, edges, order, ends, bands, l, j);
    let p = layer_start(ends, k) + i;
    let q = layer_start(ends, l) + j;
    assert(order[p] == order[q]);
    assert(p == q);
    lemma_layers_disjoint(units.len() as int, edges, order, ends, k, l);
    lemma_layers_disjoint(units.len() as int, edges, order, ends, l, k);
}

proof fn lemma_layers_disjoint(
    count: int,
    edges: Seq<(usize, usize)>,
    order: Seq<usize>,
    ends: Seq<usize>,
    k: int,
    l: int,
)
    requires
        is_layering(count, edges, order, ends),
        0 <= k < ends.len(),
        0 <= l < ends.len(),
    ensures
        k < l ==> ends[k] <= layer_start(ends, l),
    decreases l,
{
    if k < l - 1 {
        lemma_layers_disjoint(count, edges, order, ends, k, l - 1);
        assert(layer_start(ends, l - 1) < ends[l - 1]);
    }
}

/// Every dependency of a unit that counts stands in an earlier band.
pub proof fn law_dependencies_in_earlier_bands(
    units: Seq<UnitView>,
    known_only: bool,
    bands: Seq<Seq<UnitView>>,
    k: int,
    i: int,
    j: int,
)
    requires
        units.len() <= usize::MAX,
        is_banding(units, known_only, bands),
        0 <= k < bands.len(),
        0 <= i < bands[k].len(),
        0 <= j < bands[k][i].dependencies.len(),
        is_heeded(units, known_only, bands[k][i].dependencies[j]),
    ensures
        exists|l: int, m: int|
            0 <= l < k && 0 <= m < bands[l].len() && (#[trigger] bands[l][m]).id
                == bands[k][i].dependencies[j],
{
    let count = units.len() as int;
    let edges = unit_edges(units, known_only, count);
    let (order, ends) = choose|order: Seq<usize>, ends: Seq<usize>|
        {
            &&& #[trigger] is_layering(count, edges, order, ends)
            &&& is_cut_of(units, order, ends, bands)
        };
    lemma_band_place(units, edges, order, ends, bands, k, i);
    let place = layer_start(ends, k) + i;
    let unit = order[place] as int;
    let dependency = units[unit].dependencies[j];
    lemma_edges_hold(units, known_only, count, unit, j);
    let e = choose|e: int|
        0 <= e < edges.len() && edges[e] == (
            unit as usize,
            place_of(units, dependency) as usize,
        );
    law_requirements_in_earlier_layers(count, edges, order, ends, k, place, e);
    let p = choose|p: int| 0 <= p < layer_start(ends, k) && #[trigger] order[p] == edges[e].1;
    assert(order[p] < count);
    assert(is_known(units, dependency));
    assert(is_at(units, place_of(units, dependency), dependency));
    let layer = lemma_layer_of(ends, k, p);
    assert(bands[layer][p - layer_start(ends, layer)] == units[order[p] as int]);
    assert(bands[layer][p - layer_start(ends, layer)].id == dependency);
}

/// The first band holds the units without dependencies that count; a unit of a
/// later band has a dependency in the band just before, so it could not have
/// been scheduled any sooner.
pub proof fn law_bands_are_tight(
    units: Seq<UnitView>,
    known_only: bool,
    bands: Seq<Seq<UnitView>>,
    k: int,
    i: int,
)
    requires
        units.len() <= usize::MAX,
        is_banding(units, known_only, bands),
        0 <= k < bands.len(),
        0 <= i < bands[k].len(),
    ensures
        k == 0 <==> forall|j: int|
            0 <= j < bands[k][i].dependencies.len() ==> !is_heeded(
                units,
                known_only,
                #[trigger] bands[k][i].dependencies[j],
            ),
        k > 0 ==> exists|j: int, m: int|
            0 <= j < bands[k][i].dependencies.len() && 0 <= m < bands[k - 1].len()
                && #[trigger] bands[k][i].dependencies[j] == (#[trigger] bands[k - 1][m]).id,
{
    let count = units.len() as int;
    let edges = unit_edges(units, known_only, count);
    let (order, ends) = choose|order: Seq<usize>, ends: Seq<usize>|
        {
            &&& #[trigger] is_layering(count, edges, order, ends)
            &&& is_cut_of(units, order, ends, bands)
        };
    lemma_band_place(units, edges, order, ends, bands, k, i);
    let place = layer_start(ends, k) + i;
    let unit = order[place] as int;
    law_layers_are_tight(count, edges, order, ends, k, place);
    if k == 0 {
        assert forall|j: int| 0 <= j < bands[k][i].dependencies.len() implies !is_heeded(
            units,
            known_only,
            #[trigger] bands[k][i].dependencies[j],
        ) by {
            if is_heeded(units, known_only, bands[k][i].dependencies[j]) {
                lemma_edges_hold(units, known_only, count, unit, j);
                let e = choose|e: int|
                    0 <= e < edges.len() && edges[e] == (
                        unit as usize,
                        place_of(units, units[unit].dependencies[j]) as usize,
                    );
                assert(edges[e].0 == order[place]);
            }
        }
    } else {
        let (e, p) = choose|e: int, p: int|
            0 <= e < edges.len() && (#[trigger] edges[e]).0 == order[place] && layer_start(
                ends,
                k - 1,
            ) <= p < layer_start(ends, k) && #[trigger] order[p] == edges[e].1;
        let (u, j) = lemma_edges_only(units, known_only, count, e);
        assert(u == unit);
        let dependency = units[unit].dependencies[j];
        assert(order[p] < count);
        assert(is_at(units, place_of(units, dependency), dependency));
        assert(bands[k - 1][p - layer_start(ends, k - 1)] == units[order[p] as int]);
        assert(bands[k][i].dependencies[j] == bands[k - 1][p - layer_start(ends, k - 1)].id);
    }
}

/// A unit is left out exactly if it waits for something that is left out, or
/// that is not a unit at all.
pub proof fn law_left_out_units_wait(
    units: Seq<UnitView>,
    known_only: bool,
    bands: Seq<Seq<UnitView>>,
    u: int,
)
    requires
        units.len() <= usize::MAX,
        distinct_ids(units),
        is_banding(units, known_only, bands),
        0 <= u < units.len(),
    ensures
        !is_banded(bands, units[u].id) <==> exists|j: int|
            0 <= j < units[u].dependencies.len() && is_heeded(
                units,
                known_only,
                #[trigger] units[u].dependencies[j],
            ) && !is_banded(bands, units[u].dependencies[j]),
{
    let count = units.len() as int;
    let edges = unit_edges(units, known_only, count);
    let (order, ends) = choose|order: Seq<usize>, ends: Seq<usize>|
        {
            &&& #[trigger] is_layering(count, edges, order, ends)
            &&& is_cut_of(units, order, ends, bands)
        };
    if !is_banded(bands, units[u].id) {
        if order.contains(u as usize) {
            let p = choose|p: int| 0 <= p < order.len() && order[p] == u as usize;
            let at = lemma_order_in_bands(units, edges, order, ends, bands, p);
            assert(bands[at.0][at.1].id == units[u].id);
        }
        let e = choose|e: int|
            0 <= e < edges.len() && (#[trigger] edges[e]).0 == u as usize && !order.contains(
                edges[e].1,
            );
        let (v, j) = lemma_edges_only(units, known_only, count, e);
        assert(v == u);
        let dependency = units[u].dependencies[j];
        if is_banded(bands, dependency) {
            let (k, i) = choose|k: int, i: int|
                0 <= k < bands.len() && 0 <= i < bands[k].len() && (#[trigger] bands[k][i]).id
                    == dependency;
            lemma_band_place(units, edges, order, ends, bands, k, i);
            let w = order[layer_start(ends, k) + i] as int;
            assert(is_at(units, w, dependency));
            assert(is_at(units, place_of(units, dependency), dependency));
            assert(order.contains(edges[e].1));
        }
    } else {
        let (k, i) = choose|k: int, i: int|
            0 <= k < bands.len() && 0 <= i < bands[k].len() && (#[trigger] bands[k][i]).id
                == units[u].id;
        law_bands_hold_units(units, known_only, bands, k, i);
        assert(bands[k][i] == units[u]);
        assert forall|j: int|
            0 <= j < units[u].dependencies.len() && is_heeded(
                units,
                known_only,
                #[trigger] units[u].dependencies[j],
            ) implies is_banded(bands, units[u].dependencies[j]) by {
            law_dependencies_in_earlier_bands(units, known_only, bands, k, i, j);
        }
    }
}

/// The units are listed in build order: whatever a unit depends on stands
/// before it.
pub open spec fn in_build_order(units: Seq<UnitView>) -> bool {
    forall|i: int, j: int|
        0 <= i < units.len() && 0 <= j < units[i].dependencies.len() ==> is_known(
            units.take(i),
            #[trigger] units[i].dependencies[j],
        )
}

/// Units listed in build order are all scheduled.
pub proof fn law_ordered_units_are_all_banded(
    units: Seq<UnitView>,
    known_only: bool,
    bands: Seq<Seq<UnitView>>,
    u: int,
)
    requires
        units.len() <= usize::MAX,
        distinct_ids(units),
        in_build_order(units),
        is_banding(units, known_only, bands),
        0 <= u < units.len(),
    ensures
        is_banded(bands, units[u].id),
    decreases u,
{
    law_left_out_units_wait(units, known_only, bands, u);
    assert forall|j: int| 0 <= j < units[u].dependencies.len() implies is_banded(
        bands,
        #[trigger] units[u].dependencies[j],
    ) by {
        let dependency = units[u].dependencies[j];
        let v = choose|v: int| is_at(units.take(u), v, dependency);
        assert(units.take(u)[v] == units[v]);
        law_ordered_units_are_all_banded(units, known_only, bands, v);
    }
}

/// Every unit comes after those of its dependencies that are units of the list.
pub open spec fn in_known_order(units: Seq<UnitView>) -> bool {
    forall|i: int, j: int|
        0 <= i < units.len() && 0 <= j < units[i].dependencies.len() && is_known(
            units,
            #[trigger] units[i].dependencies[j],
        ) ==> is_known(units.take(i), units[i].dependencies[j])
}

/// Where dependencies that are not units of the list do not count, it is enough
/// for the others to come first.
pub proof fn law_known_ordered_units_are_all_banded(
    units: Seq<UnitView>,
    bands: Seq<Seq<UnitView>>,
    u: int,
)
    requires
        units.len() <= usize::MAX,
        distinct_ids(units),
        in_known_order(units),
        is_banding(units, true, bands),
        0 <= u < units.len(),
    ensures
        is_banded(bands, units[u].id),
    decreases u,
{
    law_left_out_units_wait(units, true, bands, u);
    assert forall|j: int|
        0 <= j < units[u].dependencies.len() && is_heeded(
            units,
            true,
            #[trigger] units[u].dependencies[j],
        ) implies is_banded(bands, units[u].dependencies[j]) by {
        let dependency = units[u].dependencies[j];
        let v = choose|v: int| is_at(units.take(u), v, dependency);
        assert(units.take(u)[v] == units[v]);
        law_known_ordered_units_are_all_banded(units, bands, v);
    }
}

/// The list of a graph's units is in build order, under distinct ids.
pub proof fn law_unit_list_in_build_order(graph: GraphView, units: Seq<UnitView>)
    requires
        graph.wf(),
        is_unit_list(graph, units),
    ensures
        distinct_ids(units),
        in_build_order(units),
        units.len() <= graph.nodes.len(),
{
    if exists|order: Seq<usize>| graph.is_build_order(order) {
        let (order, ends) = choose|order: Seq<usize>, ends: Seq<usize>|
            {
                &&& #[trigger] is_layering(
                    graph.nodes.len() as int,
                    edge_pairs(graph.edges),
                    order,
                    ends,
                )
                &&& graph.is_build_order(order)
                &&& units == Seq::new(order.len(), |i: int| unit_of(graph, order[i] as int))
            };
        law_graph_units_in_build_order(graph, order);
    }
}

proof fn lemma_all_in_order<R>(ids: Seq<usize>, results: Map<usize, R>)
    requires
        forall|i: int, j: int| 0 <= i < j < ids.len() ==> #[trigger] ids[i] != #[trigger] ids[j],
        forall|i: int| 0 <= i < ids.len() ==> results.contains_key(#[trigger] ids[i]),
    ensures
        in_order(ids, results).len() == ids.len(),
        forall|i: int|
            0 <= i < ids.len() ==> #[trigger] in_order(ids, results)[i] == (
                ids[i],
                results[ids[i]],
            ),
    decreases ids.len(),
{
    if ids.len() > 0 {
        let rest = ids.drop_first();
        let others = results.remove(ids[0]);
        assert forall|i: int| 0 <= i < rest.len() implies others.contains_key(#[trigger] rest[i]) by {
            assert(rest[i] == ids[i + 1]);
            assert(ids[0] != ids[i + 1]);
        }
        lemma_all_in_order(rest, others);
        assert forall|i: int| 0 <= i < ids.len() implies #[trigger] in_order(ids, results)[i] == (
            ids[i],
            results[ids[i]],
        ) by {
            if i > 0 {
                assert(in_order(rest, others)[i - 1] == (rest[i - 1], others[rest[i - 1]]));
                assert(rest[i - 1] == ids[i]);
            }
        }
    }
}

/// A run over units in build order has a result for every unit, in their order.
pub proof fn law_run_covers_ordered_units<R, F: Fn(&CompilationUnit) -> R>(
    work: F,
    units: Seq<UnitView>,
    list: Seq<(usize, R)>,
)
    requires
        units.len() <= usize::MAX,
        distinct_ids(units),
        in_build_order(units),
        is_run_of(work, units, list),
    ensures
        list.len() == units.len(),
        forall|i: int|
            0 <= i < units.len() ==> (#[trigger] list[i]).0 == units[i].id && is_result(
                work,
                units,
                units[i].id,
                list[i].1,
            ),
{
    let (bands, found) = choose|bands: Seq<Seq<UnitView>>, found: Map<usize, R>|
        is_gathering(work, units, bands, found, list);
    let ids = unit_ids(units);
    assert forall|i: int| 0 <= i < ids.len() implies found.contains_key(#[trigger] ids[i]) by {
        law_ordered_units_are_all_banded(units, false, bands, i);
    }
    assert forall|i: int, j: int| 0 <= i < j < ids.len() implies #[trigger] ids[i]
        != #[trigger] ids[j] by {
        assert(units[i].id != units[j].id);
    }
    lemma_all_in_order(ids, found);
    assert forall|i: int| 0 <= i < units.len() implies (#[trigger] list[i]).0 == units[i].id
        && is_result(work, units, units[i].id, list[i].1) by {
        assert(in_order(ids, found)[i] == (ids[i], found[ids[i]]));
        assert(found.contains_key(ids[i]));
    }
}

/// A unit comes after those of its dependencies that count, in the order of the
/// bands.
pub proof fn law_dependencies_come_first(
    units: Seq<UnitView>,
    known_only: bool,
    bands: Seq<Seq<UnitView>>,
    p: int,
    j: int,
)
    requires
        units.len() <= usize::MAX,
        is_banding(units, known_only, bands),
        0 <= p < flat(bands).len(),
        0 <= j < flat(bands)[p].dependencies.len(),
        is_heeded(units, known_only, flat(bands)[p].dependencies[j]),
    ensures
        exists|q: int|
            0 <= q < p && (#[trigger] flat(bands)[q]).id == flat(bands)[p].dependencies[j],
{
    let (k, i) = lemma_find_unit(bands, p);
    lemma_flat_unit(bands, k, i);
    law_dependencies_in_earlier_bands(units, known_only, bands, k, i, j);
    let (l, m) = choose|l: int, m: int|
        0 <= l < k && 0 <= m < bands[l].len() && (#[trigger] bands[l][m]).id
            == bands[k][i].dependencies[j];
    lemma_flat_unit(bands, l, m);
    lemma_bands_in_order(bands, l, k);
    let q = band_start(bands, l) + m;
    assert(flat(bands)[q].id == flat(bands)[p].dependencies[j]);
}

/// The dependencies of the units form no cycle, and are all units of the list:
/// each has a lower rank than what depends on it.
pub open spec fn are_ranked(units: Seq<UnitView>, rank: spec_fn(usize) -> nat) -> bool {
    forall|i: int, j: int|
        0 <= i < units.len() && 0 <= j < units[i].dependencies.len() ==> is_known(
            units,
            #[trigger] units[i].dependencies[j],
        ) && rank(units[i].dependencies[j]) < rank(units[i].id)
}

/// Units whose dependencies form no cycle are all scheduled.
pub proof fn law_acyclic_units_are_all_banded(
    units: Seq<UnitView>,
    known_only: bool,
    bands: Seq<Seq<UnitView>>,
    rank: spec_fn(usize) -> nat,
    u: int,
)
    requires
        units.len() <= usize::MAX,
        distinct_ids(units),
        are_ranked(units, rank),
        is_banding(units, known_only, bands),
        0 <= u < units.len(),
    ensures
        is_banded(bands, units[u].id),
    decreases rank(units[u].id),
{
    law_left_out_units_wait(units, known_only, bands, u);
    assert forall|j: int| 0 <= j < units[u].dependencies.len() implies is_banded(
        bands,
        #[trigger] units[u].dependencies[j],
    ) by {
        let dependency = units[u].dependencies[j];
        let v = choose|v: int| is_at(units, v, dependency);
        law_acyclic_units_are_all_banded(units, known_only, bands, rank, v);
    }
}

/// Over units whose dependencies form no cycle, a run calls the work on every
/// unit, on none twice and on nothing else, and on each only when the calls for
/// its dependencies have returned.
pub proof fn law_calls_follow_dependencies(
    units: Seq<UnitView>,
    bands: Seq<Seq<UnitView>>,
    rank: spec_fn(usize) -> nat,
)
    requires
        units.len() <= usize::MAX,
        distinct_ids(units),
        are_ranked(units, rank),
        is_banding(units, false, bands),
    ensures
        forall|p: int| 0 <= p < flat(bands).len() ==> units.contains(#[trigger] flat(bands)[p]),
        forall|u: int| 0 <= u < units.len() ==> flat(bands).contains(#[trigger] units[u]),
        forall|p: int, q: int|
            0 <= p < q < flat(bands).len() ==> (#[trigger] flat(bands)[p]).id != (
            #[trigger] flat(bands)[q]).id,
        forall|p: int, j: int|
            0 <= p < flat(bands).len() && 0 <= j < flat(bands)[p].dependencies.len()
                ==> comes_before(flat(bands), p, #[trigger] flat(bands)[p].dependencies[j]),
{
    let calls = flat(bands);
    assert forall|p: int| 0 <= p < calls.len() implies units.contains(#[trigger] calls[p]) by {
        let (k, i) = lemma_find_unit(bands, p);
        lemma_flat_unit(bands, k, i);
        law_bands_hold_units(units, false, bands, k, i);
    }
    assert forall|u: int| 0 <= u < units.len() implies calls.contains(#[trigger] units[u]) by {
        law_acyclic_units_are_all_banded(units, false, bands, rank, u);
        let (k, i) = choose|k: int, i: int|
            0 <= k < bands.len() && 0 <= i < bands[k].len() && (#[trigger] bands[k][i]).id
                == units[u].id;
        lemma_flat_unit(bands, k, i);
        law_bands_hold_units(units, false, bands, k, i);
        let v = choose|v: int| 0 <= v < units.len() && units[v] == bands[k][i];
        if u < v {
            assert(units[u].id != units[v].id);
        }
        if v < u {
            assert(units[v].id != units[u].id);
        }
        assert(calls[band_start(bands, k) + i] == units[u]);
    }
    assert forall|p: int, q: int| 0 <= p < q < calls.len() implies (#[trigger] calls[p]).id != (
    #[trigger] calls[q]).id by {
        let (k, i) = lemma_find_unit(bands, p);
        let (l, j) = lemma_find_unit(bands, q);
        lemma_flat_unit(bands, k, i);
        lemma_flat_unit(bands, l, j);
        if calls[p].id == calls[q].id {
            law_bands_hold_each_unit_once(units, false, bands, k, i, l, j);
        }
    }
    assert forall|p: int, j: int|
        0 <= p < calls.len() && 0 <= j < calls[p].dependencies.len() implies comes_before(
        calls,
        p,
        #[trigger] calls[p].dependencies[j],
    ) by {
        law_dependencies_come_first(units, false, bands, p, j);
    }
}

/// A unit with this id comes before place `p`.
pub open spec fn comes_before(units: Seq<UnitView>, p: int, id: usize) -> bool {
    exists|q: int| 0 <= q < p && (#[trigger] units[q]).id == id
}

proof fn lemma_dependencies_filtered(edges: Seq<SCMEdge>, id: usize)
    ensures
        dependencies_of(edges, id) == edges.filter(|edge: SCMEdge| edge.from == id).map_values(
            |edge: SCMEdge| edge.to,
        ),
    decreases edges.len(),
{
    reveal(Seq::filter);
    let from = |edge: SCMEdge| edge.from == id;
    let to = |edge: SCMEdge| edge.to;
    if edges.len() == 0 {
        assert(edges.filter(from).map_values(to) =~= dependencies_of(edges, id));
    } else {
        lemma_dependencies_filtered(edges.drop_last(), id);
        let before = edges.drop_last().filter(from);
        if edges.last().from == id {
            assert(edges.filter(from) == before.push(edges.last()));
            assert(edges.filter(from).map_values(to) =~= before.map_values(to).push(edges.last().to));
        } else {
            assert(edges.filter(from) == before);
        }
    }
}

/// A unit of a graph stands for the node of its id. What it depends on are the
/// ends of the edges that start at the node, whatever kind they are of, each as
/// often as there is an edge and in the order of the edges.
pub proof fn law_unit_dependencies_are_edges(graph: GraphView, units: Seq<UnitView>, u: int)
    requires
        graph.wf(),
        is_unit_list(graph, units),
        0 <= u < units.len(),
    ensures
        units[u].id < graph.nodes.len(),
        units[u].name == graph.nodes[units[u].id as int].name,
        units[u].language == graph.nodes[units[u].id as int].language,
        units[u].dependencies == graph.edges.filter(
            |edge: SCMEdge| edge.from == units[u].id,
        ).map_values(|edge: SCMEdge| edge.to),
        forall|e: int|
            0 <= e < graph.edges.len() && (#[trigger] graph.edges[e]).from == units[u].id
                ==> units[u].dependencies.contains(graph.edges[e].to),
        forall|j: int|
            0 <= j < units[u].dependencies.len() ==> starts_edge_to(
                graph.edges,
                units[u].id,
                #[trigger] units[u].dependencies[j],
            ),
{
    let (order, ends) = choose|order: Seq<usize>, ends: Seq<usize>|
        {
            &&& #[trigger] is_layering(
                graph.nodes.len() as int,
                edge_pairs(graph.edges),
                order,
                ends,
            )
            &&& graph.is_build_order(order)
            &&& units == Seq::new(order.len(), |i: int| unit_of(graph, order[i] as int))
        };
    let id = units[u].id;
    let dependencies = units[u].dependencies;
    assert(order[u] < graph.nodes.len());
    assert(graph.nodes[order[u] as int].id == order[u]);
    lemma_dependencies_filtered(graph.edges, id);
    assert forall|e: int| 0 <= e < graph.edges.len() && (#[trigger] graph.edges[e]).from
        == id implies dependencies.contains(graph.edges[e].to) by {
        lemma_edge_listed(graph.edges, id, e);
    }
    assert forall|j: int| 0 <= j < dependencies.len() implies starts_edge_to(
        graph.edges,
        id,
        #[trigger] dependencies[j],
    ) by {
        let e = lemma_dependency_edge(graph.edges, id, j);
        assert(graph.edges[e].from == id && graph.edges[e].to == dependencies[j]);
    }
}

/// Some edge leads from one node to the other.
pub open spec fn starts_edge_to(edges: Seq<SCMEdge>, from: usize, to: usize) -> bool {
    exists|e: int| 0 <= e < edges.len() && (#[trigger] edges[e]).from == from && edges[e].to == to
}

proof fn lemma_edge_listed(edges: Seq<SCMEdge>, id: usize, e: int)
    requires
        0 <= e < edges.len(),
        edges[e].from == id,
    ensures
        dependencies_of(edges, id).contains(edges[e].to),
    decreases edges.len(),
{
    let before = dependencies_of(edges.drop_last(), id);
    let after = dependencies_of(edges, id);
    if e == edges.len() - 1 {
        assert(after[after.len() - 1] == edges[e].to);
    } else {
        lemma_edge_listed(edges.drop_last(), id, e);
        let k = choose|k: int| 0 <= k < before.len() && before[k] == edges[e].to;
        assert(after[k] == edges[e].to);
    }
}

/// Whatever kind an edge of a graph is of, the node at which it ends stands in
/// an earlier band than the one at which it starts.
pub proof fn law_every_edge_is_heeded(
    graph: GraphView,
    units: Seq<UnitView>,
    bands: Seq<Seq<UnitView>>,
    e: int,
    k: int,
    i: int,
)
    requires
        graph.wf(),
        graph.nodes.len() <= usize::MAX,
        is_unit_list(graph, units),
        is_banding(units, false, bands),
        0 <= e < graph.edges.len(),
        0 <= k < bands.len(),
        0 <= i < bands[k].len(),
        bands[k][i].id == graph.edges[e].from,
    ensures
        exists|l: int, m: int|
            0 <= l < k && 0 <= m < bands[l].len() && (#[trigger] bands[l][m]).id
                == graph.edges[e].to,
{
    law_unit_list_in_build_order(graph, units);
    law_bands_hold_units(units, false, bands, k, i);
    let u = choose|u: int| 0 <= u < units.len() && units[u] == bands[k][i];
    law_unit_dependencies_are_edges(graph, units, u);
    let dependencies = bands[k][i].dependencies;
    assert(dependencies.contains(graph.edges[e].to));
    let j = choose|j: int| 0 <= j < dependencies.len() && dependencies[j] == graph.edges[e].to;
    law_dependencies_in_earlier_bands(units, false, bands, k, i, j);
}

/// In the order of a graph, the node at which an edge ends comes before the one
/// at which it starts, and every node comes once.
pub proof fn law_build_order_heeds_every_edge(graph: GraphView, order: Seq<usize>, e: int, q: int)
    requires
        graph.is_build_order(order),
        0 <= e < graph.edges.len(),
        0 <= q < order.len(),
        order[q] == graph.edges[e].from,
    ensures
        exists|p: int| 0 <= p < q && #[trigger] order[p] == graph.edges[e].to,
        order.no_duplicates(),
        order.len() == graph.nodes.len(),
        forall|i: int| 0 <= i < order.len() ==> #[trigger] order[i] < graph.nodes.len(),
{
    let pairs = edge_pairs(graph.edges);
    assert(pairs[e].0 == order[q]);
    assert(order.take(q).contains(pairs[e].1));
    let p = choose|p: int| 0 <= p < q && order.take(q)[p] == pairs[e].1;
    assert(order[p] == graph.edges[e].to);
}

/// The units of a graph are listed in build order, under distinct ids.
pub proof fn law_graph_units_in_build_order(graph: GraphView, order: Seq<usize>)
    requires
        graph.wf(),
        graph.is_build_order(order),
    ensures
        distinct_ids(Seq::new(order.len(), |i: int| unit_of(graph, order[i] as int))),
        in_build_order(Seq::new(order.len(), |i: int| unit_of(graph, order[i] as int))),
{
    let units = Seq::new(order.len(), |i: int| unit_of(graph, order[i] as int));
    assert forall|i: int, j: int| 0 <= i < j < units.len() implies (#[trigger] units[i]).id != (
    #[trigger] units[j]).id by {
        assert(order[i] < graph.nodes.len() && order[j] < graph.nodes.len());
    }
    assert forall|i: int, j: int|
        0 <= i < units.len() && 0 <= j < units[i].dependencies.len() implies is_known(
        units.take(i),
        #[trigger] units[i].dependencies[j],
    ) by {
        assert(order[i] < graph.nodes.len());
        assert(graph.nodes[order[i] as int].id == order[i]);
        let e = lemma_dependency_edge(graph.edges, order[i], j);
        let pairs = edge_pairs(graph.edges);
        assert(pairs[e].0 == order[i]);
        assert(order.take(i).contains(pairs[e].1));
        let p = choose|p: int| 0 <= p < i && order.take(i)[p] == pairs[e].1;
        assert(order[p] < graph.nodes.len());
        assert(is_at(units.take(i), p, units[i].dependencies[j]));
    }
}

proof fn lemma_dependency_edge(edges: Seq<SCMEdge>, id: usize, j: int) -> (e: int)
    requires
        0 <= j < dependencies_of(edges, id).len(),
    ensures
        0 <= e < edges.len(),
        edges[e].from == id,
        edges[e].to == dependencies_of(edges, id)[j],
    decreases edges.len(),
{
    let before = dependencies_of(edges.drop_last(), id);
    if j < before.len() {
        lemma_dependency_edge(edges.drop_last(), id, j)
    } else {
        edges.len() - 1
    }
}

/// The bands of a list of units are determined.
pub proof fn law_bands_unique(
    units: Seq<UnitView>,
    known_only: bool,
    a: Seq<Seq<UnitView>>,
    b: Seq<Seq<UnitView>>,
)
    requires
        is_banding(units, known_only, a),
        is_banding(units, known_only, b),
    ensures
        a == b,
{
    let edges = unit_edges(units, known_only, units.len() as int);
    let (order, ends) = choose|order: Seq<usize>, ends: Seq<usize>|
        {
            &&& #[trigger] is_layering(units.len() as int, edges, order, ends)
            &&& is_cut_of(units, order, ends, a)
        };
    let (order2, ends2) = choose|order: Seq<usize>, ends: Seq<usize>|
        {
            &&& #[trigger] is_layering(units.len() as int, edges, order, ends)
            &&& is_cut_of(units, order, ends, b)
        };
    law_layering_unique(units.len() as int, edges, order, ends, order2, ends2);
    assert(a =~= b);
}

/// Results are listed in the order of the ids, each with the id it belongs to.
/// An id without a result is left out.
pub proof fn law_results_follow_ids<R>(ids: Seq<usize>, results: Map<usize, R>)
    requires
        ids.no_duplicates(),
    ensures
        in_order(ids, results) == ids.filter(|id: usize| results.contains_key(id)).map_values(
            |id: usize| (id, results[id]),
        ),
    decreases ids.len(),
{
    reveal(Seq::filter);
    let has = |id: usize| results.contains_key(id);
    let with = |id: usize| (id, results[id]);
    if ids.len() == 0 {
        assert(in_order(ids, results) =~= ids.filter(has).map_values(with));
    } else {
        let first = ids[0];
        let rest = ids.drop_first();
        assert(rest.no_duplicates());
        assert(ids =~= seq![first] + rest);
        Seq::filter_distributes_over_add(seq![first], rest, has);
        assert(seq![first].drop_last() =~= Seq::<usize>::empty());
        assert(seq![first].last() == first);
        assert(Seq::<usize>::empty().filter(has) =~= Seq::<usize>::empty());
        if results.contains_key(first) {
            let fewer = results.remove(first);
            law_results_follow_ids(rest, fewer);
            lemma_filters_agree(
                rest,
                |id: usize| fewer.contains_key(id),
                has,
                |id: usize| (id, fewer[id]),
                with,
            );
            assert(seq![first].filter(has) =~= seq![first]);
            assert(ids.filter(has).map_values(with) =~= seq![(first, results[first])] + rest.filter(
                has,
            ).map_values(with));
        } else {
            law_results_follow_ids(rest, results);
            assert(seq![first].filter(has) =~= Seq::<usize>::empty());
            assert(ids.filter(has) =~= rest.filter(has));
        }
    }
}

/// Conditions and functions that agree on a list give the same list.
proof fn lemma_filters_agree<B>(
    list: Seq<usize>,
    a: spec_fn(usize) -> bool,
    b: spec_fn(usize) -> bool,
    f: spec_fn(usize) -> B,
    g: spec_fn(usize) -> B,
)
    requires
        forall|i: int| 0 <= i < list.len() ==> a(#[trigger] list[i]) == b(list[i]),
        forall|i: int| 0 <= i < list.len() && b(list[i]) ==> f(#[trigger] list[i]) == g(list[i]),
    ensures
        list.filter(a).map_values(f) == list.filter(b).map_values(g),
    decreases list.len(),
{
    reveal(Seq::filter);
    if list.len() > 0 {
        let fewer = list.drop_last();
        assert forall|i: int| 0 <= i < fewer.len() implies a(#[trigger] fewer[i]) == b(fewer[i]) by {
            assert(fewer[i] == list[i]);
        }
        assert forall|i: int| 0 <= i < fewer.len() && b(fewer[i]) implies f(#[trigger] fewer[i])
            == g(fewer[i]) by {
            assert(fewer[i] == list[i]);
        }
        lemma_filters_agree(fewer, a, b, f, g);
        let last = list[list.len() - 1];
        assert(a(last) == b(last));
        if b(last) {
            assert(f(last) == g(last));
            assert(list.filter(a).map_values(f) =~= fewer.filter(a).map_values(f).push(f(last)));
            assert(list.filter(b).map_values(g) =~= fewer.filter(b).map_values(g).push(g(last)));
        }
    } else {
        assert(list.filter(a).map_values(f) =~= list.filter(b).map_values(g));
    }
}

/// A run has one result for each unit that stands in a band, in the order of the
/// units and under their ids. Each is what the work gave for that unit. A unit
/// that stands in none has no result.
pub proof fn law_run_lists_banded_units<R, F: Fn(&CompilationUnit) -> R>(
    work: F,
    units: Seq<UnitView>,
    bands: Seq<Seq<UnitView>>,
    found: Map<usize, R>,
    list: Seq<(usize, R)>,
)
    requires
        distinct_ids(units),
        is_gathering(work, units, bands, found, list),
    ensures
        list == units.map_values(|unit: UnitView| unit.id).filter(
            |id: usize| found.contains_key(id),
        ).map_values(|id: usize| (id, found[id])),
        forall|id: usize| #[trigger]
            found.contains_key(id) <==> exists|k: int, i: int|
                0 <= k < bands.len() && 0 <= i < bands[k].len() && (#[trigger] bands[k][i]).id == id,
        forall|id: usize| #[trigger]
            found.contains_key(id) ==> exists|unit: CompilationUnit|
                unit.id == id && units.contains(unit@) && #[trigger] call_ensures(
                    work,
                    (&unit,),
                    found[id],
                ),
{
    let ids = unit_ids(units);
    assert(ids =~= units.map_values(|unit: UnitView| unit.id));
    assert forall|i: int, j: int| 0 <= i < ids.len() && 0 <= j < ids.len() && i != j implies ids[i]
        != ids[j] by {
        if i < j {
            assert(units[i].id != units[j].id);
        } else {
            assert(units[j].id != units[i].id);
        }
    }
    law_results_follow_ids(ids, found);
    assert forall|id: usize| #[trigger] found.contains_key(id) implies exists|unit: CompilationUnit|
        unit.id == id && units.contains(unit@) && #[trigger] call_ensures(
            work,
            (&unit,),
            found[id],
        ) by {
        assert(is_result(work, units, id, found[id]));
    }
}

} // verus!
