//! A run over a repository: which units are built, in which order, in which
//! sandbox, and how the run ends.

use vstd::prelude::*;
use vstd::slice::slice_to_vec;
use vstd::string::StringSliceAdditionalSpecFns;

use crate::diagnostics::causal_gradient::CompilerFailure;
use crate::scheduler::layering::{is_layering, selects};
use crate::scheduler::wavefront::{
    band_start, band_views, banded, distinct_ids, flat, in_build_order, in_known_order, is_at, is_banded, is_banding, is_known,
    is_unit_list, law_bands_hold_units, law_dependencies_come_first, law_known_ordered_units_are_all_banded,
    law_unit_dependencies_are_edges, law_unit_list_in_build_order,
    lemma_flat_unit, unit_of, unit_views, CompilationUnit, UnitView, WavefrontScheduler,
};
use crate::scm::graph::{edge_pairs, GraphView, NodeView, StructuralCausalGraph};
use crate::self_healing::router::{RouterError, ValidationResult};
use crate::text::{
    chars_of, decimal, decimal_text, joined, lemma_cut, lemma_decimal_injective, lemma_decimal_plain,
};
use crate::virtualization::traits::{path_in, path_of};

verus! {

/// The exit code of a run in which every unit was built or repaired.
pub const EXIT_SUCCESS: u8 = 0;

/// The exit code of a run that cannot begin, or that found a directory missing.
pub const EXIT_USER_ERROR: u8 = 1;

/// The exit code of a run in which a unit could not be built.
pub const EXIT_BUILD_FAILED: u8 = 2;

/// Why a repository cannot be built, if it cannot.
pub open spec fn repository_fault(exists: bool, is_directory: bool, path: Seq<char>) -> Option<
    Seq<char>,
> {
    if !exists {
        Some("[ERROR] repository path does not exist: "@ + path)
    } else if !is_directory {
        Some("[ERROR] repository path is not a directory: "@ + path)
    } else {
        None
    }
}

/// Say why a repository cannot be built, if it cannot.
pub fn check_repository(exists: bool, is_directory: bool, path: &str) -> (fault: Option<String>)
    ensures
        match fault {
            Some(text) => repository_fault(exists, is_directory, path@) == Some(text@),
            None => repository_fault(exists, is_directory, path@) is None,
        },
        !exists ==> fault is Some && fault->0@ == "[ERROR] repository path does not exist: "@ + path@,
        exists && !is_directory ==> fault is Some && fault->0@
            == "[ERROR] repository path is not a directory: "@ + path@,
        exists && is_directory ==> fault is None,
{
    if !exists {
        Some(joined("[ERROR] repository path does not exist: ", path))
    } else if !is_directory {
        Some(joined("[ERROR] repository path is not a directory: ", path))
    } else {
        None
    }
}

/// Whether a unit can be built: its language is known, and its name is not that
/// of a template.
pub open spec fn is_buildable(unit: UnitView) -> bool {
    unit.language.len() > 0 && !unit.name.contains('{')
}

/// The units that can be built, in order.
pub open spec fn buildable(units: Seq<UnitView>) -> Seq<UnitView>
    decreases units.len(),
{
    if units.len() == 0 {
        Seq::empty()
    } else if is_buildable(units.last()) {
        buildable(units.drop_last()).push(units.last())
    } else {
        buildable(units.drop_last())
    }
}

/// Whether a text holds an opening brace.
fn has_brace(text: &str) -> (result: bool)
    ensures
        result == text@.contains('{'),
{
    let chars = chars_of(text);
    let mut i: usize = 0;
    while i < chars.len()
        invariant
            i <= chars.len(),
            chars@ == text@,
            forall|j: int| 0 <= j < i ==> #[trigger] text@[j] != '{',
        decreases chars.len() - i,
    {
        if chars[i] == '{' {
            assert(text@[i as int] == '{');
            return true;
        }
        i = i + 1;
    }
    false
}

proof fn lemma_buildable_distinct(units: Seq<UnitView>)
    requires
        distinct_ids(units),
    ensures
        distinct_ids(buildable(units)),
        forall|k: int|
            0 <= k < buildable(units).len() ==> units.contains(#[trigger] buildable(units)[k]),
    decreases units.len(),
{
    if units.len() > 0 {
        let fewer = units.drop_last();
        let before = buildable(fewer);
        let after = buildable(units);
        assert forall|i: int, j: int| 0 <= i < j < fewer.len() implies (#[trigger] fewer[i]).id != (
        #[trigger] fewer[j]).id by {
            assert(units[i].id != units[j].id);
        }
        lemma_buildable_distinct(fewer);
        assert forall|k: int| 0 <= k < after.len() implies units.contains(#[trigger] after[k]) by {
            if k < before.len() {
                assert(after[k] == before[k]);
                assert(fewer.contains(before[k]));
                let i = choose|i: int| 0 <= i < fewer.len() && fewer[i] == before[k];
                assert(units[i] == after[k]);
            } else {
                assert(units[units.len() - 1] == after[k]);
            }
        }
        assert forall|k: int, l: int| 0 <= k < l < after.len() implies (#[trigger] after[k]).id != (
        #[trigger] after[l]).id by {
            assert(after[k] == before[k]);
            if l < before.len() {
                assert(after[l] == before[l]);
                assert(before[k].id != before[l].id);
            } else {
                assert(fewer.contains(before[k]));
                let i = choose|i: int| 0 <= i < fewer.len() && fewer[i] == before[k];
                assert(units[i].id != units[units.len() - 1].id);
            }
        }
    }
}

/// The units that can be built, in order.
pub fn buildable_units(units: Vec<CompilationUnit>) -> (kept: Vec<CompilationUnit>)
    ensures
        unit_views(kept@) == buildable(unit_views(units@)),
        distinct_ids(unit_views(units@)) ==> distinct_ids(unit_views(kept@)),
        unit_views(kept@) == unit_views(units@).filter(
            |unit: UnitView| unit.language.len() > 0 && !unit.name.contains('{'),
        ),
{
    let ghost views = unit_views(units@);
    let mut kept: Vec<CompilationUnit> = Vec::new();
    let mut i: usize = 0;
    assert(views.take(0) =~= Seq::<UnitView>::empty());
    assert(unit_views(kept@) =~= Seq::<UnitView>::empty());
    while i < units.len()
        invariant
            i <= units.len(),
            views == unit_views(units@),
            unit_views(kept@) == buildable(views.take(i as int)),
        decreases units.len() - i,
    {
        let ghost so_far = unit_views(kept@);
        proof {
            assert(views.take(i + 1).drop_last() =~= views.take(i as int));
            assert(views.take(i + 1).last() == units@[i as int]@);
        }
        if !units[i].language.as_str().is_empty() && !has_brace(&units[i].name) {
            kept.push(units[i].clone());
            assert(unit_views(kept@) =~= so_far.push(units@[i as int]@));
        }
        i = i + 1;
    }
    proof {
        assert(views.take(i as int) =~= views);
        law_buildable_units(views);
        if distinct_ids(views) {
            lemma_buildable_distinct(views);
        }
    }
    kept
}

/// Build wavefront bands from a list of compilation units. Dependencies that
/// are not themselves units of the list do not count.
pub fn build_bands(units: &[CompilationUnit]) -> (bands: Vec<Vec<CompilationUnit>>)
    requires
        distinct_ids(unit_views(units@)),
    ensures
        is_banding(unit_views(units@), true, band_views(bands@)),
{
    banded(units, true)
}

/// The directory of a unit: that of its package, or the repository if the
/// package has none.
pub open spec fn directory_of(
    graph: StructuralCausalGraph,
    id: usize,
    repository: Seq<u8>,
) -> Seq<u8> {
    if id < graph.nodes@.len() && graph.nodes@[id as int].path@.len() > 0 {
        graph.nodes@[id as int].path@
    } else {
        repository
    }
}

/// The directory of a unit.
pub fn lower_dir(graph: &StructuralCausalGraph, id: usize, repository: &[u8]) -> (path: Vec<u8>)
    ensures
        path@ == directory_of(*graph, id, repository@),
        id < graph.nodes@.len() && graph.nodes@[id as int].path@.len() > 0 ==> path@
            == graph.nodes@[id as int].path@,
        id >= graph.nodes@.len() || graph.nodes@[id as int].path@.len() == 0 ==> path@ == repository@,
{
    if id < graph.nodes.len() && graph.nodes[id].path.len() > 0 {
        slice_to_vec(graph.nodes[id].path.as_slice())
    } else {
        slice_to_vec(repository)
    }
}

/// A name in which path separators are replaced.
pub open spec fn flattened(name: Seq<char>) -> Seq<char> {
    Seq::new(
        name.len(),
        |i: int|
            if name[i] == '/' || name[i] == '\\' {
                '_'
            } else {
                name[i]
            },
    )
}

/// The name of the directory in which a unit's sandbox stands.
pub open spec fn sandbox(process: nat, nanos: nat, id: nat, name: Seq<char>) -> Seq<char> {
    "aero_mitosis_"@ + (decimal(process).push('_') + (decimal(nanos).push('_') + (decimal(id).push(
        '_',
    ) + flattened(name))))
}

/// The name of the directory in which a unit's sandbox stands.
pub fn sandbox_name(process: u32, nanos: u128, id: usize, name: &str) -> (result: String)
    ensures
        result@ == sandbox(process as nat, nanos as nat, id as nat, name@),
        "aero_mitosis_"@.is_prefix_of(result@),
        flattened(name@).is_suffix_of(result@),
{
    let chars = chars_of(name);
    let mut flat = String::new();
    let mut i: usize = 0;
    while i < chars.len()
        invariant
            i <= chars.len(),
            chars@ == name@,
            flat@ =~= flattened(name@).take(i as int),
        decreases chars.len() - i,
    {
        if chars[i] == '/' || chars[i] == '\\' {
            flat.push('_');
        } else {
            flat.push(chars[i]);
        }
        i = i + 1;
    }
    assert(flattened(name@).take(i as int) =~= flattened(name@));
    let mut numbered = decimal_text(id as u128);
    numbered.push('_');
    let tail = joined(&numbered, &flat);
    let mut timed = decimal_text(nanos);
    timed.push('_');
    let tail = joined(&timed, &tail);
    let mut owned = decimal_text(process as u128);
    owned.push('_');
    let result = joined("aero_mitosis_", &joined(&owned, &tail));
    proof {
        law_sandbox_name(process as nat, nanos as nat, id as nat, name@);
    }
    result
}

/// Sandboxes of different processes, times or units have different names, and
/// a sandbox's name is that of a single directory.
pub proof fn law_sandbox_names_differ(
    process: nat,
    nanos: nat,
    id: nat,
    name: Seq<char>,
    other_process: nat,
    other_nanos: nat,
    other_id: nat,
    other_name: Seq<char>,
)
    requires
        sandbox(process, nanos, id, name) == sandbox(
            other_process,
            other_nanos,
            other_id,
            other_name,
        ),
    ensures
        process == other_process,
        nanos == other_nanos,
        id == other_id,
        flattened(name) == flattened(other_name),
        !flattened(name).contains('/') && !flattened(name).contains('\\'),
{
    let prefix = "aero_mitosis_"@;
    let c = decimal(id).push('_') + flattened(name);
    let d = decimal(other_id).push('_') + flattened(other_name);
    let b = decimal(nanos).push('_') + c;
    let e = decimal(other_nanos).push('_') + d;
    let a = decimal(process).push('_') + b;
    let f = decimal(other_process).push('_') + e;
    assert((prefix + a).skip(prefix.len() as int) =~= a);
    assert((prefix + f).skip(prefix.len() as int) =~= f);
    lemma_decimal_plain(process);
    lemma_decimal_plain(other_process);
    lemma_decimal_plain(nanos);
    lemma_decimal_plain(other_nanos);
    lemma_decimal_plain(id);
    lemma_decimal_plain(other_id);
    lemma_cut(decimal(process), decimal(other_process), '_', b, e);
    lemma_cut(decimal(nanos), decimal(other_nanos), '_', c, d);
    lemma_cut(decimal(id), decimal(other_id), '_', flattened(name), flattened(other_name));
    lemma_decimal_injective(process, other_process);
    lemma_decimal_injective(nanos, other_nanos);
    lemma_decimal_injective(id, other_id);
}

/// The directory in which a repair works: a copy of the package that stands in
/// the unit's sandbox.
pub open spec fn copy_in(base: Seq<u8>, separator: u8) -> Seq<u8> {
    path_in(base, separator, "baseline".spec_bytes())
}

/// The directory in which a repair works and to which it commits. It is not the
/// package's own, so that the repository is left alone.
pub fn repair_root(base: &[u8], separator: u8) -> (path: Vec<u8>)
    ensures
        path@ == copy_in(base@, separator),
        path@ == base@.push(separator) + "baseline".spec_bytes(),
{
    path_of(base, separator, "baseline")
}

/// A path is that of a directory, or of something below it.
pub open spec fn is_within(path: Seq<u8>, directory: Seq<u8>, separator: u8) -> bool {
    path == directory || directory.push(separator).is_prefix_of(path)
}

/// A repair works outside of every directory that its sandbox is not in. What a
/// repair commits does not touch the repository.
pub proof fn law_repair_leaves_repository_alone(
    base: Seq<u8>,
    separator: u8,
    repository: Seq<u8>,
)
    requires
        !is_within(base, repository, separator),
        !is_within(repository, base, separator),
    ensures
        !is_within(copy_in(base, separator), repository, separator),
        !is_within(repository, copy_in(base, separator), separator),
{
    let root = copy_in(base, separator);
    let name = "baseline".spec_bytes();
    let start = base.push(separator);
    assert(start.is_prefix_of(root)) by {
        assert(root.subrange(0, start.len() as int) =~= start);
    }
    if repository == root {
        assert(start.is_prefix_of(repository));
    }
    let long = root.push(separator);
    if long.is_prefix_of(repository) {
        assert(repository.subrange(0, start.len() as int) =~= start) by {
            assert forall|i: int| 0 <= i < start.len() implies repository[i] == start[i] by {
                assert(repository.subrange(0, long.len() as int)[i] == long[i]);
                assert(long[i] == root[i]);
            }
        }
    }
    let mark = repository.push(separator);
    if mark.is_prefix_of(root) {
        assert forall|i: int| 0 <= i < mark.len() implies mark[i] == root[i] by {
            assert(root.subrange(0, mark.len() as int)[i] == root[i]);
        }
        if mark.len() <= base.len() {
            assert(base.subrange(0, mark.len() as int) =~= mark) by {
                assert forall|i: int| 0 <= i < mark.len() implies base[i] == mark[i] by {
                    assert(root[i] == base[i]);
                }
            }
        } else if mark.len() == start.len() {
            assert(repository =~= base) by {
                assert forall|i: int| 0 <= i < base.len() implies base[i] == repository[i] by {
                    assert(mark[i] == root[i] && root[i] == base[i]);
                }
            }
        } else {
            assert(repository.subrange(0, start.len() as int) =~= start) by {
                assert forall|i: int| 0 <= i < start.len() implies repository[i] == start[i] by {
                    assert(mark[i] == root[i] && root[i] == start[i]);
                }
            }
        }
    }
}

/// How a unit came out of a run.
#[derive(Debug, Clone, Copy, PartialEq, Eq, Structural)]
pub enum UnitOutcome {
    /// It was built, perhaps after a repair.
    Built,
    /// Its directory is missing, and it was passed over.
    Skipped,
    /// It failed and could not be healed.
    Unhealed,
    /// Its build could not be carried out.
    Failed,
    /// It took too long.
    TimedOut,
}

/// Whether the run goes on after a unit.
pub open spec fn goes_on(outcome: UnitOutcome) -> bool {
    outcome is Built || outcome is Skipped
}

/// The units of bands, one band after the other, with the numbers of the bands.
pub open spec fn numbered(bands: Seq<Seq<UnitView>>) -> Seq<(usize, UnitView)>
    decreases bands.len(),
{
    if bands.len() == 0 {
        Seq::empty()
    } else {
        numbered(bands.drop_last()) + Seq::new(
            bands.last().len(),
            |i: int| ((bands.len() - 1) as usize, bands.last()[i]),
        )
    }
}

/// A run over the units of a repository.
pub struct Run {
    /// The units with the numbers of their bands.
    pub units: Vec<(usize, CompilationUnit)>,
    /// How the first of them came out.
    pub outcomes: Vec<UnitOutcome>,
}

/// The units of a run with the numbers of their bands.
pub open spec fn numbered_views(units: Seq<(usize, CompilationUnit)>) -> Seq<(usize, UnitView)> {
    Seq::new(units.len(), |i: int| (units[i].0, units[i].1@))
}

/// How far a run has come: its units with the numbers of their bands, and how
/// the first of them came out.
pub struct Progress {
    pub units: Seq<(usize, UnitView)>,
    pub outcomes: Seq<UnitOutcome>,
}

impl Progress {
    /// A unit could not be built.
    pub open spec fn has_failed(self) -> bool {
        exists|i: int| 0 <= i < self.outcomes.len() && !goes_on(#[trigger] self.outcomes[i])
    }

    /// Nothing more is built: a unit has failed, or there is none left.
    pub open spec fn is_over(self) -> bool {
        self.has_failed() || self.outcomes.len() == self.units.len()
    }

    /// The run after a unit.
    pub open spec fn after(self, outcome: UnitOutcome) -> Progress {
        Progress { outcomes: self.outcomes.push(outcome), ..self }
    }

    /// The exit code, if the run is over: success only if every unit was built.
    pub open spec fn exit_code(self) -> Option<u8> {
        if self.has_failed() {
            Some(EXIT_BUILD_FAILED)
        } else if self.outcomes.len() < self.units.len() {
            None
        } else if forall|i: int|
            0 <= i < self.outcomes.len() ==> (#[trigger] self.outcomes[i]) is Built {
            Some(EXIT_SUCCESS)
        } else {
            Some(EXIT_USER_ERROR)
        }
    }
}

impl View for Run {
    type V = Progress;

    open spec fn view(&self) -> Progress {
        Progress { units: numbered_views(self.units@), outcomes: self.outcomes@ }
    }
}

impl Run {
    /// No more units have come out than the run has.
    pub open spec fn wf(&self) -> bool {
        self.outcomes@.len() <= self.units@.len()
    }

    /// Begin a run over bands.
    pub fn new(bands: &Vec<Vec<CompilationUnit>>) -> (run: Self)
        ensures
            run.wf(),
            run@ == (Progress { units: numbered(band_views(bands@)), outcomes: Seq::empty() }),
    {
        let ghost views = band_views(bands@);
        let mut units: Vec<(usize, CompilationUnit)> = Vec::new();
        let mut k: usize = 0;
        assert(views.take(0) =~= Seq::<Seq<UnitView>>::empty());
        assert(numbered_views(units@) =~= Seq::<(usize, UnitView)>::empty());
        while k < bands.len()
            invariant
                k <= bands.len(),
                views == band_views(bands@),
                numbered_views(units@) == numbered(views.take(k as int)),
            decreases bands.len() - k,
        {
            let ghost counted = numbered_views(units@);
            let ghost band = Seq::new(views[k as int].len(), |i: int| (k, views[k as int][i]));
            let mut i: usize = 0;
            assert(counted + band.take(0) =~= counted);
            while i < bands[k].len()
                invariant
                    k < bands.len(),
                    i <= bands[k as int].len(),
                    views == band_views(bands@),
                    band == Seq::new(views[k as int].len(), |i: int| (k, views[k as int][i])),
                    numbered_views(units@) == counted + band.take(i as int),
                decreases bands[k as int].len() - i,
            {
                let ghost counted_so_far = numbered_views(units@);
                units.push((k, bands[k][i].clone()));
                proof {
                    let unit = bands@[k as int]@[i as int]@;
                    assert(views[k as int][i as int] == unit);
                    assert(numbered_views(units@) =~= counted_so_far.push((k, unit)));
                    assert(band.take(i + 1) =~= band.take(i as int).push((k, unit)));
                    assert(numbered_views(units@) =~= counted + band.take(i + 1));
                }
                i = i + 1;
            }
            proof {
                assert(views.take(k + 1).drop_last() =~= views.take(k as int));
                assert(views.take(k + 1).last() == views[k as int]);
                assert(band.take(i as int) =~= band);
                assert(numbered_views(units@) =~= numbered(views.take(k + 1)));
            }
            k = k + 1;
        }
        assert(views.take(k as int) =~= views);
        let run = Run { units, outcomes: Vec::new() };
        assert(run@.outcomes =~= Seq::<UnitOutcome>::empty());
        run
    }

    /// Whether a unit could not be built.
    fn failed(&self) -> (result: bool)
        ensures
            result == self@.has_failed(),
    {
        let mut i: usize = 0;
        while i < self.outcomes.len()
            invariant
                i <= self.outcomes.len(),
                forall|j: int| 0 <= j < i ==> goes_on(#[trigger] self.outcomes@[j]),
            decreases self.outcomes.len() - i,
        {
            match self.outcomes[i] {
                UnitOutcome::Built | UnitOutcome::Skipped => {},
                _ => {
                    assert(!goes_on(self@.outcomes[i as int]));
                    return true;
                },
            }
            i = i + 1;
        }
        false
    }

    /// The unit to be built now and the number of its band, if there is one.
    pub fn current(&self) -> (current: Option<(usize, &CompilationUnit)>)
        requires
            self.wf(),
        ensures
            match current {
                Some((band, unit)) => !self@.is_over() && (band, unit@)
                    == self@.units[self@.outcomes.len() as int],
                None => self@.is_over(),
            },
    {
        if self.failed() || self.outcomes.len() == self.units.len() {
            None
        } else {
            let (band, unit) = &self.units[self.outcomes.len()];
            Some((*band, unit))
        }
    }

    /// Take down how the current unit came out.
    pub fn step(&mut self, outcome: UnitOutcome)
        requires
            old(self).wf(),
            !old(self)@.is_over(),
        ensures
            final(self).wf(),
            final(self)@ == old(self)@.after(outcome),
            final(self).units@ == old(self).units@,
    {
        self.outcomes.push(outcome);
    }

    /// The exit code, if the run is over.
    pub fn exit_code(&self) -> (code: Option<u8>)
        requires
            self.wf(),
        ensures
            code == self@.exit_code(),
            code == Some(0u8) <==> self.outcomes@.len() == self.units@.len() && forall|i: int|
                0 <= i < self.outcomes@.len() ==> (#[trigger] self.outcomes@[i]) is Built,
            code == Some(2u8) <==> exists|i: int|
                0 <= i < self.outcomes@.len() && ((#[trigger] self.outcomes@[i]) is Unhealed
                    || self.outcomes@[i] is Failed || self.outcomes@[i] is TimedOut),
            code is Some ==> code->0 <= 2,
            code is None ==> self.outcomes@.len() < self.units@.len(),
    {
        if self.failed() {
            return Some(EXIT_BUILD_FAILED);
        }
        if self.outcomes.len() < self.units.len() {
            return None;
        }
        let mut i: usize = 0;
        while i < self.outcomes.len()
            invariant
                i <= self.outcomes.len(),
                !self@.has_failed(),
                self@.outcomes.len() >= self@.units.len(),
                forall|j: int| 0 <= j < i ==> (#[trigger] self.outcomes@[j]) is Built,
            decreases self.outcomes.len() - i,
        {
            if self.outcomes[i] != UnitOutcome::Built {
                assert(!(self@.outcomes[i as int] is Built));
                return Some(EXIT_USER_ERROR);
            }
            i = i + 1;
        }
        Some(EXIT_SUCCESS)
    }
}

/// Whether a package can be built: its language is known, and its name is not
/// that of a template.
pub open spec fn is_buildable_node(node: NodeView) -> bool {
    node.language.len() > 0 && !node.name.contains('{')
}

/// Some package of a graph can be built.
pub open spec fn has_buildable(graph: GraphView) -> bool {
    exists|i: int| 0 <= i < graph.nodes.len() && is_buildable_node(#[trigger] graph.nodes[i])
}

/// The packages of a graph can be put in an order in which each comes after
/// those it depends on.
pub open spec fn can_be_ordered(graph: GraphView) -> bool {
    exists|order: Seq<usize>| graph.is_build_order(order)
}

/// What is to be done for a graph.
pub enum Plan {
    /// No package can be built.
    Nothing,
    /// A package could be built, but packages depend on one another in a circle.
    Cycle,
    /// The units are to be built.
    Build(Run),
}

impl Plan {
    /// The exit code, if nothing is to be built: success if nothing can be, and
    /// an error of the repository if its packages cannot be put in order.
    pub open spec fn code(self) -> Option<u8> {
        match self {
            Plan::Nothing => Some(EXIT_SUCCESS),
            Plan::Cycle => Some(EXIT_USER_ERROR),
            Plan::Build(_) => None,
        }
    }

    /// The exit code, if nothing is to be built.
    pub fn exit_code(&self) -> (code: Option<u8>)
        ensures
            code == self.code(),
            self is Nothing ==> code == Some(0u8),
            self is Cycle ==> code == Some(1u8),
            self is Build ==> code is None,
    {
        match self {
            Plan::Nothing => Some(EXIT_SUCCESS),
            Plan::Cycle => Some(EXIT_USER_ERROR),
            Plan::Build(_) => None,
        }
    }
}

/// `plan` is to build the units of a graph that can be built, band after band.
/// If there are some and they cannot be put in order, it says so.
pub open spec fn is_plan(
    graph: GraphView,
    units: Seq<UnitView>,
    bands: Seq<Seq<UnitView>>,
    plan: Plan,
) -> bool {
    &&& is_unit_list(graph, units)
    &&& is_banding(buildable(units), true, bands)
    &&& match plan {
        Plan::Nothing => !has_buildable(graph),
        Plan::Cycle => has_buildable(graph) && !can_be_ordered(graph),
        Plan::Build(run) => has_buildable(graph) && can_be_ordered(graph) && run.wf() && run@ == (
        Progress { units: numbered(bands), outcomes: Seq::empty() }),
    }
}

/// Whether some package of a graph can be built.
fn any_buildable(graph: &StructuralCausalGraph) -> (result: bool)
    ensures
        result == has_buildable(graph@),
{
    let mut i: usize = 0;
    while i < graph.nodes.len()
        invariant
            i <= graph.nodes.len(),
            forall|j: int| 0 <= j < i ==> !is_buildable_node(#[trigger] graph@.nodes[j]),
        decreases graph.nodes.len() - i,
    {
        assert(graph@.nodes[i as int] == graph.nodes@[i as int]@);
        if !graph.nodes[i].language.as_str().is_empty() && !has_brace(&graph.nodes[i].name) {
            return true;
        }
        i = i + 1;
    }
    false
}

/// Plan a run over the packages of a graph.
pub fn plan_run(graph: &StructuralCausalGraph) -> (plan: Plan)
    requires
        graph.wf(),
        graph@.edges_start_inside(),
    ensures
        exists|units: Seq<UnitView>, bands: Seq<Seq<UnitView>>|
            #[trigger] is_plan(graph@, units, bands, plan),
        plan is Nothing <==> forall|i: int|
            0 <= i < graph.nodes@.len() ==> (#[trigger] graph.nodes@[i]).language@.len() == 0
                || graph.nodes@[i].name@.contains('{'),
{
    let all = WavefrontScheduler::units_from_graph(graph);
    let ghost views = unit_views(all@);
    let count = all.len();
    let units = buildable_units(all);
    let bands = build_bands(units.as_slice());
    if !any_buildable(graph) {
        assert(is_plan(graph@, views, band_views(bands@), Plan::Nothing));
        assert forall|i: int| 0 <= i < graph.nodes@.len() implies (
        #[trigger] graph.nodes@[i]).language@.len() == 0 || graph.nodes@[i].name@.contains('{') by {
            assert(!is_buildable_node(graph@.nodes[i]));
        }
        return Plan::Nothing;
    }
    proof {
        let i = choose|i: int|
            0 <= i < graph@.nodes.len() && is_buildable_node(#[trigger] graph@.nodes[i]);
        assert(graph.nodes@[i].language@.len() > 0);
    }
    if count == 0 {
        proof {
            if can_be_ordered(graph@) {
                assert(views.len() == graph@.nodes.len());
            }
        }
        assert(is_plan(graph@, views, band_views(bands@), Plan::Cycle));
        return Plan::Cycle;
    }
    let run = Run::new(&bands);
    assert(is_plan(graph@, views, band_views(bands@), Plan::Build(run)));
    Plan::Build(run)
}

/// The units that can be built come after their dependencies among them.
proof fn lemma_buildable_known_order(units: Seq<UnitView>)
    requires
        distinct_ids(units),
        in_build_order(units),
    ensures
        in_known_order(buildable(units)),
    decreases units.len(),
{
    if units.len() > 0 {
        let fewer = units.drop_last();
        let last = units.last();
        let before = buildable(fewer);
        let after = buildable(units);
        assert forall|i: int, j: int| 0 <= i < j < fewer.len() implies (#[trigger] fewer[i]).id != (
        #[trigger] fewer[j]).id by {
            assert(units[i].id != units[j].id);
        }
        assert forall|i: int, j: int|
            0 <= i < fewer.len() && 0 <= j < fewer[i].dependencies.len() implies is_known(
            fewer.take(i),
            #[trigger] fewer[i].dependencies[j],
        ) by {
            assert(is_known(units.take(i), units[i].dependencies[j]));
            assert(fewer.take(i) =~= units.take(i));
        }
        lemma_buildable_known_order(fewer);
        lemma_buildable_distinct(fewer);
        assert forall|i: int, j: int|
            0 <= i < after.len() && 0 <= j < after[i].dependencies.len() && is_known(
                after,
                #[trigger] after[i].dependencies[j],
            ) implies is_known(after.take(i), after[i].dependencies[j]) by {
            let dependency = after[i].dependencies[j];
            let v = choose|v: int| is_at(after, v, dependency);
            let p = if i < before.len() {
                assert(after[i] == before[i]);
                assert(fewer.contains(before[i]));
                choose|p: int| 0 <= p < fewer.len() && fewer[p] == before[i]
            } else {
                units.len() - 1
            };
            assert(units[p] == after[i]);
            assert(is_known(units.take(p), units[p].dependencies[j]));
            let q = choose|q: int| is_at(units.take(p), q, dependency);
            assert(units[q].id == dependency);
            if v >= before.len() {
                assert(units[q].id != units[units.len() - 1].id);
            } else {
                assert(after[v] == before[v]);
                assert(is_at(before, v, dependency));
                if i < before.len() {
                    assert(is_known(before, before[i].dependencies[j]));
                    assert(before.take(i) =~= after.take(i));
                } else {
                    assert(after.take(i) =~= before);
                }
            }
        }
    }
}

/// Every unit of a graph that can be built is built in a run without failures.
pub proof fn law_every_buildable_unit_is_scheduled(
    graph: GraphView,
    units: Seq<UnitView>,
    bands: Seq<Seq<UnitView>>,
    unit: UnitView,
)
    requires
        graph.wf(),
        graph.nodes.len() <= usize::MAX,
        is_unit_list(graph, units),
        is_banding(buildable(units), true, bands),
        buildable(units).contains(unit),
    ensures
        is_banded(bands, unit.id),
{
    law_unit_list_in_build_order(graph, units);
    lemma_buildable_distinct(units);
    lemma_buildable_known_order(units);
    lemma_buildable_len(units);
    let u = choose|u: int| 0 <= u < buildable(units).len() && buildable(units)[u] == unit;
    law_known_ordered_units_are_all_banded(buildable(units), bands, u);
}

proof fn lemma_buildable_len(units: Seq<UnitView>)
    ensures
        buildable(units).len() <= units.len(),
    decreases units.len(),
{
    if units.len() > 0 {
        lemma_buildable_len(units.drop_last());
    }
}

/// A unit is built after those of its dependencies that are built at all.
pub proof fn law_dependencies_are_built_first(
    units: Seq<UnitView>,
    bands: Seq<Seq<UnitView>>,
    p: int,
    j: int,
)
    requires
        units.len() <= usize::MAX,
        is_banding(units, true, bands),
        0 <= p < flat(bands).len(),
        0 <= j < flat(bands)[p].dependencies.len(),
        is_known(units, flat(bands)[p].dependencies[j]),
    ensures
        exists|q: int|
            0 <= q < p && (#[trigger] flat(bands)[q]).id == flat(bands)[p].dependencies[j],
{
    law_dependencies_come_first(units, true, bands, p, j);
}

/// A unit among others that can be built is one of those that can.
proof fn lemma_buildable_holds(units: Seq<UnitView>, i: int)
    requires
        0 <= i < units.len(),
        is_buildable(units[i]),
    ensures
        buildable(units).contains(units[i]),
    decreases units.len(),
{
    let fewer = units.drop_last();
    let before = buildable(fewer);
    let after = buildable(units);
    if i < fewer.len() {
        lemma_buildable_holds(fewer, i);
        let k = choose|k: int| 0 <= k < before.len() && before[k] == units[i];
        assert(after[k] == units[i]);
    } else {
        assert(after[before.len() as int] == units[i]);
    }
}

proof fn lemma_numbered(bands: Seq<Seq<UnitView>>)
    ensures
        numbered(bands).len() == flat(bands).len(),
        forall|p: int| 0 <= p < flat(bands).len() ==> (#[trigger] numbered(bands)[p]).1 == flat(bands)[p],
    decreases bands.len(),
{
    if bands.len() > 0 {
        lemma_numbered(bands.drop_last());
    }
}

/// A plan to build holds every package of the graph that can be built.
pub proof fn law_plan_holds_every_buildable_package(
    graph: GraphView,
    units: Seq<UnitView>,
    bands: Seq<Seq<UnitView>>,
    plan: Plan,
    i: int,
)
    requires
        graph.wf(),
        graph.nodes.len() <= usize::MAX,
        is_plan(graph, units, bands, plan),
        plan is Build,
        0 <= i < graph.nodes.len(),
        is_buildable_node(graph.nodes[i]),
    ensures
        exists|p: int|
            0 <= p < plan->0@.units.len() && (#[trigger] plan->0@.units[p]).1.id == i,
{
    let (order, ends) = choose|order: Seq<usize>, ends: Seq<usize>|
        {
            &&& #[trigger] is_layering(
                graph.nodes.len() as int,
                edge_pairs(graph.edges),
                order,
                ends,
            )
            &&& graph.is_build_order(order)
            &&& units == Seq::new(order.len(), |i: int| unit_of(graph, order[i] as int))
        };
    lemma_full_selection(graph.nodes.len() as int, order, i);
    let k = choose|k: int| 0 <= k < order.len() && order[k] == i;
    assert(units[k] == unit_of(graph, i));
    lemma_buildable_holds(units, k);
    law_every_buildable_unit_is_scheduled(graph, units, bands, units[k]);
    let (b, m) = choose|b: int, m: int|
        0 <= b < bands.len() && 0 <= m < bands[b].len() && (#[trigger] bands[b][m]).id == units[k].id;
    lemma_flat_unit(bands, b, m);
    lemma_numbered(bands);
    let p = band_start(bands, b) + m;
    assert(plan->0@.units[p].1.id == i);
}

/// A list of as many different items as there are holds every item.
proof fn lemma_full_selection(count: int, order: Seq<usize>, i: int)
    requires
        0 <= i < count <= usize::MAX,
        selects(count, order),
        order.len() == count,
    ensures
        order.contains(i as usize),
{
    let all = Set::new(|j: usize| j < count);
    let listed = order.to_set();
    lemma_numbers_below(count as nat);
    order.unique_seq_to_set();
    assert(listed.subset_of(all)) by {
        assert forall|j: usize| listed.contains(j) implies all.contains(j) by {
            let k = choose|k: int| 0 <= k < order.len() && order[k] == j;
            assert(order[k] < count);
        }
    }
    vstd::set_lib::lemma_subset_equality(listed, all);
    assert(all.contains(i as usize));
}

/// There are as many numbers below a bound as it says.
proof fn lemma_numbers_below(count: nat)
    requires
        count <= usize::MAX,
    ensures
        Set::new(|j: usize| j < count).finite(),
        Set::new(|j: usize| j < count).len() == count,
    decreases count,
{
    let all = Set::new(|j: usize| j < count);
    if count == 0 {
        assert(all =~= Set::<usize>::empty());
    } else {
        let last = (count - 1) as nat;
        lemma_numbers_below(last);
        assert(all =~= Set::new(|j: usize| j < last).insert(last as usize));
    }
}

/// The run after a series of units.
pub open spec fn progressed(progress: Progress, outcomes: Seq<UnitOutcome>) -> Progress
    decreases outcomes.len(),
{
    if outcomes.len() == 0 {
        progress
    } else {
        progressed(progress, outcomes.drop_last()).after(outcomes.last())
    }
}

/// A run ends in success exactly if every unit was built. It ends in failure
/// exactly if a unit was not healed, could not be carried out or took too long;
/// nothing is built after that. A unit that was passed over makes it end in an
/// error.
pub proof fn law_exit_codes(units: Seq<(usize, UnitView)>, outcomes: Seq<UnitOutcome>)
    requires
        outcomes.len() <= units.len(),
    ensures
        ({
            let after = progressed(Progress { units, outcomes: Seq::empty() }, outcomes);
            &&& after == (Progress { units, outcomes })
            &&& after.exit_code() == Some(EXIT_SUCCESS) <==> outcomes.len() == units.len()
                && forall|i: int| 0 <= i < outcomes.len() ==> (#[trigger] outcomes[i]) is Built
            &&& after.exit_code() == Some(EXIT_BUILD_FAILED) <==> exists|i: int|
                0 <= i < outcomes.len() && !goes_on(#[trigger] outcomes[i])
            &&& after.exit_code() == Some(EXIT_BUILD_FAILED) ==> after.is_over()
            &&& after.exit_code() is None <==> !after.is_over()
            &&& after.exit_code() == Some(EXIT_USER_ERROR) ==> exists|i: int|
                0 <= i < outcomes.len() && (#[trigger] outcomes[i]) is Skipped
        }),
    decreases outcomes.len(),
{
    let start = Progress { units, outcomes: Seq::<UnitOutcome>::empty() };
    let after = progressed(start, outcomes);
    if outcomes.len() == 0 {
        assert(outcomes =~= Seq::<UnitOutcome>::empty());
    } else {
        law_exit_codes(units, outcomes.drop_last());
        assert(outcomes.drop_last().push(outcomes.last()) =~= outcomes);
    }
    assert(after == (Progress { units, outcomes }));
    if forall|i: int| 0 <= i < outcomes.len() ==> (#[trigger] outcomes[i]) is Built {
        assert forall|i: int| 0 <= i < outcomes.len() implies goes_on(#[trigger] outcomes[i]) by {
            assert(outcomes[i] is Built);
        }
    }
    if after.exit_code() == Some(EXIT_USER_ERROR) {
        let i = choose|i: int| 0 <= i < outcomes.len() && !((#[trigger] outcomes[i]) is Built);
        assert(goes_on(outcomes[i]));
        assert(outcomes[i] is Skipped);
    }
}

/// A repository ends in success only if every package that can be built was
/// built: when there is none, or when the run over them says so.
pub proof fn law_success_means_everything_was_built(
    graph: GraphView,
    units: Seq<UnitView>,
    bands: Seq<Seq<UnitView>>,
    plan: Plan,
    outcomes: Seq<UnitOutcome>,
    i: int,
)
    requires
        graph.wf(),
        graph.nodes.len() <= usize::MAX,
        is_plan(graph, units, bands, plan),
        0 <= i < graph.nodes.len(),
        is_buildable_node(graph.nodes[i]),
        plan is Build ==> outcomes.len() <= plan->0@.units.len(),
    ensures
        plan.code() != Some(EXIT_SUCCESS),
        plan is Build && progressed(plan->0@, outcomes).exit_code() == Some(EXIT_SUCCESS)
            ==> exists|p: int|
            0 <= p < outcomes.len() && (#[trigger] plan->0@.units[p]).1.id == i
                && outcomes[p] is Built,
{
    if plan is Build && progressed(plan->0@, outcomes).exit_code() == Some(EXIT_SUCCESS) {
        let all = plan->0@.units;
        assert(plan->0@ == (Progress { units: all, outcomes: Seq::empty() }));
        law_exit_codes(all, outcomes);
        law_plan_holds_every_buildable_package(graph, units, bands, plan, i);
        let p = choose|p: int| 0 <= p < all.len() && (#[trigger] all[p]).1.id == i;
        assert(outcomes[p] is Built);
        assert(plan->0@.units[p].1.id == i);
    }
}

/// What is being done with a unit, or how it ended. A sandbox is taken down
/// and removed with the answer to whether the unit was built.
#[derive(Debug)]
pub enum UnitStage {
    Initialize,
    Mount,
    Validate,
    /// The package is copied to where a repair works.
    Duplicate(CompilerFailure),
    /// A repair is tried on the copy.
    Repair(CompilerFailure),
    Teardown(bool),
    Remove(bool),
    Finished(bool),
    Failed(RouterError),
}

/// How the work of a stage went.
#[derive(Debug)]
pub enum UnitEvent {
    Done,
    Validated(ValidationResult),
    /// The repair ended, with a commit or without.
    Repaired(bool),
    Failed(RouterError),
}

/// Where the build of a unit stands.
#[derive(Debug)]
pub struct UnitRun {
    pub id: usize,
    pub stage: UnitStage,
}

impl UnitRun {
    /// The build of the unit has ended.
    pub open spec fn is_over(self) -> bool {
        self.stage is Finished || self.stage is Failed
    }

    /// Whether an event tells how the present stage went.
    pub open spec fn is_answered_by(self, event: UnitEvent) -> bool {
        match event {
            UnitEvent::Validated(_) => self.stage is Validate,
            UnitEvent::Repaired(_) => self.stage is Repair,
            UnitEvent::Done => !(self.stage is Validate || self.stage is Repair),
            UnitEvent::Failed(_) => !(self.stage is Repair),
        }
    }

    /// The failure that a repair starts from.
    pub open spec fn failure(self, validation: ValidationResult) -> CompilerFailure {
        CompilerFailure {
            node_id: Some(self.id),
            message: validation.stderr,
            exit_code: None,
        }
    }

    /// The build after an event. Without a copy of the package there is no
    /// repair, and the unit is not built. What goes wrong while the sandbox is
    /// taken down or removed does not matter.
    pub open spec fn stepped(self, event: UnitEvent) -> UnitRun {
        let stage = match self.stage {
            UnitStage::Finished(built) => UnitStage::Finished(built),
            UnitStage::Failed(error) => UnitStage::Failed(error),
            UnitStage::Teardown(built) => UnitStage::Remove(built),
            UnitStage::Remove(built) => UnitStage::Finished(built),
            _ => match event {
                UnitEvent::Failed(error) => if self.stage is Duplicate {
                    UnitStage::Teardown(false)
                } else {
                    UnitStage::Failed(error)
                },
                UnitEvent::Validated(validation) => if validation.success {
                    UnitStage::Teardown(true)
                } else {
                    UnitStage::Duplicate(self.failure(validation))
                },
                UnitEvent::Repaired(committed) => UnitStage::Teardown(committed),
                UnitEvent::Done => match self.stage {
                    UnitStage::Initialize => UnitStage::Mount,
                    UnitStage::Duplicate(failure) => UnitStage::Repair(failure),
                    _ => UnitStage::Validate,
                },
            },
        };
        UnitRun { stage, ..self }
    }

    /// Begin to build a unit.
    pub fn new(id: usize) -> (run: Self)
        ensures
            run == (UnitRun { id, stage: UnitStage::Initialize }),
    {
        UnitRun { id, stage: UnitStage::Initialize }
    }

    /// Go on after an event.
    pub fn step(self, event: UnitEvent) -> (after: Self)
        requires
            self.is_over() || self.is_answered_by(event),
        ensures
            after == self.stepped(event),
    {
        let UnitRun { id, stage } = self;
        let stage = match (stage, event) {
            (UnitStage::Finished(built), _) => UnitStage::Finished(built),
            (UnitStage::Failed(error), _) => UnitStage::Failed(error),
            (UnitStage::Teardown(built), _) => UnitStage::Remove(built),
            (UnitStage::Remove(built), _) => UnitStage::Finished(built),
            (UnitStage::Duplicate(_), UnitEvent::Failed(_)) => UnitStage::Teardown(false),
            (_, UnitEvent::Failed(error)) => UnitStage::Failed(error),
            (_, UnitEvent::Validated(validation)) => if validation.success {
                UnitStage::Teardown(true)
            } else {
                UnitStage::Duplicate(
                    CompilerFailure {
                        node_id: Some(id),
                        message: validation.stderr,
                        exit_code: None,
                    },
                )
            },
            (_, UnitEvent::Repaired(committed)) => UnitStage::Teardown(committed),
            (UnitStage::Initialize, UnitEvent::Done) => UnitStage::Mount,
            (UnitStage::Duplicate(failure), UnitEvent::Done) => UnitStage::Repair(failure),
            (_, UnitEvent::Done) => UnitStage::Validate,
        };
        UnitRun { id, stage }
    }
}

/// Once its sandbox is mounted and the validator has answered, the build of a
/// unit does not end in an error. The unit counts as built exactly if it
/// validates at first, or the package can be copied and a repair of the failure
/// is committed. The sandbox is taken down once and then removed either way,
/// whatever comes of that.
pub proof fn law_unit_is_built_or_healed(
    run: UnitRun,
    validation: ValidationResult,
    copied: Result<(), RouterError>,
    committed: bool,
    teardown: UnitEvent,
    removal: UnitEvent,
)
    requires
        run.stage is Initialize,
    ensures
        ({
            let validated = run.stepped(UnitEvent::Done).stepped(UnitEvent::Done).stepped(
                UnitEvent::Validated(validation),
            );
            let decided = if validation.success {
                validated
            } else {
                match copied {
                    Ok(_) => validated.stepped(UnitEvent::Done).stepped(
                        UnitEvent::Repaired(committed),
                    ),
                    Err(error) => validated.stepped(UnitEvent::Failed(error)),
                }
            };
            let built = validation.success || (copied is Ok && committed);
            &&& !validation.success ==> validated.stage == UnitStage::Duplicate(
                run.failure(validation),
            ) && validated.stepped(UnitEvent::Done).stage == UnitStage::Repair(
                run.failure(validation),
            )
            &&& decided.stage == UnitStage::Teardown(built)
            &&& decided.stepped(teardown).stage == UnitStage::Remove(built)
            &&& decided.stepped(teardown).stepped(removal).stage == UnitStage::Finished(built)
        }),
{
}

/// A unit ends in an error only before its validator has answered. Once it is
/// being taken down, each stage comes once.
pub proof fn law_only_the_sandbox_fails_a_unit(run: UnitRun, event: UnitEvent)
    requires
        !run.is_over(),
        run.is_answered_by(event),
    ensures
        run.stepped(event).stage is Failed ==> run.stage is Initialize || run.stage is Mount
            || run.stage is Validate,
        run.stepped(event).stage is Finished <==> run.stage is Remove,
        run.stepped(event).stage is Remove <==> run.stage is Teardown,
        run.stepped(event).stage is Teardown ==> run.stage is Validate || run.stage is Duplicate
            || run.stage is Repair,
        run.stepped(event).stage is Repair ==> run.stage is Duplicate,
{
}

/// The units that can be built are those whose language is known and whose name
/// holds no opening brace, in order.
pub proof fn law_buildable_units(units: Seq<UnitView>)
    ensures
        buildable(units) == units.filter(
            |unit: UnitView| unit.language.len() > 0 && !unit.name.contains('{'),
        ),
    decreases units.len(),
{
    let kept = |unit: UnitView| unit.language.len() > 0 && !unit.name.contains('{');
    reveal(Seq::filter);
    if units.len() > 0 {
        law_buildable_units(units.drop_last());
    }
    assert(buildable(units) =~= units.filter(kept));
}

/// A sandbox's name begins with that of the program and ends with the unit's, in
/// which separators, and nothing else, are replaced by underscores.
pub proof fn law_sandbox_name(process: nat, nanos: nat, id: nat, name: Seq<char>)
    ensures
        "aero_mitosis_"@.is_prefix_of(sandbox(process, nanos, id, name)),
        flattened(name).is_suffix_of(sandbox(process, nanos, id, name)),
        sandbox(process, nanos, id, name) == "aero_mitosis_"@ + decimal(process) + seq!['_']
            + decimal(nanos) + seq!['_'] + decimal(id) + seq!['_'] + flattened(name),
        flattened(name).len() == name.len(),
        forall|i: int|
            0 <= i < name.len() ==> (#[trigger] flattened(name)[i]) == if name[i] == '/' || name[i]
                == '\\' {
                '_'
            } else {
                name[i]
            },
{
    let whole = sandbox(process, nanos, id, name);
    let start = "aero_mitosis_"@;
    let end = flattened(name);
    assert(whole =~= start + decimal(process) + seq!['_'] + decimal(nanos) + seq!['_'] + decimal(id)
        + seq!['_'] + end);
    assert(whole.subrange(0, start.len() as int) =~= start);
    assert(whole.subrange(whole.len() - end.len(), whole.len() as int) =~= end);
}

/// The number of a package's band stands beside each unit, the units of a band
/// stand together in their order, and those of a later band come later.
pub proof fn law_numbered_units(bands: Seq<Seq<UnitView>>)
    requires
        bands.len() <= usize::MAX,
    ensures
        numbered(bands).map_values(|entry: (usize, UnitView)| entry.1) == bands.flatten_alt(),
        forall|p: int|
            0 <= p < numbered(bands).len() ==> (#[trigger] numbered(bands)[p]).0 < bands.len()
                && bands[numbered(bands)[p].0 as int].contains(numbered(bands)[p].1),
        forall|p: int, q: int|
            0 <= p <= q < numbered(bands).len() ==> (#[trigger] numbered(bands)[p]).0 <= (
            #[trigger] numbered(bands)[q]).0,
    decreases bands.len(),
{
    let all = numbered(bands);
    let second = |entry: (usize, UnitView)| entry.1;
    if bands.len() == 0 {
        assert(all.map_values(second) =~= bands.flatten_alt());
    } else {
        let fewer = bands.drop_last();
        let before = numbered(fewer);
        law_numbered_units(fewer);
        assert(all.map_values(second) =~= before.map_values(second) + bands.last());
        assert forall|p: int| 0 <= p < all.len() implies (#[trigger] all[p]).0 < bands.len()
            && bands[all[p].0 as int].contains(all[p].1) by {
            if p < before.len() {
                assert(all[p] == before[p]);
                assert(fewer[before[p].0 as int].contains(before[p].1));
            } else {
                assert(bands.last()[p - before.len()] == all[p].1);
            }
        }
        assert forall|p: int, q: int| 0 <= p <= q < all.len() implies (#[trigger] all[p]).0 <= (
        #[trigger] all[q]).0 by {
            if p < before.len() {
                assert(all[p] == before[p]);
                if q < before.len() {
                    assert(all[q] == before[q]);
                }
            }
        }
    }
}

/// Whatever kind an edge of the graph is of: in a run over its packages, what an
/// edge leads to is built before what it starts from, if both can be built.
pub proof fn law_run_heeds_every_edge(
    graph: GraphView,
    units: Seq<UnitView>,
    bands: Seq<Seq<UnitView>>,
    plan: Plan,
    e: int,
    p: int,
)
    requires
        graph.wf(),
        graph.nodes.len() <= usize::MAX,
        is_plan(graph, units, bands, plan),
        plan is Build,
        0 <= e < graph.edges.len(),
        graph.edges[e].to < graph.nodes.len(),
        graph.nodes[graph.edges[e].to as int].language.len() > 0,
        !graph.nodes[graph.edges[e].to as int].name.contains('{'),
        0 <= p < plan->0@.units.len(),
        plan->0@.units[p].1.id == graph.edges[e].from,
    ensures
        exists|q: int|
            0 <= q < p && (#[trigger] plan->0@.units[q]).1.id == graph.edges[e].to,
{
    let to = graph.edges[e].to;
    let kept = buildable(units);
    lemma_numbered(bands);
    law_plan_holds_every_buildable_package(graph, units, bands, plan, to as int);
    let (b, m) = lemma_place_in_bands(bands, p);
    law_bands_hold_units(kept, true, bands, b, m);
    law_unit_list_in_build_order(graph, units);
    lemma_buildable_distinct(units);
    lemma_buildable_len(units);
    let k = choose|k: int| 0 <= k < kept.len() && kept[k] == bands[b][m];
    assert(units.contains(kept[k]));
    let u = choose|u: int| 0 <= u < units.len() && units[u] == kept[k];
    law_unit_dependencies_are_edges(graph, units, u);
    let dependencies = flat(bands)[p].dependencies;
    assert(dependencies.contains(to));
    let j = choose|j: int| 0 <= j < dependencies.len() && dependencies[j] == to;
    let t = choose|t: int| 0 <= t < plan->0@.units.len() && (#[trigger] plan->0@.units[t]).1.id == to;
    let (c, n) = lemma_place_in_bands(bands, t);
    law_bands_hold_units(kept, true, bands, c, n);
    let v = choose|v: int| 0 <= v < kept.len() && kept[v] == bands[c][n];
    assert(is_at(kept, v, to));
    law_dependencies_come_first(kept, true, bands, p, j);
    let q = choose|q: int| 0 <= q < p && (#[trigger] flat(bands)[q]).id == dependencies[j];
    assert(plan->0@.units[q].1.id == to);
}

proof fn lemma_place_in_bands(bands: Seq<Seq<UnitView>>, p: int) -> (place: (int, int))
    requires
        0 <= p < flat(bands).len(),
    ensures
        0 <= place.0 < bands.len(),
        0 <= place.1 < bands[place.0].len(),
        bands[place.0][place.1] == flat(bands)[p],
    decreases bands.len(),
{
    let before = flat(bands.drop_last());
    if p < before.len() {
        lemma_place_in_bands(bands.drop_last(), p)
    } else {
        (bands.len() - 1, p - before.len())
    }
}

/// A run is over with the code zero if every unit was built, with two if a unit
/// was not healed, failed or took too long, and with one if units were only
/// passed over.
pub proof fn law_exit_numbers(units: Seq<(usize, UnitView)>, outcomes: Seq<UnitOutcome>)
    requires
        outcomes.len() <= units.len(),
    ensures
        ({
            let progress = Progress { units, outcomes };
            let failed = exists|i: int|
                0 <= i < outcomes.len() && ((#[trigger] outcomes[i]) is Unhealed || outcomes[i] is Failed
                    || outcomes[i] is TimedOut);
            let passed_over = exists|i: int|
                0 <= i < outcomes.len() && (#[trigger] outcomes[i]) is Skipped;
            &&& failed ==> progress.exit_code() == Some(2u8)
            &&& !failed && outcomes.len() < units.len() ==> progress.exit_code() is None
            &&& !failed && outcomes.len() == units.len() && passed_over ==> progress.exit_code()
                == Some(1u8)
            &&& !failed && outcomes.len() == units.len() && !passed_over ==> progress.exit_code()
                == Some(0u8)
            &&& progress.is_over() <==> failed || outcomes.len() == units.len()
        }),
{
    let progress = Progress { units, outcomes };
    assert forall|i: int| 0 <= i < outcomes.len() implies (!goes_on(#[trigger] outcomes[i]) <==> (
    outcomes[i] is Unhealed || outcomes[i] is Failed || outcomes[i] is TimedOut)) by {}
    if progress.has_failed() {
        let i = choose|i: int| 0 <= i < outcomes.len() && !goes_on(#[trigger] outcomes[i]);
        assert(outcomes[i] is Unhealed || outcomes[i] is Failed || outcomes[i] is TimedOut);
    }
    if exists|i: int|
        0 <= i < outcomes.len() && ((#[trigger] outcomes[i]) is Unhealed || outcomes[i] is Failed
            || outcomes[i] is TimedOut) {
        let i = choose|i: int|
            0 <= i < outcomes.len() && ((#[trigger] outcomes[i]) is Unhealed || outcomes[i] is Failed
                || outcomes[i] is TimedOut);
        assert(!goes_on(progress.outcomes[i]));
    } else if outcomes.len() == units.len() {
        if exists|i: int| 0 <= i < outcomes.len() && (#[trigger] outcomes[i]) is Skipped {
            let i = choose|i: int| 0 <= i < outcomes.len() && (#[trigger] outcomes[i]) is Skipped;
            assert(!(progress.outcomes[i] is Built));
        } else {
            assert forall|i: int| 0 <= i < progress.outcomes.len() implies (
            #[trigger] progress.outcomes[i]) is Built by {
                assert(!(outcomes[i] is Skipped));
            }
        }
    }
}

/// A sandbox is made, then mounted, and then the unit is validated in it. A
/// package is copied before a repair of the failure is tried, which names the
/// unit and what the validator printed. The unit stays the same all along.
pub proof fn law_unit_stages_follow_one_another(
    run: UnitRun,
    validation: ValidationResult,
    event: UnitEvent,
)
    ensures
        run.stepped(event).id == run.id,
        run.stage is Initialize ==> run.stepped(UnitEvent::Done).stage is Mount,
        run.stage is Mount ==> run.stepped(UnitEvent::Done).stage is Validate,
        run.stage is Validate && validation.success ==> run.stepped(
            UnitEvent::Validated(validation),
        ).stage == UnitStage::Teardown(true),
        run.stage is Validate && !validation.success ==> {
            let failed = run.stepped(UnitEvent::Validated(validation)).stage;
            &&& failed is Duplicate
            &&& failed->Duplicate_0.node_id == Some(run.id)
            &&& failed->Duplicate_0.message@ == validation.stderr@
            &&& failed->Duplicate_0.exit_code is None
        },
        run.stage matches UnitStage::Duplicate(failure) ==> run.stepped(UnitEvent::Done).stage
            == UnitStage::Repair(failure),
        run.stage is Repair ==> run.stepped(UnitEvent::Repaired(true)).stage == UnitStage::Teardown(
            true,
        ) && run.stepped(UnitEvent::Repaired(false)).stage == UnitStage::Teardown(false),
        run.stage matches UnitStage::Teardown(built) ==> run.stepped(event).stage
            == UnitStage::Remove(built),
        run.stage matches UnitStage::Remove(built) ==> run.stepped(event).stage
            == UnitStage::Finished(built),
        run.stage is Finished || run.stage is Failed ==> run.stepped(event) == run,
        run.stage is Initialize || run.stage is Mount || run.stage is Validate ==> (
        event matches UnitEvent::Failed(error) ==> run.stepped(event).stage == UnitStage::Failed(
            error,
        )),
        run.stage is Duplicate && event is Failed ==> run.stepped(event).stage
            == UnitStage::Teardown(false),
{
}

/// A unit is built in the directory of its package, unless the package has none.
/// A repair works in a directory of its own below the unit's sandbox.
pub proof fn law_directories(
    graph: StructuralCausalGraph,
    id: usize,
    repository: Seq<u8>,
    base: Seq<u8>,
    separator: u8,
)
    ensures
        id < graph.nodes@.len() && graph.nodes@[id as int].path@.len() > 0 ==> directory_of(
            graph,
            id,
            repository,
        ) == graph.nodes@[id as int].path@,
        id >= graph.nodes@.len() || graph.nodes@[id as int].path@.len() == 0 ==> directory_of(
            graph,
            id,
            repository,
        ) == repository,
        copy_in(base, separator) == base.push(separator) + "baseline".spec_bytes(),
{
}

/// A missing repository and one that is no directory are told apart, and each
/// message names the path. Anything else can be built.
pub proof fn law_repository_faults(found: bool, is_directory: bool, path: Seq<char>)
    ensures
        repository_fault(false, is_directory, path) == Some(
            "[ERROR] repository path does not exist: "@ + path,
        ),
        repository_fault(true, false, path) == Some(
            "[ERROR] repository path is not a directory: "@ + path,
        ),
        repository_fault(found, is_directory, path) is None <==> found && is_directory,
{
}

} // verus!
