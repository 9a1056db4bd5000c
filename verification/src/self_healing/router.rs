//! Self-healing repair: a closed fault-recovery loop.
//!
//! 1. Diagnose a `CompilerFailure` into a root-cause node.
//! 2. Synthesize one or more candidate patches.
//! 3. Mount an isolated overlay workspace for each candidate.
//! 4. Apply the patch, validate the result, and compute its penalty.
//! 5. Commit the patch if validation succeeds and the penalty is not over the
//!    threshold; otherwise purge the overlay and go on to the next candidate.
//!
//! `Repair` holds where such a loop stands. It says what is to be done next, and
//! goes on when it is told how that went.

use std::collections::HashMap;

use vstd::prelude::*;
use vstd::slice::slice_to_vec;
use vstd::string::StringSliceAdditionalSpecFns;
use vstd::utf8::encode_utf8;

use crate::diagnostics::causal_gradient::{is_diagnosis, CausalGradientAnalyzer, CausalReport, CompilerFailure};
use crate::float_bits::{at_most, is_at_most, is_nan, law_comparison};
use crate::scm::graph::StructuralCausalGraph;
use crate::text::{byte_views, decimal, decimal_text, joined, lemma_cut, lemma_decimal_injective, lemma_decimal_plain};
use crate::virtualization::traits::{
    law_layers, law_layers_are_apart, layers_in, lemma_names_differ, path_in, path_of, Directories, VirtualEnvConfig, VirtualizerError,
};

verus! {

/// A single file modification to be applied inside the sandboxed overlay.
#[derive(Debug)]
pub struct Patch {
    pub path: String,
    pub content: String,
}

impl Clone for Patch {
    fn clone(&self) -> (copy: Self)
        ensures
            copy == *self,
    {
        Patch { path: self.path.clone(), content: self.content.clone() }
    }
}

/// The bits of the number one.
pub const ONE: u64 = 0x3ff0_0000_0000_0000;

/// The bits of one thousandth.
pub const THOUSANDTH: u64 = 0x3f50_624d_d2f1_a9fc;

/// The bits of one thousand.
pub const THOUSAND: u64 = 0x408f_4000_0000_0000;

/// Weights for the multi-objective penalty index, as the bits of
/// double-precision numbers.
#[derive(Debug, Clone, Copy)]
pub struct PenaltyWeights {
    pub w_time: u64,
    pub w_size: u64,
}

impl Default for PenaltyWeights {
    fn default() -> (weights: Self)
        ensures
            weights.w_time == ONE,
            weights.w_size == THOUSANDTH,
            weights.w_time == 0x3ff0_0000_0000_0000,
            weights.w_size == 0x3f50_624d_d2f1_a9fc,
    {
        PenaltyWeights { w_time: ONE, w_size: THOUSANDTH }
    }
}

/// Baseline measurements used to penalize a candidate patch.
#[derive(Debug, Clone, Copy)]
pub struct ValidationBaseline {
    pub time_ms: u64,
    pub output_size: u64,
}

/// Configuration controlling the self-healing loop. The threshold is given by
/// the bits of a double-precision number.
#[derive(Debug, Clone, Copy)]
pub struct SelfHealingConfig {
    pub weights: PenaltyWeights,
    pub penalty_threshold: u64,
    pub max_retries: usize,
}

impl Default for SelfHealingConfig {
    fn default() -> (config: Self)
        ensures
            config.weights == (PenaltyWeights { w_time: ONE, w_size: THOUSANDTH }),
            config.penalty_threshold == THOUSAND,
            config.max_retries == 3,
            config.weights.w_time == 0x3ff0_0000_0000_0000,
            config.weights.w_size == 0x3f50_624d_d2f1_a9fc,
            config.penalty_threshold == 0x408f_4000_0000_0000,
    {
        SelfHealingConfig {
            weights: PenaltyWeights { w_time: ONE, w_size: THOUSANDTH },
            penalty_threshold: THOUSAND,
            max_retries: 3,
        }
    }
}

/// Result of a single validation pass.
#[derive(Debug)]
pub struct ValidationResult {
    pub success: bool,
    pub elapsed_ms: u64,
    pub output_size: u64,
    pub stderr: String,
}

impl Clone for ValidationResult {
    fn clone(&self) -> (copy: Self)
        ensures
            copy == *self,
    {
        ValidationResult {
            success: self.success,
            elapsed_ms: self.elapsed_ms,
            output_size: self.output_size,
            stderr: self.stderr.clone(),
        }
    }
}

/// Final report produced by a repair attempt. The penalty is given by the bits
/// of a double-precision number.
#[derive(Debug)]
pub struct RepairReport {
    pub committed: bool,
    pub penalty: u64,
    pub patch: Patch,
    pub validation: ValidationResult,
    pub final_message: String,
}

/// Something that can validate a candidate workspace, given by the bytes of its
/// path.
pub trait Validator: Send + Sync {
    fn validate(&self, root: &[u8]) -> ValidationResult;
}

/// Something that can synthesize candidate patches from a failure context.
pub trait PatchGenerator<D>: Send + Sync {
    fn generate(
        &self,
        failure: &CompilerFailure,
        graph: &StructuralCausalGraph,
        deltas: &HashMap<usize, D>,
    ) -> Vec<Patch>;
}

/// A simple patch generator that always produces the same repair patches.
pub struct StaticPatchGenerator {
    pub patches: Vec<Patch>,
}

/// A copy of a list of patches.
fn copied(patches: &Vec<Patch>) -> (copy: Vec<Patch>)
    ensures
        copy@ == patches@,
{
    let mut copy: Vec<Patch> = Vec::new();
    let mut i: usize = 0;
    while i < patches.len()
        invariant
            i <= patches.len(),
            copy@ == patches@.take(i as int),
        decreases patches.len() - i,
    {
        copy.push(patches[i].clone());
        i = i + 1;
    }
    assert(patches@.take(i as int) =~= patches@);
    copy
}

impl Clone for StaticPatchGenerator {
    fn clone(&self) -> (copy: Self)
        ensures
            copy.patches@ == self.patches@,
    {
        StaticPatchGenerator { patches: copied(&self.patches) }
    }
}

impl<D> PatchGenerator<D> for StaticPatchGenerator {
    fn generate(
        &self,
        _failure: &CompilerFailure,
        _graph: &StructuralCausalGraph,
        _deltas: &HashMap<usize, D>,
    ) -> (patches: Vec<Patch>)
        ensures
            patches@ == self.patches@,
    {
        copied(&self.patches)
    }
}

/// Errors that can occur during the self-healing loop. The penalty is given by
/// the bits of a double-precision number.
#[derive(Debug)]
pub enum RouterError {
    Io(String),
    Virtualizer(VirtualizerError),
    NoCandidates,
    ValidationFailed { reason: String, penalty: u64 },
    Message(String),
}

impl RouterError {
    /// The error in words, with the penalty written as given.
    pub open spec fn described(self, penalty_text: Seq<char>) -> Seq<char> {
        match self {
            RouterError::Io(text) => "router I/O error: "@ + text@,
            RouterError::Virtualizer(error) => "router virtualizer error: "@ + error.described(),
            RouterError::NoCandidates => "no repair candidates were generated"@,
            RouterError::ValidationFailed { reason, .. } => "validation failed (penalty="@
                + penalty_text + "): "@ + reason@,
            RouterError::Message(text) => "router error: "@ + text@,
        }
    }

    /// The error in words, with the penalty written as given.
    pub fn describe(&self, penalty_text: &str) -> (text: String)
        ensures
            text@ == self.described(penalty_text@),
            match self {
                RouterError::Io(reason) => text@ == "router I/O error: "@ + reason@,
                RouterError::Virtualizer(error) => text@ == "router virtualizer error: "@
                    + error.described(),
                RouterError::NoCandidates => text@ == "no repair candidates were generated"@,
                RouterError::ValidationFailed { reason, .. } => text@
                    == "validation failed (penalty="@ + penalty_text@ + "): "@ + reason@,
                RouterError::Message(reason) => text@ == "router error: "@ + reason@,
            },
    {
        match self {
            RouterError::Io(text) => joined("router I/O error: ", text),
            RouterError::Virtualizer(error) => joined(
                "router virtualizer error: ",
                &error.describe(),
            ),
            RouterError::NoCandidates => "no repair candidates were generated".to_owned(),
            RouterError::ValidationFailed { reason, .. } => joined(
                &joined(&joined("validation failed (penalty=", penalty_text), "): "),
                reason,
            ),
            RouterError::Message(text) => joined("router error: ", text),
        }
    }
}

/// Whether a candidate is good enough to be committed: it validates, and its
/// penalty is not over the threshold.
pub open spec fn is_acceptable(validation: ValidationResult, penalty: u64, threshold: u64) -> bool {
    validation.success && is_at_most(penalty, threshold)
}

/// What validation found out about a candidate.
#[derive(Debug)]
pub struct Verdict {
    pub validation: ValidationResult,
    pub penalty: u64,
}

/// Why a candidate was discarded.
#[derive(Debug)]
pub struct Rejection {
    pub reason: String,
    pub penalty: u64,
}

/// What is being done in a repair, or how it ended.
#[derive(Debug)]
pub enum Stage {
    /// The layers of a new overlay workspace are being made.
    Environment,
    Initialize,
    Mount,
    ApplyPatch,
    Synchronize,
    Validate,
    /// The candidate is being committed.
    Commit(Verdict),
    /// The workspace is being torn down.
    Teardown,
    /// The overlay is being purged.
    Purge,
    /// The candidate was committed.
    Committed(Verdict),
    /// No candidate is left.
    Exhausted,
    /// Something went wrong.
    Failed(RouterError),
}

/// How the work of a stage went.
#[derive(Debug)]
pub enum Event {
    Done,
    Validated(Verdict),
    Failed(RouterError),
}

/// Where a repair stands.
#[derive(Debug)]
pub struct Repair {
    pub candidates: Vec<Patch>,
    /// How many candidates are tried at most.
    pub limit: usize,
    pub threshold: u64,
    /// The candidate that is being tried.
    pub attempt: usize,
    /// Why the last candidate was discarded.
    pub rejection: Option<Rejection>,
    pub stage: Stage,
}

impl Repair {
    /// The repair has ended.
    pub open spec fn is_over(self) -> bool {
        self.stage is Committed || self.stage is Exhausted || self.stage is Failed
    }

    /// While a repair goes on, it tries a candidate within the limit. What is
    /// committed is acceptable.
    pub open spec fn wf(self) -> bool {
        &&& self.limit <= self.candidates@.len()
        &&& !(self.stage is Exhausted || self.stage is Failed) ==> self.attempt < self.limit
        &&& self.stage matches Stage::Commit(verdict) ==> is_acceptable(
            verdict.validation,
            verdict.penalty,
            self.threshold,
        )
        &&& self.stage matches Stage::Committed(verdict) ==> is_acceptable(
            verdict.validation,
            verdict.penalty,
            self.threshold,
        )
        &&& self.stage is Teardown || self.stage is Purge || self.attempt > 0
            ==> self.rejection is Some
    }

    /// Whether an event tells how the present stage went: a validation ends in
    /// a verdict, anything else is done, and what is not over may fail. A purge
    /// does not fail.
    pub open spec fn is_answered_by(self, event: Event) -> bool {
        match event {
            Event::Validated(_) => self.stage is Validate,
            Event::Done => !(self.stage is Validate),
            Event::Failed(_) => !(self.stage is Purge),
        }
    }

    /// The repair after an event.
    pub open spec fn stepped(self, event: Event) -> Repair {
        if self.is_over() {
            self
        } else {
            match event {
                Event::Failed(error) => Repair { stage: Stage::Failed(error), ..self },
                Event::Validated(verdict) => if is_acceptable(
                    verdict.validation,
                    verdict.penalty,
                    self.threshold,
                ) {
                    Repair { stage: Stage::Commit(verdict), ..self }
                } else {
                    Repair {
                        stage: Stage::Teardown,
                        rejection: Some(
                            Rejection {
                                reason: verdict.validation.stderr,
                                penalty: verdict.penalty,
                            },
                        ),
                        ..self
                    }
                },
                Event::Done => match self.stage {
                    Stage::Environment => Repair { stage: Stage::Initialize, ..self },
                    Stage::Initialize => Repair { stage: Stage::Mount, ..self },
                    Stage::Mount => Repair { stage: Stage::ApplyPatch, ..self },
                    Stage::ApplyPatch => Repair { stage: Stage::Synchronize, ..self },
                    Stage::Synchronize => Repair { stage: Stage::Validate, ..self },
                    Stage::Commit(verdict) => Repair { stage: Stage::Committed(verdict), ..self },
                    Stage::Teardown => Repair { stage: Stage::Purge, ..self },
                    Stage::Purge => if self.attempt + 1 < self.limit {
                        Repair {
                            stage: Stage::Environment,
                            attempt: (self.attempt + 1) as usize,
                            ..self
                        }
                    } else {
                        Repair { stage: Stage::Exhausted, ..self }
                    },
                    _ => self,
                },
            }
        }
    }

    /// Begin a repair with the given candidates. Without any, or if none may be
    /// tried, it is over at once.
    pub fn new(candidates: Vec<Patch>, config: &SelfHealingConfig) -> (repair: Self)
        ensures
            repair.wf(),
            repair.candidates == candidates,
            repair.limit == if candidates@.len() < config.max_retries {
                candidates@.len() as usize
            } else {
                config.max_retries
            },
            repair.threshold == config.penalty_threshold,
            repair.attempt == 0,
            repair.rejection is None,
            repair.limit == 0 ==> repair.stage is Exhausted,
            repair.limit > 0 ==> repair.stage is Environment,
    {
        let limit: usize = if candidates.len() < config.max_retries {
            candidates.len()
        } else {
            config.max_retries
        };
        Repair {
            candidates,
            limit,
            threshold: config.penalty_threshold,
            attempt: 0,
            rejection: None,
            stage: if limit == 0 {
                Stage::Exhausted
            } else {
                Stage::Environment
            },
        }
    }

    /// Go on after an event.
    pub fn step(self, event: Event) -> (after: Self)
        requires
            self.wf(),
            self.is_over() || self.is_answered_by(event),
        ensures
            after.wf(),
            after == self.stepped(event),
    {
        let Repair { candidates, limit, threshold, attempt, rejection, stage } = self;
        let (attempt, rejection, stage) = match (stage, event) {
            (Stage::Committed(verdict), _) => (attempt, rejection, Stage::Committed(verdict)),
            (Stage::Exhausted, _) => (attempt, rejection, Stage::Exhausted),
            (Stage::Failed(error), _) => (attempt, rejection, Stage::Failed(error)),
            (_, Event::Failed(error)) => (attempt, rejection, Stage::Failed(error)),
            (_, Event::Validated(verdict)) => if verdict.validation.success && at_most(
                verdict.penalty,
                threshold,
            ) {
                (attempt, rejection, Stage::Commit(verdict))
            } else {
                let reason = verdict.validation.stderr.clone();
                (attempt, Some(Rejection { reason, penalty: verdict.penalty }), Stage::Teardown)
            },
            (Stage::Environment, Event::Done) => (attempt, rejection, Stage::Initialize),
            (Stage::Initialize, Event::Done) => (attempt, rejection, Stage::Mount),
            (Stage::Mount, Event::Done) => (attempt, rejection, Stage::ApplyPatch),
            (Stage::ApplyPatch, Event::Done) => (attempt, rejection, Stage::Synchronize),
            (Stage::Synchronize, Event::Done) => (attempt, rejection, Stage::Validate),
            (Stage::Validate, Event::Done) => (attempt, rejection, Stage::Validate),
            (Stage::Commit(verdict), Event::Done) => (
                attempt,
                rejection,
                Stage::Committed(verdict),
            ),
            (Stage::Teardown, Event::Done) => (attempt, rejection, Stage::Purge),
            (Stage::Purge, Event::Done) => if attempt + 1 < limit {
                (attempt + 1, rejection, Stage::Environment)
            } else {
                (attempt, rejection, Stage::Exhausted)
            },
        };
        Repair { candidates, limit, threshold, attempt, rejection, stage }
    }

    /// How the repair ended, if it is over. The numbers in the report's message
    /// are written as given.
    pub fn outcome(
        self,
        root_cause: &str,
        penalty_text: &str,
        threshold_text: &str,
    ) -> (outcome: Option<Result<RepairReport, RouterError>>)
        requires
            self.wf(),
        ensures
            match self.stage {
                Stage::Committed(verdict) => outcome matches Some(Ok(report)) && {
                    &&& report.committed
                    &&& report.penalty == verdict.penalty
                    &&& report.patch == self.candidates@[self.attempt as int]
                    &&& report.validation == verdict.validation
                    &&& report.final_message@ == acceptance(
                        root_cause@,
                        penalty_text@,
                        threshold_text@,
                    )
                },
                Stage::Exhausted => outcome == Some(
                    Err::<RepairReport, RouterError>(self.last_error()),
                ),
                Stage::Failed(error) => outcome == Some(Err::<RepairReport, RouterError>(error)),
                _ => outcome is None,
            },
            outcome matches Some(Ok(report)) ==> report.final_message@
                == "Patch accepted for root cause '"@ + root_cause@ + "' (penalty="@ + penalty_text@
                + " under threshold="@ + threshold_text@ + "). Commit applied."@,
            self.stage is Exhausted && self.rejection is None ==> outcome == Some(
                Err::<RepairReport, RouterError>(RouterError::NoCandidates),
            ),
            self.stage is Exhausted && self.rejection is Some ==> (outcome matches Some(Err(error))
                && error is ValidationFailed && error->reason@ == self.rejection->0.reason@
                && error->penalty == self.rejection->0.penalty),
    {
        match self.stage {
            Stage::Committed(verdict) => {
                let head = joined("Patch accepted for root cause '", root_cause);
                let head = joined(&joined(&head, "' (penalty="), penalty_text);
                let head = joined(&joined(&head, " under threshold="), threshold_text);
                let report = RepairReport {
                    committed: true,
                    penalty: verdict.penalty,
                    patch: self.candidates[self.attempt].clone(),
                    validation: verdict.validation,
                    final_message: joined(&head, "). Commit applied."),
                };
                Some(Ok(report))
            },
            Stage::Exhausted => match self.rejection {
                Some(rejection) => Some(
                    Err(
                        RouterError::ValidationFailed {
                            reason: rejection.reason,
                            penalty: rejection.penalty,
                        },
                    ),
                ),
                None => Some(Err(RouterError::NoCandidates)),
            },
            Stage::Failed(error) => Some(Err(error)),
            _ => None,
        }
    }

    /// What is reported when no candidate is left: why the last one was
    /// discarded, if there was one.
    pub open spec fn last_error(self) -> RouterError {
        match self.rejection {
            Some(rejection) => RouterError::ValidationFailed {
                reason: rejection.reason,
                penalty: rejection.penalty,
            },
            None => RouterError::NoCandidates,
        }
    }

    /// How many events the repair can still take in.
    pub open spec fn work_left(self) -> nat {
        if self.is_over() {
            0
        } else {
            (8 * (self.limit - self.attempt) - match self.stage {
                Stage::Environment => 0int,
                Stage::Initialize => 1,
                Stage::Mount => 2,
                Stage::ApplyPatch => 3,
                Stage::Synchronize => 4,
                Stage::Validate => 5,
                Stage::Teardown => 6,
                Stage::Commit(_) => 7,
                _ => 7,
            }) as nat
        }
    }
}

/// The message of a report.
pub open spec fn acceptance(
    root_cause: Seq<char>,
    penalty_text: Seq<char>,
    threshold_text: Seq<char>,
) -> Seq<char> {
    "Patch accepted for root cause '"@ + root_cause + "' (penalty="@ + penalty_text
        + " under threshold="@ + threshold_text + "). Commit applied."@
}

/// The repair after a series of events.
pub open spec fn ran(repair: Repair, events: Seq<Event>) -> Repair
    decreases events.len(),
{
    if events.len() == 0 {
        repair
    } else {
        ran(repair, events.drop_last()).stepped(events.last())
    }
}

/// What happens while a candidate is tried, if nothing fails.
pub open spec fn trial(verdict: Verdict, threshold: u64) -> Seq<Event> {
    let found = seq![
        Event::Done,
        Event::Done,
        Event::Done,
        Event::Done,
        Event::Done,
        Event::Validated(verdict),
        Event::Done,
    ];
    if is_acceptable(verdict.validation, verdict.penalty, threshold) {
        found
    } else {
        found.push(Event::Done)
    }
}

/// What happens while candidates are tried one after the other, if nothing
/// fails.
pub open spec fn trials(verdicts: Seq<Verdict>, threshold: u64) -> Seq<Event>
    decreases verdicts.len(),
{
    if verdicts.len() == 0 {
        Seq::empty()
    } else {
        trials(verdicts.drop_last(), threshold) + trial(verdicts.last(), threshold)
    }
}

proof fn lemma_ran_on(repair: Repair, first: Seq<Event>, second: Seq<Event>)
    ensures
        ran(repair, first + second) == ran(ran(repair, first), second),
    decreases second.len(),
{
    if second.len() == 0 {
        assert(first + second =~= first);
    } else {
        assert((first + second).drop_last() =~= first + second.drop_last());
        lemma_ran_on(repair, first, second.drop_last());
    }
}

proof fn lemma_trial(repair: Repair, verdict: Verdict)
    requires
        repair.stage is Environment,
    ensures
        ran(repair, trial(verdict, repair.threshold)) == if is_acceptable(
            verdict.validation,
            verdict.penalty,
            repair.threshold,
        ) {
            Repair { stage: Stage::Committed(verdict), ..repair }
        } else {
            let rejection = Some(
                Rejection { reason: verdict.validation.stderr, penalty: verdict.penalty },
            );
            if repair.attempt + 1 < repair.limit {
                Repair { attempt: (repair.attempt + 1) as usize, rejection, ..repair }
            } else {
                Repair { stage: Stage::Exhausted, rejection, ..repair }
            }
        },
{
    let events = trial(verdict, repair.threshold);
    let r1 = repair.stepped(Event::Done);
    let r2 = r1.stepped(Event::Done);
    let r3 = r2.stepped(Event::Done);
    let r4 = r3.stepped(Event::Done);
    let r5 = r4.stepped(Event::Done);
    let r6 = r5.stepped(Event::Validated(verdict));
    let r7 = r6.stepped(Event::Done);
    assert(ran(repair, events.take(0)) == repair);
    assert(events.take(1).drop_last() =~= events.take(0));
    assert(ran(repair, events.take(1)) == r1);
    assert(events.take(2).drop_last() =~= events.take(1));
    assert(ran(repair, events.take(2)) == r2);
    assert(events.take(3).drop_last() =~= events.take(2));
    assert(ran(repair, events.take(3)) == r3);
    assert(events.take(4).drop_last() =~= events.take(3));
    assert(ran(repair, events.take(4)) == r4);
    assert(events.take(5).drop_last() =~= events.take(4));
    assert(ran(repair, events.take(5)) == r5);
    assert(events.take(6).drop_last() =~= events.take(5));
    assert(ran(repair, events.take(6)) == r6);
    assert(events.take(7).drop_last() =~= events.take(6));
    assert(ran(repair, events.take(7)) == r7);
    if is_acceptable(verdict.validation, verdict.penalty, repair.threshold) {
        assert(events.take(7) =~= events);
    } else {
        assert(events.take(8).drop_last() =~= events.take(7));
        assert(ran(repair, events.take(8)) == r7.stepped(Event::Done));
        assert(events.take(8) =~= events);
    }
}

/// If nothing fails, the first acceptable candidate within the limit is
/// committed and those before it are discarded. If none is acceptable, the
/// repair ends with the reason for which the last one was discarded.
pub proof fn law_first_acceptable_candidate_is_committed(repair: Repair, verdicts: Seq<Verdict>)
    requires
        repair.wf(),
        repair.stage is Environment,
        repair.attempt == 0,
        0 < verdicts.len() <= repair.limit,
        forall|i: int|
            0 <= i < verdicts.len() - 1 ==> !is_acceptable(
                (#[trigger] verdicts[i]).validation,
                verdicts[i].penalty,
                repair.threshold,
            ),
    ensures
        ({
            let after = ran(repair, trials(verdicts, repair.threshold));
            let verdict = verdicts.last();
            let accepted = is_acceptable(verdict.validation, verdict.penalty, repair.threshold);
            let rejection = Rejection {
                reason: verdict.validation.stderr,
                penalty: verdict.penalty,
            };
            &&& after.candidates == repair.candidates
            &&& after.limit == repair.limit
            &&& after.threshold == repair.threshold
            &&& accepted ==> after.stage == Stage::Committed(verdict) && after.attempt
                == verdicts.len() - 1
            &&& !accepted && verdicts.len() < repair.limit ==> after.stage is Environment
                && after.attempt == verdicts.len() && after.rejection == Some(rejection)
            &&& !accepted && verdicts.len() == repair.limit ==> after.stage is Exhausted
                && after.rejection == Some(rejection)
        }),
    decreases verdicts.len(),
{
    let earlier = verdicts.drop_last();
    let before = ran(repair, trials(earlier, repair.threshold));
    if earlier.len() > 0 {
        assert forall|i: int| 0 <= i < earlier.len() - 1 implies !is_acceptable(
            (#[trigger] earlier[i]).validation,
            earlier[i].penalty,
            repair.threshold,
        ) by {
            assert(earlier[i] == verdicts[i]);
        }
        assert(earlier.last() == verdicts[earlier.len() - 1]);
        law_first_acceptable_candidate_is_committed(repair, earlier);
    }
    assert(before.stage is Environment && before.attempt == earlier.len());
    lemma_ran_on(
        repair,
        trials(earlier, repair.threshold),
        trial(verdicts.last(), repair.threshold),
    );
    lemma_trial(before, verdicts.last());
}

/// A repair that is not over takes in only so many events: each leaves less to
/// do. It tries no more candidates than its limit.
pub proof fn law_repair_ends(repair: Repair, event: Event)
    requires
        repair.wf(),
        !repair.is_over(),
        repair.is_answered_by(event),
    ensures
        repair.stepped(event).wf(),
        repair.stepped(event).work_left() < repair.work_left() <= 8 * repair.limit,
{
}

/// Something that fails ends the repair with its error, and nothing more
/// happens.
pub proof fn law_failure_ends_repair(repair: Repair, error: RouterError, event: Event)
    requires
        !repair.is_over(),
    ensures
        repair.stepped(Event::Failed(error)).stage == Stage::Failed(error),
        repair.stepped(Event::Failed(error)).stepped(event) == repair.stepped(
            Event::Failed(error),
        ),
{
}

/// The next candidate is tried only when the one before has been torn down and
/// purged, and a candidate is committed only on an acceptable verdict.
pub proof fn law_candidates_do_not_overlap(repair: Repair, event: Event)
    requires
        repair.wf(),
        !repair.is_over(),
        repair.is_answered_by(event),
    ensures
        repair.stepped(event).attempt != repair.attempt ==> repair.stage is Purge,
        repair.stepped(event).stage is Environment ==> repair.stage is Purge,
        repair.stepped(event).stage is Purge ==> repair.stage is Teardown,
        repair.stepped(event).stage is Teardown ==> repair.stage is Validate,
        repair.stepped(event).stage is Committed ==> repair.stage is Commit,
        repair.stepped(event).stage matches Stage::Commit(verdict) ==> repair.stage is Validate
            && event == Event::Validated(verdict) && is_acceptable(
            verdict.validation,
            verdict.penalty,
            repair.threshold,
        ),
{
}

/// The name of the root cause that a diagnosis found, or `unknown`.
pub open spec fn cause_name(root_cause: Option<usize>, graph: StructuralCausalGraph) -> Seq<char> {
    match root_cause {
        Some(id) => if id < graph.nodes@.len() {
            graph.nodes@[id as int].name@
        } else {
            "unknown"@
        },
        None => "unknown"@,
    }
}

/// The name of the root cause that a diagnosis found, or `unknown`.
pub fn root_cause_name(root_cause: Option<usize>, graph: &StructuralCausalGraph) -> (name: String)
    ensures
        name@ == cause_name(root_cause, *graph),
        root_cause matches Some(id) && id < graph.nodes@.len() ==> name@
            == graph.nodes@[root_cause->0 as int].name@,
        root_cause is None || root_cause->0 >= graph.nodes@.len() ==> name@ == "unknown"@,
{
    match root_cause {
        Some(id) => if id < graph.nodes.len() {
            graph.nodes[id].name.clone()
        } else {
            "unknown".to_owned()
        },
        None => "unknown".to_owned(),
    }
}

/// A report names the root cause.
pub open spec fn is_blamed<D, F: Fn(&D, usize) -> u64>(
    score: F,
    failure: CompilerFailure,
    graph: StructuralCausalGraph,
    deltas: Map<usize, D>,
    report: CausalReport,
    name: Seq<char>,
) -> bool {
    is_diagnosis(score, failure, graph, deltas, report) && name == cause_name(
        report.root_cause_node,
        graph,
    )
}

/// Begin the repair of a failure: diagnose it and have candidates synthesized.
/// The repair comes with the name of the root cause.
pub fn begin_repair<D, G: PatchGenerator<D>, F: Fn(&D, usize) -> u64>(
    config: &SelfHealingConfig,
    failure: &CompilerFailure,
    graph: &StructuralCausalGraph,
    deltas: &HashMap<usize, D>,
    generator: &G,
    score: F,
) -> (begun: (Repair, String))
    requires
        call_requires(G::generate, (generator, failure, graph, deltas)),
        forall|delta: &D, distance: usize| call_requires(score, (delta, distance)),
        forall|delta: &D, distance: usize, result: u64|
            call_ensures(score, (delta, distance), result) ==> !is_nan(result),
    ensures
        begun.0.wf(),
        call_ensures(G::generate, (generator, failure, graph, deltas), begun.0.candidates),
        begun.0.limit == if begun.0.candidates@.len() < config.max_retries {
            begun.0.candidates@.len() as usize
        } else {
            config.max_retries
        },
        begun.0.threshold == config.penalty_threshold,
        begun.0.attempt == 0,
        begun.0.rejection is None,
        begun.0.limit == 0 ==> begun.0.stage is Exhausted,
        begun.0.limit > 0 ==> begun.0.stage is Environment,
        exists|report: CausalReport|
            is_blamed(score, *failure, *graph, deltas@, report, begun.1@),
{
    let report = CausalGradientAnalyzer::diagnose(failure, graph, deltas, score);
    let candidates = generator.generate(failure, graph, deltas);
    let name = root_cause_name(report.root_cause_node, graph);
    let begun = (Repair::new(candidates, config), name);
    assert(is_blamed(score, *failure, *graph, deltas@, report, begun.1@));
    begun
}

/// The name of the directory in which a candidate's overlay stands.
pub open spec fn overlay_name(process: nat, nanos: nat, counter: nat, attempt: nat) -> Seq<char> {
    "aero_self_heal_"@ + (decimal(process).push('_') + (decimal(nanos).push('_') + (decimal(
        counter,
    ).push('_') + decimal(attempt))))
}

/// The name of the directory in which a candidate's overlay stands, from the
/// process, the time, a counter of such directories and the attempt.
pub fn environment_name(process: u32, nanos: u128, counter: usize, attempt: usize) -> (name: String)
    ensures
        name@ == overlay_name(process as nat, nanos as nat, counter as nat, attempt as nat),
        "aero_self_heal_"@.is_prefix_of(name@),
{
    let mut counted = decimal_text(counter as u128);
    counted.push('_');
    let tail = joined(&counted, &decimal_text(attempt as u128));
    let mut timed = decimal_text(nanos);
    timed.push('_');
    let tail = joined(&timed, &tail);
    let mut owned = decimal_text(process as u128);
    owned.push('_');
    let name = joined("aero_self_heal_", &joined(&owned, &tail));
    proof {
        law_overlay_name(process as nat, nanos as nat, counter as nat, attempt as nat);
    }
    name
}

/// Overlays of different processes, times, counter values or attempts have
/// different names, so that no two repairs share one.
pub proof fn law_overlay_names_differ(
    process: nat,
    nanos: nat,
    counter: nat,
    attempt: nat,
    other_process: nat,
    other_nanos: nat,
    other_counter: nat,
    other_attempt: nat,
)
    requires
        overlay_name(process, nanos, counter, attempt) == overlay_name(
            other_process,
            other_nanos,
            other_counter,
            other_attempt,
        ),
    ensures
        process == other_process,
        nanos == other_nanos,
        counter == other_counter,
        attempt == other_attempt,
{
    let prefix = "aero_self_heal_"@;
    let c = decimal(counter).push('_') + decimal(attempt);
    let d = decimal(other_counter).push('_') + decimal(other_attempt);
    let b = decimal(nanos).push('_') + c;
    let e = decimal(other_nanos).push('_') + d;
    let a = decimal(process).push('_') + b;
    let f = decimal(other_process).push('_') + e;
    assert((prefix + a).skip(prefix.len() as int) =~= a);
    assert((prefix + f).skip(prefix.len() as int) =~= f);
    lemma_decimal_plain(process);
    lemma_decimal_plain(other_process);
    lemma_decimal_plain(nanos);
    lemma_decimal_plain(other_nanos);
    lemma_decimal_plain(counter);
    lemma_decimal_plain(other_counter);
    lemma_cut(decimal(process), decimal(other_process), '_', b, e);
    lemma_cut(decimal(nanos), decimal(other_nanos), '_', c, d);
    lemma_cut(
        decimal(counter),
        decimal(other_counter),
        '_',
        decimal(attempt),
        decimal(other_attempt),
    );
    lemma_decimal_injective(process, other_process);
    lemma_decimal_injective(nanos, other_nanos);
    lemma_decimal_injective(counter, other_counter);
    lemma_decimal_injective(attempt, other_attempt);
}

/// The directories of the workspace in which a candidate is tried. All but the
/// lower one stand in a directory of their own below `temporary`.
pub open spec fn environment(
    baseline_root: Seq<u8>,
    temporary: Seq<u8>,
    separator: u8,
    name: Seq<char>,
) -> Directories {
    layers_in(baseline_root, path_in(temporary, separator, encode_utf8(name)), separator)
}

/// The workspace in which a candidate is tried.
pub fn make_env(
    baseline_root: &[u8],
    temporary: &[u8],
    separator: u8,
    process: u32,
    nanos: u128,
    counter: usize,
    attempt: usize,
) -> (env: VirtualEnvConfig)
    ensures
        env@ == environment(
            baseline_root@,
            temporary@,
            separator,
            overlay_name(process as nat, nanos as nat, counter as nat, attempt as nat),
        ),
{
    let name = environment_name(process, nanos, counter, attempt);
    let base = path_of(temporary, separator, name.as_str());
    VirtualEnvConfig::over(baseline_root, base.as_slice(), separator)
}

/// Workspaces that were made with different values of the counter, whatever else
/// they were made with, share no directory but the lower one, which is the one
/// that was asked for.
pub proof fn law_environments_are_apart(
    temporary: Seq<u8>,
    separator: u8,
    root: Seq<u8>,
    process: nat,
    nanos: nat,
    counter: nat,
    attempt: nat,
    other_root: Seq<u8>,
    other_process: nat,
    other_nanos: nat,
    other_counter: nat,
    other_attempt: nat,
)
    requires
        counter != other_counter,
    ensures
        ({
            let a = environment(
                root,
                temporary,
                separator,
                overlay_name(process, nanos, counter, attempt),
            );
            let b = environment(
                other_root,
                temporary,
                separator,
                overlay_name(other_process, other_nanos, other_counter, other_attempt),
            );
            &&& seq![a.upper, a.merged, a.work, b.upper, b.merged, b.work].no_duplicates()
            &&& a.lower == root && b.lower == other_root
        }),
{
    let name = overlay_name(process, nanos, counter, attempt);
    let other = overlay_name(other_process, other_nanos, other_counter, other_attempt);
    let base = path_in(temporary, separator, encode_utf8(name));
    let other_base = path_in(temporary, separator, encode_utf8(other));
    if base == other_base {
        lemma_names_differ(temporary, separator, encode_utf8(name), encode_utf8(other));
        vstd::utf8::encode_utf8_decode_utf8(name);
        vstd::utf8::encode_utf8_decode_utf8(other);
        law_overlay_names_differ(
            process,
            nanos,
            counter,
            attempt,
            other_process,
            other_nanos,
            other_counter,
            other_attempt,
        );
    }
    law_layers_are_apart(root, other_root, base, other_base, separator);
}

/// Whether a part of a path is the name of a file or of a directory in the one
/// before it: not a root, and nothing that leads elsewhere.
pub open spec fn is_name(part: Seq<u8>) -> bool {
    &&& part.len() > 0
    &&& !part.contains('/' as u8)
    &&& part != seq!['.' as u8]
    &&& part != seq!['.' as u8, '.' as u8]
}

/// Where a path leads, from the directory in which it starts: a dot stays, two
/// go up, and a name goes down. A path that has a root or that leaves the
/// directory leads nowhere.
pub open spec fn led(path: Seq<Seq<u8>>) -> Option<Seq<Seq<u8>>>
    decreases path.len(),
{
    if path.len() == 0 {
        Some(Seq::empty())
    } else {
        match led(path.drop_last()) {
            None => None,
            Some(place) => if path.last() == seq!['.' as u8] {
                Some(place)
            } else if path.last() == seq!['.' as u8, '.' as u8] {
                if place.len() == 0 {
                    None
                } else {
                    Some(place.drop_last())
                }
            } else if is_name(path.last()) {
                Some(place.push(path.last()))
            } else {
                None
            },
        }
    }
}

/// Whether a part of a path is one or more dots.
fn is_dots(part: &Vec<u8>, count: usize) -> (result: bool)
    requires
        count == 1 || count == 2,
    ensures
        result == (part@ == if count == 1 {
            seq!['.' as u8]
        } else {
            seq!['.' as u8, '.' as u8]
        }),
{
    let result = part.len() == count && part[0] == 46 && part[count - 1] == 46;
    proof {
        let dots = if count == 1 {
            seq!['.' as u8]
        } else {
            seq!['.' as u8, '.' as u8]
        };
        assert(dots.len() == count);
        assert(dots[0] == 46 && dots[count - 1] == 46);
        if result {
            assert(part@ =~= dots);
        }
    }
    result
}

/// Whether a part of a path holds a separator.
fn has_separator(part: &Vec<u8>) -> (result: bool)
    ensures
        result == part@.contains('/' as u8),
{
    let mut i: usize = 0;
    while i < part.len()
        invariant
            i <= part.len(),
            forall|j: int| 0 <= j < i ==> #[trigger] part@[j] != '/' as u8,
        decreases part.len() - i,
    {
        if part[i] == 47 {
            assert(part@[i as int] == '/' as u8);
            return true;
        }
        i = i + 1;
    }
    false
}

/// Where in the upper layer a patch is written, by the components of its path:
/// below the root of the layer, or nowhere if the path leads out of it or to the
/// layer itself.
pub fn patch_target(path: &Vec<Vec<u8>>) -> (target: Option<Vec<Vec<u8>>>)
    ensures
        match target {
            Some(target) => led(byte_views(path@)) == Some(byte_views(target@)) && target@.len() > 0
                && forall|i: int| 0 <= i < target@.len() ==> is_name((#[trigger] target@[i])@),
            None => led(byte_views(path@)) is None || led(byte_views(path@)) == Some(
                Seq::<Seq<u8>>::empty(),
            ),
        },
{
    let ghost all = byte_views(path@);
    let mut target: Vec<Vec<u8>> = Vec::new();
    let mut i: usize = 0;
    assert(all.take(0) =~= Seq::<Seq<u8>>::empty());
    assert(byte_views(target@) =~= Seq::<Seq<u8>>::empty());
    while i < path.len()
        invariant
            i <= path.len(),
            all == byte_views(path@),
            led(all.take(i as int)) == Some(byte_views(target@)),
            forall|j: int| 0 <= j < target@.len() ==> is_name((#[trigger] target@[j])@),
        decreases path.len() - i,
    {
        let ghost place = byte_views(target@);
        proof {
            assert(all.take(i + 1).drop_last() =~= all.take(i as int));
            assert(all.take(i + 1).last() == path@[i as int]@);
        }
        if is_dots(&path[i], 1) {
        } else if is_dots(&path[i], 2) {
            if target.len() == 0 {
                proof {
                    lemma_leads_nowhere(all, (i + 1) as nat);
                }
                return None;
            }
            let _ = target.pop();
            assert(byte_views(target@) =~= place.drop_last());
        } else if path[i].len() == 0 || has_separator(&path[i]) {
            proof {
                lemma_leads_nowhere(all, (i + 1) as nat);
            }
            return None;
        } else {
            target.push(slice_to_vec(path[i].as_slice()));
            assert(byte_views(target@) =~= place.push(path@[i as int]@));
        }
        i = i + 1;
    }
    assert(all.take(i as int) =~= all);
    if target.len() == 0 {
        assert(byte_views(target@) =~= Seq::<Seq<u8>>::empty());
        None
    } else {
        Some(target)
    }
}

/// A path that begins with one that leads nowhere leads nowhere.
proof fn lemma_leads_nowhere(path: Seq<Seq<u8>>, n: nat)
    requires
        n <= path.len(),
        led(path.take(n as int)) is None,
    ensures
        led(path) is None,
    decreases path.len() - n,
{
    if n < path.len() {
        assert(path.take((n + 1) as int).drop_last() =~= path.take(n as int));
        lemma_leads_nowhere(path, n + 1);
    } else {
        assert(path.take(n as int) =~= path);
    }
}

/// What to do next to purge an overlay.
#[derive(Debug)]
pub enum PurgeStep {
    /// Remove the directories at these places.
    Remove(Vec<usize>),
    /// Wait a moment, and look again.
    Wait,
    Stop,
}

/// `places` are those of the directories that are present, in order.
pub open spec fn are_present(present: Seq<bool>, places: Seq<usize>) -> bool {
    &&& forall|k: int|
        0 <= k < places.len() ==> (#[trigger] places[k]) < present.len() && present[places[k] as int]
    &&& forall|k: int, l: int|
        0 <= k < l < places.len() ==> (#[trigger] places[k]) < (#[trigger] places[l])
    &&& forall|i: int|
        0 <= i < present.len() && #[trigger] present[i] ==> places.contains(i as usize)
}

/// Begin a round of purging: within the budget, what is present is removed.
pub fn purge_round(elapsed_ms: u64, budget_ms: u64, present: &Vec<bool>) -> (step: PurgeStep)
    ensures
        match step {
            PurgeStep::Remove(places) => elapsed_ms < budget_ms && are_present(present@, places@),
            PurgeStep::Wait => false,
            PurgeStep::Stop => elapsed_ms >= budget_ms,
        },
        step matches PurgeStep::Remove(places) ==> forall|i: usize|
            i < present@.len() ==> (#[trigger] places@.contains(i) <==> present@[i as int]),
{
    if elapsed_ms >= budget_ms {
        return PurgeStep::Stop;
    }
    let mut places: Vec<usize> = Vec::new();
    let mut i: usize = 0;
    while i < present.len()
        invariant
            i <= present.len(),
            forall|k: int|
                0 <= k < places@.len() ==> (#[trigger] places@[k]) < i && present@[places@[k] as int],
            forall|k: int, l: int|
                0 <= k < l < places@.len() ==> (#[trigger] places@[k]) < (#[trigger] places@[l]),
            forall|j: int| 0 <= j < i && #[trigger] present@[j] ==> places@.contains(j as usize),
        decreases present.len() - i,
    {
        let ghost before = places@;
        if present[i] {
            places.push(i);
            proof {
                assert(places@[before.len() as int] == i);
                assert forall|j: int| 0 <= j < i + 1 && #[trigger] present@[j] implies places@.contains(
                    j as usize,
                ) by {
                    if j < i {
                        let k = choose|k: int| 0 <= k < before.len() && before[k] == j as usize;
                        assert(places@[k] == j as usize);
                    }
                }
            }
        }
        i = i + 1;
    }
    PurgeStep::Remove(places)
}

/// End a round of purging: when nothing is present any more it is done.
pub fn purge_rest(present: &Vec<bool>) -> (step: PurgeStep)
    ensures
        match step {
            PurgeStep::Remove(_) => false,
            PurgeStep::Wait => exists|i: int| 0 <= i < present@.len() && #[trigger] present@[i],
            PurgeStep::Stop => forall|i: int| 0 <= i < present@.len() ==> !#[trigger] present@[i],
        },
{
    let mut i: usize = 0;
    while i < present.len()
        invariant
            i <= present.len(),
            forall|j: int| 0 <= j < i ==> !#[trigger] present@[j],
        decreases present.len() - i,
    {
        if present[i] {
            return PurgeStep::Wait;
        }
        i = i + 1;
    }
    PurgeStep::Stop
}

/// A candidate is committed exactly if it validates and its penalty is not over
/// the threshold. Penalties and thresholds without the sign bit compare like
/// their bits, and what is no number is never low enough.
pub proof fn law_verdicts(repair: Repair, verdict: Verdict)
    requires
        repair.stage is Validate,
    ensures
        ({
            let after = repair.stepped(Event::Validated(verdict));
            let penalty = verdict.penalty;
            let threshold = repair.threshold;
            &&& after.stage is Commit || after.stage is Teardown
            &&& !verdict.validation.success ==> after.stage is Teardown
            &&& penalty <= 0x7ff0_0000_0000_0000 && threshold <= 0x7ff0_0000_0000_0000 ==> (
            after.stage == Stage::Commit(verdict) <==> verdict.validation.success && penalty
                <= threshold)
            &&& 0x7ff0_0000_0000_0000 < penalty < 0x8000_0000_0000_0000 ==> after.stage is Teardown
            &&& 0x7ff0_0000_0000_0000 < threshold < 0x8000_0000_0000_0000
                ==> after.stage is Teardown
            &&& after.stage is Commit ==> after.stage == Stage::Commit(verdict) && after.rejection
                == repair.rejection
            &&& after.stage is Teardown ==> after.rejection is Some && after.rejection->0.reason@
                == verdict.validation.stderr@ && after.rejection->0.penalty == penalty
            &&& after.attempt == repair.attempt
        }),
{
    law_comparison(verdict.penalty, repair.threshold);
}

/// The layers are made, the workspace is set up and mounted, the patch is applied
/// and laid over, and then the candidate is validated, each when what comes
/// before it is done. A discarded candidate is torn down and purged before the
/// next one within the limit is tried.
pub proof fn law_stages_follow_one_another(repair: Repair)
    requires
        repair.wf(),
    ensures
        ({
            let after = repair.stepped(Event::Done);
            &&& repair.stage is Environment ==> after.stage is Initialize
            &&& repair.stage is Initialize ==> after.stage is Mount
            &&& repair.stage is Mount ==> after.stage is ApplyPatch
            &&& repair.stage is ApplyPatch ==> after.stage is Synchronize
            &&& repair.stage is Synchronize ==> after.stage is Validate
            &&& repair.stage matches Stage::Commit(verdict) ==> after.stage == Stage::Committed(
                verdict,
            )
            &&& repair.stage is Teardown ==> after.stage is Purge
            &&& repair.stage is Purge && repair.attempt + 1 < repair.limit ==> after.stage
                is Environment && after.attempt == repair.attempt + 1
            &&& repair.stage is Purge && repair.attempt + 1 == repair.limit ==> after.stage
                is Exhausted
            &&& !(repair.stage is Purge) ==> after.attempt == repair.attempt
            &&& after.candidates == repair.candidates && after.limit == repair.limit
                && after.threshold == repair.threshold && after.rejection == repair.rejection
            &&& repair.stage is Committed || repair.stage is Exhausted || repair.stage is Failed
                ==> after == repair
        }),
{
}

/// An overlay's name begins with that of the program, and names the process, the
/// time, the counter and the attempt in this order.
pub proof fn law_overlay_name(process: nat, nanos: nat, counter: nat, attempt: nat)
    ensures
        "aero_self_heal_"@.is_prefix_of(overlay_name(process, nanos, counter, attempt)),
        overlay_name(process, nanos, counter, attempt) == "aero_self_heal_"@ + decimal(process)
            + seq!['_'] + decimal(nanos) + seq!['_'] + decimal(counter) + seq!['_'] + decimal(attempt),
{
    let whole = overlay_name(process, nanos, counter, attempt);
    let start = "aero_self_heal_"@;
    assert(whole =~= start + decimal(process) + seq!['_'] + decimal(nanos) + seq!['_'] + decimal(
        counter,
    ) + seq!['_'] + decimal(attempt));
    assert(whole.subrange(0, start.len() as int) =~= start);
}

/// A part of a path is the name of a file or a directory if it is not empty,
/// holds no separator, and is not one dot or two.
pub proof fn law_names(part: Seq<u8>)
    ensures
        is_name(part) <==> part.len() > 0 && !part.contains(47u8) && part != seq![46u8] && part
            != seq![46u8, 46u8],
{
    assert('/' as u8 == 47u8);
    assert('.' as u8 == 46u8);
}

/// The path holds names only.
pub open spec fn holds_names(path: Seq<Seq<u8>>) -> bool {
    forall|i: int|
        0 <= i < path.len() ==> {
            let part = #[trigger] path[i];
            part.len() > 0 && !part.contains(47u8) && part != seq![46u8] && part != seq![46u8, 46u8]
        }
}

proof fn lemma_led_on(first: Seq<Seq<u8>>, other: Seq<Seq<u8>>, rest: Seq<Seq<u8>>)
    requires
        led(first) == led(other),
    ensures
        led(first + rest) == led(other + rest),
    decreases rest.len(),
{
    if rest.len() == 0 {
        assert(first + rest =~= first);
        assert(other + rest =~= other);
    } else {
        assert((first + rest).drop_last() =~= first + rest.drop_last());
        assert((other + rest).drop_last() =~= other + rest.drop_last());
        lemma_led_on(first, other, rest.drop_last());
    }
}

/// A path of names leads to what it names. A single dot anywhere can be left out,
/// and so can a name with two dots behind it. A path that begins with two dots
/// leads nowhere, and neither does one with a part that is empty or holds a
/// separator. Wherever a path leads, it leads by names.
pub proof fn law_paths_lead(path: Seq<Seq<u8>>, name: Seq<u8>, rest: Seq<Seq<u8>>)
    ensures
        holds_names(path) ==> led(path) == Some(path),
        led(path + seq![seq![46u8]] + rest) == led(path + rest),
        holds_names(seq![name]) ==> led(path + seq![name, seq![46u8, 46u8]] + rest) == led(path + rest),
        led(seq![seq![46u8, 46u8]] + rest) is None,
        name.len() == 0 || name.contains(47u8) ==> led(path + seq![name] + rest) is None,
        led(path) is Some ==> holds_names(led(path)->0),
    decreases path.len(),
{
    assert('/' as u8 == 47u8);
    assert('.' as u8 == 46u8);
    let dot = seq![46u8];
    let dots = seq![46u8, 46u8];
    assert(dot.len() == 1 && dots.len() == 2);
    assert(dot != dots);
    lemma_names_lead(path);
    let stayed = path + seq![dot];
    assert(stayed.drop_last() =~= path);
    assert(stayed.last() == dot);
    lemma_led_on(stayed, path, rest);
    if holds_names(seq![name]) {
        let down = path.push(name);
        let back = path + seq![name, dots];
        assert(seq![name][0] == name);
        assert(back.drop_last() =~= down);
        assert(down.drop_last() =~= path);
        assert(down.last() == name && back.last() == dots);
        assert(is_name(name));
        match led(path) {
            Some(place) => {
                assert(led(down) == Some(place.push(name)));
                assert(place.push(name).drop_last() =~= place);
                assert(led(back) == Some(place));
            },
            None => {
                assert(led(down) is None);
            },
        }
        assert(led(back) == led(path));
        lemma_led_on(back, path, rest);
    }
    let out = seq![dots] + rest;
    assert(out.take(1).drop_last() =~= Seq::<Seq<u8>>::empty());
    assert(out.take(1).last() == dots);
    assert(led(Seq::<Seq<u8>>::empty()) == Some(Seq::<Seq<u8>>::empty()));
    assert(out.take(1).last() != dot);
    assert(led(out.take(1)) is None);
    lemma_leads_nowhere(out, 1);
    if name.len() == 0 || name.contains(47u8) {
        let broken = path + seq![name] + rest;
        let n = path.len() + 1;
        assert(broken.take(n as int).drop_last() =~= path);
        assert(broken.take(n as int).last() == name);
        assert(!dot.contains(47u8) && !dots.contains(47u8));
        lemma_leads_nowhere(broken, n);
    }
}

proof fn lemma_names_lead(path: Seq<Seq<u8>>)
    ensures
        holds_names(path) ==> led(path) == Some(path),
        led(path) is Some ==> holds_names(led(path)->0),
    decreases path.len(),
{
    assert('/' as u8 == 47u8);
    assert('.' as u8 == 46u8);
    if path.len() > 0 {
        let start = path.drop_last();
        lemma_names_lead(start);
        if holds_names(path) {
            assert forall|i: int| 0 <= i < start.len() implies {
                let part = #[trigger] start[i];
                part.len() > 0 && !part.contains(47u8) && part != seq![46u8] && part != seq![46u8, 46u8]
            } by {
                assert(start[i] == path[i]);
            }
            assert(path[path.len() - 1] == path.last());
            assert(start.push(path.last()) =~= path);
        }
    }
}

/// A root cause goes by the name of its node. Without one, or where the graph
/// does not hold it, it is unknown.
pub proof fn law_cause_names(graph: StructuralCausalGraph, id: usize)
    ensures
        cause_name(None, graph) == "unknown"@,
        id >= graph.nodes@.len() ==> cause_name(Some(id), graph) == "unknown"@,
        id < graph.nodes@.len() ==> cause_name(Some(id), graph) == graph.nodes@[id as int].name@,
{
}

/// A report says what was repaired, at which penalty and under which threshold.
/// Without a report there is an error, which says why the last candidate was
/// discarded, or that there was none.
pub proof fn law_messages(
    repair: Repair,
    cause: Seq<char>,
    penalty: Seq<char>,
    threshold: Seq<char>,
)
    ensures
        acceptance(cause, penalty, threshold) == "Patch accepted for root cause '"@ + cause
            + "' (penalty="@ + penalty + " under threshold="@ + threshold + "). Commit applied."@,
        repair.rejection is None ==> repair.last_error() is NoCandidates,
        repair.rejection is Some ==> repair.last_error() is ValidationFailed
            && repair.last_error()->reason == repair.rejection->0.reason
            && repair.last_error()->penalty == repair.rejection->0.penalty,
        RouterError::NoCandidates.described(penalty) == "no repair candidates were generated"@,
{
}

/// An error says what kind it is of, and then why.
pub proof fn law_described(error: RouterError, penalty: Seq<char>)
    ensures
        error matches RouterError::Io(text) ==> error.described(penalty) == "router I/O error: "@
            + text@,
        error matches RouterError::Virtualizer(inner) ==> error.described(penalty)
            == "router virtualizer error: "@ + inner.described(),
        error matches RouterError::ValidationFailed { reason, .. } ==> error.described(penalty)
            == "validation failed (penalty="@ + penalty + "): "@ + reason@,
        error matches RouterError::Message(text) ==> error.described(penalty) == "router error: "@
            + text@,
{
}

/// A repair tries its candidates within its limit, and what it commits or has
/// committed is valid, at a penalty that is not over the threshold.
pub proof fn law_repairs_commit_what_is_acceptable(repair: Repair)
    requires
        repair.wf(),
    ensures
        repair.limit <= repair.candidates@.len(),
        repair.stage is Environment || repair.stage is Validate || repair.stage is Committed
            ==> repair.attempt < repair.limit,
        repair.stage matches Stage::Commit(verdict) ==> verdict.validation.success && (
        verdict.penalty <= 0x7ff0_0000_0000_0000 && repair.threshold <= 0x7ff0_0000_0000_0000
            ==> verdict.penalty <= repair.threshold),
        repair.stage matches Stage::Committed(verdict) ==> verdict.validation.success && (
        verdict.penalty <= 0x7ff0_0000_0000_0000 && repair.threshold <= 0x7ff0_0000_0000_0000
            ==> verdict.penalty <= repair.threshold),
{
    match repair.stage {
        Stage::Commit(verdict) => law_comparison(verdict.penalty, repair.threshold),
        Stage::Committed(verdict) => law_comparison(verdict.penalty, repair.threshold),
        _ => {},
    }
}

/// The layers of a candidate's workspace stand in a directory of its name below
/// the temporary one, and the lower one is what the repair starts from.
pub proof fn law_environment_directories(
    root: Seq<u8>,
    temporary: Seq<u8>,
    separator: u8,
    name: Seq<char>,
)
    ensures
        ({
            let made = environment(root, temporary, separator, name);
            let base = temporary.push(separator) + encode_utf8(name);
            &&& made.lower == root
            &&& made.upper == base.push(separator) + "upper".spec_bytes()
            &&& made.merged == base.push(separator) + "merged".spec_bytes()
            &&& made.work == base.push(separator) + "work".spec_bytes()
        }),
{
    let base = temporary.push(separator) + encode_utf8(name);
    law_layers(root, base, separator, Seq::empty());
}

} // verus!
