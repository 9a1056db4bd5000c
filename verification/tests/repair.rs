use std::collections::HashMap;

use aero_mitosis::diagnostics::causal_gradient::CompilerFailure;
use aero_mitosis::scm::graph::{NodeType, SCMNode, StructuralCausalGraph};
use aero_mitosis::self_healing::router::{
    begin_repair, environment_name, make_env, patch_target, purge_rest, purge_round, root_cause_name, Event, Patch,
    PenaltyWeights, PurgeStep, Repair, RepairReport, RouterError, SelfHealingConfig, Stage,
    StaticPatchGenerator, ValidationBaseline, ValidationResult, Validator, Verdict,
};
use aero_mitosis::virtualization::traits::VirtualizerError;

/// A host directory with one file, and an overlay over it.
struct Host {
    lower: String,
    upper: Option<String>,
    log: Vec<&'static str>,
    failing: Option<&'static str>,
}

impl Host {
    fn new(content: &str) -> Host {
        Host { lower: content.into(), upper: None, log: vec![], failing: None }
    }

    fn merged(&self) -> String {
        self.upper.clone().unwrap_or(self.lower.clone())
    }

    fn work(&mut self, step: &'static str) -> Event {
        self.log.push(step);
        if self.failing == Some(step) {
            Event::Failed(RouterError::Virtualizer(VirtualizerError::SystemFault(format!("{step} failed"))))
        } else {
            Event::Done
        }
    }
}

fn penalty(result: &ValidationResult, baseline: &ValidationBaseline, weights: &PenaltyWeights) -> f64 {
    let time = (result.elapsed_ms as f64 - baseline.time_ms as f64).max(0.0);
    let size = (result.output_size as f64 - baseline.output_size as f64).max(0.0);
    f64::from_bits(weights.w_time) * time + f64::from_bits(weights.w_size) * size
}

fn drive<V: Validator>(
    host: &mut Host,
    mut repair: Repair,
    cause: &str,
    config: &SelfHealingConfig,
    baseline: &ValidationBaseline,
    validator: &V,
) -> Result<RepairReport, RouterError> {
    let mut last = 0.0;
    loop {
        let event = match &repair.stage {
            Stage::Environment => host.work("environment"),
            Stage::Initialize => host.work("initialize"),
            Stage::Mount => host.work("mount"),
            Stage::ApplyPatch => {
                host.upper = Some(repair.candidates[repair.attempt].content.clone());
                host.work("patch")
            }
            Stage::Synchronize => host.work("synchronize"),
            Stage::Validate => {
                host.log.push("validate");
                let validation = validator.validate(host.merged().as_bytes());
                last = penalty(&validation, baseline, &config.weights);
                Event::Validated(Verdict { validation, penalty: last.to_bits() })
            }
            Stage::Commit(_) => {
                let event = host.work("commit");
                if matches!(event, Event::Done) {
                    host.lower = host.merged();
                }
                event
            }
            Stage::Teardown => host.work("teardown"),
            Stage::Purge => {
                host.upper = None;
                host.work("purge")
            }
            Stage::Committed(_) | Stage::Exhausted | Stage::Failed(_) => {
                let threshold = format!("{:.2}", f64::from_bits(config.penalty_threshold));
                return repair.outcome(cause, &format!("{last:.2}"), &threshold).unwrap();
            }
        };
        repair = repair.step(event);
    }
}

struct Fixed(ValidationResult);

impl Validator for Fixed {
    fn validate(&self, _root: &[u8]) -> ValidationResult {
        self.0.clone()
    }
}

struct MockValidator;

impl Validator for MockValidator {
    fn validate(&self, content: &[u8]) -> ValidationResult {
        let content = String::from_utf8_lossy(content);
        if content.contains("broken=true") {
            ValidationResult { success: false, elapsed_ms: 50, output_size: 0, stderr: "config is still broken".into() }
        } else if content.contains("expensive=true") {
            ValidationResult { success: true, elapsed_ms: 200, output_size: 200_000, stderr: String::new() }
        } else if content.contains("fixed=true") {
            ValidationResult { success: true, elapsed_ms: 50, output_size: 100, stderr: String::new() }
        } else {
            ValidationResult { success: false, elapsed_ms: 0, output_size: 0, stderr: "unrecognized config".into() }
        }
    }
}

fn always_fails() -> Fixed {
    Fixed(ValidationResult { success: false, elapsed_ms: 50, output_size: 0, stderr: "always fails".into() })
}

fn always_passes() -> Fixed {
    Fixed(ValidationResult { success: true, elapsed_ms: 100, output_size: 100, stderr: String::new() })
}

fn always_expensive() -> Fixed {
    Fixed(ValidationResult { success: true, elapsed_ms: 100, output_size: 200_000, stderr: String::new() })
}

fn graph() -> StructuralCausalGraph {
    let mut graph = StructuralCausalGraph::new();
    graph.add_node(SCMNode {
        id: 0,
        name: "demo".into(),
        path: Default::default(),
        language: "rust".into(),
        node_type: NodeType::Package,
    });
    graph
}

fn patches(contents: &[&str]) -> StaticPatchGenerator {
    StaticPatchGenerator {
        patches: contents
            .iter()
            .map(|content| Patch { path: "config.txt".into(), content: (*content).into() })
            .collect(),
    }
}

fn metrics() -> ValidationBaseline {
    ValidationBaseline { time_ms: 100, output_size: 100 }
}

fn with_threshold(threshold: f64) -> SelfHealingConfig {
    SelfHealingConfig { penalty_threshold: threshold.to_bits(), ..SelfHealingConfig::default() }
}

fn repair_with<V: Validator>(
    host: &mut Host,
    config: &SelfHealingConfig,
    generator: &StaticPatchGenerator,
    validator: &V,
) -> Result<RepairReport, RouterError> {
    let failure = CompilerFailure { node_id: Some(0), message: "fail".into(), exit_code: Some(1) };
    let mut deltas: HashMap<usize, f64> = HashMap::new();
    deltas.insert(0, 1.0);
    let graph = graph();
    let (repair, cause) = begin_repair(
        config,
        &failure,
        &graph,
        &deltas,
        generator,
        |delta: &f64, distance: usize| (delta / (distance as f64 + 1.0)).to_bits(),
    );
    drive(host, repair, &cause, config, &metrics(), validator)
}

#[test]
fn no_candidates_returns_error() {
    let mut host = Host::new("unrecognized\n");
    let result = repair_with(&mut host, &SelfHealingConfig::default(), &patches(&[]), &always_fails());
    assert!(matches!(result, Err(RouterError::NoCandidates)));
    assert!(host.log.is_empty());
}

#[test]
fn all_candidates_fail_validation_after_retries() {
    let mut host = Host::new("broken=true\n");
    let generator = patches(&["broken=true\n", "broken=true\n", "broken=true\n"]);
    let result = repair_with(&mut host, &SelfHealingConfig::default(), &generator, &always_fails());
    assert!(matches!(&result, Err(RouterError::ValidationFailed { .. })));
    match result {
        Err(error) => assert_eq!(error.describe("0.00"), "validation failed (penalty=0.00): always fails"),
        Ok(_) => unreachable!(),
    }
    assert_eq!(host.log.iter().filter(|step| **step == "validate").count(), 3);
    assert_eq!(host.lower, "broken=true\n");
}

#[test]
fn all_candidates_exceed_penalty_threshold() {
    let mut host = Host::new("any\n");
    let generator = patches(&["expensive=true\n", "expensive=true\n"]);
    let result = repair_with(&mut host, &with_threshold(100.0), &generator, &always_expensive());
    assert!(matches!(result, Err(RouterError::ValidationFailed { .. })));
}

#[test]
fn virtualizer_fails_at_each_step() {
    for step in ["environment", "initialize", "mount", "patch", "synchronize", "commit", "teardown"] {
        let mut host = Host::new("any\n");
        host.failing = Some(step);
        let generator = patches(&["fixed=true\n"]);
        let result = if step == "commit" {
            repair_with(&mut host, &SelfHealingConfig::default(), &generator, &always_passes())
        } else {
            repair_with(&mut host, &SelfHealingConfig::default(), &generator, &always_fails())
        };
        assert!(result.is_err(), "step {step:?} did not produce an error");
        assert_eq!(host.log.last(), Some(&step));
        assert_eq!(host.lower, "any\n");
    }
}

#[test]
fn repairs_broken_config_and_commits() {
    let mut host = Host::new("broken=true\n");
    let config = with_threshold(1000.0);
    let report = repair_with(&mut host, &config, &patches(&["fixed=true\n"]), &MockValidator)
        .expect("repair should succeed");
    assert!(report.committed);
    assert!(f64::from_bits(report.penalty) <= f64::from_bits(config.penalty_threshold));
    assert!(host.lower.contains("fixed=true"));
    assert_eq!(
        report.final_message,
        "Patch accepted for root cause 'demo' (penalty=0.00 under threshold=1000.00). Commit applied."
    );
    assert_eq!(
        host.log,
        vec!["environment", "initialize", "mount", "patch", "synchronize", "validate", "commit"]
    );
}

#[test]
fn discards_failing_and_overbudget_candidates_then_commits() {
    let mut host = Host::new("broken=true\n");
    let generator = patches(&["broken=true\n", "expensive=true\n", "fixed=true\n"]);
    let report = repair_with(&mut host, &with_threshold(100.0), &generator, &MockValidator)
        .expect("repair should succeed");
    assert!(report.committed);
    assert_eq!(report.validation.output_size, 100);
    assert_eq!(report.patch.content, "fixed=true\n");
    assert!(host.lower.contains("fixed=true"));
    assert_eq!(host.log.iter().filter(|step| **step == "purge").count(), 2);
}

#[test]
fn candidates_beyond_the_limit_are_not_tried() {
    let mut host = Host::new("any\n");
    let config = SelfHealingConfig { max_retries: 1, ..SelfHealingConfig::default() };
    let generator = patches(&["broken=true\n", "fixed=true\n"]);
    let result = repair_with(&mut host, &config, &generator, &MockValidator);
    assert!(matches!(result, Err(RouterError::ValidationFailed { .. })));
    let none = SelfHealingConfig { max_retries: 0, ..SelfHealingConfig::default() };
    let result = repair_with(&mut host, &none, &generator, &MockValidator);
    assert!(matches!(result, Err(RouterError::NoCandidates)));
}

#[test]
fn a_penalty_at_the_threshold_is_accepted() {
    let at = Fixed(ValidationResult { success: true, elapsed_ms: 200, output_size: 100, stderr: String::new() });
    let above = Fixed(ValidationResult { success: true, elapsed_ms: 201, output_size: 100, stderr: String::new() });
    let mut host = Host::new("any\n");
    assert!(repair_with(&mut host, &with_threshold(100.0), &patches(&["x"]), &at).is_ok());
    assert!(repair_with(&mut host, &with_threshold(100.0), &patches(&["x"]), &above).is_err());
    assert!(repair_with(&mut host, &with_threshold(f64::NAN), &patches(&["x"]), &at).is_err());
}

#[test]
fn a_repair_that_is_over_stays_over() {
    let config = SelfHealingConfig::default();
    let repair = Repair::new(patches(&["x"]).patches, &config);
    let repair = repair.step(Event::Failed(RouterError::Message("panic".into())));
    let repair = repair.step(Event::Done);
    match repair.outcome("a", "b", "c") {
        Some(Err(error)) => assert_eq!(error.describe(""), "router error: panic"),
        _ => panic!("expected the error"),
    }
    assert!(Repair::new(patches(&["x"]).patches, &config).outcome("a", "b", "c").is_none());
}

#[test]
fn defaults_are_the_documented_ones() {
    let config = SelfHealingConfig::default();
    assert_eq!(f64::from_bits(config.weights.w_time), 1.0);
    assert_eq!(f64::from_bits(config.weights.w_size), 0.001);
    assert_eq!(f64::from_bits(config.penalty_threshold), 1000.0);
    assert_eq!(config.max_retries, 3);
    assert_eq!(f64::from_bits(PenaltyWeights::default().w_size), 0.001);
}

#[test]
fn errors_are_described() {
    assert_eq!(RouterError::Io("disk".into()).describe(""), "router I/O error: disk");
    assert_eq!(RouterError::NoCandidates.describe(""), "no repair candidates were generated");
    let fault = RouterError::Virtualizer(VirtualizerError::SystemFault("mount".into()));
    assert_eq!(fault.describe(""), "router virtualizer error: virtualizer system fault: mount");
    let failed = RouterError::ValidationFailed { reason: "bad".into(), penalty: 1.5f64.to_bits() };
    assert_eq!(failed.describe("1.50"), "validation failed (penalty=1.50): bad");
}

#[test]
fn the_root_cause_has_a_name() {
    let graph = graph();
    assert_eq!(root_cause_name(Some(0), &graph), "demo");
    assert_eq!(root_cause_name(Some(1), &graph), "unknown");
    assert_eq!(root_cause_name(None, &graph), "unknown");
}

#[test]
fn overlay_names_are_unique() {
    assert_eq!(environment_name(12, 345, 6, 0), "aero_self_heal_12_345_6_0");
    assert_ne!(environment_name(1, 23, 4, 5), environment_name(12, 3, 4, 5));
    assert_ne!(environment_name(1, 2, 3, 4), environment_name(1, 2, 4, 4));
    assert_eq!(
        environment_name(u32::MAX, u128::MAX, 0, 10),
        "aero_self_heal_4294967295_340282366920938463463374607431768211455_0_10"
    );
}

#[test]
fn a_purge_goes_on_within_its_budget() {
    assert!(matches!(purge_round(0, 10, &vec![true, false, true]), PurgeStep::Remove(places) if places == vec![0, 2]));
    assert!(matches!(purge_round(9, 10, &vec![false]), PurgeStep::Remove(places) if places.is_empty()));
    assert!(matches!(purge_round(10, 10, &vec![true]), PurgeStep::Stop));
    assert!(matches!(purge_rest(&vec![false, false]), PurgeStep::Stop));
    assert!(matches!(purge_rest(&vec![false, true]), PurgeStep::Wait));
}

#[test]
fn environments_share_no_directory_but_the_lower_one() {
    let env = make_env(b"/host", b"/tmp", b'/', 12, 345, 6, 0);
    assert_eq!(env.lower_dir, b"/host");
    assert_eq!(env.upper_dir, b"/tmp/aero_self_heal_12_345_6_0/upper");
    assert_eq!(env.merged_dir, b"/tmp/aero_self_heal_12_345_6_0/merged");
    assert_eq!(env.work_dir, b"/tmp/aero_self_heal_12_345_6_0/work");
    let other = make_env(b"/host", b"/tmp", b'/', 12, 345, 7, 0);
    let mut all = vec![
        env.upper_dir, env.merged_dir, env.work_dir, other.upper_dir, other.merged_dir, other.work_dir,
    ];
    all.sort();
    all.dedup();
    assert_eq!(all.len(), 6);
    assert_eq!(other.lower_dir, b"/host");
}

fn target_of(parts: &[&str]) -> Option<Vec<String>> {
    let parts: Vec<Vec<u8>> = parts.iter().map(|part| part.as_bytes().to_vec()).collect();
    patch_target(&parts).map(|found| found.into_iter().map(|part| String::from_utf8(part).unwrap()).collect())
}

#[test]
fn a_patch_stays_below_the_upper_layer() {
    let path = |list: &[&str]| -> Option<Vec<String>> { Some(list.iter().map(|part| part.to_string()).collect()) };
    assert_eq!(target_of(&["a", "b.txt"]), path(&["a", "b.txt"]));
    assert_eq!(target_of(&[".", "a", "..", "b.txt"]), path(&["b.txt"]));
    assert_eq!(target_of(&["...", ".b"]), path(&["...", ".b"]));
    assert_eq!(target_of(&["/", "etc", "passwd"]), None);
    assert_eq!(target_of(&["..", "b.txt"]), None);
    assert_eq!(target_of(&["a", "..", "..", "b.txt"]), None);
    assert_eq!(target_of(&["a", ".."]), None);
    assert_eq!(target_of(&["a", ""]), None);
    assert_eq!(target_of(&[]), None);
}
