use std::collections::HashMap;

use aero_mitosis::diagnostics::causal_gradient::{
    upstream_distances, CausalGradientAnalyzer, CausalReport, CompilerFailure,
};
use aero_mitosis::diagnostics::ffi_normalizer::{
    normalize, signal_name, stack_size, watched_signals, SignalNumbers,
};
use aero_mitosis::float_bits::{at_most, sanitize};
use aero_mitosis::scm::graph::{DependencyType, NodeType, SCMNode, StructuralCausalGraph};

fn make_node(graph: &mut StructuralCausalGraph, name: &str) -> usize {
    graph.add_node(SCMNode {
        id: 0,
        name: name.into(),
        path: Default::default(),
        language: "rust".into(),
        node_type: NodeType::Package,
    })
}

fn norm(values: &Vec<f64>) -> f64 {
    let sum: f64 = values
        .iter()
        .map(|v| f64::from_bits(sanitize(v.to_bits())))
        .map(|v| v * v)
        .sum();
    if sum.is_finite() {
        sum.sqrt()
    } else {
        f64::MAX
    }
}

fn diagnose(
    failure: &CompilerFailure,
    graph: &StructuralCausalGraph,
    deltas: &HashMap<usize, Vec<f64>>,
) -> CausalReport {
    CausalGradientAnalyzer::diagnose(failure, graph, deltas, |delta: &Vec<f64>, distance: usize| {
        (norm(delta) / (distance as f64 + 1.0)).to_bits()
    })
}

fn score(report: &CausalReport, node: usize) -> f64 {
    f64::from_bits(report.gradient_scores[&node])
}

fn failure(node_id: Option<usize>, message: &str, exit_code: i32) -> CompilerFailure {
    CompilerFailure { node_id, message: message.into(), exit_code: Some(exit_code) }
}

#[test]
fn root_cause_is_upstream_dependency() {
    let mut graph = StructuralCausalGraph::new();
    let lib = graph.add_node(SCMNode {
        id: 0,
        name: "lib".into(),
        path: Default::default(),
        language: "rust".into(),
        node_type: NodeType::Package,
    });
    let app = graph.add_node(SCMNode {
        id: 0,
        name: "app".into(),
        path: Default::default(),
        language: "rust".into(),
        node_type: NodeType::Package,
    });
    graph.add_edge(app, lib, DependencyType::Compile);

    let mut deltas = HashMap::new();
    deltas.insert(lib, vec![0.0, 3.0, 1.0]);
    deltas.insert(app, vec![0.0, 0.5, 0.0]);

    let report = diagnose(&failure(Some(app), "type mismatch", 101), &graph, &deltas);
    assert_eq!(report.root_cause_node, Some(lib));
    assert!(score(&report, lib) > score(&report, app));
}

#[test]
fn causal_gradient_root_cause_is_upstream_dependency() {
    let mut graph = StructuralCausalGraph::new();
    let lib = make_node(&mut graph, "lib");
    let app = make_node(&mut graph, "app");
    graph.add_edge(app, lib, DependencyType::Compile);

    let mut deltas = HashMap::new();
    deltas.insert(lib, vec![0.0, 3.0, 1.0]);
    deltas.insert(app, vec![0.0, 0.5, 0.0]);

    let failure = CompilerFailure {
        node_id: Some(app),
        message: "type mismatch".into(),
        exit_code: Some(101),
    };

    let report = diagnose(&failure, &graph, &deltas);
    assert_eq!(report.root_cause_node, Some(lib));
    assert!(score(&report, lib) > score(&report, app));
}

#[test]
fn two_independent_failures_are_ranked() {
    let mut graph = StructuralCausalGraph::new();
    let a = make_node(&mut graph, "a");
    let b = make_node(&mut graph, "b");
    let fail = make_node(&mut graph, "fail");

    graph.add_edge(fail, a, DependencyType::Compile);
    graph.add_edge(fail, b, DependencyType::Compile);

    let mut deltas = HashMap::new();
    deltas.insert(a, vec![10.0, 0.0, 0.0]);
    deltas.insert(b, vec![5.0, 0.0, 0.0]);

    let report = diagnose(&failure(Some(fail), "error", 1), &graph, &deltas);
    assert_eq!(report.root_cause_node, Some(a));
    assert!(score(&report, a) > score(&report, b));
    assert!(score(&report, b) > 0.0);
}

#[test]
fn missing_failure_node_produces_empty_report() {
    let mut graph = StructuralCausalGraph::new();
    let a = make_node(&mut graph, "a");

    let mut deltas = HashMap::new();
    deltas.insert(a, vec![1.0, 2.0, 3.0]);

    let report = diagnose(&failure(Some(999), "unknown", 1), &graph, &deltas);
    assert!(report.gradient_scores.is_empty());
    assert!(report.root_cause_node.is_none());
    assert!(report.explanation.contains("not present"));
    assert_eq!(
        report.explanation,
        "Failure node 999 is not present in the causal graph; no gradient computed."
    );
}

#[test]
fn all_zero_deltas_yield_zero_scores() {
    let mut graph = StructuralCausalGraph::new();
    let a = make_node(&mut graph, "a");
    let b = make_node(&mut graph, "b");
    graph.add_edge(b, a, DependencyType::Compile);

    let mut deltas = HashMap::new();
    deltas.insert(a, vec![0.0, 0.0, 0.0]);
    deltas.insert(b, vec![0.0, 0.0, 0.0]);

    let report = diagnose(&failure(Some(b), "fail", 1), &graph, &deltas);
    assert!(report.gradient_scores.values().all(|&s| f64::from_bits(s) == 0.0));
    assert!(report.root_cause_node.is_none());
}

#[test]
fn negative_deltas_are_clamped_to_zero() {
    let mut graph = StructuralCausalGraph::new();
    let a = make_node(&mut graph, "a");

    let mut deltas = HashMap::new();
    deltas.insert(a, vec![-2.0, -3.0, -4.0]);

    let report = diagnose(&failure(Some(a), "fail", 1), &graph, &deltas);
    assert_eq!(score(&report, a), 0.0);
    assert!(report.root_cause_node.is_none());
}

#[test]
fn large_graph_distance_is_correct() {
    let mut graph = StructuralCausalGraph::new();
    let mut prev = make_node(&mut graph, "n0");
    for i in 1..1000 {
        let next = make_node(&mut graph, &format!("n{i}"));
        graph.add_edge(next, prev, DependencyType::Compile);
        prev = next;
    }

    let failure_id = prev;
    let mut deltas = HashMap::new();
    deltas.insert(0, vec![1.0, 0.0, 0.0]);

    let report = diagnose(&failure(Some(failure_id), "fail", 1), &graph, &deltas);
    // Distance from the failing node back to node 0 is 999 edges.
    let expected = 1.0 / 1000.0;
    assert!((score(&report, 0) - expected).abs() < 1e-12);
    assert_eq!(upstream_distances(&graph, failure_id)[&0], 999);
}

#[test]
fn nan_and_inf_values_do_not_panic() {
    let mut graph = StructuralCausalGraph::new();
    let a = make_node(&mut graph, "a");
    let b = make_node(&mut graph, "b");
    graph.add_edge(b, a, DependencyType::Compile);

    let mut deltas = HashMap::new();
    deltas.insert(a, vec![f64::NAN, f64::INFINITY, f64::NEG_INFINITY]);

    let report = diagnose(&failure(Some(b), "fail", 1), &graph, &deltas);
    assert!(!score(&report, a).is_nan());
    assert!(score(&report, a) >= 0.0);
}

#[test]
fn unreachable_changes_score_zero() {
    let mut graph = StructuralCausalGraph::new();
    let a = make_node(&mut graph, "a");
    let b = make_node(&mut graph, "b");
    let c = make_node(&mut graph, "c");
    graph.add_edge(a, b, DependencyType::Compile);

    let mut deltas = HashMap::new();
    deltas.insert(a, vec![1.0]);
    deltas.insert(b, vec![1.0]);
    deltas.insert(c, vec![100.0]);

    let report = diagnose(&failure(Some(a), "fail", 1), &graph, &deltas);
    assert_eq!(score(&report, c), 0.0);
    assert_eq!(score(&report, a), 1.0);
    assert_eq!(score(&report, b), 0.5);
    assert_eq!(report.root_cause_node, Some(a));
    assert_eq!(
        report.explanation,
        "Node 0 has the strongest causal gradient relative to failure 0."
    );
}

#[test]
fn without_a_failing_node_nothing_is_to_blame() {
    let mut graph = StructuralCausalGraph::new();
    let a = make_node(&mut graph, "a");
    let mut deltas = HashMap::new();
    deltas.insert(a, vec![1.0]);
    let report = diagnose(&failure(None, "fail", 1), &graph, &deltas);
    assert_eq!(report.root_cause_node, None);
    assert_eq!(score(&report, a), 0.0);
    assert_eq!(report.explanation, "No AST deltas were available to compute a causal gradient.");
}

#[test]
fn an_infinite_score_is_no_cause() {
    let mut graph = StructuralCausalGraph::new();
    let a = make_node(&mut graph, "a");
    let mut deltas = HashMap::new();
    deltas.insert(a, ());
    let report = CausalGradientAnalyzer::diagnose(
        &failure(Some(a), "fail", 1),
        &graph,
        &deltas,
        |_: &(), _: usize| f64::INFINITY.to_bits(),
    );
    assert_eq!(report.root_cause_node, None);
}

#[test]
fn distances_are_the_shortest() {
    let mut graph = StructuralCausalGraph::new();
    let a = make_node(&mut graph, "a");
    let b = make_node(&mut graph, "b");
    let c = make_node(&mut graph, "c");
    let d = make_node(&mut graph, "d");
    graph.add_edge(a, b, DependencyType::Compile);
    graph.add_edge(b, c, DependencyType::Runtime);
    graph.add_edge(a, c, DependencyType::Dev);
    graph.add_edge(d, a, DependencyType::Compile);
    let distances = upstream_distances(&graph, a);
    assert_eq!(distances.len(), 3);
    assert_eq!(distances[&a], 0);
    assert_eq!(distances[&b], 1);
    assert_eq!(distances[&c], 1);
}

#[test]
fn bit_patterns_compare_like_numbers() {
    let numbers = [
        f64::NEG_INFINITY,
        -1.5,
        -f64::MIN_POSITIVE,
        -0.0,
        0.0,
        1e-300,
        1.0,
        1000.0,
        f64::MAX,
        f64::INFINITY,
        f64::NAN,
    ];
    for a in numbers {
        for b in numbers {
            assert_eq!(at_most(a.to_bits(), b.to_bits()), a <= b, "{a} <= {b}");
        }
    }
}

#[test]
fn values_are_sanitized() {
    assert_eq!(f64::from_bits(sanitize(f64::NAN.to_bits())), f64::MAX);
    assert_eq!(f64::from_bits(sanitize((-f64::NAN).to_bits())), f64::MAX);
    assert_eq!(f64::from_bits(sanitize(f64::INFINITY.to_bits())), f64::MAX);
    assert_eq!(f64::from_bits(sanitize(f64::NEG_INFINITY.to_bits())), 0.0);
    assert_eq!(f64::from_bits(sanitize((-3.5f64).to_bits())), 0.0);
    assert_eq!(f64::from_bits(sanitize(3.5f64.to_bits())), 3.5);
}

fn numbers() -> SignalNumbers {
    SignalNumbers { segv: 11, bus: 7, ill: 4, fpe: 8, abrt: 6, usr1: 10, usr2: 12 }
}

#[test]
fn signals_have_names() {
    let known = Some(numbers());
    assert_eq!(signal_name(&known, 11), "SIGSEGV");
    assert_eq!(signal_name(&known, 7), "SIGBUS");
    assert_eq!(signal_name(&known, 4), "SIGILL");
    assert_eq!(signal_name(&known, 8), "SIGFPE");
    assert_eq!(signal_name(&known, 6), "SIGABRT");
    assert_eq!(signal_name(&known, 10), "SIGUSR1");
    assert_eq!(signal_name(&known, 12), "SIGUSR2");
    assert_eq!(signal_name(&known, 15), "SIG15");
    assert_eq!(signal_name(&known, -3), "SIG-3");
    assert_eq!(signal_name(&None, 11), "UNKNOWN");
    assert_eq!(watched_signals(&numbers()), vec![11, 7, 4, 8, 6, 10, 12]);
}

#[test]
fn a_crash_is_normalized() {
    let crash = normalize(&Some(numbers()), 10, 0xdead_beef, Some("0: main\n1: start\n"), 5, 99);
    assert_eq!(crash.signal, "SIGUSR1");
    assert_eq!(crash.signal_number, 10);
    assert_eq!(crash.fault_address, Some("0xdeadbeef".to_string()));
    assert_eq!(crash.backtrace_frames, vec!["0: main", "1: start"]);
    assert_eq!(crash.thread_id, 5);
    assert_eq!(crash.timestamp_seconds, 99);

    let quiet = normalize(&Some(numbers()), 10, 0, None, 5, 99);
    assert_eq!(quiet.fault_address, None);
    assert!(quiet.backtrace_frames.is_empty());
}

#[test]
fn the_signal_stack_is_large_enough() {
    assert_eq!(stack_size(8192), 131072);
    assert_eq!(stack_size(1 << 20), 1 << 20);
}
