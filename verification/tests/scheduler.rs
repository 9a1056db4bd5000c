use std::cell::Cell;
use std::collections::HashMap;
use std::collections::HashSet;
use std::rc::Rc;

use aero_mitosis::scheduler::layering::layers;
use aero_mitosis::scheduler::recorder::Recorder;
use aero_mitosis::scheduler::wavefront::{results_in_order, CompilationUnit, WavefrontScheduler};
use aero_mitosis::scheduler::work_stealing::{worker_turn, Stolen, TaskQueue, Turn, WorkStealingPool};
use aero_mitosis::scm::graph::{DependencyType, NodeType, SCMNode, StructuralCausalGraph};

fn make_node(graph: &mut StructuralCausalGraph, name: &str) -> usize {
    graph.add_node(SCMNode {
        id: 0,
        name: name.into(),
        path: Default::default(),
        language: "rust".into(),
        node_type: NodeType::Package,
    })
}

fn unit(id: usize, dependencies: Vec<usize>) -> CompilationUnit {
    CompilationUnit { id, name: format!("u{id}"), language: "rust".into(), dependencies }
}

fn ids(bands: &[Vec<CompilationUnit>]) -> Vec<Vec<usize>> {
    bands.iter().map(|band| band.iter().map(|u| u.id).collect()).collect()
}

#[test]
fn wavefront_runs_in_dependency_order() {
    let mut graph = StructuralCausalGraph::new();
    let a = make_node(&mut graph, "a");
    let b = make_node(&mut graph, "b");
    let c = make_node(&mut graph, "c");

    // c depends on a and b (edges point from dependent to dependency).
    graph.add_edge(c, a, DependencyType::Compile);
    graph.add_edge(c, b, DependencyType::Compile);

    let scheduler = WavefrontScheduler::with_threads(2);
    let order: Vec<usize> = scheduler
        .run(&graph, |unit: &CompilationUnit| unit.name.clone())
        .into_iter()
        .map(|(id, _)| id)
        .collect();

    assert!(
        order.iter().position(|&id| id == c).unwrap() > order.iter().position(|&id| id == a).unwrap()
    );
    assert!(
        order.iter().position(|&id| id == c).unwrap() > order.iter().position(|&id| id == b).unwrap()
    );
}

#[test]
fn empty_graph_yields_empty_bands() {
    let graph = StructuralCausalGraph::new();
    let scheduler = WavefrontScheduler::with_threads(1);
    let results: Vec<(usize, usize)> = scheduler.run(&graph, |_: &CompilationUnit| 1);
    assert!(results.is_empty());
}

#[test]
fn single_node_graph() {
    let mut graph = StructuralCausalGraph::new();
    let n = make_node(&mut graph, "solo");

    let scheduler = WavefrontScheduler::with_threads(1);
    let order: Vec<usize> = scheduler
        .run(&graph, |unit: &CompilationUnit| unit.name.clone())
        .into_iter()
        .map(|(id, _)| id)
        .collect();

    assert_eq!(order, vec![n]);
}

#[test]
fn chain_of_five() {
    let mut graph = StructuralCausalGraph::new();
    let n0 = make_node(&mut graph, "n0");
    let n1 = make_node(&mut graph, "n1");
    let n2 = make_node(&mut graph, "n2");
    let n3 = make_node(&mut graph, "n3");
    let n4 = make_node(&mut graph, "n4");

    graph.add_edge(n1, n0, DependencyType::Compile);
    graph.add_edge(n2, n1, DependencyType::Compile);
    graph.add_edge(n3, n2, DependencyType::Compile);
    graph.add_edge(n4, n3, DependencyType::Compile);

    let scheduler = WavefrontScheduler::with_threads(2);
    let order: Vec<usize> = scheduler
        .run(&graph, |unit: &CompilationUnit| unit.name.clone())
        .into_iter()
        .map(|(id, _)| id)
        .collect();

    assert_eq!(order, vec![n0, n1, n2, n3, n4]);
}

#[test]
fn diamond_graph_bands() {
    let mut graph = StructuralCausalGraph::new();
    let a = make_node(&mut graph, "a");
    let b = make_node(&mut graph, "b");
    let c = make_node(&mut graph, "c");
    let d = make_node(&mut graph, "d");

    // b and c depend on a; d depends on b and c.
    graph.add_edge(b, a, DependencyType::Compile);
    graph.add_edge(c, a, DependencyType::Compile);
    graph.add_edge(d, b, DependencyType::Compile);
    graph.add_edge(d, c, DependencyType::Compile);

    let units = WavefrontScheduler::units_from_graph(&graph);
    let bands = WavefrontScheduler::bands(&units);
    let band_names: Vec<Vec<&str>> = bands
        .iter()
        .map(|band| band.iter().map(|u| u.name.as_str()).collect())
        .collect();

    assert_eq!(band_names, vec![vec!["a"], vec!["b", "c"], vec!["d"]]);
}

#[test]
fn deep_chain_completes() {
    let mut graph = StructuralCausalGraph::new();
    let mut prev = make_node(&mut graph, "n0");
    for i in 1..100 {
        let next = make_node(&mut graph, &format!("n{i}"));
        graph.add_edge(next, prev, DependencyType::Compile);
        prev = next;
    }

    let scheduler = WavefrontScheduler::with_threads(4);
    let order: Vec<usize> = scheduler
        .run(&graph, |unit: &CompilationUnit| unit.name.clone())
        .into_iter()
        .map(|(id, _)| id)
        .collect();

    assert_eq!(order.len(), 100);
    for (i, &id) in order.iter().enumerate() {
        assert_eq!(id, i);
    }
}

#[test]
fn large_graph_does_not_stack_overflow() {
    let mut graph = StructuralCausalGraph::new();
    let root = make_node(&mut graph, "root");
    for i in 0..10_000 {
        let leaf = make_node(&mut graph, &format!("leaf_{i}"));
        graph.add_edge(leaf, root, DependencyType::Compile);
    }

    let units = WavefrontScheduler::units_from_graph(&graph);
    let bands = WavefrontScheduler::bands(&units);

    assert_eq!(bands.len(), 2);
    assert_eq!(bands[0].len(), 1);
    assert_eq!(bands[1].len(), 10_000);
}

#[test]
fn self_cycle_produces_empty_bands() {
    let mut graph = StructuralCausalGraph::new();
    let a = make_node(&mut graph, "a");
    graph.add_edge(a, a, DependencyType::Compile);

    let units = WavefrontScheduler::units_from_graph(&graph);
    assert!(units.is_empty());
}

#[test]
fn three_node_cycle_produces_empty_bands() {
    let mut graph = StructuralCausalGraph::new();
    let a = make_node(&mut graph, "a");
    let b = make_node(&mut graph, "b");
    let c = make_node(&mut graph, "c");

    graph.add_edge(a, b, DependencyType::Compile);
    graph.add_edge(b, c, DependencyType::Compile);
    graph.add_edge(c, a, DependencyType::Compile);

    let units = WavefrontScheduler::units_from_graph(&graph);
    assert!(units.is_empty());
}

#[test]
fn node_waits_for_all_predecessors() {
    let mut graph = StructuralCausalGraph::new();
    let a = make_node(&mut graph, "a");
    let b = make_node(&mut graph, "b");
    let c = make_node(&mut graph, "c");
    let d = make_node(&mut graph, "d");

    graph.add_edge(d, a, DependencyType::Compile);
    graph.add_edge(d, b, DependencyType::Compile);
    graph.add_edge(d, c, DependencyType::Compile);

    let scheduler = WavefrontScheduler::with_threads(2);
    let order: Vec<usize> = scheduler
        .run(&graph, |unit: &CompilationUnit| unit.name.clone())
        .into_iter()
        .map(|(id, _)| id)
        .collect();

    let d_pos = order.iter().position(|&id| id == d).unwrap();
    assert!(order.iter().position(|&id| id == a).unwrap() < d_pos);
    assert!(order.iter().position(|&id| id == b).unwrap() < d_pos);
    assert!(order.iter().position(|&id| id == c).unwrap() < d_pos);
}

#[test]
fn zero_and_huge_thread_counts_are_safe() {
    let mut graph = StructuralCausalGraph::new();
    let a = make_node(&mut graph, "a");

    for threads in [0usize, usize::MAX] {
        let scheduler = WavefrontScheduler::with_threads(threads);
        let order: Vec<usize> = scheduler
            .run(&graph, |unit: &CompilationUnit| unit.name.clone())
            .into_iter()
            .map(|(id, _)| id)
            .collect();
        assert_eq!(order, vec![a]);
    }
}

/// A small generator of numbers, so that the cases below are the same each time.
fn next(seed: &mut u64) -> u64 {
    *seed = seed.wrapping_mul(6364136223846793005).wrapping_add(1442695040888963407);
    *seed >> 33
}

#[test]
fn wavefront_bands_are_valid() {
    let mut seed: u64 = 7;
    for _ in 0..32 {
        let node_count = 1 + (next(&mut seed) % 29) as usize;
        let mut graph = StructuralCausalGraph::new();
        let mut nodes: Vec<usize> = Vec::new();
        for i in 0..node_count {
            nodes.push(make_node(&mut graph, &format!("n{i}")));
        }
        for _ in 0..(next(&mut seed) % 60) {
            let from = 1 + (next(&mut seed) % 29) as usize;
            let to = (next(&mut seed) % 30) as usize;
            if from < node_count && to < node_count && to < from {
                graph.add_edge(nodes[from], nodes[to], DependencyType::Compile);
            }
        }

        let units = WavefrontScheduler::units_from_graph(&graph);
        let bands = WavefrontScheduler::bands(&units);

        let mut seen = HashSet::new();
        for band in &bands {
            for unit in band {
                assert!(seen.insert(unit.id), "node {} appears in multiple bands", unit.id);
            }
        }
        assert_eq!(seen.len(), units.len());

        let mut band_index: HashMap<usize, usize> = HashMap::new();
        for (i, band) in bands.iter().enumerate() {
            for unit in band {
                band_index.insert(unit.id, i);
            }
        }
        for unit in &units {
            for dep in &unit.dependencies {
                assert!(band_index[dep] < band_index[&unit.id]);
            }
        }
    }
}

#[test]
fn zero_threads_clamped_to_one() {
    let pool = WorkStealingPool::new(0);
    assert_eq!(pool.thread_count(), 1);
}

#[test]
fn huge_thread_count_is_clamped_without_panic() {
    let pool = WorkStealingPool::new(usize::MAX);
    assert!(pool.thread_count() > 0);
    assert!(pool.thread_count() <= 256);
}

#[test]
fn ordinary_thread_counts_are_kept() {
    assert_eq!(WorkStealingPool::new(1).thread_count(), 1);
    assert_eq!(WorkStealingPool::new(256).thread_count(), 256);
    assert_eq!(WorkStealingPool::new(257).thread_count(), 256);
    assert_eq!(WorkStealingPool::default_threads(Some(8)).thread_count(), 8);
    assert_eq!(WorkStealingPool::default_threads(None).thread_count(), 1);
    assert_eq!(WavefrontScheduler::new(Some(3)).pool.thread_count(), 3);
}

#[test]
fn a_pool_that_was_shut_down_has_no_workers() {
    let mut pool = WorkStealingPool::new(4);
    pool.shutdown();
    assert_eq!(pool.thread_count(), 0);
    assert!(!pool.running);
}

#[test]
fn workers_leave_only_an_empty_queue_of_a_stopped_pool() {
    assert!(matches!(worker_turn(Stolen::Task(7), true), Turn::Run(7)));
    assert!(matches!(worker_turn(Stolen::Task(7), false), Turn::Run(7)));
    assert!(matches!(worker_turn(Stolen::<u8>::Nothing, true), Turn::Yield));
    assert!(matches!(worker_turn(Stolen::<u8>::Nothing, false), Turn::Exit));
    assert!(matches!(worker_turn(Stolen::<u8>::Contended, true), Turn::Yield));
    assert!(matches!(worker_turn(Stolen::<u8>::Contended, false), Turn::Yield));
}

type Task = Box<dyn FnOnce()>;

/// Work until the pool lets the worker go.
fn work(queue: &TaskQueue<Task>, running: bool) {
    loop {
        match queue.turn(running) {
            Turn::Run(task) => task(),
            Turn::Exit => return,
            Turn::Yield => {}
        }
    }
}

#[test]
fn drop_drains_pending_tasks_gracefully() {
    let mut pool = WorkStealingPool::new(2);
    let queue: TaskQueue<Task> = TaskQueue::new();
    let counter = Rc::new(Cell::new(0));
    for _ in 0..100 {
        let c = Rc::clone(&counter);
        queue.submit(Box::new(move || c.set(c.get() + 1)));
    }
    pool.shutdown();
    work(&queue, pool.running);
    assert_eq!(counter.get(), 100);
}

#[test]
fn shutdown_drops_late_tasks_without_panic() {
    let mut pool = WorkStealingPool::new(2);
    let queue: TaskQueue<Task> = TaskQueue::new();
    let counter = Rc::new(Cell::new(0));
    pool.shutdown();
    work(&queue, pool.running);
    let c = Rc::clone(&counter);
    queue.submit(Box::new(move || c.set(c.get() + 1)));
    drop(queue);
    assert_eq!(counter.get(), 0);
}

#[test]
fn tasks_are_stolen_in_the_order_of_their_submission() {
    let queue: TaskQueue<u32> = TaskQueue::new();
    assert!(matches!(queue.turn(true), Turn::Yield));
    queue.submit(1);
    queue.submit(2);
    assert!(matches!(queue.turn(true), Turn::Run(1)));
    assert!(matches!(queue.turn(false), Turn::Run(2)));
    assert!(matches!(queue.turn(false), Turn::Exit));
}

#[test]
fn units_that_wait_for_strangers_are_left_out() {
    let units = vec![unit(3, vec![]), unit(5, vec![9]), unit(7, vec![3]), unit(8, vec![5])];
    assert_eq!(ids(&WavefrontScheduler::bands(&units)), vec![vec![3], vec![7]]);
}

#[test]
fn a_band_keeps_the_order_in_which_units_became_ready() {
    let units = vec![unit(0, vec![2]), unit(1, vec![]), unit(2, vec![]), unit(3, vec![1])];
    assert_eq!(ids(&WavefrontScheduler::bands(&units)), vec![vec![1, 2], vec![3, 0]]);
}

#[test]
fn results_come_in_the_order_of_the_units() {
    let units = vec![unit(4, vec![]), unit(2, vec![]), unit(9, vec![])];
    let mut results = HashMap::new();
    results.insert(9, "c");
    results.insert(4, "a");
    assert_eq!(results_in_order(&units, results), vec![(4, "a"), (9, "c")]);
}

#[test]
fn a_run_gives_each_unit_its_own_result() {
    let units = vec![unit(1, vec![2]), unit(2, vec![])];
    let scheduler = WavefrontScheduler::with_threads(1);
    let results = scheduler.run_units(&units, |u: &CompilationUnit| u.name.clone());
    assert_eq!(results, vec![(1, "u1".to_string()), (2, "u2".to_string())]);
}

#[test]
fn layers_cut_the_order_at_each_wave() {
    let result = layers(4, &vec![(1, 0), (2, 0), (3, 1), (3, 2)]);
    assert_eq!(result.order, vec![0, 1, 2, 3]);
    assert_eq!(result.ends, vec![1, 3, 4]);
    let cyclic = layers(2, &vec![(0, 1), (1, 0)]);
    assert!(cyclic.order.is_empty());
    assert!(cyclic.ends.is_empty());
}

#[test]
fn work_is_called_once_on_each_unit_and_on_dependencies_first() {
    let units = vec![unit(1, vec![2, 3]), unit(2, vec![3]), unit(3, vec![]), unit(4, vec![])];
    let scheduler = WavefrontScheduler::with_threads(1);
    let called = Rc::new(Cell::new(Vec::new()));
    let seen = Rc::clone(&called);
    let mut recorder = Recorder::new(move |u: &CompilationUnit| {
        let mut list = seen.take();
        list.push(u.id);
        seen.set(list);
        u.id * 10
    });
    let results = scheduler.run_recorded(&units, &mut recorder);
    assert_eq!(results, vec![(1, 10), (2, 20), (3, 30), (4, 40)]);
    assert_eq!(called.take(), vec![3, 4, 2, 1]);
    assert_eq!(recorder.call(&units[1]), 20);
    assert_eq!(called.take(), vec![2]);
}
