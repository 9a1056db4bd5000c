use aero_mitosis::pipeline::restore::{
    broken_file, extract_py_path, history_content, history_name, names_missing_tool, relative_to, restoring,
};
use aero_mitosis::pipeline::run::{
    build_bands, buildable_units, check_repository, lower_dir, plan_run, repair_root, sandbox_name, Plan, Run,
    UnitEvent, UnitOutcome, UnitRun, UnitStage, EXIT_SUCCESS, EXIT_USER_ERROR,
};
use aero_mitosis::pipeline::validation::{
    build_plan, command_outcome, command_timeout, summarize, truncate, without_build, BuildPlan, CommandOutcome, Manifests,
};
use aero_mitosis::scheduler::wavefront::CompilationUnit;
use aero_mitosis::scm::graph::{DependencyType, NodeType, StructuralCausalGraph};
use aero_mitosis::self_healing::router::{RouterError, ValidationResult};

fn unit(id: usize, name: &str, language: &str, dependencies: Vec<usize>) -> CompilationUnit {
    CompilationUnit { id, name: name.into(), language: language.into(), dependencies }
}

fn ids(bands: &[Vec<CompilationUnit>]) -> Vec<Vec<usize>> {
    bands.iter().map(|band| band.iter().map(|u| u.id).collect()).collect()
}

#[test]
fn a_repository_has_to_be_a_directory() {
    assert_eq!(
        check_repository(false, false, "/r"),
        Some("[ERROR] repository path does not exist: /r".to_string())
    );
    assert_eq!(
        check_repository(true, false, "/r"),
        Some("[ERROR] repository path is not a directory: /r".to_string())
    );
    assert_eq!(check_repository(true, true, "/r"), None);
}

#[test]
fn templates_and_external_packages_are_not_built() {
    let units = vec![
        unit(0, "a", "rust", vec![]),
        unit(1, "serde", "", vec![]),
        unit(2, "{crate_name}", "rust", vec![]),
        unit(3, "b", "go", vec![]),
    ];
    let kept: Vec<usize> = buildable_units(units).iter().map(|u| u.id).collect();
    assert_eq!(kept, vec![0, 3]);
}

#[test]
fn dependencies_that_are_not_built_do_not_count() {
    let units = vec![unit(4, "a", "rust", vec![1, 7]), unit(7, "b", "rust", vec![1]), unit(9, "c", "rust", vec![4, 7])];
    assert_eq!(ids(&build_bands(&units)), vec![vec![7], vec![4], vec![9]]);
    assert!(build_bands(&[]).is_empty());
}

#[test]
fn a_run_builds_what_a_graph_holds() {
    let mut graph = StructuralCausalGraph::new();
    let app = graph.ensure_node("app", NodeType::Package, "rust", b"/r/app");
    let lib = graph.ensure_node("lib", NodeType::Package, "rust", b"/r/lib");
    let serde = graph.ensure_node("serde", NodeType::External, "", b"/r/app");
    graph.add_edge(app, lib, DependencyType::Compile);
    graph.add_edge(app, serde, DependencyType::Compile);
    let mut run = planned(&graph);
    assert_eq!(run.exit_code(), None);
    let (band, unit) = run.current().unwrap();
    assert_eq!((band, unit.id), (0, lib));
    run.step(UnitOutcome::Built);
    let (band, unit) = run.current().unwrap();
    assert_eq!((band, unit.id), (1, app));
    run.step(UnitOutcome::Built);
    assert!(run.current().is_none());
    assert_eq!(run.exit_code(), Some(EXIT_SUCCESS));
}

fn planned(graph: &StructuralCausalGraph) -> Run {
    match plan_run(graph) {
        Plan::Build(run) => run,
        _ => panic!("expected something to build"),
    }
}

#[test]
fn a_run_that_passes_over_a_unit_is_no_success() {
    let bands = vec![vec![unit(0, "a", "rust", vec![])], vec![unit(1, "b", "rust", vec![0])]];
    let mut run = Run::new(&bands);
    run.step(UnitOutcome::Skipped);
    assert_eq!(run.current().unwrap().1.id, 1);
    run.step(UnitOutcome::Built);
    assert!(run.current().is_none());
    assert_eq!(run.exit_code(), Some(EXIT_USER_ERROR));
    let mut run = Run::new(&bands);
    run.step(UnitOutcome::Skipped);
    run.step(UnitOutcome::TimedOut);
    assert_eq!(run.exit_code(), Some(2));
}

#[test]
fn nothing_to_build_is_told_from_a_cycle() {
    let empty = StructuralCausalGraph::new();
    assert!(matches!(plan_run(&empty), Plan::Nothing));
    assert_eq!(plan_run(&empty).exit_code(), Some(EXIT_SUCCESS));

    let mut graph = StructuralCausalGraph::new();
    let a = graph.ensure_node("a", NodeType::External, "", b"");
    let b = graph.ensure_node("{crate_name}", NodeType::Package, "rust", b"");
    graph.add_edge(a, b, DependencyType::Compile);
    graph.add_edge(b, a, DependencyType::Compile);
    assert!(matches!(plan_run(&graph), Plan::Nothing));

    let c = graph.ensure_node("c", NodeType::Package, "go", b"/r/c");
    assert!(matches!(plan_run(&graph), Plan::Cycle));
    assert_eq!(plan_run(&graph).exit_code(), Some(EXIT_USER_ERROR));

    let mut graph = StructuralCausalGraph::new();
    let d = graph.ensure_node("d", NodeType::Package, "go", b"/r/d");
    assert_eq!(c, 2);
    assert!(matches!(plan_run(&graph), Plan::Build(_)));
    assert_eq!(plan_run(&graph).exit_code(), None);
    graph.add_edge(d, d, DependencyType::Dev);
    assert!(matches!(plan_run(&graph), Plan::Cycle));
}

#[test]
fn a_repair_works_in_the_sandbox() {
    assert_eq!(repair_root(b"/tmp/x", b'/'), b"/tmp/x/baseline");
    assert_eq!(repair_root(b"C:\\t", b'\\'), b"C:\\t\\baseline");
}

#[test]
fn a_run_stops_at_the_first_failure() {
    for outcome in [UnitOutcome::Unhealed, UnitOutcome::Failed, UnitOutcome::TimedOut] {
        let bands = vec![vec![unit(0, "a", "rust", vec![])], vec![unit(1, "b", "rust", vec![0])]];
        let mut run = Run::new(&bands);
        run.step(outcome);
        assert!(run.current().is_none());
        assert_eq!(run.exit_code(), Some(2));
    }
}

#[test]
fn a_unit_is_built_where_its_package_stands() {
    let mut graph = StructuralCausalGraph::new();
    graph.ensure_node("a", NodeType::Package, "rust", b"/r/a");
    graph.ensure_node("b", NodeType::Package, "rust", b"");
    assert_eq!(lower_dir(&graph, 0, b"/r"), b"/r/a");
    assert_eq!(lower_dir(&graph, 1, b"/r"), b"/r");
    assert_eq!(lower_dir(&graph, 2, b"/r"), b"/r");
}

#[test]
fn sandbox_names_hold_no_separators() {
    assert_eq!(sandbox_name(1, 22, 3, "a/b\\c"), "aero_mitosis_1_22_3_a_b_c");
    assert_ne!(sandbox_name(1, 2, 31, "a"), sandbox_name(1, 23, 1, "a"));
    assert_ne!(sandbox_name(1, 2, 3, "a"), sandbox_name(1, 2, 4, "a"));
}

fn validation(success: bool) -> ValidationResult {
    ValidationResult { success, elapsed_ms: 1, output_size: 2, stderr: "err".into() }
}

#[test]
fn a_unit_that_validates_is_built() {
    let run = UnitRun::new(3).step(UnitEvent::Done).step(UnitEvent::Done);
    assert!(matches!(run.stage, UnitStage::Validate));
    let run = run.step(UnitEvent::Validated(validation(true)));
    assert!(matches!(run.stage, UnitStage::Teardown(true)));
    let run = run.step(UnitEvent::Failed(RouterError::NoCandidates)).step(UnitEvent::Done);
    assert!(matches!(run.stage, UnitStage::Finished(true)));
}

#[test]
fn a_unit_that_fails_is_repaired() {
    for committed in [true, false] {
        let run = UnitRun::new(3)
            .step(UnitEvent::Done)
            .step(UnitEvent::Done)
            .step(UnitEvent::Validated(validation(false)));
        match &run.stage {
            UnitStage::Duplicate(failure) => {
                assert_eq!(failure.node_id, Some(3));
                assert_eq!(failure.message, "err");
                assert_eq!(failure.exit_code, None);
            }
            other => panic!("{other:?}"),
        }
        let run = run.step(UnitEvent::Done);
        assert!(matches!(&run.stage, UnitStage::Repair(failure) if failure.message == "err"));
        let run = run.step(UnitEvent::Repaired(committed)).step(UnitEvent::Done).step(UnitEvent::Done);
        assert!(matches!(run.stage, UnitStage::Finished(built) if built == committed));
    }
}

#[test]
fn a_sandbox_that_cannot_be_mounted_fails_the_unit() {
    let error = || UnitEvent::Failed(RouterError::Message("no".into()));
    assert!(matches!(UnitRun::new(0).step(error()).stage, UnitStage::Failed(_)));
    let mounted = UnitRun::new(0).step(UnitEvent::Done);
    assert!(matches!(mounted.step(error()).step(UnitEvent::Done).stage, UnitStage::Failed(_)));
    let validating = UnitRun::new(0).step(UnitEvent::Done).step(UnitEvent::Done);
    assert!(matches!(validating.step(error()).stage, UnitStage::Failed(_)));
}

#[test]
fn a_package_that_cannot_be_copied_is_not_repaired() {
    let run = UnitRun::new(0)
        .step(UnitEvent::Done)
        .step(UnitEvent::Done)
        .step(UnitEvent::Validated(validation(false)))
        .step(UnitEvent::Failed(RouterError::Message("disk full".into())));
    assert!(matches!(run.stage, UnitStage::Teardown(false)));
    let run = run.step(UnitEvent::Done);
    assert!(matches!(run.stage, UnitStage::Remove(false)));
    let run = run.step(UnitEvent::Failed(RouterError::Message("busy".into())));
    assert!(matches!(run.stage, UnitStage::Finished(false)));
}

fn commands(plan: BuildPlan) -> Vec<String> {
    match plan {
        BuildPlan::Commands(commands) => commands.iter().map(|c| c.join(" ")).collect(),
        other => panic!("{other:?}"),
    }
}

#[test]
fn builds_follow_the_manifests() {
    let found = |cargo, pyproject, setup| Manifests { cargo, pyproject, setup };
    assert_eq!(
        commands(build_plan(&found(true, false, false), Some("[package]"), 600)),
        vec!["timeout 600 cargo build"]
    );
    assert_eq!(commands(build_plan(&found(true, false, false), None, 5)), vec!["timeout 5 cargo build"]);
    assert_eq!(
        commands(build_plan(&found(true, true, false), Some("{crate_name}"), 7)),
        vec![
            "timeout 7 pip3 install -e . --no-deps --no-build-isolation",
            "timeout 7 python3 -m compileall ."
        ]
    );
    assert_eq!(
        commands(build_plan(&found(false, true, true), None, 7)),
        vec!["timeout 7 python3 setup.py build", "timeout 7 python3 -m compileall ."]
    );
}

#[test]
fn templates_pass_and_unknown_packages_do_not() {
    let cargo = Manifests { cargo: true, pyproject: false, setup: false };
    for content in ["name = \"{crate_name}\"", "{extra_deps}"] {
        let plan = build_plan(&cargo, Some(content), 1);
        assert!(matches!(plan, BuildPlan::Template));
        let result = without_build(&plan, 55).unwrap();
        assert!(result.success);
        assert_eq!((result.elapsed_ms, result.output_size), (0, 0));
        assert_eq!(result.stderr, "");
    }
    let none = Manifests { cargo: false, pyproject: false, setup: false };
    let plan = build_plan(&none, None, 1);
    let result = without_build(&plan, 55).unwrap();
    assert!(!result.success);
    assert_eq!(result.elapsed_ms, 55);
    assert_eq!(result.stderr, "no recognizable build manifest found");
    assert_eq!(result.output_size, 36);
    assert!(without_build(&BuildPlan::Commands(vec![]), 1).is_none());
}

#[test]
fn command_time_is_limited() {
    assert_eq!(command_timeout(0), 1);
    assert_eq!(command_timeout(1), 1);
    assert_eq!(command_timeout(600), 600);
    assert_eq!(command_timeout(900), 600);
}

#[test]
fn outputs_are_gathered() {
    let ran = |ok, stdout: &str, stderr: &str| CommandOutcome::Ran { ok, stdout: stdout.into(), stderr: stderr.into() };
    let good = summarize(&vec![ran(true, "a", "b"), ran(true, "c", "")], 9);
    assert!(good.success);
    assert_eq!(good.stderr, "abc");
    assert_eq!(good.output_size, 3);
    assert_eq!(good.elapsed_ms, 9);
    let bad = summarize(&vec![ran(false, "\u{e9}", ""), CommandOutcome::NotStarted("gone".into()), ran(true, "", "z")], 0);
    assert!(!bad.success);
    assert_eq!(bad.stderr, "\u{e9}failed to spawn command: gone\nz");
    assert_eq!(bad.output_size, bad.stderr.len() as u64);
    assert!(summarize(&vec![], 0).success);
    let raw = summarize(&vec![command_outcome(true, b"a\xff", b"b"), command_outcome(false, b"", b"c")], 1);
    assert!(!raw.success);
    assert_eq!(raw.stderr, "a\u{fffd}bc");
}

#[test]
fn long_texts_are_cut() {
    assert_eq!(truncate("hello", 5), "hello");
    assert_eq!(truncate("hello", 4), "hell...");
    assert_eq!(truncate("h\u{e9}llo", 3), "h\u{e9}...");
    assert_eq!(truncate("", 0), "");
    assert_eq!(truncate("abc", 0), "...");
}

#[test]
fn broken_python_files_are_found_in_the_output() {
    let traceback = "Traceback:\n  File \"src/app.py\", line 3\n  File \"other.py\", line 1\n";
    assert_eq!(extract_py_path(traceback), Some("src/app.py".to_string()));
    assert_eq!(extract_py_path("*** File './x/y.py', line 1"), Some("./x/y.py".to_string()));
    assert_eq!(extract_py_path("File \"a.txt\" File 'b.py'"), Some("b.py".to_string()));
    assert_eq!(extract_py_path("File \"a.py,,\""), Some("a.py".to_string()));
    assert_eq!(extract_py_path("File \"a.py"), None);
    assert_eq!(extract_py_path("File \"\nFile \"b.py\"\r\n"), Some("b.py".to_string()));
    assert_eq!(extract_py_path("File \"a.txt\" File \"b.py\""), None);
    assert_eq!(extract_py_path(""), None);
}

#[test]
fn a_missing_tool_is_not_patched() {
    assert!(names_missing_tool("m4: command not found"));
    assert!(!names_missing_tool("m4 failed"));
    for tool in ["gcc", "make", "cmake", "m4", "python3", "pip3"] {
        assert!(names_missing_tool(&format!("configure: error: {tool} not found")));
        assert!(names_missing_tool(&format!("sh: 1: {tool}: not found\n")));
        assert!(!names_missing_tool(&format!("{tool} failed")));
    }
    assert!(names_missing_tool("bash: flex: command not found"));
    assert!(names_missing_tool("/bin/sh: 1: flex: not found"));
    assert!(names_missing_tool("timeout: failed to run command 'cargo': no such file or directory"));
    assert!(names_missing_tool("failed to spawn command: no such file or directory (os error 2)\n"));
    assert!(names_missing_tool("error: linker `cc` not found"));
    assert!(names_missing_tool("error: command 'gcc' failed: no such file or directory"));
    assert!(names_missing_tool("unable to execute 'gcc': no such file or directory"));
    assert!(!names_missing_tool("error: command 'gcc' failed with exit code 1"));
    assert!(names_missing_tool("m4 is needed\nbut not found"));
    assert!(!names_missing_tool("module foo not found"));
    assert!(!names_missing_tool("keyerror: maker not found"));
    assert!(!names_missing_tool("makefile target not found"));
    assert!(!names_missing_tool("/usr/lib/python3/site.py: name not found"));
    assert!(!names_missing_tool("make.py: rule not found"));
    assert!(!names_missing_tool("push: ref: not found"));
    assert!(!names_missing_tool("item4 was not found"));
    assert!(names_missing_tool("x86_64-linux-gnu-gcc not found"));
    assert!(names_missing_tool("/usr/bin/m4: not found"));
    assert_eq!(broken_file("KeyError: maker not found\n  File \"a.py\", line 1"), Some("a.py".to_string()));
    assert!(!names_missing_tool("python3 setup.py build\nkey not found"));
    assert!(!names_missing_tool("no such file or directory: a.py"));
    assert_eq!(broken_file("gcc: command not found\n  File \"setup.py\", line 3\n"), None);
    assert_eq!(
        broken_file("  File \"src/accelerator/config.py\", line 1\nSyntaxError: invalid syntax\n"),
        Some("src/accelerator/config.py".to_string())
    );
    assert_eq!(broken_file("M4: Not Found\nFile \"a.py\""), None);
    assert_eq!(broken_file("M4 broke\nFile \"a.py\""), Some("a.py".to_string()));
}

#[test]
fn a_file_is_restored_from_the_history() {
    assert_eq!(history_name("src/accelerator/config.py"), "HEAD:./src/accelerator/config.py");
    assert_eq!(history_content(true, b"x = 1\n"), Some("x = 1\n".to_string()));
    assert_eq!(history_content(true, b"\xff"), Some("\u{fffd}".to_string()));
    assert_eq!(history_content(false, b"x = 1\n"), None);
    let patches = restoring("src/a.py".into(), Some("x = 1\n".into()));
    assert_eq!(patches.len(), 1);
    assert_eq!(patches[0].path, "src/a.py");
    assert_eq!(patches[0].content, "x = 1\n");
    assert!(restoring("src/a.py".into(), None).is_empty());
}

#[test]
fn absolute_paths_are_taken_from_the_repository() {
    let parts = |list: &[&str]| -> Vec<Vec<u8>> { list.iter().map(|part| part.as_bytes().to_vec()).collect() };
    let repository = parts(&["/", "r", "p"]);
    assert_eq!(relative_to(parts(&["/", "r", "p", "a", "b.py"]), true, &repository), parts(&["a", "b.py"]));
    assert_eq!(relative_to(parts(&["/", "r", "q", "b.py"]), true, &repository), parts(&["/", "r", "q", "b.py"]));
    assert_eq!(relative_to(parts(&["/", "r"]), true, &repository), parts(&["/", "r"]));
    assert_eq!(relative_to(parts(&["a.py"]), false, &parts(&["a.py"])), parts(&["a.py"]));
}
