use aero_mitosis::scm::graph::{DependencyType, NodeType, SCMNode, StructuralCausalGraph};
use aero_mitosis::scm::ingestion::{reads, skips, Directory, Entry, IngestionEngine, IngestionError};
use aero_mitosis::scm::manifest::{
    parse_cargo_toml, parse_go_mod, parse_pkg_name, parse_pyproject_toml, parse_requirements_txt, Manifest,
};
use aero_mitosis::scm::toml_value::{parse_toml, TomlValue};

fn directory(name: &str, path: &str, entries: Vec<Entry>) -> Directory {
    Directory { name: name.into(), path: path.into(), listing: Ok(entries) }
}

fn file(name: &str, content: &str) -> Entry {
    Entry::File(name.into(), Ok(content.into()))
}

fn names(manifest: &Manifest) -> Vec<(&str, DependencyType)> {
    manifest.dependencies.iter().map(|(name, kind)| (name.as_str(), *kind)).collect()
}

fn has_edge(graph: &StructuralCausalGraph, from: &str, to: &str, kind: DependencyType) -> bool {
    let from = graph.node_by_name(from).unwrap().id;
    let to = graph.node_by_name(to).unwrap().id;
    graph.edges.iter().any(|e| e.from == from && e.to == to && e.dependency_type == kind)
}

const CARGO: &str = r#"
[package]
name = "demo"
version = "0.1.0"
edition = "2021"

[dependencies]
serde = "1"

[dev-dependencies]
tokio = { version = "1", features = ["full"] }
"#;

const PYPROJECT: &str = r#"
[project]
name = "py-demo"
version = "0.1.0"
dependencies = ["requests>=2.28"]
"#;

#[test]
fn discovers_cargo_and_python_deps() {
    let base = directory(
        "base",
        "/base",
        vec![
            Entry::Directory(directory("rust", "/base/rust", vec![file("Cargo.toml", CARGO)])),
            Entry::Directory(directory("py", "/base/py", vec![file("pyproject.toml", PYPROJECT)])),
        ],
    );

    let graph = IngestionEngine::discover(&base).unwrap();
    assert!(graph.node_by_name("demo").is_some());
    assert!(graph.node_by_name("py-demo").is_some());
    assert!(graph.node_by_name("serde").is_some());
    assert!(graph.node_by_name("requests").is_some());

    let demo = graph.node_by_name("demo").unwrap();
    let serde_node = graph.node_by_name("serde").unwrap();
    let has_serde_edge = graph.edges.iter().any(|e| {
        e.from == demo.id && e.to == serde_node.id && e.dependency_type == DependencyType::Compile
    });
    assert!(has_serde_edge);
}

#[test]
fn a_placeholder_becomes_the_package_it_stood_for() {
    let lib = "[package]\nname = \"lib\"\n";
    let app = "[package]\nname = \"app\"\n[dependencies]\nlib = \"1\"\n";
    let base = directory(
        "base",
        "/base",
        vec![
            Entry::Directory(directory("app", "/base/app", vec![file("Cargo.toml", app)])),
            Entry::Directory(directory("lib", "/base/lib", vec![file("Cargo.toml", lib)])),
        ],
    );
    let graph = IngestionEngine::discover(&base).unwrap();
    assert_eq!(graph.nodes.len(), 2);
    let node = graph.node_by_name("lib").unwrap();
    assert_eq!(node.id, 1);
    assert_eq!(node.path, b"/base/lib");
    assert_eq!(node.language, "rust");
    assert_eq!(node.node_type, NodeType::Package);
    assert!(has_edge(&graph, "app", "lib", DependencyType::Compile));
}

#[test]
fn a_dependency_that_is_not_found_is_external() {
    let base = directory("base", "/base", vec![file("Cargo.toml", CARGO)]);
    let graph = IngestionEngine::discover(&base).unwrap();
    let node = graph.node_by_name("tokio").unwrap();
    assert_eq!(node.node_type, NodeType::External);
    assert_eq!(node.language, "");
    assert_eq!(node.path, b"/base");
    assert!(has_edge(&graph, "demo", "tokio", DependencyType::Dev));
}

#[test]
fn hidden_and_generated_directories_are_skipped() {
    for name in [".git", "target", "node_modules", "."] {
        assert!(skips(name));
        let base = directory(
            "base",
            "/base",
            vec![Entry::Directory(directory(name, "/base/x", vec![file("Cargo.toml", "= broken")]))],
        );
        assert!(IngestionEngine::discover(&base).unwrap().nodes.is_empty());
    }
    for name in ["", "src", "targets", "node"] {
        assert!(!skips(name));
    }
}

#[test]
fn only_manifests_are_read() {
    assert!(reads("d", "Cargo.toml"));
    assert!(reads("", "go.mod"));
    assert!(reads("", "pyproject.toml"));
    assert!(reads("d", "requirements.txt"));
    assert!(!reads("", "requirements.txt"));
    assert!(!reads("d", "cargo.toml"));
    let base = directory(
        "",
        "/",
        vec![
            Entry::File("main.rs".into(), Err("not read".into())),
            Entry::File("requirements.txt".into(), Err("not read".into())),
            Entry::Other,
        ],
    );
    assert!(IngestionEngine::discover(&base).unwrap().nodes.is_empty());
}

#[test]
fn the_first_error_ends_the_search() {
    let broken = directory(
        "base",
        "/base",
        vec![
            file("Cargo.toml", CARGO),
            Entry::Unreadable("no metadata".into()),
            Entry::File("go.mod".into(), Err("no permission".into())),
        ],
    );
    match IngestionEngine::discover(&broken) {
        Err(error) => {
            assert!(matches!(&error, IngestionError::Io(text) if text == "no metadata"));
            assert_eq!(error.describe(), "SCM ingestion I/O error: no metadata");
        }
        Ok(_) => panic!("expected an error"),
    }
    let unlisted = Directory { name: "b".into(), path: "/b".into(), listing: Err("gone".into()) };
    let base = directory("base", "/base", vec![Entry::Directory(unlisted)]);
    assert!(matches!(IngestionEngine::discover(&base), Err(IngestionError::Io(text)) if text == "gone"));
}

#[test]
fn a_malformed_document_is_a_toml_error() {
    let base = directory("base", "/base", vec![file("Cargo.toml", "[package\n")]);
    match IngestionEngine::discover(&base) {
        Err(IngestionError::Toml(text)) => {
            assert!(!text.is_empty());
            let error = IngestionError::Toml(text.clone());
            assert_eq!(error.describe(), format!("SCM ingestion TOML error: {text}"));
        }
        _ => panic!("expected a TOML error"),
    }
    let other = IngestionError::Message("odd".into());
    assert_eq!(other.describe(), "SCM ingestion error: odd");
}

#[test]
fn package_names_end_at_versions_extras_and_markers() {
    assert_eq!(parse_pkg_name("requests>=2.28"), "requests");
    assert_eq!(parse_pkg_name("numpy==1.23 ; python_version >= \"3.8\""), "numpy");
    assert_eq!(parse_pkg_name("  flask  "), "flask");
    assert_eq!(parse_pkg_name("uvicorn[standard]~=0.1"), "uvicorn");
    assert_eq!(parse_pkg_name("black !=22"), "black");
    assert_eq!(parse_pkg_name("a<b"), "a");
    assert_eq!(parse_pkg_name("a>b"), "a");
    assert_eq!(parse_pkg_name("a=b"), "a");
    assert_eq!(parse_pkg_name("a!b"), "a");
    assert_eq!(parse_pkg_name("a~b"), "a");
    assert_eq!(parse_pkg_name("a\u{a0}b"), "a");
    assert_eq!(parse_pkg_name(";x"), "");
    assert_eq!(parse_pkg_name(""), "");
    assert_eq!(parse_pkg_name("plain"), "plain");
}

#[test]
fn cargo_manifests_list_their_dependency_tables() {
    let content = r#"
[package]
name = "x"
[dependencies]
b = "1"
a = { path = "a" }
[dev-dependencies]
c = "1"
[build-dependencies]
d = "1"
"#;
    let manifest = parse_cargo_toml(&parse_toml(content).unwrap()).unwrap();
    assert_eq!(manifest.name, "x");
    assert_eq!(manifest.language, "rust");
    assert_eq!(
        names(&manifest),
        vec![
            ("a", DependencyType::Compile),
            ("b", DependencyType::Compile),
            ("c", DependencyType::Dev),
            ("d", DependencyType::Dev),
        ]
    );
    assert!(parse_cargo_toml(&parse_toml("[workspace]\n").unwrap()).is_none());
    assert!(parse_cargo_toml(&parse_toml("[package]\nname = 3\n").unwrap()).is_none());
    assert!(parse_cargo_toml(&parse_toml("[package]\nname = \"\"\n").unwrap()).is_none());
    let odd = parse_cargo_toml(&parse_toml("dependencies = 1\n[package]\nname = \"y\"\n").unwrap());
    assert!(odd.unwrap().dependencies.is_empty());
}

#[test]
fn python_projects_list_all_their_groups() {
    let content = r#"
[project]
name = "p"
dependencies = ["requests>=2", 7, "rich"]
[project.optional-dependencies]
dev = ["pytest==7", "mypy"]
docs = "none"
[tool.poetry]
name = "other"
[tool.poetry.dependencies]
python = "^3.10"
click = "8"
[tool.poetry.dev-dependencies]
tox = "4"
python = "3"
"#;
    let manifest = parse_pyproject_toml(&parse_toml(content).unwrap()).unwrap();
    assert_eq!(manifest.name, "p");
    assert_eq!(manifest.language, "python");
    assert_eq!(
        names(&manifest),
        vec![
            ("requests", DependencyType::Runtime),
            ("rich", DependencyType::Runtime),
            ("pytest", DependencyType::Feature),
            ("mypy", DependencyType::Feature),
            ("click", DependencyType::Runtime),
            ("python", DependencyType::Dev),
            ("tox", DependencyType::Dev),
        ]
    );
}

#[test]
fn poetry_names_a_project_without_a_project_table() {
    let poetry = "[tool.poetry]\nname = \"q\"\n";
    assert_eq!(parse_pyproject_toml(&parse_toml(poetry).unwrap()).unwrap().name, "q");
    let empty = "[project]\nname = \"\"\n[tool.poetry]\nname = \"q\"\n";
    assert!(parse_pyproject_toml(&parse_toml(empty).unwrap()).is_none());
    assert!(parse_pyproject_toml(&parse_toml("").unwrap()).is_none());
}

#[test]
fn a_table_is_read_by_its_first_entry() {
    let document = TomlValue::Table(vec![(
        "package".to_string(),
        TomlValue::Table(vec![
            ("name".to_string(), TomlValue::Text("first".to_string())),
            ("name".to_string(), TomlValue::Text("second".to_string())),
        ]),
    )]);
    assert_eq!(parse_cargo_toml(&document).unwrap().name, "first");
    assert!(parse_cargo_toml(&TomlValue::Other).is_none());
    assert!(parse_cargo_toml(&TomlValue::List(vec![])).is_none());
}

#[test]
fn go_modules_list_what_they_require() {
    let content = "// comment\nmodule example.com/m // trailing\n\ngo 1.21\nrequire example.com/a v1\nrequire (\n\texample.com/b v1.2.3\n\n\t// note\n\texample.com/c v0 // indirect\n)\nrequire\nexclude x v1\n";
    let manifest = parse_go_mod(content).unwrap();
    assert_eq!(manifest.name, "example.com/m");
    assert_eq!(manifest.language, "go");
    assert_eq!(
        names(&manifest),
        vec![
            ("example.com/a", DependencyType::Compile),
            ("example.com/b", DependencyType::Compile),
            ("example.com/c", DependencyType::Compile),
        ]
    );
    assert!(parse_go_mod("go 1.21\n").is_none());
    assert!(parse_go_mod("module \n").is_none());
    assert_eq!(parse_go_mod("module a\r\nmodule b\r\n").unwrap().name, "b");
}

#[test]
fn requirements_belong_to_their_directory() {
    let content = "# pinned\n-r base.txt\n\nnumpy==1.2\n  scipy >= 1 ; python_version > \"3\"\n";
    let manifest = parse_requirements_txt("svc", content).unwrap();
    assert_eq!(manifest.name, "svc");
    assert_eq!(manifest.language, "python");
    assert_eq!(
        names(&manifest),
        vec![("numpy", DependencyType::Runtime), ("scipy", DependencyType::Runtime)]
    );
    assert!(parse_requirements_txt("", content).is_none());
    assert!(parse_requirements_txt("svc", "").unwrap().dependencies.is_empty());
}

#[test]
fn a_package_may_depend_on_itself() {
    let content = "[package]\nname = \"me\"\n[dependencies]\nme = \"1\"\n";
    let graph = IngestionEngine::discover(&directory("d", "/d", vec![file("Cargo.toml", content)])).unwrap();
    assert_eq!(graph.nodes.len(), 1);
    assert!(has_edge(&graph, "me", "me", DependencyType::Compile));
    assert!(graph.topological_order().is_none());
}

fn node(name: &str) -> SCMNode {
    SCMNode {
        id: 77,
        name: name.into(),
        path: "/p".into(),
        language: "rust".into(),
        node_type: NodeType::Module,
    }
}

#[test]
fn adding_a_known_name_changes_nothing() {
    let mut graph = StructuralCausalGraph::new();
    assert_eq!(graph.add_node(node("a")), 0);
    assert_eq!(graph.add_node(node("b")), 1);
    assert_eq!(graph.add_node(node("a")), 0);
    assert_eq!(graph.ensure_node("b", NodeType::External, "", b"/q"), 1);
    assert_eq!(graph.ensure_node("c", NodeType::External, "go", b"/q"), 2);
    assert_eq!(graph.nodes.len(), 3);
    assert_eq!(graph.nodes[0].id, 0);
    assert_eq!(graph.nodes[1].language, "rust");
    assert_eq!(graph.nodes[2].path, b"/q");
    assert!(graph.node_by_name("d").is_none());
    let copy = graph.clone();
    assert_eq!(copy.node_by_name("c").unwrap().id, 2);
    assert!(StructuralCausalGraph::default().nodes.is_empty());
}

#[test]
fn the_topological_order_puts_dependencies_first() {
    let mut graph = StructuralCausalGraph::new();
    for name in ["a", "b", "c", "d"] {
        graph.add_node(node(name));
    }
    graph.add_edge(0, 3, DependencyType::Compile);
    graph.add_edge(1, 0, DependencyType::Feature);
    assert_eq!(graph.topological_order(), Some(vec![2, 3, 0, 1]));
    graph.add_edge(3, 1, DependencyType::Structure);
    assert_eq!(graph.topological_order(), None);
}

#[test]
fn a_module_is_named_by_its_last_line_that_names_one() {
    let content = "// module x\nmodule a\nrequire (\n\tb v1 // later\n\t// c v1\n)\nrequire d v2\ne v3\nmodule z\n";
    let manifest = parse_go_mod(content).unwrap();
    assert_eq!(manifest.name, "z");
    let names: Vec<&str> = manifest.dependencies.iter().map(|(name, _)| name.as_str()).collect();
    assert_eq!(names, vec!["b", "d"]);
    assert!(parse_go_mod("require a v1\n").is_none());
    assert!(parse_go_mod("module \nmodule").is_none());
}

#[test]
fn paths_need_not_be_texts() {
    let mut graph = StructuralCausalGraph::new();
    graph.ensure_node("a", NodeType::Package, "rust", b"/r/\xff");
    assert_eq!(graph.clone().nodes[0].path, b"/r/\xff");
}
