//! Discovery of packages in a directory tree.

use vstd::prelude::*;

use crate::scm::graph::{DependencyType, GraphView, NodeType, NodeView, SCMEdge, StructuralCausalGraph};
use crate::scm::manifest::{
    cargo_manifest, dependency_views, go_manifest, manifest_view, parse_cargo_toml, parse_go_mod, parse_pyproject_toml,
    parse_requirements_txt, python_manifest, requirements_manifest, Manifest, ManifestView,
};
use crate::scm::toml_value::{parse_toml, toml_document};
use crate::text::{chars_of, joined, same};

verus! {

/// Errors that can occur while ingesting an SCM graph.
#[derive(Debug)]
pub enum IngestionError {
    Io(String),
    Toml(String),
    Message(String),
}

/// An ingestion error with its text as a character sequence.
pub enum IngestionFault {
    Io(Seq<char>),
    Toml(Seq<char>),
    Message(Seq<char>),
}

impl View for IngestionError {
    type V = IngestionFault;

    open spec fn view(&self) -> IngestionFault {
        match self {
            IngestionError::Io(text) => IngestionFault::Io(text@),
            IngestionError::Toml(text) => IngestionFault::Toml(text@),
            IngestionError::Message(text) => IngestionFault::Message(text@),
        }
    }
}

impl IngestionFault {
    /// The error in words.
    pub open spec fn described(self) -> Seq<char> {
        match self {
            IngestionFault::Io(text) => "SCM ingestion I/O error: "@ + text,
            IngestionFault::Toml(text) => "SCM ingestion TOML error: "@ + text,
            IngestionFault::Message(text) => "SCM ingestion error: "@ + text,
        }
    }
}

impl IngestionError {
    /// The error in words.
    pub fn describe(&self) -> (text: String)
        ensures
            text@ == self@.described(),
            match self {
                IngestionError::Io(reason) => text@ == "SCM ingestion I/O error: "@ + reason@,
                IngestionError::Toml(reason) => text@ == "SCM ingestion TOML error: "@ + reason@,
                IngestionError::Message(reason) => text@ == "SCM ingestion error: "@ + reason@,
            },
    {
        match self {
            IngestionError::Io(text) => joined("SCM ingestion I/O error: ", text),
            IngestionError::Toml(text) => joined("SCM ingestion TOML error: ", text),
            IngestionError::Message(text) => joined("SCM ingestion error: ", text),
        }
    }
}

/// A directory and what listing it gave: its entries, or why it cannot be
/// listed. The name is empty where the path has no last component.
#[derive(Debug)]
pub struct Directory {
    pub name: String,
    pub path: Vec<u8>,
    pub listing: Result<Vec<Entry>, String>,
}

/// What stands in a directory.
#[derive(Debug)]
pub enum Entry {
    Directory(Directory),
    /// A file with its name and what reading it gave.
    File(String, Result<String, String>),
    /// An entry whose kind cannot be told, with the reason.
    Unreadable(String),
    /// An entry that is neither a directory nor a file with a readable name.
    Other,
}

/// Directories that are not searched: hidden ones, build output and vendored
/// packages.
pub open spec fn is_skipped(name: Seq<char>) -> bool {
    (name.len() > 0 && name[0] == '.') || name == "target"@ || name == "node_modules"@
}

/// Files that are read: manifests, but a `requirements.txt` only in a directory
/// that has a name.
pub open spec fn is_manifest(dir_name: Seq<char>, file_name: Seq<char>) -> bool {
    file_name == "Cargo.toml"@ || file_name == "go.mod"@ || file_name == "pyproject.toml"@ || (
    file_name == "requirements.txt"@ && dir_name.len() > 0)
}

/// What a text read gave, as character sequences.
pub open spec fn read_view(content: Result<String, String>) -> Result<Seq<char>, Seq<char>> {
    match content {
        Ok(text) => Ok(text@),
        Err(text) => Err(text@),
    }
}

/// What a file says, if it is a manifest of a package.
pub open spec fn manifest_in(
    dir_name: Seq<char>,
    file_name: Seq<char>,
    content: Result<Seq<char>, Seq<char>>,
) -> Result<Option<ManifestView>, IngestionFault> {
    if !is_manifest(dir_name, file_name) {
        Ok(None)
    } else {
        match content {
            Err(text) => Err(IngestionFault::Io(text)),
            Ok(content) => if file_name == "go.mod"@ {
                Ok(go_manifest(content))
            } else if file_name == "requirements.txt"@ {
                Ok(requirements_manifest(dir_name, content))
            } else {
                match toml_document(content) {
                    Err(text) => Err(IngestionFault::Toml(text)),
                    Ok(document) => if file_name == "Cargo.toml"@ {
                        Ok(cargo_manifest(document))
                    } else {
                        Ok(python_manifest(document))
                    },
                }
            },
        }
    }
}

/// The graph of nothing.
pub open spec fn empty_graph() -> GraphView {
    GraphView { nodes: Seq::empty(), edges: Seq::empty() }
}

/// The graph after the package `from` has been given its dependencies. One
/// that is not in the graph is added as an external package.
pub open spec fn linked(
    graph: GraphView,
    from: usize,
    path: Seq<u8>,
    dependencies: Seq<(Seq<char>, DependencyType)>,
) -> GraphView
    decreases dependencies.len(),
{
    if dependencies.len() == 0 {
        graph
    } else {
        let (name, dependency_type) = dependencies.last();
        let with = linked(graph, from, path, dependencies.drop_last()).ensured(
            name,
            NodeType::External,
            ""@,
            path,
        );
        GraphView {
            nodes: with.nodes,
            edges: with.edges.push(
                SCMEdge { from, to: with.place(name) as usize, dependency_type },
            ),
        }
    }
}

/// The graph in which the node at place `i` is a package with this path and
/// language.
pub open spec fn packaged(
    graph: GraphView,
    i: int,
    path: Seq<u8>,
    language: Seq<char>,
) -> GraphView {
    GraphView {
        nodes: graph.nodes.update(
            i,
            NodeView { path, language, node_type: NodeType::Package, ..graph.nodes[i] },
        ),
        edges: graph.edges,
    }
}

/// The graph after a manifest in the directory `path` has been read.
pub open spec fn recorded(graph: GraphView, path: Seq<u8>, manifest: ManifestView) -> GraphView {
    let with = graph.ensured(manifest.name, NodeType::Package, manifest.language, path);
    let id = with.place(manifest.name);
    linked(
        packaged(with, id, path, manifest.language),
        id as usize,
        path,
        manifest.dependencies,
    )
}

/// The graph after the first `n` entries of a directory, or the first error
/// among them.
pub open spec fn walked_entries(
    graph: GraphView,
    name: Seq<char>,
    path: Seq<u8>,
    entries: Seq<Entry>,
    n: nat,
) -> Result<GraphView, IngestionFault>
    decreases entries, n,
{
    if n == 0 || n > entries.len() {
        Ok(graph)
    } else {
        match walked_entries(graph, name, path, entries, (n - 1) as nat) {
            Err(fault) => Err(fault),
            Ok(graph) => match entries[n - 1] {
                Entry::Directory(inner) => if is_skipped(inner.name@) {
                    Ok(graph)
                } else {
                    walked(graph, inner)
                },
                Entry::File(file, content) => match manifest_in(name, file@, read_view(content)) {
                    Err(fault) => Err(fault),
                    Ok(Some(manifest)) => Ok(recorded(graph, path, manifest)),
                    Ok(None) => Ok(graph),
                },
                Entry::Unreadable(text) => Err(IngestionFault::Io(text@)),
                Entry::Other => Ok(graph),
            },
        }
    }
}

/// The graph after a directory has been searched, or the first error in it.
pub open spec fn walked(graph: GraphView, directory: Directory) -> Result<GraphView, IngestionFault>
    decreases directory, 0nat,
{
    match directory.listing {
        Err(text) => Err(IngestionFault::Io(text@)),
        Ok(entries) => walked_entries(
            graph,
            directory.name@,
            directory.path@,
            entries@,
            entries@.len(),
        ),
    }
}

/// Entries behind the first error do not matter.
proof fn lemma_first_error_stands(
    graph: GraphView,
    name: Seq<char>,
    path: Seq<u8>,
    entries: Seq<Entry>,
    m: nat,
    n: nat,
)
    requires
        m <= n <= entries.len(),
    ensures
        walked_entries(graph, name, path, entries, m) is Err ==> walked_entries(
            graph,
            name,
            path,
            entries,
            n,
        ) == walked_entries(graph, name, path, entries, m),
    decreases n,
{
    if m < n {
        lemma_first_error_stands(graph, name, path, entries, m, (n - 1) as nat);
    }
}

/// Whether a directory is not searched.
pub fn skips(name: &str) -> (result: bool)
    ensures
        result == is_skipped(name@),
        result <==> (name@.len() > 0 && name@[0] == '.') || name@ == "target"@ || name@
            == "node_modules"@,
{
    let chars = chars_of(name);
    (chars.len() > 0 && chars[0] == '.') || same(name, "target") || same(name, "node_modules")
}

/// Whether a file is read.
pub fn reads(dir_name: &str, file_name: &str) -> (result: bool)
    ensures
        result == is_manifest(dir_name@, file_name@),
        result <==> file_name@ == "Cargo.toml"@ || file_name@ == "go.mod"@ || file_name@
            == "pyproject.toml"@ || (file_name@ == "requirements.txt"@ && dir_name@.len() > 0),
{
    same(file_name, "Cargo.toml") || same(file_name, "go.mod") || same(file_name, "pyproject.toml")
        || (same(file_name, "requirements.txt") && !dir_name.is_empty())
}

/// Give the package `from` its dependencies.
fn link(
    graph: &mut StructuralCausalGraph,
    from: usize,
    path: &[u8],
    dependencies: &Vec<(String, DependencyType)>,
)
    requires
        old(graph).wf(),
        old(graph)@.edges_inside(),
        from < old(graph)@.nodes.len(),
    ensures
        final(graph).wf(),
        final(graph)@.edges_inside(),
        final(graph)@ == linked(
            old(graph)@,
            from,
            path@,
            dependency_views(dependencies@),
        ),
{
    let ghost start = graph@;
    let ghost all = dependency_views(dependencies@);
    let mut i: usize = 0;
    assert(all.take(0) =~= Seq::<(Seq<char>, DependencyType)>::empty());
    while i < dependencies.len()
        invariant
            i <= dependencies.len(),
            all == dependency_views(dependencies@),
            graph.wf(),
            graph@.edges_inside(),
            from < graph@.nodes.len(),
            graph@ == linked(start, from, path@, all.take(i as int)),
        decreases dependencies.len() - i,
    {
        proof {
            assert(all.take(i + 1).drop_last() =~= all.take(i as int));
            assert(all.take(i + 1).last() == all[i as int]);
        }
        let ghost before = graph@;
        let to = graph.ensure_node(&dependencies[i].0, NodeType::External, "", path);
        let ghost with = graph@;
        graph.add_edge(from, to, dependencies[i].1);
        proof {
            assert(graph@.nodes =~= with.nodes);
        }
        i = i + 1;
    }
    assert(all.take(i as int) =~= all);
}

/// Take a manifest in the directory `path` into the graph.
fn record(graph: &mut StructuralCausalGraph, path: &[u8], manifest: &Manifest)
    requires
        old(graph).wf(),
        old(graph)@.edges_inside(),
    ensures
        final(graph).wf(),
        final(graph)@.edges_inside(),
        final(graph)@ == recorded(old(graph)@, path@, manifest@),
{
    let id = graph.ensure_node(&manifest.name, NodeType::Package, &manifest.language, path);
    let ghost with = graph@;
    graph.place_package(id, path, &manifest.language);
    assert(graph@.nodes =~= packaged(with, id as int, path@, manifest.language@).nodes);
    link(graph, id, path, &manifest.dependencies);
}

/// Discovers code targets and builds a `StructuralCausalGraph`.
pub struct IngestionEngine;

impl IngestionEngine {
    /// Read a file, if it is a manifest.
    pub fn parse_manifest(
        dir_name: &str,
        file_name: &str,
        content: &Result<String, String>,
    ) -> (result: Result<Option<Manifest>, IngestionError>)
        ensures
            match result {
                Ok(manifest) => manifest_in(dir_name@, file_name@, read_view(*content)) == Ok::<
                    Option<ManifestView>,
                    IngestionFault,
                >(manifest_view(manifest)),
                Err(error) => manifest_in(dir_name@, file_name@, read_view(*content)) == Err::<
                    Option<ManifestView>,
                    IngestionFault,
                >(error@),
            },
    {
        if !reads(dir_name, file_name) {
            return Ok(None);
        }
        let content = match content {
            Ok(content) => content,
            Err(text) => return Err(IngestionError::Io(text.clone())),
        };
        if same(file_name, "go.mod") {
            return Ok(parse_go_mod(content));
        }
        if same(file_name, "requirements.txt") {
            return Ok(parse_requirements_txt(dir_name, content));
        }
        match parse_toml(content) {
            Err(text) => Err(IngestionError::Toml(text)),
            Ok(document) => if same(file_name, "Cargo.toml") {
                Ok(parse_cargo_toml(&document))
            } else {
                Ok(parse_pyproject_toml(&document))
            },
        }
    }

    /// Search a directory and take what it holds into the graph.
    fn discover_dir(directory: &Directory, graph: &mut StructuralCausalGraph) -> (result: Result<
        (),
        IngestionError,
    >)
        requires
            old(graph).wf(),
            old(graph)@.edges_inside(),
        ensures
            match result {
                Ok(_) => walked(old(graph)@, *directory) == Ok::<GraphView, IngestionFault>(
                    final(graph)@,
                ) && final(graph).wf() && final(graph)@.edges_inside(),
                Err(error) => walked(old(graph)@, *directory) == Err::<GraphView, IngestionFault>(
                    error@,
                ),
            },
        decreases *directory,
    {
        let ghost start = graph@;
        let entries = match &directory.listing {
            Ok(entries) => entries,
            Err(text) => return Err(IngestionError::Io(text.clone())),
        };
        let mut i: usize = 0;
        while i < entries.len()
            invariant
                i <= entries.len(),
                directory.listing == Ok::<Vec<Entry>, String>(*entries),
                start == old(graph)@,
                graph.wf(),
                graph@.edges_inside(),
                walked_entries(start, directory.name@, directory.path@, entries@, i as nat) == Ok::<
                    GraphView,
                    IngestionFault,
                >(graph@),
            decreases entries.len() - i,
        {
            proof {
                lemma_first_error_stands(
                    start,
                    directory.name@,
                    directory.path@,
                    entries@,
                    i as nat + 1,
                    entries@.len(),
                );
            }
            match &entries[i] {
                Entry::Directory(inner) => {
                    if !skips(&inner.name) {
                        proof {
                            assert(decreases_to!(*directory => directory.listing));
                            assert(decreases_to!(directory.listing => directory.listing->Ok_0));
                            assert(decreases_to!(entries@ => entries@[i as int]));
                            assert(decreases_to!(entries@[i as int] => *inner));
                        }
                        match Self::discover_dir(inner, graph) {
                            Ok(_) => {},
                            Err(error) => return Err(error),
                        }
                    }
                },
                Entry::File(file, content) => {
                    match Self::parse_manifest(&directory.name, file, content) {
                        Err(error) => return Err(error),
                        Ok(Some(manifest)) => record(graph, directory.path.as_slice(), &manifest),
                        Ok(None) => {},
                    }
                },
                Entry::Unreadable(text) => return Err(IngestionError::Io(text.clone())),
                Entry::Other => {},
            }
            i = i + 1;
        }
        Ok(())
    }

    /// Search a directory tree, parse dependency manifests, and produce a
    /// causal graph.
    pub fn discover(root: &Directory) -> (result: Result<StructuralCausalGraph, IngestionError>)
        ensures
            match result {
                Ok(graph) => walked(empty_graph(), *root) == Ok::<GraphView, IngestionFault>(graph@)
                    && graph.wf() && graph@.edges_inside(),
                Err(error) => walked(empty_graph(), *root) == Err::<GraphView, IngestionFault>(
                    error@,
                ),
            },
            result matches Ok(graph) ==> {
                &&& forall|i: int|
                    0 <= i < graph.nodes@.len() ==> (#[trigger] graph.nodes@[i]).id == i
                &&& forall|e: int|
                    0 <= e < graph.edges@.len() ==> (#[trigger] graph.edges@[e]).from
                        < graph.nodes@.len() && graph.edges@[e].to < graph.nodes@.len()
            },
            root.listing matches Err(text) ==> (result matches Err(error) && error is Io
                && error->Io_0@ == root.listing->Err_0@),
    {
        let mut graph = StructuralCausalGraph::new();
        proof {
            assert(graph@.nodes =~= empty_graph().nodes);
            assert(graph@.edges =~= empty_graph().edges);
        }
        match Self::discover_dir(root, &mut graph) {
            Ok(_) => {
                proof {
                    assert forall|i: int| 0 <= i < graph.nodes@.len() implies (
                    #[trigger] graph.nodes@[i]).id == i by {
                        assert(graph@.nodes[i].id == i);
                    }
                    assert forall|e: int| 0 <= e < graph.edges@.len() implies (
                    #[trigger] graph.edges@[e]).from < graph.nodes@.len() && graph.edges@[e].to
                        < graph.nodes@.len() by {
                        assert(graph@.edges[e].from < graph@.nodes.len());
                    }
                }
                Ok(graph)
            },
            Err(error) => Err(error),
        }
    }
}

/// `after` holds everything that `before` holds: its nodes are still in their
/// places under their names, and its edges come first.
pub open spec fn extends(before: GraphView, after: GraphView) -> bool {
    &&& before.nodes.len() <= after.nodes.len()
    &&& forall|i: int|
        0 <= i < before.nodes.len() ==> (#[trigger] after.nodes[i]).name == before.nodes[i].name
    &&& before.edges.is_prefix_of(after.edges)
}

proof fn lemma_extends_transitive(a: GraphView, b: GraphView, c: GraphView)
    requires
        extends(a, b),
        extends(b, c),
    ensures
        extends(a, c),
{
    assert forall|i: int| 0 <= i < a.nodes.len() implies (#[trigger] c.nodes[i]).name
        == a.nodes[i].name by {
        assert(b.nodes[i].name == a.nodes[i].name);
    }
    assert(a.edges =~= c.edges.subrange(0, a.edges.len() as int)) by {
        assert forall|e: int| 0 <= e < a.edges.len() implies c.edges[e] == a.edges[e] by {
            assert(b.edges.subrange(0, a.edges.len() as int)[e] == a.edges[e]);
            assert(c.edges.subrange(0, b.edges.len() as int)[e] == b.edges[e]);
        }
    }
}

proof fn lemma_place_extended(before: GraphView, after: GraphView, name: Seq<char>)
    requires
        before.wf(),
        after.wf(),
        extends(before, after),
        before.has(name),
    ensures
        after.has(name),
        after.place(name) == before.place(name),
        before.is_named(before.place(name), name),
{
    let i = before.place(name);
    assert(before.is_named(i, name));
    assert(after.nodes[i].name == before.nodes[i].name);
    assert(after.is_named(i, name));
    after.lemma_place(i, name);
}

proof fn lemma_ensured(
    graph: GraphView,
    name: Seq<char>,
    node_type: NodeType,
    language: Seq<char>,
    path: Seq<u8>,
)
    requires
        graph.wf(),
        graph.nodes.len() <= usize::MAX,
    ensures
        ({
            let after = graph.ensured(name, node_type, language, path);
            &&& after.wf()
            &&& after.has(name)
            &&& after.is_named(after.place(name), name)
            &&& extends(graph, after)
            &&& after.edges == graph.edges
            &&& after.nodes.len() <= graph.nodes.len() + 1
            &&& forall|i: int|
                0 <= i < graph.nodes.len() ==> #[trigger] after.nodes[i] == graph.nodes[i]
        }),
{
    let after = graph.ensured(name, node_type, language, path);
    assert(graph.edges.is_prefix_of(after.edges));
    if !graph.has(name) {
        let last = graph.nodes.len() as int;
        assert forall|i: int, j: int| 0 <= i < j < after.nodes.len() implies (
        #[trigger] after.nodes[i]).name != (#[trigger] after.nodes[j]).name by {
            if j == last {
                assert(!graph.is_named(i, name));
            }
        }
        assert(after.is_named(last, name));
    }
    let i = choose|i: int| after.is_named(i, name);
    after.lemma_place(i, name);
}

proof fn lemma_linked(
    graph: GraphView,
    from: usize,
    path: Seq<u8>,
    dependencies: Seq<(Seq<char>, DependencyType)>,
)
    requires
        graph.wf(),
        linked(graph, from, path, dependencies).nodes.len() <= usize::MAX,
    ensures
        ({
            let after = linked(graph, from, path, dependencies);
            &&& after.wf()
            &&& extends(graph, after)
            &&& after.edges.len() == graph.edges.len() + dependencies.len()
            &&& forall|i: int|
                0 <= i < graph.nodes.len() ==> #[trigger] after.nodes[i] == graph.nodes[i]
            &&& forall|k: int|
                0 <= k < dependencies.len() ==> after.has((#[trigger] dependencies[k]).0)
                    && after.edges[graph.edges.len() + k] == (SCMEdge {
                    from,
                    to: after.place(dependencies[k].0) as usize,
                    dependency_type: dependencies[k].1,
                })
        }),
    decreases dependencies.len(),
{
    let after = linked(graph, from, path, dependencies);
    if dependencies.len() == 0 {
        assert(graph.edges.is_prefix_of(after.edges));
    } else {
        let fewer = dependencies.drop_last();
        let (name, kind) = dependencies.last();
        let before = linked(graph, from, path, fewer);
        let with = before.ensured(name, NodeType::External, ""@, path);
        lemma_linked(graph, from, path, fewer);
        lemma_ensured(before, name, NodeType::External, ""@, path);
        lemma_same_nodes(with, after);
        assert(with.edges.is_prefix_of(after.edges)) by {
            assert(with.edges =~= after.edges.subrange(0, with.edges.len() as int));
        }
        assert(extends(with, after));
        lemma_extends_transitive(graph, before, with);
        lemma_extends_transitive(graph, with, after);
        lemma_extends_transitive(before, with, after);
        assert forall|k: int| 0 <= k < dependencies.len() implies after.has(
            (#[trigger] dependencies[k]).0,
        ) && after.edges[graph.edges.len() + k] == (SCMEdge {
            from,
            to: after.place(dependencies[k].0) as usize,
            dependency_type: dependencies[k].1,
        }) by {
            if k < fewer.len() {
                assert(fewer[k] == dependencies[k]);
                lemma_place_extended(before, after, dependencies[k].0);
                assert(after.edges[graph.edges.len() + k] == before.edges[graph.edges.len() + k]);
            } else {
                lemma_place_extended(with, after, name);
            }
        }
        assert forall|i: int| 0 <= i < graph.nodes.len() implies #[trigger] after.nodes[i]
            == graph.nodes[i] by {
            assert(before.nodes[i] == graph.nodes[i]);
            assert(with.nodes[i] == before.nodes[i]);
        }
    }
}

/// Graphs with the same nodes have the same names in the same places.
proof fn lemma_same_nodes(a: GraphView, b: GraphView)
    requires
        a.wf(),
        a.nodes == b.nodes,
    ensures
        b.wf(),
{
}

/// Reading a manifest makes a node of its package, under the manifest's path
/// and language, and one edge for each dependency, from the package to the
/// dependency. What was in the graph stays.
pub proof fn law_dependencies_become_edges(
    graph: GraphView,
    path: Seq<u8>,
    manifest: ManifestView,
)
    requires
        graph.wf(),
        recorded(graph, path, manifest).nodes.len() <= usize::MAX,
    ensures
        ({
            let after = recorded(graph, path, manifest);
            let package = after.place(manifest.name);
            &&& after.wf()
            &&& extends(graph, after)
            &&& after.is_named(package, manifest.name)
            &&& after.nodes[package] == (NodeView {
                id: package as usize,
                name: manifest.name,
                path,
                language: manifest.language,
                node_type: NodeType::Package,
            })
            &&& after.edges.len() == graph.edges.len() + manifest.dependencies.len()
            &&& forall|k: int|
                0 <= k < manifest.dependencies.len() ==> after.has(
                    (#[trigger] manifest.dependencies[k]).0,
                ) && after.edges[graph.edges.len() + k] == (SCMEdge {
                    from: package as usize,
                    to: after.place(manifest.dependencies[k].0) as usize,
                    dependency_type: manifest.dependencies[k].1,
                })
        }),
{
    let after = recorded(graph, path, manifest);
    let with = graph.ensured(manifest.name, NodeType::Package, manifest.language, path);
    let id = with.place(manifest.name);
    let described = packaged(with, id, path, manifest.language);
    lemma_linked_grows(described, id as usize, path, manifest.dependencies);
    assert(with.has(manifest.name)) by {
        if !graph.has(manifest.name) {
            assert(with.is_named(graph.nodes.len() as int, manifest.name));
        }
    }
    assert(with.is_named(id, manifest.name));
    lemma_ensured(graph, manifest.name, NodeType::Package, manifest.language, path);
    assert forall|i: int| 0 <= i < with.nodes.len() implies (#[trigger] described.nodes[i]).name
        == with.nodes[i].name && described.nodes[i].id == with.nodes[i].id by {}
    assert(with.edges.is_prefix_of(described.edges));
    assert(described.wf()) by {
        assert forall|i: int, j: int| 0 <= i < j < described.nodes.len() implies (
        #[trigger] described.nodes[i]).name != (#[trigger] described.nodes[j]).name by {
            assert(with.nodes[i].name != with.nodes[j].name);
        }
    }
    lemma_linked(described, id as usize, path, manifest.dependencies);
    lemma_extends_transitive(graph, with, described);
    lemma_extends_transitive(graph, described, after);
    lemma_extends_transitive(with, described, after);
    lemma_place_extended(with, after, manifest.name);
    assert(after.nodes[id] == described.nodes[id]);
    assert(with.nodes[id].id == id);
    assert(after.is_named(id, manifest.name));
}

/// Linking adds nodes only.
proof fn lemma_linked_grows(
    graph: GraphView,
    from: usize,
    path: Seq<u8>,
    dependencies: Seq<(Seq<char>, DependencyType)>,
)
    ensures
        graph.nodes.len() <= linked(graph, from, path, dependencies).nodes.len(),
    decreases dependencies.len(),
{
    if dependencies.len() > 0 {
        lemma_linked_grows(graph, from, path, dependencies.drop_last());
    }
}

/// A search only adds: what was in the graph before is still there.
pub proof fn law_discovery_only_adds(graph: GraphView, directory: Directory)
    requires
        graph.wf(),
        walked(graph, directory) is Ok,
        walked(graph, directory)->Ok_0.nodes.len() <= usize::MAX,
    ensures
        walked(graph, directory)->Ok_0.wf(),
        extends(graph, walked(graph, directory)->Ok_0),
    decreases directory, 0nat,
{
    if let Ok(entries) = directory.listing {
        lemma_entries_only_add(
            graph,
            directory.name@,
            directory.path@,
            entries@,
            entries@.len(),
        );
    }
}

proof fn lemma_entries_only_add(
    graph: GraphView,
    name: Seq<char>,
    path: Seq<u8>,
    entries: Seq<Entry>,
    n: nat,
)
    requires
        graph.wf(),
        n <= entries.len(),
        walked_entries(graph, name, path, entries, n) is Ok,
        walked_entries(graph, name, path, entries, n)->Ok_0.nodes.len() <= usize::MAX,
    ensures
        walked_entries(graph, name, path, entries, n)->Ok_0.wf(),
        extends(graph, walked_entries(graph, name, path, entries, n)->Ok_0),
    decreases entries, n,
{
    let after = walked_entries(graph, name, path, entries, n)->Ok_0;
    if n == 0 {
        assert(graph.edges.is_prefix_of(after.edges));
    } else {
        let before = walked_entries(graph, name, path, entries, (n - 1) as nat)->Ok_0;
        match entries[n - 1] {
            Entry::Directory(inner) => {
                if !is_skipped(inner.name@) {
                    lemma_walk_grows(before, inner);
                    lemma_entries_only_add(graph, name, path, entries, (n - 1) as nat);
                    law_discovery_only_adds(before, inner);
                    lemma_extends_transitive(graph, before, after);
                } else {
                    lemma_entries_only_add(graph, name, path, entries, (n - 1) as nat);
                }
            },
            Entry::File(file, content) => {
                if let Ok(Some(manifest)) = manifest_in(name, file@, read_view(content)) {
                    lemma_recorded_grows(before, path, manifest);
                    lemma_entries_only_add(graph, name, path, entries, (n - 1) as nat);
                    law_dependencies_become_edges(before, path, manifest);
                    lemma_extends_transitive(graph, before, after);
                } else {
                    lemma_entries_only_add(graph, name, path, entries, (n - 1) as nat);
                }
            },
            _ => {
                lemma_entries_only_add(graph, name, path, entries, (n - 1) as nat);
            },
        }
    }
}

/// Reading a manifest adds nodes only.
proof fn lemma_recorded_grows(graph: GraphView, path: Seq<u8>, manifest: ManifestView)
    ensures
        graph.nodes.len() <= recorded(graph, path, manifest).nodes.len(),
{
    let with = graph.ensured(manifest.name, NodeType::Package, manifest.language, path);
    let id = with.place(manifest.name);
    assert(with.has(manifest.name)) by {
        if !graph.has(manifest.name) {
            assert(with.is_named(graph.nodes.len() as int, manifest.name));
        }
    }
    assert(with.is_named(id, manifest.name));
    let described = packaged(with, id, path, manifest.language);
    lemma_linked_grows(described, id as usize, path, manifest.dependencies);
}

/// A search adds nodes only.
proof fn lemma_walk_grows(graph: GraphView, directory: Directory)
    requires
        walked(graph, directory) is Ok,
    ensures
        graph.nodes.len() <= walked(graph, directory)->Ok_0.nodes.len(),
    decreases directory, 0nat,
{
    if let Ok(entries) = directory.listing {
        lemma_entries_grow(graph, directory.name@, directory.path@, entries@, entries@.len());
    }
}

proof fn lemma_entries_grow(
    graph: GraphView,
    name: Seq<char>,
    path: Seq<u8>,
    entries: Seq<Entry>,
    n: nat,
)
    requires
        n <= entries.len(),
        walked_entries(graph, name, path, entries, n) is Ok,
    ensures
        graph.nodes.len() <= walked_entries(graph, name, path, entries, n)->Ok_0.nodes.len(),
    decreases entries, n,
{
    if n > 0 {
        let before = walked_entries(graph, name, path, entries, (n - 1) as nat)->Ok_0;
        lemma_entries_grow(graph, name, path, entries, (n - 1) as nat);
        match entries[n - 1] {
            Entry::Directory(inner) => {
                if !is_skipped(inner.name@) {
                    lemma_walk_grows(before, inner);
                }
            },
            Entry::File(file, content) => {
                if let Ok(Some(manifest)) = manifest_in(name, file@, read_view(content)) {
                    lemma_recorded_grows(before, path, manifest);
                }
            },
            _ => {},
        }
    }
}

/// A manifest that a search met, and the directory in which it stands.
pub struct Found {
    pub path: Seq<u8>,
    pub manifest: ManifestView,
}

/// The manifests that a search meets among the first `n` entries of a directory.
pub open spec fn found_in_entries(
    name: Seq<char>,
    path: Seq<u8>,
    entries: Seq<Entry>,
    n: nat,
) -> Seq<Found>
    decreases entries, n,
{
    if n == 0 || n > entries.len() {
        Seq::empty()
    } else {
        found_in_entries(name, path, entries, (n - 1) as nat) + match entries[n - 1] {
            Entry::Directory(inner) => if is_skipped(inner.name@) {
                Seq::empty()
            } else {
                found_in(inner)
            },
            Entry::File(file, content) => match manifest_in(name, file@, read_view(content)) {
                Ok(Some(manifest)) => seq![(Found { path, manifest })],
                _ => Seq::empty(),
            },
            _ => Seq::empty(),
        }
    }
}

/// The manifests that a search meets in a directory, in order.
pub open spec fn found_in(directory: Directory) -> Seq<Found>
    decreases directory, 0nat,
{
    match directory.listing {
        Err(_) => Seq::empty(),
        Ok(entries) => found_in_entries(
            directory.name@,
            directory.path@,
            entries@,
            entries@.len(),
        ),
    }
}

/// The graph after manifests have been read, one after the other.
pub open spec fn all_recorded(graph: GraphView, found: Seq<Found>) -> GraphView
    decreases found.len(),
{
    if found.len() == 0 {
        graph
    } else {
        recorded(
            all_recorded(graph, found.drop_last()),
            found.last().path,
            found.last().manifest,
        )
    }
}

proof fn lemma_recorded_on(graph: GraphView, first: Seq<Found>, second: Seq<Found>)
    ensures
        all_recorded(graph, first + second) == all_recorded(all_recorded(graph, first), second),
    decreases second.len(),
{
    if second.len() == 0 {
        assert(first + second =~= first);
    } else {
        assert((first + second).drop_last() =~= first + second.drop_last());
        lemma_recorded_on(graph, first, second.drop_last());
    }
}

/// What a search makes of a graph is what the manifests make of it that it
/// meets.
pub proof fn law_search_reads_what_it_meets(graph: GraphView, directory: Directory)
    requires
        walked(graph, directory) is Ok,
    ensures
        walked(graph, directory)->Ok_0 == all_recorded(graph, found_in(directory)),
    decreases directory, 0nat,
{
    if let Ok(entries) = directory.listing {
        lemma_entries_read(graph, directory.name@, directory.path@, entries@, entries@.len());
    }
}

proof fn lemma_entries_read(
    graph: GraphView,
    name: Seq<char>,
    path: Seq<u8>,
    entries: Seq<Entry>,
    n: nat,
)
    requires
        n <= entries.len(),
        walked_entries(graph, name, path, entries, n) is Ok,
    ensures
        walked_entries(graph, name, path, entries, n)->Ok_0 == all_recorded(
            graph,
            found_in_entries(name, path, entries, n),
        ),
    decreases entries, n,
{
    if n > 0 {
        let m = (n - 1) as nat;
        let before = walked_entries(graph, name, path, entries, m)->Ok_0;
        let seen = found_in_entries(name, path, entries, m);
        lemma_entries_read(graph, name, path, entries, m);
        match entries[n - 1] {
            Entry::Directory(inner) => {
                if is_skipped(inner.name@) {
                    assert(seen + Seq::<Found>::empty() =~= seen);
                } else {
                    law_search_reads_what_it_meets(before, inner);
                    lemma_recorded_on(graph, seen, found_in(inner));
                }
            },
            Entry::File(file, content) => {
                match manifest_in(name, file@, read_view(content)) {
                    Ok(Some(manifest)) => {
                        let more = seq![(Found { path, manifest })];
                        lemma_recorded_on(graph, seen, more);
                        assert(more.drop_last() =~= Seq::<Found>::empty());
                        assert(all_recorded(before, more.drop_last()) == before);
                    },
                    _ => {
                        assert(seen + Seq::<Found>::empty() =~= seen);
                    },
                }
            },
            _ => {
                assert(seen + Seq::<Found>::empty() =~= seen);
            },
        }
    }
}

/// The node is the package of a manifest.
pub open spec fn is_package_of(node: NodeView, found: Found) -> bool {
    &&& node.node_type is Package
    &&& node.name == found.manifest.name
    &&& node.path == found.path
    &&& node.language == found.manifest.language
}

/// A manifest names a dependency at place `k`.
pub open spec fn requires_at(found: Found, k: int, name: Seq<char>) -> bool {
    0 <= k < found.manifest.dependencies.len() && found.manifest.dependencies[k].0 == name
}

/// The node is an external package that a manifest depends on.
pub open spec fn is_dependency_of(node: NodeView, found: Found) -> bool {
    &&& node.node_type is External
    &&& node.path == found.path
    &&& node.language == ""@
    &&& exists|k: int| requires_at(found, k, node.name)
}

/// The node comes from one of the manifests.
pub open spec fn node_comes_from(node: NodeView, found: Seq<Found>) -> bool {
    exists|f: int|
        0 <= f < found.len() && (is_package_of(node, #[trigger] found[f]) || is_dependency_of(
            node,
            found[f],
        ))
}

/// The edge leads from the package of a manifest to its dependency at place `k`.
pub open spec fn is_edge_of(graph: GraphView, edge: SCMEdge, found: Found, k: int) -> bool {
    &&& graph.is_named(edge.from as int, found.manifest.name)
    &&& requires_at(found, k, found.manifest.dependencies[k].0)
    &&& graph.is_named(edge.to as int, found.manifest.dependencies[k].0)
    &&& edge.dependency_type == found.manifest.dependencies[k].1
}

/// The edge comes from one of the manifests.
pub open spec fn edge_comes_from(graph: GraphView, edge: SCMEdge, found: Seq<Found>) -> bool {
    exists|f: int, k: int| 0 <= f < found.len() && #[trigger] is_edge_of(graph, edge, found[f], k)
}

/// Linking leaves the nodes alone that are there. Those that it adds are
/// external packages among the dependencies.
proof fn lemma_linked_nodes(
    graph: GraphView,
    from: usize,
    path: Seq<u8>,
    dependencies: Seq<(Seq<char>, DependencyType)>,
)
    ensures
        ({
            let after = linked(graph, from, path, dependencies);
            &&& graph.nodes.len() <= after.nodes.len()
            &&& forall|i: int|
                0 <= i < after.nodes.len() ==> if i < graph.nodes.len() {
                    #[trigger] after.nodes[i] == graph.nodes[i]
                } else {
                    &&& after.nodes[i].node_type is External
                    &&& after.nodes[i].path == path
                    &&& after.nodes[i].language == ""@
                    &&& is_among(dependencies, after.nodes[i].name)
                }
        }),
    decreases dependencies.len(),
{
    if dependencies.len() > 0 {
        let fewer = dependencies.drop_last();
        let name = dependencies.last().0;
        let before = linked(graph, from, path, fewer);
        let after = linked(graph, from, path, dependencies);
        lemma_linked_nodes(graph, from, path, fewer);
        assert forall|i: int| graph.nodes.len() <= i < after.nodes.len() implies {
            &&& (#[trigger] after.nodes[i]).node_type is External
            &&& after.nodes[i].path == path
            &&& after.nodes[i].language == ""@
            &&& is_among(dependencies, after.nodes[i].name)
        } by {
            if i < before.nodes.len() {
                assert(after.nodes[i] == before.nodes[i]);
                let k = choose|k: int|
                    0 <= k < fewer.len() && (#[trigger] fewer[k]).0 == before.nodes[i].name;
                assert(dependencies[k].0 == after.nodes[i].name);
            } else {
                assert(dependencies[dependencies.len() - 1].0 == after.nodes[i].name);
            }
        }
        assert forall|i: int| 0 <= i < graph.nodes.len() implies #[trigger] after.nodes[i]
            == graph.nodes[i] by {
            assert(before.nodes[i] == graph.nodes[i]);
        }
    }
}

/// One of the dependencies has this name.
pub open spec fn is_among(
    dependencies: Seq<(Seq<char>, DependencyType)>,
    name: Seq<char>,
) -> bool {
    exists|k: int| 0 <= k < dependencies.len() && (#[trigger] dependencies[k]).0 == name
}

/// Reading a manifest leaves a node alone, or makes it the manifest's package or
/// one of its dependencies.
proof fn lemma_recorded_nodes(graph: GraphView, found: Found, i: int)
    requires
        0 <= i < recorded(graph, found.path, found.manifest).nodes.len(),
    ensures
        ({
            let node = recorded(graph, found.path, found.manifest).nodes[i];
            ||| i < graph.nodes.len() && node == graph.nodes[i]
            ||| is_package_of(node, found)
            ||| is_dependency_of(node, found)
        }),
{
    let manifest = found.manifest;
    let with = graph.ensured(manifest.name, NodeType::Package, manifest.language, found.path);
    let id = with.place(manifest.name);
    assert(with.has(manifest.name)) by {
        if !graph.has(manifest.name) {
            assert(with.is_named(graph.nodes.len() as int, manifest.name));
        }
    }
    assert(with.is_named(id, manifest.name));
    let described = packaged(with, id, found.path, manifest.language);
    let after = recorded(graph, found.path, manifest);
    lemma_linked_nodes(described, id as usize, found.path, manifest.dependencies);
    if i < described.nodes.len() {
        assert(after.nodes[i] == described.nodes[i]);
    } else {
        let k = choose|k: int|
            0 <= k < manifest.dependencies.len() && (#[trigger] manifest.dependencies[k]).0
                == after.nodes[i].name;
        assert(requires_at(found, k, after.nodes[i].name));
    }
}

/// Nothing is in a graph that no manifest put there: every node is the package
/// of a manifest that was met or a dependency of one, and every edge leads from
/// the package of a manifest to one of its dependencies.
pub proof fn law_graph_comes_from_manifests(found: Seq<Found>)
    requires
        all_recorded(empty_graph(), found).nodes.len() <= usize::MAX,
    ensures
        ({
            let graph = all_recorded(empty_graph(), found);
            &&& graph.wf()
            &&& forall|i: int|
                0 <= i < graph.nodes.len() ==> node_comes_from(#[trigger] graph.nodes[i], found)
            &&& forall|e: int|
                0 <= e < graph.edges.len() ==> edge_comes_from(
                    graph,
                    #[trigger] graph.edges[e],
                    found,
                )
        }),
    decreases found.len(),
{
    if found.len() > 0 {
        let fewer = found.drop_last();
        let last = found.last();
        let before = all_recorded(empty_graph(), fewer);
        let after = all_recorded(empty_graph(), found);
        lemma_recorded_grows(before, last.path, last.manifest);
        law_graph_comes_from_manifests(fewer);
        law_dependencies_become_edges(before, last.path, last.manifest);
        assert forall|i: int| 0 <= i < after.nodes.len() implies node_comes_from(
            #[trigger] after.nodes[i],
            found,
        ) by {
            lemma_recorded_nodes(before, last, i);
            if is_package_of(after.nodes[i], last) || is_dependency_of(after.nodes[i], last) {
                assert(found[found.len() - 1] == last);
            } else {
                assert(node_comes_from(before.nodes[i], fewer));
                let f = choose|f: int|
                    0 <= f < fewer.len() && (is_package_of(before.nodes[i], #[trigger] fewer[f])
                        || is_dependency_of(before.nodes[i], fewer[f]));
                assert(found[f] == fewer[f]);
            }
        }
        assert forall|e: int| 0 <= e < after.edges.len() implies edge_comes_from(
            after,
            #[trigger] after.edges[e],
            found,
        ) by {
            let edge = after.edges[e];
            if e < before.edges.len() {
                assert(after.edges.subrange(0, before.edges.len() as int)[e] == after.edges[e]);
                assert(before.edges[e] == edge);
                assert(edge_comes_from(before, before.edges[e], fewer));
                let (f, k) = choose|f: int, k: int|
                    0 <= f < fewer.len() && #[trigger] is_edge_of(before, edge, fewer[f], k);
                assert(found[f] == fewer[f]);
                assert(after.nodes[edge.from as int].name == before.nodes[edge.from as int].name);
                assert(after.nodes[edge.to as int].name == before.nodes[edge.to as int].name);
                assert(is_edge_of(after, edge, found[f], k));
            } else {
                let k = e - before.edges.len();
                let name = last.manifest.dependencies[k].0;
                assert(after.has(name));
                assert(after.is_named(after.place(name), name));
                assert(found[found.len() - 1] == last);
                assert(is_edge_of(after, edge, found[found.len() - 1], k));
            }
        }
    }
}

/// Everything in the graph of a directory tree comes from a manifest that stands
/// in it, outside of the directories that are not searched.
pub proof fn law_discovered_graph_comes_from_manifests(directory: Directory)
    requires
        walked(empty_graph(), directory) is Ok,
        walked(empty_graph(), directory)->Ok_0.nodes.len() <= usize::MAX,
    ensures
        ({
            let graph = walked(empty_graph(), directory)->Ok_0;
            &&& forall|i: int|
                0 <= i < graph.nodes.len() ==> node_comes_from(
                    #[trigger] graph.nodes[i],
                    found_in(directory),
                )
            &&& forall|e: int|
                0 <= e < graph.edges.len() ==> edge_comes_from(
                    graph,
                    #[trigger] graph.edges[e],
                    found_in(directory),
                )
        }),
{
    law_search_reads_what_it_meets(empty_graph(), directory);
    law_graph_comes_from_manifests(found_in(directory));
}

/// A manifest stands in a directory itself, in a file of its own.
pub open spec fn stands_among(directory: Directory, i: int, found: Found) -> bool {
    match directory.listing {
        Ok(entries) => 0 <= i < entries@.len() && match entries@[i] {
            Entry::File(file, content) => found.path == directory.path@ && manifest_in(
                directory.name@,
                file@,
                read_view(content),
            ) == Ok::<Option<ManifestView>, IngestionFault>(Some(found.manifest)),
            _ => false,
        },
        Err(_) => false,
    }
}

/// A search of a directory that stands in another one meets a manifest. The
/// directory is not hidden, and is neither build output nor vendored packages.
pub open spec fn stands_below(directory: Directory, i: int, found: Found) -> bool {
    match directory.listing {
        Ok(entries) => 0 <= i < entries@.len() && match entries@[i] {
            Entry::Directory(inner) => {
                &&& inner.name@.len() == 0 || inner.name@[0] != '.'
                &&& inner.name@ != "target"@
                &&& inner.name@ != "node_modules"@
                &&& found_in(inner).contains(found)
            },
            _ => false,
        },
        Err(_) => false,
    }
}

/// A manifest is met at an entry of a directory.
#[verifier::opaque]
pub open spec fn is_met_at(directory: Directory, i: int, found: Found) -> bool {
    stands_among(directory, i, found) || stands_below(directory, i, found)
}

/// A search meets a manifest exactly if it stands in the directory itself or is
/// met in one of the directories in it that are searched.
pub proof fn law_manifests_are_met(directory: Directory, found: Found)
    ensures
        found_in(directory).contains(found) <==> exists|i: int| is_met_at(directory, i, found),
{
    reveal(is_met_at);
    match directory.listing {
        Ok(entries) => {
            lemma_met_among(directory, entries@, entries@.len(), found);
            if exists|i: int| is_met_at(directory, i, found) {
                let i = choose|i: int| is_met_at(directory, i, found);
                assert(0 <= i < entries@.len());
            }
        },
        Err(_) => {},
    }
}

/// What is met at one entry comes behind what is met at those before it.
proof fn lemma_met_at(directory: Directory, entries: Seq<Entry>, n: nat) -> (more: Seq<Found>)
    requires
        directory.listing is Ok,
        directory.listing->Ok_0@ == entries,
        0 < n <= entries.len(),
    ensures
        found_in_entries(directory.name@, directory.path@, entries, n) == found_in_entries(
            directory.name@,
            directory.path@,
            entries,
            (n - 1) as nat,
        ) + more,
        forall|found: Found| #[trigger]
            more.contains(found) <==> is_met_at(directory, n - 1, found),
{
    reveal(is_met_at);
    let name = directory.name@;
    let path = directory.path@;
    match entries[n - 1] {
        Entry::Directory(inner) => {
            if is_skipped(inner.name@) {
                let more = Seq::<Found>::empty();
                assert forall|found: Found| #[trigger] more.contains(found) <==> is_met_at(
                    directory,
                    n - 1,
                    found,
                ) by {
                    assert(!stands_below(directory, n - 1, found));
                }
                more
            } else {
                let more = found_in(inner);
                assert forall|found: Found| #[trigger] more.contains(found) <==> is_met_at(
                    directory,
                    n - 1,
                    found,
                ) by {
                    assert(stands_below(directory, n - 1, found) <==> more.contains(found));
                    assert(!stands_among(directory, n - 1, found));
                }
                more
            }
        },
        Entry::File(file, content) => {
            let more = match manifest_in(name, file@, read_view(content)) {
                Ok(Some(manifest)) => seq![(Found { path, manifest })],
                _ => Seq::empty(),
            };
            assert forall|found: Found| #[trigger] more.contains(found) <==> is_met_at(
                directory,
                n - 1,
                found,
            ) by {
                assert(!stands_below(directory, n - 1, found));
                if let Ok(Some(manifest)) = manifest_in(name, file@, read_view(content)) {
                    assert(more[0] == (Found { path, manifest }));
                }
            }
            more
        },
        _ => {
            let more = Seq::<Found>::empty();
            assert forall|found: Found| #[trigger] more.contains(found) <==> is_met_at(
                directory,
                n - 1,
                found,
            ) by {
                assert(!stands_below(directory, n - 1, found));
                assert(!stands_among(directory, n - 1, found));
            }
            more
        },
    }
}

proof fn lemma_contained<A>(first: Seq<A>, second: Seq<A>, item: A)
    ensures
        (first + second).contains(item) <==> first.contains(item) || second.contains(item),
{
    let all = first + second;
    if first.contains(item) {
        let k = choose|k: int| 0 <= k < first.len() && first[k] == item;
        assert(all[k] == item);
    }
    if second.contains(item) {
        let k = choose|k: int| 0 <= k < second.len() && second[k] == item;
        assert(all[first.len() + k] == item);
    }
    if all.contains(item) {
        let k = choose|k: int| 0 <= k < all.len() && all[k] == item;
        if k < first.len() {
            assert(first[k] == item);
        } else {
            assert(second[k - first.len()] == item);
        }
    }
}

proof fn lemma_met_among(directory: Directory, entries: Seq<Entry>, n: nat, found: Found)
    requires
        directory.listing is Ok,
        directory.listing->Ok_0@ == entries,
        n <= entries.len(),
    ensures
        found_in_entries(directory.name@, directory.path@, entries, n).contains(found)
            <==> exists|i: int| 0 <= i < n && is_met_at(directory, i, found),
    decreases n,
{
    let name = directory.name@;
    let path = directory.path@;
    let after = found_in_entries(name, path, entries, n);
    if n == 0 {
        assert(after.len() == 0);
    } else {
        let m = (n - 1) as nat;
        let before = found_in_entries(name, path, entries, m);
        let more = lemma_met_at(directory, entries, n);
        lemma_met_among(directory, entries, m, found);
        lemma_contained(before, more, found);
        assert(after == before + more);
        if exists|i: int| 0 <= i < n && is_met_at(directory, i, found) {
            let i = choose|i: int| 0 <= i < n && is_met_at(directory, i, found);
            assert(i < m || i == n - 1);
        }
        if more.contains(found) {
            assert(is_met_at(directory, n - 1, found));
        }
    }
}

/// Why a search cannot go past an entry of a directory, if it cannot: its kind
/// cannot be told, it is a manifest that cannot be read, or it is a directory
/// that is searched and cannot be.
pub open spec fn fault_at(directory: Directory, i: int) -> Option<IngestionFault> {
    match directory.listing->Ok_0@[i] {
        Entry::Directory(inner) => if (inner.name@.len() > 0 && inner.name@[0] == '.')
            || inner.name@ == "target"@ || inner.name@ == "node_modules"@ {
            None
        } else {
            match walked(empty_graph(), inner) {
                Ok(_) => None,
                Err(fault) => Some(fault),
            }
        },
        Entry::File(file, content) => match manifest_in(
            directory.name@,
            file@,
            read_view(content),
        ) {
            Ok(_) => None,
            Err(fault) => Some(fault),
        },
        Entry::Unreadable(text) => Some(IngestionFault::Io(text@)),
        Entry::Other => None,
    }
}

/// A search fails exactly if the directory cannot be listed or an entry of it
/// cannot be gone past, and then it says why of the first of them. What is in
/// the graph already does not matter.
pub proof fn law_first_fault_is_reported(graph: GraphView, directory: Directory, i: int)
    ensures
        directory.listing matches Err(text) ==> walked(graph, directory) == Err::<
            GraphView,
            IngestionFault,
        >(IngestionFault::Io(text@)),
        directory.listing is Ok && (forall|j: int|
            0 <= j < directory.listing->Ok_0@.len() ==> #[trigger] fault_at(directory, j) is None)
            ==> walked(graph, directory) is Ok,
        directory.listing is Ok && 0 <= i < directory.listing->Ok_0@.len() && fault_at(directory, i)
            is Some && (forall|j: int| 0 <= j < i ==> #[trigger] fault_at(directory, j) is None)
            ==> walked(graph, directory) == Err::<GraphView, IngestionFault>(
            fault_at(directory, i)->0,
        ),
{
    if let Ok(entries) = directory.listing {
        let all = entries@;
        if forall|j: int| 0 <= j < all.len() ==> #[trigger] fault_at(directory, j) is None {
            lemma_no_fault(graph, directory, all, all.len());
        }
        if 0 <= i < all.len() && fault_at(directory, i) is Some && (forall|j: int|
            0 <= j < i ==> #[trigger] fault_at(directory, j) is None) {
            lemma_no_fault(graph, directory, all, i as nat);
            if let Entry::Directory(inner) = all[i] {
                lemma_faults_agree(
                    walked_entries(graph, directory.name@, directory.path@, all, i as nat)->Ok_0,
                    empty_graph(),
                    inner,
                );
            }
            lemma_first_error_stands(
                graph,
                directory.name@,
                directory.path@,
                all,
                (i + 1) as nat,
                all.len(),
            );
        }
    }
}

proof fn lemma_no_fault(graph: GraphView, directory: Directory, entries: Seq<Entry>, n: nat)
    requires
        directory.listing is Ok,
        directory.listing->Ok_0@ == entries,
        n <= entries.len(),
        forall|j: int| 0 <= j < n ==> #[trigger] fault_at(directory, j) is None,
    ensures
        walked_entries(graph, directory.name@, directory.path@, entries, n) is Ok,
    decreases n,
{
    if n > 0 {
        let m = (n - 1) as nat;
        lemma_no_fault(graph, directory, entries, m);
        assert(fault_at(directory, n - 1) is None);
        if let Entry::Directory(inner) = entries[n - 1] {
            lemma_faults_agree(
                walked_entries(graph, directory.name@, directory.path@, entries, m)->Ok_0,
                empty_graph(),
                inner,
            );
        }
    }
}

/// Whether a search fails, and why, does not depend on the graph.
proof fn lemma_faults_agree(a: GraphView, b: GraphView, directory: Directory)
    ensures
        walked(a, directory) is Ok <==> walked(b, directory) is Ok,
        walked(a, directory) is Err ==> walked(a, directory)->Err_0 == walked(b, directory)->Err_0,
    decreases directory, 0nat,
{
    if let Ok(entries) = directory.listing {
        lemma_entry_faults_agree(
            a,
            b,
            directory.name@,
            directory.path@,
            entries@,
            entries@.len(),
        );
    }
}

proof fn lemma_entry_faults_agree(
    a: GraphView,
    b: GraphView,
    name: Seq<char>,
    path: Seq<u8>,
    entries: Seq<Entry>,
    n: nat,
)
    requires
        n <= entries.len(),
    ensures
        walked_entries(a, name, path, entries, n) is Ok <==> walked_entries(
            b,
            name,
            path,
            entries,
            n,
        ) is Ok,
        walked_entries(a, name, path, entries, n) is Err ==> walked_entries(
            a,
            name,
            path,
            entries,
            n,
        )->Err_0 == walked_entries(b, name, path, entries, n)->Err_0,
    decreases entries, n,
{
    if n > 0 {
        let m = (n - 1) as nat;
        lemma_entry_faults_agree(a, b, name, path, entries, m);
        if walked_entries(a, name, path, entries, m) is Ok {
            if let Entry::Directory(inner) = entries[n - 1] {
                lemma_faults_agree(
                    walked_entries(a, name, path, entries, m)->Ok_0,
                    walked_entries(b, name, path, entries, m)->Ok_0,
                    inner,
                );
            }
        }
    }
}

/// An error says what kind it is of, and then why.
pub proof fn law_fault_texts(text: Seq<char>)
    ensures
        IngestionFault::Io(text).described() == "SCM ingestion I/O error: "@ + text,
        IngestionFault::Toml(text).described() == "SCM ingestion TOML error: "@ + text,
        IngestionFault::Message(text).described() == "SCM ingestion error: "@ + text,
{
}

} // verus!
