//! Package manifests: what a package is called and what it depends on.

use vstd::prelude::*;

use crate::scm::graph::DependencyType;
use crate::scm::toml_value::{
    as_text, get, grouped_texts, grouped_texts_in, keys, keys_in, list_texts, text_in, texts_in, under,
    TomlTree, TomlValue,
};
use crate::text::{
    chars_of, is_space, is_white_space, lines, lines_of, part_of, same, starts_with, string_views, text_of, texts, trim, trimmed,
    words, words_of,
};

verus! {

/// What a manifest says about its package.
#[derive(Debug)]
pub struct Manifest {
    pub name: String,
    pub language: String,
    pub dependencies: Vec<(String, DependencyType)>,
}

/// What a manifest says, with its texts as character sequences.
pub struct ManifestView {
    pub name: Seq<char>,
    pub language: Seq<char>,
    pub dependencies: Seq<(Seq<char>, DependencyType)>,
}

/// Dependencies with their names as character sequences.
pub open spec fn dependency_views(
    list: Seq<(String, DependencyType)>,
) -> Seq<(Seq<char>, DependencyType)> {
    Seq::new(list.len(), |i: int| (list[i].0@, list[i].1))
}

impl View for Manifest {
    type V = ManifestView;

    open spec fn view(&self) -> ManifestView {
        ManifestView {
            name: self.name@,
            language: self.language@,
            dependencies: dependency_views(self.dependencies@),
        }
    }
}

/// What a manifest says, if there is one.
pub open spec fn manifest_view(manifest: Option<Manifest>) -> Option<ManifestView> {
    match manifest {
        Some(manifest) => Some(manifest@),
        None => None,
    }
}

/// Dependencies of one kind.
pub open spec fn of_kind(names: Seq<Seq<char>>, kind: DependencyType) -> Seq<
    (Seq<char>, DependencyType),
> {
    Seq::new(names.len(), |i: int| (names[i], kind))
}

/// Append dependencies of one kind.
fn append(list: &mut Vec<(String, DependencyType)>, names: &Vec<String>, kind: DependencyType)
    ensures
        dependency_views(final(list)@) == dependency_views(old(list)@) + of_kind(
            string_views(names@),
            kind,
        ),
{
    let ghost before = list@;
    let mut i: usize = 0;
    while i < names.len()
        invariant
            i <= names.len(),
            list@.len() == before.len() + i,
            forall|j: int| 0 <= j < before.len() ==> #[trigger] list@[j] == before[j],
            forall|j: int|
                0 <= j < i ==> (#[trigger] list@[before.len() + j]).0@ == names@[j]@ && list@[before.len()
                    + j].1 == kind,
        decreases names.len() - i,
    {
        list.push((names[i].clone(), kind));
        i = i + 1;
    }
    proof {
        let added = of_kind(string_views(names@), kind);
        assert forall|j: int| 0 <= j < list@.len() implies #[trigger] dependency_views(list@)[j] == (
        dependency_views(before) + added)[j] by {
            if j >= before.len() {
                let k = j - before.len();
                assert(list@[before.len() + k].0@ == names@[k]@);
            } else {
                assert(list@[j] == before[j]);
            }
        }
        assert(dependency_views(list@) =~= dependency_views(before) + added);
    }
}

/// How many characters stand before the first `;`.
pub open spec fn length_to_marker(text: Seq<char>) -> nat
    decreases text.len(),
{
    if text.len() == 0 || text[0] == ';' {
        0
    } else {
        1 + length_to_marker(text.drop_first())
    }
}

/// Whether a character ends the name in a dependency specification.
pub open spec fn ends_name(c: char) -> bool {
    is_space(c) || c == '=' || c == '<' || c == '>' || c == '!' || c == '~' || c == '['
}

/// How many characters stand before the first one that ends the name.
pub open spec fn name_length(text: Seq<char>) -> nat
    decreases text.len(),
{
    if text.len() == 0 || ends_name(text[0]) {
        0
    } else {
        1 + name_length(text.drop_first())
    }
}

/// The package name in a dependency specification: what stands before the
/// environment marker, up to the version or the extras.
pub open spec fn package_name(spec_text: Seq<char>) -> Seq<char> {
    let requirement = trimmed(spec_text.take(length_to_marker(spec_text) as int));
    requirement.take(name_length(requirement) as int)
}

/// The package name in a dependency specification.
fn package_name_of(spec_text: &Vec<char>) -> (name: String)
    ensures
        name@ == package_name(spec_text@),
{
    let mut end: usize = 0;
    assert(spec_text@.skip(0) =~= spec_text@);
    while end < spec_text.len() && spec_text[end] != ';'
        invariant
            end <= spec_text.len(),
            length_to_marker(spec_text@) == end + length_to_marker(spec_text@.skip(end as int)),
        decreases spec_text.len() - end,
    {
        assert(spec_text@.skip(end as int).drop_first() =~= spec_text@.skip(end + 1));
        end = end + 1;
    }
    let head = part_of(spec_text, 0, end);
    assert(head@ =~= spec_text@.take(end as int));
    let requirement = trim(&head);
    let mut length: usize = 0;
    assert(requirement@.skip(0) =~= requirement@);
    while length < requirement.len() && !(is_white_space(requirement[length]) || requirement[length] == '='
        || requirement[length] == '<' || requirement[length] == '>' || requirement[length] == '!'
        || requirement[length] == '~' || requirement[length] == '[')
        invariant
            length <= requirement.len(),
            name_length(requirement@) == length + name_length(requirement@.skip(length as int)),
        decreases requirement.len() - length,
    {
        assert(requirement@.skip(length as int).drop_first() =~= requirement@.skip(length + 1));
        length = length + 1;
    }
    let name = text_of(&requirement, 0, length);
    assert(name@ =~= requirement@.take(length as int));
    name
}

/// Extract the package name from a dependency specification such as
/// `requests>=2.28` or `numpy==1.23 ; python_version >= "3.8"`.
pub fn parse_pkg_name(spec_text: &str) -> (name: String)
    ensures
        name@ == package_name(spec_text@),
{
    package_name_of(&chars_of(spec_text))
}

/// The package names in a list of dependency specifications.
pub open spec fn package_names(specs: Seq<Seq<char>>) -> Seq<Seq<char>> {
    Seq::new(specs.len(), |i: int| package_name(specs[i]))
}

/// The package names in a list of dependency specifications.
fn package_names_of(specs: &Vec<String>) -> (names: Vec<String>)
    ensures
        string_views(names@) == package_names(string_views(specs@)),
{
    let mut names: Vec<String> = Vec::new();
    let mut i: usize = 0;
    while i < specs.len()
        invariant
            i <= specs.len(),
            names@.len() == i,
            forall|j: int| 0 <= j < i ==> (#[trigger] names@[j])@ == package_name(specs@[j]@),
        decreases specs.len() - i,
    {
        names.push(parse_pkg_name(&specs[i]));
        i = i + 1;
    }
    assert(string_views(names@) =~= package_names(string_views(specs@)));
    names
}

/// What a `Cargo.toml` says. Without a package name it is no package.
pub open spec fn cargo_manifest(document: TomlTree) -> Option<ManifestView> {
    let name = text_in(under(under(Some(document), "package"@), "name"@));
    match name {
        Some(name) => if name.len() == 0 {
            None
        } else {
            Some(
                ManifestView {
                    name,
                    language: "rust"@,
                    dependencies: of_kind(
                        keys_in(under(Some(document), "dependencies"@)),
                        DependencyType::Compile,
                    ) + of_kind(
                        keys_in(under(Some(document), "dev-dependencies"@)),
                        DependencyType::Dev,
                    ) + of_kind(
                        keys_in(under(Some(document), "build-dependencies"@)),
                        DependencyType::Dev,
                    ),
                },
            )
        },
        None => None,
    }
}

/// Read the document in a `Cargo.toml`.
pub fn parse_cargo_toml(document: &TomlValue) -> (manifest: Option<Manifest>)
    ensures
        manifest_view(manifest) == cargo_manifest(document@),
{
    let name = match as_text(get(get(Some(document), "package"), "name")) {
        Some(name) => name,
        None => return None,
    };
    if name.as_str().is_empty() {
        return None;
    }
    let mut dependencies: Vec<(String, DependencyType)> = Vec::new();
    assert(dependency_views(dependencies@) =~= Seq::<(Seq<char>, DependencyType)>::empty());
    append(&mut dependencies, &keys(get(Some(document), "dependencies")), DependencyType::Compile);
    append(&mut dependencies, &keys(get(Some(document), "dev-dependencies")), DependencyType::Dev);
    append(&mut dependencies, &keys(get(Some(document), "build-dependencies")), DependencyType::Dev);
    let manifest = Manifest { name, language: "rust".to_owned(), dependencies };
    assert(manifest@.dependencies =~= cargo_manifest(document@)->0.dependencies);
    Some(manifest)
}

/// Names other than `python`.
pub open spec fn without_python(names: Seq<Seq<char>>) -> Seq<Seq<char>> {
    names.filter(|name: Seq<char>| name != "python"@)
}

/// Names other than `python`.
fn packages_only(names: &Vec<String>) -> (list: Vec<String>)
    ensures
        string_views(list@) == without_python(string_views(names@)),
{
    let ghost all = string_views(names@);
    let ghost kept = |name: Seq<char>| name != "python"@;
    let mut list: Vec<String> = Vec::new();
    let mut i: usize = 0;
    assert(string_views(list@) =~= all.take(0).filter(kept)) by {
        reveal(Seq::filter);
    }
    while i < names.len()
        invariant
            i <= names.len(),
            all == string_views(names@),
            kept == |name: Seq<char>| name != "python"@,
            string_views(list@) =~= all.take(i as int).filter(kept),
        decreases names.len() - i,
    {
        let ghost so_far = list@;
        proof {
            reveal(Seq::filter);
            assert(all.take(i + 1).drop_last() =~= all.take(i as int));
            assert(all.take(i + 1).last() == names@[i as int]@);
        }
        if !same(&names[i], "python") {
            list.push(names[i].clone());
            assert(string_views(list@) =~= string_views(so_far).push(names@[i as int]@));
        }
        i = i + 1;
    }
    assert(all.take(i as int) =~= all);
    list
}

/// The package name in a `pyproject.toml`: that of the project, else the one
/// for Poetry.
pub open spec fn python_package_name(document: TomlTree) -> Option<Seq<char>> {
    match text_in(under(under(Some(document), "project"@), "name"@)) {
        Some(name) => Some(name),
        None => text_in(under(under(under(Some(document), "tool"@), "poetry"@), "name"@)),
    }
}

/// What a `pyproject.toml` says. Without a package name it is no package.
pub open spec fn python_manifest(document: TomlTree) -> Option<ManifestView> {
    let project = under(Some(document), "project"@);
    let poetry = under(under(Some(document), "tool"@), "poetry"@);
    match python_package_name(document) {
        Some(name) => if name.len() == 0 {
            None
        } else {
            Some(
                ManifestView {
                    name,
                    language: "python"@,
                    dependencies: of_kind(
                        package_names(texts_in(under(project, "dependencies"@))),
                        DependencyType::Runtime,
                    ) + of_kind(
                        package_names(grouped_texts_in(under(project, "optional-dependencies"@))),
                        DependencyType::Feature,
                    ) + of_kind(
                        without_python(keys_in(under(poetry, "dependencies"@))),
                        DependencyType::Runtime,
                    ) + of_kind(
                        keys_in(under(poetry, "dev-dependencies"@)),
                        DependencyType::Dev,
                    ),
                },
            )
        },
        None => None,
    }
}

/// Read the document in a `pyproject.toml`.
pub fn parse_pyproject_toml(document: &TomlValue) -> (manifest: Option<Manifest>)
    ensures
        manifest_view(manifest) == python_manifest(document@),
{
    let project = get(Some(document), "project");
    let poetry = get(get(Some(document), "tool"), "poetry");
    let name = match as_text(get(project, "name")) {
        Some(name) => name,
        None => match as_text(get(poetry, "name")) {
            Some(name) => name,
            None => return None,
        },
    };
    if name.as_str().is_empty() {
        return None;
    }
    let required = package_names_of(&list_texts(get(project, "dependencies")));
    let optional = package_names_of(&grouped_texts(get(project, "optional-dependencies")));
    let poetry_required = packages_only(&keys(get(poetry, "dependencies")));
    let poetry_dev = keys(get(poetry, "dev-dependencies"));
    let mut dependencies: Vec<(String, DependencyType)> = Vec::new();
    assert(dependency_views(dependencies@) =~= Seq::<(Seq<char>, DependencyType)>::empty());
    append(&mut dependencies, &required, DependencyType::Runtime);
    append(&mut dependencies, &optional, DependencyType::Feature);
    append(&mut dependencies, &poetry_required, DependencyType::Runtime);
    append(&mut dependencies, &poetry_dev, DependencyType::Dev);
    let manifest = Manifest { name, language: "python".to_owned(), dependencies };
    assert(manifest@.dependencies =~= python_manifest(document@)->0.dependencies);
    Some(manifest)
}

/// Whether a line of a `requirements.txt` names a package: it is neither blank
/// nor a comment nor an option.
pub open spec fn is_requirement(line: Seq<char>) -> bool {
    trimmed(line).len() > 0 && trimmed(line)[0] != '#' && trimmed(line)[0] != '-'
}

/// The packages that the lines of a `requirements.txt` name.
pub open spec fn required_packages(lines: Seq<Seq<char>>) -> Seq<Seq<char>>
    decreases lines.len(),
{
    if lines.len() == 0 {
        Seq::empty()
    } else {
        let before = required_packages(lines.drop_last());
        if is_requirement(lines.last()) {
            before.push(package_name(trimmed(lines.last())))
        } else {
            before
        }
    }
}

/// What a `requirements.txt` says. The package has the name of its directory.
pub open spec fn requirements_manifest(dir_name: Seq<char>, content: Seq<char>) -> Option<
    ManifestView,
> {
    if dir_name.len() == 0 {
        None
    } else {
        Some(
            ManifestView {
                name: dir_name,
                language: "python"@,
                dependencies: of_kind(required_packages(lines(content)), DependencyType::Runtime),
            },
        )
    }
}

/// Read a `requirements.txt` in a directory of the given name.
pub fn parse_requirements_txt(dir_name: &str, content: &str) -> (manifest: Option<Manifest>)
    ensures
        manifest_view(manifest) == requirements_manifest(dir_name@, content@),
{
    if dir_name.is_empty() {
        return None;
    }
    let all = lines_of(content);
    let mut names: Vec<String> = Vec::new();
    let mut i: usize = 0;
    assert(texts(all@).take(0) =~= Seq::<Seq<char>>::empty());
    while i < all.len()
        invariant
            i <= all.len(),
            string_views(names@) =~= required_packages(texts(all@).take(i as int)),
        decreases all.len() - i,
    {
        let ghost so_far = names@;
        proof {
            let seen = texts(all@).take(i + 1);
            assert(seen.drop_last() =~= texts(all@).take(i as int));
            assert(seen.last() == all@[i as int]@);
        }
        let line = trim(&all[i]);
        if line.len() > 0 && line[0] != '#' && line[0] != '-' {
            names.push(package_name_of(&line));
            assert(string_views(names@) =~= string_views(so_far).push(package_name(line@)));
        }
        i = i + 1;
    }
    assert(texts(all@).take(i as int) =~= texts(all@));
    let mut dependencies: Vec<(String, DependencyType)> = Vec::new();
    assert(dependency_views(dependencies@) =~= Seq::<(Seq<char>, DependencyType)>::empty());
    append(&mut dependencies, &names, DependencyType::Runtime);
    let manifest = Manifest {
        name: dir_name.to_owned(),
        language: "python".to_owned(),
        dependencies,
    };
    assert(manifest@.dependencies =~= requirements_manifest(dir_name@, content@)->0.dependencies);
    Some(manifest)
}

/// What the lines of a `go.mod` have said so far.
pub struct GoModule {
    pub name: Seq<char>,
    pub requires_open: bool,
    pub required: Seq<Seq<char>>,
}

/// The word at place `i` of a text, or nothing.
pub open spec fn word(text: Seq<char>, i: int) -> Seq<char> {
    if 0 <= i < words(text).len() {
        words(text)[i]
    } else {
        Seq::empty()
    }
}

/// What a `go.mod` has said after one more line.
pub open spec fn after_go_line(module: GoModule, line: Seq<char>) -> GoModule {
    let text = trimmed(line);
    if text.len() == 0 || "//"@.is_prefix_of(text) {
        module
    } else if "module "@.is_prefix_of(text) {
        GoModule { name: word(text, 1), ..module }
    } else if "require ("@.is_prefix_of(text) {
        GoModule { requires_open: true, ..module }
    } else if text == ")"@ {
        GoModule { requires_open: false, ..module }
    } else if module.requires_open {
        if words(text).len() > 0 && !"//"@.is_prefix_of(words(text)[0]) {
            GoModule { required: module.required.push(words(text)[0]), ..module }
        } else {
            module
        }
    } else if "require "@.is_prefix_of(text) && words(text).len() >= 2 {
        GoModule { required: module.required.push(words(text)[1]), ..module }
    } else {
        module
    }
}

/// What the lines of a `go.mod` say.
pub open spec fn go_module(lines: Seq<Seq<char>>) -> GoModule
    decreases lines.len(),
{
    if lines.len() == 0 {
        GoModule { name: Seq::empty(), requires_open: false, required: Seq::empty() }
    } else {
        after_go_line(go_module(lines.drop_last()), lines.last())
    }
}

/// What a `go.mod` says. Without a module name it is no package.
pub open spec fn go_manifest(content: Seq<char>) -> Option<ManifestView> {
    let module = go_module(lines(content));
    if module.name.len() == 0 {
        None
    } else {
        Some(
            ManifestView {
                name: module.name,
                language: "go"@,
                dependencies: of_kind(module.required, DependencyType::Compile),
            },
        )
    }
}

/// The text of a word.
fn word_text(word: &Vec<char>) -> (text: String)
    ensures
        text@ == word@,
{
    let text = text_of(word, 0, word.len());
    assert(text@ =~= word@);
    text
}

/// Read a `go.mod`.
pub fn parse_go_mod(content: &str) -> (manifest: Option<Manifest>)
    ensures
        manifest_view(manifest) == go_manifest(content@),
{
    let all = lines_of(content);
    let mut name = String::new();
    let mut names: Vec<String> = Vec::new();
    let mut requires_open = false;
    let mut i: usize = 0;
    proof {
        assert(texts(all@).take(0) =~= Seq::<Seq<char>>::empty());
        assert(string_views(names@) =~= Seq::<Seq<char>>::empty());
        assert(name@ =~= Seq::<char>::empty());
    }
    while i < all.len()
        invariant
            i <= all.len(),
            go_module(texts(all@).take(i as int)) == (GoModule {
                name: name@,
                requires_open,
                required: string_views(names@),
            }),
        decreases all.len() - i,
    {
        let ghost so_far = string_views(names@);
        proof {
            let seen = texts(all@).take(i + 1);
            assert(seen.drop_last() =~= texts(all@).take(i as int));
            assert(seen.last() == all@[i as int]@);
            reveal_strlit(")");
        }
        let line = trim(&all[i]);
        assert(line.len() == 1 && line[0] == ')' ==> line@ =~= ")"@);
        let parts = words_of(&line);
        assert(parts@.len() == words(line@).len());
        assert(forall|j: int| 0 <= j < parts@.len() ==> #[trigger] texts(parts@)[j] == parts@[j]@);
        i = i + 1;
        if line.len() == 0 || starts_with(&line, "//") {
            continue;
        }
        if starts_with(&line, "module ") {
            name = if parts.len() > 1 {
                word_text(&parts[1])
            } else {
                String::new()
            };
            assert(name@ =~= word(line@, 1));
        } else if starts_with(&line, "require (") {
            requires_open = true;
        } else if line.len() == 1 && line[0] == ')' {
            requires_open = false;
        } else if requires_open {
            if parts.len() > 0 && !starts_with(&parts[0], "//") {
                names.push(word_text(&parts[0]));
                assert(string_views(names@) =~= so_far.push(words(line@)[0]));
            }
        } else if starts_with(&line, "require ") {
            if parts.len() >= 2 {
                names.push(word_text(&parts[1]));
                assert(string_views(names@) =~= so_far.push(words(line@)[1]));
            }
        }
    }
    assert(texts(all@).take(i as int) =~= texts(all@));
    if name.as_str().is_empty() {
        return None;
    }
    let mut dependencies: Vec<(String, DependencyType)> = Vec::new();
    assert(dependency_views(dependencies@) =~= Seq::<(Seq<char>, DependencyType)>::empty());
    append(&mut dependencies, &names, DependencyType::Compile);
    let manifest = Manifest { name, language: "go".to_owned(), dependencies };
    assert(manifest@.dependencies =~= go_manifest(content@)->0.dependencies);
    Some(manifest)
}

/// A line of a `go.mod` that says nothing: it is empty or a comment.
pub open spec fn is_silent(line: Seq<char>) -> bool {
    trimmed(line).len() == 0 || "//"@.is_prefix_of(trimmed(line))
}

/// A line that names the module.
pub open spec fn names_module(line: Seq<char>) -> bool {
    !is_silent(line) && "module "@.is_prefix_of(trimmed(line))
}

/// A line that opens a block of requirements.
pub open spec fn opens_block(line: Seq<char>) -> bool {
    !is_silent(line) && !names_module(line) && "require ("@.is_prefix_of(trimmed(line))
}

/// A line that closes a block of requirements.
pub open spec fn closes_block(line: Seq<char>) -> bool {
    !is_silent(line) && !names_module(line) && !opens_block(line) && trimmed(line) == ")"@
}

/// The line at place `o` opens a block that is not closed before place `i`.
pub open spec fn is_open_since(lines: Seq<Seq<char>>, o: int, i: int) -> bool {
    &&& 0 <= o < i
    &&& opens_block(lines[o])
    &&& forall|c: int| o < c < i ==> !closes_block(#[trigger] lines[c])
}

/// The line at place `i` stands in a block of requirements.
pub open spec fn is_in_block(lines: Seq<Seq<char>>, i: int) -> bool {
    exists|o: int| is_open_since(lines, o, i)
}

/// What the line at place `i` requires: in a block its first word, elsewhere
/// the word behind `require`.
pub open spec fn requirement(lines: Seq<Seq<char>>, i: int) -> Option<Seq<char>> {
    let line = lines[i];
    let parts = words(trimmed(line));
    if is_silent(line) || names_module(line) || opens_block(line) || closes_block(line) {
        None
    } else if is_in_block(lines, i) {
        if parts.len() > 0 && !"//"@.is_prefix_of(parts[0]) {
            Some(parts[0])
        } else {
            None
        }
    } else if "require "@.is_prefix_of(trimmed(line)) && parts.len() >= 2 {
        Some(parts[1])
    } else {
        None
    }
}

/// What the first `n` lines require, in order.
pub open spec fn requirements(lines: Seq<Seq<char>>, n: nat) -> Seq<Seq<char>>
    decreases n,
{
    if n == 0 {
        Seq::empty()
    } else {
        match requirement(lines, n - 1) {
            Some(name) => requirements(lines, (n - 1) as nat).push(name),
            None => requirements(lines, (n - 1) as nat),
        }
    }
}

/// The line at place `m` is the last one of the first `n` that names the module.
pub open spec fn names_last(lines: Seq<Seq<char>>, m: int, n: int) -> bool {
    &&& 0 <= m < n
    &&& names_module(lines[m])
    &&& forall|l: int| m < l < n ==> !names_module(#[trigger] lines[l])
}

/// The line before place `n + 1` decides whether a block stays open.
proof fn lemma_block(lines: Seq<Seq<char>>, n: int)
    requires
        0 <= n < lines.len(),
    ensures
        is_in_block(lines, n + 1) == if opens_block(lines[n]) {
            true
        } else if closes_block(lines[n]) {
            false
        } else {
            is_in_block(lines, n)
        },
{
    if opens_block(lines[n]) {
        assert(is_open_since(lines, n, n + 1));
    } else if !closes_block(lines[n]) && is_in_block(lines, n) {
        let o = choose|o: int| is_open_since(lines, o, n);
        assert forall|c: int| o < c < n + 1 implies !closes_block(#[trigger] lines[c]) by {}
        assert(is_open_since(lines, o, n + 1));
    }
    if is_in_block(lines, n + 1) && !opens_block(lines[n]) {
        let next = n + 1;
        let o = choose|o: int| is_open_since(lines, o, next);
        assert(o < n);
        assert(!closes_block(lines[n]));
        assert(is_open_since(lines, o, n));
    }
}

proof fn lemma_go_lines(lines: Seq<Seq<char>>, n: nat)
    requires
        n <= lines.len(),
    ensures
        ({
            let module = go_module(lines.take(n as int));
            &&& module.requires_open == is_in_block(lines, n as int)
            &&& module.required == requirements(lines, n)
            &&& forall|m: int| #[trigger]
                names_last(lines, m, n as int) ==> module.name == word(trimmed(lines[m]), 1)
            &&& (forall|m: int| 0 <= m < n ==> !names_module(#[trigger] lines[m]))
                ==> module.name == Seq::<char>::empty()
        }),
    decreases n,
{
    if n == 0 {
        assert(lines.take(0) =~= Seq::<Seq<char>>::empty());
    } else {
        let m = (n - 1) as nat;
        let before = go_module(lines.take(m as int));
        let after = go_module(lines.take(n as int));
        lemma_go_lines(lines, m);
        lemma_block(lines, m as int);
        assert(lines.take(n as int).drop_last() =~= lines.take(m as int));
        assert(lines.take(n as int).last() == lines[m as int]);
        assert(after == after_go_line(before, lines[m as int]));
        assert forall|l: int| #[trigger] names_last(lines, l, n as int) implies after.name == word(
            trimmed(lines[l]),
            1,
        ) by {
            if l < m {
                assert(!names_module(lines[m as int]));
                assert(names_last(lines, l, m as int));
            }
        }
        if forall|l: int| 0 <= l < n ==> !names_module(#[trigger] lines[l]) {
            assert(!names_module(lines[m as int]));
            assert forall|l: int| 0 <= l < m implies !names_module(#[trigger] lines[l]) by {}
        }
    }
}

/// A `go.mod` is a package if its last line that names the module gives it a
/// name. It depends on what its lines require, in their order: the first word of
/// each line in a block, and the word behind `require` elsewhere.
pub proof fn law_go_lines(content: Seq<char>)
    ensures
        ({
            let all = lines(content);
            let manifest = go_manifest(content);
            &&& forall|m: int| #[trigger]
                names_last(all, m, all.len() as int) ==> {
                    let name = word(trimmed(all[m]), 1);
                    &&& manifest is None <==> name.len() == 0
                    &&& manifest is Some ==> manifest->0.name == name
                }
            &&& (forall|m: int| 0 <= m < all.len() ==> !names_module(#[trigger] all[m]))
                ==> manifest is None
            &&& manifest is Some ==> manifest->0.dependencies == of_kind(
                requirements(all, all.len()),
                DependencyType::Compile,
            )
        }),
{
    let all = lines(content);
    lemma_go_lines(all, all.len());
    assert(all.take(all.len() as int) =~= all);
}

} // verus!
