//! What manifests say, in terms of the texts and documents themselves.

use vstd::prelude::*;

use crate::scm::graph::DependencyType;
use crate::scm::ingestion::{is_manifest, is_skipped, manifest_in, IngestionFault};
use crate::scm::manifest::{
    cargo_manifest, ends_name, go_manifest, go_module, is_requirement, length_to_marker, name_length, package_name, package_names,
    python_manifest, required_packages, requirements_manifest, GoModule, ManifestView,
};
use crate::scm::toml_value::{
    entry_of, grouped_texts_in, keys_in, text_in, texts_among, texts_in, texts_in_groups, toml_document, under,
    TomlEntry, TomlTree,
};
use crate::text::{is_space, law_first_word, law_one_word, law_trimmed, lines, trimmed, words};

verus! {

/// A character at which the name in a dependency specification ends: white
/// space, or the start of a version or of extras.
pub open spec fn is_delimiter(c: char) -> bool {
    is_space(c) || "=<>!~["@.contains(c)
}

proof fn lemma_delimiters(c: char)
    ensures
        "=<>!~["@.contains(c) <==> c == '=' || c == '<' || c == '>' || c == '!' || c == '~' || c
            == '[',
{
    reveal_strlit("=<>!~[");
    let all = "=<>!~["@;
    assert(all.len() == 6);
    assert(all[0] == '=' && all[1] == '<' && all[2] == '>' && all[3] == '!' && all[4] == '~'
        && all[5] == '[');
    if all.contains(c) {
        let i = choose|i: int| 0 <= i < all.len() && all[i] == c;
    }
}

proof fn lemma_marker(text: Seq<char>)
    ensures
        ({
            let m = length_to_marker(text) as int;
            &&& 0 <= m <= text.len()
            &&& forall|i: int| 0 <= i < m ==> #[trigger] text[i] != ';'
            &&& m < text.len() ==> text[m] == ';'
        }),
    decreases text.len(),
{
    if text.len() > 0 && text[0] != ';' {
        let rest = text.drop_first();
        lemma_marker(rest);
        let m = length_to_marker(text) as int;
        assert forall|i: int| 0 <= i < m implies #[trigger] text[i] != ';' by {
            if i > 0 {
                assert(rest[i - 1] == text[i]);
            }
        }
        if m < text.len() {
            assert(rest[m - 1] == text[m]);
        }
    }
}

proof fn lemma_name_length(text: Seq<char>)
    ensures
        ({
            let n = name_length(text) as int;
            &&& 0 <= n <= text.len()
            &&& forall|i: int| 0 <= i < n ==> !ends_name(#[trigger] text[i])
            &&& n < text.len() ==> ends_name(text[n])
        }),
    decreases text.len(),
{
    if text.len() > 0 && !ends_name(text[0]) {
        let rest = text.drop_first();
        lemma_name_length(rest);
        let n = name_length(text) as int;
        assert forall|i: int| 0 <= i < n implies !ends_name(#[trigger] text[i]) by {
            if i > 0 {
                assert(rest[i - 1] == text[i]);
            }
        }
        if n < text.len() {
            assert(rest[n - 1] == text[n]);
        }
    }
}

/// The package name in a dependency specification is the run of characters that
/// begins behind the leading white space and ends before the first white space,
/// one of `=<>!~[`, the first semicolon, or the end of the text.
pub proof fn law_package_name(spec_text: Seq<char>) -> (place: (int, int, int))
    ensures
        ({
            let (start, end, marker) = place;
            &&& 0 <= start <= end <= marker <= spec_text.len()
            &&& forall|i: int| 0 <= i < marker ==> #[trigger] spec_text[i] != ';'
            &&& marker < spec_text.len() ==> spec_text[marker] == ';'
            &&& forall|i: int| 0 <= i < start ==> is_space(#[trigger] spec_text[i])
            &&& start < marker && start == end ==> is_delimiter(spec_text[start])
            &&& package_name(spec_text) == spec_text.subrange(start, end)
            &&& forall|i: int| start <= i < end ==> !is_delimiter(#[trigger] spec_text[i])
            &&& end < marker ==> is_delimiter(spec_text[end])
        }),
{
    lemma_marker(spec_text);
    let marker = length_to_marker(spec_text) as int;
    let head = spec_text.take(marker);
    let (start, stop) = law_trimmed(head);
    let requirement = trimmed(head);
    lemma_name_length(requirement);
    let n = name_length(requirement) as int;
    let end = start + n;
    assert(requirement.take(n) =~= spec_text.subrange(start, end));
    assert forall|i: int| start <= i < end implies !is_delimiter(#[trigger] spec_text[i]) by {
        assert(requirement[i - start] == spec_text[i]);
        lemma_delimiters(spec_text[i]);
    }
    assert forall|i: int| 0 <= i < start implies is_space(#[trigger] spec_text[i]) by {
        assert(head[i] == spec_text[i]);
    }
    if end < marker {
        lemma_delimiters(spec_text[end]);
        if end < stop {
            assert(requirement[n] == spec_text[end]);
        } else {
            assert(head[end] == spec_text[end]);
        }
    }
    (start, end, marker)
}

/// A text without any of these characters is its own package name.
pub proof fn law_plain_name(name: Seq<char>, rest: Seq<char>)
    requires
        name.len() > 0,
        forall|i: int| 0 <= i < name.len() ==> !is_delimiter(#[trigger] name[i]) && name[i] != ';',
        rest.len() > 0 ==> is_delimiter(rest[0]) || rest[0] == ';',
    ensures
        package_name(name + rest) == name,
{
    let text = name + rest;
    let (start, end, marker) = law_package_name(text);
    assert(text[0] == name[0]);
    if start > 0 {
        assert(is_space(text[0]));
    }
    if end < name.len() {
        assert(text[end] == name[end]);
    }
    if end > name.len() {
        assert(text[name.len() as int] == rest[0]);
    }
    assert(end == name.len());
    assert(text.subrange(0, end) =~= name);
}

/// A table has this value under a key: it is the first one under it.
pub open spec fn holds(tree: TomlTree, key: Seq<char>, value: TomlTree) -> bool {
    tree matches TomlTree::Table(entries) && exists|i: int|
        {
            &&& 0 <= i < entries.len()
            &&& (#[trigger] entries[i]).key == key
            &&& entries[i].value == value
            &&& forall|j: int| 0 <= j < i ==> (#[trigger] entries[j]).key != key
        }
}

/// A tree has nothing under a key.
pub open spec fn lacks(tree: TomlTree, key: Seq<char>) -> bool {
    tree matches TomlTree::Table(entries) ==> forall|i: int|
        0 <= i < entries.len() ==> (#[trigger] entries[i]).key != key
}

proof fn lemma_entry(entries: Seq<TomlEntry>, key: Seq<char>)
    ensures
        match entry_of(entries, key) {
            Some(value) => holds(TomlTree::Table(entries), key, value),
            None => lacks(TomlTree::Table(entries), key),
        },
    decreases entries.len(),
{
    if entries.len() > 0 {
        if entries[0].key == key {
            assert(holds(TomlTree::Table(entries), key, entries[0].value));
        } else {
            let rest = entries.drop_first();
            lemma_entry(rest, key);
            match entry_of(entries, key) {
                Some(value) => {
                    let i = choose|i: int|
                        {
                            &&& 0 <= i < rest.len()
                            &&& (#[trigger] rest[i]).key == key
                            &&& rest[i].value == value
                            &&& forall|j: int| 0 <= j < i ==> (#[trigger] rest[j]).key != key
                        };
                    assert(entries[i + 1] == rest[i]);
                    assert forall|j: int| 0 <= j < i + 1 implies (#[trigger] entries[j]).key
                        != key by {
                        if j > 0 {
                            assert(rest[j - 1] == entries[j]);
                        }
                    }
                },
                None => {
                    assert forall|i: int| 0 <= i < entries.len() implies (
                    #[trigger] entries[i]).key != key by {
                        if i > 0 {
                            assert(rest[i - 1] == entries[i]);
                        }
                    }
                },
            }
        }
    }
}

/// What stands under a key is what the table has under it.
pub proof fn law_under(tree: TomlTree, key: Seq<char>)
    ensures
        match under(Some(tree), key) {
            Some(value) => holds(tree, key, value),
            None => lacks(tree, key),
        },
        under(None, key) is None,
{
    if let TomlTree::Table(entries) = tree {
        lemma_entry(entries, key);
    }
}

proof fn lemma_holds(tree: TomlTree, key: Seq<char>, value: TomlTree)
    requires
        holds(tree, key, value),
    ensures
        under(Some(tree), key) == Some(value),
{
    law_under(tree, key);
    let entries = tree->Table_0;
    let i = choose|i: int|
        {
            &&& 0 <= i < entries.len()
            &&& (#[trigger] entries[i]).key == key
            &&& entries[i].value == value
            &&& forall|j: int| 0 <= j < i ==> (#[trigger] entries[j]).key != key
        };
    let found = under(Some(tree), key)->0;
    let k = choose|k: int|
        {
            &&& 0 <= k < entries.len()
            &&& (#[trigger] entries[k]).key == key
            &&& entries[k].value == found
            &&& forall|j: int| 0 <= j < k ==> (#[trigger] entries[j]).key != key
        };
    if i < k {
        assert(entries[i].key != key);
    }
    if k < i {
        assert(entries[k].key != key);
    }
}

/// `names` are the keys of the table that stands under a key, in order; there
/// are none if no table does.
pub open spec fn are_keys_under(tree: TomlTree, key: Seq<char>, names: Seq<Seq<char>>) -> bool {
    ||| exists|entries: Seq<TomlEntry>|
        #[trigger] holds(tree, key, TomlTree::Table(entries)) && names.len() == entries.len()
            && forall|i: int| 0 <= i < names.len() ==> #[trigger] names[i] == entries[i].key
    ||| (forall|entries: Seq<TomlEntry>| !#[trigger] holds(tree, key, TomlTree::Table(entries)))
        && names.len() == 0
}

proof fn lemma_keys(tree: TomlTree, key: Seq<char>, names: Seq<Seq<char>>)
    requires
        are_keys_under(tree, key, names),
    ensures
        names == keys_in(under(Some(tree), key)),
{
    law_under(tree, key);
    if exists|entries: Seq<TomlEntry>|
        #[trigger] holds(tree, key, TomlTree::Table(entries)) && names.len() == entries.len()
            && forall|i: int| 0 <= i < names.len() ==> #[trigger] names[i] == entries[i].key {
        let entries = choose|entries: Seq<TomlEntry>|
            #[trigger] holds(tree, key, TomlTree::Table(entries)) && names.len() == entries.len()
                && forall|i: int| 0 <= i < names.len() ==> #[trigger] names[i] == entries[i].key;
        lemma_holds(tree, key, TomlTree::Table(entries));
    }
    assert(names =~= keys_in(under(Some(tree), key)));
}

/// A Cargo package has the name that stands in its `package` table and is
/// written in Rust. At compile time it depends on the keys of `dependencies`,
/// and for development on those of `dev-dependencies` and `build-dependencies`,
/// in this order, once for each key.
pub proof fn law_cargo_manifest(
    document: TomlTree,
    package: TomlTree,
    name: Seq<char>,
    compile: Seq<Seq<char>>,
    dev: Seq<Seq<char>>,
    build: Seq<Seq<char>>,
)
    requires
        holds(document, "package"@, package),
        holds(package, "name"@, TomlTree::Text(name)),
        name.len() > 0,
        are_keys_under(document, "dependencies"@, compile),
        are_keys_under(document, "dev-dependencies"@, dev),
        are_keys_under(document, "build-dependencies"@, build),
    ensures
        ({
            let manifest = cargo_manifest(document)->0;
            &&& cargo_manifest(document) is Some
            &&& manifest.name == name
            &&& manifest.language == "rust"@
            &&& manifest.dependencies == compile.map_values(
                |key: Seq<char>| (key, DependencyType::Compile),
            ) + dev.map_values(|key: Seq<char>| (key, DependencyType::Dev)) + build.map_values(
                |key: Seq<char>| (key, DependencyType::Dev),
            )
        }),
{
    lemma_holds(document, "package"@, package);
    lemma_holds(package, "name"@, TomlTree::Text(name));
    lemma_keys(document, "dependencies"@, compile);
    lemma_keys(document, "dev-dependencies"@, dev);
    lemma_keys(document, "build-dependencies"@, build);
    assert(cargo_manifest(document)->0.dependencies =~= compile.map_values(
        |key: Seq<char>| (key, DependencyType::Compile),
    ) + dev.map_values(|key: Seq<char>| (key, DependencyType::Dev)) + build.map_values(
        |key: Seq<char>| (key, DependencyType::Dev),
    ));
}

/// Without a text that is not empty under `name` in its `package` table, a
/// `Cargo.toml` is that of no package.
pub proof fn law_no_cargo_package(document: TomlTree)
    requires
        forall|package: TomlTree, name: Seq<char>|
            #![trigger holds(package, "name"@, TomlTree::Text(name)), holds(document, "package"@, package)]
            holds(document, "package"@, package) && holds(package, "name"@, TomlTree::Text(name))
                ==> name.len() == 0,
    ensures
        cargo_manifest(document) is None,
{
    law_under(document, "package"@);
    if let Some(package) = under(Some(document), "package"@) {
        law_under(package, "name"@);
        if let Some(TomlTree::Text(name)) = under(Some(package), "name"@) {
            assert(holds(package, "name"@, TomlTree::Text(name)));
            assert(holds(document, "package"@, package));
        }
    }
}

/// The texts in a list, in order.
pub open spec fn texts_of_list(items: Seq<TomlTree>) -> Seq<Seq<char>> {
    items.filter(|item: TomlTree| item is Text).map_values(|item: TomlTree| item->Text_0)
}

proof fn lemma_texts(items: Seq<TomlTree>)
    ensures
        texts_among(items) == texts_of_list(items),
    decreases items.len(),
{
    reveal(Seq::filter);
    let text = |item: TomlTree| item is Text;
    let content = |item: TomlTree| item->Text_0;
    if items.len() == 0 {
        assert(items.filter(text).map_values(content) =~= texts_among(items));
    } else {
        lemma_texts(items.drop_last());
        let before = items.drop_last().filter(text);
        if items.last() is Text {
            assert(items.filter(text) == before.push(items.last()));
            assert(items.filter(text).map_values(content) =~= before.map_values(content).push(
                items.last()->Text_0,
            ));
        } else {
            assert(items.filter(text) == before);
        }
    }
}

/// The texts in a value: those of a list, none of anything else.
pub open spec fn texts_of(value: TomlTree) -> Seq<Seq<char>> {
    match value {
        TomlTree::List(items) => texts_of_list(items),
        _ => Seq::empty(),
    }
}

proof fn lemma_groups(entries: Seq<TomlEntry>)
    ensures
        texts_in_groups(entries) == entries.map_values(
            |entry: TomlEntry| texts_of(entry.value),
        ).flatten_alt(),
    decreases entries.len(),
{
    let texts = |entry: TomlEntry| texts_of(entry.value);
    let all = entries.map_values(texts);
    if entries.len() > 0 {
        lemma_groups(entries.drop_last());
        assert(all.drop_last() =~= entries.drop_last().map_values(texts));
        assert(all.last() == texts_of(entries.last().value));
        if let TomlTree::List(items) = entries.last().value {
            lemma_texts(items);
        }
    }
}

/// What a document has at a path of two keys, if it has.
pub open spec fn holds_below(
    document: TomlTree,
    first: Seq<char>,
    second: Seq<char>,
    value: Option<TomlTree>,
) -> bool {
    match value {
        Some(value) => exists|table: TomlTree|
            #[trigger] holds(document, first, table) && holds(table, second, value),
        None => forall|table: TomlTree| #[trigger] holds(document, first, table) ==> lacks(table, second),
    }
}

proof fn lemma_holds_below(
    document: TomlTree,
    first: Seq<char>,
    second: Seq<char>,
    value: Option<TomlTree>,
)
    requires
        holds_below(document, first, second, value),
    ensures
        under(under(Some(document), first), second) == value,
{
    law_under(document, first);
    match value {
        Some(inner) => {
            let table = choose|table: TomlTree|
                #[trigger] holds(document, first, table) && holds(table, second, inner);
            lemma_holds(document, first, table);
            lemma_holds(table, second, inner);
        },
        None => {
            if let Some(table) = under(Some(document), first) {
                assert(holds(document, first, table));
                law_under(table, second);
                if let Some(inner) = under(Some(table), second) {
                    assert(holds(table, second, inner));
                }
            }
        },
    }
}

/// The package names of dependency specifications.
pub open spec fn named(specs: Seq<Seq<char>>, kind: DependencyType) -> Seq<
    (Seq<char>, DependencyType),
> {
    specs.map_values(|text: Seq<char>| (package_name(text), kind))
}

/// A Python package has the name of its project, or else the one for Poetry. At
/// run time it depends on what the project's dependency specifications name; as
/// features on what the lists of optional dependencies name; at run time on the
/// keys of Poetry's dependencies, save `python` itself; and for development on
/// the keys of Poetry's development dependencies.
pub proof fn law_python_manifest(
    document: TomlTree,
    poetry: Option<TomlTree>,
    name: Option<TomlTree>,
    required: Option<TomlTree>,
    optional: Option<TomlTree>,
)
    requires
        holds_below(document, "tool"@, "poetry"@, poetry),
        holds_below(document, "project"@, "name"@, name),
        holds_below(document, "project"@, "dependencies"@, required),
        holds_below(document, "project"@, "optional-dependencies"@, optional),
    ensures
        ({
            let own_name = match name {
                Some(TomlTree::Text(text)) => Some(text),
                _ => match under(poetry, "name"@) {
                    Some(TomlTree::Text(text)) => Some(text),
                    _ => None,
                },
            };
            let manifest = python_manifest(document)->0;
            let runtime = match required {
                Some(value) => texts_of(value),
                None => Seq::empty(),
            };
            let features = match optional {
                Some(TomlTree::Table(entries)) => entries.map_values(
                    |entry: TomlEntry| texts_of(entry.value),
                ).flatten_alt(),
                _ => Seq::empty(),
            };
            &&& python_manifest(document) is Some <==> own_name is Some && own_name->0.len() > 0
            &&& python_manifest(document) is Some ==> {
                &&& manifest.name == own_name->0
                &&& manifest.language == "python"@
                &&& manifest.dependencies == named(runtime, DependencyType::Runtime) + named(
                    features,
                    DependencyType::Feature,
                ) + keys_in(under(poetry, "dependencies"@)).filter(
                    |key: Seq<char>| key != "python"@,
                ).map_values(|key: Seq<char>| (key, DependencyType::Runtime)) + keys_in(
                    under(poetry, "dev-dependencies"@),
                ).map_values(|key: Seq<char>| (key, DependencyType::Dev))
            }
        }),
{
    lemma_holds_below(document, "tool"@, "poetry"@, poetry);
    lemma_holds_below(document, "project"@, "name"@, name);
    lemma_holds_below(document, "project"@, "dependencies"@, required);
    lemma_holds_below(document, "project"@, "optional-dependencies"@, optional);
    let runtime = match required {
        Some(value) => texts_of(value),
        None => Seq::empty(),
    };
    let features = match optional {
        Some(TomlTree::Table(entries)) => entries.map_values(
            |entry: TomlEntry| texts_of(entry.value),
        ).flatten_alt(),
        _ => Seq::empty(),
    };
    if let Some(TomlTree::List(items)) = required {
        lemma_texts(items);
    }
    if let Some(TomlTree::Table(entries)) = optional {
        lemma_groups(entries);
    }
    assert(texts_in(required) == runtime);
    assert(grouped_texts_in(optional) == features);
    if python_manifest(document) is Some {
        let others = keys_in(under(poetry, "dependencies"@)).filter(
            |key: Seq<char>| key != "python"@,
        );
        let dev = keys_in(under(poetry, "dev-dependencies"@));
        assert(python_manifest(document)->0.dependencies =~= named(runtime, DependencyType::Runtime)
            + named(features, DependencyType::Feature) + others.map_values(
            |key: Seq<char>| (key, DependencyType::Runtime),
        ) + dev.map_values(|key: Seq<char>| (key, DependencyType::Dev)));
    }
}

/// The keys of a table are those of its entries, each once and in order.
pub proof fn law_keys(entries: Seq<TomlEntry>)
    ensures
        keys_in(Some(TomlTree::Table(entries))).len() == entries.len(),
        forall|i: int|
            0 <= i < entries.len() ==> #[trigger] keys_in(Some(TomlTree::Table(entries)))[i]
                == entries[i].key,
        keys_in(None) == Seq::<Seq<char>>::empty(),
{
}

/// A directory with a `requirements.txt` is a Python package of its own name. It
/// depends at run time on what those lines name that are neither blank nor begin
/// with a number sign or a hyphen, in their order.
pub proof fn law_requirements_manifest(dir_name: Seq<char>, content: Seq<char>)
    ensures
        requirements_manifest(dir_name, content) is Some <==> dir_name.len() > 0,
        dir_name.len() > 0 ==> {
            let manifest = requirements_manifest(dir_name, content)->0;
            &&& manifest.name == dir_name
            &&& manifest.language == "python"@
            &&& manifest.dependencies == lines(content).filter(
                |line: Seq<char>|
                    trimmed(line).len() > 0 && trimmed(line)[0] != '#' && trimmed(line)[0] != '-',
            ).map_values(
                |line: Seq<char>| (package_name(trimmed(line)), DependencyType::Runtime),
            )
        },
{
    if dir_name.len() > 0 {
        lemma_required(lines(content));
        assert(requirements_manifest(dir_name, content)->0.dependencies =~= lines(content).filter(
            |line: Seq<char>|
                trimmed(line).len() > 0 && trimmed(line)[0] != '#' && trimmed(line)[0] != '-',
        ).map_values(|line: Seq<char>| (package_name(trimmed(line)), DependencyType::Runtime)));
    }
}

proof fn lemma_required(all: Seq<Seq<char>>)
    ensures
        required_packages(all) == all.filter(
            |line: Seq<char>|
                trimmed(line).len() > 0 && trimmed(line)[0] != '#' && trimmed(line)[0] != '-',
        ).map_values(|line: Seq<char>| package_name(trimmed(line))),
    decreases all.len(),
{
    reveal(Seq::filter);
    let counts = |line: Seq<char>|
        trimmed(line).len() > 0 && trimmed(line)[0] != '#' && trimmed(line)[0] != '-';
    let name = |line: Seq<char>| package_name(trimmed(line));
    if all.len() == 0 {
        assert(all.filter(counts).map_values(name) =~= required_packages(all));
    } else {
        lemma_required(all.drop_last());
        let before = all.drop_last().filter(counts);
        if counts(all.last()) {
            assert(is_requirement(all.last()));
            assert(all.filter(counts) == before.push(all.last()));
            assert(all.filter(counts).map_values(name) =~= before.map_values(name).push(
                name(all.last()),
            ));
        } else {
            assert(!is_requirement(all.last()));
            assert(all.filter(counts) == before);
        }
    }
}

/// A search does not enter hidden directories, build output and vendored
/// packages, and enters every other one.
pub proof fn law_skipped_directories(name: Seq<char>)
    ensures
        is_skipped(name) <==> (name.len() > 0 && name[0] == '.') || name == "target"@ || name
            == "node_modules"@,
{
}

/// A file is a manifest by its name: `Cargo.toml`, `pyproject.toml`, `go.mod`,
/// and `requirements.txt` in a directory with a name. Other files are not read.
/// Each is read as its kind says: one that cannot be read, or is no document
/// where it should be, is an error.
pub proof fn law_manifests_by_name(
    dir_name: Seq<char>,
    file_name: Seq<char>,
    content: Result<Seq<char>, Seq<char>>,
)
    ensures
        ({
            let found = manifest_in(dir_name, file_name, content);
            let text = content->Ok_0;
            if file_name == "Cargo.toml"@ || file_name == "pyproject.toml"@ {
                match content {
                    Err(reason) => found == Err::<Option<ManifestView>, IngestionFault>(IngestionFault::Io(reason)),
                    Ok(_) => match toml_document(text) {
                        Err(reason) => found == Err::<Option<ManifestView>, IngestionFault>(
                            IngestionFault::Toml(reason),
                        ),
                        Ok(document) => found == Ok::<Option<ManifestView>, IngestionFault>(
                            if file_name == "Cargo.toml"@ {
                                cargo_manifest(document)
                            } else {
                                python_manifest(document)
                            },
                        ),
                    },
                }
            } else if file_name == "go.mod"@ || (file_name == "requirements.txt"@ && dir_name.len()
                > 0) {
                match content {
                    Err(reason) => found == Err::<Option<ManifestView>, IngestionFault>(IngestionFault::Io(reason)),
                    Ok(_) => found == Ok::<Option<ManifestView>, IngestionFault>(
                        if file_name == "go.mod"@ {
                            go_manifest(text)
                        } else {
                            requirements_manifest(dir_name, text)
                        },
                    ),
                }
            } else {
                found == Ok::<Option<ManifestView>, IngestionFault>(None)
            }
        }),
        is_manifest(dir_name, file_name) <==> file_name == "Cargo.toml"@ || file_name
            == "pyproject.toml"@ || file_name == "go.mod"@ || (file_name == "requirements.txt"@
            && dir_name.len() > 0),
{
    reveal_strlit("Cargo.toml");
    reveal_strlit("pyproject.toml");
    reveal_strlit("go.mod");
    reveal_strlit("requirements.txt");
    assert("Cargo.toml"@.len() == 10 && "pyproject.toml"@.len() == 14 && "go.mod"@.len() == 6
        && "requirements.txt"@.len() == 16);
}

/// A word: characters that are not white space.
pub open spec fn is_word(text: Seq<char>) -> bool {
    text.len() > 0 && forall|i: int| 0 <= i < text.len() ==> !is_space(#[trigger] text[i])
}

/// A text that neither begins nor ends with white space is left as it is.
proof fn lemma_trimmed_already(text: Seq<char>)
    requires
        text.len() > 0,
        !is_space(text[0]),
        !is_space(text.last()),
    ensures
        trimmed(text) == text,
{
    let (start, end) = law_trimmed(text);
    if start > 0 {
        assert(is_space(text[0]));
    }
    if end < text.len() {
        assert(is_space(text[text.len() - 1]));
    }
    assert(text.subrange(0, text.len() as int) =~= text);
}

/// A `go.mod` is read line by line. A line `module name` names the module, a
/// line `require name version` requires a package, and so does a line
/// `name version` between `require (` and `)`.
pub proof fn law_go_lines_are_read(before: Seq<Seq<char>>, name: Seq<char>, version: Seq<char>)
    requires
        is_word(name),
        is_word(version),
        name[0] != '(',
        name[0] != ')',
        name[0] != '/',
        name != "module"@,
        name != "require"@,
    ensures
        ({
            let so_far = go_module(before);
            let naming = go_module(before.push("module "@ + name));
            let requiring = go_module(before.push("require "@ + name + " "@ + version));
            let listing = go_module(before.push(name + " "@ + version));
            let opening = go_module(before.push("require ("@));
            let closing = go_module(before.push(")"@));
            &&& naming == (GoModule { name, ..so_far })
            &&& opening == (GoModule { requires_open: true, ..so_far })
            &&& closing == (GoModule { requires_open: false, ..so_far })
            &&& !so_far.requires_open ==> requiring == (GoModule {
                required: so_far.required.push(name),
                ..so_far
            })
            &&& listing == if so_far.requires_open {
                GoModule { required: so_far.required.push(name), ..so_far }
            } else {
                so_far
            }
            &&& go_module(before.push(Seq::empty())) == so_far
            &&& go_module(before.push("//"@ + name)) == so_far
        }),
{
    reveal_strlit("module ");
    reveal_strlit("require ");
    reveal_strlit("require (");
    reveal_strlit(")");
    reveal_strlit("//");
    reveal_strlit(" ");
    reveal_strlit("module");
    reveal_strlit("require");
    let space = ' ';
    assert(is_space(space));
    assert(" "@ =~= seq![' ']);
    let naming = "module "@ + name;
    let requiring = "require "@ + name + " "@ + version;
    let listing = name + " "@ + version;
    let blank = Seq::<char>::empty();
    let comment = "//"@ + name;
    assert(before.push(naming).drop_last() =~= before);
    assert(before.push(requiring).drop_last() =~= before);
    assert(before.push(listing).drop_last() =~= before);
    assert(before.push("require ("@).drop_last() =~= before);
    assert(before.push(")"@).drop_last() =~= before);
    assert(before.push(blank).drop_last() =~= before);
    assert(before.push(comment).drop_last() =~= before);
    // The line that names the module.
    assert(naming[0] == 'm' && naming[1] == 'o');
    assert(naming.last() == name.last());
    lemma_trimmed_already(naming);
    assert("module "@.is_prefix_of(naming)) by {
        assert(naming.subrange(0, 7) =~= "module "@);
    }
    assert(!"//"@.is_prefix_of(naming)) by {
        if "//"@.is_prefix_of(naming) {
            assert(naming.subrange(0, 2)[0] == naming[0]);
        }
    }
    lemma_two_words("module"@, name);
    assert(naming =~= "module"@.push(' ') + name);
    // A line that requires a package.
    assert(requiring[0] == 'r' && requiring[8] == name[0]);
    assert(requiring.last() == version.last());
    lemma_trimmed_already(requiring);
    assert("require "@.is_prefix_of(requiring)) by {
        assert(requiring.subrange(0, 8) =~= "require "@);
    }
    assert(!"require ("@.is_prefix_of(requiring)) by {
        if "require ("@.is_prefix_of(requiring) {
            assert(requiring.subrange(0, 9)[8] == requiring[8]);
        }
    }
    assert(!"//"@.is_prefix_of(requiring) && !"module "@.is_prefix_of(requiring)) by {
        if "//"@.is_prefix_of(requiring) {
            assert(requiring.subrange(0, 2)[0] == requiring[0]);
        }
        if "module "@.is_prefix_of(requiring) {
            assert(requiring.subrange(0, 7)[0] == requiring[0]);
        }
    }
    lemma_two_words(name, version);
    assert(requiring =~= "require"@.push(' ') + (name.push(' ') + version));
    assert forall|i: int| 0 <= i < "require"@.len() implies !is_space(#[trigger] "require"@[i]) by {}
    law_first_word(space, "require"@, space, name.push(' ') + version);
    assert(words(requiring) == seq!["require"@] + seq![name, version]);
    assert(words(requiring).len() == 3 && words(requiring)[1] == name);
    assert(requiring != ")"@) by {
        assert(requiring.len() > 1);
    }
    // A line of a block.
    assert(listing =~= name.push(' ') + version);
    assert(listing[0] == name[0]);
    assert(listing.last() == version.last());
    lemma_trimmed_already(listing);
    assert(words(listing) == seq![name, version]);
    assert(words(listing)[0] == name);
    assert(listing[name.len() as int] == ' ');
    assert(!"//"@.is_prefix_of(listing) && !"//"@.is_prefix_of(name)) by {
        if "//"@.is_prefix_of(listing) {
            assert(listing.subrange(0, 2)[0] == listing[0]);
        }
        if "//"@.is_prefix_of(name) {
            assert(name.subrange(0, 2)[0] == name[0]);
        }
    }
    lemma_first_word_differs(name, version, "module"@);
    lemma_first_word_differs(name, version, "require"@);
    assert("module "@ =~= "module"@.push(' '));
    assert("require "@ =~= "require"@.push(' '));
    assert(!"require ("@.is_prefix_of(listing)) by {
        if "require ("@.is_prefix_of(listing) {
            assert(listing.subrange(0, 8) =~= "require "@) by {
                assert forall|i: int| 0 <= i < 8 implies listing[i] == "require "@[i] by {
                    assert(listing.subrange(0, 9)[i] == listing[i]);
                }
            }
        }
    }
    assert(listing != ")"@) by {
        assert(listing.len() > 1);
    }
    // Lines that open and close a block, and those that say nothing.
    lemma_trimmed_already("require ("@);
    lemma_trimmed_already(")"@);
    assert("require ("@.subrange(0, 9) =~= "require ("@);
    assert(!"//"@.is_prefix_of("require ("@) && !"module "@.is_prefix_of("require ("@)) by {
        if "//"@.is_prefix_of("require ("@) {
            assert("require ("@.subrange(0, 2)[0] == 'r');
        }
        if "module "@.is_prefix_of("require ("@) {
            assert("require ("@.subrange(0, 7)[0] == 'r');
        }
    }
    assert(trimmed(blank).len() == 0);
    assert(comment[0] == '/' && comment.last() == name.last());
    lemma_trimmed_already(comment);
    assert(comment.subrange(0, 2) =~= "//"@);
}

proof fn lemma_two_words(first: Seq<char>, second: Seq<char>)
    requires
        is_word(first),
        is_word(second),
    ensures
        words(first.push(' ') + second) == seq![first, second],
{
    law_first_word(' ', first, ' ', second);
    law_one_word(second);
    assert(seq![first] + seq![second] =~= seq![first, second]);
}

/// A line that begins with one word does not begin with another.
proof fn lemma_first_word_differs(first: Seq<char>, second: Seq<char>, other: Seq<char>)
    requires
        is_word(first),
        is_word(other),
        first != other,
    ensures
        !other.push(' ').is_prefix_of(first + " "@ + second),
{
    reveal_strlit(" ");
    let line = first + " "@ + second;
    let start = other.push(' ');
    if start.is_prefix_of(line) {
        assert forall|i: int| 0 <= i < start.len() implies start[i] == line[i] by {
            assert(line.subrange(0, start.len() as int)[i] == line[i]);
        }
        if other.len() < first.len() {
            assert(start[other.len() as int] == ' ');
            assert(line[other.len() as int] == first[other.len() as int]);
            assert(is_space(' '));
        } else if first.len() < other.len() {
            assert(line[first.len() as int] == ' ');
            assert(start[first.len() as int] == other[first.len() as int]);
            assert(is_space(' '));
        } else {
            assert forall|i: int| 0 <= i < first.len() implies first[i] == other[i] by {
                assert(start[i] == other[i] && line[i] == first[i]);
            }
            assert(first =~= other);
        }
    }
}

/// A `go.mod` is a Go package under the name of its module, if it has one, and
/// depends at compile time on what it requires, in order.
pub proof fn law_go_manifest(content: Seq<char>)
    ensures
        ({
            let module = go_module(lines(content));
            let manifest = go_manifest(content)->0;
            &&& go_manifest(content) is Some <==> module.name.len() > 0
            &&& module.name.len() > 0 ==> {
                &&& manifest.name == module.name
                &&& manifest.language == "go"@
                &&& manifest.dependencies == module.required.map_values(
                    |name: Seq<char>| (name, DependencyType::Compile),
                )
            }
        }),
        go_module(Seq::<Seq<char>>::empty()) == (GoModule {
            name: Seq::empty(),
            requires_open: false,
            required: Seq::empty(),
        }),
{
    if go_manifest(content) is Some {
        let module = go_module(lines(content));
        assert(go_manifest(content)->0.dependencies =~= module.required.map_values(
            |name: Seq<char>| (name, DependencyType::Compile),
        ));
    }
}

} // verus!
