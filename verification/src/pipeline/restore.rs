//! Repair of broken Python files from the version-control history.
//!
//! The output of a failed build names the file at fault. What the history holds
//! under that name becomes the candidate patch.

use vstd::prelude::*;

use crate::self_healing::router::Patch;
use crate::text::{
    byte_views, chars_of, contains, ends_with, find, joined, lines, lines_of, lossy, occurs, occurs_at, occurs_first, part_of, shown, stands_at, text_of, texts,
};
use crate::virtualization::engine::{strip, stripped};

verus! {

/// What `str::to_lowercase` makes of a text.
pub uninterp spec fn lower_case(text: Seq<char>) -> Seq<char>;

/// Calls `str::to_lowercase`. Its outcome depends on the text alone, and is
/// called `lower_case`.
#[verifier::external_body]
fn to_lower_case(text: &str) -> (result: String)
    ensures
        result@ == lower_case(text@),
{
    text.to_lowercase()
}

/// Whether a character can be part of a program's name: an ASCII letter or
/// digit, an underscore, or any character that is not ASCII.
pub open spec fn is_name_char(c: char) -> bool {
    ||| 'a' <= c <= 'z'
    ||| 'A' <= c <= 'Z'
    ||| '0' <= c <= '9'
    ||| c == '_'
    ||| (c as u32) >= 128
}

/// A name stands at place `at` of a text, as a whole: it does not begin within
/// another one, and is not that of a directory in a path or the stem of a file.
pub open spec fn is_named_at(text: Seq<char>, name: Seq<char>, at: int) -> bool {
    let end = at + name.len();
    &&& occurs_at(text, name, at)
    &&& at > 0 ==> !is_name_char(text[at - 1])
    &&& end < text.len() ==> !is_name_char(text[end]) && text[end] != '/' && text[end] != '.'
}

/// A name stands in a text as a whole.
pub open spec fn is_named(text: Seq<char>, name: Seq<char>) -> bool {
    exists|at: int| is_named_at(text, name, at)
}

/// Whether a line in lower case names a tool that builds need.
pub open spec fn names_tool(line: Seq<char>) -> bool {
    ||| is_named(line, "gcc"@)
    ||| is_named(line, "make"@)
    ||| is_named(line, "cmake"@)
    ||| is_named(line, "m4"@)
    ||| is_named(line, "python3"@)
    ||| is_named(line, "pip3"@)
    ||| is_named(line, "c compiler"@)
    ||| is_named(line, "linker"@)
}

/// Whether a line in lower case speaks of a program that could not be started.
pub open spec fn is_unstarted(line: Seq<char>) -> bool {
    ||| occurs(line, "failed to run command"@)
    ||| occurs(line, "failed to spawn command"@)
    ||| occurs(line, "unable to execute"@)
    ||| occurs(line, "error: command"@)
}

/// Whether a line in lower case reports that a system tool is missing: a shell
/// does not find it, it cannot be started, or it is one that builds need and is
/// not found.
pub open spec fn reports_missing(line: Seq<char>) -> bool {
    ||| is_named(line, "sh"@) && occurs(line, ": not found"@)
    ||| occurs(line, "not found"@) && names_tool(line)
    ||| is_unstarted(line) && occurs(line, "no such file or directory"@)
}

/// Whether one of the lines reports that a system tool is missing.
pub open spec fn some_missing(lines: Seq<Seq<char>>) -> bool {
    exists|i: int| 0 <= i < lines.len() && reports_missing(#[trigger] lines[i])
}

/// Whether a message in lower case mentions a missing system tool. The macro
/// processor `m4` need not stand in the line that says what is not found.
pub open spec fn is_missing_tool(lowered: Seq<char>) -> bool {
    ||| occurs(lowered, "command not found"@)
    ||| some_missing(lines(lowered))
    ||| is_named(lowered, "m4"@) && occurs(lowered, "not found"@)
}

/// Whether a character can be part of a program's name.
fn continues_name(c: char) -> (result: bool)
    ensures
        result == is_name_char(c),
{
    ('a' <= c && c <= 'z') || ('A' <= c && c <= 'Z') || ('0' <= c && c <= '9') || c == '_' || c
        as u32 >= 128
}

/// Whether a name stands at place `at` of a text, as a whole.
fn names_at(text: &Vec<char>, name: &Vec<char>, at: usize) -> (result: bool)
    requires
        at + name.len() <= text.len(),
    ensures
        result == is_named_at(text@, name@, at as int),
{
    let end: usize = at + name.len();
    stands_at(text, name, at) && (at == 0 || !continues_name(text[at - 1])) && (end == text.len()
        || (!continues_name(text[end]) && text[end] != '/' && text[end] != '.'))
}

/// Whether a name stands in a text as a whole.
fn names(text: &Vec<char>, name: &str) -> (result: bool)
    ensures
        result == is_named(text@, name@),
{
    let part = chars_of(name);
    if text.len() < part.len() {
        return false;
    }
    let last: usize = text.len() - part.len();
    let mut at: usize = 0;
    while at < last
        invariant
            at <= last,
            last + part.len() == text.len(),
            part@ == name@,
            forall|i: int| 0 <= i < at ==> !is_named_at(text@, name@, i),
        decreases last - at,
    {
        if names_at(text, &part, at) {
            return true;
        }
        at = at + 1;
    }
    names_at(text, &part, last)
}

/// Whether a part stands somewhere in a line.
fn holds(line: &Vec<char>, part: &str) -> (result: bool)
    ensures
        result == occurs(line@, part@),
{
    find(line, &chars_of(part)).is_some()
}

/// Whether a line in lower case reports that a system tool is missing.
fn is_report(line: &Vec<char>) -> (result: bool)
    ensures
        result == reports_missing(line@),
{
    let tool = names(line, "gcc") || names(line, "make") || names(line, "cmake") || names(
        line,
        "m4",
    ) || names(line, "python3") || names(line, "pip3") || names(line, "c compiler") || names(
        line,
        "linker",
    );
    let unstarted = holds(line, "failed to run command") || holds(line, "failed to spawn command")
        || holds(line, "unable to execute") || holds(line, "error: command");
    (names(line, "sh") && holds(line, ": not found")) || (holds(line, "not found") && tool) || (
    unstarted && holds(line, "no such file or directory"))
}

/// Whether a message in lower case mentions a missing system tool.
pub fn names_missing_tool(lowered: &str) -> (result: bool)
    ensures
        result == is_missing_tool(lowered@),
{
    let all = lines_of(lowered);
    let ghost views = texts(all@);
    let mut i: usize = 0;
    while i < all.len()
        invariant
            i <= all.len(),
            views == texts(all@),
            views == lines(lowered@),
            forall|j: int| 0 <= j < i ==> !reports_missing(#[trigger] views[j]),
        decreases all.len() - i,
    {
        if is_report(&all[i]) {
            assert(reports_missing(views[i as int]));
            return true;
        }
        assert(views[i as int] == all@[i as int]@);
        i = i + 1;
    }
    contains(lowered, "command not found") || (names(&chars_of(lowered), "m4") && contains(
        lowered,
        "not found",
    ))
}

/// What stands between the first `opening` in a line and the first `closing`
/// behind it.
pub open spec fn enclosed(line: Seq<char>, opening: Seq<char>, closing: Seq<char>) -> Option<
    Seq<char>,
> {
    if !occurs(line, opening) {
        None
    } else {
        let start = choose|at: int| occurs_first(line, opening, at);
        let rest = line.skip(start + opening.len());
        if !occurs(rest, closing) {
            None
        } else {
            Some(rest.take(choose|at: int| occurs_first(rest, closing, at)))
        }
    }
}

/// A text without the commas at its end.
pub open spec fn without_commas(text: Seq<char>) -> Seq<char>
    decreases text.len(),
{
    if text.len() > 0 && text.last() == ',' {
        without_commas(text.drop_last())
    } else {
        text
    }
}

/// The Python file that a line names between `opening` and `closing`.
pub open spec fn file_between(line: Seq<char>, opening: Seq<char>, closing: Seq<char>) -> Option<
    Seq<char>,
> {
    match enclosed(line, opening, closing) {
        Some(text) => if ".py"@.is_suffix_of(without_commas(text)) {
            Some(without_commas(text))
        } else {
            None
        },
        None => None,
    }
}

/// The Python file that a line names, in double quotes or else in single ones.
pub open spec fn file_in_line(line: Seq<char>) -> Option<Seq<char>> {
    match file_between(line, "File \""@, "\""@) {
        Some(path) => Some(path),
        None => file_between(line, "File '"@, "'"@),
    }
}

/// The Python file that is named first.
pub open spec fn first_file(lines: Seq<Seq<char>>) -> Option<Seq<char>>
    decreases lines.len(),
{
    if lines.len() == 0 {
        None
    } else {
        match file_in_line(lines[0]) {
            Some(path) => Some(path),
            None => first_file(lines.drop_first()),
        }
    }
}

/// A text occurs first at one place.
pub proof fn lemma_first_place(text: Seq<char>, part: Seq<char>, at: int)
    requires
        occurs_first(text, part, at),
    ensures
        occurs(text, part),
        (choose|i: int| occurs_first(text, part, i)) == at,
{
    assert(occurs_at(text, part, at));
    let i = choose|i: int| occurs_first(text, part, i);
    assert(occurs_first(text, part, i));
    if i < at {
        assert(!occurs_at(text, part, i));
    }
    if at < i {
        assert(!occurs_at(text, part, at));
    }
}

/// The Python file that a line names between `opening` and `closing`.
fn find_file(line: &Vec<char>, opening: &str, closing: &str) -> (path: Option<String>)
    ensures
        match path {
            Some(path) => file_between(line@, opening@, closing@) == Some(path@),
            None => file_between(line@, opening@, closing@) is None,
        },
{
    let opening = chars_of(opening);
    let closing = chars_of(closing);
    let start: usize = match find(line, &opening) {
        Some(at) => at,
        None => return None,
    };
    proof {
        lemma_first_place(line@, opening@, start as int);
        assert(start + opening.len() <= line.len());
    }
    let rest = part_of(line, start + opening.len(), line.len());
    assert(rest@ =~= line@.skip(start + opening@.len()));
    let end: usize = match find(&rest, &closing) {
        Some(at) => at,
        None => return None,
    };
    proof {
        lemma_first_place(rest@, closing@, end as int);
    }
    let mut length: usize = end;
    assert(rest@.take(end as int) =~= rest@.subrange(0, end as int));
    while length > 0 && rest[length - 1] == ','
        invariant
            length <= end <= rest.len(),
            without_commas(rest@.subrange(0, end as int)) == without_commas(
                rest@.subrange(0, length as int),
            ),
        decreases length,
    {
        assert(rest@.subrange(0, length as int).drop_last() =~= rest@.subrange(0, length - 1));
        length = length - 1;
    }
    let candidate = part_of(&rest, 0, length);
    if ends_with(&candidate, ".py") {
        let path = text_of(&candidate, 0, candidate.len());
        assert(path@ =~= candidate@);
        Some(path)
    } else {
        None
    }
}

/// The Python file that the output of a failed build names first, as tracebacks
/// and `compileall` do.
pub fn extract_py_path(message: &str) -> (path: Option<String>)
    ensures
        match path {
            Some(path) => first_file(lines(message@)) == Some(path@),
            None => first_file(lines(message@)) is None,
        },
{
    let all = lines_of(message);
    let ghost views = texts(all@);
    assert(views.skip(0) =~= views);
    let mut i: usize = 0;
    while i < all.len()
        invariant
            i <= all.len(),
            views == texts(all@),
            views == lines(message@),
            first_file(views) == first_file(views.skip(i as int)),
        decreases all.len() - i,
    {
        let ghost rest = views.skip(i as int);
        proof {
            assert(rest[0] == all@[i as int]@);
            assert(rest.drop_first() =~= views.skip(i + 1));
        }
        if let Some(path) = find_file(&all[i], "File \"", "\"") {
            return Some(path);
        }
        if let Some(path) = find_file(&all[i], "File '", "'") {
            return Some(path);
        }
        i = i + 1;
    }
    None
}

/// The file that a failure asks to be restored: the Python file that it names,
/// unless a system tool is missing, which no patch mends.
pub open spec fn file_to_restore(message: Seq<char>) -> Option<Seq<char>> {
    if is_missing_tool(lower_case(message)) {
        None
    } else {
        first_file(lines(message))
    }
}

/// The file that a failure asks to be restored.
pub fn broken_file(message: &str) -> (path: Option<String>)
    ensures
        match path {
            Some(path) => file_to_restore(message@) == Some(path@),
            None => file_to_restore(message@) is None,
        },
{
    if names_missing_tool(&to_lower_case(message)) {
        None
    } else {
        extract_py_path(message)
    }
}

/// The path of a broken file in the repository: an absolute path below the
/// repository is taken from there, any other stands as it is. Paths are given by
/// their components.
pub fn relative_to(path: Vec<Vec<u8>>, is_absolute: bool, repository: &Vec<Vec<u8>>) -> (rest: Vec<
    Vec<u8>,
>)
    ensures
        byte_views(rest@) == match stripped(byte_views(path@), byte_views(repository@)) {
            Some(rest) => if is_absolute {
                rest
            } else {
                byte_views(path@)
            },
            None => byte_views(path@),
        },
{
    if is_absolute {
        if let Some(rest) = strip(&path, repository) {
            return rest;
        }
    }
    path
}

/// What the history calls the last committed version of a file, whose path is
/// taken from the current directory.
pub fn history_name(path: &str) -> (name: String)
    ensures
        name@ == "HEAD:./"@ + path@,
{
    joined("HEAD:./", path)
}

/// What the history holds of a file, given how asking for it went and the bytes
/// that came back.
pub fn history_content(ok: bool, stdout: &[u8]) -> (content: Option<String>)
    ensures
        match content {
            Some(content) => ok && content@ == lossy(stdout@),
            None => !ok,
        },
{
    if ok {
        Some(shown(stdout))
    } else {
        None
    }
}

/// The candidate patches, given what the history holds of a file.
pub fn restoring(path: String, content: Option<String>) -> (patches: Vec<Patch>)
    ensures
        match content {
            Some(content) => patches@ == seq![(Patch { path, content })],
            None => patches@.len() == 0,
        },
{
    let mut patches: Vec<Patch> = Vec::new();
    if let Some(content) = content {
        patches.push(Patch { path, content });
    }
    patches
}

} // verus!
