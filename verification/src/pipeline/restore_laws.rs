//! Which failures are repaired from the history, in terms of the messages
//! themselves.

use vstd::prelude::*;

use crate::pipeline::restore::{
    enclosed, file_between, file_in_line, file_to_restore, first_file, is_missing_tool, is_name_char, is_named,
    is_named_at, lemma_first_place, lower_case, names_tool, reports_missing, some_missing, without_commas,
};
use crate::text::{
    law_one_line, lemma_line_stands_in_text, lemma_part_of_part, lines, occurs, occurs_at, occurs_first,
};

verus! {

/// A part that stands at a place of a text stands in it.
proof fn lemma_stands(text: Seq<char>, part: Seq<char>, at: int)
    requires
        occurs_at(text, part, at),
    ensures
        occurs(text, part),
{
}

proof fn lemma_phrases()
    ensures
        occurs("command not found"@, "not found"@),
        occurs(": not found"@, "not found"@),
{
    reveal_strlit("command not found");
    reveal_strlit(": not found");
    reveal_strlit("not found");
    assert("command not found"@.subrange(8, 17) =~= "not found"@);
    assert(occurs_at("command not found"@, "not found"@, 8));
    assert(": not found"@.subrange(2, 11) =~= "not found"@);
    assert(occurs_at(": not found"@, "not found"@, 2));
}

/// The line that reports a missing tool, if one does.
proof fn lemma_reporting_line(lowered: Seq<char>) -> (line: Seq<char>)
    requires
        some_missing(lines(lowered)),
    ensures
        reports_missing(line),
        occurs(lowered, line),
{
    let i = choose|i: int|
        0 <= i < lines(lowered).len() && reports_missing(#[trigger] lines(lowered)[i]);
    lemma_line_stands_in_text(lowered, i);
    lines(lowered)[i]
}

/// A message speaks of a missing tool only if it says of something that it is
/// not found, or that there is no such file or directory.
pub proof fn law_missing_tool_is_reported(lowered: Seq<char>)
    requires
        is_missing_tool(lowered),
    ensures
        occurs(lowered, "not found"@) || occurs(lowered, "no such file or directory"@),
{
    lemma_phrases();
    if occurs(lowered, "command not found"@) {
        lemma_part_of_part(lowered, "command not found"@, "not found"@);
    } else if some_missing(lines(lowered)) {
        let line = lemma_reporting_line(lowered);
        if occurs(line, ": not found"@) {
            lemma_part_of_part(line, ": not found"@, "not found"@);
        }
        if occurs(line, "not found"@) {
            lemma_part_of_part(lowered, line, "not found"@);
        } else {
            lemma_part_of_part(lowered, line, "no such file or directory"@);
        }
    }
}

/// Of every other failure, the first Python file that it names is restored.
pub proof fn law_other_failures_are_repaired(message: Seq<char>)
    requires
        !occurs(lower_case(message), "not found"@),
        !occurs(lower_case(message), "no such file or directory"@),
    ensures
        file_to_restore(message) == first_file(lines(message)),
{
    if is_missing_tool(lower_case(message)) {
        law_missing_tool_is_reported(lower_case(message));
    }
}

/// What a message must name besides, to speak of a missing tool: a command that
/// was not found, a program that could not be started, or one of the tools.
pub proof fn law_missing_tool_is_named(lowered: Seq<char>)
    requires
        is_missing_tool(lowered),
    ensures
        ({
            ||| occurs(lowered, "command not found"@)
            ||| occurs(lowered, "no such file or directory"@) && (occurs(
                lowered,
                "failed to run command"@,
            ) || occurs(lowered, "failed to spawn command"@) || occurs(
                lowered,
                "unable to execute"@,
            ) || occurs(lowered, "error: command"@))
            ||| occurs(lowered, "not found"@) && (occurs(lowered, "gcc"@) || occurs(
                lowered,
                "make"@,
            ) || occurs(lowered, "cmake"@) || occurs(lowered, "m4"@) || occurs(lowered, "python3"@)
                || occurs(lowered, "pip3"@) || occurs(lowered, "c compiler"@) || occurs(
                lowered,
                "linker"@,
            ) || occurs(lowered, "sh"@))
        }),
{
    lemma_phrases();
    if !occurs(lowered, "command not found"@) {
        if some_missing(lines(lowered)) {
            let line = lemma_reporting_line(lowered);
            lemma_spread(lowered, line, "no such file or directory"@);
            lemma_spread(lowered, line, "failed to run command"@);
            lemma_spread(lowered, line, "failed to spawn command"@);
            lemma_spread(lowered, line, "unable to execute"@);
            lemma_spread(lowered, line, "error: command"@);
            lemma_spread(lowered, line, "not found"@);
            lemma_spread(lowered, line, "gcc"@);
            lemma_spread(lowered, line, "make"@);
            lemma_spread(lowered, line, "cmake"@);
            lemma_spread(lowered, line, "m4"@);
            lemma_spread(lowered, line, "python3"@);
            lemma_spread(lowered, line, "pip3"@);
            lemma_spread(lowered, line, "c compiler"@);
            lemma_spread(lowered, line, "linker"@);
            lemma_spread(lowered, line, "sh"@);
            if occurs(line, ": not found"@) {
                lemma_part_of_part(line, ": not found"@, "not found"@);
            }
        } else {
            lemma_spread(lowered, lowered, "m4"@);
        }
    }
}

/// What a line names stands in the text.
proof fn lemma_spread(text: Seq<char>, line: Seq<char>, part: Seq<char>)
    requires
        occurs(text, line) || text == line,
    ensures
        occurs(line, part) || is_named(line, part) ==> occurs(text, part),
        is_named(line, part) ==> occurs(line, part),
{
    if is_named(line, part) {
        let at = choose|at: int| is_named_at(line, part, at);
        assert(occurs_at(line, part, at));
    }
    if occurs(line, part) && text != line {
        lemma_part_of_part(text, line, part);
    }
}

/// A message that says of a command that it was not found speaks of a missing
/// tool, and nothing is restored.
pub proof fn law_command_not_found(before: Seq<char>, after: Seq<char>, message: Seq<char>)
    requires
        lower_case(message) == before + "command not found"@ + after,
    ensures
        is_missing_tool(lower_case(message)),
        file_to_restore(message) is None,
{
    let lowered = lower_case(message);
    let part = "command not found"@;
    assert(lowered.subrange(before.len() as int, (before.len() + part.len()) as int) =~= part);
    lemma_stands(lowered, part, before.len() as int);
}

/// A tool that builds need.
pub open spec fn is_needed_tool(tool: Seq<char>) -> bool {
    ||| tool == "gcc"@
    ||| tool == "make"@
    ||| tool == "cmake"@
    ||| tool == "m4"@
    ||| tool == "python3"@
    ||| tool == "pip3"@
}

/// A line that says of one of the tools that builds need that it is not found
/// speaks of a missing tool.
pub proof fn law_tool_not_found(before: Seq<char>, tool: Seq<char>, after: Seq<char>)
    requires
        is_needed_tool(tool),
        before.len() > 0 ==> before.last() == ' ',
        forall|i: int| 0 <= i < before.len() ==> #[trigger] before[i] != '\n',
        forall|i: int| 0 <= i < after.len() ==> #[trigger] after[i] != '\n',
    ensures
        is_missing_tool(before + tool + " not found"@ + after),
{
    reveal_strlit("gcc");
    reveal_strlit("make");
    reveal_strlit("cmake");
    reveal_strlit("m4");
    reveal_strlit("python3");
    reveal_strlit("pip3");
    reveal_strlit(" not found");
    reveal_strlit("not found");
    let line = before + tool + " not found"@ + after;
    let at = before.len() as int;
    let end = at + tool.len();
    assert(line.subrange(at, end) =~= tool);
    assert(line[end] == ' ');
    assert(!is_name_char(' '));
    if at > 0 {
        assert(line[at - 1] == before.last());
    }
    assert(is_named_at(line, tool, at));
    assert(is_named(line, tool));
    assert(line.subrange(end + 1, end + 10) =~= "not found"@);
    assert(occurs_at(line, "not found"@, end + 1));
    assert(names_tool(line));
    assert forall|i: int| 0 <= i < line.len() implies #[trigger] line[i] != '\n' by {
        if i < at {
            assert(line[i] == before[i]);
        } else if i < end {
            assert(line[i] == tool[i - at]);
        } else if i < end + 10 {
            assert(line[i] == " not found"@[i - end]);
        } else {
            assert(line[i] == after[i - end - 10]);
        }
    }
    law_one_line(line);
    assert(reports_missing(lines(line)[0]));
}

/// A line that says that a program could not be started because there is no such
/// file speaks of a missing tool.
pub proof fn law_program_not_started(line: Seq<char>)
    requires
        line.len() > 0,
        forall|i: int| 0 <= i < line.len() ==> #[trigger] line[i] != '\n',
        occurs(line, "failed to run command"@) || occurs(line, "failed to spawn command"@)
            || occurs(line, "unable to execute"@) || occurs(line, "error: command"@),
        occurs(line, "no such file or directory"@),
    ensures
        is_missing_tool(line),
{
    law_one_line(line);
    assert(reports_missing(lines(line)[0]));
}

/// The file that a failure asks to be restored is named in one of its lines, and
/// no line before that names a Python file. If no line does, there is none.
pub proof fn law_first_file(all: Seq<Seq<char>>)
    ensures
        match first_file(all) {
            Some(path) => exists|i: int|
                0 <= i < all.len() && #[trigger] file_in_line(all[i]) == Some(path) && forall|j: int|
                    0 <= j < i ==> file_in_line(#[trigger] all[j]) is None,
            None => forall|i: int| 0 <= i < all.len() ==> file_in_line(#[trigger] all[i]) is None,
        },
    decreases all.len(),
{
    if all.len() > 0 {
        if file_in_line(all[0]) is None {
            let rest = all.drop_first();
            law_first_file(rest);
            match first_file(all) {
                Some(path) => {
                    let i = choose|i: int|
                        0 <= i < rest.len() && #[trigger] file_in_line(rest[i]) == Some(path)
                            && forall|j: int|
                            0 <= j < i ==> file_in_line(#[trigger] rest[j]) is None;
                    assert(all[i + 1] == rest[i]);
                    assert forall|j: int| 0 <= j < i + 1 implies file_in_line(
                        #[trigger] all[j],
                    ) is None by {
                        if j > 0 {
                            assert(rest[j - 1] == all[j]);
                        }
                    }
                    assert(file_in_line(all[i + 1]) == Some(path));
                },
                None => {
                    assert forall|i: int| 0 <= i < all.len() implies file_in_line(
                        #[trigger] all[i],
                    ) is None by {
                        if i > 0 {
                            assert(rest[i - 1] == all[i]);
                        }
                    }
                },
            }
        } else {
            assert(file_in_line(all[0]) == first_file(all));
        }
    }
}

proof fn lemma_between(
    before: Seq<char>,
    opening: Seq<char>,
    path: Seq<char>,
    commas: Seq<char>,
    quote: char,
    after: Seq<char>,
)
    requires
        occurs_first(
            before + opening + path + commas + seq![quote] + after,
            opening,
            before.len() as int,
        ),
        forall|i: int| 0 <= i < path.len() ==> #[trigger] path[i] != quote,
        forall|i: int| 0 <= i < commas.len() ==> #[trigger] commas[i] == ',',
        quote != ',',
        ".py"@.is_suffix_of(path),
    ensures
        file_between(
            before + opening + path + commas + seq![quote] + after,
            opening,
            seq![quote],
        ) == Some(path),
{
    reveal_strlit(".py");
    let line = before + opening + path + commas + seq![quote] + after;
    let closing = seq![quote];
    lemma_first_place(line, opening, before.len() as int);
    let rest = line.skip((before.len() + opening.len()) as int);
    let text = path + commas;
    assert(rest =~= text + closing + after);
    assert(rest.subrange(text.len() as int, (text.len() + 1) as int) =~= closing);
    assert forall|i: int| 0 <= i < text.len() implies !occurs_at(rest, closing, i) by {
        if occurs_at(rest, closing, i) {
            assert(rest.subrange(i, i + 1)[0] == rest[i]);
            if i < path.len() {
                assert(rest[i] == path[i]);
            } else {
                assert(rest[i] == commas[i - path.len()]);
            }
        }
    }
    assert(occurs_first(rest, closing, text.len() as int));
    lemma_first_place(rest, closing, text.len() as int);
    assert(rest.take(text.len() as int) =~= text);
    assert(enclosed(line, opening, closing) == Some(text));
    assert(path.last() == 'y') by {
        let tail = path.subrange(path.len() - 3, path.len() as int);
        assert(tail[2] == ".py"@[2]);
        assert(tail[2] == path[path.len() - 1]);
    }
    lemma_commas(path, commas);
}

proof fn lemma_commas(path: Seq<char>, commas: Seq<char>)
    requires
        path.len() > 0,
        path.last() != ',',
        forall|i: int| 0 <= i < commas.len() ==> #[trigger] commas[i] == ',',
    ensures
        without_commas(path + commas) == path,
    decreases commas.len(),
{
    let text = path + commas;
    if commas.len() == 0 {
        assert(text =~= path);
    } else {
        assert(text.last() == commas[commas.len() - 1]);
        assert(text.drop_last() =~= path + commas.drop_last());
        assert forall|i: int| 0 <= i < commas.drop_last().len() implies #[trigger]
            commas.drop_last()[i] == ',' by {
            assert(commas.drop_last()[i] == commas[i]);
        }
        lemma_commas(path, commas.drop_last());
    }
}

/// A line names the Python file that stands in double quotes behind its first
/// `File`, without commas at its end.
pub proof fn law_file_in_double_quotes(
    before: Seq<char>,
    path: Seq<char>,
    commas: Seq<char>,
    after: Seq<char>,
)
    requires
        occurs_first(
            before + "File \""@ + path + commas + seq!['"'] + after,
            "File \""@,
            before.len() as int,
        ),
        forall|i: int| 0 <= i < path.len() ==> #[trigger] path[i] != '"',
        forall|i: int| 0 <= i < commas.len() ==> #[trigger] commas[i] == ',',
        ".py"@.is_suffix_of(path),
    ensures
        file_in_line(before + "File \""@ + path + commas + seq!['"'] + after) == Some(path),
{
    reveal_strlit("\"");
    assert("\""@ =~= seq!['"']);
    lemma_between(before, "File \""@, path, commas, '"', after);
}

/// A line without `File` and a double quote names the Python file that stands in
/// single quotes behind its first `File`.
pub proof fn law_file_in_single_quotes(
    before: Seq<char>,
    path: Seq<char>,
    commas: Seq<char>,
    after: Seq<char>,
)
    requires
        occurs_first(
            before + "File '"@ + path + commas + seq!['\''] + after,
            "File '"@,
            before.len() as int,
        ),
        !occurs(before + "File '"@ + path + commas + seq!['\''] + after, "File \""@),
        forall|i: int| 0 <= i < path.len() ==> #[trigger] path[i] != '\'',
        forall|i: int| 0 <= i < commas.len() ==> #[trigger] commas[i] == ',',
        ".py"@.is_suffix_of(path),
    ensures
        file_in_line(before + "File '"@ + path + commas + seq!['\''] + after) == Some(path),
{
    reveal_strlit("'");
    assert("'"@ =~= seq!['\'']);
    lemma_between(before, "File '"@, path, commas, '\'', after);
}

/// What a line names is a Python file, and stands in the line behind `File` and
/// a quote.
pub proof fn law_named_file(line: Seq<char>)
    requires
        file_in_line(line) is Some,
    ensures
        ".py"@.is_suffix_of(file_in_line(line)->0),
        occurs(line, "File \""@ + file_in_line(line)->0) || occurs(
            line,
            "File '"@ + file_in_line(line)->0,
        ),
{
    match file_between(line, "File \""@, "\""@) {
        Some(path) => lemma_stands_behind(line, "File \""@, "\""@),
        None => lemma_stands_behind(line, "File '"@, "'"@),
    }
}

proof fn lemma_stands_behind(line: Seq<char>, opening: Seq<char>, closing: Seq<char>)
    requires
        file_between(line, opening, closing) is Some,
    ensures
        occurs(line, opening + file_between(line, opening, closing)->0),
{
    let path = file_between(line, opening, closing)->0;
    lemma_occurs_first(line, opening);
    let start = choose|at: int| occurs_first(line, opening, at);
    let rest = line.skip(start + opening.len());
    lemma_occurs_first(rest, closing);
    let end = choose|at: int| occurs_first(rest, closing, at);
    let text = rest.take(end);
    lemma_without_commas(text);
    assert(path == text.take(path.len() as int));
    assert(line.subrange(start, start + opening.len()) == opening);
    assert(line.subrange(start, start + opening.len() + path.len()) =~= opening + path) by {
        assert forall|i: int| 0 <= i < path.len() implies line[start + opening.len() + i]
            == path[i] by {
            assert(text[i] == rest[i]);
            assert(path[i] == text[i]);
        }
        assert forall|i: int| 0 <= i < opening.len() implies line[start + i] == opening[i] by {
            assert(line.subrange(start, start + opening.len())[i] == line[start + i]);
        }
    }
    assert(occurs_at(line, opening + path, start));
}

proof fn lemma_occurs_first(text: Seq<char>, part: Seq<char>)
    requires
        occurs(text, part),
    ensures
        exists|at: int| occurs_first(text, part, at),
{
    let at = choose|at: int| occurs_at(text, part, at);
    lemma_earliest(text, part, at);
}

proof fn lemma_earliest(text: Seq<char>, part: Seq<char>, at: int)
    requires
        occurs_at(text, part, at),
    ensures
        exists|first: int| occurs_first(text, part, first),
    decreases at,
{
    if exists|before: int| 0 <= before < at && occurs_at(text, part, before) {
        let before = choose|before: int| 0 <= before < at && occurs_at(text, part, before);
        lemma_earliest(text, part, before);
    } else {
        assert(occurs_first(text, part, at));
    }
}

proof fn lemma_without_commas(text: Seq<char>)
    ensures
        without_commas(text).len() <= text.len(),
        without_commas(text) == text.take(without_commas(text).len() as int),
    decreases text.len(),
{
    if text.len() > 0 && text.last() == ',' {
        lemma_without_commas(text.drop_last());
        let kept = without_commas(text);
        assert(text.drop_last().take(kept.len() as int) =~= text.take(kept.len() as int));
    } else {
        assert(text.take(text.len() as int) =~= text);
    }
}

/// A character that a name does not go on with: it is ASCII, and neither a letter
/// nor a digit nor an underscore.
pub open spec fn parts_names(c: char) -> bool {
    &&& (c as u32) < 128
    &&& !('a' <= c <= 'z')
    &&& !('A' <= c <= 'Z')
    &&& !('0' <= c <= '9')
    &&& c != '_'
}

/// A text is something, a name, and something else, where the name is not part
/// of a longer one, and neither a dot nor a slash follows it.
pub open spec fn is_split_at(text: Seq<char>, name: Seq<char>, before: nat) -> bool {
    let end = before + name.len();
    &&& end <= text.len()
    &&& forall|i: int| 0 <= i < name.len() ==> text[before + i] == #[trigger] name[i]
    &&& before > 0 ==> parts_names(text[before - 1])
    &&& end < text.len() ==> parts_names(text[end as int]) && text[end as int] != '/'
        && text[end as int] != '.'
}

/// A name stands in a text exactly if it stands there as a whole.
pub proof fn law_whole_names(text: Seq<char>, name: Seq<char>)
    ensures
        is_named(text, name) <==> exists|before: nat| is_split_at(text, name, before),
{
    if is_named(text, name) {
        let at = choose|at: int| is_named_at(text, name, at);
        assert forall|i: int| 0 <= i < name.len() implies text[at + i] == #[trigger] name[i] by {
            assert(text.subrange(at, at + name.len())[i] == text[at + i]);
        }
        assert(is_split_at(text, name, at as nat));
    }
    if exists|before: nat| is_split_at(text, name, before) {
        let before = choose|before: nat| is_split_at(text, name, before);
        let at = before as int;
        assert(text.subrange(at, at + name.len()) =~= name);
        assert(is_named_at(text, name, at));
    }
}

/// A name stands in a text and is not part of a longer one.
pub open spec fn stands_alone(text: Seq<char>, name: Seq<char>) -> bool {
    exists|before: nat| is_split_at(text, name, before)
}

/// One line says that a shell did not find something, that one of the tools was
/// not found, or that something could not be started and why.
pub open spec fn says_what_is_missing(line: Seq<char>) -> bool {
    ||| stands_alone(line, "sh"@) && occurs(line, ": not found"@)
    ||| occurs(line, "not found"@) && (stands_alone(line, "gcc"@) || stands_alone(line, "make"@)
        || stands_alone(line, "cmake"@) || stands_alone(line, "m4"@) || stands_alone(
        line,
        "python3"@,
    ) || stands_alone(line, "pip3"@) || stands_alone(line, "c compiler"@) || stands_alone(
        line,
        "linker"@,
    ))
    ||| occurs(line, "no such file or directory"@) && (occurs(line, "failed to run command"@)
        || occurs(line, "failed to spawn command"@) || occurs(line, "unable to execute"@) || occurs(
        line,
        "error: command"@,
    ))
}

/// What a tool is called and what is said of it have to stand in one line, except
/// for the macro processor.
pub proof fn law_missing_tools_by_line(lowered: Seq<char>)
    ensures
        is_missing_tool(lowered) <==> occurs(lowered, "command not found"@) || (stands_alone(
            lowered,
            "m4"@,
        ) && occurs(lowered, "not found"@)) || exists|i: int|
            0 <= i < lines(lowered).len() && says_what_is_missing(#[trigger] lines(lowered)[i]),
{
    law_whole_names(lowered, "m4"@);
    assert forall|i: int| 0 <= i < lines(lowered).len() implies (reports_missing(
        #[trigger] lines(lowered)[i],
    ) <==> says_what_is_missing(lines(lowered)[i])) by {
        let line = lines(lowered)[i];
        law_whole_names(line, "sh"@);
        law_whole_names(line, "gcc"@);
        law_whole_names(line, "make"@);
        law_whole_names(line, "cmake"@);
        law_whole_names(line, "m4"@);
        law_whole_names(line, "python3"@);
        law_whole_names(line, "pip3"@);
        law_whole_names(line, "c compiler"@);
        law_whole_names(line, "linker"@);
    }
}

} // verus!
