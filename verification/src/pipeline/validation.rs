//! How a sandboxed package is built and what the build's output says.

use vstd::prelude::*;
use vstd::string::StringExecFns;
use vstd::utf8::{decode_utf8, encode_utf8, encode_utf8_decode_utf8, is_char_boundary};

use crate::self_healing::router::ValidationResult;
use crate::text::{contains, decimal, decimal_text, joined, lossy, occurs, shown, string_views};

verus! {

/// The seconds that a build command may take, given those for the whole unit.
pub open spec fn command_seconds(unit_seconds: u64) -> u64 {
    if unit_seconds < 1 {
        1
    } else if unit_seconds > 600 {
        600
    } else {
        unit_seconds
    }
}

/// The seconds that a build command may take, given those for the whole unit.
pub fn command_timeout(unit_seconds: u64) -> (seconds: u64)
    ensures
        seconds == command_seconds(unit_seconds),
        unit_seconds == 0 ==> seconds == 1,
        1 <= unit_seconds <= 600 ==> seconds == unit_seconds,
        unit_seconds > 600 ==> seconds == 600,
{
    if unit_seconds < 1 {
        1
    } else if unit_seconds > 600 {
        600
    } else {
        unit_seconds
    }
}

/// Which manifests stand in the root of a package.
#[derive(Debug, Clone, Copy)]
pub struct Manifests {
    pub cargo: bool,
    pub pyproject: bool,
    pub setup: bool,
}

/// How a package is built.
#[derive(Debug)]
pub enum BuildPlan {
    /// The manifest is a template and nothing is built.
    Template,
    /// These commands are run, each a program and its arguments.
    Commands(Vec<Vec<String>>),
    /// There is nothing to go by.
    Unrecognized,
}

/// How a package is built, with its texts as character sequences.
pub enum Recipe {
    Template,
    Commands(Seq<Seq<Seq<char>>>),
    Unrecognized,
}

/// The commands of a list.
pub open spec fn command_views(commands: Seq<Vec<String>>) -> Seq<Seq<Seq<char>>> {
    Seq::new(commands.len(), |i: int| string_views(commands[i]@))
}

impl View for BuildPlan {
    type V = Recipe;

    open spec fn view(&self) -> Recipe {
        match self {
            BuildPlan::Template => Recipe::Template,
            BuildPlan::Commands(commands) => Recipe::Commands(command_views(commands@)),
            BuildPlan::Unrecognized => Recipe::Unrecognized,
        }
    }
}

/// Whether a Cargo manifest is clearly a template.
pub open spec fn is_template(content: Seq<char>) -> bool {
    occurs(content, "{crate_name}"@) || occurs(content, "{extra_deps}"@)
}

/// A Cargo build.
pub open spec fn cargo_command(seconds: u64) -> Seq<Seq<char>> {
    seq!["timeout"@, decimal(seconds as nat), "cargo"@, "build"@]
}

/// A build with `setup.py`.
pub open spec fn setup_command(seconds: u64) -> Seq<Seq<char>> {
    seq!["timeout"@, decimal(seconds as nat), "python3"@, "setup.py"@, "build"@]
}

/// An editable installation.
pub open spec fn pip_command(seconds: u64) -> Seq<Seq<char>> {
    seq![
        "timeout"@,
        decimal(seconds as nat),
        "pip3"@,
        "install"@,
        "-e"@,
        "."@,
        "--no-deps"@,
        "--no-build-isolation"@,
    ]
}

/// A check of the syntax of all modules.
pub open spec fn compile_command(seconds: u64) -> Seq<Seq<char>> {
    seq!["timeout"@, decimal(seconds as nat), "python3"@, "-m"@, "compileall"@, "."@]
}

/// How a package is built: with Cargo if it has no Python manifest, else with
/// `setup.py` or `pip`, and with a syntax check after either.
pub open spec fn recipe(manifests: Manifests, cargo_content: Option<Seq<char>>, seconds: u64) -> Recipe {
    if manifests.pyproject || manifests.setup {
        Recipe::Commands(
            seq![
                if manifests.setup {
                    setup_command(seconds)
                } else {
                    pip_command(seconds)
                },
                compile_command(seconds),
            ],
        )
    } else if manifests.cargo {
        if cargo_content is Some && is_template(cargo_content->0) {
            Recipe::Template
        } else {
            Recipe::Commands(seq![cargo_command(seconds)])
        }
    } else {
        Recipe::Unrecognized
    }
}

/// Append an argument to a command.
fn add_argument(command: &mut Vec<String>, argument: &str)
    ensures
        string_views(final(command)@) == string_views(old(command)@).push(argument@),
{
    let ghost before = string_views(command@);
    command.push(argument.to_owned());
    assert(string_views(command@) =~= before.push(argument@));
}

/// The beginning of every command.
fn limited(seconds: u64) -> (command: Vec<String>)
    ensures
        string_views(command@) == seq!["timeout"@, decimal(seconds as nat)],
{
    let mut command: Vec<String> = Vec::new();
    assert(string_views(command@) =~= Seq::<Seq<char>>::empty());
    add_argument(&mut command, "timeout");
    let number = decimal_text(seconds as u128);
    add_argument(&mut command, &number);
    assert(string_views(command@) =~= seq!["timeout"@, decimal(seconds as nat)]);
    command
}

/// Plan how a package is built. The content of its Cargo manifest is given if
/// it could be read.
pub fn build_plan(manifests: &Manifests, cargo_content: Option<&str>, seconds: u64) -> (plan: BuildPlan)
    ensures
        plan@ == recipe(
            *manifests,
            match cargo_content {
                Some(content) => Some(content@),
                None => None,
            },
            seconds,
        ),
        plan is Unrecognized <==> !manifests.cargo && !manifests.pyproject && !manifests.setup,
        plan is Template <==> manifests.cargo && !manifests.pyproject && !manifests.setup
            && cargo_content is Some && (occurs(cargo_content->0@, "{crate_name}"@) || occurs(
            cargo_content->0@,
            "{extra_deps}"@,
        )),
{
    let mut commands: Vec<Vec<String>> = Vec::new();
    if manifests.pyproject || manifests.setup {
        let mut command = limited(seconds);
        if manifests.setup {
            add_argument(&mut command, "python3");
            add_argument(&mut command, "setup.py");
            add_argument(&mut command, "build");
            assert(string_views(command@) =~= setup_command(seconds));
        } else {
            add_argument(&mut command, "pip3");
            add_argument(&mut command, "install");
            add_argument(&mut command, "-e");
            add_argument(&mut command, ".");
            add_argument(&mut command, "--no-deps");
            add_argument(&mut command, "--no-build-isolation");
            assert(string_views(command@) =~= pip_command(seconds));
        }
        let mut check = limited(seconds);
        add_argument(&mut check, "python3");
        add_argument(&mut check, "-m");
        add_argument(&mut check, "compileall");
        add_argument(&mut check, ".");
        assert(string_views(check@) =~= compile_command(seconds));
        commands.push(command);
        commands.push(check);
        let plan = BuildPlan::Commands(commands);
        assert(command_views(commands@) =~= seq![string_views(command@), string_views(check@)]);
        plan
    } else if manifests.cargo {
        if let Some(content) = cargo_content {
            if contains(content, "{crate_name}") || contains(content, "{extra_deps}") {
                return BuildPlan::Template;
            }
        }
        let mut command = limited(seconds);
        add_argument(&mut command, "cargo");
        add_argument(&mut command, "build");
        assert(string_views(command@) =~= cargo_command(seconds));
        commands.push(command);
        assert(command_views(commands@) =~= seq![string_views(command@)]);
        BuildPlan::Commands(commands)
    } else {
        BuildPlan::Unrecognized
    }
}

/// How a command went: whether it succeeded and what it printed, or why it did
/// not start.
#[derive(Debug)]
pub enum CommandOutcome {
    Ran { ok: bool, stdout: String, stderr: String },
    NotStarted(String),
}

/// How a command went that ran, given the bytes that it printed.
pub fn command_outcome(ok: bool, stdout: &[u8], stderr: &[u8]) -> (outcome: CommandOutcome)
    ensures
        outcome matches CommandOutcome::Ran { ok: succeeded, stdout: printed, stderr: complained }
            && succeeded == ok && printed@ == lossy(stdout@) && complained@ == lossy(stderr@),
{
    CommandOutcome::Ran { ok, stdout: shown(stdout), stderr: shown(stderr) }
}

/// Whether all commands succeeded.
pub open spec fn all_ok(outcomes: Seq<CommandOutcome>) -> bool {
    forall|i: int|
        0 <= i < outcomes.len() ==> (#[trigger] outcomes[i] is Ran && outcomes[i]->ok)
}

/// What a command adds to the output.
pub open spec fn output_of(outcome: CommandOutcome) -> Seq<char> {
    match outcome {
        CommandOutcome::Ran { ok, stdout, stderr } => stdout@ + stderr@,
        CommandOutcome::NotStarted(error) => "failed to spawn command: "@ + error@ + "\n"@,
    }
}

/// What the commands print, one after the other.
pub open spec fn output_of_all(outcomes: Seq<CommandOutcome>) -> Seq<char>
    decreases outcomes.len(),
{
    if outcomes.len() == 0 {
        Seq::empty()
    } else {
        output_of_all(outcomes.drop_last()) + output_of(outcomes.last())
    }
}

/// The result of a build whose output is `output`.
pub open spec fn is_result(
    result: ValidationResult,
    success: bool,
    output: Seq<char>,
    elapsed_ms: u64,
) -> bool {
    &&& result.success == success
    &&& result.elapsed_ms == elapsed_ms
    &&& result.output_size == encode_utf8(output).len()
    &&& result.stderr@ == output
}

/// Sum up a build from how its commands went and how long they took.
pub fn summarize(outcomes: &Vec<CommandOutcome>, elapsed_ms: u64) -> (result: ValidationResult)
    ensures
        is_result(result, all_ok(outcomes@), output_of_all(outcomes@), elapsed_ms),
        result.success <==> forall|i: int|
            0 <= i < outcomes@.len() ==> (#[trigger] outcomes@[i] is Ran && outcomes@[i]->ok),
        result.elapsed_ms == elapsed_ms,
        result.output_size == encode_utf8(result.stderr@).len(),
{
    let mut success = true;
    let mut output = String::new();
    let mut i: usize = 0;
    assert(output@ =~= output_of_all(outcomes@.take(0)));
    while i < outcomes.len()
        invariant
            i <= outcomes.len(),
            success == all_ok(outcomes@.take(i as int)),
            output@ == output_of_all(outcomes@.take(i as int)),
        decreases outcomes.len() - i,
    {
        let ghost seen = outcomes@.take(i as int);
        let ghost more = outcomes@.take(i + 1);
        proof {
            assert(more.drop_last() =~= seen);
            assert(more.last() == outcomes@[i as int]);
            assert(all_ok(more) == (all_ok(seen) && more.last() is Ran && more.last()->ok)) by {
                assert forall|j: int| 0 <= j < seen.len() implies #[trigger] more[j] == seen[j] by {}
                if all_ok(more) {
                    assert forall|j: int| 0 <= j < seen.len() implies (
                    #[trigger] seen[j] is Ran && seen[j]->ok) by {
                        assert(more[j] is Ran);
                    }
                    assert(more[i as int] is Ran);
                }
            }
        }
        match &outcomes[i] {
            CommandOutcome::Ran { ok, stdout, stderr } => {
                if !*ok {
                    success = false;
                }
                output.append(stdout);
                output.append(stderr);
            },
            CommandOutcome::NotStarted(error) => {
                success = false;
                output.append(&joined(&joined("failed to spawn command: ", error), "\n"));
            },
        }
        assert(output@ =~= output_of_all(more));
        i = i + 1;
    }
    assert(outcomes@.take(i as int) =~= outcomes@);
    let output_size = output.as_str().as_bytes().len() as u64;
    ValidationResult { success, elapsed_ms, output_size, stderr: output }
}

/// The result where nothing is built: a template is fine, and it takes no time;
/// a package without a manifest is not.
pub fn without_build(plan: &BuildPlan, elapsed_ms: u64) -> (result: Option<ValidationResult>)
    ensures
        match plan {
            BuildPlan::Template => result is Some && is_result(result->0, true, ""@, 0),
            BuildPlan::Unrecognized => result is Some && is_result(
                result->0,
                false,
                "no recognizable build manifest found"@,
                elapsed_ms,
            ),
            BuildPlan::Commands(_) => result is None,
        },
        plan is Template ==> result is Some && result->0.success && result->0.stderr@ == ""@
            && result->0.elapsed_ms == 0 && result->0.output_size == encode_utf8(""@).len(),
        plan is Unrecognized ==> result is Some && !result->0.success && result->0.stderr@
            == "no recognizable build manifest found"@ && result->0.elapsed_ms == elapsed_ms
            && result->0.output_size == encode_utf8("no recognizable build manifest found"@).len(),
        plan is Commands ==> result is None,
{
    match plan {
        BuildPlan::Template => {
            let output = "".to_owned();
            let output_size = output.as_str().as_bytes().len() as u64;
            Some(ValidationResult { success: true, elapsed_ms: 0, output_size, stderr: output })
        },
        BuildPlan::Unrecognized => {
            let output = "no recognizable build manifest found".to_owned();
            let output_size = output.as_str().as_bytes().len() as u64;
            Some(ValidationResult { success: false, elapsed_ms, output_size, stderr: output })
        },
        BuildPlan::Commands(_) => None,
    }
}

/// A text of at most so many bytes, or its beginning with an ellipsis.
pub open spec fn shortened(text: Seq<char>, max_len: nat) -> Seq<char> {
    if encode_utf8(text).len() <= max_len {
        text
    } else {
        decode_utf8(encode_utf8(text).subrange(0, max_len as int)) + "..."@
    }
}

/// Cut a text to at most `max_len` bytes. The cut must not fall within a
/// character.
pub fn truncate(text: &str, max_len: usize) -> (result: String)
    requires
        encode_utf8(text@).len() > max_len ==> is_char_boundary(encode_utf8(text@), max_len as int),
    ensures
        result@ == shortened(text@, max_len as nat),
        encode_utf8(text@).len() <= max_len ==> result@ == text@,
        encode_utf8(text@).len() > max_len ==> result@.len() >= 3 && result@.skip(result@.len() - 3)
            == "..."@ && encode_utf8(result@.take(result@.len() - 3)) == encode_utf8(
            text@,
        ).subrange(0, max_len as int),
{
    if text.as_bytes().len() <= max_len {
        text.to_owned()
    } else {
        let (head, _) = text.split_at(max_len);
        proof {
            encode_utf8_decode_utf8(head@);
            reveal_strlit("...");
            assert((head@ + "..."@).skip(head@.len() as int) =~= "..."@);
            assert((head@ + "..."@).take(head@.len() as int) =~= head@);
        }
        joined(head, "...")
    }
}

/// A command gets the seconds of its unit, but never less than one and never
/// more than ten minutes. A unit with more time gives its commands no less.
pub proof fn law_command_seconds(seconds: u64, more: u64)
    requires
        seconds <= more,
    ensures
        1 <= command_seconds(seconds) <= command_seconds(more) <= 600,
        1 <= seconds <= 600 ==> command_seconds(seconds) == seconds,
{
}

/// A Python package is built by two commands, even if it has a Cargo manifest
/// too: with its own `setup.py` if there is one and with `pip` if not, and then
/// its modules are checked. A package with a Cargo manifest alone is built by
/// Cargo, unless the manifest is a template. Every command is under the limit.
pub proof fn law_recipes(manifests: Manifests, content: Option<Seq<char>>, seconds: u64)
    ensures
        ({
            let plan = recipe(manifests, content, seconds);
            let limit = decimal(seconds as nat);
            let check = seq!["timeout"@, limit, "python3"@, "-m"@, "compileall"@, "."@];
            let templated = content matches Some(text) && (occurs(text, "{crate_name}"@) || occurs(
                text,
                "{extra_deps}"@,
            ));
            &&& manifests.setup ==> plan == Recipe::Commands(
                seq![seq!["timeout"@, limit, "python3"@, "setup.py"@, "build"@], check],
            )
            &&& manifests.pyproject && !manifests.setup ==> plan == Recipe::Commands(
                seq![
                    seq![
                        "timeout"@,
                        limit,
                        "pip3"@,
                        "install"@,
                        "-e"@,
                        "."@,
                        "--no-deps"@,
                        "--no-build-isolation"@,
                    ],
                    check,
                ],
            )
            &&& manifests.cargo && !manifests.pyproject && !manifests.setup && !templated ==> plan
                == Recipe::Commands(seq![seq!["timeout"@, limit, "cargo"@, "build"@]])
            &&& manifests.cargo && !manifests.pyproject && !manifests.setup && templated
                ==> plan is Template
            &&& !manifests.cargo && !manifests.pyproject && !manifests.setup ==> plan is Unrecognized
        }),
{
}

/// The output of a build is what its commands printed, each to its standard
/// output and then to its standard error, or why a command did not start. A
/// build succeeds exactly if every command ran and succeeded.
pub proof fn law_outputs_add_up(outcomes: Seq<CommandOutcome>, outcome: CommandOutcome)
    ensures
        output_of_all(Seq::<CommandOutcome>::empty()) == Seq::<char>::empty(),
        all_ok(Seq::<CommandOutcome>::empty()),
        outcome matches CommandOutcome::Ran { ok, stdout, stderr } ==> output_of_all(
            outcomes.push(outcome),
        ) == output_of_all(outcomes) + (stdout@ + stderr@) && (all_ok(outcomes.push(outcome))
            <==> all_ok(outcomes) && ok),
        outcome matches CommandOutcome::NotStarted(error) ==> output_of_all(outcomes.push(outcome))
            == output_of_all(outcomes) + ("failed to spawn command: "@ + error@ + "\n"@) && !all_ok(
            outcomes.push(outcome),
        ),
{
    let more = outcomes.push(outcome);
    assert(more.drop_last() =~= outcomes);
    assert(more.last() == outcome);
    assert(all_ok(more) <==> all_ok(outcomes) && outcome is Ran && outcome->ok) by {
        if all_ok(more) {
            assert(more[outcomes.len() as int] is Ran && more[outcomes.len() as int]->ok);
            assert forall|i: int| 0 <= i < outcomes.len() implies (#[trigger] outcomes[i] is Ran
                && outcomes[i]->ok) by {
                assert(more[i] is Ran && more[i]->ok);
            }
        }
    }
}

/// What is short enough is left as it is. Of anything else the beginning is
/// kept, up to the limit, and three dots show that something is missing.
pub proof fn law_shortened(text: Seq<char>, max_len: nat)
    requires
        encode_utf8(text).len() > max_len ==> is_char_boundary(encode_utf8(text), max_len as int),
    ensures
        encode_utf8(text).len() <= max_len ==> shortened(text, max_len) == text,
        encode_utf8(text).len() > max_len ==> {
            let short = shortened(text, max_len);
            &&& short.len() >= 3
            &&& short.skip(short.len() - 3) == "..."@
            &&& encode_utf8(short.take(short.len() - 3)) == encode_utf8(text).subrange(
                0,
                max_len as int,
            )
        },
{
    let bytes = encode_utf8(text);
    if bytes.len() > max_len {
        let start = bytes.subrange(0, max_len as int);
        let head = decode_utf8(start);
        vstd::utf8::encode_utf8_valid_utf8(text);
        vstd::utf8::valid_utf8_split(bytes, max_len as int);
        vstd::utf8::decode_utf8_encode_utf8(start);
        reveal_strlit("...");
        assert((head + "..."@).skip(head.len() as int) =~= "..."@);
        assert((head + "..."@).take(head.len() as int) =~= head);
    }
}

} // verus!
