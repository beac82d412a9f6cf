use vstd::prelude::*;

use crate::text::{push_str, string_from_chars};

verus! {

/// The usage text that `--help` prints.
pub const HELP: &'static str = "malc — reference compiler for mal v0.5

Usage:
  malc --help
  malc --version
  malc check <source.mal>
  malc format <source.mal>
  malc emit-header <source.mal> [--output <program.mal.h>]
  malc emit-host <source.mal>
  malc emit-c <source.mal> --output <program.c>
  malc build <source.mal> --output <program> [--link <input>]...
";

/// The line that `--version` prints, without its line break.
pub const VERSION: &'static str = "malc 0.5.0-dev (language v0.5)";

/// How the process ends.
#[derive(Clone, Copy, Debug, Eq, PartialEq, Structural)]
pub enum ExitStatus {
    Success,
    CompileError,
    UsageError,
}

impl ExitStatus {
    /// The process exit code: 0 for success, 1 for a compile error, 2 for a usage error.
    pub fn code(self) -> (code: u8)
        ensures
            code == match self {
                ExitStatus::Success => 0u8,
                ExitStatus::CompileError => 1u8,
                ExitStatus::UsageError => 2u8,
            },
    {
        match self {
            ExitStatus::Success => 0,
            ExitStatus::CompileError => 1,
            ExitStatus::UsageError => 2,
        }
    }
}

/// What a run of the compiler ends with and prints.
#[derive(Debug, Eq, PartialEq)]
pub struct Outcome {
    pub status: ExitStatus,
    pub stdout: String,
    pub stderr: String,
}

/// The text of a usage error about `message`.
pub open spec fn usage_text(message: Seq<char>) -> Seq<char> {
    "malc: "@ + message + "\nTry 'malc --help' for usage.\n"@
}

impl Outcome {
    /// A successful run that prints `stdout`.
    pub fn success(stdout: String) -> (outcome: Outcome)
        ensures
            outcome.status == ExitStatus::Success,
            outcome.stdout@ == stdout@,
            outcome.stderr@ == Seq::<char>::empty(),
    {
        Outcome { status: ExitStatus::Success, stdout, stderr: String::new() }
    }

    /// A run refused for its arguments, with `stderr` as the explanation.
    pub fn usage_error(stderr: String) -> (outcome: Outcome)
        ensures
            outcome.status == ExitStatus::UsageError,
            outcome.stdout@ == Seq::<char>::empty(),
            outcome.stderr@ == stderr@,
    {
        Outcome { status: ExitStatus::UsageError, stdout: String::new(), stderr }
    }

    /// A run that failed to compile, with `message` as the explanation; a line break ends it.
    pub fn compile_failure(message: &str) -> (outcome: Outcome)
        ensures
            outcome.status == ExitStatus::CompileError,
            outcome.stdout@ == Seq::<char>::empty(),
            outcome.stderr@ == if message@.len() > 0 && message@.last() == '\n' {
                message@
            } else {
                message@.push('\n')
            },
    {
        let mut text: Vec<char> = Vec::new();
        push_str(&mut text, message);
        if text.len() == 0 || text[text.len() - 1] != '\n' {
            text.push('\n');
        }
        Outcome {
            status: ExitStatus::CompileError,
            stdout: String::new(),
            stderr: string_from_chars(&text),
        }
    }
}

/// A usage error about `message`, with the hint to ask for help.
pub fn usage_error(message: &str) -> (outcome: Outcome)
    ensures
        outcome.status == ExitStatus::UsageError,
        outcome.stdout@ == Seq::<char>::empty(),
        outcome.stderr@ == usage_text(message@),
{
    let mut text: Vec<char> = Vec::new();
    push_str(&mut text, "malc: ");
    push_str(&mut text, message);
    push_str(&mut text, "\nTry 'malc --help' for usage.\n");
    Outcome::usage_error(string_from_chars(&text))
}

/// A usage error whose message is `before`, then an argument, then `after`.
fn quoting_usage_error(before: &str, argument: &String, after: &str) -> (outcome: Outcome)
    ensures
        outcome.status == ExitStatus::UsageError,
        outcome.stdout@ == Seq::<char>::empty(),
        outcome.stderr@ == usage_text(before@ + argument@ + after@),
{
    let mut text: Vec<char> = Vec::new();
    push_str(&mut text, "malc: ");
    push_str(&mut text, before);
    push_str(&mut text, argument.as_str());
    push_str(&mut text, after);
    push_str(&mut text, "\nTry 'malc --help' for usage.\n");
    proof {
        assert(text@ =~= usage_text(before@ + argument@ + after@));
    }
    Outcome::usage_error(string_from_chars(&text))
}

/// What the arguments ask the compiler to do.
#[derive(Debug, Eq, PartialEq)]
pub enum Command {
    Help,
    Version,
    Check { source: String },
    Format { source: String },
    EmitHeader { source: String, output: Option<String> },
    EmitHost { source: String },
    EmitC { source: String, output: String },
    Build { source: String, output: String, links: Vec<String> },
}

/// A command, by the characters of its paths.
pub enum CommandView {
    Help,
    Version,
    Check(Seq<char>),
    Format(Seq<char>),
    EmitHeader(Seq<char>, Option<Seq<char>>),
    EmitHost(Seq<char>),
    EmitC(Seq<char>, Seq<char>),
    Build(Seq<char>, Seq<char>, Seq<Seq<char>>),
}

pub open spec fn texts(values: Seq<String>) -> Seq<Seq<char>> {
    values.map_values(|value: String| value@)
}

pub open spec fn command_view(command: Command) -> CommandView {
    match command {
        Command::Help => CommandView::Help,
        Command::Version => CommandView::Version,
        Command::Check { source } => CommandView::Check(source@),
        Command::Format { source } => CommandView::Format(source@),
        Command::EmitHeader { source, output } => CommandView::EmitHeader(
            source@,
            match output {
                Some(o) => Some(o@),
                None => None,
            },
        ),
        Command::EmitHost { source } => CommandView::EmitHost(source@),
        Command::EmitC { source, output } => CommandView::EmitC(source@, output@),
        Command::Build { source, output, links } => CommandView::Build(
            source@,
            output@,
            texts(links@),
        ),
    }
}

/// The options of `build` from `index` on, given the output and linker inputs met before:
/// the output and the linker inputs, or the usage message that refuses them.
pub open spec fn build_options(
    arguments: Seq<Seq<char>>,
    index: int,
    output: Option<Seq<char>>,
    links: Seq<Seq<char>>,
) -> Result<(Seq<char>, Seq<Seq<char>>), Seq<char>>
    decreases arguments.len() - index,
{
    if index >= arguments.len() {
        match output {
            Some(o) => Ok((o, links)),
            None => Err("build requires --output"@),
        }
    } else if index + 1 >= arguments.len() {
        Err("option '"@ + arguments[index] + "' requires a value"@)
    } else if arguments[index] == "--output"@ {
        if output is Some {
            Err("--output may only be specified once"@)
        } else {
            build_options(arguments, index + 2, Some(arguments[index + 1]), links)
        }
    } else if arguments[index] == "--link"@ {
        build_options(arguments, index + 2, output, links.push(arguments[index + 1]))
    } else {
        Err("unknown build option '"@ + arguments[index] + "'"@)
    }
}

/// What the arguments ask for, or the usage message that refuses them.
pub open spec fn command_for(arguments: Seq<Seq<char>>) -> Result<CommandView, Seq<char>> {
    let n = arguments.len();
    if n == 0 {
        Ok(CommandView::Help)
    } else if n == 1 && (arguments[0] == "--help"@ || arguments[0] == "-h"@) {
        Ok(CommandView::Help)
    } else if n == 1 && (arguments[0] == "--version"@ || arguments[0] == "-V"@) {
        Ok(CommandView::Version)
    } else if n == 2 && arguments[0] == "check"@ {
        Ok(CommandView::Check(arguments[1]))
    } else if n == 2 && arguments[0] == "format"@ {
        Ok(CommandView::Format(arguments[1]))
    } else if arguments[0] == "emit-header"@ {
        if n == 2 {
            Ok(CommandView::EmitHeader(arguments[1], None))
        } else if n == 4 && arguments[2] == "--output"@ {
            Ok(CommandView::EmitHeader(arguments[1], Some(arguments[3])))
        } else if n == 4 {
            Err("unknown emit-header option '"@ + arguments[2] + "'"@)
        } else {
            Err("emit-header requires a source path"@)
        }
    } else if n == 2 && arguments[0] == "emit-host"@ {
        Ok(CommandView::EmitHost(arguments[1]))
    } else if arguments[0] == "emit-c"@ {
        if n != 4 {
            Err("emit-c requires a source and --output path"@)
        } else if arguments[2] != "--output"@ {
            Err("emit-c requires --output after the source path"@)
        } else {
            Ok(CommandView::EmitC(arguments[1], arguments[3]))
        }
    } else if arguments[0] == "build"@ {
        if n < 2 {
            Err("build requires a source path"@)
        } else {
            match build_options(arguments, 2, None, seq![]) {
                Ok((output, links)) => Ok(CommandView::Build(arguments[1], output, links)),
                Err(message) => Err(message),
            }
        }
    } else {
        Err("unknown command or invalid arguments"@)
    }
}

/// The word that selects a command on the command line, for the commands that have one.
pub open spec fn command_word(command: CommandView) -> Option<Seq<char>> {
    match command {
        CommandView::Check(_) => Some("check"@),
        CommandView::Format(_) => Some("format"@),
        CommandView::EmitHeader(_, _) => Some("emit-header"@),
        CommandView::EmitHost(_) => Some("emit-host"@),
        CommandView::EmitC(_, _) => Some("emit-c"@),
        CommandView::Build(_, _, _) => Some("build"@),
        CommandView::Help | CommandView::Version => None,
    }
}

/// The source path a command works on, for the commands that take one.
pub open spec fn command_source(command: CommandView) -> Option<Seq<char>> {
    match command {
        CommandView::Check(source) => Some(source),
        CommandView::Format(source) => Some(source),
        CommandView::EmitHeader(source, _) => Some(source),
        CommandView::EmitHost(source) => Some(source),
        CommandView::EmitC(source, _) => Some(source),
        CommandView::Build(source, _, _) => Some(source),
        CommandView::Help | CommandView::Version => None,
    }
}

/// The first argument selects the command of the same name: whatever command other than
/// `--help` and `--version` the arguments parse to, its word is the first argument, and the
/// source path it works on is the second.
pub proof fn lemma_command_named_by_first_argument(arguments: Seq<Seq<char>>)
    requires
        command_for(arguments) is Ok,
        command_word(command_for(arguments)->Ok_0) is Some,
    ensures
        arguments.len() >= 2,
        command_word(command_for(arguments)->Ok_0) == Some(arguments[0]),
        command_source(command_for(arguments)->Ok_0) == Some(arguments[1]),
{
    if arguments[0] == "build"@ && arguments.len() >= 2 {
        match build_options(arguments, 2, None, seq![]) {
            Ok((output, links)) => {},
            Err(message) => {},
        }
    }
}

/// Help and the version are asked for by their flags alone: the arguments parse to `Help` only
/// when they are empty or are just `--help` or `-h`, and to `Version` only when they are just
/// `--version` or `-V`; each of those flags alone parses to its command.
pub proof fn lemma_flags_select_help_and_version(arguments: Seq<Seq<char>>)
    ensures
        command_for(arguments) == Ok::<CommandView, Seq<char>>(CommandView::Help) <==> (
        arguments.len() == 0 || (arguments.len() == 1 && (arguments[0] == "--help"@
            || arguments[0] == "-h"@))),
        command_for(arguments) == Ok::<CommandView, Seq<char>>(CommandView::Version) <==> (
        arguments.len() == 1 && (arguments[0] == "--version"@ || arguments[0] == "-V"@)),
{
    reveal_strlit("--help");
    reveal_strlit("-h");
    reveal_strlit("--version");
    reveal_strlit("-V");
    assert("-V"@ != "-h"@) by {
        assert("-V"@[1] != "-h"@[1]);
    }
    assert("--version"@ != "--help"@) by {
        assert("--version"@.len() != "--help"@.len());
    }
    assert("--version"@ != "-h"@) by {
        assert("--version"@.len() != "-h"@.len());
    }
    assert("-V"@ != "--help"@) by {
        assert("-V"@.len() != "--help"@.len());
    }
    if arguments.len() > 0 && arguments[0] == "build"@ && arguments.len() >= 2 {
        match build_options(arguments, 2, None, seq![]) {
            Ok((output, links)) => {},
            Err(message) => {},
        }
    }
}

/// A command word followed by a source path parses to the command of that word, working on that
/// path: `check <source>`, `format <source>`, `emit-header <source>` and `emit-host <source>`.
pub proof fn lemma_word_and_source_parse(arguments: Seq<Seq<char>>)
    requires
        arguments.len() == 2,
        arguments[0] == "check"@ || arguments[0] == "format"@ || arguments[0] == "emit-header"@
            || arguments[0] == "emit-host"@,
    ensures
        command_for(arguments) is Ok,
        command_word(command_for(arguments)->Ok_0) == Some(arguments[0]),
        command_source(command_for(arguments)->Ok_0) == Some(arguments[1]),
{
    reveal_strlit("check");
    reveal_strlit("format");
    reveal_strlit("emit-header");
    reveal_strlit("emit-host");
}

/// What `parse_arguments` gives back is selected by the first argument: a parsed command that
/// has a word is the command named by the first argument, on the source path that follows it.
pub proof fn lemma_parsed_command_named_by_first_argument(
    result: Result<Command, Outcome>,
    arguments: Seq<String>,
)
    requires
        parsed_as(result, arguments),
        result is Ok,
        command_word(command_view(result->Ok_0)) is Some,
    ensures
        arguments.len() >= 2,
        command_word(command_view(result->Ok_0)) == Some(arguments[0]@),
        command_source(command_view(result->Ok_0)) == Some(arguments[1]@),
{
    lemma_command_named_by_first_argument(texts(arguments));
}

/// The arguments ask for `command`.
pub open spec fn parsed_as(result: Result<Command, Outcome>, arguments: Seq<String>) -> bool {
    match command_for(texts(arguments)) {
        Ok(expected) => result matches Ok(command) && command_view(command) == expected,
        Err(message) => result matches Err(outcome) && outcome.status == ExitStatus::UsageError
            && outcome.stdout@ == Seq::<char>::empty() && outcome.stderr@ == usage_text(message),
    }
}

fn is_text(argument: &String, word: &str) -> (same: bool)
    ensures
        same == (argument@ == word@),
{
    let mut a: Vec<char> = Vec::new();
    push_str(&mut a, argument.as_str());
    let mut b: Vec<char> = Vec::new();
    push_str(&mut b, word);
    if a.len() != b.len() {
        return false;
    }
    let mut k: usize = 0;
    while k < a.len()
        invariant
            a@ == argument@,
            b@ == word@,
            a@.len() == b@.len(),
            k <= a@.len(),
            forall|i: int| 0 <= i < k ==> a@[i] == b@[i],
        decreases a@.len() - k,
    {
        if a[k] != b[k] {
            return false;
        }
        k = k + 1;
    }
    assert(a@ =~= b@);
    true
}

fn copy_string(value: &String) -> (copy: String)
    ensures
        copy@ == value@,
{
    value.clone()
}

/// Reads the options of `build` after its source path.
fn parse_build(arguments: &Vec<String>) -> (result: Result<Command, Outcome>)
    requires
        arguments@.len() >= 2,
        texts(arguments@)[0] == "build"@,
    ensures
        match build_options(texts(arguments@), 2, None, seq![]) {
            Ok((output, links)) => result matches Ok(command) && command_view(command)
                == CommandView::Build(arguments@[1]@, output, links),
            Err(message) => result matches Err(outcome) && outcome.status == ExitStatus::UsageError
                && outcome.stdout@ == Seq::<char>::empty() && outcome.stderr@ == usage_text(message),
        },
{
    let ghost all = texts(arguments@);
    let mut output: Option<String> = None;
    let mut links: Vec<String> = Vec::new();
    let mut index: usize = 2;
    assert(texts(links@) =~= seq![]);
    while index < arguments.len()
        invariant
            2 <= index <= arguments@.len() + 1,
            all == texts(arguments@),
            build_options(all, 2, None, seq![]) == build_options(
                all,
                index as int,
                match output {
                    Some(o) => Some(o@),
                    None => None,
                },
                texts(links@),
            ),
        decreases arguments@.len() + 1 - index,
    {
        let option = &arguments[index];
        if index + 1 >= arguments.len() {
            return Err(quoting_usage_error("option '", option, "' requires a value"));
        }
        if is_text(option, "--output") {
            if output.is_some() {
                return Err(usage_error("--output may only be specified once"));
            }
            output = Some(copy_string(&arguments[index + 1]));
        } else if is_text(option, "--link") {
            let ghost before = links@;
            links.push(copy_string(&arguments[index + 1]));
            assert(texts(links@) =~= texts(before).push(all[index + 1]));
        } else {
            return Err(quoting_usage_error("unknown build option '", option, "'"));
        }
        index = index + 2;
    }
    match output {
        Some(output) => Ok(
            Command::Build { source: copy_string(&arguments[1]), output, links },
        ),
        None => Err(usage_error("build requires --output")),
    }
}

/// What the arguments ask the compiler to do, or the usage error that refuses them.
pub fn parse_arguments(arguments: &Vec<String>) -> (result: Result<Command, Outcome>)
    ensures
        parsed_as(result, arguments@),
{
    let ghost all = texts(arguments@);
    let n = arguments.len();
    if n == 0 {
        return Ok(Command::Help);
    }
    assert(all[0] == arguments@[0]@);
    if n == 1 && (is_text(&arguments[0], "--help") || is_text(&arguments[0], "-h")) {
        return Ok(Command::Help);
    }
    if n == 1 && (is_text(&arguments[0], "--version") || is_text(&arguments[0], "-V")) {
        return Ok(Command::Version);
    }
    if n == 2 && is_text(&arguments[0], "check") {
        return Ok(Command::Check { source: copy_string(&arguments[1]) });
    }
    if n == 2 && is_text(&arguments[0], "format") {
        return Ok(Command::Format { source: copy_string(&arguments[1]) });
    }
    if is_text(&arguments[0], "emit-header") {
        if n == 2 {
            return Ok(Command::EmitHeader { source: copy_string(&arguments[1]), output: None });
        }
        if n == 4 && is_text(&arguments[2], "--output") {
            return Ok(
                Command::EmitHeader {
                    source: copy_string(&arguments[1]),
                    output: Some(copy_string(&arguments[3])),
                },
            );
        }
        if n == 4 {
            return Err(quoting_usage_error("unknown emit-header option '", &arguments[2], "'"));
        }
        return Err(usage_error("emit-header requires a source path"));
    }
    if n == 2 && is_text(&arguments[0], "emit-host") {
        return Ok(Command::EmitHost { source: copy_string(&arguments[1]) });
    }
    if is_text(&arguments[0], "emit-c") {
        if n != 4 {
            return Err(usage_error("emit-c requires a source and --output path"));
        }
        if !is_text(&arguments[2], "--output") {
            return Err(usage_error("emit-c requires --output after the source path"));
        }
        return Ok(
            Command::EmitC { source: copy_string(&arguments[1]), output: copy_string(&arguments[3]) },
        );
    }
    if is_text(&arguments[0], "build") {
        if n < 2 {
            return Err(usage_error("build requires a source path"));
        }
        return parse_build(arguments);
    }
    Err(usage_error("unknown command or invalid arguments"))
}

} // verus!

verus! {

/// What `--help` and `--version` end with: the usage text, or the version line and a line break,
/// printed on a success. The other commands run the compiler, so they have no immediate outcome.
pub fn immediate_outcome(command: &Command) -> (outcome: Option<Outcome>)
    ensures
        outcome is Some <==> (*command is Help || *command is Version),
        outcome matches Some(o) ==> o.status == ExitStatus::Success && o.stderr@
            == Seq::<char>::empty() && o.stdout@ == (if *command is Help {
            HELP@
        } else {
            VERSION@ + "\n"@
        }),
{
    match command {
        Command::Help => {
            let mut text: Vec<char> = Vec::new();
            push_str(&mut text, HELP);
            Some(Outcome::success(string_from_chars(&text)))
        },
        Command::Version => {
            let mut text: Vec<char> = Vec::new();
            push_str(&mut text, VERSION);
            push_str(&mut text, "\n");
            Some(Outcome::success(string_from_chars(&text)))
        },
        _ => None,
    }
}

} // verus!
