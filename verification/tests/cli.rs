use lib::cli::{immediate_outcome, parse_arguments, usage_error, Command, ExitStatus, Outcome, HELP, VERSION};

fn args(values: &[&str]) -> Vec<String> {
    values.iter().map(|value| value.to_string()).collect()
}

#[test]
fn no_arguments_ask_for_help() {
    assert_eq!(parse_arguments(&args(&[])), Ok(Command::Help));
    assert_eq!(parse_arguments(&args(&["-h"])), Ok(Command::Help));
    assert!(HELP.starts_with("malc — reference compiler"));
}

#[test]
fn version_flags_ask_for_the_version_line() {
    assert_eq!(parse_arguments(&args(&["--version"])), Ok(Command::Version));
    assert_eq!(parse_arguments(&args(&["-V"])), Ok(Command::Version));
    assert_eq!(VERSION, "malc 0.5.0-dev (language v0.5)");
}

#[test]
fn an_unknown_command_is_refused_with_the_help_hint() {
    let outcome = parse_arguments(&args(&["unknown", "sample.mal"])).unwrap_err();
    assert_eq!(outcome.status, ExitStatus::UsageError);
    assert!(outcome.stdout.is_empty());
    assert_eq!(
        outcome.stderr,
        "malc: unknown command or invalid arguments\nTry 'malc --help' for usage.\n"
    );
}

#[test]
fn build_options_are_validated_in_order() {
    let outcome = parse_arguments(&args(&["build", "sample.mal", "--link", "host.c"])).unwrap_err();
    assert_eq!(outcome.status, ExitStatus::UsageError);
    assert!(outcome.stderr.contains("requires --output"));

    let outcome = parse_arguments(&args(&[
        "build", "sample.mal", "--output", "one", "--output", "two",
    ]))
    .unwrap_err();
    assert!(outcome.stderr.contains("only be specified once"));

    let outcome = parse_arguments(&args(&["build", "sample.mal", "--output"])).unwrap_err();
    assert!(outcome.stderr.contains("option '--output' requires a value"));

    let outcome =
        parse_arguments(&args(&["build", "sample.mal", "--fast", "yes"])).unwrap_err();
    assert!(outcome.stderr.contains("unknown build option '--fast'"));

    assert_eq!(
        parse_arguments(&args(&[
            "build", "s.mal", "--link", "a.o", "--output", "out", "--link", "b.o",
        ])),
        Ok(Command::Build {
            source: "s.mal".into(),
            output: "out".into(),
            links: vec!["a.o".into(), "b.o".into()],
        })
    );
}

#[test]
fn emit_commands_take_their_paths() {
    assert_eq!(
        parse_arguments(&args(&["emit-header", "a.mal"])),
        Ok(Command::EmitHeader { source: "a.mal".into(), output: None })
    );
    assert_eq!(
        parse_arguments(&args(&["emit-header", "a.mal", "--output", "a.h"])),
        Ok(Command::EmitHeader { source: "a.mal".into(), output: Some("a.h".into()) })
    );
    let outcome = parse_arguments(&args(&["emit-header", "a.mal", "--out", "a.h"])).unwrap_err();
    assert!(outcome.stderr.contains("unknown emit-header option '--out'"));
    let outcome = parse_arguments(&args(&["emit-c", "a.mal", "-o", "a.c"])).unwrap_err();
    assert!(outcome.stderr.contains("emit-c requires --output after the source path"));
    assert_eq!(
        parse_arguments(&args(&["emit-c", "a.mal", "--output", "a.c"])),
        Ok(Command::EmitC { source: "a.mal".into(), output: "a.c".into() })
    );
    assert_eq!(
        parse_arguments(&args(&["check", "a.mal"])),
        Ok(Command::Check { source: "a.mal".into() })
    );
}

#[test]
fn exit_codes_follow_the_status() {
    assert_eq!(ExitStatus::Success.code(), 0);
    assert_eq!(ExitStatus::CompileError.code(), 1);
    assert_eq!(ExitStatus::UsageError.code(), 2);
}

#[test]
fn a_compile_failure_ends_with_one_line_break() {
    let outcome = Outcome::compile_failure("malc: broken");
    assert_eq!(outcome.status, ExitStatus::CompileError);
    assert_eq!(outcome.stderr, "malc: broken\n");
    let outcome = Outcome::compile_failure("malc: done\n");
    assert_eq!(outcome.stderr, "malc: done\n");
    assert_eq!(usage_error("x").stderr, "malc: x\nTry 'malc --help' for usage.\n");
}

#[test]
fn no_arguments_prints_help_successfully() {
    let command = parse_arguments(&args(&[])).unwrap();
    let outcome = immediate_outcome(&command).unwrap();
    assert_eq!(outcome.status, ExitStatus::Success);
    assert_eq!(outcome.stdout, HELP);
    assert!(outcome.stderr.is_empty());
}

#[test]
fn version_uses_the_version_contract() {
    let command = parse_arguments(&args(&["--version"])).unwrap();
    let outcome = immediate_outcome(&command).unwrap();
    assert_eq!(outcome.status, ExitStatus::Success);
    assert_eq!(outcome.stdout, "malc 0.5.0-dev (language v0.5)\n");
}

#[test]
fn commands_that_compile_have_no_immediate_outcome() {
    let command = parse_arguments(&args(&["check", "sample.mal"])).unwrap();
    assert_eq!(immediate_outcome(&command), None);
}
