use std::borrow::Cow;

use lib::cli_args::{parse_cli_args, CliArgs};

/// Reads a command line the way jute's `main` hands it over: the program
/// name first, then the command, then the task's own arguments.
fn parse(strs: &[&str]) -> CliArgs<String> {
    let mut words = strs.iter();
    let _program_name = words.next();
    let command = words.next().copied();

    parse_cli_args(command, words.map(|s| s.to_string()).collect())
}

fn args(strs: &[&str]) -> Vec<String> {
    strs.iter().map(|s| s.to_string()).collect()
}

#[test]
fn no_args_runs_default_command() {
    assert_eq!(
        parse(&["jute"]),
        CliArgs::RunTask {
            namespace: None,
            task_name: Cow::Borrowed("default"),
            args: Vec::new(),
        }
    );
}

#[test]
fn empty_iterator_runs_default_command() {
    assert_eq!(
        parse(&[]),
        CliArgs::RunTask {
            namespace: None,
            task_name: Cow::Borrowed("default"),
            args: Vec::new(),
        }
    );
}

#[test]
fn command_with_no_args() {
    assert_eq!(
        parse(&["jute", "build"]),
        CliArgs::RunTask {
            namespace: None,
            task_name: Cow::Borrowed("build"),
            args: Vec::new(),
        }
    );
}

#[test]
fn command_with_args() {
    assert_eq!(
        parse(&["jute", "build", "--release", "-v"]),
        CliArgs::RunTask {
            namespace: None,
            task_name: Cow::Borrowed("build"),
            args: args(&["--release", "-v"]),
        }
    );
}

#[test]
fn namespaced_command() {
    assert_eq!(
        parse(&["jute", "backend.build"]),
        CliArgs::RunTask {
            namespace: Some(Cow::Borrowed("backend")),
            task_name: Cow::Borrowed("build"),
            args: Vec::new(),
        }
    );
}

#[test]
fn namespaced_command_with_args() {
    assert_eq!(
        parse(&["jute", "backend.build", "--release"]),
        CliArgs::RunTask {
            namespace: Some(Cow::Borrowed("backend")),
            task_name: Cow::Borrowed("build"),
            args: args(&["--release"]),
        }
    );
}

#[test]
fn a_command_is_split_at_the_first_dot_only() {
    assert_eq!(
        parse(&["jute", "a.b.c"]),
        CliArgs::RunTask {
            namespace: Some(Cow::Borrowed("a")),
            task_name: Cow::Borrowed("b.c"),
            args: Vec::new(),
        }
    );
}

#[test]
fn an_unknown_self_command_is_treated_as_a_task() {
    assert_eq!(
        parse(&["jute", "self.foo"]),
        CliArgs::RunTask {
            namespace: Some(Cow::Borrowed("self")),
            task_name: Cow::Borrowed("foo"),
            args: Vec::new(),
        }
    );
}

#[test]
fn help_command_shows_help() {
    assert_eq!(parse(&["jute", "help"]), CliArgs::ShowHelp);
}

#[test]
fn help_flag_is_an_alias_for_the_help_command() {
    assert_eq!(parse(&["jute", "--help"]), CliArgs::ShowHelp);
}

#[test]
fn self_list_lists_tasks() {
    assert_eq!(parse(&["jute", "self.list"]), CliArgs::ListCommands);
}

#[test]
fn self_install_runs_install() {
    assert_eq!(parse(&["jute", "self.install"]), CliArgs::Install);
}

#[test]
fn the_namespace_a_dot_and_the_task_name_spell_the_command() {
    for command in ["a.b", "x.y.z", ".lead", "trail.", "plain"] {
        match parse(&["jute", command]) {
            CliArgs::RunTask {
                namespace: Some(namespace),
                task_name,
                ..
            } => {
                assert!(!namespace.contains('.'));
                assert_eq!(format!("{namespace}.{task_name}"), command);
            }
            CliArgs::RunTask {
                namespace: None,
                task_name,
                ..
            } => {
                assert!(!command.contains('.'));
                assert_eq!(task_name, command);
            }
            other => panic!("expected a task, got {other:?}"),
        }
    }
}

#[test]
fn an_empty_command_names_an_empty_task() {
    assert_eq!(
        parse(&["jute", ""]),
        CliArgs::RunTask {
            namespace: None,
            task_name: Cow::Borrowed(""),
            args: Vec::new(),
        }
    );
}
