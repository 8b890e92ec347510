use std::path::Path;

use lib::commands::{
    command_dir, command_failure, command_line, command_outcome, plan_task, run_label, task_step,
    PlannedCommand, TaskAction,
};
use lib::error::JuteError;
use lib::parser::parse_tasks_file;

const ROOT: &str = "/tmp/jute-project";

/// The commands the named task of `tasks_file` runs, as the program and its
/// arguments, the directory it runs in and the variables set for it.
fn planned(tasks_file: &str, task_name: &str) -> Vec<(Vec<String>, String, Vec<(String, String)>)> {
    let tasks = parse_tasks_file(tasks_file).expect("source should parse");
    let task = tasks.get(task_name).expect("the task should exist");

    plan_task(task)
        .iter()
        .map(|c| {
            let mut command = vec![c.program.to_string()];
            command.extend(c.args.iter().map(|a| a.to_string()));
            let envs = c
                .env
                .iter()
                .map(|v| (v.name.to_string(), v.value.to_string()))
                .collect();

            (command, command_dir(ROOT, &c.dirs), envs)
        })
        .collect()
}

fn words(strs: &[&str]) -> Vec<String> {
    strs.iter().map(|s| s.to_string()).collect()
}

fn joined(root: &str, dirs: &[&str]) -> String {
    let mut path = Path::new(root).to_path_buf();
    for dir in dirs {
        path = path.join(dir);
    }
    path.to_string_lossy().into_owned()
}

#[test]
fn runs_every_step_of_the_named_task_through_bash() {
    let commands = planned(
        "\
greet:
  echo hello
  echo goodbye

farewell:
  echo unused
",
        "greet",
    );

    assert_eq!(commands[0].0, words(&["echo", "hello"]));
    assert_eq!(commands[1].0, words(&["echo", "goodbye"]));
    assert_eq!(commands.len(), 2);
}

/// A quoted argument reaches the command as one argument, so the space
/// inside it doesn't become an argument separator.
#[test]
fn a_quoted_argument_is_passed_to_the_command_as_one_argument() {
    let commands = planned(
        "\
greet:
  echo 'hello world'
  echo \"hello world\"
",
        "greet",
    );

    assert_eq!(commands[0].0, words(&["echo", "hello world"]));
    assert_eq!(commands[1].0, words(&["echo", "hello world"]));
}

#[test]
fn with_step_sets_env_vars_for_commands_inside_it() {
    let commands = planned(
        "\
greet:
  echo before
  with GREETING=hi:
    echo inside
  echo after
",
        "greet",
    );

    assert_eq!(commands[0].2, vec![]);
    assert_eq!(
        commands[1].2,
        vec![("GREETING".to_string(), "hi".to_string())]
    );
    assert_eq!(commands[2].2, vec![]);
}

#[test]
fn nested_with_blocks_merge_and_inner_shadows_outer() {
    let commands = planned(
        "\
greet:
  with A=1 B=2:
    with A=3:
      echo hello
",
        "greet",
    );

    assert_eq!(
        commands[0].2,
        vec![
            ("A".to_string(), "3".to_string()),
            ("B".to_string(), "2".to_string()),
        ]
    );
}

#[test]
fn in_step_changes_cwd_for_commands_inside_it() {
    let commands = planned(
        "\
greet:
  echo before
  in sub:
    echo inside
  echo after
",
        "greet",
    );

    assert_eq!(commands[0].1, joined(ROOT, &[]));
    assert_eq!(commands[1].1, joined(ROOT, &["sub"]));
    assert_eq!(commands[2].1, joined(ROOT, &[]));
}

#[test]
fn nested_in_blocks_join_directories() {
    let commands = planned(
        "\
greet:
  in a:
    in b:
      echo hello
",
        "greet",
    );

    assert_eq!(commands[0].1, joined(ROOT, &["a", "b"]));
}

#[test]
fn variables_are_handed_over_in_order_of_name() {
    let commands = planned(
        "\
greet:
  with Z=1 M=2 A=3:
    with M=4 B=5:
      echo hello
",
        "greet",
    );

    assert_eq!(
        commands[0].2,
        vec![
            ("A".to_string(), "3".to_string()),
            ("B".to_string(), "5".to_string()),
            ("M".to_string(), "4".to_string()),
            ("Z".to_string(), "1".to_string()),
        ]
    );
}

#[test]
fn the_last_setting_of_a_variable_in_one_with_wins() {
    let commands = planned(
        "\
greet:
  with A=1 A=2:
    echo hello
",
        "greet",
    );

    assert_eq!(commands[0].2, vec![("A".to_string(), "2".to_string())]);
}

#[test]
fn an_in_block_inside_a_with_block_keeps_its_variables() {
    let commands = planned(
        "\
migrate:
  with NODE_ENV=test:
    in app/server:
      pnpm exec migrate
",
        "migrate",
    );

    assert_eq!(commands[0].0, words(&["pnpm", "exec", "migrate"]));
    assert_eq!(commands[0].1, joined(ROOT, &["app/server"]));
    assert_eq!(
        commands[0].2,
        vec![("NODE_ENV".to_string(), "test".to_string())]
    );
}

#[test]
fn a_command_line_is_rebuilt_with_single_spaces() {
    assert_eq!(command_line("cargo", &["test", "--all"]), "cargo test --all");
    assert_eq!(command_line("ls", &[]), "ls");
}

fn command<'a>(program: &'a str, args: Vec<&'a str>) -> PlannedCommand<'a> {
    PlannedCommand {
        program,
        args,
        dirs: Vec::new(),
        env: Vec::new(),
    }
}

#[test]
fn a_failed_command_is_reported_with_its_exit_code() {
    let c = command("cargo", vec!["test"]);

    let error = command_failure(&c, Some(101));

    assert_eq!(
        error.to_string(),
        "Command \"cargo test\" failed with status code 101"
    );
    assert_eq!(error.exit_code(), 101);
}

#[test]
fn a_command_killed_by_a_signal_is_reported_as_such() {
    let c = command("sleep", vec!["10"]);

    let error = command_failure(&c, None);

    assert!(matches!(error, JuteError::CommandKilledBySignal { .. }));
    assert_eq!(
        error.to_string(),
        "Command \"sleep 10\" was terminated by a signal"
    );
    assert_eq!(error.exit_code(), 1);
}

#[test]
fn only_a_failed_command_stops_the_task() {
    let c = command("true", vec![]);

    assert!(command_outcome(&c, true, Some(0)).is_ok());
    assert!(matches!(
        command_outcome(&c, false, Some(2)),
        Err(JuteError::CommandFailed { code: 2, .. })
    ));
}

#[test]
fn a_command_that_cannot_be_started_is_labelled_with_its_command_line() {
    let c = command("cargo", vec!["build", "--release"]);

    assert_eq!(run_label(&c), "failed to run \"cargo build --release\"");
}

#[test]
fn a_relative_in_directory_is_joined_onto_the_root() {
    assert_eq!(command_dir("/root", &["a", "b"]), "/root/a/b");
    assert_eq!(command_dir("/root", &[]), "/root");
}

#[test]
fn a_step_back_at_the_task_s_indentation_leaves_every_block() {
    let commands = planned(
        "\
migrate:
  with NODE_ENV=test:
    in app/server:
      pnpm exec migrate
  pnpm exec check
",
        "migrate",
    );

    assert_eq!(commands[1].0, words(&["pnpm", "exec", "check"]));
    assert_eq!(commands[1].1, joined(ROOT, &[]));
    assert_eq!(commands[1].2, vec![]);
}

#[test]
fn a_task_runs_its_commands_in_order_and_stops_at_the_first_failure() {
    let commands = vec![
        command("make", vec![]),
        command("make", vec!["test"]),
        command("make", vec!["install"]),
    ];

    assert!(matches!(task_step(&commands, 0, None), TaskAction::Run(0)));
    assert!(matches!(
        task_step(&commands, 1, Some((true, Some(0)))),
        TaskAction::Run(1)
    ));
    match task_step(&commands, 2, Some((false, Some(2)))) {
        TaskAction::Done(Err(error)) => {
            assert_eq!(
                error.to_string(),
                "Command \"make test\" failed with status code 2"
            );
            assert_eq!(error.exit_code(), 2);
        }
        _ => panic!("a failed command should end the task"),
    }
}

#[test]
fn a_task_succeeds_once_every_command_has() {
    let commands = vec![command("true", vec![])];

    assert!(matches!(
        task_step(&commands, 1, Some((true, Some(0)))),
        TaskAction::Done(Ok(()))
    ));
    assert!(matches!(task_step(&Vec::new(), 0, None), TaskAction::Done(Ok(()))));
}

#[test]
fn an_absolute_in_directory_replaces_the_one_around_it() {
    assert_eq!(command_dir("/root", &["/abs", "x"]), "/abs/x");
    assert_eq!(command_dir("/", &["a"]), "/a");
    assert_eq!(command_dir("/root/", &["a"]), "/root/a");
}
