use std::io::{self, Write};

use lib::commands::{show_help, write_task_list};
use lib::parser::parse_tasks_file;

/// A writer that fails every write the way a closed pipe does, as `jute
/// self.list | head -1` leaves stdout once `head` has exited.
#[derive(Debug)]
pub struct BrokenPipeWriter;

impl Write for BrokenPipeWriter {
    fn write(&mut self, _buf: &[u8]) -> io::Result<usize> {
        Err(io::Error::from(io::ErrorKind::BrokenPipe))
    }

    fn flush(&mut self) -> io::Result<()> {
        Err(io::Error::from(io::ErrorKind::BrokenPipe))
    }
}

const TASKS_FILE: &str = "\
build:
  cargo build

test:
  cargo test
";

#[test]
fn every_task_in_the_file_is_listed() {
    let tasks = parse_tasks_file(TASKS_FILE).expect("source should parse");
    let mut out = Vec::new();

    write_task_list(&mut out, &tasks).unwrap();

    assert_eq!(
        String::from_utf8(out).unwrap(),
        "Available tasks:\n- build\n- test\n"
    );
}

/// Writing with `println!` panics when the write fails, which aborts jute
/// outright once the reader of a pipe has exited.
#[test]
fn list_tasks_a_closed_stdout_is_reported_as_an_error_rather_than_panicking() {
    let tasks = parse_tasks_file(TASKS_FILE).expect("source should parse");

    let error = write_task_list(&mut BrokenPipeWriter, &tasks).unwrap_err();

    assert_eq!(error.to_string(), "failed to write to stdout: broken pipe");
    assert!(error.is_broken_pipe());
}

#[test]
fn help_describes_how_to_run_a_task_and_every_built_in_command() {
    let mut out = Vec::new();

    show_help(&mut out).unwrap();

    assert_eq!(
        String::from_utf8(out).unwrap(),
        "\
jute is a task runner. Tasks are defined in .jute/tasks.jute

Usage:
  jute                Run the `default` task
  jute <task>         Run the named task
  jute help           Show this help
  jute self.list      List the tasks in this project
  jute self.install   Install jute into .jute in the current directory
"
    );
}

#[test]
fn show_help_a_closed_stdout_is_reported_as_an_error_rather_than_panicking() {
    let error = show_help(&mut BrokenPipeWriter).unwrap_err();

    assert_eq!(error.to_string(), "failed to write to stdout: broken pipe");
    assert!(error.is_broken_pipe());
}

#[test]
fn the_tasks_of_a_tasks_file_are_listed_in_order_of_name() {
    let mut out = Vec::new();

    lib::commands::list_tasks(&mut out, "zeta:\n  a\nalpha:\n  b\nmid:\n  c\n").unwrap();

    assert_eq!(
        String::from_utf8(out).unwrap(),
        "Available tasks:\n- alpha\n- mid\n- zeta\n"
    );
}

#[test]
fn a_tasks_file_that_does_not_parse_lists_nothing() {
    let mut out = Vec::new();

    let error = lib::commands::list_tasks(&mut out, "empty:\nother:\n  echo hello\n").unwrap_err();

    assert_eq!(error.to_string(), "Task empty should have at least one step");
    assert!(out.is_empty());
}

#[test]
fn the_help_text_is_the_one_written() {
    let mut out = Vec::new();

    show_help(&mut out).unwrap();

    assert_eq!(String::from_utf8(out).unwrap(), lib::commands::help_text());
}
