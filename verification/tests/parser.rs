use std::borrow::Cow;

use lib::ast::{EnvVar, Step, Task, TaskFile};
use lib::parser::parse_tasks_file;

/// The tasks file the tokeniser and parser examples are written against.
const EXAMPLE_001: &str = "

simple:
  in app/server:
    cargo install


with-dir:
  in app/server:
    pnpm run build


clean:
  in packages/shared:
    pnpm run clean

  in app/client:
    pnpm run clean

test-create-db:
  createdb test_db && psql -c 'CREATE EXTENSION IF NOT EXISTS vector;'

test-migrate:
  jute test-create-db
  with NODE_ENV=test:
    pnpm exec migrate
";

/// The `TaskFile` a test expects to see, built through the same public API
/// the parser itself uses.
fn task_file<'a>(tasks: impl IntoIterator<Item = Task<'a>>) -> TaskFile<'a> {
    let mut file = TaskFile::default();

    for task in tasks {
        file.insert_task(task).expect("task names should be unique");
    }

    file
}

    #[test]
    fn parses_example_001() {
        let source = EXAMPLE_001.to_string();

        let file = parse_tasks_file(&source).expect("001.jute should parse");

        let expected = task_file([
            // simple:
            //   in app/server:
            //     cargo install
            Task::new(
                "simple",
                vec![Step::InSubDir {
                    path: String::from("app/server"),
                    steps: vec![Step::Command("cargo".into(), vec!["install".into()])],
                }],
            ),
            // with-dir:
            //   in app/server:
            //     pnpm run build
            Task::new(
                "with-dir",
                vec![Step::InSubDir {
                    path: String::from("app/server"),
                    steps: vec![Step::Command(
                        "pnpm".into(),
                        vec!["run".into(), "build".into()],
                    )],
                }],
            ),
            // clean:
            //   in packages/shared:
            //     pnpm run clean
            //
            //   in app/client:
            //     pnpm run clean
            Task::new(
                "clean",
                vec![
                    Step::InSubDir {
                        path: String::from("packages/shared"),
                        steps: vec![Step::Command(
                            "pnpm".into(),
                            vec!["run".into(), "clean".into()],
                        )],
                    },
                    Step::InSubDir {
                        path: String::from("app/client"),
                        steps: vec![Step::Command(
                            "pnpm".into(),
                            vec!["run".into(), "clean".into()],
                        )],
                    },
                ],
            ),
            // test-create-db:
            //   createdb test_db && psql -c 'CREATE EXTENSION IF NOT EXISTS vector;'
            Task::new(
                "test-create-db",
                vec![Step::Command(
                    "createdb".into(),
                    vec![
                        "test_db".into(),
                        "&&".into(),
                        "psql".into(),
                        "-c".into(),
                        "CREATE EXTENSION IF NOT EXISTS vector;".into(),
                    ],
                )],
            ),
            // test-migrate:
            //   jute test-create-db
            //   with NODE_ENV=test:
            //     pnpm exec migrate
            Task::new(
                "test-migrate",
                vec![
                    Step::Command("jute".into(), vec!["test-create-db".into()]),
                    Step::With {
                        env: vec![EnvVar::new("NODE_ENV", "test")],
                        steps: vec![Step::Command(
                            "pnpm".into(),
                            vec!["exec".into(), "migrate".into()],
                        )],
                    },
                ],
            ),
        ]);

        assert_eq!(file, expected);
    }

    #[test]
    fn parses_several_env_vars_in_one_with() {
        let file = parse_tasks_file(
            "\
build:
  with NODE_ENV=production DEBUG=0:
    pnpm run build
",
        )
        .expect("source should parse");

        assert_eq!(
            file,
            task_file([Task::new(
                "build",
                vec![Step::With {
                    env: vec![
                        EnvVar::new("NODE_ENV", "production"),
                        EnvVar::new("DEBUG", "0"),
                    ],
                    steps: vec![Step::Command(
                        "pnpm".into(),
                        vec!["run".into(), "build".into()]
                    )],
                }],
            )])
        );
    }

    #[test]
    fn parses_a_with_block_nested_in_an_in_block() {
        let file = parse_tasks_file(
            "\
migrate:
  in app/server:
    with NODE_ENV=test:
      pnpm exec migrate
",
        )
        .expect("source should parse");

        assert_eq!(
            file,
            task_file([Task::new(
                "migrate",
                vec![Step::InSubDir {
                    path: String::from("app/server"),
                    steps: vec![Step::With {
                        env: vec![EnvVar::new("NODE_ENV", "test")],
                        steps: vec![Step::Command(
                            "pnpm".into(),
                            vec!["exec".into(), "migrate".into()]
                        )],
                    }],
                }],
            )])
        );
    }

    /// The tokeniser splits commands on `:` and `=`, so the parser has to put
    /// them back — an owned string is the price of a command containing one.
    #[test]
    fn rebuilds_commands_containing_colons_and_equals() {
        let file = parse_tasks_file(
            "\
serve:
  docker run -p 8080:80 -e FOO=bar image
",
        )
        .expect("source should parse");

        assert_eq!(
            file,
            task_file([Task::new(
                "serve",
                vec![Step::Command(
                    "docker".into(),
                    vec![
                        "run".into(),
                        "-p".into(),
                        "8080:80".into(),
                        "-e".into(),
                        "FOO=bar".into(),
                        "image".into(),
                    ],
                )],
            )])
        );

        let Step::Command(_, args) = &file.get("serve").expect("serve should exist").steps[0]
        else {
            unreachable!("asserted to be a command above")
        };

        assert!(matches!(args[2], Cow::Owned(_)));
    }

    /// Words are split on spaces, so only a genuinely one-word command reaches
    /// the parser as a single `Word` and avoids being rebuilt.
    #[test]
    fn borrows_commands_that_need_no_rebuilding() {
        let file = parse_tasks_file(
            "\
build:
  ./build.sh
",
        )
        .expect("source should parse");

        let step = &file.get("build").expect("build should exist").steps[0];

        let Step::Command(program, args) = step else {
            panic!("expected a command, got {step:?}")
        };

        assert_eq!(program, "./build.sh");
        assert_eq!(args, &Vec::<Cow<str>>::new());
        assert!(
            matches!(program, Cow::Borrowed(_)),
            "a command that is a single word should borrow from the source"
        );
    }

    /// A run of spaces is still just one separator between arguments, so it
    /// doesn't produce empty/phantom args.
    #[test]
    fn a_run_of_spaces_is_a_single_argument_separator() {
        let file = parse_tasks_file(
            "\
fix:
  sed s/a   b/c/ file
",
        )
        .expect("source should parse");

        assert_eq!(
            file,
            task_file([Task::new(
                "fix",
                vec![Step::Command(
                    "sed".into(),
                    vec!["s/a".into(), "b/c/".into(), "file".into()],
                )],
            )])
        );
    }

    /// `in` and `with` are keywords wherever they appear, so a command using
    /// one as an ordinary word has to be put back together.
    #[test]
    fn rebuilds_commands_containing_keywords() {
        let file = parse_tasks_file(
            "\
list:
  for f in *.txt; do echo $f; done
",
        )
        .expect("source should parse");

        assert_eq!(
            file,
            task_file([Task::new(
                "list",
                vec![Step::Command(
                    "for".into(),
                    vec![
                        "f".into(),
                        "in".into(),
                        "*.txt;".into(),
                        "do".into(),
                        "echo".into(),
                        "$f;".into(),
                        "done".into(),
                    ],
                )],
            )])
        );
    }

    #[test]
    fn parses_a_directory_whose_name_contains_spaces() {
        let file = parse_tasks_file(
            "\
build:
  in My Project/server:
    cargo build
",
        )
        .expect("source should parse");

        assert_eq!(
            file,
            task_file([Task::new(
                "build",
                vec![Step::InSubDir {
                    path: String::from("My Project/server"),
                    steps: vec![Step::Command("cargo".into(), vec!["build".into()])],
                }],
            )])
        );
    }

    /// Spaces around the structural parts of a line carry no meaning.
    #[test]
    fn ignores_spaces_around_colons() {
        let file = parse_tasks_file(
            "\
build :
  with A=1 :
    in src :
      cargo build
",
        )
        .expect("spaces before a `:` should be ignored");

        assert_eq!(
            file,
            task_file([Task::new(
                "build",
                vec![Step::With {
                    env: vec![EnvVar::new("A", "1")],
                    steps: vec![Step::InSubDir {
                        path: String::from("src"),
                        steps: vec![Step::Command("cargo".into(), vec!["build".into()])],
                    }],
                }],
            )])
        );
    }

    #[test]
    fn a_task_name_containing_a_space_is_an_error() {
        let error = parse_tasks_file(
            "\
my task:
  echo hello
",
        )
        .expect_err("a task name with a space should not parse");

        assert_eq!(
            error.to_string(),
            "Task names cannot contain spaces, so `my` should be one word"
        );
    }

    /// A space always separates one variable from the next, so there is no way
    /// for a value to hold one.
    #[test]
    fn an_env_var_value_containing_a_space_is_an_error() {
        let error = parse_tasks_file(
            "\
greet:
  with MSG=hello world:
    ./greet.sh
",
        )
        .expect_err("an env var value with a space should not parse");

        assert_eq!(error.to_string(), "Expected Equals, got Colon");
    }

    /// `with` and `in` are keywords, but the parser turns them back into text
    /// where it wanted a name or a value.
    #[test]
    fn keywords_can_be_used_as_env_var_names_and_values() {
        let file = parse_tasks_file(
            "\
run:
  with in=with:
    ./run.sh
",
        )
        .expect("source should parse");

        assert_eq!(
            file,
            task_file([Task::new(
                "run",
                vec![Step::With {
                    env: vec![EnvVar::new("in", "with")],
                    steps: vec![Step::Command("./run.sh".into(), vec![])],
                }],
            )])
        );
    }

    #[test]
    fn a_task_without_steps_is_an_error() {
        let error = parse_tasks_file(
            "\
empty:
other:
  echo hello
",
        )
        .expect_err("a task with no steps should not parse");

        assert_eq!(
            error.to_string(),
            "Task empty should have at least one step"
        );
    }

    #[test]
    fn an_in_block_without_steps_is_an_error() {
        let error = parse_tasks_file(
            "\
clean:
  in packages/shared:
",
        )
        .expect_err("an `in` block with no steps should not parse");

        assert_eq!(
            error.to_string(),
            "`in packages/shared` should have at least one step"
        );
    }

    /// The motivating case: a quoted argument holding a space stays one
    /// argument, and with no escapes to decode it borrows from the source.
    #[test]
    fn a_double_quoted_argument_with_a_space_is_one_borrowed_argument() {
        let file = parse_tasks_file(
            "\
greet:
  echo \"hello world\"
",
        )
        .expect("source should parse");

        assert_eq!(
            file,
            task_file([Task::new(
                "greet",
                vec![Step::Command("echo".into(), vec!["hello world".into()])],
            )])
        );

        let Step::Command(_, args) = &file.get("greet").expect("greet should exist").steps[0]
        else {
            unreachable!("asserted to be a command above")
        };

        assert!(matches!(args[0], Cow::Borrowed(_)));
    }

    /// `\"` and `\\` are decoded, which forces the argument to be rebuilt.
    #[test]
    fn a_double_quoted_argument_with_escapes_is_decoded_and_owned() {
        let file = parse_tasks_file(
            "\
greet:
  echo \"say \\\"hi\\\" or \\\\bye\"
",
        )
        .expect("source should parse");

        assert_eq!(
            file,
            task_file([Task::new(
                "greet",
                vec![Step::Command(
                    "echo".into(),
                    vec!["say \"hi\" or \\bye".into()],
                )],
            )])
        );

        let Step::Command(_, args) = &file.get("greet").expect("greet should exist").steps[0]
        else {
            unreachable!("asserted to be a command above")
        };

        assert!(matches!(args[0], Cow::Owned(_)));
    }

    /// No space separates a word from an adjacent quoted string, so they're
    /// the same argument — the same rebuilding `extend_arg` already does for
    /// `:`/`=`/keywords.
    #[test]
    fn a_word_glued_to_a_double_quoted_string_is_one_argument() {
        let file = parse_tasks_file(
            "\
greet:
  echo foo\"bar baz\"
",
        )
        .expect("source should parse");

        assert_eq!(
            file,
            task_file([Task::new(
                "greet",
                vec![Step::Command("echo".into(), vec!["foobar baz".into()])],
            )])
        );
    }

    #[test]
    fn an_empty_double_quoted_string_is_an_empty_argument() {
        let file = parse_tasks_file(
            "\
greet:
  echo \"\"
",
        )
        .expect("source should parse");

        assert_eq!(
            file,
            task_file([Task::new(
                "greet",
                vec![Step::Command("echo".into(), vec!["".into()])],
            )])
        );
    }

    #[test]
    fn an_unterminated_double_quoted_string_is_an_error() {
        let error = parse_tasks_file(
            "\
greet:
  echo \"oops
",
        )
        .expect_err("an unterminated string should not parse");

        assert_eq!(
            error.to_string(),
            "Unterminated string: missing closing `\"`"
        );
    }

    /// Quoted strings are single-line only, so a raw newline inside one ends
    /// it rather than being included in the argument.
    #[test]
    fn a_double_quoted_string_cannot_span_a_newline() {
        let error = parse_tasks_file(
            "\
greet:
  echo \"hello
  world\"
",
        )
        .expect_err("a string spanning a newline should not parse");

        assert_eq!(
            error.to_string(),
            "Unterminated string: missing closing `\"`"
        );
    }

    /// Single quotes group an argument holding a space just as double quotes
    /// do, and with no escapes to decode the argument borrows from the source.
    #[test]
    fn a_single_quoted_argument_with_a_space_is_one_borrowed_argument() {
        let file = parse_tasks_file(
            "\
greet:
  echo 'hello world'
",
        )
        .expect("source should parse");

        assert_eq!(
            file,
            task_file([Task::new(
                "greet",
                vec![Step::Command("echo".into(), vec!["hello world".into()])],
            )])
        );

        let Step::Command(_, args) = &file.get("greet").expect("greet should exist").steps[0]
        else {
            unreachable!("asserted to be a command above")
        };

        assert!(matches!(args[0], Cow::Borrowed(_)));
    }

    /// `\'` and `\\` are decoded, which forces the argument to be rebuilt.
    #[test]
    fn a_single_quoted_argument_with_escapes_is_decoded_and_owned() {
        let file = parse_tasks_file(
            "\
greet:
  echo 'say \\'hi\\' or \\\\bye'
",
        )
        .expect("source should parse");

        assert_eq!(
            file,
            task_file([Task::new(
                "greet",
                vec![Step::Command(
                    "echo".into(),
                    vec!["say 'hi' or \\bye".into()]
                )],
            )])
        );

        let Step::Command(_, args) = &file.get("greet").expect("greet should exist").steps[0]
        else {
            unreachable!("asserted to be a command above")
        };

        assert!(matches!(args[0], Cow::Owned(_)));
    }

    /// Spaces are an argument separator outside a quoted string but ordinary
    /// characters inside one, so a run of them survives intact.
    #[test]
    fn a_run_of_spaces_inside_a_quoted_string_is_kept_verbatim() {
        let file = parse_tasks_file(
            "\
fix:
  sed 's/a   b/c/' file
",
        )
        .expect("source should parse");

        assert_eq!(
            file,
            task_file([Task::new(
                "fix",
                vec![Step::Command(
                    "sed".into(),
                    vec!["s/a   b/c/".into(), "file".into()],
                )],
            )])
        );
    }

    #[test]
    fn a_word_glued_to_a_single_quoted_string_is_one_argument() {
        let file = parse_tasks_file(
            "\
greet:
  echo foo'bar baz'
",
        )
        .expect("source should parse");

        assert_eq!(
            file,
            task_file([Task::new(
                "greet",
                vec![Step::Command("echo".into(), vec!["foobar baz".into()])],
            )])
        );
    }

    #[test]
    fn an_empty_single_quoted_string_is_an_empty_argument() {
        let file = parse_tasks_file(
            "\
greet:
  echo ''
",
        )
        .expect("source should parse");

        assert_eq!(
            file,
            task_file([Task::new(
                "greet",
                vec![Step::Command("echo".into(), vec!["".into()])],
            )])
        );
    }

    /// The error names the quote that opened the string, not whichever one the
    /// tokeniser happens to scan first.
    #[test]
    fn an_unterminated_single_quoted_string_is_an_error() {
        let error = parse_tasks_file(
            "\
greet:
  echo 'oops
",
        )
        .expect_err("an unterminated string should not parse");

        assert_eq!(
            error.to_string(),
            "Unterminated string: missing closing `'`"
        );
    }

    #[test]
    fn a_single_quoted_string_cannot_span_a_newline() {
        let error = parse_tasks_file(
            "\
greet:
  echo 'hello
  world'
",
        )
        .expect_err("a string spanning a newline should not parse");

        assert_eq!(
            error.to_string(),
            "Unterminated string: missing closing `'`"
        );
    }

fn is_word(w: &str) -> bool {
    !w.is_empty() && !w.contains([' ', ':', '=', '\n', '\r'])
}

fn assert_blocks_filled(steps: &[Step<'_>]) {
    assert!(!steps.is_empty());
    for step in steps {
        match step {
            Step::Command(program, _) => {
                assert!(is_word(program));
                assert!(matches!(program, Cow::Borrowed(_)));
            }
            Step::With { env, steps } => {
                assert!(!env.is_empty());
                assert!(env.iter().all(|v| is_word(v.name) && is_word(v.value)));
                assert_blocks_filled(steps);
            }
            Step::InSubDir { steps, .. } => assert_blocks_filled(steps),
        }
    }
}

#[test]
fn every_parsed_task_and_block_has_a_step() {
    let tasks = parse_tasks_file(EXAMPLE_001).expect("001.jute should parse");

    for name in tasks.list_tasks() {
        let task = tasks.get(name).expect("a listed task should exist");
        assert_eq!(task.name, name);
        assert!(is_word(name));
        assert_blocks_filled(&task.steps);
    }
}

#[test]
fn get_finds_a_task_just_inserted() {
    let mut file = TaskFile::empty();
    file.insert_task(Task::new("build", vec![Step::Command(Cow::Borrowed("make"), vec![])]))
        .unwrap();
    file.insert_task(Task::new("alpha", vec![Step::Command(Cow::Borrowed("true"), vec![])]))
        .unwrap();

    assert_eq!(
        file.get("build").unwrap(),
        &Task::new("build", vec![Step::Command(Cow::Borrowed("make"), vec![])])
    );
    assert_eq!(file.list_tasks(), vec!["alpha", "build"]);
}

#[test]
fn inserting_a_name_twice_is_an_error_and_the_later_task_wins() {
    let mut file = TaskFile::empty();
    file.insert_task(Task::new("build", vec![Step::Command(Cow::Borrowed("make"), vec![])]))
        .unwrap();

    let error = file
        .insert_task(Task::new("build", vec![Step::Command(Cow::Borrowed("ninja"), vec![])]))
        .unwrap_err();

    assert_eq!(error.to_string(), "Duplicate task definitions for build");
    assert_eq!(
        file.get("build").unwrap(),
        &Task::new("build", vec![Step::Command(Cow::Borrowed("ninja"), vec![])])
    );
}

#[test]
fn a_missing_task_is_reported_by_name() {
    let tasks = parse_tasks_file("build:\n  make\n").expect("source should parse");

    let error = tasks.get("deploy").unwrap_err();

    assert_eq!(error.to_string(), "Task \"deploy\" does not exist");
    assert_eq!(error.exit_code(), 1);
}

#[test]
fn a_duplicate_task_in_a_file_is_an_error() {
    let error = parse_tasks_file("a:\n  x\na:\n  y\n").unwrap_err();

    assert_eq!(error.to_string(), "Duplicate task definitions for a");
}

#[test]
fn an_indented_line_where_a_task_name_is_expected_is_an_error() {
    let error = parse_tasks_file("  a:\n    x\n").unwrap_err();

    assert_eq!(
        error.to_string(),
        "BUG! Parser got confused by indentation, please report the file that caused this bug"
    );
}

#[test]
fn a_token_in_an_error_is_shown_as_debug_shows_it() {
    let error = parse_tasks_file("\"a\tb\":\n  echo\n").unwrap_err();

    assert_eq!(
        error.to_string(),
        "Expected a task name, got DoubleQuotedString(\"a\\tb\")"
    );
}

#[test]
fn a_line_between_two_levels_is_a_step_of_the_outer_block() {
    let tasks = parse_tasks_file("t:\n  in a:\n    echo x\n   echo y\n").expect("source should parse");

    assert_eq!(
        tasks.get("t").unwrap().steps,
        vec![
            Step::InSubDir {
                path: "a".to_string(),
                steps: vec![Step::Command(Cow::Borrowed("echo"), vec![Cow::Borrowed("x")])],
            },
            Step::Command(Cow::Borrowed("echo"), vec![Cow::Borrowed("y")]),
        ]
    );
}
