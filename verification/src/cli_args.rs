//! What jute's command line asks for.
use vstd::prelude::*;

use std::borrow::Cow;

use crate::text::{chars_of, same_text, string_of};

verus! {

/// What the command line asks jute to do. `A` is the type the task's own
/// arguments come in; they are handed on as given.
#[derive(Debug, PartialEq)]
pub enum CliArgs<A> {
    RunTask {
        /// The `<namespace>` of a `<namespace>.<task>` command, naming the
        /// `.jute/<namespace>.jute` file the task lives in. `None` for the
        /// default namespace.
        namespace: Option<Cow<'static, str>>,
        task_name: Cow<'static, str>,
        /// Kept as given, since these are passed on to the commands the task
        /// runs.
        args: Vec<A>,
    },
    ShowHelp,
    ListCommands,
    Install,
}

/// The commands that ask for help.
pub open spec fn is_help(c: Seq<char>) -> bool {
    c == "help"@ || c == "--help"@
}

/// Reads the command line after the program name: `command` is its first
/// word, if there is one, and `args` what follows it. No command runs the
/// `default` task; `help`, `--help`, `self.list` and `self.install` are
/// jute's own; any other command names a task, split at its first `.` into
/// a namespace and the task's name.
pub fn parse_cli_args<A>(command: Option<&str>, args: Vec<A>) -> (r: CliArgs<A>)
    ensures
        match command {
            None => r matches CliArgs::RunTask { namespace: None, task_name, args: a }
                && task_name@ == "default"@ && a@ == Seq::<A>::empty(),
            Some(c) => if is_help(c@) {
                r is ShowHelp
            } else if c@ == "self.list"@ {
                r is ListCommands
            } else if c@ == "self.install"@ {
                r is Install
            } else {
                r matches CliArgs::RunTask { namespace, task_name, args: a } && a@ == args@
                    && names_task(c@, namespace, task_name@)
            },
        },
{
    match command {
        None => CliArgs::RunTask {
            namespace: None,
            task_name: Cow::Borrowed("default"),
            args: Vec::new(),
        },
        Some(c) => {
            if same_text(c, "help") || same_text(c, "--help") {
                CliArgs::ShowHelp
            } else if same_text(c, "self.list") {
                CliArgs::ListCommands
            } else if same_text(c, "self.install") {
                CliArgs::Install
            } else {
                run_task(c, args)
            }
        },
    }
}

/// Whether `command` names the task `task` in `namespace`: split at its
/// first `.`, with no namespace when it has no `.`.
pub open spec fn names_task(
    command: Seq<char>,
    namespace: Option<Cow<'static, str>>,
    task: Seq<char>,
) -> bool {
    match namespace {
        None => !command.contains('.') && task == command,
        Some(n) => !n@.contains('.') && n@ + "."@ + task == command,
    }
}

/// Splits `command` at the first `.`, so that everything after it is the task
/// name. A command with no `.` names a task in the default namespace.
fn run_task<A>(command: &str, args: Vec<A>) -> (r: CliArgs<A>)
    ensures
        r matches CliArgs::RunTask { namespace, task_name, args: a } && a@ == args@ && names_task(
            command@,
            namespace,
            task_name@,
        ),
{
    let cs = chars_of(command);
    let mut i: usize = 0;
    while i < cs.len() && cs[i] != '.'
        invariant
            i <= cs@.len(),
            cs@ == command@,
            forall|j: int| 0 <= j < i ==> cs@[j] != '.',
        decreases cs@.len() - i,
    {
        i = i + 1;
    }
    if i == cs.len() {
        proof {
            assert(!command@.contains('.')) by {
                if command@.contains('.') {
                    let j = choose|j: int| 0 <= j < command@.len() && command@[j] == '.';
                    assert(cs@[j] != '.');
                }
            }
            assert(cs@.subrange(0, i as int) =~= command@);
        }
        CliArgs::RunTask { namespace: None, task_name: Cow::Owned(string_of(&cs, 0, i)), args }
    } else {
        let namespace = string_of(&cs, 0, i);
        let task_name = string_of(&cs, i + 1, cs.len());
        proof {
            reveal_strlit(".");
            assert(!namespace@.contains('.')) by {
                if namespace@.contains('.') {
                    let j = choose|j: int| 0 <= j < namespace@.len() && namespace@[j] == '.';
                    assert(cs@[j] != '.');
                }
            }
            assert(namespace@ + "."@ + task_name@ =~= command@);
        }
        CliArgs::RunTask {
            namespace: Some(Cow::Owned(namespace)),
            task_name: Cow::Owned(task_name),
            args,
        }
    }
}

} // verus!
