//! What jute's commands say and decide: the help text, the task list, and
//! for a task the commands it runs, where and with what environment, and
//! what a failing command is reported as.
use vstd::prelude::*;

use crate::ast::{
    EnvVar, SpecStep, Step, Task, TaskFile, arg_views, compare_text, env_views,
    lemma_steps_view, lemma_text_less_irreflexive, lemma_text_less_total,
    lemma_text_less_transitive, step_view, steps_view, text_less,
};
use crate::parser::{cow_str, parse_source, parse_tasks_file};
use crate::error::{Context, JuteError, JuteResult, WRITING_TO_STDOUT};
use crate::project_root::{joined_path, path_join};
use crate::text::{chars_of, push_str, string_from};

verus! {

/// What `jute help` shows.
pub const HELP: &'static str = "jute is a task runner. Tasks are defined in .jute/tasks.jute

Usage:
  jute                Run the `default` task
  jute <task>         Run the named task
  jute help           Show this help
  jute self.list      List the tasks in this project
  jute self.install   Install jute into .jute in the current directory
";

/// Writes all of `text` to `out` (`Write::write_all`). Whether the write
/// succeeds depends on the writer, so nothing is claimed of the outcome.
#[verifier::external_body]
fn write_all<W: std::io::Write>(out: &mut W, text: &str) -> Result<(), std::io::Error> {
    out.write_all(text.as_bytes())
}

/// Writes `text` to `out`, labelling a failure as a failed write to stdout.
fn write_out<W: std::io::Write>(out: &mut W, text: &str) -> (r: JuteResult<()>)
    ensures
        r matches Err(e) ==> (e matches JuteError::Io { doing, .. } && doing@
            == WRITING_TO_STDOUT@),
{
    write_all(out, text).context(WRITING_TO_STDOUT)
}

/// What `jute help` shows: what jute is, then how to run a task and each of
/// jute's own commands, one line each.
pub open spec fn help_spec() -> Seq<char> {
    "jute is a task runner. Tasks are defined in .jute/tasks.jute\n"@ + "\n"@ + "Usage:\n"@
        + "  jute                Run the `default` task\n"@
        + "  jute <task>         Run the named task\n"@ + "  jute help           Show this help\n"@
        + "  jute self.list      List the tasks in this project\n"@
        + "  jute self.install   Install jute into .jute in the current directory\n"@
}

/// The help text.
pub fn help_text() -> (r: &'static str)
    ensures
        r@ == help_spec(),
{
    proof {
        reveal_strlit("jute is a task runner. Tasks are defined in .jute/tasks.jute

Usage:
  jute                Run the `default` task
  jute <task>         Run the named task
  jute help           Show this help
  jute self.list      List the tasks in this project
  jute self.install   Install jute into .jute in the current directory
");
        reveal_strlit("jute is a task runner. Tasks are defined in .jute/tasks.jute\n");
        reveal_strlit("\n");
        reveal_strlit("Usage:\n");
        reveal_strlit("  jute                Run the `default` task\n");
        reveal_strlit("  jute <task>         Run the named task\n");
        reveal_strlit("  jute help           Show this help\n");
        reveal_strlit("  jute self.list      List the tasks in this project\n");
        reveal_strlit("  jute self.install   Install jute into .jute in the current directory\n");
        assert(HELP@ =~= help_spec());
    }
    HELP
}

/// Writes the help text, `help_text()`, to `out`. Whether the write
/// succeeds is up to the writer; a failure is labelled as a failed write to
/// stdout.
pub fn show_help<W: std::io::Write>(out: &mut W) -> (r: JuteResult<()>)
    ensures
        r matches Err(e) ==> (e matches JuteError::Io { doing, .. } && doing@
            == WRITING_TO_STDOUT@),
{
    write_out(out, help_text())
}

/// The lines of the task list after its heading.
pub open spec fn task_lines(names: Seq<Seq<char>>) -> Seq<char>
    decreases names.len(),
{
    if names.len() == 0 {
        Seq::empty()
    } else {
        task_lines(names.drop_last()) + "- "@ + names.last() + "\n"@
    }
}

/// The task list: a heading, then one line per task.
pub open spec fn task_list_text(names: Seq<Seq<char>>) -> Seq<char> {
    "Available tasks:\n"@ + task_lines(names)
}

/// The task list of a tasks file, its names in increasing order.
pub fn task_list(tasks: &TaskFile) -> (r: String)
    requires
        tasks.wf(),
    ensures
        exists|names: Seq<Seq<char>>|
            {
                &&& r@ == task_list_text(names)
                &&& names.len() == tasks@.dom().len()
                &&& forall|i: int, j: int| 0 <= i < j < names.len() ==> text_less(names[i], names[j])
                &&& forall|k: Seq<char>|
                    tasks@.dom().contains(k) <==> exists|i: int| 0 <= i < names.len() && names[i] == k
            },
{
    let names = tasks.list_tasks();
    let ghost views = names@.map_values(|n: &str| n@);
    let mut s = string_from("Available tasks:\n");
    let mut i: usize = 0;
    while i < names.len()
        invariant
            i <= names@.len(),
            views == names@.map_values(|n: &str| n@),
            s@ == "Available tasks:\n"@ + task_lines(views.take(i as int)),
        decreases names@.len() - i,
    {
        push_str(&mut s, "- ");
        push_str(&mut s, names[i]);
        push_str(&mut s, "\n");
        i = i + 1;
        proof {
            assert(views.take(i as int).drop_last() =~= views.take(i - 1));
        }
    }
    proof {
        assert(views.take(i as int) =~= views);
        assert forall|k: Seq<char>|
            tasks@.dom().contains(k) <==> exists|i: int| 0 <= i < views.len() && views[i] == k by {
            if tasks@.dom().contains(k) {
                let j = choose|j: int| 0 <= j < names@.len() && names@[j]@ == k;
                assert(views[j] == k);
            }
            if exists|i: int| 0 <= i < views.len() && views[i] == k {
                let j = choose|j: int| 0 <= j < views.len() && views[j] == k;
                assert(names@[j]@ == k);
            }
        }
    }
    s
}

/// Writes the task list.
pub fn write_task_list<W: std::io::Write>(out: &mut W, tasks: &TaskFile) -> (r: JuteResult<()>)
    requires
        tasks.wf(),
    ensures
        r matches Err(e) ==> (e matches JuteError::Io { doing, .. } && doing@
            == WRITING_TO_STDOUT@),
{
    let text = task_list(tasks);
    write_out(out, text.as_str())
}


/// Lists the tasks of the tasks file `tasks_file`; a file that does not
/// parse is reported as such, and nothing is written.
pub fn list_tasks<W: std::io::Write>(out: &mut W, tasks_file: &str) -> (r: JuteResult<()>)
    ensures
        match parse_source(tasks_file@) {
            Ok(_) => r matches Err(e) ==> (e matches JuteError::Io { doing, .. } && doing@
                == WRITING_TO_STDOUT@),
            Err(msg) => r matches Err(JuteError::Parse(e)) && e@ == msg,
        },
{
    match parse_tasks_file(tasks_file) {
        Ok(tasks) => write_task_list(out, &tasks),
        Err(e) => Err(JuteError::Parse(e)),
    }
}

/// The runner that hands each command to the operating system to run, with
/// the terminal's own input and output.
pub struct BashCommandRunner {}

/// One command a task runs: what to run, the `in` directories it runs in
/// (outermost first, each relative to the one before, the first to the
/// project root), and the environment variables its `with` blocks set.
pub ghost struct SpecCommand {
    pub program: Seq<char>,
    pub args: Seq<Seq<char>>,
    pub dirs: Seq<Seq<char>>,
    pub env: Map<Seq<char>, Seq<char>>,
}

/// `env` with each of `vars` set in turn, a later one replacing an earlier
/// one of the same name.
pub open spec fn with_env(env: Map<Seq<char>, Seq<char>>, vars: Seq<(Seq<char>, Seq<char>)>) -> Map<
    Seq<char>,
    Seq<char>,
>
    decreases vars.len(),
{
    if vars.len() == 0 {
        env
    } else {
        with_env(env, vars.drop_last()).insert(vars.last().0, vars.last().1)
    }
}

/// The commands `steps` run, in order, inside directories `dirs` with
/// environment `env`.
pub open spec fn plan(steps: Seq<SpecStep>, dirs: Seq<Seq<char>>, env: Map<Seq<char>, Seq<char>>) -> Seq<
    SpecCommand,
>
    decreases steps,
{
    if steps.len() == 0 {
        Seq::empty()
    } else {
        plan(steps.drop_last(), dirs, env) + plan_step(steps.last(), dirs, env)
    }
}

/// The commands one step runs.
pub open spec fn plan_step(step: SpecStep, dirs: Seq<Seq<char>>, env: Map<Seq<char>, Seq<char>>) -> Seq<
    SpecCommand,
>
    decreases step,
{
    match step {
        SpecStep::Command { program, args, .. } => seq![SpecCommand { program, args, dirs, env }],
        SpecStep::With { env: vars, steps } => plan(steps, dirs, with_env(env, vars)),
        SpecStep::InSubDir { path, steps } => plan(steps, dirs.push(path), env),
    }
}

/// A command of a task, ready to be run.
#[derive(Debug)]
pub struct PlannedCommand<'b> {
    pub program: &'b str,
    pub args: Vec<&'b str>,
    pub dirs: Vec<&'b str>,
    pub env: Vec<EnvVar<'b>>,
}

/// Variables with distinct names.
pub open spec fn distinct_names<'b>(env: Seq<EnvVar<'b>>) -> bool {
    forall|i: int, j: int| 0 <= i < env.len() && 0 <= j < env.len() && i != j ==> env[i].name@ != env[j].name@
}

/// Variables in increasing order of name, as a map keyed by name hands
/// them out.
pub open spec fn sorted_names<'b>(env: Seq<EnvVar<'b>>) -> bool {
    forall|i: int, j: int| 0 <= i < j < env.len() ==> text_less(env[i].name@, env[j].name@)
}

proof fn lemma_sorted_distinct<'b>(env: Seq<EnvVar<'b>>)
    requires
        sorted_names(env),
    ensures
        distinct_names(env),
{
    assert forall|i: int, j: int|
        0 <= i < env.len() && 0 <= j < env.len() && i != j implies env[i].name@ != env[j].name@ by {
        if i < j {
            lemma_text_less_irreflexive(env[i].name@);
        } else {
            lemma_text_less_irreflexive(env[j].name@);
        }
    }
}

/// Variables with distinct names, looked up by name.
pub open spec fn env_map<'b>(env: Seq<EnvVar<'b>>) -> Map<Seq<char>, Seq<char>> {
    Map::new(
        |k: Seq<char>| exists|i: int| 0 <= i < env.len() && env[i].name@ == k,
        |k: Seq<char>| env[choose|i: int| 0 <= i < env.len() && env[i].name@ == k].value@,
    )
}

impl<'b> View for PlannedCommand<'b> {
    type V = SpecCommand;

    open spec fn view(&self) -> SpecCommand {
        SpecCommand {
            program: self.program@,
            args: self.args@.map_values(|a: &'b str| a@),
            dirs: self.dirs@.map_values(|d: &'b str| d@),
            env: env_map(self.env@),
        }
    }
}

/// Every command's variables in increasing order of name.
pub open spec fn envs_sorted<'b>(cs: Seq<PlannedCommand<'b>>) -> bool {
    forall|k: int| 0 <= k < cs.len() ==> sorted_names(#[trigger] cs[k].env@)
}

/// The values of a list of commands.
pub open spec fn command_views<'b>(cs: Seq<PlannedCommand<'b>>) -> Seq<SpecCommand> {
    cs.map_values(|c: PlannedCommand<'b>| c@)
}

fn copy_env<'b>(env: &Vec<EnvVar<'b>>) -> (r: Vec<EnvVar<'b>>)
    ensures
        r@ == env@,
{
    let mut r: Vec<EnvVar<'b>> = Vec::new();
    let mut i: usize = 0;
    while i < env.len()
        invariant
            i <= env@.len(),
            r@ == env@.take(i as int),
        decreases env@.len() - i,
    {
        r.push(EnvVar::new(env[i].name, env[i].value));
        i = i + 1;
        proof {
            assert(r@ =~= env@.take(i as int));
        }
    }
    assert(env@.take(i as int) =~= env@);
    r
}

/// Sets `name` to `value`, replacing a variable of that name if there is one
/// and keeping the variables in order of name.
fn set_var<'b>(env: &mut Vec<EnvVar<'b>>, name: &'b str, value: &'b str)
    requires
        sorted_names(old(env)@),
    ensures
        sorted_names(final(env)@),
        env_map(final(env)@) == env_map(old(env)@).insert(name@, value@),
{
    let ghost e0 = env@;
    let nv = chars_of(name);
    let mut i: usize = 0;
    while i < env.len()
        invariant_except_break
            forall|j: int| 0 <= j < i ==> text_less(#[trigger] e0[j].name@, name@),
        invariant
            env@ == e0,
            e0 == old(env)@,
            nv@ == name@,
            sorted_names(e0),
            i <= e0.len(),
            forall|j: int| 0 <= j < i ==> e0[j].name@ != name@,
        ensures
            i <= e0.len(),
            forall|j: int| 0 <= j < i ==> text_less(#[trigger] e0[j].name@, name@),
            i < e0.len() ==> text_less(name@, e0[i as int].name@),
        decreases e0.len() - i,
    {
        let cur = chars_of(env[i].name);
        let (less, same) = compare_text(&cur, &nv);
        if same {
            env.set(i, EnvVar::new(name, value));
            proof {
                let e1 = env@;
                assert(e1[i as int].name@ == name@ && e1[i as int].value@ == value@);
                assert(sorted_names(e1)) by {
                    assert forall|a: int, b: int| 0 <= a < b < e1.len() implies text_less(
                        e1[a].name@,
                        e1[b].name@,
                    ) by {
                        assert(e1[a].name@ == e0[a].name@);
                        assert(e1[b].name@ == e0[b].name@);
                    }
                }
                lemma_sorted_distinct(e0);
                lemma_sorted_distinct(e1);
                lemma_env_map_update(e0, e1, i as int);
            }
            return ;
        }
        if !less {
            proof {
                lemma_text_less_total(e0[i as int].name@, name@);
            }
            break;
        }
        proof {
            lemma_text_less_irreflexive(name@);
        }
        i = i + 1;
    }
    env.insert(i, EnvVar::new(name, value));
    proof {
        let e1 = env@;
        assert(e1 == e0.insert(i as int, e1[i as int]));
        assert(sorted_names(e1)) by {
            assert forall|a: int, b: int| 0 <= a < b < e1.len() implies text_less(
                e1[a].name@,
                e1[b].name@,
            ) by {
                if b < i {
                } else if a < i && b == i {
                } else if a < i {
                    lemma_text_less_transitive(e0[a].name@, name@, e0[i as int].name@);
                    if b - 1 > i {
                        lemma_text_less_transitive(e0[a].name@, e0[i as int].name@, e0[b - 1].name@);
                    }
                } else if a == i {
                    if b - 1 > i {
                        lemma_text_less_transitive(name@, e0[i as int].name@, e0[b - 1].name@);
                    }
                } else {
                }
            }
        }
        lemma_sorted_distinct(e0);
        lemma_sorted_distinct(e1);
        lemma_env_map_insert(e0, e1, i as int);
    }
}

proof fn lemma_env_map_get<'b>(e: Seq<EnvVar<'b>>, i: int)
    requires
        distinct_names(e),
        0 <= i < e.len(),
    ensures
        env_map(e).dom().contains(e[i].name@),
        env_map(e)[e[i].name@] == e[i].value@,
{
    assert(env_map(e).dom().contains(e[i].name@));
}

proof fn lemma_env_map_update<'b>(e0: Seq<EnvVar<'b>>, e1: Seq<EnvVar<'b>>, i: int)
    requires
        distinct_names(e0),
        distinct_names(e1),
        0 <= i < e0.len(),
        e1.len() == e0.len(),
        e1[i].name@ == e0[i].name@,
        forall|j: int| 0 <= j < e0.len() && j != i ==> e1[j] == e0[j],
    ensures
        env_map(e1) == env_map(e0).insert(e1[i].name@, e1[i].value@),
{
    let k = e1[i].name@;
    assert forall|key: Seq<char>|
        #![auto]
        env_map(e1).dom().contains(key) == env_map(e0).insert(k, e1[i].value@).dom().contains(
            key,
        ) by {
        if env_map(e0).dom().contains(key) {
            let j = choose|j: int| 0 <= j < e0.len() && e0[j].name@ == key;
            if j != i {
                assert(e1[j].name@ == key);
            } else {
                assert(e1[i].name@ == key);
            }
        }
        if key == k {
            assert(e1[i].name@ == key);
        }
        if env_map(e1).dom().contains(key) {
            let j = choose|j: int| 0 <= j < e1.len() && e1[j].name@ == key;
            if j != i {
                assert(e0[j].name@ == key);
            }
        }
    }
    assert forall|key: Seq<char>| #[trigger] env_map(e1).dom().contains(key) implies env_map(
        e1,
    )[key] == env_map(e0).insert(k, e1[i].value@)[key] by {
        let j = choose|j: int| 0 <= j < e1.len() && e1[j].name@ == key;
        lemma_env_map_get(e1, j);
        if j != i {
            lemma_env_map_get(e0, j);
        }
    }
    assert(env_map(e1) =~= env_map(e0).insert(k, e1[i].value@));
}

proof fn lemma_env_map_insert<'b>(e0: Seq<EnvVar<'b>>, e1: Seq<EnvVar<'b>>, i: int)
    requires
        distinct_names(e0),
        distinct_names(e1),
        0 <= i <= e0.len(),
        e1 == e0.insert(i, e1[i]),
    ensures
        env_map(e1) == env_map(e0).insert(e1[i].name@, e1[i].value@),
{
    let k = e1[i].name@;
    assert forall|key: Seq<char>|
        #![auto]
        env_map(e1).dom().contains(key) == env_map(e0).insert(k, e1[i].value@).dom().contains(
            key,
        ) by {
        if env_map(e0).dom().contains(key) {
            let j = choose|j: int| 0 <= j < e0.len() && e0[j].name@ == key;
            if j < i {
                assert(e1[j].name@ == key);
            } else {
                assert(e1[j + 1].name@ == key);
            }
        }
        if key == k {
            assert(e1[i].name@ == key);
        }
        if env_map(e1).dom().contains(key) {
            let j = choose|j: int| 0 <= j < e1.len() && e1[j].name@ == key;
            if j < i {
                assert(e0[j].name@ == key);
            } else if j > i {
                assert(e0[j - 1].name@ == key);
            }
        }
    }
    assert forall|key: Seq<char>| #[trigger] env_map(e1).dom().contains(key) implies env_map(
        e1,
    )[key] == env_map(e0).insert(k, e1[i].value@)[key] by {
        let j = choose|j: int| 0 <= j < e1.len() && e1[j].name@ == key;
        lemma_env_map_get(e1, j);
        if j < i {
            lemma_env_map_get(e0, j);
        } else if j > i {
            lemma_env_map_get(e0, j - 1);
        }
    }
    assert(env_map(e1) =~= env_map(e0).insert(k, e1[i].value@));
}

fn push_commands<'b>(
    steps: &'b Vec<Step<'b>>,
    dirs: &Vec<&'b str>,
    env: &Vec<EnvVar<'b>>,
    out: &mut Vec<PlannedCommand<'b>>,
)
    requires
        sorted_names(env@),
        envs_sorted(old(out)@),
    ensures
        envs_sorted(final(out)@),
        command_views(final(out)@) == command_views(old(out)@) + plan(
            steps_view(steps@),
            dirs@.map_values(|d: &'b str| d@),
            env_map(env@),
        ),
    decreases steps@,
{
    let ghost ds = dirs@.map_values(|d: &'b str| d@);
    let ghost em = env_map(env@);
    let ghost start = command_views(out@);
    let mut i: usize = 0;
    proof {
        lemma_steps_view(steps@);
        assert(steps_view(steps@.take(0)) =~= Seq::<SpecStep>::empty());
        assert(start + Seq::<SpecCommand>::empty() =~= start);
    }
    while i < steps.len()
        invariant
            i <= steps@.len(),
            sorted_names(env@),
            envs_sorted(out@),
            ds == dirs@.map_values(|d: &'b str| d@),
            em == env_map(env@),
            command_views(out@) == start + plan(steps_view(steps@.take(i as int)), ds, em),
        decreases steps@.len() - i,
    {
        let ghost before = command_views(out@);
        push_step_commands(&steps[i], dirs, env, out);
        proof {
            let t = steps@.take(i + 1);
            assert(t.drop_last() =~= steps@.take(i as int));
            lemma_steps_view(t);
            lemma_steps_view(steps@.take(i as int));
            assert(steps_view(t).drop_last() =~= steps_view(steps@.take(i as int)));
            assert(steps_view(t).last() == step_view(steps@[i as int]));
            assert(command_views(out@) =~= start + plan(steps_view(t), ds, em));
        }
        i = i + 1;
    }
    assert(steps@.take(i as int) =~= steps@);
}

fn push_step_commands<'b>(
    step: &'b Step<'b>,
    dirs: &Vec<&'b str>,
    env: &Vec<EnvVar<'b>>,
    out: &mut Vec<PlannedCommand<'b>>,
)
    requires
        sorted_names(env@),
        envs_sorted(old(out)@),
    ensures
        envs_sorted(final(out)@),
        command_views(final(out)@) == command_views(old(out)@) + plan_step(
            step_view(*step),
            dirs@.map_values(|d: &'b str| d@),
            env_map(env@),
        ),
    decreases step,
{
    match step {
        Step::Command(program, args) => {
            let mut arg_strs: Vec<&'b str> = Vec::new();
            let mut i: usize = 0;
            while i < args.len()
                invariant
                    i <= args@.len(),
                    arg_strs@.len() == i,
                    forall|k: int| 0 <= k < i ==> #[trigger] arg_strs@[k]@ == args@[k]@,
                decreases args@.len() - i,
            {
                arg_strs.push(cow_str(&args[i]));
                i = i + 1;
            }
            proof {
                assert(arg_strs@.map_values(|a: &'b str| a@) =~= arg_views(args@));
            }
            let mut ds: Vec<&'b str> = Vec::new();
            let mut j: usize = 0;
            while j < dirs.len()
                invariant
                    j <= dirs@.len(),
                    ds@ == dirs@.take(j as int),
                decreases dirs@.len() - j,
            {
                ds.push(dirs[j]);
                j = j + 1;
                proof {
                    assert(ds@ =~= dirs@.take(j as int));
                }
            }
            proof {
                assert(dirs@.take(j as int) =~= dirs@);
            }
            let ghost before = command_views(out@);
            out.push(PlannedCommand { program: cow_str(program), args: arg_strs, dirs: ds, env: copy_env(env) });
            proof {
                assert(command_views(out@) =~= before + plan_step(
                    step_view(*step),
                    dirs@.map_values(|d: &'b str| d@),
                    env_map(env@),
                ));
            }
        },
        Step::With { env: vars, steps } => {
            let mut inner = copy_env(env);
            let mut i: usize = 0;
            proof {
                assert(env_views(vars@).take(0) =~= Seq::<(Seq<char>, Seq<char>)>::empty());
            }
            while i < vars.len()
                invariant
                    i <= vars@.len(),
                    sorted_names(inner@),
                    env_map(inner@) == with_env(env_map(env@), env_views(vars@).take(i as int)),
                decreases vars@.len() - i,
            {
                set_var(&mut inner, vars[i].name, vars[i].value);
                i = i + 1;
                proof {
                    assert(env_views(vars@).take(i as int).drop_last() =~= env_views(vars@).take(
                        i - 1,
                    ));
                }
            }
            proof {
                assert(env_views(vars@).take(i as int) =~= env_views(vars@));
            }
            push_commands(steps, dirs, &inner, out);
        },
        Step::InSubDir { path, steps } => {
            let mut ds: Vec<&'b str> = Vec::new();
            let mut j: usize = 0;
            while j < dirs.len()
                invariant
                    j <= dirs@.len(),
                    ds@ == dirs@.take(j as int),
                decreases dirs@.len() - j,
            {
                ds.push(dirs[j]);
                j = j + 1;
                proof {
                    assert(ds@ =~= dirs@.take(j as int));
                }
            }
            ds.push(path.as_str());
            proof {
                assert(ds@.map_values(|d: &'b str| d@) =~= dirs@.map_values(|d: &'b str| d@).push(
                    path@,
                ));
            }
            push_commands(steps, &ds, env, out);
        },
    }
}

/// The commands a task runs, in the order it runs them: the project root as
/// the directory and no extra environment to start with, `in` blocks adding
/// a directory and `with` blocks setting variables for the steps inside
/// them.
pub fn plan_task<'b>(task: &'b Task<'b>) -> (r: Vec<PlannedCommand<'b>>)
    ensures
        command_views(r@) == plan(task@.steps, Seq::empty(), Map::empty()),
        envs_sorted(r@),
{
    let mut out: Vec<PlannedCommand<'b>> = Vec::new();
    let dirs: Vec<&'b str> = Vec::new();
    let env: Vec<EnvVar<'b>> = Vec::new();
    proof {
        assert(dirs@.map_values(|d: &'b str| d@) =~= Seq::<Seq<char>>::empty());
        assert(env_map(env@) =~= Map::<Seq<char>, Seq<char>>::empty());
        assert(command_views(out@) =~= Seq::<SpecCommand>::empty());
    }
    push_commands(&task.steps, &dirs, &env, &mut out);
    assert(Seq::<SpecCommand>::empty() + plan(task@.steps, Seq::empty(), Map::empty()) =~= plan(
        task@.steps,
        Seq::empty(),
        Map::empty(),
    ));
    out
}

/// `words` separated by single spaces.
pub open spec fn joined(words: Seq<Seq<char>>) -> Seq<char>
    decreases words.len(),
{
    if words.len() == 0 {
        Seq::empty()
    } else if words.len() == 1 {
        words[0]
    } else {
        joined(words.drop_last()) + " "@ + words.last()
    }
}

/// The command line a command was written as: the program and its arguments
/// separated by single spaces, for error messages.
pub open spec fn command_text(program: Seq<char>, args: Seq<Seq<char>>) -> Seq<char> {
    joined(seq![program] + args)
}

/// Renders a command back into the command line it was written as.
pub fn command_line(program: &str, args: &[&str]) -> (r: String)
    ensures
        r@ == command_text(program@, args@.map_values(|a: &str| a@)),
{
    let ghost words = seq![program@] + args@.map_values(|a: &str| a@);
    let mut s = string_from(program);
    let mut i: usize = 0;
    proof {
        assert(words.take(1) =~= seq![program@]);
        assert(joined(words.take(1)) == program@);
    }
    while i < args.len()
        invariant
            i <= args@.len(),
            words == seq![program@] + args@.map_values(|a: &str| a@),
            s@ == joined(words.take(i + 1)),
        decreases args@.len() - i,
    {
        push_str(&mut s, " ");
        push_str(&mut s, args[i]);
        i = i + 1;
        proof {
            assert(words.take(i + 1).drop_last() =~= words.take(i as int));
            assert(words.take(i + 1).last() == args@[i - 1]@);
        }
    }
    proof {
        assert(words.take(i + 1) =~= words);
    }
    s
}

/// What running a command that did not succeed is reported as: the code it
/// exited with, or that a signal killed it when it has no code.
pub fn command_failure(command: &PlannedCommand, code: Option<i32>) -> (e: JuteError)
    ensures
        match code {
            Some(c) => e matches JuteError::CommandFailed { command: line, code: c2 } && line@
                == command_text(command@.program, command@.args) && c2 == c,
            None => e matches JuteError::CommandKilledBySignal { command: line } && line@
                == command_text(command@.program, command@.args),
        },
{
    let line = command_line(command.program, command.args.as_slice());
    match code {
        Some(c) => JuteError::CommandFailed { command: line, code: c },
        None => JuteError::CommandKilledBySignal { command: line },
    }
}

/// What a command's exit decides: the task goes on after a success, and
/// stops with the command's failure otherwise.
pub fn command_outcome(command: &PlannedCommand, success: bool, code: Option<i32>) -> (r:
    JuteResult<()>)
    ensures
        success <==> r is Ok,
        !success ==> match code {
            Some(c) => r matches Err(JuteError::CommandFailed { command: line, code: c2 }) && line@
                == command_text(command@.program, command@.args) && c2 == c,
            None => r matches Err(JuteError::CommandKilledBySignal { command: line }) && line@
                == command_text(command@.program, command@.args),
        },
{
    if success {
        Ok(())
    } else {
        Err(command_failure(command, code))
    }
}

/// What to do next while a task runs: run the command at an index, or
/// finish with the task's result.
pub enum TaskAction {
    Run(usize),
    Done(JuteResult<()>),
}

/// The next move of a task whose commands are `commands`, `next` of which
/// have been started, `last` being how the latest of them exited (whether
/// it succeeded, and its exit code). The commands run in order, each once;
/// the first that fails ends the task with its failure, and the task
/// succeeds once every command has.
pub fn task_step(commands: &Vec<PlannedCommand>, next: usize, last: Option<(bool, Option<i32>)>) -> (a:
    TaskAction)
    requires
        next <= commands@.len(),
        last is Some ==> next > 0,
    ensures
        match last {
            Some((false, code)) => a matches TaskAction::Done(r) && r is Err && ({
                let c = commands@[next - 1];
                match code {
                    Some(n) => r matches Err(JuteError::CommandFailed { command: line, code: n2 })
                        && line@ == command_text(c@.program, c@.args) && n2 == n,
                    None => r matches Err(JuteError::CommandKilledBySignal { command: line })
                        && line@ == command_text(c@.program, c@.args),
                }
            }),
            _ => if next < commands@.len() {
                a matches TaskAction::Run(i) && i == next
            } else {
                a matches TaskAction::Done(r) && r is Ok
            },
        },
{
    match last {
        Some((false, code)) => TaskAction::Done(Err(command_failure(&commands[next - 1], code))),
        _ => {
            if next < commands.len() {
                TaskAction::Run(next)
            } else {
                TaskAction::Done(Ok(()))
            }
        },
    }
}

/// What a command that could not be started is labelled with.
pub fn run_label(command: &PlannedCommand) -> (r: String)
    ensures
        r@ == "failed to run \""@ + command_text(command@.program, command@.args) + "\""@,
{
    let line = command_line(command.program, command.args.as_slice());
    let mut s = string_from("failed to run \"");
    push_str(&mut s, line.as_str());
    push_str(&mut s, "\"");
    s
}

/// Nested `with` blocks merge, the inner shadowing the outer: setting
/// `outer` and then `inner` is setting `outer` followed by `inner` in one go.
pub proof fn lemma_nested_with_merges(
    env: Map<Seq<char>, Seq<char>>,
    outer: Seq<(Seq<char>, Seq<char>)>,
    inner: Seq<(Seq<char>, Seq<char>)>,
)
    ensures
        with_env(with_env(env, outer), inner) == with_env(env, outer + inner),
    decreases inner.len(),
{
    if inner.len() == 0 {
        assert(outer + inner =~= outer);
    } else {
        lemma_nested_with_merges(env, outer, inner.drop_last());
        assert((outer + inner).drop_last() =~= outer + inner.drop_last());
    }
}

/// Whether `vars[i]` is the last setting of `k` in `vars`.
pub open spec fn last_setting(vars: Seq<(Seq<char>, Seq<char>)>, k: Seq<char>, i: int) -> bool {
    &&& 0 <= i < vars.len()
    &&& vars[i].0 == k
    &&& forall|j: int| i < j < vars.len() ==> vars[j].0 != k
}

/// Within a `with` block, a variable has the value its last setting gives
/// it.
pub proof fn lemma_with_last_setting_wins(
    env: Map<Seq<char>, Seq<char>>,
    vars: Seq<(Seq<char>, Seq<char>)>,
    k: Seq<char>,
    i: int,
)
    requires
        last_setting(vars, k, i),
    ensures
        with_env(env, vars).dom().contains(k),
        with_env(env, vars)[k] == vars[i].1,
    decreases vars.len(),
{
    let rest = vars.drop_last();
    if i < vars.len() - 1 {
        assert(last_setting(rest, k, i)) by {
            assert forall|j: int| i < j < rest.len() implies rest[j].0 != k by {
                assert(rest[j] == vars[j]);
            }
        }
        lemma_with_last_setting_wins(env, rest, k, i);
        assert(vars[vars.len() - 1].0 != k);
    }
}

/// A variable a `with` block does not set keeps the value it had outside.
pub proof fn lemma_with_keeps_unset(
    env: Map<Seq<char>, Seq<char>>,
    vars: Seq<(Seq<char>, Seq<char>)>,
    k: Seq<char>,
)
    requires
        forall|i: int| 0 <= i < vars.len() ==> vars[i].0 != k,
    ensures
        with_env(env, vars).dom().contains(k) == env.dom().contains(k),
        with_env(env, vars)[k] == env[k],
    decreases vars.len(),
{
    if vars.len() > 0 {
        let rest = vars.drop_last();
        assert forall|i: int| 0 <= i < rest.len() implies rest[i].0 != k by {
            assert(rest[i] == vars[i]);
        }
        lemma_with_keeps_unset(env, rest, k);
        assert(vars[vars.len() - 1].0 != k);
    }
}

/// The directory a command runs in: the project root with the command's
/// `in` directories joined on, outermost first.
pub open spec fn working_dir(root: Seq<char>, dirs: Seq<Seq<char>>) -> Seq<char>
    decreases dirs.len(),
{
    if dirs.len() == 0 {
        root
    } else {
        joined_path(working_dir(root, dirs.drop_last()), dirs.last())
    }
}

/// The directory a command runs in, for a project rooted at `root`.
pub fn command_dir(root: &str, dirs: &[&str]) -> (r: String)
    ensures
        r@ == working_dir(root@, dirs@.map_values(|d: &str| d@)),
{
    let ghost ds = dirs@.map_values(|d: &str| d@);
    let mut dir = string_from(root);
    let mut i: usize = 0;
    while i < dirs.len()
        invariant
            i <= dirs@.len(),
            ds == dirs@.map_values(|d: &str| d@),
            dir@ == working_dir(root@, ds.take(i as int)),
        decreases dirs@.len() - i,
    {
        dir = path_join(dir.as_str(), dirs[i]);
        i = i + 1;
        proof {
            assert(ds.take(i as int).drop_last() =~= ds.take(i - 1));
        }
    }
    proof {
        assert(ds.take(i as int) =~= ds);
    }
    dir
}

/// Every command of `cs` runs inside `dirs` (and perhaps deeper): its
/// directories start with `dirs`.
pub open spec fn all_within(cs: Seq<SpecCommand>, dirs: Seq<Seq<char>>) -> bool {
    forall|k: int|
        0 <= k < cs.len() ==> dirs.len() <= (#[trigger] cs[k]).dirs.len() && cs[k].dirs.take(
            dirs.len() as int,
        ) == dirs
}

/// The same commands, in the same directories, whatever their environments.
pub open spec fn same_but_env(a: Seq<SpecCommand>, b: Seq<SpecCommand>) -> bool {
    &&& a.len() == b.len()
    &&& forall|k: int|
        0 <= k < a.len() ==> (#[trigger] a[k]).program == b[k].program && a[k].args == b[k].args
            && a[k].dirs == b[k].dirs
}

proof fn lemma_within_concat(a: Seq<SpecCommand>, b: Seq<SpecCommand>, dirs: Seq<Seq<char>>)
    requires
        all_within(a, dirs),
        all_within(b, dirs),
    ensures
        all_within(a + b, dirs),
{
    assert forall|k: int| 0 <= k < (a + b).len() implies dirs.len() <= (#[trigger] (a + b)[k]).dirs.len()
        && (a + b)[k].dirs.take(dirs.len() as int) == dirs by {
        if k < a.len() {
            assert((a + b)[k] == a[k]);
        } else {
            assert((a + b)[k] == b[k - a.len()]);
        }
    }
}

proof fn lemma_same_but_env_concat(
    a1: Seq<SpecCommand>,
    b1: Seq<SpecCommand>,
    a2: Seq<SpecCommand>,
    b2: Seq<SpecCommand>,
)
    requires
        same_but_env(a1, b1),
        same_but_env(a2, b2),
    ensures
        same_but_env(a1 + a2, b1 + b2),
{
    assert forall|k: int| 0 <= k < (a1 + a2).len() implies (#[trigger] (a1 + a2)[k]).program == (b1
        + b2)[k].program && (a1 + a2)[k].args == (b1 + b2)[k].args && (a1 + a2)[k].dirs == (b1
        + b2)[k].dirs by {
        if k < a1.len() {
            assert((a1 + a2)[k] == a1[k] && (b1 + b2)[k] == b1[k]);
        } else {
            assert((a1 + a2)[k] == a2[k - a1.len()] && (b1 + b2)[k] == b2[k - b1.len()]);
        }
    }
}

/// Every command that `steps` run inside directories `dirs` runs inside
/// `dirs`: blocks only ever add directories below the ones around them.
pub proof fn lemma_commands_stay_within(
    steps: Seq<SpecStep>,
    dirs: Seq<Seq<char>>,
    env: Map<Seq<char>, Seq<char>>,
)
    ensures
        all_within(plan(steps, dirs, env), dirs),
    decreases steps,
{
    if steps.len() > 0 {
        lemma_commands_stay_within(steps.drop_last(), dirs, env);
        lemma_step_commands_stay_within(steps.last(), dirs, env);
        lemma_within_concat(
            plan(steps.drop_last(), dirs, env),
            plan_step(steps.last(), dirs, env),
            dirs,
        );
    }
}

/// Every command of one step run inside `dirs` runs inside `dirs`; those of
/// an `in` block run inside its directory as well.
pub proof fn lemma_step_commands_stay_within(
    step: SpecStep,
    dirs: Seq<Seq<char>>,
    env: Map<Seq<char>, Seq<char>>,
)
    ensures
        all_within(plan_step(step, dirs, env), dirs),
        step matches SpecStep::InSubDir { path, .. } ==> all_within(
            plan_step(step, dirs, env),
            dirs.push(path),
        ),
    decreases step,
{
    match step {
        SpecStep::Command { .. } => {
            assert(dirs.take(dirs.len() as int) =~= dirs);
        },
        SpecStep::With { env: vars, steps } => {
            lemma_commands_stay_within(steps, dirs, with_env(env, vars));
        },
        SpecStep::InSubDir { path, steps } => {
            let inner = dirs.push(path);
            lemma_commands_stay_within(steps, inner, env);
            let cs = plan_step(step, dirs, env);
            assert forall|k: int| 0 <= k < cs.len() implies dirs.len() <= (#[trigger] cs[k]).dirs.len()
                && cs[k].dirs.take(dirs.len() as int) == dirs by {
                assert(cs[k].dirs.take(inner.len() as int) == inner);
                assert(cs[k].dirs.take(dirs.len() as int) =~= inner.take(dirs.len() as int));
                assert(inner.take(dirs.len() as int) =~= dirs);
            }
        },
    }
}

/// Which commands run, and where, does not depend on the environment they
/// are given.
pub proof fn lemma_commands_ignore_env(
    steps: Seq<SpecStep>,
    dirs: Seq<Seq<char>>,
    e1: Map<Seq<char>, Seq<char>>,
    e2: Map<Seq<char>, Seq<char>>,
)
    ensures
        same_but_env(plan(steps, dirs, e1), plan(steps, dirs, e2)),
    decreases steps,
{
    if steps.len() > 0 {
        lemma_commands_ignore_env(steps.drop_last(), dirs, e1, e2);
        lemma_step_commands_ignore_env(steps.last(), dirs, e1, e2);
        lemma_same_but_env_concat(
            plan(steps.drop_last(), dirs, e1),
            plan(steps.drop_last(), dirs, e2),
            plan_step(steps.last(), dirs, e1),
            plan_step(steps.last(), dirs, e2),
        );
    }
}

/// One step's commands, and where they run, do not depend on the
/// environment either.
pub proof fn lemma_step_commands_ignore_env(
    step: SpecStep,
    dirs: Seq<Seq<char>>,
    e1: Map<Seq<char>, Seq<char>>,
    e2: Map<Seq<char>, Seq<char>>,
)
    ensures
        same_but_env(plan_step(step, dirs, e1), plan_step(step, dirs, e2)),
    decreases step,
{
    match step {
        SpecStep::Command { .. } => {},
        SpecStep::With { env: vars, steps } => {
            lemma_commands_ignore_env(steps, dirs, with_env(e1, vars), with_env(e2, vars));
        },
        SpecStep::InSubDir { path, steps } => {
            lemma_commands_ignore_env(steps, dirs.push(path), e1, e2);
        },
    }
}

/// A `with` block changes only the environment: its commands are the ones
/// its steps run on their own, in the same directories.
pub proof fn lemma_with_keeps_commands_and_dirs(
    vars: Seq<(Seq<char>, Seq<char>)>,
    steps: Seq<SpecStep>,
    dirs: Seq<Seq<char>>,
    env: Map<Seq<char>, Seq<char>>,
)
    ensures
        same_but_env(plan_step(SpecStep::With { env: vars, steps }, dirs, env), plan(steps, dirs, env)),
{
    lemma_commands_ignore_env(steps, dirs, with_env(env, vars), env);
}

} // verus!
