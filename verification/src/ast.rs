//! The parsed form of a tasks file: tasks, their steps, and the file that
//! holds them by name.
use std::borrow::Cow;
use vstd::prelude::*;

use crate::error::{JuteError, JuteResult};
use crate::parser::ParseError;
use crate::text::{chars_of, push_str, string_from};

verus! {

/// The value of a step: a command with its arguments, or a block of steps
/// run with extra environment variables or in a subdirectory.
pub ghost enum SpecStep {
    /// A command: the program and its arguments, and for the program and
    /// for each argument whether its text is a new string (owned) rather
    /// than a slice borrowed from the source.
    Command {
        program: Seq<char>,
        args: Seq<Seq<char>>,
        program_owned: bool,
        args_owned: Seq<bool>,
    },
    With { env: Seq<(Seq<char>, Seq<char>)>, steps: Seq<SpecStep> },
    InSubDir { path: Seq<char>, steps: Seq<SpecStep> },
}

/// The value of a task: its name and its steps.
pub ghost struct SpecTask {
    pub name: Seq<char>,
    pub steps: Seq<SpecStep>,
}

#[derive(Debug, PartialEq, Default)]
pub struct TaskFile<'a> {
    tasks: Vec<Task<'a>>,
}

#[derive(Debug, PartialEq)]
pub struct Task<'a> {
    pub name: &'a str,
    pub steps: Vec<Step<'a>>,
}

#[derive(Debug, PartialEq)]
pub enum Step<'a> {
    Command(Cow<'a, str>, Vec<Cow<'a, str>>),
    With { env: Vec<EnvVar<'a>>, steps: Vec<Step<'a>> },
    InSubDir { path: String, steps: Vec<Step<'a>> },
}

#[derive(Debug, PartialEq)]
pub struct EnvVar<'a> {
    pub name: &'a str,
    pub value: &'a str,
}

pub open spec fn arg_views<'a>(args: Seq<Cow<'a, str>>) -> Seq<Seq<char>> {
    args.map_values(|a: Cow<'a, str>| a@)
}

/// For each text, whether it is a new string rather than a borrowed slice.
pub open spec fn owned_flags<'a>(texts: Seq<Cow<'a, str>>) -> Seq<bool> {
    texts.map_values(|t: Cow<'a, str>| t matches Cow::Owned(_))
}

pub open spec fn env_views<'a>(env: Seq<EnvVar<'a>>) -> Seq<(Seq<char>, Seq<char>)> {
    env.map_values(|e: EnvVar<'a>| (e.name@, e.value@))
}

pub open spec fn step_view<'a>(s: Step<'a>) -> SpecStep
    decreases s,
{
    match s {
        Step::Command(p, args) => SpecStep::Command {
            program: p@,
            args: arg_views(args@),
            program_owned: p matches Cow::Owned(_),
            args_owned: owned_flags(args@),
        },
        Step::With { env, steps } => SpecStep::With {
            env: env_views(env@),
            steps: steps_view(steps@),
        },
        Step::InSubDir { path, steps } => SpecStep::InSubDir {
            path: path@,
            steps: steps_view(steps@),
        },
    }
}

pub open spec fn steps_view<'a>(ss: Seq<Step<'a>>) -> Seq<SpecStep>
    decreases ss,
{
    if ss.len() == 0 {
        Seq::empty()
    } else {
        steps_view(ss.drop_last()).push(step_view(ss.last()))
    }
}

pub proof fn lemma_steps_view<'a>(ss: Seq<Step<'a>>)
    ensures
        steps_view(ss).len() == ss.len(),
        forall|i: int| 0 <= i < ss.len() ==> #[trigger] steps_view(ss)[i] == step_view(ss[i]),
    decreases ss.len(),
{
    if ss.len() > 0 {
        lemma_steps_view(ss.drop_last());
    }
}

pub proof fn lemma_steps_view_push<'a>(ss: Seq<Step<'a>>, s: Step<'a>)
    ensures
        steps_view(ss.push(s)) == steps_view(ss).push(step_view(s)),
{
    assert(ss.push(s).drop_last() =~= ss);
}

impl<'a> View for Step<'a> {
    type V = SpecStep;

    open spec fn view(&self) -> SpecStep {
        step_view(*self)
    }
}

impl<'a> View for Task<'a> {
    type V = SpecTask;

    open spec fn view(&self) -> SpecTask {
        SpecTask { name: self.name@, steps: steps_view(self.steps@) }
    }
}

impl<'a> Task<'a> {
    pub fn new(name: &'a str, steps: Vec<Step<'a>>) -> (t: Self)
        ensures
            t.name == name,
            t.steps == steps,
    {
        Task { name, steps }
    }
}

impl<'a> EnvVar<'a> {
    pub fn new(name: &'a str, value: &'a str) -> (e: Self)
        ensures
            e.name == name,
            e.value == value,
    {
        EnvVar { name, value }
    }
}

/// Lexicographic order by character code, which is the order Rust's `Ord`
/// gives `str` (UTF-8 bytes compare in code point order).
pub open spec fn text_less(a: Seq<char>, b: Seq<char>) -> bool
    decreases a.len(),
{
    if a.len() == 0 {
        b.len() > 0
    } else if b.len() == 0 {
        false
    } else if a[0] != b[0] {
        a[0] < b[0]
    } else {
        text_less(a.drop_first(), b.drop_first())
    }
}

pub proof fn lemma_text_less_irreflexive(a: Seq<char>)
    ensures
        !text_less(a, a),
    decreases a.len(),
{
    if a.len() > 0 {
        lemma_text_less_irreflexive(a.drop_first());
    }
}

pub proof fn lemma_text_less_transitive(a: Seq<char>, b: Seq<char>, c: Seq<char>)
    requires
        text_less(a, b),
        text_less(b, c),
    ensures
        text_less(a, c),
    decreases a.len(),
{
    if a.len() > 0 && b.len() > 0 && c.len() > 0 && a[0] == b[0] && b[0] == c[0] {
        lemma_text_less_transitive(a.drop_first(), b.drop_first(), c.drop_first());
    }
}

pub proof fn lemma_text_less_total(a: Seq<char>, b: Seq<char>)
    ensures
        text_less(a, b) || text_less(b, a) || a == b,
    decreases a.len(),
{
    if a.len() > 0 && b.len() > 0 && a[0] == b[0] {
        lemma_text_less_total(a.drop_first(), b.drop_first());
        if a.drop_first() == b.drop_first() {
            assert(a =~= seq![a[0]] + a.drop_first());
            assert(b =~= seq![b[0]] + b.drop_first());
        }
    } else if a.len() == 0 && b.len() == 0 {
        assert(a =~= b);
    } else if a.len() > 0 && b.len() > 0 {
    }
}

/// Compares two texts in the order of `text_less`.
pub(crate) fn compare_text(a: &Vec<char>, b: &Vec<char>) -> (r: (bool, bool))
    ensures
        r.0 == text_less(a@, b@),
        r.1 == (a@ == b@),
{
    let mut i: usize = 0;
    assert(a@.skip(0) =~= a@);
    assert(b@.skip(0) =~= b@);
    while i < a.len() && i < b.len() && a[i] == b[i]
        invariant
            i <= a@.len(),
            i <= b@.len(),
            a@.take(i as int) == b@.take(i as int),
            text_less(a@, b@) == text_less(a@.skip(i as int), b@.skip(i as int)),
        decreases a@.len() - i,
    {
        proof {
            let sa = a@.skip(i as int);
            let sb = b@.skip(i as int);
            assert(sa.drop_first() =~= a@.skip(i + 1));
            assert(sb.drop_first() =~= b@.skip(i + 1));
            assert(a@.take(i + 1) =~= a@.take(i as int).push(a@[i as int]));
            assert(b@.take(i + 1) =~= b@.take(i as int).push(b@[i as int]));
        }
        i = i + 1;
    }
    let less = if i == a.len() {
        i < b.len()
    } else if i == b.len() {
        false
    } else {
        a[i] < b[i]
    };
    let equal = i == a.len() && i == b.len();
    proof {
        let sa = a@.skip(i as int);
        let sb = b@.skip(i as int);
        if i < a.len() && i < b.len() {
            assert(sa[0] == a@[i as int]);
            assert(sb[0] == b@[i as int]);
            assert(a@[i as int] != b@[i as int]);
        }
        if equal {
            assert(a@ =~= a@.take(i as int));
            assert(b@ =~= b@.take(i as int));
        }
        if !equal && a@ == b@ {
            assert(false);
        }
    }
    (less, equal)
}

/// Tasks with strictly increasing names.
pub open spec fn sorted_by_name(ts: Seq<SpecTask>) -> bool {
    forall|i: int, j: int| 0 <= i < j < ts.len() ==> text_less(ts[i].name, ts[j].name)
}

/// The tasks of a list, looked up by name.
pub open spec fn task_map(ts: Seq<SpecTask>) -> Map<Seq<char>, SpecTask> {
    Map::new(
        |k: Seq<char>| exists|i: int| 0 <= i < ts.len() && ts[i].name == k,
        |k: Seq<char>| ts[choose|i: int| 0 <= i < ts.len() && ts[i].name == k],
    )
}

pub proof fn lemma_task_map_get(ts: Seq<SpecTask>, i: int)
    requires
        sorted_by_name(ts),
        0 <= i < ts.len(),
    ensures
        task_map(ts).dom().contains(ts[i].name),
        task_map(ts)[ts[i].name] == ts[i],
{
    let k = ts[i].name;
    assert(task_map(ts).dom().contains(k));
    let j = choose|j: int| 0 <= j < ts.len() && ts[j].name == k;
    if j < i {
        lemma_text_less_irreflexive(k);
    } else if i < j {
        lemma_text_less_irreflexive(k);
    }
}

pub open spec fn task_views<'a>(ts: Seq<Task<'a>>) -> Seq<SpecTask> {
    ts.map_values(|t: Task<'a>| t@)
}

impl<'a> TaskFile<'a> {
    /// The tasks in the order they are kept: increasing by name.
    pub closed spec fn tasks(&self) -> Seq<SpecTask> {
        task_views(self.tasks@)
    }

    pub closed spec fn wf(&self) -> bool {
        sorted_by_name(self.tasks())
    }

    /// A duplicate definition is a fault in the tasks file, so this reports a
    /// [`ParseError`] for the parser to propagate as-is. As with a map, the
    /// new definition takes the old one's place either way.
    pub fn insert_task(&mut self, t: Task<'a>) -> (r: Result<(), ParseError>)
        requires
            old(self).wf(),
        ensures
            final(self).wf(),
            final(self)@ == old(self)@.insert(t.name@, t@),
            r is Ok <==> !old(self)@.dom().contains(t.name@),
            r matches Err(e) ==> e@ == "Duplicate task definitions for "@ + t.name@,
    {
        let ghost old_tasks = self.tasks();
        let name = chars_of(t.name);
        let mut i: usize = 0;
        let n = self.tasks.len();
        while i < n
            invariant
                n == self.tasks@.len(),
                self.tasks() == old_tasks,
                old_tasks == old(self).tasks(),
                self.wf(),
                i <= n,
                name@ == t.name@,
                forall|j: int| 0 <= j < i ==> text_less(#[trigger] old_tasks[j].name, name@),
            ensures
                n == self.tasks@.len(),
                self.tasks() == old_tasks,
                old_tasks == old(self).tasks(),
                self.wf(),
                i <= n,
                forall|j: int| 0 <= j < i ==> text_less(#[trigger] old_tasks[j].name, name@),
                i < n ==> text_less(name@, old_tasks[i as int].name),
            decreases n - i,
        {
            let other = chars_of(self.tasks[i].name);
            let (less, equal) = compare_text(&other, &name);
            if equal {
                let ghost prev = self.tasks@;
                let mut msg = string_from("Duplicate task definitions for ");
                push_str(&mut msg, self.tasks[i].name);
                self.tasks.set(i, t);
                proof {
                    self.lemma_replaced(old_tasks, prev, i as int);
                }
                return Err(ParseError::new(msg));
            }
            if !less {
                proof {
                    lemma_text_less_total(other@, name@);
                }
                break;
            }
            i = i + 1;
        }
        let ghost prev = self.tasks@;
        self.tasks.insert(i, t);
        proof {
            self.lemma_inserted(old_tasks, prev, i as int, name@);
        }
        Ok(())
    }

    proof fn lemma_replaced(&self, old_tasks: Seq<SpecTask>, prev: Seq<Task<'a>>, i: int)
        requires
            task_views(prev) == old_tasks,
            sorted_by_name(old_tasks),
            0 <= i < prev.len(),
            self.tasks@ == prev.update(i, self.tasks@[i]),
            self.tasks@[i].name@ == old_tasks[i].name,
        ensures
            self.wf(),
            task_map(self.tasks()) == task_map(old_tasks).insert(
                self.tasks@[i].name@,
                self.tasks@[i]@,
            ),
            task_map(old_tasks).dom().contains(self.tasks@[i].name@),
    {
        let ts = self.tasks();
        assert(ts =~= old_tasks.update(i, self.tasks@[i]@));
        lemma_task_map_get(old_tasks, i);
        assert(sorted_by_name(ts));
        let k = self.tasks@[i].name@;
        assert forall|key: Seq<char>| #![auto]
            task_map(ts).dom().contains(key) == task_map(old_tasks).insert(k, ts[i]).dom().contains(
                key,
            ) by {
            if task_map(old_tasks).dom().contains(key) && key != k {
                let j = choose|j: int| 0 <= j < old_tasks.len() && old_tasks[j].name == key;
                assert(ts[j].name == key);
            }
            if key == k {
                assert(ts[i].name == key);
            }
        }
        assert forall|key: Seq<char>| #[trigger] task_map(ts).dom().contains(key) implies task_map(
            ts,
        )[key] == task_map(old_tasks).insert(k, ts[i])[key] by {
            let j = choose|j: int| 0 <= j < ts.len() && ts[j].name == key;
            lemma_task_map_get(ts, j);
            if j != i {
                lemma_task_map_get(old_tasks, j);
                lemma_text_less_irreflexive(key);
                assert(key != k);
            }
        }
        assert(task_map(ts) =~= task_map(old_tasks).insert(k, ts[i]));
    }

    proof fn lemma_inserted(
        &self,
        old_tasks: Seq<SpecTask>,
        prev: Seq<Task<'a>>,
        i: int,
        name: Seq<char>,
    )
        requires
            task_views(prev) == old_tasks,
            sorted_by_name(old_tasks),
            0 <= i <= prev.len(),
            self.tasks@ == prev.insert(i, self.tasks@[i]),
            self.tasks@[i].name@ == name,
            forall|j: int| 0 <= j < i ==> text_less(#[trigger] old_tasks[j].name, name),
            i < old_tasks.len() ==> text_less(name, old_tasks[i].name),
        ensures
            self.wf(),
            task_map(self.tasks()) == task_map(old_tasks).insert(name, self.tasks@[i]@),
            !task_map(old_tasks).dom().contains(name),
    {
        let ts = self.tasks();
        let t = self.tasks@[i]@;
        assert(ts =~= old_tasks.insert(i, t));
        assert forall|a: int, b: int| 0 <= a < b < ts.len() implies text_less(
            ts[a].name,
            ts[b].name,
        ) by {
            if b == i {
            } else if a == i {
                if b - 1 > i {
                    lemma_text_less_transitive(name, old_tasks[i].name, old_tasks[b - 1].name);
                }
            } else if a < i && b > i {
                if b - 1 > i {
                    lemma_text_less_transitive(name, old_tasks[i].name, old_tasks[b - 1].name);
                }
                lemma_text_less_transitive(old_tasks[a].name, name, ts[b].name);
            }
        }
        assert(!task_map(old_tasks).dom().contains(name)) by {
            if task_map(old_tasks).dom().contains(name) {
                let j = choose|j: int| 0 <= j < old_tasks.len() && old_tasks[j].name == name;
                if j < i {
                    lemma_text_less_irreflexive(name);
                } else {
                    lemma_text_less_irreflexive(name);
                    if j > i {
                        lemma_text_less_transitive(name, old_tasks[i].name, old_tasks[j].name);
                    }
                }
            }
        }
        assert forall|key: Seq<char>| #![auto]
            task_map(ts).dom().contains(key) == task_map(old_tasks).insert(name, t).dom().contains(
                key,
            ) by {
            if task_map(old_tasks).dom().contains(key) {
                let j = choose|j: int| 0 <= j < old_tasks.len() && old_tasks[j].name == key;
                if j < i {
                    assert(ts[j].name == key);
                } else {
                    assert(ts[j + 1].name == key);
                }
            }
            if key == name {
                assert(ts[i].name == key);
            }
            if task_map(ts).dom().contains(key) {
                let j = choose|j: int| 0 <= j < ts.len() && ts[j].name == key;
                if j < i {
                    assert(old_tasks[j].name == key);
                } else if j > i {
                    assert(old_tasks[j - 1].name == key);
                }
            }
        }
        assert forall|key: Seq<char>| #[trigger] task_map(ts).dom().contains(key) implies task_map(
            ts,
        )[key] == task_map(old_tasks).insert(name, t)[key] by {
            let j = choose|j: int| 0 <= j < ts.len() && ts[j].name == key;
            lemma_task_map_get(ts, j);
            if j < i {
                lemma_task_map_get(old_tasks, j);
            } else if j > i {
                lemma_task_map_get(old_tasks, j - 1);
            }
        }
        assert(task_map(ts) =~= task_map(old_tasks).insert(name, t));
    }

    pub fn get(&self, name: &str) -> (r: JuteResult<&Task<'a>>)
        requires
            self.wf(),
        ensures
            match r {
                Ok(t) => self@.dom().contains(name@) && t@ == self@[name@] && t.name@ == name@,
                Err(e) => !self@.dom().contains(name@) && (e matches JuteError::TaskNotFound {
                    name: n,
                } && n@ == name@),
            },
    {
        let wanted = chars_of(name);
        let mut i: usize = 0;
        while i < self.tasks.len()
            invariant
                self.wf(),
                i <= self.tasks@.len(),
                wanted@ == name@,
                forall|j: int| 0 <= j < i ==> #[trigger] self.tasks()[j].name != name@,
            decreases self.tasks@.len() - i,
        {
            let other = chars_of(self.tasks[i].name);
            let (_, equal) = compare_text(&other, &wanted);
            if equal {
                proof {
                    lemma_task_map_get(self.tasks(), i as int);
                }
                return Ok(&self.tasks[i]);
            }
            i = i + 1;
        }
        proof {
            if self@.dom().contains(name@) {
                let j = choose|j: int|
                    0 <= j < self.tasks().len() && self.tasks()[j].name == name@;
                assert(self.tasks()[j].name != name@);
            }
        }
        Err(JuteError::TaskNotFound { name: string_from(name) })
    }

    /// The names of the tasks, in increasing order.
    pub fn list_tasks(&self) -> (names: Vec<&str>)
        requires
            self.wf(),
        ensures
            names@.len() == self@.dom().len(),
            forall|i: int, j: int|
                0 <= i < j < names@.len() ==> text_less(names@[i]@, names@[j]@),
            forall|k: Seq<char>|
                self@.dom().contains(k) <==> exists|i: int| 0 <= i < names@.len() && names@[i]@ == k,
    {
        let mut names: Vec<&str> = Vec::new();
        let mut i: usize = 0;
        while i < self.tasks.len()
            invariant
                self.wf(),
                i <= self.tasks@.len(),
                names@.len() == i,
                forall|j: int| 0 <= j < i ==> #[trigger] names@[j]@ == self.tasks()[j].name,
            decreases self.tasks@.len() - i,
        {
            names.push(self.tasks[i].name);
            i = i + 1;
        }
        proof {
            let ts = self.tasks();
            assert forall|k: Seq<char>|
                self@.dom().contains(k) <==> exists|i: int|
                    0 <= i < names@.len() && names@[i]@ == k by {
                if self@.dom().contains(k) {
                    let j = choose|j: int| 0 <= j < ts.len() && ts[j].name == k;
                    assert(names@[j]@ == k);
                }
                if exists|i: int| 0 <= i < names@.len() && names@[i]@ == k {
                    let j = choose|j: int| 0 <= j < names@.len() && names@[j]@ == k;
                    assert(ts[j].name == k);
                }
            }
            self.lemma_dom_len();
        }
        names
    }

    proof fn lemma_dom_len(&self)
        requires
            self.wf(),
        ensures
            self@.dom().len() == self.tasks@.len(),
            self@.dom().finite(),
    {
        let ts = self.tasks();
        let names = ts.map_values(|t: SpecTask| t.name);
        assert forall|i: int, j: int|
            0 <= i < names.len() && 0 <= j < names.len() && i != j implies names[i] != names[j] by {
            lemma_text_less_irreflexive(names[i]);
        }
        assert(names.no_duplicates());
        names.unique_seq_to_set();
        assert(self@.dom() =~= names.to_set()) by {
            assert forall|k: Seq<char>| self@.dom().contains(k) implies names.to_set().contains(
                k,
            ) by {
                let j = choose|j: int| 0 <= j < ts.len() && ts[j].name == k;
                assert(names[j] == k);
            }
            assert forall|k: Seq<char>| names.to_set().contains(k) implies self@.dom().contains(
                k,
            ) by {
                let j = choose|j: int| 0 <= j < names.len() && names[j] == k;
                assert(ts[j].name == k);
            }
        }
    }
}

impl<'a> View for TaskFile<'a> {
    type V = Map<Seq<char>, SpecTask>;

    closed spec fn view(&self) -> Map<Seq<char>, SpecTask> {
        task_map(self.tasks())
    }
}

impl<'a> TaskFile<'a> {
    /// An empty tasks file.
    pub fn empty() -> (f: Self)
        ensures
            f.wf(),
            f@ == Map::<Seq<char>, SpecTask>::empty(),
    {
        let f = TaskFile { tasks: Vec::new() };
        assert(f@ =~= Map::<Seq<char>, SpecTask>::empty());
        f
    }
}

/// What `get` finds after `insert_task`: the task just inserted under its
/// name, and under any other name what was there before.
pub proof fn lemma_get_after_insert(
    before: Map<Seq<char>, SpecTask>,
    t: SpecTask,
    other: Seq<char>,
)
    ensures
        before.insert(t.name, t).dom().contains(t.name),
        before.insert(t.name, t)[t.name] == t,
        other != t.name ==> before.insert(t.name, t).dom().contains(other) == before.dom().contains(
            other,
        ),
        other != t.name && before.dom().contains(other) ==> before.insert(t.name, t)[other]
            == before[other],
{
}

} // verus!
