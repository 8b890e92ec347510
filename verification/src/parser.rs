//! The recursive-descent parser that turns tokens into a `TaskFile`.
//!
//! The grammar, with the error each failure gives, is stated by the spec
//! functions below over the sequence of token values; the parser's methods
//! are proved to follow it.
use std::borrow::Cow;
use vstd::prelude::*;

use crate::ast::{
    SpecStep, SpecTask, EnvVar, Step, Task, TaskFile, arg_views, env_views, lemma_steps_view_push,
    owned_flags, steps_view,
};
use crate::text::{
    debug_char, debug_str, digits, push_char, push_debug_char, push_debug_str, push_digits,
    push_str, string_from,
};
use crate::tokeniser::{
    is_line_break, is_word, lemma_tokens_words, quoted_tokens, tokens, words_well_formed, SpecToken,
    Token,
    Tokeniser,
};

verus! {

/// A fault in a tasks file, with the message that describes it.
#[derive(Debug)]
pub struct ParseError {
    message: String,
}

impl View for ParseError {
    type V = Seq<char>;

    closed spec fn view(&self) -> Seq<char> {
        self.message@
    }
}

/// The message for `Indent`/`Dedent` reaching a place the grammar doesn't
/// allow: the tokeniser owns indentation, so the two disagree.
pub open spec fn indentation_message() -> Seq<char> {
    "BUG! Parser got confused by indentation, please report the file that caused this bug"@
}

impl ParseError {
    pub fn new(msg: String) -> (e: ParseError)
        ensures
            e@ == msg@,
    {
        ParseError { message: msg }
    }

    fn indentation() -> (e: ParseError)
        ensures
            e@ == indentation_message(),
    {
        Self::new(
            string_from(
                "BUG! Parser got confused by indentation, please report the file that caused this bug",
            ),
        )
    }

    /// The message, as `Display` shows it.
    pub fn to_string(&self) -> (r: String)
        ensures
            r@ == self@,
    {
        self.message.clone()
    }
}

/// A token as `Debug` writes it.
pub open spec fn token_debug(t: SpecToken) -> Seq<char> {
    match t {
        SpecToken::Indent => "Indent"@,
        SpecToken::Dedent => "Dedent"@,
        SpecToken::Spaces(n) => "Spaces("@ + digits(n, 10) + ")"@,
        SpecToken::NewLine => "NewLine"@,
        SpecToken::Colon => "Colon"@,
        SpecToken::With => "With"@,
        SpecToken::In => "In"@,
        SpecToken::Equals => "Equals"@,
        SpecToken::Word(w) => "Word("@ + debug_str(w) + ")"@,
        SpecToken::DoubleQuoted(w, _) => "DoubleQuotedString("@ + debug_str(w) + ")"@,
        SpecToken::SingleQuoted(w, _) => "SingleQuotedString("@ + debug_str(w) + ")"@,
        SpecToken::Unterminated(q) => "UnterminatedString("@ + debug_char(q) + ")"@,
    }
}

/// An optional token as `Debug` writes it.
pub open spec fn token_option_debug(t: Option<SpecToken>) -> Seq<char> {
    match t {
        Some(t) => "Some("@ + token_debug(t) + ")"@,
        None => "None"@,
    }
}

/// The token at `i`, if there is one.
pub open spec fn token_at(ts: Seq<SpecToken>, i: int) -> Option<SpecToken> {
    if 0 <= i < ts.len() {
        Some(ts[i])
    } else {
        None
    }
}

/// The text of a token that can stand in for a word: `with` and `in` are
/// keywords wherever they appear, so they are turned back into text where
/// the grammar wants a name, a path or a value.
pub open spec fn token_text(t: SpecToken) -> Option<Seq<char>> {
    match t {
        SpecToken::Word(w) => Some(w),
        SpecToken::With => Some("with"@),
        SpecToken::In => Some("in"@),
        _ => None,
    }
}

pub open spec fn peek_word(ts: Seq<SpecToken>, i: int) -> Option<Seq<char>> {
    match token_at(ts, i) {
        Some(t) => token_text(t),
        None => None,
    }
}

/// The first index at or after `i` that does not hold a `Spaces` token.
pub open spec fn skip_spaces(ts: Seq<SpecToken>, i: int) -> int
    decreases ts.len() - i,
{
    if 0 <= i < ts.len() && ts[i] is Spaces {
        skip_spaces(ts, i + 1)
    } else {
        i
    }
}

/// The first index at or after `i` that does not hold a `NewLine` token.
pub open spec fn skip_new_lines(ts: Seq<SpecToken>, i: int) -> int
    decreases ts.len() - i,
{
    if 0 <= i < ts.len() && ts[i] == SpecToken::NewLine {
        skip_new_lines(ts, i + 1)
    } else {
        i
    }
}

/// A word at `i`, or the error `expectation` describes.
pub open spec fn next_word(ts: Seq<SpecToken>, i: int, expectation: Seq<char>) -> Result<
    (Seq<char>, int),
    Seq<char>,
> {
    match peek_word(ts, i) {
        Some(w) => Ok((w, i + 1)),
        None => Err(expectation + ", got "@ + token_option_debug(token_at(ts, i))),
    }
}

/// The token `expected` at `i`.
pub open spec fn expect(ts: Seq<SpecToken>, i: int, expected: SpecToken) -> Result<
    int,
    Seq<char>,
> {
    match token_at(ts, i) {
        Some(t) => if t == expected {
            Ok(i + 1)
        } else {
            Err("Expected "@ + token_debug(expected) + ", got "@ + token_debug(t))
        },
        None => Err("Expected "@ + token_debug(expected) + " but reached end of the file"@),
    }
}

/// The end of a block's header: a `:`, optional spaces and a line break.
pub open spec fn header_end(ts: Seq<SpecToken>, i: int) -> Result<int, Seq<char>> {
    match expect(ts, i, SpecToken::Colon) {
        Ok(j) => expect(ts, skip_spaces(ts, j), SpecToken::NewLine),
        Err(e) => Err(e),
    }
}

/// The text a token contributes to a command argument.
pub open spec fn arg_text(t: SpecToken) -> Seq<char> {
    match t {
        SpecToken::Word(w) => w,
        SpecToken::With => "with"@,
        SpecToken::In => "in"@,
        SpecToken::Colon => ":"@,
        SpecToken::Equals => "="@,
        SpecToken::DoubleQuoted(s, _) => s,
        SpecToken::SingleQuoted(s, _) => s,
        _ => Seq::empty(),
    }
}

pub open spec fn push_arg(args: Seq<Seq<char>>, cur: Option<Seq<char>>) -> Seq<Seq<char>> {
    match cur {
        Some(a) => args.push(a),
        None => args,
    }
}

pub open spec fn extend(cur: Option<Seq<char>>, text: Seq<char>) -> Option<Seq<char>> {
    match cur {
        Some(a) => Some(a + text),
        None => Some(text),
    }
}

/// The arguments of a command, up to the end of its line: runs of spaces
/// separate arguments, and every other token's text is glued to the
/// argument being built. `args` holds the arguments so far and `cur` the one
/// being built.
pub open spec fn command_args(
    ts: Seq<SpecToken>,
    i: int,
    args: Seq<Seq<char>>,
    cur: Option<Seq<char>>,
) -> Result<(Seq<Seq<char>>, int), Seq<char>>
    decreases ts.len() - i,
{
    if !(0 <= i < ts.len()) {
        Ok((push_arg(args, cur), i))
    } else {
        match ts[i] {
            SpecToken::NewLine => Ok((push_arg(args, cur), i + 1)),
            SpecToken::Spaces(_) => command_args(ts, i + 1, push_arg(args, cur), None),
            SpecToken::Unterminated(q) => Err(
                "Unterminated string: missing closing `"@ + seq![q] + "`"@,
            ),
            SpecToken::Indent => Err(indentation_message()),
            SpecToken::Dedent => Err(indentation_message()),
            t => command_args(ts, i + 1, args, extend(cur, arg_text(t))),
        }
    }
}

/// Whether a token's text is a new string rather than a slice of the
/// source: only a quoted string in which an escape was decoded.
pub open spec fn token_owned(t: SpecToken) -> bool {
    match t {
        SpecToken::DoubleQuoted(_, owned) => owned,
        SpecToken::SingleQuoted(_, owned) => owned,
        _ => false,
    }
}

pub open spec fn push_owned(flags: Seq<bool>, cur: Option<bool>) -> Seq<bool> {
    match cur {
        Some(o) => flags.push(o),
        None => flags,
    }
}

/// Whether the argument being built is a new string once token `t` is
/// added: an argument of one token is what that token is, and one glued
/// together from several tokens is always new.
pub open spec fn extend_owned(cur: Option<bool>, t: SpecToken) -> Option<bool> {
    match cur {
        Some(_) => Some(true),
        None => Some(token_owned(t)),
    }
}

/// For each argument of a command, as `command_args` reads them, whether it
/// is a new string rather than a slice borrowed from the source. `flags`
/// holds those of the arguments so far and `cur` that of the one being
/// built.
pub open spec fn command_args_owned(
    ts: Seq<SpecToken>,
    i: int,
    flags: Seq<bool>,
    cur: Option<bool>,
) -> Seq<bool>
    decreases ts.len() - i,
{
    if !(0 <= i < ts.len()) {
        push_owned(flags, cur)
    } else {
        match ts[i] {
            SpecToken::NewLine => push_owned(flags, cur),
            SpecToken::Spaces(_) => command_args_owned(ts, i + 1, push_owned(flags, cur), None),
            SpecToken::Unterminated(_) => flags,
            SpecToken::Indent => flags,
            SpecToken::Dedent => flags,
            t => command_args_owned(ts, i + 1, flags, extend_owned(cur, t)),
        }
    }
}

/// The `NAME=value` list of a `with` step, from `i`; `env` holds the pairs
/// so far. A space separates one pair from the next.
pub open spec fn env_list(ts: Seq<SpecToken>, i: int, env: Seq<(Seq<char>, Seq<char>)>) -> Result<
    (Seq<(Seq<char>, Seq<char>)>, int),
    Seq<char>,
>
    decreases ts.len() - i,
{
    let j = skip_spaces(ts, i);
    match next_word(ts, j, "Expected an environment variable name after `with`"@) {
        Ok((name, k)) => match expect(ts, k, SpecToken::Equals) {
            Ok(k2) => match next_word(ts, k2, "Expected a value for `"@ + name + "`"@) {
                Ok((value, k3)) => {
                    let env2 = env.push((name, value));
                    let k4 = skip_spaces(ts, k3);
                    if peek_word(ts, k4) is Some && i < k4 {
                        env_list(ts, k4, env2)
                    } else {
                        Ok((env2, k4))
                    }
                },
                Err(e) => Err(e),
            },
            Err(e) => Err(e),
        },
        Err(e) => Err(e),
    }
}

pub open spec fn spaces(n: nat) -> Seq<char> {
    Seq::new(n, |k: int| ' ')
}

/// The path of an `in` step: words joined by the runs of spaces between them,
/// from `i` on. Spaces after the last word are skipped.
pub open spec fn in_path(ts: Seq<SpecToken>, i: int, path: Seq<char>) -> (Seq<char>, int)
    decreases ts.len() - i,
{
    if 0 <= i < ts.len() && ts[i] is Spaces {
        match peek_word(ts, i + 1) {
            Some(w) => in_path(ts, i + 2, path + spaces(ts[i]->Spaces_0) + w),
            None => (path, i + 1),
        }
    } else {
        (path, i)
    }
}

pub proof fn lemma_skip_spaces(ts: Seq<SpecToken>, i: int)
    requires
        0 <= i <= ts.len(),
    ensures
        i <= skip_spaces(ts, i) <= ts.len(),
    decreases ts.len() - i,
{
    if i < ts.len() && ts[i] is Spaces {
        lemma_skip_spaces(ts, i + 1);
    }
}

pub proof fn lemma_skip_new_lines(ts: Seq<SpecToken>, i: int)
    requires
        0 <= i <= ts.len(),
    ensures
        i <= skip_new_lines(ts, i) <= ts.len(),
    decreases ts.len() - i,
{
    if i < ts.len() && ts[i] == SpecToken::NewLine {
        lemma_skip_new_lines(ts, i + 1);
    }
}

pub proof fn lemma_header_end(ts: Seq<SpecToken>, i: int)
    requires
        0 <= i <= ts.len(),
    ensures
        header_end(ts, i) matches Ok(k) ==> i < k <= ts.len(),
{
    if let Ok(j) = expect(ts, i, SpecToken::Colon) {
        lemma_skip_spaces(ts, j);
    }
}

pub proof fn lemma_env_list(ts: Seq<SpecToken>, i: int, env: Seq<(Seq<char>, Seq<char>)>)
    requires
        0 <= i <= ts.len(),
    ensures
        env_list(ts, i, env) matches Ok((_, k)) ==> i <= k <= ts.len(),
    decreases ts.len() - i,
{
    let j = skip_spaces(ts, i);
    lemma_skip_spaces(ts, i);
    if let Ok((name, k)) = next_word(ts, j, "Expected an environment variable name after `with`"@) {
        if let Ok(k2) = expect(ts, k, SpecToken::Equals) {
            if let Ok((value, k3)) = next_word(ts, k2, "Expected a value for `"@ + name + "`"@) {
                lemma_skip_spaces(ts, k3);
                let k4 = skip_spaces(ts, k3);
                if peek_word(ts, k4) is Some && i < k4 {
                    lemma_env_list(ts, k4, env.push((name, value)));
                }
            }
        }
    }
}

pub proof fn lemma_in_path(ts: Seq<SpecToken>, i: int, path: Seq<char>)
    requires
        0 <= i <= ts.len(),
    ensures
        i <= in_path(ts, i, path).1 <= ts.len(),
    decreases ts.len() - i,
{
    if 0 <= i < ts.len() && ts[i] is Spaces {
        if let Some(w) = peek_word(ts, i + 1) {
            lemma_in_path(ts, i + 2, path + spaces(ts[i]->Spaces_0) + w);
        }
    }
}

/// The message for a block with no steps.
pub open spec fn no_steps_message(owner: Seq<char>) -> Seq<char> {
    owner + " should have at least one step"@
}

/// A step, from `i`: a command, or a `with` or `in` block.
pub open spec fn step(ts: Seq<SpecToken>, i: int) -> Result<(SpecStep, int), Seq<char>>
    decreases ts.len() - i, 0int,
{
    if !(0 <= i <= ts.len()) {
        Err(Seq::empty())
    } else {
        match token_at(ts, i) {
            Some(SpecToken::With) => with_step(ts, i + 1),
            Some(SpecToken::In) => in_step(ts, i + 1),
            Some(SpecToken::Word(w)) => match command_args(ts, i + 1, Seq::empty(), None) {
                Ok((args, j)) => Ok(
                    (
                        SpecStep::Command {
                            program: w,
                            args,
                            program_owned: false,
                            args_owned: command_args_owned(ts, i + 1, Seq::empty(), None),
                        },
                        j,
                    ),
                ),
                Err(e) => Err(e),
            },
            Some(SpecToken::Indent) => Err(indentation_message()),
            Some(SpecToken::Dedent) => Err(indentation_message()),
            t => Err("Unexpected token when parsing a step: "@ + token_option_debug(t)),
        }
    }
}

/// `with NAME=value ...:` and its block, after the `with`.
pub open spec fn with_step(ts: Seq<SpecToken>, i: int) -> Result<(SpecStep, int), Seq<char>>
    decreases ts.len() - i, 1int,
{
    if !(0 <= i <= ts.len()) {
        Err(Seq::empty())
    } else {
        match env_list(ts, i, Seq::empty()) {
            Ok((env, j)) => {
                proof {
                    lemma_env_list(ts, i, Seq::empty());
                    lemma_header_end(ts, j);
                }
                match header_end(ts, j) {
                    Ok(k) => match block(ts, k, "A `with` block"@) {
                        Ok((steps, e)) => Ok((SpecStep::With { env, steps }, e)),
                        Err(e) => Err(e),
                    },
                    Err(e) => Err(e),
                }
            },
            Err(e) => Err(e),
        }
    }
}

/// `in <path>:` and its block, after the `in`.
pub open spec fn in_step(ts: Seq<SpecToken>, i: int) -> Result<(SpecStep, int), Seq<char>>
    decreases ts.len() - i, 1int,
{
    if !(0 <= i <= ts.len()) {
        Err(Seq::empty())
    } else {
        let j = skip_spaces(ts, i);
        match next_word(ts, j, "Expected a directory after `in`"@) {
            Ok((first, k)) => {
                let (path, m) = in_path(ts, k, first);
                proof {
                    lemma_skip_spaces(ts, i);
                    lemma_in_path(ts, k, first);
                    lemma_header_end(ts, m);
                }
                match header_end(ts, m) {
                    Ok(h) => match block(ts, h, "`in "@ + path + "`"@) {
                        Ok((steps, e)) => Ok((SpecStep::InSubDir { path, steps }, e)),
                        Err(e) => Err(e),
                    },
                    Err(e) => Err(e),
                }
            },
            Err(e) => Err(e),
        }
    }
}

/// An indented block of at least one step, from `i`; `owner` names its
/// header for the "needs at least one step" error. The closing `Dedent` is
/// read too; the last block of a file ends at the end of the tokens.
pub open spec fn block(ts: Seq<SpecToken>, i: int, owner: Seq<char>) -> Result<
    (Seq<SpecStep>, int),
    Seq<char>,
>
    decreases ts.len() - i, 0int,
{
    if !(0 <= i <= ts.len()) {
        Err(Seq::empty())
    } else {
        let j = skip_new_lines(ts, i);
        proof {
            lemma_skip_new_lines(ts, i);
        }
        if j < ts.len() && ts[j] == SpecToken::Indent {
            block_steps(ts, j + 1, owner, Seq::empty())
        } else {
            Err(no_steps_message(owner))
        }
    }
}

/// The steps of a block after its `Indent`, from `i`; `acc` holds the steps
/// so far.
pub open spec fn block_steps(
    ts: Seq<SpecToken>,
    i: int,
    owner: Seq<char>,
    acc: Seq<SpecStep>,
) -> Result<(Seq<SpecStep>, int), Seq<char>>
    decreases ts.len() - i, 1int,
{
    if !(0 <= i <= ts.len()) {
        Err(Seq::empty())
    } else {
        let j = skip_new_lines(ts, i);
        proof {
            lemma_skip_new_lines(ts, i);
        }
        if j == ts.len() || ts[j] == SpecToken::Dedent {
            let end = if j == ts.len() {
                j
            } else {
                j + 1
            };
            if acc.len() == 0 {
                Err(no_steps_message(owner))
            } else {
                Ok((acc, end))
            }
        } else {
            match step(ts, j) {
                Ok((s, k)) => if j < k <= ts.len() {
                    block_steps(ts, k, owner, acc.push(s))
                } else {
                    Err(Seq::empty())
                },
                Err(e) => Err(e),
            }
        }
    }
}

/// A task named `name`, from just after its name.
pub open spec fn task(ts: Seq<SpecToken>, i: int, name: Seq<char>) -> Result<
    (SpecTask, int),
    Seq<char>,
> {
    let j = skip_spaces(ts, i);
    if peek_word(ts, j) is Some {
        Err("Task names cannot contain spaces, so `"@ + name + "` should be one word"@)
    } else {
        match header_end(ts, j) {
            Ok(k) => match block(ts, k, "Task "@ + name) {
                Ok((steps, e)) => Ok((SpecTask { name, steps }, e)),
                Err(e) => Err(e),
            },
            Err(e) => Err(e),
        }
    }
}

/// The tasks from `i` to the end, added to `acc`.
pub open spec fn task_list(ts: Seq<SpecToken>, i: int, acc: Map<Seq<char>, SpecTask>) -> Result<
    Map<Seq<char>, SpecTask>,
    Seq<char>,
>
    decreases ts.len() - i,
{
    if !(0 <= i < ts.len()) {
        Ok(acc)
    } else {
        match ts[i] {
            SpecToken::NewLine => task_list(ts, i + 1, acc),
            SpecToken::Spaces(_) => task_list(ts, i + 1, acc),
            SpecToken::Indent => Err(indentation_message()),
            SpecToken::Dedent => Err(indentation_message()),
            t => match token_text(t) {
                Some(name) => match task(ts, i + 1, name) {
                    Ok((tk, k)) => if acc.dom().contains(name) {
                        Err("Duplicate task definitions for "@ + name)
                    } else if i < k <= ts.len() {
                        task_list(ts, k, acc.insert(name, tk))
                    } else {
                        Err(Seq::empty())
                    },
                    Err(e) => Err(e),
                },
                None => Err("Expected a task name, got "@ + token_debug(t)),
            },
        }
    }
}

/// The tasks a token sequence describes, or the message of its first fault.
pub open spec fn parse_tokens(ts: Seq<SpecToken>) -> Result<Map<Seq<char>, SpecTask>, Seq<char>> {
    task_list(ts, 0, Map::empty())
}

/// The tasks a tasks file describes, or the message of its first fault.
pub open spec fn parse_source(raw: Seq<char>) -> Result<Map<Seq<char>, SpecTask>, Seq<char>> {
    parse_tokens(quoted_tokens(raw))
}

/// Each `NAME=value` pair holds two words.
pub open spec fn env_words(env: Seq<(Seq<char>, Seq<char>)>) -> bool {
    forall|k: int| 0 <= k < env.len() ==> is_word((#[trigger] env[k]).0) && is_word(env[k].1)
}

/// Every step among `steps`, at any depth, is well formed.
pub open spec fn steps_well_formed(steps: Seq<SpecStep>) -> bool
    decreases steps,
{
    if steps.len() == 0 {
        true
    } else {
        steps_well_formed(steps.drop_last()) && step_well_formed(steps.last())
    }
}

/// A command whose program is a word; a `with` block with at least one
/// `NAME=value` pair of words and at least one step; or an `in` block with
/// at least one step; the steps of a block well formed in turn.
pub open spec fn step_well_formed(s: SpecStep) -> bool
    decreases s,
{
    match s {
        SpecStep::Command { program, .. } => is_word(program),
        SpecStep::With { env, steps } => env.len() > 0 && env_words(env) && steps.len() > 0
            && steps_well_formed(steps),
        SpecStep::InSubDir { steps, .. } => steps.len() > 0 && steps_well_formed(steps),
    }
}

/// Each task is filed under its own name, which is a word, and has at least
/// one step, its steps well formed.
pub open spec fn well_formed_tasks(m: Map<Seq<char>, SpecTask>) -> bool {
    forall|k: Seq<char>|
        #[trigger] m.dom().contains(k) ==> m[k].name == k && is_word(k) && m[k].steps.len() > 0
            && steps_well_formed(m[k].steps)
}

proof fn lemma_peek_word_is_word(ts: Seq<SpecToken>, i: int)
    requires
        words_well_formed(ts),
    ensures
        peek_word(ts, i) matches Some(w) ==> is_word(w),
{
    if 0 <= i < ts.len() {
        match ts[i] {
            SpecToken::With => {
                reveal_strlit("with");
                let w = "with"@;
                assert forall|k: int| 0 <= k < w.len() implies !(is_line_break(#[trigger] w[k])
                    || w[k] == ':' || w[k] == '=' || w[k] == ' ') by {}
            },
            SpecToken::In => {
                reveal_strlit("in");
                let w = "in"@;
                assert forall|k: int| 0 <= k < w.len() implies !(is_line_break(#[trigger] w[k])
                    || w[k] == ':' || w[k] == '=' || w[k] == ' ') by {}
            },
            _ => {},
        }
    }
}

proof fn lemma_env_list_words(ts: Seq<SpecToken>, i: int, env: Seq<(Seq<char>, Seq<char>)>)
    requires
        0 <= i <= ts.len(),
        words_well_formed(ts),
        env_words(env),
    ensures
        env_list(ts, i, env) matches Ok((e, _)) ==> e.len() > 0 && env_words(e),
    decreases ts.len() - i,
{
    let j = skip_spaces(ts, i);
    lemma_skip_spaces(ts, i);
    lemma_peek_word_is_word(ts, j);
    if let Ok((name, k)) = next_word(ts, j, "Expected an environment variable name after `with`"@) {
        if let Ok(k2) = expect(ts, k, SpecToken::Equals) {
            lemma_peek_word_is_word(ts, k2);
            if let Ok((value, k3)) = next_word(ts, k2, "Expected a value for `"@ + name + "`"@) {
                let env2 = env.push((name, value));
                assert(env_words(env2)) by {
                    assert forall|n: int| 0 <= n < env2.len() implies is_word((#[trigger] env2[n]).0)
                        && is_word(env2[n].1) by {
                        if n < env.len() {
                            assert(env2[n] == env[n]);
                        }
                    }
                }
                lemma_skip_spaces(ts, k3);
                let k4 = skip_spaces(ts, k3);
                if peek_word(ts, k4) is Some && i < k4 {
                    lemma_env_list_words(ts, k4, env2);
                }
            }
        }
    }
}

proof fn lemma_step_well_formed(ts: Seq<SpecToken>, i: int)
    requires
        0 <= i <= ts.len(),
        words_well_formed(ts),
    ensures
        step(ts, i) matches Ok((s, _)) ==> step_well_formed(s),
    decreases ts.len() - i, 0int,
{
    match token_at(ts, i) {
        Some(SpecToken::With) => lemma_with_step_well_formed(ts, i + 1),
        Some(SpecToken::In) => lemma_in_step_well_formed(ts, i + 1),
        Some(SpecToken::Word(w)) => {
            assert(ts[i] matches SpecToken::Word(w) ==> is_word(w));
        },
        _ => {},
    }
}

proof fn lemma_with_step_well_formed(ts: Seq<SpecToken>, i: int)
    requires
        0 <= i <= ts.len(),
        words_well_formed(ts),
    ensures
        with_step(ts, i) matches Ok((s, _)) ==> step_well_formed(s),
    decreases ts.len() - i, 1int,
{
    lemma_env_list(ts, i, Seq::empty());
    lemma_env_list_words(ts, i, Seq::empty());
    if let Ok((env, j)) = env_list(ts, i, Seq::empty()) {
        lemma_header_end(ts, j);
        if let Ok(k) = header_end(ts, j) {
            lemma_block_well_formed(ts, k, "A `with` block"@);
            if let Ok((steps, e)) = block(ts, k, "A `with` block"@) {
                assert(with_step(ts, i) == Ok::<(SpecStep, int), Seq<char>>(
                    (SpecStep::With { env, steps }, e),
                ));
                assert(step_well_formed(SpecStep::With { env, steps }));
            }
        }
    }
}

proof fn lemma_in_step_well_formed(ts: Seq<SpecToken>, i: int)
    requires
        0 <= i <= ts.len(),
        words_well_formed(ts),
    ensures
        in_step(ts, i) matches Ok((s, _)) ==> step_well_formed(s),
    decreases ts.len() - i, 1int,
{
    let j = skip_spaces(ts, i);
    lemma_skip_spaces(ts, i);
    if let Ok((first, k)) = next_word(ts, j, "Expected a directory after `in`"@) {
        lemma_in_path(ts, k, first);
        let (path, m) = in_path(ts, k, first);
        lemma_header_end(ts, m);
        if let Ok(h) = header_end(ts, m) {
            lemma_block_well_formed(ts, h, "`in "@ + path + "`"@);
            if let Ok((steps, e)) = block(ts, h, "`in "@ + path + "`"@) {
                assert(in_step(ts, i) == Ok::<(SpecStep, int), Seq<char>>(
                    (SpecStep::InSubDir { path, steps }, e),
                ));
                assert(step_well_formed(SpecStep::InSubDir { path, steps }));
            }
        }
    }
}

proof fn lemma_block_well_formed(ts: Seq<SpecToken>, i: int, owner: Seq<char>)
    requires
        0 <= i <= ts.len(),
        words_well_formed(ts),
    ensures
        block(ts, i, owner) matches Ok((steps, _)) ==> steps.len() > 0 && steps_well_formed(steps),
    decreases ts.len() - i, 0int,
{
    let j = skip_new_lines(ts, i);
    lemma_skip_new_lines(ts, i);
    if j < ts.len() && ts[j] == SpecToken::Indent {
        lemma_block_steps_well_formed(ts, j + 1, owner, Seq::empty());
    }
}

proof fn lemma_block_steps_well_formed(
    ts: Seq<SpecToken>,
    i: int,
    owner: Seq<char>,
    acc: Seq<SpecStep>,
)
    requires
        0 <= i <= ts.len(),
        words_well_formed(ts),
        steps_well_formed(acc),
    ensures
        block_steps(ts, i, owner, acc) matches Ok((steps, _)) ==> steps.len() > 0
            && steps_well_formed(steps),
    decreases ts.len() - i, 1int,
{
    let j = skip_new_lines(ts, i);
    lemma_skip_new_lines(ts, i);
    if j == ts.len() || ts[j] == SpecToken::Dedent {
    } else {
        lemma_step_well_formed(ts, j);
        if let Ok((s, k)) = step(ts, j) {
            if j < k <= ts.len() {
                assert(acc.push(s).drop_last() =~= acc);
                lemma_block_steps_well_formed(ts, k, owner, acc.push(s));
            }
        }
    }
}

proof fn lemma_task_list_well_formed(ts: Seq<SpecToken>, i: int, acc: Map<Seq<char>, SpecTask>)
    requires
        0 <= i <= ts.len(),
        words_well_formed(ts),
        well_formed_tasks(acc),
    ensures
        task_list(ts, i, acc) matches Ok(m) ==> well_formed_tasks(m),
    decreases ts.len() - i,
{
    if i < ts.len() {
        match ts[i] {
            SpecToken::NewLine => lemma_task_list_well_formed(ts, i + 1, acc),
            SpecToken::Spaces(_) => lemma_task_list_well_formed(ts, i + 1, acc),
            SpecToken::Indent => {},
            SpecToken::Dedent => {},
            t => {
                lemma_peek_word_is_word(ts, i);
                if let Some(name) = token_text(t) {
                    let j = skip_spaces(ts, i + 1);
                    lemma_skip_spaces(ts, i + 1);
                    if peek_word(ts, j) is None {
                        lemma_header_end(ts, j);
                        if let Ok(k) = header_end(ts, j) {
                            lemma_block_well_formed(ts, k, "Task "@ + name);
                        }
                    }
                    if let Ok((tk, k)) = task(ts, i + 1, name) {
                        if !acc.dom().contains(name) && i < k <= ts.len() {
                            let next = acc.insert(name, tk);
                            assert(well_formed_tasks(next));
                            lemma_task_list_well_formed(ts, k, next);
                        }
                    }
                }
            },
        }
    }
}

/// No quoted string among `ts` from `i` on is empty.
pub open spec fn no_empty_quotes(ts: Seq<SpecToken>, i: int) -> bool {
    forall|k: int|
        i <= k < ts.len() ==> !((#[trigger] ts[k] matches SpecToken::DoubleQuoted(t, _)
            && t.len() == 0) || (ts[k] matches SpecToken::SingleQuoted(t, _) && t.len() == 0))
}

/// None of `args` is empty.
pub open spec fn all_nonempty(args: Seq<Seq<char>>) -> bool {
    forall|k: int| 0 <= k < args.len() ==> (#[trigger] args[k]).len() > 0
}

/// A command's arguments are never empty unless one is an empty quoted
/// string: runs of spaces, wherever they stand (between arguments or at the
/// end of the line), only separate arguments and never make one.
pub proof fn lemma_command_args_nonempty(
    ts: Seq<SpecToken>,
    i: int,
    args: Seq<Seq<char>>,
    cur: Option<Seq<char>>,
)
    requires
        0 <= i,
        words_well_formed(ts),
        no_empty_quotes(ts, i),
        all_nonempty(args),
        cur matches Some(a) ==> a.len() > 0,
    ensures
        command_args(ts, i, args, cur) matches Ok((out, _)) ==> all_nonempty(out),
    decreases ts.len() - i,
{
    let pushed = push_arg(args, cur);
    assert(all_nonempty(pushed)) by {
        if let Some(a) = cur {
            assert forall|k: int| 0 <= k < pushed.len() implies (#[trigger] pushed[k]).len() > 0 by {
                if k < args.len() {
                    assert(pushed[k] == args[k]);
                }
            }
        }
    }
    if 0 <= i < ts.len() {
        match ts[i] {
            SpecToken::NewLine => {},
            SpecToken::Spaces(_) => {
                lemma_command_args_nonempty(ts, i + 1, pushed, None);
            },
            SpecToken::Unterminated(_) => {},
            SpecToken::Indent => {},
            SpecToken::Dedent => {},
            t => {
                reveal_strlit("with");
                reveal_strlit("in");
                reveal_strlit(":");
                reveal_strlit("=");
                assert(ts[i] matches SpecToken::Word(w) ==> is_word(w));
                assert(arg_text(t).len() > 0);
                lemma_command_args_nonempty(ts, i + 1, args, extend(cur, arg_text(t)));
            },
        }
    }
}

/// A run of spaces at the end of a command's line adds no argument: the
/// command reads as if the spaces were not there.
pub proof fn lemma_trailing_spaces_add_nothing(
    ts: Seq<SpecToken>,
    i: int,
    j: int,
    args: Seq<Seq<char>>,
    cur: Option<Seq<char>>,
)
    requires
        0 <= i <= j < ts.len(),
        ts[j] is Spaces,
        j + 1 == ts.len() || ts[j + 1] == SpecToken::NewLine,
        forall|k: int| i <= k < j ==> !(#[trigger] ts[k] is Spaces) && ts[k] != SpecToken::NewLine,
    ensures
        command_args(ts, i, args, cur) matches Ok((a, _)) ==> command_args(
            ts.remove(j),
            i,
            args,
            cur,
        ) matches Ok((b, _)) && a == b,
    decreases j - i,
{
    let ts2 = ts.remove(j);
    assert(ts2.len() == ts.len() - 1);
    if i < j {
        assert(ts2[i] == ts[i]);
        match ts[i] {
            SpecToken::Unterminated(_) => {},
            SpecToken::Indent => {},
            SpecToken::Dedent => {},
            t => {
                lemma_trailing_spaces_add_nothing(ts, i + 1, j, args, extend(cur, arg_text(t)));
            },
        }
    } else {
        let pushed = push_arg(args, cur);
        if j + 1 < ts.len() {
            assert(ts2[j] == ts[j + 1]);
            assert(command_args(ts, j + 1, pushed, None) == Ok::<(Seq<Seq<char>>, int), Seq<char>>(
                (push_arg(pushed, None), j + 2),
            ));
        }
    }
}

/// Tokens of the kind the tokeniser gives, every `Word` a word, parse, from
/// any point, into tasks that are well formed: each filed under its own
/// name, which is a word, with at least one step; every program a word;
/// every `with` block setting at least one variable, names and values
/// words; every `with` and `in` block with at least one step.
pub proof fn lemma_stream_parses_well_formed(ts: Seq<SpecToken>, i: int)
    requires
        0 <= i <= ts.len(),
        words_well_formed(ts),
    ensures
        task_list(ts, i, Map::empty()) matches Ok(m) ==> well_formed_tasks(m),
{
    lemma_task_list_well_formed(ts, i, Map::empty());
}

/// With quotes read as ordinary characters too, a source that parses gives
/// well-formed tasks.
pub proof fn lemma_unquoted_parse_well_formed(raw: Seq<char>)
    ensures
        parse_tokens(tokens(raw)) matches Ok(m) ==> well_formed_tasks(m),
{
    lemma_tokens_words(raw, false);
    lemma_task_list_well_formed(tokens(raw), 0, Map::empty());
}

/// The tasks of a tasks file that parses are each filed under their own
/// name, which is a word (not empty; no space, `:`, `=` or line break), and
/// have at least one step. Every command's program is a word, every `with`
/// block sets at least one variable, names and values being words, and
/// every `with` and `in` block has at least one step.
pub proof fn lemma_parsed_tasks_well_formed(raw: Seq<char>)
    ensures
        parse_source(raw) matches Ok(m) ==> well_formed_tasks(m),
{
    lemma_tokens_words(raw, true);
    lemma_task_list_well_formed(quoted_tokens(raw), 0, Map::empty());
}

pub fn parse_tasks_file(raw: &str) -> (r: Result<TaskFile<'_>, ParseError>)
    ensures
        match parse_source(raw@) {
            Ok(m) => r matches Ok(f) && f.wf() && f@ == m,
            Err(msg) => r matches Err(e) && e@ == msg,
        },
        r matches Ok(f) ==> well_formed_tasks(f@),
{
    let mut parser = Parser::new(Tokeniser::new_with_quoted_strings(raw));
    proof {
        lemma_parsed_tasks_well_formed(raw@);
    }
    parser.parse()
}

/// Whether an argument being built, if there is one, is a new string.
pub open spec fn cow_option_owned<'a>(c: Option<Cow<'a, str>>) -> Option<bool> {
    match c {
        Some(c) => Some(c matches Cow::Owned(_)),
        None => None,
    }
}

pub open spec fn cow_option_view<'a>(c: Option<Cow<'a, str>>) -> Option<Seq<char>> {
    match c {
        Some(c) => Some(c@),
        None => None,
    }
}

pub(crate) fn cow_str<'a, 'b>(c: &'b Cow<'a, str>) -> (r: &'b str)
    ensures
        r@ == c@,
{
    match c {
        Cow::Borrowed(b) => b,
        Cow::Owned(s) => s.as_str(),
    }
}

fn push_token_debug(s: &mut String, t: &Token)
    ensures
        final(s)@ == old(s)@ + token_debug(t@),
{
    match t {
        Token::Indent => push_str(s, "Indent"),
        Token::Dedent => push_str(s, "Dedent"),
        Token::Spaces(n) => {
            push_str(s, "Spaces(");
            push_digits(s, *n as u64, 10);
            push_str(s, ")");
        },
        Token::NewLine => push_str(s, "NewLine"),
        Token::Colon => push_str(s, "Colon"),
        Token::With => push_str(s, "With"),
        Token::In => push_str(s, "In"),
        Token::Equals => push_str(s, "Equals"),
        Token::Word(w) => {
            push_str(s, "Word(");
            push_debug_str(s, w);
            push_str(s, ")");
        },
        Token::DoubleQuotedString(w) => {
            push_str(s, "DoubleQuotedString(");
            push_debug_str(s, cow_str(w));
            push_str(s, ")");
        },
        Token::SingleQuotedString(w) => {
            push_str(s, "SingleQuotedString(");
            push_debug_str(s, cow_str(w));
            push_str(s, ")");
        },
        Token::UnterminatedString(q) => {
            push_str(s, "UnterminatedString(");
            push_debug_char(s, *q);
            push_str(s, ")");
        },
    }
    assert(s@ =~= old(s)@ + token_debug(t@));
}

fn push_token_option_debug(s: &mut String, t: &Option<Token>)
    ensures
        final(s)@ == old(s)@ + token_option_debug(
            match t {
                Some(t) => Some(t@),
                None => None,
            },
        ),
{
    match t {
        Some(t) => {
            push_str(s, "Some(");
            push_token_debug(s, t);
            push_str(s, ")");
        },
        None => push_str(s, "None"),
    }
    assert(s@ =~= old(s)@ + token_option_debug(
        match t {
            Some(t) => Some(t@),
            None => None,
        },
    ));
}

pub struct Parser<'a> {
    tokens: Tokeniser<'a>,
    peeked: Option<Token<'a>>,
    stream: Ghost<Seq<SpecToken>>,
    at: Ghost<int>,
}

impl<'a> Parser<'a> {
    /// The tokens the parser was made with.
    pub closed spec fn stream(&self) -> Seq<SpecToken> {
        self.stream@
    }

    /// How many of them have been read.
    pub closed spec fn index(&self) -> int {
        self.at@
    }

    pub closed spec fn wf(&self) -> bool {
        &&& self.tokens.wf()
        &&& words_well_formed(self.stream@)
        &&& 0 <= self.at@ <= self.stream@.len()
        &&& match self.peeked {
            Some(t) => self.at@ < self.stream@.len() && t@ == self.stream@[self.at@]
                && self.tokens.remaining() == self.stream@.skip(self.at@ + 1),
            None => self.tokens.remaining() == self.stream@.skip(self.at@),
        }
    }

    pub fn new(tokens: Tokeniser<'a>) -> (p: Self)
        requires
            tokens.wf(),
        ensures
            p.wf(),
            p.stream() == tokens.remaining(),
            p.index() == 0,
    {
        let ghost stream = tokens.remaining();
        proof {
            tokens.lemma_remaining_words();
        }
        let p = Parser { tokens, peeked: None, stream: Ghost(stream), at: Ghost(0) };
        assert(stream.skip(0) =~= stream);
        p
    }

    /// Reads the next token into the look-ahead slot, if there is one.
    fn fill(&mut self)
        requires
            old(self).wf(),
        ensures
            final(self).wf(),
            final(self).stream() == old(self).stream(),
            final(self).index() == old(self).index(),
            final(self).peeked is Some <==> final(self).index() < final(self).stream().len(),
    {
        if self.peeked.is_none() {
            let ghost rest = self.tokens.remaining();
            self.peeked = self.tokens.next();
            proof {
                if rest.len() == 0 {
                    assert(self.tokens.remaining() =~= self.stream@.skip(self.at@));
                } else {
                    assert(rest.drop_first() =~= self.stream@.skip(self.at@ + 1));
                }
            }
        }
    }

    /// Reads the next token.
    fn advance(&mut self) -> (t: Option<Token<'a>>)
        requires
            old(self).wf(),
        ensures
            final(self).wf(),
            final(self).stream() == old(self).stream(),
            old(self).index() < old(self).stream().len() ==> (t matches Some(tok) && tok@ == old(
                self,
            ).stream()[old(self).index()] && final(self).index() == old(self).index() + 1),
            old(self).index() >= old(self).stream().len() ==> t is None && final(self).index()
                == old(self).index(),
    {
        self.fill();
        let t = self.peeked.take();
        if t.is_some() {
            self.at = Ghost(self.at@ + 1);
        }
        t
    }

    fn skip_new_lines(&mut self)
        requires
            old(self).wf(),
        ensures
            final(self).wf(),
            final(self).stream() == old(self).stream(),
            final(self).index() == skip_new_lines(old(self).stream(), old(self).index()),
            old(self).index() <= final(self).index() <= final(self).stream().len(),
    {
        proof {
            lemma_skip_new_lines(self.stream(), self.index());
        }
        loop
            invariant
                self.wf(),
                self.stream() == old(self).stream(),
                old(self).index() <= self.index(),
                skip_new_lines(self.stream(), self.index()) == skip_new_lines(
                    old(self).stream(),
                    old(self).index(),
                ),
            decreases self.stream().len() - self.index(),
        {
            self.fill();
            if matches!(self.peeked, Some(Token::NewLine)) {
                self.advance();
            } else {
                return ;
            }
        }
    }

    /// Spaces carry no meaning of their own outside a command, but they are
    /// still tokens, so every position that ignores them says so.
    fn skip_spaces(&mut self)
        requires
            old(self).wf(),
        ensures
            final(self).wf(),
            final(self).stream() == old(self).stream(),
            final(self).index() == skip_spaces(old(self).stream(), old(self).index()),
            old(self).index() <= final(self).index() <= final(self).stream().len(),
    {
        proof {
            lemma_skip_spaces(self.stream(), self.index());
        }
        loop
            invariant
                self.wf(),
                self.stream() == old(self).stream(),
                old(self).index() <= self.index(),
                skip_spaces(self.stream(), self.index()) == skip_spaces(
                    old(self).stream(),
                    old(self).index(),
                ),
            decreases self.stream().len() - self.index(),
        {
            self.fill();
            if matches!(self.peeked, Some(Token::Spaces(_))) {
                self.advance();
            } else {
                return ;
            }
        }
    }

    /// The text of a token that can stand in for a word.
    fn token_text(token: &Token<'a>) -> (r: Option<&'a str>)
        ensures
            match r {
                Some(w) => token_text(token@) == Some(w@),
                None => token_text(token@) is None,
            },
    {
        match token {
            Token::Word(w) => Some(*w),
            Token::With => Some("with"),
            Token::In => Some("in"),
            _ => None,
        }
    }

    /// The text of the next token, without reading it, if it can stand in
    /// for a word.
    fn peek_word(&mut self) -> (r: Option<&'a str>)
        requires
            old(self).wf(),
        ensures
            final(self).wf(),
            final(self).stream() == old(self).stream(),
            final(self).index() == old(self).index(),
            match r {
                Some(w) => peek_word(old(self).stream(), old(self).index()) == Some(w@),
                None => peek_word(old(self).stream(), old(self).index()) is None,
            },
    {
        self.fill();
        match &self.peeked {
            Some(t) => Self::token_text(t),
            None => None,
        }
    }

    fn next_word(&mut self, expectation: &str) -> (r: Result<&'a str, ParseError>)
        requires
            old(self).wf(),
        ensures
            final(self).wf(),
            final(self).stream() == old(self).stream(),
            old(self).index() <= final(self).index(),
            match next_word(old(self).stream(), old(self).index(), expectation@) {
                Ok((w, j)) => r matches Ok(x) && x@ == w && final(self).index() == j,
                Err(m) => r matches Err(e) && e@ == m,
            },
    {
        let token = self.advance();
        let text = match &token {
            Some(t) => Self::token_text(t),
            None => None,
        };
        match text {
            Some(word) => Ok(word),
            None => {
                let mut msg = string_from(expectation);
                push_str(&mut msg, ", got ");
                push_token_option_debug(&mut msg, &token);
                Err(ParseError::new(msg))
            },
        }
    }

    /// Whether `t` is the token `expected`, which holds no text.
    fn is_token(t: &Token<'a>, expected: &Token<'a>) -> (r: bool)
        requires
            expected@ == SpecToken::Colon || expected@ == SpecToken::NewLine || expected@
                == SpecToken::Equals,
        ensures
            r == (t@ == expected@),
    {
        match (t, expected) {
            (Token::Colon, Token::Colon) => true,
            (Token::NewLine, Token::NewLine) => true,
            (Token::Equals, Token::Equals) => true,
            _ => false,
        }
    }

    fn expect_next_token_to_be(&mut self, expected: Token<'a>) -> (r: Result<
        Token<'a>,
        ParseError,
    >)
        requires
            old(self).wf(),
            expected@ == SpecToken::Colon || expected@ == SpecToken::NewLine || expected@
                == SpecToken::Equals,
        ensures
            final(self).wf(),
            final(self).stream() == old(self).stream(),
            old(self).index() <= final(self).index(),
            match expect(old(self).stream(), old(self).index(), expected@) {
                Ok(j) => r is Ok && final(self).index() == j,
                Err(m) => r matches Err(e) && e@ == m,
            },
    {
        match self.advance() {
            Some(t) => {
                if Self::is_token(&t, &expected) {
                    Ok(t)
                } else {
                    let mut msg = string_from("Expected ");
                    push_token_debug(&mut msg, &expected);
                    push_str(&mut msg, ", got ");
                    push_token_debug(&mut msg, &t);
                    Err(ParseError::new(msg))
                }
            },
            None => {
                let mut msg = string_from("Expected ");
                push_token_debug(&mut msg, &expected);
                push_str(&mut msg, " but reached end of the file");
                Err(ParseError::new(msg))
            },
        }
    }

    /// The `:`, optional spaces and line break that end a block's header.
    fn header_end(&mut self) -> (r: Result<(), ParseError>)
        requires
            old(self).wf(),
        ensures
            final(self).wf(),
            final(self).stream() == old(self).stream(),
            old(self).index() <= final(self).index(),
            match header_end(old(self).stream(), old(self).index()) {
                Ok(j) => r is Ok && final(self).index() == j,
                Err(m) => r matches Err(e) && e@ == m,
            },
    {
        match self.expect_next_token_to_be(Token::Colon) {
            Ok(_) => {},
            Err(e) => {
                return Err(e);
            },
        }
        self.skip_spaces();
        proof {
            lemma_skip_spaces(self.stream(), old(self).index() + 1);
        }
        match self.expect_next_token_to_be(Token::NewLine) {
            Ok(_) => Ok(()),
            Err(e) => Err(e),
        }
    }

    /// Appends `text` to the argument being built, starting a new one if
    /// none is in progress yet. Only allocates when a token boundary falls
    /// inside a single argument.
    fn extend_arg(arg: &mut Option<Cow<'a, str>>, text: Cow<'a, str>)
        ensures
            cow_option_view(*final(arg)) == extend(cow_option_view(*old(arg)), text@),
            cow_option_owned(*final(arg)) == match cow_option_owned(*old(arg)) {
                Some(_) => Some(true),
                None => Some(text matches Cow::Owned(_)),
            },
    {
        let taken = arg.take();
        let joined = match taken {
            None => text,
            Some(Cow::Borrowed(a)) => {
                let mut s = string_from(a);
                push_str(&mut s, cow_str(&text));
                Cow::Owned(s)
            },
            Some(Cow::Owned(a)) => {
                let mut s = a;
                push_str(&mut s, cow_str(&text));
                Cow::Owned(s)
            },
        };
        *arg = Some(joined);
    }

    /// Everything up to the end of the line, with the characters the
    /// tokeniser split on put back. A command that holds no `:` or `=` is a
    /// single `Word`, so the common case borrows straight from the source.
    fn command(&mut self, first_word: &'a str) -> (r: Result<Step<'a>, ParseError>)
        requires
            old(self).wf(),
        ensures
            final(self).wf(),
            final(self).stream() == old(self).stream(),
            old(self).index() <= final(self).index(),
            match command_args(old(self).stream(), old(self).index(), Seq::empty(), None) {
                Ok((args, j)) => r matches Ok(s) && s@ == (SpecStep::Command {
                    program: first_word@,
                    args,
                    program_owned: false,
                    args_owned: command_args_owned(old(self).stream(), old(self).index(), Seq::empty(), None),
                }) && final(self).index() == j,
                Err(m) => r matches Err(e) && e@ == m,
            },
    {
        let program = Cow::Borrowed(first_word);
        let mut args: Vec<Cow<'a, str>> = Vec::new();
        let mut cur_arg: Option<Cow<'a, str>> = None;
        proof {
            assert(arg_views(args@) =~= Seq::<Seq<char>>::empty());
            assert(owned_flags(args@) =~= Seq::<bool>::empty());
        }
        loop
            invariant
                self.wf(),
                self.stream() == old(self).stream(),
                old(self).index() <= self.index(),
                program@ == first_word@,
                command_args(old(self).stream(), old(self).index(), Seq::empty(), None)
                    == command_args(self.stream(), self.index(), arg_views(args@), cow_option_view(cur_arg)),
                program matches Cow::Borrowed(_),
                command_args_owned(old(self).stream(), old(self).index(), Seq::empty(), None)
                    == command_args_owned(self.stream(), self.index(), owned_flags(args@), cow_option_owned(cur_arg)),
            decreases self.stream().len() - self.index(),
        {
            let ghost before = arg_views(args@);
            let ghost cur = cow_option_view(cur_arg);
            let ghost before_owned = owned_flags(args@);
            let ghost cur_owned = cow_option_owned(cur_arg);
            let ghost here = self.index();
            let token = self.advance();
            match token {
                Some(Token::NewLine) | None => {
                    match cur_arg {
                        Some(a) => {
                            args.push(a);
                        },
                        None => {},
                    }
                    proof {
                        assert(arg_views(args@) =~= push_arg(before, cur));
                        assert(owned_flags(args@) =~= push_owned(before_owned, cur_owned));
                    }
                    return Ok(Step::Command(program, args));
                },
                Some(Token::Spaces(_)) => {
                    match cur_arg.take() {
                        Some(a) => {
                            args.push(a);
                        },
                        None => {},
                    }
                    proof {
                        assert(arg_views(args@) =~= push_arg(before, cur));
                        assert(owned_flags(args@) =~= push_owned(before_owned, cur_owned));
                    }
                },
                Some(Token::With) => Self::extend_arg(&mut cur_arg, Cow::Borrowed("with")),
                Some(Token::In) => Self::extend_arg(&mut cur_arg, Cow::Borrowed("in")),
                Some(Token::Word(w)) => Self::extend_arg(&mut cur_arg, Cow::Borrowed(w)),
                Some(Token::Colon) => Self::extend_arg(&mut cur_arg, Cow::Borrowed(":")),
                Some(Token::Equals) => Self::extend_arg(&mut cur_arg, Cow::Borrowed("=")),
                Some(Token::DoubleQuotedString(s)) => Self::extend_arg(&mut cur_arg, s),
                Some(Token::SingleQuotedString(s)) => Self::extend_arg(&mut cur_arg, s),
                Some(Token::UnterminatedString(quote)) => {
                    let mut msg = string_from("Unterminated string: missing closing `");
                    push_char(&mut msg, quote);
                    push_str(&mut msg, "`");
                    return Err(ParseError::new(msg));
                },
                Some(Token::Indent) | Some(Token::Dedent) => {
                    return Err(ParseError::indentation());
                },
            }
        }
    }

    fn step(&mut self) -> (r: Result<Step<'a>, ParseError>)
        requires
            old(self).wf(),
        ensures
            final(self).wf(),
            final(self).stream() == old(self).stream(),
            old(self).index() <= final(self).index(),
            match step(old(self).stream(), old(self).index()) {
                Ok((st, j)) => r matches Ok(x) && x@ == st && final(self).index() == j && old(
                    self,
                ).index() < j <= old(self).stream().len(),
                Err(m) => r matches Err(e) && e@ == m,
            },
        decreases old(self).stream().len() - old(self).index(), 0int,
    {
        let token = self.advance();
        match token {
            Some(Token::With) => self.with_step(),
            Some(Token::In) => self.in_step(),
            Some(Token::Word(w)) => self.command(w),
            Some(Token::Indent) | Some(Token::Dedent) => Err(ParseError::indentation()),
            _ => {
                let mut msg = string_from("Unexpected token when parsing a step: ");
                push_token_option_debug(&mut msg, &token);
                Err(ParseError::new(msg))
            },
        }
    }

    /// `with NAME=value [NAME=value ...]:` followed by a block.
    ///
    /// A space always separates one variable from the next, as it does in
    /// `env A=1 B=2 cmd`, so a value cannot itself contain one.
    fn with_step(&mut self) -> (r: Result<Step<'a>, ParseError>)
        requires
            old(self).wf(),
        ensures
            final(self).wf(),
            final(self).stream() == old(self).stream(),
            old(self).index() <= final(self).index(),
            match with_step(old(self).stream(), old(self).index()) {
                Ok((st, j)) => r matches Ok(x) && x@ == st && final(self).index() == j,
                Err(m) => r matches Err(e) && e@ == m,
            },
        decreases old(self).stream().len() - old(self).index(), 1int,
    {
        let ghost ts = self.stream();
        let ghost start = self.index();
        let mut env: Vec<EnvVar<'a>> = Vec::new();
        proof {
            assert(env_views(env@) =~= Seq::<(Seq<char>, Seq<char>)>::empty());
        }
        loop
            invariant_except_break
                env_list(ts, start, Seq::empty()) == env_list(ts, self.index(), env_views(env@)),
            invariant
                self.wf(),
                self.stream() == ts,
                ts == old(self).stream(),
                0 <= old(self).index() <= ts.len(),
                start == old(self).index(),
                start <= self.index(),
            ensures
                self.wf(),
                self.stream() == ts,
                start <= self.index(),
                env_list(ts, start, Seq::empty()) == Ok::<_, Seq<char>>((env_views(env@), self.index())),
            decreases ts.len() - self.index(),
        {
            let ghost here = self.index();
            let ghost before = env_views(env@);
            self.skip_spaces();
            let name = match self.next_word("Expected an environment variable name after `with`") {
                Ok(w) => w,
                Err(e) => {
                    proof {


                    }
                    return Err(e);
                },
            };
            match self.expect_next_token_to_be(Token::Equals) {
                Ok(_) => {},
                Err(e) => {
                    return Err(e);
                },
            }
            let mut expectation = string_from("Expected a value for `");
            push_str(&mut expectation, name);
            push_str(&mut expectation, "`");
            let value = match self.next_word(expectation.as_str()) {
                Ok(w) => w,
                Err(e) => {
                    return Err(e);
                },
            };
            env.push(EnvVar::new(name, value));
            proof {
                assert(env_views(env@) =~= before.push((name@, value@)));
            }
            self.skip_spaces();
            // Two words are never adjacent, so a word here was preceded by a
            // space and starts the next variable. Anything else, a `:` most
            // often, ends the list.
            if self.peek_word().is_none() {
                break;
            }
            assert(here < self.index());
        }
        let ghost j = self.index();
        proof {
            lemma_env_list(ts, start, Seq::empty());
            lemma_header_end(ts, j);
        }
        match self.header_end() {
            Ok(()) => {},
            Err(e) => {
                return Err(e);
            },
        }
        match self.block("A `with` block") {
            Ok(steps) => Ok(Step::With { env, steps }),
            Err(e) => Err(e),
        }
    }

    /// `in <path>:` followed by a block. Everything up to the `:` is the path,
    /// so a directory whose name holds a space still works.
    fn in_step(&mut self) -> (r: Result<Step<'a>, ParseError>)
        requires
            old(self).wf(),
        ensures
            final(self).wf(),
            final(self).stream() == old(self).stream(),
            old(self).index() <= final(self).index(),
            match in_step(old(self).stream(), old(self).index()) {
                Ok((st, j)) => r matches Ok(x) && x@ == st && final(self).index() == j,
                Err(m) => r matches Err(e) && e@ == m,
            },
        decreases old(self).stream().len() - old(self).index(), 1int,
    {
        let ghost ts = self.stream();
        self.skip_spaces();
        proof {
            lemma_skip_spaces(ts, old(self).index());
        }
        let first = match self.next_word("Expected a directory after `in`") {
            Ok(w) => w,
            Err(e) => {
                return Err(e);
            },
        };
        let ghost k = self.index();
        let mut path = string_from(first);
        loop
            invariant_except_break
                in_path(ts, k, first@) == in_path(ts, self.index(), path@),
            invariant
                self.wf(),
                self.stream() == ts,
                ts == old(self).stream(),
                0 <= old(self).index() <= ts.len(),
                old(self).index() <= k <= self.index(),
            ensures
                self.wf(),
                self.stream() == ts,
                old(self).index() <= k <= self.index(),
                in_path(ts, k, first@) == (path@, self.index()),
            decreases ts.len() - self.index(),
        {
            self.fill();
            let n = match &self.peeked {
                Some(Token::Spaces(n)) => *n,
                _ => {
                    break;
                },
            };
            self.advance();
            let word = match self.peek_word() {
                Some(w) => w,
                None => {
                    // trailing whitespace before the `:`
                    break;
                },
            };
            self.advance();
            let ghost before = path@;
            let mut c: usize = 0;
            while c < n
                invariant
                    c <= n,
                    path@ == before + spaces(c as nat),
                decreases n - c,
            {
                push_char(&mut path, ' ');
                c = c + 1;
                proof {
                    assert(spaces(c as nat) =~= spaces((c - 1) as nat).push(' '));
                }
            }
            push_str(&mut path, word);
        }
        proof {
            lemma_in_path(ts, k, first@);
            lemma_header_end(ts, self.index());
        }
        match self.header_end() {
            Ok(()) => {},
            Err(e) => {
                return Err(e);
            },
        }
        let mut owner = string_from("`in ");
        push_str(&mut owner, path.as_str());
        push_str(&mut owner, "`");
        match self.block(owner.as_str()) {
            Ok(steps) => Ok(Step::InSubDir { path, steps }),
            Err(e) => Err(e),
        }
    }

    /// Parses the indented block of steps that follows a `task:`, `in dir:`
    /// or `with VAR=value:` header.
    ///
    /// `owner` names that header for the "needs at least one step" error.
    /// The closing `Dedent` is consumed here; the last block in a file ends at
    /// the end of the token stream instead.
    fn block(&mut self, owner: &str) -> (r: Result<Vec<Step<'a>>, ParseError>)
        requires
            old(self).wf(),
        ensures
            final(self).wf(),
            final(self).stream() == old(self).stream(),
            old(self).index() <= final(self).index(),
            match block(old(self).stream(), old(self).index(), owner@) {
                Ok((steps, j)) => r matches Ok(x) && steps_view(x@) == steps && final(self).index()
                    == j,
                Err(m) => r matches Err(e) && e@ == m,
            },
        decreases old(self).stream().len() - old(self).index(), 0int,
    {
        let ghost ts = self.stream();
        self.skip_new_lines();
        proof {
            lemma_skip_new_lines(ts, old(self).index());
        }
        self.fill();
        if !matches!(self.peeked, Some(Token::Indent)) {
            let mut msg = string_from(owner);
            push_str(&mut msg, " should have at least one step");
            return Err(ParseError::new(msg));
        }
        self.advance();
        let mut steps: Vec<Step<'a>> = Vec::new();
        loop
            invariant
                self.wf(),
                self.stream() == ts,
                ts == old(self).stream(),
                0 <= old(self).index() <= ts.len(),
                old(self).index() < self.index(),
                block(ts, old(self).index(), owner@) == block_steps(
                    ts,
                    self.index(),
                    owner@,
                    steps_view(steps@),
                ),
            decreases ts.len() - self.index(),
        {
            let ghost here = self.index();
            self.skip_new_lines();
            proof {
                lemma_skip_new_lines(ts, here);
            }
            self.fill();
            let at_end = match &self.peeked {
                None => true,
                Some(Token::Dedent) => {
                    self.advance();
                    true
                },
                Some(_) => false,
            };
            if at_end {
                if steps.len() == 0 {
                    let mut msg = string_from(owner);
                    push_str(&mut msg, " should have at least one step");
                    return Err(ParseError::new(msg));
                }
                return Ok(steps);
            }
            let ghost before = steps@;
            match self.step() {
                Ok(s) => {
                    steps.push(s);
                    proof {
                        lemma_steps_view_push(before, s);
                        assert(steps@ =~= before.push(s));
                    }
                },
                Err(e) => {
                    return Err(e);
                },
            }
        }
    }

    fn task(&mut self, name: &'a str) -> (r: Result<Task<'a>, ParseError>)
        requires
            old(self).wf(),
        ensures
            final(self).wf(),
            final(self).stream() == old(self).stream(),
            old(self).index() <= final(self).index(),
            match task(old(self).stream(), old(self).index(), name@) {
                Ok((t, j)) => r matches Ok(x) && x@ == t && x.name == name && final(self).index()
                    == j,
                Err(m) => r matches Err(e) && e@ == m,
            },
    {
        let ghost ts = self.stream();
        self.skip_spaces();
        proof {
            lemma_skip_spaces(ts, old(self).index());
            lemma_header_end(ts, self.index());
        }
        // A task is invoked as `jute <name>`, so a name holding a space would
        // be ambiguous on the command line.
        if self.peek_word().is_some() {
            let mut msg = string_from("Task names cannot contain spaces, so `");
            push_str(&mut msg, name);
            push_str(&mut msg, "` should be one word");
            return Err(ParseError::new(msg));
        }
        match self.header_end() {
            Ok(()) => {},
            Err(e) => {
                return Err(e);
            },
        }
        let mut owner = string_from("Task ");
        push_str(&mut owner, name);
        match self.block(owner.as_str()) {
            Ok(steps) => Ok(Task::new(name, steps)),
            Err(e) => Err(e),
        }
    }

    /// Parses every task in the tokens.
    pub fn parse(&mut self) -> (r: Result<TaskFile<'a>, ParseError>)
        requires
            old(self).wf(),
        ensures
            final(self).wf(),
            match task_list(old(self).stream(), old(self).index(), Map::empty()) {
                Ok(m) => r matches Ok(f) && f.wf() && f@ == m,
                Err(msg) => r matches Err(e) && e@ == msg,
            },
            r matches Ok(f) ==> well_formed_tasks(f@),
    {
        let ghost ts = self.stream();
        proof {
            lemma_stream_parses_well_formed(ts, self.index());
        }
        let mut file = TaskFile::empty();
        loop
            invariant
                self.wf(),
                self.stream() == ts,
                ts == old(self).stream(),
                0 <= old(self).index() <= ts.len(),
                task_list(ts, old(self).index(), Map::empty()) matches Ok(m) ==> well_formed_tasks(m),
                file.wf(),
                task_list(ts, old(self).index(), Map::empty()) == task_list(
                    ts,
                    self.index(),
                    file@,
                ),
            decreases ts.len() - self.index(),
        {
            let ghost here = self.index();
            let token = self.advance();
            match token {
                None => {
                    return Ok(file);
                },
                Some(Token::NewLine) | Some(Token::Spaces(_)) => {},
                Some(Token::Indent) | Some(Token::Dedent) => {
                    return Err(ParseError::indentation());
                },
                Some(t) => match Self::token_text(&t) {
                    Some(name) => {
                        let task = match self.task(name) {
                            Ok(task) => task,
                            Err(e) => {
                                return Err(e);
                            },
                        };
                        match file.insert_task(task) {
                            Ok(()) => {},
                            Err(e) => {
                                return Err(e);
                            },
                        }
                    },
                    None => {
                        let mut msg = string_from("Expected a task name, got ");
                        push_token_debug(&mut msg, &t);
                        return Err(ParseError::new(msg));
                    },
                },
            }
        }
    }
}

} // verus!
