//! The errors jute reports, the exit status each one leads to, and the text
//! each one is shown as.
use vstd::prelude::*;

use crate::parser::ParseError;
use crate::text::{decimal, push_char, push_decimal, push_str, string_from};

verus! {

/// `std::io::Error`, carried through unopened.
#[verifier::external_type_specification]
#[verifier::external_body]
pub struct ExIoError(std::io::Error);

/// The result type every fallible operation in jute returns.
pub type JuteResult<T> = Result<T, JuteError>;

/// What an error while writing jute's own output is labelled with.
pub const WRITING_TO_STDOUT: &'static str = "failed to write to stdout";

#[derive(Debug)]
#[allow(inconsistent_fields)]
pub enum JuteError {
    /// No `.jute` directory in the current directory or any of its ancestors.
    NoProjectRoot { cwd: String },
    /// The task named on the command line isn't in the tasks file.
    TaskNotFound { name: String },
    /// A step exited non-zero. `code` becomes jute's own exit code, so that a
    /// failing `jute test` is indistinguishable from running the test command
    /// directly.
    CommandFailed { command: String, code: i32 },
    /// A step was killed by a signal, so there's no exit code to propagate.
    CommandKilledBySignal { command: String },
    /// A platform binary download failed. curl's captured stdout and stderr
    /// are replayed to the user, since they were not streamed live.
    DownloadFailed {
        url: String,
        /// `None` if curl was killed by a signal.
        code: Option<i32>,
        stdout: String,
        stderr: String,
    },
    Parse(ParseError),
    /// An io failure, labelled with what jute was trying to do at the time.
    Io {
        doing: String,
        /// Whether `source` is of the kind a closed pipe gives
        /// (`ErrorKind::BrokenPipe`), read off it when the error is made.
        broken_pipe: bool,
        source: std::io::Error,
    },
}

/// The section of a failed download's report that replays one of curl's
/// output streams: a header, then the output, ended by a line break.
pub open spec fn curl_section(label: Seq<char>, output: Seq<char>) -> Seq<char> {
    "--- curl "@ + label + " ---\n"@ + if output.len() == 0 {
        Seq::empty()
    } else if output.last() == '\n' {
        output
    } else {
        output.push('\n')
    }
}

/// The text of every error but `Io`, whose text ends with the io error's
/// own description.
pub open spec fn message(e: JuteError) -> Seq<char> {
    match e {
        JuteError::NoProjectRoot { cwd } => "no .jute folder found in "@ + cwd@
            + " or any parent"@,
        JuteError::TaskNotFound { name } => "Task \""@ + name@ + "\" does not exist"@,
        JuteError::CommandFailed { command, code } => "Command \""@ + command@
            + "\" failed with status code "@ + decimal(code as int),
        JuteError::CommandKilledBySignal { command } => "Command \""@ + command@
            + "\" was terminated by a signal"@,
        JuteError::DownloadFailed { url, code, stdout, stderr } => "failed to download "@ + url@
            + "\n"@ + curl_section("stdout"@, stdout@) + curl_section("stderr"@, stderr@)
            + match code {
            Some(c) => "curl failed with exit code "@ + decimal(c as int),
            None => "curl was terminated by a signal"@,
        },
        JuteError::Parse(p) => p@,
        JuteError::Io { doing, .. } => doing@ + ": "@,
    }
}

/// The text `Display` gives an `std::io::Error` (`ToString::to_string`).
/// Nothing is claimed of it: an OS error's text comes from the platform.
#[verifier::external_body]
fn io_error_text(e: &std::io::Error) -> String {
    e.to_string()
}

/// Whether an io error's kind is `BrokenPipe` (`std::io::Error::kind`).
/// Nothing is claimed of the answer: an `std::io::Error` has no value the
/// contract could speak of.
#[verifier::external_body]
fn io_error_is_broken_pipe(e: &std::io::Error) -> bool {
    e.kind() == std::io::ErrorKind::BrokenPipe
}

/// An io failure labelled with what jute was doing, its kind read off.
fn io_failure(doing: String, source: std::io::Error) -> (e: JuteError)
    ensures
        e matches JuteError::Io { doing: d, source: kept, .. } && d@ == doing@ && kept == source,
{
    let broken_pipe = io_error_is_broken_pipe(&source);
    JuteError::Io { doing, broken_pipe, source }
}

impl JuteError {
    /// The status jute exits with. A step's own exit code passes straight
    /// through; everything else is a failure of jute itself.
    pub fn exit_code(&self) -> (r: i32)
        ensures
            r == match self {
                JuteError::CommandFailed { code, .. } => *code,
                _ => 1i32,
            },
    {
        match self {
            JuteError::CommandFailed { code, .. } => *code,
            _ => 1,
        }
    }

    /// Whether this is an io error of the kind a closed pipe gives.
    pub fn is_broken_pipe(&self) -> (r: bool)
        ensures
            r == (*self matches JuteError::Io { broken_pipe: b, .. } && b),
    {
        match self {
            JuteError::Io { broken_pipe, .. } => *broken_pipe,
            _ => false,
        }
    }

    /// The text the error is shown as.
    pub fn to_string(&self) -> (r: String)
        ensures
            !(self is Io) ==> r@ == message(*self),
            self is Io ==> exists|m: Seq<char>| r@ == message(*self) + m,
    {
        let mut s = String::new();
        match self {
            JuteError::NoProjectRoot { cwd } => {
                push_str(&mut s, "no .jute folder found in ");
                push_str(&mut s, cwd.as_str());
                push_str(&mut s, " or any parent");
            },
            JuteError::TaskNotFound { name } => {
                push_str(&mut s, "Task \"");
                push_str(&mut s, name.as_str());
                push_str(&mut s, "\" does not exist");
            },
            JuteError::CommandFailed { command, code } => {
                push_str(&mut s, "Command \"");
                push_str(&mut s, command.as_str());
                push_str(&mut s, "\" failed with status code ");
                push_decimal(&mut s, *code as i64);
            },
            JuteError::CommandKilledBySignal { command } => {
                push_str(&mut s, "Command \"");
                push_str(&mut s, command.as_str());
                push_str(&mut s, "\" was terminated by a signal");
            },
            JuteError::DownloadFailed { url, code, stdout, stderr } => {
                push_str(&mut s, "failed to download ");
                push_str(&mut s, url.as_str());
                push_str(&mut s, "\n");
                push_curl_section(&mut s, "stdout", stdout.as_str());
                push_curl_section(&mut s, "stderr", stderr.as_str());
                match code {
                    Some(c) => {
                        push_str(&mut s, "curl failed with exit code ");
                        push_decimal(&mut s, *c as i64);
                    },
                    None => {
                        push_str(&mut s, "curl was terminated by a signal");
                    },
                }
            },
            JuteError::Parse(p) => {
                s = p.to_string();
            },
            JuteError::Io { doing, source, .. } => {
                push_str(&mut s, doing.as_str());
                push_str(&mut s, ": ");
                let ghost prefix = s@;
                let text = io_error_text(source);
                push_str(&mut s, text.as_str());
                assert(s@ == message(*self) + text@);
            },
        }
        s
    }
}

fn push_curl_section(s: &mut String, label: &str, output: &str)
    ensures
        final(s)@ == old(s)@ + curl_section(label@, output@),
{
    push_str(s, "--- curl ");
    push_str(s, label);
    push_str(s, " ---\n");
    let chars = crate::text::chars_of(output);
    if chars.len() > 0 {
        push_str(s, output);
        if chars[chars.len() - 1] != '\n' {
            push_char(s, '\n');
        }
    }
    assert(s@ =~= old(s)@ + curl_section(label@, output@));
}

impl From<ParseError> for JuteError {
    fn from(e: ParseError) -> (r: JuteError) {
        JuteError::Parse(e)
    }
}

impl vstd::std_specs::convert::FromSpecImpl<ParseError> for JuteError {
    open spec fn obeys_from_spec() -> bool {
        true
    }

    open spec fn from_spec(v: ParseError) -> JuteError {
        JuteError::Parse(v)
    }
}

/// Something that can label an io failure: a `&str` or a `String`.
pub trait Label {
    spec fn text(&self) -> Seq<char>;

    fn into_label(self) -> (r: String)
        ensures
            r@ == self.text(),
    ;
}

impl<'b> Label for &'b str {
    open spec fn text(&self) -> Seq<char> {
        (*self)@
    }

    fn into_label(self) -> (r: String) {
        string_from(self)
    }
}

impl Label for String {
    open spec fn text(&self) -> Seq<char> {
        self@
    }

    fn into_label(self) -> (r: String) {
        self
    }
}

/// Labels an io failure with what jute was attempting at the time.
pub trait Context<T>: Sized {
    spec fn outcome(&self) -> Option<T>;

    /// The io error, when there is one.
    spec fn failure(&self) -> Option<std::io::Error>;

    fn context<S: Label>(self, doing: S) -> (r: JuteResult<T>)
        ensures
            match self.outcome() {
                Some(v) => r == Ok::<T, JuteError>(v),
                None => r matches Err(JuteError::Io { doing: d, source, .. }) && d@ == doing.text()
                    && self.failure() == Some(source),
            },
    ;

    /// As `context`, but only builds the label when there is an error to
    /// label.
    fn with_context<S: Label, F: FnOnce() -> S>(self, doing: F) -> (r: JuteResult<T>)
        requires
            self.outcome() is None ==> doing.requires(()),
        ensures
            match self.outcome() {
                Some(v) => r == Ok::<T, JuteError>(v),
                None => exists|l: S|
                    doing.ensures((), l) && (r matches Err(JuteError::Io { doing: d, source, .. })
                        && d@ == l.text() && self.failure() == Some(source)),
            },
    ;
}

impl<T> Context<T> for Result<T, std::io::Error> {
    open spec fn outcome(&self) -> Option<T> {
        match self {
            Ok(v) => Some(*v),
            Err(_) => None,
        }
    }

    open spec fn failure(&self) -> Option<std::io::Error> {
        match self {
            Ok(_) => None,
            Err(e) => Some(*e),
        }
    }

    fn context<S: Label>(self, doing: S) -> (r: JuteResult<T>) {
        match self {
            Ok(v) => Ok(v),
            Err(source) => Err(io_failure(doing.into_label(), source)),
        }
    }

    fn with_context<S: Label, F: FnOnce() -> S>(self, doing: F) -> (r: JuteResult<T>) {
        match self {
            Ok(v) => Ok(v),
            Err(source) => {
                let label = doing();
                Err(io_failure(label.into_label(), source))
            },
        }
    }
}

} // verus!
