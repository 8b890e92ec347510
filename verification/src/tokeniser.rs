//! The lexer for tasks files: turns source text into a stream of tokens,
//! with indentation turned into `Indent`/`Dedent` tokens.
use std::borrow::Cow;
use vstd::prelude::*;
use vstd::utf8::encode_utf8;

use crate::text::{
    char_is_whitespace, is_whitespace, lemma_encode_utf8_take, push_char, utf8_width,
};

verus! {

#[derive(Debug, PartialEq, Eq)]
pub enum Token<'a> {
    Indent,
    Dedent,
    /// A run of spaces within a line, carrying its width so a command can be
    /// rebuilt exactly. Spaces at the start of a line are indentation, and
    /// become `Indent`/`Dedent` instead.
    Spaces(usize),
    NewLine,
    Colon,
    With,
    In,
    Equals,
    Word(&'a str),
    /// The text between a pair of `"`, with `\"` and `\\` decoded. Only
    /// produced by a tokeniser made with `new_with_quoted_strings`.
    DoubleQuotedString(Cow<'a, str>),
    /// The text between a pair of `'`, with `\'` and `\\` decoded.
    SingleQuotedString(Cow<'a, str>),
    /// A quote whose line ended before its closing quote; carries the quote.
    UnterminatedString(char),
}

/// The mathematical value of a token: its kind and the characters it holds.
pub ghost enum SpecToken {
    Indent,
    Dedent,
    Spaces(nat),
    NewLine,
    Colon,
    With,
    In,
    Equals,
    Word(Seq<char>),
    /// The decoded text, and whether an escape was decoded, so that the
    /// text is a new string rather than a slice of the source.
    DoubleQuoted(Seq<char>, bool),
    SingleQuoted(Seq<char>, bool),
    Unterminated(char),
}

impl<'a> View for Token<'a> {
    type V = SpecToken;

    open spec fn view(&self) -> SpecToken {
        match self {
            Token::Indent => SpecToken::Indent,
            Token::Dedent => SpecToken::Dedent,
            Token::Spaces(n) => SpecToken::Spaces(*n as nat),
            Token::NewLine => SpecToken::NewLine,
            Token::Colon => SpecToken::Colon,
            Token::With => SpecToken::With,
            Token::In => SpecToken::In,
            Token::Equals => SpecToken::Equals,
            Token::Word(w) => SpecToken::Word(w@),
            Token::DoubleQuotedString(s) => SpecToken::DoubleQuoted(s@, s matches Cow::Owned(_)),
            Token::SingleQuotedString(s) => SpecToken::SingleQuoted(s@, s matches Cow::Owned(_)),
            Token::UnterminatedString(q) => SpecToken::Unterminated(*q),
        }
    }
}

pub open spec fn is_line_break(c: char) -> bool {
    c == '\n' || c == '\r'
}

pub open spec fn is_quote(c: char) -> bool {
    c == '"' || c == '\''
}

/// The characters that end a word: line breaks, `:`, `=` and a space, and
/// the two quotes when quoted strings are recognised.
pub open spec fn ends_word(c: char, quotes: bool) -> bool {
    is_line_break(c) || c == ':' || c == '=' || c == ' ' || (quotes && is_quote(c))
}

/// The first index at or after `i` that does not hold a space.
pub open spec fn spaces_end(s: Seq<char>, i: int) -> int
    decreases s.len() - i,
{
    if 0 <= i < s.len() && s[i] == ' ' {
        spaces_end(s, i + 1)
    } else {
        i
    }
}

/// The first index at or after `i` that ends a word (or the end of `s`).
pub open spec fn word_end(s: Seq<char>, i: int, quotes: bool) -> int
    decreases s.len() - i,
{
    if 0 <= i < s.len() && !ends_word(s[i], quotes) {
        word_end(s, i + 1, quotes)
    } else {
        i
    }
}

/// The first index at or after `i` that holds a line break (or the end of `s`).
pub open spec fn line_end(s: Seq<char>, i: int) -> int
    decreases s.len() - i,
{
    if 0 <= i < s.len() && !is_line_break(s[i]) {
        line_end(s, i + 1)
    } else {
        i
    }
}

/// Scans the inside of a string opened by quote `q`, from index `j`. `None`
/// if the line (or the source) ends first; otherwise the index of the
/// closing quote, the decoded text, and whether an escape (`\q` or `\\`)
/// was decoded.
pub open spec fn scan_quoted(s: Seq<char>, q: char, j: int) -> Option<(int, Seq<char>, bool)>
    decreases s.len() - j,
{
    if j < 0 || j >= s.len() || is_line_break(s[j]) {
        None
    } else if s[j] == q {
        Some((j, Seq::<char>::empty(), false))
    } else if s[j] == '\\' && j + 1 < s.len() && (s[j + 1] == q || s[j + 1] == '\\') {
        match scan_quoted(s, q, j + 2) {
            Some((e, d, _)) => Some((e, seq![s[j + 1]] + d, true)),
            None => None,
        }
    } else {
        match scan_quoted(s, q, j + 1) {
            Some((e, d, esc)) => Some((e, seq![s[j]] + d, esc)),
            None => None,
        }
    }
}

/// A word, or the keyword it spells: `with` and `in` are keywords wherever
/// they stand as a whole word.
pub open spec fn word_token(w: Seq<char>) -> SpecToken {
    if w == seq!['w', 'i', 't', 'h'] {
        SpecToken::With
    } else if w == seq!['i', 'n'] {
        SpecToken::In
    } else {
        SpecToken::Word(w)
    }
}

/// The token that starts at index `i` of a line (not at its start), and the
/// index just after it.
pub open spec fn token_at(s: Seq<char>, quotes: bool, i: int) -> (SpecToken, int) {
    let c = s[i];
    if is_line_break(c) {
        (SpecToken::NewLine, i + 1)
    } else if c == ':' {
        (SpecToken::Colon, i + 1)
    } else if c == '=' {
        (SpecToken::Equals, i + 1)
    } else if c == ' ' {
        let e = spaces_end(s, i);
        (SpecToken::Spaces((e - i) as nat), e)
    } else if quotes && is_quote(c) {
        match scan_quoted(s, c, i + 1) {
            Some((close, text, escaped)) => (
                if c == '"' {
                    SpecToken::DoubleQuoted(text, escaped)
                } else {
                    SpecToken::SingleQuoted(text, escaped)
                },
                close + 1,
            ),
            None => (SpecToken::Unterminated(c), line_end(s, i + 1)),
        }
    } else {
        let e = word_end(s, i + 1, quotes);
        (word_token(s.subrange(i, e)), e)
    }
}

/// `n` dedents, closing every open block.
pub open spec fn dedents(n: nat) -> Seq<SpecToken> {
    Seq::new(n, |k: int| SpecToken::Dedent)
}

/// The open blocks that a line indented by `n` spaces leaves open: those no
/// deeper than `n`.
pub open spec fn keep_at_most(stack: Seq<usize>, n: int) -> Seq<usize>
    decreases stack.len(),
{
    if stack.len() > 0 && stack.last() > n {
        keep_at_most(stack.drop_last(), n)
    } else {
        stack
    }
}

pub proof fn lemma_keep_at_most(stack: Seq<usize>, n: int)
    ensures
        keep_at_most(stack, n).len() <= stack.len(),
        keep_at_most(stack, n) == stack.take(keep_at_most(stack, n).len() as int),
        current_indent(keep_at_most(stack, n)) <= n || keep_at_most(stack, n).len() == 0,
    decreases stack.len(),
{
    if stack.len() > 0 && stack.last() > n {
        lemma_keep_at_most(stack.drop_last(), n);
        let k = keep_at_most(stack, n);
        assert(stack.drop_last().take(k.len() as int) =~= stack.take(k.len() as int));
    } else {
        assert(stack.take(stack.len() as int) =~= stack);
    }
}

/// The indentation of the innermost open block (0 when none is open).
pub open spec fn current_indent(stack: Seq<usize>) -> int {
    if stack.len() == 0 {
        0
    } else {
        stack.last() as int
    }
}

pub proof fn lemma_spaces_end(s: Seq<char>, i: int)
    requires
        0 <= i <= s.len(),
    ensures
        i <= spaces_end(s, i) <= s.len(),
        forall|k: int| i <= k < spaces_end(s, i) ==> s[k] == ' ',
        spaces_end(s, i) < s.len() ==> s[spaces_end(s, i)] != ' ',
    decreases s.len() - i,
{
    if i < s.len() && s[i] == ' ' {
        lemma_spaces_end(s, i + 1);
    }
}

pub proof fn lemma_word_end(s: Seq<char>, i: int, quotes: bool)
    requires
        0 <= i <= s.len(),
    ensures
        i <= word_end(s, i, quotes) <= s.len(),
    decreases s.len() - i,
{
    if i < s.len() && !ends_word(s[i], quotes) {
        lemma_word_end(s, i + 1, quotes);
    }
}

pub proof fn lemma_line_end(s: Seq<char>, i: int)
    requires
        0 <= i <= s.len(),
    ensures
        i <= line_end(s, i) <= s.len(),
    decreases s.len() - i,
{
    if i < s.len() && !is_line_break(s[i]) {
        lemma_line_end(s, i + 1);
    }
}

pub proof fn lemma_scan_quoted(s: Seq<char>, q: char, j: int)
    requires
        0 <= j,
    ensures
        scan_quoted(s, q, j) matches Some((e, _, _)) ==> j <= e < s.len() && s[e] == q,
    decreases s.len() - j,
{
    if j < 0 || j >= s.len() || is_line_break(s[j]) {
    } else if s[j] == q {
    } else if s[j] == '\\' && j + 1 < s.len() && (s[j + 1] == q || s[j + 1] == '\\') {
        lemma_scan_quoted(s, q, j + 2);
    } else {
        lemma_scan_quoted(s, q, j + 1);
    }
}

pub proof fn lemma_token_at(s: Seq<char>, quotes: bool, i: int)
    requires
        0 <= i < s.len(),
    ensures
        i < token_at(s, quotes, i).1 <= s.len(),
{
    let c = s[i];
    if c == ' ' {
        lemma_spaces_end(s, i);
    } else if quotes && is_quote(c) && !is_line_break(c) && c != ':' && c != '=' {
        lemma_scan_quoted(s, c, i + 1);
        lemma_line_end(s, i + 1);
    } else {
        lemma_word_end(s, i + 1, quotes);
    }
}

/// The tokens of `s` from index `i` on, where `line_start` says whether `i`
/// is the start of a line and `stack` holds the indentation of each open
/// block.
///
/// At the start of a line, leading spaces are indentation: deeper than the
/// innermost block opens a block (`Indent`); shallower closes every block
/// deeper than the line, one `Dedent` each, and the line goes on in the
/// block around them, even where it is indented more than that block; and a
/// line holding only spaces is ignored. A line that starts with a character
/// that is not whitespace closes every open block, as does the end of the
/// source at the start of a line.
pub open spec fn lex(s: Seq<char>, quotes: bool, i: int, line_start: bool, stack: Seq<usize>) -> Seq<
    SpecToken,
>
    decreases s.len() - i, if line_start {
        1int
    } else {
        0int
    }, stack.len(),
{
    if i < 0 || i > s.len() {
        Seq::empty()
    } else if line_start {
        let e = spaces_end(s, i);
        proof {
            lemma_spaces_end(s, i);
        }
        if e > i {
            if e < s.len() && is_line_break(s[e]) {
                lex(s, quotes, e, false, stack)
            } else {
                let n = e - i;
                let top = current_indent(stack);
                if n == top {
                    lex(s, quotes, e, false, stack)
                } else if n > top {
                    seq![SpecToken::Indent] + lex(s, quotes, e, false, stack.push(n as usize))
                } else {
                    let kept = keep_at_most(stack, n);
                    proof {
                        lemma_keep_at_most(stack, n);
                    }
                    dedents((stack.len() - kept.len()) as nat) + lex(s, quotes, e, false, kept)
                }
            }
        } else if i == s.len() {
            dedents(stack.len())
        } else if !is_whitespace(s[i]) {
            dedents(stack.len()) + lex(s, quotes, i, false, Seq::empty())
        } else {
            lex(s, quotes, i, false, stack)
        }
    } else if i == s.len() {
        Seq::empty()
    } else {
        let (t, e) = token_at(s, quotes, i);
        proof {
            lemma_token_at(s, quotes, i);
        }
        seq![t] + lex(s, quotes, e, is_line_break(s[i]), stack)
    }
}

/// The tokens of a whole source text; quotes are ordinary characters.
pub open spec fn tokens(s: Seq<char>) -> Seq<SpecToken> {
    lex(s, false, 0, true, Seq::empty())
}

/// The tokens of a whole source text, with `"..."` and `'...'` read as
/// quoted strings.
pub open spec fn quoted_tokens(s: Seq<char>) -> Seq<SpecToken> {
    lex(s, true, 0, true, Seq::empty())
}

#[derive(Debug)]
pub struct Tokeniser<'a> {
    source: &'a str,
    chars: Vec<char>,
    pos: usize,
    just_had_new_line: bool,
    indent_stack: Vec<usize>,
    quoted_strings: bool,
    /// `Dedent`s still owed for the blocks a shallower line closed.
    pending_dedents: usize,
}

impl<'a> Tokeniser<'a> {
    /// The characters being tokenised.
    pub closed spec fn text(&self) -> Seq<char> {
        self.chars@
    }

    /// The index of the next character to read.
    pub closed spec fn position(&self) -> int {
        self.pos as int
    }

    pub closed spec fn at_line_start(&self) -> bool {
        self.just_had_new_line
    }

    /// The indentation of each open block, outermost first.
    pub closed spec fn indents(&self) -> Seq<usize> {
        self.indent_stack@
    }

    pub closed spec fn quotes(&self) -> bool {
        self.quoted_strings
    }

    pub closed spec fn wf(&self) -> bool {
        &&& self.chars@ == self.source@
        &&& self.pos <= self.chars@.len()
    }

    /// How many `Dedent`s are owed before the rest of the source is read.
    pub closed spec fn owed(&self) -> nat {
        self.pending_dedents as nat
    }

    /// Every `Word` still to come is a word.
    pub proof fn lemma_remaining_words(&self)
        ensures
            words_well_formed(self.remaining()),
    {
        lemma_lex_words(self.text(), self.quotes(), self.position(), self.at_line_start(), self.indents());
        lemma_words_concat(
            dedents(self.owed()),
            lex(self.text(), self.quotes(), self.position(), self.at_line_start(), self.indents()),
        );
    }

    /// The tokens still to come.
    pub open spec fn remaining(&self) -> Seq<SpecToken> {
        dedents(self.owed()) + lex(
            self.text(),
            self.quotes(),
            self.position(),
            self.at_line_start(),
            self.indents(),
        )
    }

    pub fn new(source: &'a str) -> (t: Self)
        ensures
            t.wf(),
            t.text() == source@,
            t.remaining() == tokens(source@),
            !t.quotes(),
            t.position() == 0,
            t.at_line_start(),
            t.indents() == Seq::<usize>::empty(),
            t.owed() == 0,
    {
        let chars = crate::text::chars_of(source);
        let t = Tokeniser {
            source,
            chars,
            pos: 0,
            just_had_new_line: true,
            indent_stack: Vec::new(),
            quoted_strings: false,
            pending_dedents: 0,
        };
        proof {
            assert(dedents(0) + t.remaining().skip(0) =~= t.remaining().skip(0));
            assert(dedents(0) =~= Seq::<SpecToken>::empty());
            assert(t.remaining() =~= lex(source@, false, 0, true, Seq::empty()));
        }
        t
    }

    /// As `new`, but `"..."` and `'...'` are read as quoted strings.
    pub fn new_with_quoted_strings(source: &'a str) -> (t: Self)
        ensures
            t.wf(),
            t.text() == source@,
            t.remaining() == quoted_tokens(source@),
            t.quotes(),
            t.position() == 0,
            t.at_line_start(),
            t.indents() == Seq::<usize>::empty(),
            t.owed() == 0,
    {
        let chars = crate::text::chars_of(source);
        let t = Tokeniser {
            source,
            chars,
            pos: 0,
            just_had_new_line: true,
            indent_stack: Vec::new(),
            quoted_strings: true,
            pending_dedents: 0,
        };
        proof {
            assert(dedents(0) + t.remaining().skip(0) =~= t.remaining().skip(0));
            assert(dedents(0) =~= Seq::<SpecToken>::empty());
            assert(t.remaining() =~= lex(source@, true, 0, true, Seq::empty()));
        }
        t
    }

    /// Opens or closes one block, or neither, for a line indented by
    /// `new_indent` spaces: deeper than the innermost block opens one, and
    /// shallower closes the innermost.
    pub fn indentation_changed(&mut self, new_indent: usize) -> (t: Option<Token<'static>>)
        ensures
            final(self).text() == old(self).text(),
            final(self).position() == old(self).position(),
            final(self).at_line_start() == old(self).at_line_start(),
            final(self).quotes() == old(self).quotes(),
            final(self).owed() == old(self).owed(),
            final(self).wf() == old(self).wf(),
            ({
                let top = current_indent(old(self).indents());
                if new_indent == top {
                    t is None && final(self).indents() == old(self).indents()
                } else if new_indent > top {
                    t == Some(Token::<'static>::Indent) && final(self).indents() == old(
                        self,
                    ).indents().push(new_indent)
                } else {
                    t == Some(Token::<'static>::Dedent) && final(self).indents() == old(
                        self,
                    ).indents().drop_last()
                }
            }),
    {
        let len = self.indent_stack.len();
        let prev = if len == 0 {
            0
        } else {
            self.indent_stack[len - 1]
        };

        if new_indent == prev {
            return None;
        }
        if new_indent > prev {
            self.indent_stack.push(new_indent);
            Some(Token::Indent)
        } else {
            self.indent_stack.pop();
            Some(Token::Dedent)
        }
    }

    /// The byte offset in the source of the next character, or the length of
    /// the source at its end.
    pub fn peek_next_index(&mut self) -> (r: usize)
        requires
            old(self).wf(),
        ensures
            *final(self) == *old(self),
            r == encode_utf8(old(self).text().take(old(self).position())).len(),
    {
        let bytes = self.source.as_bytes();
        let total = bytes.len();
        proof {
            assert(self.text().take(self.chars@.len() as int) =~= self.text());
        }
        let mut offset: usize = 0;
        let mut i: usize = 0;
        while i < self.pos
            invariant
                self.wf(),
                i <= self.pos,
                total == encode_utf8(self.text()).len(),
                offset == encode_utf8(self.text().take(i as int)).len(),
            decreases self.pos - i,
        {
            proof {
                lemma_encode_utf8_take(self.text(), i as int);
            }
            offset = offset + utf8_width(self.chars[i]);
            i = i + 1;
        }
        offset
    }

    /// The next character, without reading it.
    pub fn peek_next_char(&mut self) -> (r: Option<char>)
        requires
            old(self).wf(),
        ensures
            *final(self) == *old(self),
            r == if old(self).position() < old(self).text().len() {
                Some(old(self).text()[old(self).position()])
            } else {
                None::<char>
            },
    {
        if self.pos < self.chars.len() {
            Some(self.chars[self.pos])
        } else {
            None
        }
    }

    /// Reads the token that begins with `c`, the character just read, which
    /// starts at byte `index` of the source, within a line.
    #[allow(unused_variables)]
    pub fn handle_char(&mut self, c: char, index: usize) -> (t: Token<'a>)
        requires
            old(self).wf(),
            0 < old(self).position(),
            old(self).text()[old(self).position() - 1] == c,
            index == encode_utf8(old(self).text().take(old(self).position() - 1)).len(),
        ensures
            final(self).wf(),
            final(self).text() == old(self).text(),
            final(self).quotes() == old(self).quotes(),
            final(self).indents() == old(self).indents(),
            final(self).owed() == old(self).owed(),
            final(self).at_line_start() == is_line_break(c),
            (t@, final(self).position()) == token_at(
                old(self).text(),
                old(self).quotes(),
                old(self).position() - 1,
            ),
    {
        let at = self.pos - 1;
        self.read_token(c, at)
    }

    /// Reads the token that begins with `c`, the character at `index` that
    /// was just read, within a line.
    fn read_token(&mut self, c: char, index: usize) -> (t: Token<'a>)
        requires
            old(self).wf(),
            index < old(self).text().len(),
            old(self).text()[index as int] == c,
            old(self).position() == index + 1,
        ensures
            final(self).wf(),
            final(self).text() == old(self).text(),
            final(self).quotes() == old(self).quotes(),
            final(self).indents() == old(self).indents(),
            final(self).owed() == old(self).owed(),
            final(self).at_line_start() == is_line_break(c),
            (t@, final(self).position()) == token_at(old(self).text(), old(self).quotes(), index as int),
    {
        self.just_had_new_line = false;
        proof {
            lemma_token_at(self.text(), self.quoted_strings, index as int);
        }
        if c == '\n' || c == '\r' {
            self.just_had_new_line = true;
            Token::NewLine
        } else if c == ':' {
            Token::Colon
        } else if c == '=' {
            Token::Equals
        } else if c == ' ' {
            let mut count: usize = 1;
            while self.pos < self.chars.len() && self.chars[self.pos] == ' '
                invariant
                    self.wf(),
                    self.chars@ == old(self).chars@,
                    self.quoted_strings == old(self).quoted_strings,
                    self.indent_stack@ == old(self).indent_stack@,
                    self.pending_dedents == old(self).pending_dedents,
                    !self.just_had_new_line,
                    index < self.pos,
                    count == self.pos - index,
                    spaces_end(self.text(), self.pos as int) == spaces_end(
                        self.text(),
                        index as int,
                    ),
                decreases self.chars@.len() - self.pos,
            {
                self.pos = self.pos + 1;
                count = count + 1;
            }
            assert(spaces_end(self.text(), self.pos as int) == self.pos as int);
            Token::Spaces(count)
        } else if self.quoted_strings && (c == '"' || c == '\'') {
            self.quoted_string(c, index)
        } else {
            while self.pos < self.chars.len() && !self.ends_word(self.chars[self.pos])
                invariant
                    self.wf(),
                    self.chars@ == old(self).chars@,
                    self.source == old(self).source,
                    self.quoted_strings == old(self).quoted_strings,
                    self.indent_stack@ == old(self).indent_stack@,
                    self.pending_dedents == old(self).pending_dedents,
                    !self.just_had_new_line,
                    index < self.pos,
                    word_end(self.text(), self.pos as int, self.quoted_strings) == word_end(
                        self.text(),
                        index + 1,
                        self.quoted_strings,
                    ),
                decreases self.chars@.len() - self.pos,
            {
                self.pos = self.pos + 1;
            }
            let end = self.pos;
            proof {
                reveal_strlit("with");
                reveal_strlit("in");
                assert(word_end(self.text(), end as int, self.quoted_strings) == end as int);
                assert("with"@ =~= seq!['w', 'i', 't', 'h']);
                assert("in"@ =~= seq!['i', 'n']);
            }
            if self.is_keyword(index, end, "with") {
                Token::With
            } else if self.is_keyword(index, end, "in") {
                Token::In
            } else {
                Token::Word(self.source.substring_char(index, end))
            }
        }
    }

    fn ends_word(&self, c: char) -> (r: bool)
        ensures
            r == ends_word(c, self.quoted_strings),
    {
        c == '\n' || c == '\r' || c == ':' || c == '=' || c == ' ' || (self.quoted_strings && (c
            == '"' || c == '\''))
    }

    /// Whether the characters from `from` to `to` spell `keyword`.
    fn is_keyword(&self, from: usize, to: usize, keyword: &str) -> (r: bool)
        requires
            from <= to <= self.chars@.len(),
        ensures
            r == (self.chars@.subrange(from as int, to as int) == keyword@),
    {
        let k = crate::text::chars_of(keyword);
        if to - from != k.len() {
            proof {
                assert(self.chars@.subrange(from as int, to as int).len() != keyword@.len());
            }
            return false;
        }
        let mut i: usize = 0;
        while i < k.len()
            invariant
                from <= to <= self.chars@.len(),
                to - from == k@.len(),
                k@ == keyword@,
                i <= k@.len(),
                forall|j: int| 0 <= j < i ==> self.chars@[from + j] == k@[j],
            decreases k@.len() - i,
        {
            if self.chars[from + i] != k[i] {
                proof {
                    assert(self.chars@.subrange(from as int, to as int)[i as int] != keyword@[i as int]);
                }
                return false;
            }
            i = i + 1;
        }
        proof {
            assert(self.chars@.subrange(from as int, to as int) =~= keyword@);
        }
        true
    }

    /// Reads a string opened by quote `q`, found at `index`.
    fn quoted_string(&mut self, q: char, index: usize) -> (t: Token<'a>)
        requires
            old(self).wf(),
            old(self).quoted_strings,
            is_quote(q),
            index < old(self).chars@.len(),
            old(self).chars@[index as int] == q,
            old(self).pos == index + 1,
        ensures
            final(self).wf(),
            final(self).chars@ == old(self).chars@,
            final(self).source == old(self).source,
            final(self).quoted_strings == old(self).quoted_strings,
            final(self).indent_stack@ == old(self).indent_stack@,
            final(self).just_had_new_line == old(self).just_had_new_line,
            final(self).pending_dedents == old(self).pending_dedents,
            (t@, final(self).position()) == token_at(old(self).text(), true, index as int),
    {
        let ghost s = self.chars@;
        let start = self.pos;
        let mut decoded = String::new();
        let mut escaped = false;
        let mut j = start;
        proof {
            if scan_quoted(s, q, start as int) is Some {
                let d = scan_quoted(s, q, start as int).unwrap().1;
                assert(decoded@ + d =~= d);
            }
        }
        // the scan below keeps `scan_quoted(s, q, start)` equal to what has
        // been decoded so far followed by `scan_quoted(s, q, j)`
        loop
            invariant
                self.wf(),
                self.chars@ == s,
                s == old(self).chars@,
                self.source == old(self).source,
                self.quoted_strings == old(self).quoted_strings,
                self.indent_stack@ == old(self).indent_stack@,
                self.just_had_new_line == old(self).just_had_new_line,
                self.pending_dedents == old(self).pending_dedents,
                self.pos == start,
                start == index + 1,
                start <= j <= s.len(),
                s[index as int] == q,
                is_quote(q),
                scan_quoted(s, q, start as int) == match scan_quoted(s, q, j as int) {
                    Some((e, d, esc)) => Some((e, decoded@ + d, escaped || esc)),
                    None => None,
                },
                line_end(s, start as int) == line_end(s, j as int),
            decreases s.len() - j,
        {
            if j >= self.chars.len() || self.chars[j] == '\n' || self.chars[j] == '\r' {
                // the line ended before the closing quote
                self.pos = j;
                return Token::UnterminatedString(q);
            }
            let c = self.chars[j];
            if c == q {
                self.pos = j + 1;
                proof {
                    assert(decoded@ + Seq::<char>::empty() =~= decoded@);
                }
                if escaped {
                    let text = Cow::Owned(decoded);
                    if q == '"' {
                        return Token::DoubleQuotedString(text);
                    } else {
                        return Token::SingleQuotedString(text);
                    }
                } else {
                    let text = self.source.substring_char(start, j);
                    proof {
                        self.lemma_unescaped_is_verbatim(q, start as int, j as int);
                    }
                    if q == '"' {
                        return Token::DoubleQuotedString(Cow::Borrowed(text));
                    } else {
                        return Token::SingleQuotedString(Cow::Borrowed(text));
                    }
                }
            }
            if c == '\\' && j + 1 < self.chars.len() && (self.chars[j + 1] == q || self.chars[j
                + 1] == '\\') {
                let next = self.chars[j + 1];
                let ghost before = decoded@;
                proof {
                    assert(line_end(s, j as int) == line_end(s, j + 1));
                    assert(line_end(s, j + 1) == line_end(s, j + 2));
                }
                push_char(&mut decoded, next);
                escaped = true;
                j = j + 2;
                proof {
                    if scan_quoted(s, q, j as int) is Some {
                        let d = scan_quoted(s, q, j as int).unwrap().1;
                        assert(before + (seq![next] + d) =~= decoded@ + d);
                    }
                }
            } else {
                let ghost before = decoded@;
                proof {
                    assert(line_end(s, j as int) == line_end(s, j + 1));
                }
                push_char(&mut decoded, c);
                j = j + 1;
                proof {
                    if scan_quoted(s, q, j as int) is Some {
                        let d = scan_quoted(s, q, j as int).unwrap().1;
                        assert(before + (seq![c] + d) =~= decoded@ + d);
                    }
                }
            }
        }
    }

    /// With no escape decoded, the text of a quoted string is the source
    /// between its quotes.
    proof fn lemma_unescaped_is_verbatim(&self, q: char, j: int, close: int)
        requires
            0 <= j,
            scan_quoted(self.chars@, q, j) matches Some((e, d, esc)) && e == close && !esc,
        ensures
            scan_quoted(self.chars@, q, j).unwrap().1 == self.chars@.subrange(j, close),
        decreases self.chars@.len() - j,
    {
        let s = self.chars@;
        if s[j] == q {
            assert(s.subrange(j, close) =~= Seq::<char>::empty());
        } else if s[j] == '\\' && j + 1 < s.len() && (s[j + 1] == q || s[j + 1] == '\\') {
        } else {
            self.lemma_unescaped_is_verbatim(q, j + 1, close);
            lemma_scan_quoted(s, q, j + 1);
            assert(s.subrange(j, close) =~= seq![s[j]] + s.subrange(j + 1, close));
        }
    }

    /// The next token, or `None` at the end of the tokens.
    pub fn next(&mut self) -> (t: Option<Token<'a>>)
        requires
            old(self).wf(),
        ensures
            final(self).wf(),
            final(self).text() == old(self).text(),
            final(self).quotes() == old(self).quotes(),
            old(self).remaining().len() == 0 ==> t is None && final(self).remaining().len() == 0,
            old(self).remaining().len() > 0 ==> (t matches Some(tok) && tok@ == old(
                self,
            ).remaining()[0] && final(self).remaining() == old(self).remaining().drop_first()),
    {
        let ghost rem = self.remaining();
        if self.pending_dedents > 0 {
            self.pending_dedents = self.pending_dedents - 1;
            proof {
                let l = lex(
                    self.text(),
                    self.quotes(),
                    self.position(),
                    self.at_line_start(),
                    self.indents(),
                );
                assert(dedents(self.owed() + 1) =~= seq![SpecToken::Dedent] + dedents(
                    self.owed(),
                ));
                assert(rem.drop_first() =~= self.remaining());
            }
            return Some(Token::Dedent);
        }
        proof {
            assert(dedents(0) =~= Seq::<SpecToken>::empty());
            assert(rem =~= lex(
                self.text(),
                self.quotes(),
                self.position(),
                self.at_line_start(),
                self.indents(),
            ));
        }
        loop
            invariant
                self.wf(),
                self.chars@ == old(self).chars@,
                self.quoted_strings == old(self).quoted_strings,
                self.pending_dedents == 0,
                self.remaining() == rem,
                rem == old(self).remaining(),
            decreases self.chars@.len() - self.pos, if self.just_had_new_line {
                1int
            } else {
                0int
            },
        {
            let ghost s = self.chars@;
            let ghost q = self.quoted_strings;
            if self.just_had_new_line {
                let start = self.pos;
                let mut e = start;
                while e < self.chars.len() && self.chars[e] == ' '
                    invariant
                        self.wf(),
                        start <= e <= self.chars@.len(),
                        spaces_end(self.chars@, start as int) == spaces_end(self.chars@, e as int),
                    decreases self.chars@.len() - e,
                {
                    e = e + 1;
                }
                proof {
                    lemma_spaces_end(s, start as int);
                }
                if e > start {
                    if e < self.chars.len() && (self.chars[e] == '\n' || self.chars[e] == '\r') {
                        // a line holding only spaces is ignored
                        self.pos = e;
                        self.just_had_new_line = false;
                        continue ;
                    }
                    let n = e - start;
                    let ghost stack = self.indent_stack@;
                    let len = self.indent_stack.len();
                    let top = if len == 0 {
                        0
                    } else {
                        self.indent_stack[len - 1]
                    };
                    if n < top {
                        // close every block deeper than the line
                        proof {
                            lemma_keep_at_most(stack, n as int);
                        }
                        let mut closed: usize = 0;
                        assert(stack.len() <= usize::MAX);
                        loop
                            invariant
                                stack.len() <= usize::MAX,
                                self.wf(),
                                self.chars@ == s,
                                self.quoted_strings == q,
                                self.pos == start,
                                self.just_had_new_line,
                                self.pending_dedents == 0,
                                keep_at_most(self.indent_stack@, n as int) == keep_at_most(
                                    stack,
                                    n as int,
                                ),
                                self.indent_stack@ == stack.take(self.indent_stack@.len() as int),
                                closed + self.indent_stack@.len() == stack.len(),
                                closed > 0 || current_indent(self.indent_stack@) > n,
                            ensures
                                self.wf(),
                                self.chars@ == s,
                                self.quoted_strings == q,
                                self.pos == start,
                                self.pending_dedents == 0,
                                keep_at_most(self.indent_stack@, n as int) == keep_at_most(
                                    stack,
                                    n as int,
                                ),
                                closed + self.indent_stack@.len() == stack.len(),
                                closed > 0,
                                self.indent_stack@.len() == 0 || self.indent_stack@.last() <= n,
                            decreases self.indent_stack@.len(),
                        {
                            let l = self.indent_stack.len();
                            if l == 0 || self.indent_stack[l - 1] <= n {
                                break;
                            }
                            let ghost before = self.indent_stack@;
                            self.indentation_changed(n);
                            proof {
                                assert(self.indent_stack@ =~= stack.take(
                                    self.indent_stack@.len() as int,
                                ));
                            }
                            closed = closed + 1;
                        }
                        proof {
                            lemma_keep_at_most(self.indent_stack@, n as int);
                            assert(keep_at_most(self.indent_stack@, n as int) == self.indent_stack@);
                        }
                        self.pos = e;
                        self.just_had_new_line = false;
                        self.pending_dedents = closed - 1;
                        proof {
                            assert(dedents(closed as nat) =~= seq![SpecToken::Dedent] + dedents(
                                (closed - 1) as nat,
                            ));
                            assert(rem.drop_first() =~= self.remaining());
                        }
                        return Some(Token::Dedent);
                    }
                    match self.indentation_changed(n) {
                        Some(t) => {
                            self.pos = e;
                            self.just_had_new_line = false;
                            proof {
                                assert(dedents(0) =~= Seq::<SpecToken>::empty());
                                assert(rem.drop_first() =~= self.remaining());
                            }
                            return Some(t);
                        },
                        None => {
                            self.pos = e;
                            self.just_had_new_line = false;
                            continue ;
                        },
                    }
                } else if start == self.chars.len() || !char_is_whitespace(self.chars[start]) {
                    if self.indent_stack.len() > 0 {
                        self.indent_stack.pop();
                        proof {
                            assert(dedents((self.indent_stack@.len() + 1) as nat) =~= seq![
                                SpecToken::Dedent,
                            ] + dedents(self.indent_stack@.len() as nat));
                        }
                        return Some(Token::Dedent);
                    }
                    proof {
                        assert(dedents(0) =~= Seq::<SpecToken>::empty());
                        assert(self.indent_stack@ =~= Seq::<usize>::empty());
                    }
                    if start == self.chars.len() {
                        return None;
                    }
                    self.just_had_new_line = false;
                    proof {
                        assert(Seq::<SpecToken>::empty() + self.remaining() =~= self.remaining());
                    }
                } else {
                    self.just_had_new_line = false;
                }
            }
            if self.pos == self.chars.len() {
                return None;
            }
            let i = self.pos;
            let c = self.chars[i];
            let ghost stack = self.indent_stack@;
            proof {
                assert(rem == lex(s, q, i as int, false, stack));
                assert(rem == seq![token_at(s, q, i as int).0] + lex(
                    s,
                    q,
                    token_at(s, q, i as int).1,
                    is_line_break(s[i as int]),
                    stack,
                ));
            }
            self.pos = i + 1;
            let t = self.read_token(c, i);
            proof {
                assert(rem.drop_first() =~= self.remaining());
            }
            return Some(t);
        }
    }

    /// All the remaining tokens, in order.
    pub fn collect(self) -> (v: Vec<Token<'a>>)
        requires
            self.wf(),
        ensures
            v@.map_values(|t: Token<'a>| t@) == self.remaining(),
    {
        let mut this = self;
        let mut v: Vec<Token<'a>> = Vec::new();
        loop
            invariant
                this.wf(),
                v@.map_values(|t: Token<'a>| t@) + this.remaining() == self.remaining(),
            decreases this.remaining().len(),
        {
            let ghost before = this.remaining();
            match this.next() {
                Some(t) => {
                    let ghost vb = v@;
                    v.push(t);
                    proof {
                        assert(v@.map_values(|t: Token<'a>| t@) =~= vb.map_values(
                            |t: Token<'a>| t@,
                        ).push(t@));
                        assert(before =~= seq![before[0]] + before.drop_first());
                        assert(v@.map_values(|t: Token<'a>| t@) + this.remaining() =~= vb.map_values(
                            |t: Token<'a>| t@,
                        ) + before);
                    }
                },
                None => {
                    proof {
                        assert(v@.map_values(|t: Token<'a>| t@) + this.remaining() =~= v@.map_values(
                            |t: Token<'a>| t@,
                        ));
                    }
                    return v;
                },
            }
        }
    }
}

/// How a token changes the depth of nesting: an `Indent` opens a block and
/// a `Dedent` closes one.
pub open spec fn depth_change(t: SpecToken) -> int {
    match t {
        SpecToken::Indent => 1,
        SpecToken::Dedent => -1,
        _ => 0,
    }
}

/// The depth of nesting after `ts`: blocks opened less blocks closed.
pub open spec fn nesting(ts: Seq<SpecToken>) -> int
    decreases ts.len(),
{
    if ts.len() == 0 {
        0
    } else {
        nesting(ts.drop_last()) + depth_change(ts.last())
    }
}

/// No prefix of `ts` takes the depth of nesting below `floor`.
pub open spec fn never_below(ts: Seq<SpecToken>, floor: int) -> bool {
    forall|k: int| 0 <= k <= ts.len() ==> nesting(#[trigger] ts.take(k)) >= floor
}

proof fn lemma_nesting_concat(a: Seq<SpecToken>, b: Seq<SpecToken>)
    ensures
        nesting(a + b) == nesting(a) + nesting(b),
    decreases b.len(),
{
    if b.len() == 0 {
        assert(a + b =~= a);
    } else {
        assert((a + b).drop_last() =~= a + b.drop_last());
        lemma_nesting_concat(a, b.drop_last());
    }
}

proof fn lemma_never_below_concat(a: Seq<SpecToken>, b: Seq<SpecToken>, floor: int)
    requires
        never_below(a, floor),
        never_below(b, floor - nesting(a)),
    ensures
        never_below(a + b, floor),
{
    assert forall|k: int| 0 <= k <= (a + b).len() implies nesting(#[trigger] (a + b).take(k))
        >= floor by {
        if k <= a.len() {
            assert((a + b).take(k) =~= a.take(k));
        } else {
            assert((a + b).take(k) =~= a + b.take(k - a.len()));
            lemma_nesting_concat(a, b.take(k - a.len()));
            assert(a.take(a.len() as int) =~= a);
        }
    }
}

proof fn lemma_dedents_nesting(n: nat)
    ensures
        nesting(dedents(n)) == -(n as int),
        never_below(dedents(n), -(n as int)),
    decreases n,
{
    if n > 0 {
        lemma_dedents_nesting((n - 1) as nat);
        assert(dedents(n).drop_last() =~= dedents((n - 1) as nat));
    }
    assert forall|k: int| 0 <= k <= dedents(n).len() implies nesting(#[trigger] dedents(n).take(k))
        >= -(n as int) by {
        lemma_dedents_take(n, k);
    }
}

proof fn lemma_dedents_take(n: nat, k: int)
    requires
        0 <= k <= n,
    ensures
        nesting(dedents(n).take(k)) == -k,
    decreases k,
{
    if k > 0 {
        assert(dedents(n).take(k).drop_last() =~= dedents(n).take(k - 1));
        lemma_dedents_take(n, k - 1);
    } else {
        assert(dedents(n).take(k) =~= Seq::<SpecToken>::empty());
    }
}

proof fn lemma_single_nesting(t: SpecToken, floor: int)
    requires
        floor <= 0,
        floor <= depth_change(t),
    ensures
        nesting(seq![t]) == depth_change(t),
        never_below(seq![t], floor),
{
    assert(seq![t].drop_last() =~= Seq::<SpecToken>::empty());
    assert(nesting(seq![t]) == nesting(Seq::<SpecToken>::empty()) + depth_change(t));
    assert forall|k: int| 0 <= k <= 1 implies nesting(#[trigger] seq![t].take(k)) >= floor by {
        if k == 0 {
            assert(seq![t].take(k) =~= Seq::<SpecToken>::empty());
        } else {
            assert(seq![t].take(k) =~= seq![t]);
        }
    }
}

proof fn lemma_word_end_inside(s: Seq<char>, i: int, quotes: bool)
    requires
        0 <= i <= s.len(),
    ensures
        forall|k: int| i <= k < word_end(s, i, quotes) ==> !ends_word(#[trigger] s[k], quotes),
    decreases s.len() - i,
{
    if i < s.len() && !ends_word(s[i], quotes) {
        lemma_word_end_inside(s, i + 1, quotes);
    }
}

proof fn lemma_line_end_inside(s: Seq<char>, i: int)
    requires
        0 <= i <= s.len(),
    ensures
        forall|k: int| i <= k < line_end(s, i) ==> !is_line_break(#[trigger] s[k]),
    decreases s.len() - i,
{
    if i < s.len() && !is_line_break(s[i]) {
        lemma_line_end_inside(s, i + 1);
    }
}

/// A token that is not a line break ends before the final line break.
proof fn lemma_token_before_break(s: Seq<char>, quotes: bool, i: int)
    requires
        0 <= i < s.len(),
        is_line_break(s.last()),
        !is_line_break(s[i]),
    ensures
        token_at(s, quotes, i).1 < s.len(),
        depth_change(token_at(s, quotes, i).0) == 0,
{
    let c = s[i];
    lemma_token_at(s, quotes, i);
    if c == ':' || c == '=' {
    } else if c == ' ' {
        lemma_spaces_end(s, i);
    } else if quotes && is_quote(c) {
        lemma_scan_quoted(s, c, i + 1);
        lemma_line_end(s, i + 1);
        lemma_line_end_inside(s, i + 1);
    } else {
        lemma_word_end(s, i + 1, quotes);
        lemma_word_end_inside(s, i + 1, quotes);
    }
}

proof fn lemma_lex_nesting(s: Seq<char>, quotes: bool, i: int, line_start: bool, stack: Seq<usize>)
    requires
        0 <= i <= s.len(),
        s.len() == 0 || is_line_break(s.last()),
        line_start || i < s.len(),
    ensures
        nesting(lex(s, quotes, i, line_start, stack)) == -(stack.len() as int),
        never_below(lex(s, quotes, i, line_start, stack), -(stack.len() as int)),
    decreases s.len() - i, if line_start {
        1int
    } else {
        0int
    }, stack.len(),
{
    let f = -(stack.len() as int);
    if line_start {
        let e = spaces_end(s, i);
        lemma_spaces_end(s, i);
        if e > i {
            if e < s.len() && is_line_break(s[e]) {
                lemma_lex_nesting(s, quotes, e, false, stack);
            } else {
                let n = e - i;
                let top = current_indent(stack);
                if n == top {
                    lemma_lex_nesting(s, quotes, e, false, stack);
                } else if n > top {
                    let rest = lex(s, quotes, e, false, stack.push(n as usize));
                    lemma_lex_nesting(s, quotes, e, false, stack.push(n as usize));
                    lemma_single_nesting(SpecToken::Indent, f);
                    lemma_nesting_concat(seq![SpecToken::Indent], rest);
                    lemma_never_below_concat(seq![SpecToken::Indent], rest, f);
                } else {
                    let kept = keep_at_most(stack, n);
                    lemma_keep_at_most(stack, n);
                    let k = (stack.len() - kept.len()) as nat;
                    let rest = lex(s, quotes, e, false, kept);
                    lemma_lex_nesting(s, quotes, e, false, kept);
                    lemma_dedents_nesting(k);
                    assert(never_below(dedents(k), f)) by {
                        assert forall|m: int| 0 <= m <= dedents(k).len() implies nesting(
                            #[trigger] dedents(k).take(m),
                        ) >= f by {
                            assert(nesting(dedents(k).take(m)) >= -(k as int));
                        }
                    }
                    lemma_nesting_concat(dedents(k), rest);
                    lemma_never_below_concat(dedents(k), rest, f);
                }
            }
        } else if i == s.len() {
            lemma_dedents_nesting(stack.len());
        } else if !is_whitespace(s[i]) {
            let rest = lex(s, quotes, i, false, Seq::empty());
            lemma_lex_nesting(s, quotes, i, false, Seq::empty());
            lemma_dedents_nesting(stack.len());
            lemma_nesting_concat(dedents(stack.len()), rest);
            lemma_never_below_concat(dedents(stack.len()), rest, f);
        } else {
            lemma_lex_nesting(s, quotes, i, false, stack);
        }
    } else {
        let (t, e) = token_at(s, quotes, i);
        lemma_token_at(s, quotes, i);
        if !is_line_break(s[i]) {
            lemma_token_before_break(s, quotes, i);
        } else {
            assert(t == SpecToken::NewLine);
        }
        let rest = lex(s, quotes, e, is_line_break(s[i]), stack);
        lemma_lex_nesting(s, quotes, e, is_line_break(s[i]), stack);
        lemma_single_nesting(t, f);
        lemma_nesting_concat(seq![t], rest);
        lemma_never_below_concat(seq![t], rest, f);
    }
}

/// Blocks balance: in the tokens of a source that is empty or ends with a
/// line break, every `Indent` is matched by a later `Dedent`, and no
/// `Dedent` comes without an `Indent` before it to close. This holds with
/// quoted strings recognised or not.
pub proof fn lemma_blocks_balance(s: Seq<char>, quotes: bool)
    requires
        s.len() == 0 || is_line_break(s.last()),
    ensures
        nesting(lex(s, quotes, 0, true, Seq::empty())) == 0,
        never_below(lex(s, quotes, 0, true, Seq::empty()), 0),
{
    lemma_lex_nesting(s, quotes, 0, true, Seq::empty());
}

/// A word as the tokeniser cuts one: not empty, and holding no line break,
/// `:`, `=` or space.
pub open spec fn is_word(w: Seq<char>) -> bool {
    &&& w.len() > 0
    &&& forall|k: int|
        0 <= k < w.len() ==> !(is_line_break(#[trigger] w[k]) || w[k] == ':' || w[k] == '='
            || w[k] == ' ')
}

/// Every `Word` token among `ts` holds a word.
pub open spec fn words_well_formed(ts: Seq<SpecToken>) -> bool {
    forall|k: int| 0 <= k < ts.len() ==> (#[trigger] ts[k] matches SpecToken::Word(w) ==> is_word(w))
}

proof fn lemma_words_concat(a: Seq<SpecToken>, b: Seq<SpecToken>)
    requires
        words_well_formed(a),
        words_well_formed(b),
    ensures
        words_well_formed(a + b),
{
    assert forall|k: int| 0 <= k < (a + b).len() implies (#[trigger] (a + b)[k] matches SpecToken::Word(w)
        ==> is_word(w)) by {
        if k < a.len() {
            assert((a + b)[k] == a[k]);
        } else {
            assert((a + b)[k] == b[k - a.len()]);
        }
    }
}

proof fn lemma_token_word(s: Seq<char>, quotes: bool, i: int)
    requires
        0 <= i < s.len(),
    ensures
        token_at(s, quotes, i).0 matches SpecToken::Word(w) ==> is_word(w),
{
    let c = s[i];
    if !is_line_break(c) && c != ':' && c != '=' && c != ' ' && !(quotes && is_quote(c)) {
        let e = word_end(s, i + 1, quotes);
        lemma_word_end(s, i + 1, quotes);
        lemma_word_end_inside(s, i + 1, quotes);
        let w = s.subrange(i, e);
        assert forall|k: int| 0 <= k < w.len() implies !(is_line_break(#[trigger] w[k]) || w[k]
            == ':' || w[k] == '=' || w[k] == ' ') by {
            if k > 0 {
                assert(!ends_word(s[i + k], quotes));
            }
        }
    }
}

proof fn lemma_lex_words(s: Seq<char>, quotes: bool, i: int, line_start: bool, stack: Seq<usize>)
    ensures
        words_well_formed(lex(s, quotes, i, line_start, stack)),
    decreases s.len() - i, if line_start {
        1int
    } else {
        0int
    }, stack.len(),
{
    if i < 0 || i > s.len() {
    } else if line_start {
        let e = spaces_end(s, i);
        lemma_spaces_end(s, i);
        if e > i {
            if e < s.len() && is_line_break(s[e]) {
                lemma_lex_words(s, quotes, e, false, stack);
            } else {
                let n = e - i;
                let top = current_indent(stack);
                if n == top {
                    lemma_lex_words(s, quotes, e, false, stack);
                } else if n > top {
                    lemma_lex_words(s, quotes, e, false, stack.push(n as usize));
                    lemma_words_concat(
                        seq![SpecToken::Indent],
                        lex(s, quotes, e, false, stack.push(n as usize)),
                    );
                } else {
                    let kept = keep_at_most(stack, n);
                    lemma_keep_at_most(stack, n);
                    lemma_lex_words(s, quotes, e, false, kept);
                    lemma_words_concat(
                        dedents((stack.len() - kept.len()) as nat),
                        lex(s, quotes, e, false, kept),
                    );
                }
            }
        } else if i == s.len() {
        } else if !is_whitespace(s[i]) {
            lemma_lex_words(s, quotes, i, false, Seq::empty());
            lemma_words_concat(dedents(stack.len()), lex(s, quotes, i, false, Seq::empty()));
        } else {
            lemma_lex_words(s, quotes, i, false, stack);
        }
    } else if i == s.len() {
    } else {
        let (t, e) = token_at(s, quotes, i);
        lemma_token_at(s, quotes, i);
        lemma_token_word(s, quotes, i);
        lemma_lex_words(s, quotes, e, is_line_break(s[i]), stack);
        lemma_words_concat(seq![t], lex(s, quotes, e, is_line_break(s[i]), stack));
    }
}

/// Every `Word` the tokeniser gives is a word: not empty, and holding no
/// line break, `:`, `=` or space.
pub proof fn lemma_tokens_words(s: Seq<char>, quotes: bool)
    ensures
        words_well_formed(lex(s, quotes, 0, true, Seq::empty())),
{
    lemma_lex_words(s, quotes, 0, true, Seq::empty());
}

} // verus!
