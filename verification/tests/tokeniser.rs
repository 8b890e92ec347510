use lib::tokeniser::Token::{Colon, Dedent, Equals, In, Indent, NewLine, Spaces, With, Word};
use lib::tokeniser::{Token, Tokeniser};

/// The tasks file the tokeniser and parser examples are written against.
pub const EXAMPLE_001: &str = "

simple:
  in app/server:
    cargo install


with-dir:
  in app/server:
    pnpm run build


clean:
  in packages/shared:
    pnpm run clean

  in app/client:
    pnpm run clean

test-create-db:
  createdb test_db && psql -c 'CREATE EXTENSION IF NOT EXISTS vector;'

test-migrate:
  jute test-create-db
  with NODE_ENV=test:
    pnpm exec migrate
";

/// Tokenises a source string, for cases too small to be worth an example file.
fn tokenise(source: &str) -> Vec<Token<'_>> {
    Tokeniser::new(source).collect()
}

#[test]
fn tokenises_example_001() {
    let source = EXAMPLE_001.to_string();

    let tokens: Vec<_> = Tokeniser::new(&source).collect();

    let expected = vec![
        //  1:
        NewLine,
        //  2:
        NewLine,
        //  3: simple:
        Word("simple"), Colon, NewLine,
        //  4:   in app/server:
        Indent, In, Spaces(1), Word("app/server"), Colon, NewLine,
        //  5:     cargo install
        Indent, Word("cargo"), Spaces(1), Word("install"), NewLine,
        //  6:
        NewLine,
        //  7:
        NewLine,
        //  8: with-dir:
        Dedent, Dedent, Word("with-dir"), Colon, NewLine,
        //  9:   in app/server:
        Indent, In, Spaces(1), Word("app/server"), Colon, NewLine,
        // 10:     pnpm run build
        Indent, Word("pnpm"), Spaces(1), Word("run"), Spaces(1), Word("build"), NewLine,
        // 11:
        NewLine,
        // 12:
        NewLine,
        // 13: clean:
        Dedent, Dedent, Word("clean"), Colon, NewLine,
        // 14:   in packages/shared:
        Indent, In, Spaces(1), Word("packages/shared"), Colon, NewLine,
        // 15:     pnpm run clean
        Indent, Word("pnpm"), Spaces(1), Word("run"), Spaces(1), Word("clean"), NewLine,
        // 16:
        NewLine,
        // 17:   in app/client:
        Dedent, In, Spaces(1), Word("app/client"), Colon, NewLine,
        // 18:     pnpm run clean
        Indent, Word("pnpm"), Spaces(1), Word("run"), Spaces(1), Word("clean"), NewLine,
        // 19:
        NewLine,
        // 20: test-create-db:
        Dedent, Dedent, Word("test-create-db"), Colon, NewLine,
        // 21:   createdb test_db && psql -c 'CREATE EXTENSION IF NOT EXISTS vector;'
        Indent, Word("createdb"), Spaces(1), Word("test_db"), Spaces(1), Word("&&"), Spaces(1),
        Word("psql"), Spaces(1), Word("-c"), Spaces(1), Word("'CREATE"), Spaces(1),
        Word("EXTENSION"), Spaces(1), Word("IF"), Spaces(1), Word("NOT"), Spaces(1),
        Word("EXISTS"), Spaces(1), Word("vector;'"), NewLine,
        // 22:
        NewLine,
        // 23: test-migrate:
        Dedent, Word("test-migrate"), Colon, NewLine,
        // 24:   jute test-create-db
        Indent, Word("jute"), Spaces(1), Word("test-create-db"), NewLine,
        // 25:   with NODE_ENV=test:
        With, Spaces(1), Word("NODE_ENV"), Equals, Word("test"), Colon, NewLine,
        // 26:     pnpm exec migrate
        Indent, Word("pnpm"), Spaces(1), Word("exec"), Spaces(1), Word("migrate"), NewLine,
        // end of file: close the two blocks still open
        Dedent, Dedent,
    ];

    assert_eq!(tokens, expected);
}

/// The reason `Spaces` exists: `A=1 B=2` used to tokenise as `A`, `=`,
/// `1 B`, `=`, `2`, which left the parser to work out where one variable
/// ended and the next began.
#[test]
fn a_space_between_env_vars_is_its_own_token() {
    let expected = vec![
        Word("t"), Colon, NewLine,
        Indent, With, Spaces(1), Word("A"), Equals, Word("1"),
        Spaces(1), Word("B"), Equals, Word("2"), Colon, NewLine,
        Indent, Word("echo"), Spaces(1), Word("hi"), NewLine,
        Dedent, Dedent,
    ];

    assert_eq!(tokenise("t:\n  with A=1 B=2:\n    echo hi\n"), expected);
}

/// A run of spaces is one token carrying its width, so a command can be
/// put back together exactly as it was written.
#[test]
fn runs_of_spaces_are_batched_and_keep_their_width() {
    let expected = vec![
        Word("t"), Colon, NewLine,
        Indent, Word("sed"), Spaces(1), Word("'s/a"), Spaces(3), Word("b/c/'"), NewLine,
        Dedent,
    ];

    assert_eq!(tokenise("t:\n  sed 's/a   b/c/'\n"), expected);
}

/// `with` and `in` are matched as whole words, so `with-dir` is a name and
/// a bare `in` is a keyword wherever it appears.
#[test]
fn keywords_are_matched_as_whole_words() {
    let expected = vec![
        Word("with-dir"), Colon, NewLine,
        Indent, Word("for"), Spaces(1), Word("f"), Spaces(1), In, Spaces(1),
        Word("*.txt"), NewLine,
        Dedent,
    ];

    assert_eq!(tokenise("with-dir:\n  for f in *.txt\n"), expected);
}

/// The depth of nesting after each token, and at the end.
fn depths(tokens: &[Token<'_>]) -> Vec<i64> {
    let mut depth = 0;
    tokens
        .iter()
        .map(|t| {
            match t {
                Indent => depth += 1,
                Dedent => depth -= 1,
                _ => {}
            }
            depth
        })
        .collect()
}

#[test]
fn every_block_opened_is_closed_by_the_end_of_the_source() {
    for source in [
        EXAMPLE_001,
        "a:\n  b\n    c\n      d\n",
        "a:\n    deep\n  shallower\nb:\n  x\n",
        "t:\n  with A=1:\n    in x:\n      echo hi\n\n",
        "",
        "\n\n",
    ] {
        let depths = depths(&tokenise(source));

        assert!(depths.iter().all(|d| *d >= 0), "{source:?}");
        assert_eq!(depths.last().copied().unwrap_or(0), 0, "{source:?}");
    }
}

#[test]
fn a_shallower_line_closes_every_deeper_block() {
    assert_eq!(
        tokenise("t:\n  in a:\n    in b:\n      echo x\n  echo y\n"),
        vec![
            Word("t"),
            Colon,
            NewLine,
            Indent,
            In,
            Spaces(1),
            Word("a"),
            Colon,
            NewLine,
            Indent,
            In,
            Spaces(1),
            Word("b"),
            Colon,
            NewLine,
            Indent,
            Word("echo"),
            Spaces(1),
            Word("x"),
            NewLine,
            Dedent,
            Dedent,
            Word("echo"),
            Spaces(1),
            Word("y"),
            NewLine,
            Dedent,
        ]
    );
}

#[test]
fn a_line_between_two_levels_closes_the_deeper_and_stays_in_the_outer() {
    assert_eq!(
        tokenise("a:\n  b\n      c\n    d\n"),
        vec![
            Word("a"),
            Colon,
            NewLine,
            Indent,
            Word("b"),
            NewLine,
            Indent,
            Word("c"),
            NewLine,
            Dedent,
            Word("d"),
            NewLine,
            Dedent,
        ]
    );
}

#[test]
fn quoted_strings_are_only_read_when_asked_for() {
    let plain: Vec<Token<'_>> = Tokeniser::new("echo 'a b'\n").collect();
    let quoted: Vec<Token<'_>> = Tokeniser::new_with_quoted_strings("echo 'a b'\n").collect();

    assert_eq!(
        plain,
        vec![Word("echo"), Spaces(1), Word("'a"), Spaces(1), Word("b'"), NewLine]
    );
    assert_eq!(
        quoted,
        vec![
            Word("echo"),
            Spaces(1),
            Token::SingleQuotedString(std::borrow::Cow::Borrowed("a b")),
            NewLine
        ]
    );
}
