// The tokens handed to the formatter are the comments and string literals
// of each source, as the lexer reports them: a line comment runs to the end
// of its line, a block comment to its closing `*/`.
use reforger_language_server::formatting::{format_comment_region, FormattingEdit};
use reforger_language_server::model::TextSpan;
use reforger_language_server::syntax::{Token, TokenKind};

fn comment_tokens(source: &str) -> Vec<Token> {
    let bytes = source.as_bytes();
    let mut tokens = Vec::new();
    let mut i = 0;
    while i < bytes.len() {
        if bytes[i] == b'"' {
            let start = i;
            i += 1;
            while i < bytes.len() && bytes[i] != b'"' {
                i += 1;
            }
            i = (i + 1).min(bytes.len());
            tokens.push(Token { kind: TokenKind::StringLiteral, span: TextSpan::new(start, i) });
        } else if bytes[i..].starts_with(b"//") {
            let start = i;
            while i < bytes.len() && bytes[i] != b'\n' {
                i += 1;
            }
            let doc = bytes[start..].starts_with(b"//!") || bytes[start..].starts_with(b"///");
            let kind = if doc { TokenKind::DocLineComment } else { TokenKind::LineComment };
            tokens.push(Token { kind, span: TextSpan::new(start, i) });
        } else if bytes[i..].starts_with(b"/*") {
            let start = i;
            i += 2;
            while i < bytes.len() && !bytes[i..].starts_with(b"*/") {
                i += 1;
            }
            i = (i + 2).min(bytes.len());
            let doc = bytes[start..].starts_with(b"/*!") || bytes[start..].starts_with(b"/**");
            let kind = if doc { TokenKind::DocBlockComment } else { TokenKind::BlockComment };
            tokens.push(Token { kind, span: TextSpan::new(start, i) });
        } else {
            i += 1;
        }
    }
    tokens
}

fn selected(source: &str) -> TextSpan {
    TextSpan::new(0, source.len())
}

fn format(source: &str, range: TextSpan) -> Vec<FormattingEdit> {
    format_comment_region(source, range, &comment_tokens(source))
}

fn apply_edits(source: &str, edits: &[FormattingEdit]) -> String {
    let mut formatted = source.to_owned();
    for edit in edits.iter().rev() {
        formatted.replace_range(edit.span.start..edit.span.end, &edit.replacement);
    }
    formatted
}

#[test]
fn normalizes_line_comment_indentation_without_touching_payloads() {
    let source = "\t//! First\n  //! \\param value Input\n\t/// Alternate\n";
    let formatted = apply_edits(source, &format(source, selected(source)));

    assert_eq!(formatted, "\t//! First\n\t//! \\param value Input\n\t/// Alternate\n");
}

#[test]
fn normalizes_block_comment_continuations_and_is_idempotent() {
    let source = "\t/*!\n\t* \\brief Summary\n\t  * \\warning Keep prose\n\t*/\n";
    let formatted = apply_edits(source, &format(source, selected(source)));

    assert_eq!(formatted, "\t/*!\n\t * \\brief Summary\n\t * \\warning Keep prose\n\t */\n");
    assert!(format(&formatted, selected(&formatted)).is_empty());
}

#[test]
fn rejects_code_trailing_comments_partial_tokens_and_non_comment_text() {
    for source in ["Run(); //!< trailing\n", "[Attribute()]\n//! documentation\n", "\"//! string\"\n"] {
        assert!(format(source, selected(source)).is_empty(), "{source:?}");
    }

    let source = "//! documentation\n";
    let partial = TextSpan::new(1, source.len());
    assert!(format(source, partial).is_empty());
}

#[test]
fn preserves_crlf_and_blank_line_group_boundaries() {
    let source = "\t//! First\r\n  //! Second\r\n\r\n  //! Nested\r\n\t//! Nested second\r\n";
    let formatted = apply_edits(source, &format(source, selected(source)));

    assert_eq!(
        formatted,
        "\t//! First\r\n\t//! Second\r\n\r\n  //! Nested\r\n  //! Nested second\r\n"
    );
}

#[test]
fn edits_replace_only_the_indentation() {
    let source = "  // a\n    // b\n";
    let edits = format(source, selected(source));
    assert_eq!(edits.len(), 1);
    assert_eq!(edits[0].span, TextSpan::new(7, 11));
    assert_eq!(edits[0].replacement, "  ");
}

#[test]
fn ranges_off_boundaries_or_empty_are_left_alone() {
    let source = "// é\n";
    assert!(format(source, TextSpan::new(0, 0)).is_empty());
    assert!(format(source, TextSpan::new(0, 4)).is_empty());
    assert!(format(source, TextSpan::new(0, 100)).is_empty());
    assert!(format("", TextSpan::new(0, 0)).is_empty());
}

#[test]
fn a_region_without_comments_is_left_alone() {
    let source = "   \n  \n";
    assert!(format(source, selected(source)).is_empty());
}
