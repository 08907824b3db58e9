//! Explicit formatting of a comment-only region: the indentation of each
//! comment line is made that of the first line of its group, with block
//! comment continuations (`*`) one space further in.  The region's tokens
//! come from the lexer; only the comments among them matter here.
use vstd::prelude::*;
use crate::analysis_runtime::utf8_len;
use crate::index_build::{char_start, lemma_char_start_encoded};
use crate::model::TextSpan;
use crate::syntax::{Token, TokenKind};
use crate::text::{chars_eq, chars_of, exec_is_whitespace, is_whitespace, string_from_chars};
use vstd::utf8::{encode_utf8, is_char_boundary};

verus! {

broadcast use vstd::utf8::encode_utf8_valid_utf8;

/// Replace the bytes of `span` by `replacement`.
#[derive(Debug, Clone, PartialEq, Eq)]
pub struct FormattingEdit {
    pub span: TextSpan,
    pub replacement: String,
}

// ---------------------------------------------------------------------------
// Characters and their byte offsets

proof fn lemma_char_start_shift(chars: Seq<char>, k: int)
    requires
        0 <= k < chars.len(),
    ensures
        char_start(chars, k + 1) == utf8_len(chars[0]) + char_start(chars.drop_first(), k),
    decreases k,
{
    if k > 0 {
        lemma_char_start_shift(chars, k - 1);
        assert(chars.drop_first()[k - 1] == chars[k]);
    } else {
        assert(char_start(chars, 0) == 0);
        assert(char_start(chars.drop_first(), 0) == 0);
    }
}

/// Byte offsets grow with the characters.
pub(crate) proof fn lemma_char_start_grows(chars: Seq<char>, a: int, b: int)
    requires
        0 <= a <= b,
    ensures
        char_start(chars, a) + (b - a) <= char_start(chars, b),
    decreases b - a,
{
    if a < b {
        lemma_char_start_grows(chars, a, b - 1);
    }
}

/// Each character boundary of the text is where some character starts, or
/// its end.
pub(crate) proof fn lemma_boundary_is_char_start(chars: Seq<char>, off: int)
    requires
        0 <= off,
        is_char_boundary(encode_utf8(chars), off),
    ensures
        exists|k: int| 0 <= k <= chars.len() && char_start(chars, k) == off,
    decreases chars.len(),
{
    if off == 0 {
        assert(char_start(chars, 0) == 0);
    } else {
        let bytes = encode_utf8(chars);
        if chars.len() == 0 {
            assert(bytes.len() == 0);
        } else {
            vstd::utf8::encode_utf8_first_scalar(chars);
            assert(vstd::utf8::pop_first_scalar(bytes) =~= encode_utf8(chars.drop_first()));
            vstd::utf8::char_is_scalar(chars[0]);
            let w = vstd::utf8::length_of_first_scalar(bytes);
            assert(w == utf8_len(chars[0]));
            assert(vstd::utf8::valid_utf8(bytes));
            assert(is_char_boundary(vstd::utf8::pop_first_scalar(bytes), off - w));
            assert(off - w >= 0);
            lemma_boundary_is_char_start(chars.drop_first(), off - w);
            let k = choose|k: int| 0 <= k <= chars.drop_first().len() && char_start(chars.drop_first(), k) == off - w;
            lemma_char_start_shift(chars, k);
        }
    }
}

/// The byte offsets at which the characters start, and the end.
pub(crate) fn char_offsets(chars: &Vec<char>, byte_len: usize) -> (r: Vec<usize>)
    requires
        byte_len == encode_utf8(chars@).len(),
    ensures
        r@.len() == chars@.len() + 1,
        forall|k: int| 0 <= k <= chars@.len() ==> #[trigger] r@[k] == char_start(chars@, k),
{
    let mut r: Vec<usize> = Vec::new();
    r.push(0);
    let mut offset: usize = 0;
    let mut k: usize = 0;
    while k < chars.len()
        invariant
            k <= chars@.len(),
            byte_len == encode_utf8(chars@).len(),
            r@.len() == k + 1,
            offset == char_start(chars@, k as int),
            forall|j: int| 0 <= j <= k ==> #[trigger] r@[j] == char_start(chars@, j),
        decreases chars@.len() - k,
    {
        proof {
            lemma_char_start_encoded(chars@, k + 1);
        }
        let c = chars[k];
        let width: usize = if (c as u32) < 0x80 {
            1
        } else if (c as u32) < 0x800 {
            2
        } else if (c as u32) < 0x10000 {
            3
        } else {
            4
        };
        offset = offset + width;
        r.push(offset);
        k = k + 1;
    }
    r
}

/// The index of the character starting at byte `off`, a boundary.
pub(crate) fn char_index_of(chars: &Vec<char>, offsets: &Vec<usize>, off: usize) -> (r: usize)
    requires
        offsets@.len() == chars@.len() + 1,
        forall|k: int| 0 <= k <= chars@.len() ==> #[trigger] offsets@[k] == char_start(chars@, k),
        is_char_boundary(encode_utf8(chars@), off as int),
    ensures
        r <= chars@.len(),
        char_start(chars@, r as int) == off,
{
    proof {
        lemma_boundary_is_char_start(chars@, off as int);
    }
    let mut k: usize = 0;
    while k < offsets.len()
        invariant
            k <= offsets@.len(),
            offsets@.len() == chars@.len() + 1,
            forall|j: int| 0 <= j <= chars@.len() ==> #[trigger] offsets@[j] == char_start(chars@, j),
            exists|j: int| k <= j <= chars@.len() && char_start(chars@, j) == off,
        decreases offsets@.len() - k,
    {
        if offsets[k] == off {
            return k;
        }
        proof {
            let j = choose|j: int| k <= j <= chars@.len() && char_start(chars@, j) == off;
            assert(j != k);
        }
        k = k + 1;
    }
    proof {
        let j = choose|j: int| k <= j <= chars@.len() && char_start(chars@, j) == off;
    }
    0
}

// ---------------------------------------------------------------------------
// Lines of the region

/// The start of the line holding character `k`: just after the last line
/// feed before it.
pub open spec fn line_start_before(chars: Seq<char>, k: int) -> int
    decreases k,
{
    if k <= 0 {
        0
    } else if chars[k - 1] == '\n' {
        k
    } else {
        line_start_before(chars, k - 1)
    }
}

/// The first line feed at or after `k` and before `e`, else `e`.
pub open spec fn newline_from(chars: Seq<char>, k: int, e: int) -> int
    decreases e - k,
{
    if k >= e {
        e
    } else if chars[k] == '\n' {
        k
    } else {
        newline_from(chars, k + 1, e)
    }
}

pub proof fn lemma_newline_from(chars: Seq<char>, k: int, e: int)
    requires
        k <= e,
    ensures
        k <= newline_from(chars, k, e) <= e,
        forall|j: int| k <= j < newline_from(chars, k, e) ==> chars[j] != '\n',
        newline_from(chars, k, e) < e ==> chars[newline_from(chars, k, e)] == '\n',
    decreases e - k,
{
    if k < e && chars[k] != '\n' {
        lemma_newline_from(chars, k + 1, e);
    }
}

/// The lines of characters `a..e` as character ranges, split at line
/// feeds, each without a final carriage return.
pub open spec fn line_spans(chars: Seq<char>, a: int, e: int) -> Seq<(int, int)>
    decreases e - a,
{
    let j = newline_from(chars, a, e);
    let content_end = if j > a && chars[j - 1] == '\r' {
        j - 1
    } else {
        j
    };
    if a >= e || j >= e {
        seq![(a, content_end)]
    } else {
        proof {
            lemma_newline_from(chars, a, e);
        }
        seq![(a, content_end)] + line_spans(chars, j + 1, e)
    }
}

/// The whole lines that the characters `ks..ke` touch.
pub open spec fn selected_lines(chars: Seq<char>, ks: int, ke: int) -> Seq<(int, int)> {
    line_spans(chars, line_start_before(chars, ks), newline_from(chars, ke, chars.len() as int))
}

fn find_line_start(chars: &Vec<char>, k: usize) -> (r: usize)
    requires
        k <= chars@.len(),
    ensures
        r == line_start_before(chars@, k as int),
{
    let mut i: usize = k;
    while i > 0 && chars[i - 1] != '\n'
        invariant
            i <= k <= chars@.len(),
            line_start_before(chars@, i as int) == line_start_before(chars@, k as int),
        decreases i,
    {
        i = i - 1;
    }
    i
}

fn find_newline(chars: &Vec<char>, k: usize, e: usize) -> (r: usize)
    requires
        k <= e <= chars@.len(),
    ensures
        r == newline_from(chars@, k as int, e as int),
{
    let mut i: usize = k;
    while i < e && chars[i] != '\n'
        invariant
            k <= i <= e <= chars@.len(),
            newline_from(chars@, i as int, e as int) == newline_from(chars@, k as int, e as int),
        decreases e - i,
    {
        i = i + 1;
    }
    i
}

fn collect_lines(chars: &Vec<char>, start: usize, end: usize) -> (r: Vec<(usize, usize)>)
    requires
        start <= end <= chars@.len(),
    ensures
        r@.map_values(|l: (usize, usize)| (l.0 as int, l.1 as int)) == line_spans(chars@, start as int, end as int),
        forall|i: int| 0 <= i < r@.len() ==> start <= (#[trigger] r@[i]).0 <= r@[i].1 <= end,
{
    let mut lines: Vec<(usize, usize)> = Vec::new();
    let mut a: usize = start;
    loop
        invariant
            start <= a <= end <= chars@.len(),
            line_spans(chars@, start as int, end as int) == lines@.map_values(
                |l: (usize, usize)| (l.0 as int, l.1 as int),
            ) + line_spans(chars@, a as int, end as int),
            forall|i: int| 0 <= i < lines@.len() ==> start <= (#[trigger] lines@[i]).0 <= lines@[i].1 <= end,
        decreases end - a,
    {
        let j = find_newline(chars, a, end);
        proof {
            lemma_newline_from(chars@, a as int, end as int);
        }
        let content_end = if j > a && chars[j - 1] == '\r' {
            j - 1
        } else {
            j
        };
        let ghost before = lines@;
        lines.push((a, content_end));
        assert(lines@.map_values(|l: (usize, usize)| (l.0 as int, l.1 as int)) =~= before.map_values(
            |l: (usize, usize)| (l.0 as int, l.1 as int),
        ).push((a as int, content_end as int)));
        if j >= end {
            assert(line_spans(chars@, a as int, end as int) == seq![(a as int, content_end as int)]);
            assert(line_spans(chars@, start as int, end as int) =~= lines@.map_values(
                |l: (usize, usize)| (l.0 as int, l.1 as int),
            ));
            return lines;
        }
        assert(line_spans(chars@, a as int, end as int) == seq![(a as int, content_end as int)] + line_spans(
            chars@,
            j + 1,
            end as int,
        ));
        assert(line_spans(chars@, start as int, end as int) =~= lines@.map_values(
            |l: (usize, usize)| (l.0 as int, l.1 as int),
        ) + line_spans(chars@, j + 1, end as int));
        a = j + 1;
    }
}

// ---------------------------------------------------------------------------
// Comments

pub open spec fn is_comment(kind: TokenKind) -> bool {
    kind == TokenKind::LineComment || kind == TokenKind::DocLineComment || kind == TokenKind::BlockComment
        || kind == TokenKind::DocBlockComment
}

fn is_comment_kind(kind: TokenKind) -> (r: bool)
    ensures
        r == is_comment(kind),
{
    match kind {
        TokenKind::LineComment | TokenKind::DocLineComment | TokenKind::BlockComment | TokenKind::DocBlockComment => true,
        _ => false,
    }
}

/// The comment tokens among `tokens`, in order.
pub open spec fn comment_tokens(tokens: Seq<Token>) -> Seq<Token>
    decreases tokens.len(),
{
    if tokens.len() == 0 {
        Seq::empty()
    } else if is_comment(tokens.last().kind) {
        comment_tokens(tokens.drop_last()).push(tokens.last())
    } else {
        comment_tokens(tokens.drop_last())
    }
}

pub open spec fn overlaps(left: TextSpan, right: TextSpan) -> bool {
    left.start < right.end && right.start < left.end
}

pub open spec fn span_within(outer: TextSpan, inner: TextSpan) -> bool {
    outer.start <= inner.start && inner.end <= outer.end
}

/// Byte `off` lies inside one of the comments.
pub open spec fn covered(comments: Seq<Token>, off: int) -> bool {
    exists|i: int| 0 <= i < comments.len() && #[trigger] comments[i].span.start <= off < comments[i].span.end
}

/// The line holds only whitespace.
pub open spec fn blank(chars: Seq<char>, line: (int, int)) -> bool {
    forall|k: int| line.0 <= k < line.1 ==> is_whitespace(#[trigger] chars[k])
}

/// Every character of the line is whitespace or inside a comment.
pub open spec fn comment_only(chars: Seq<char>, line: (int, int), comments: Seq<Token>) -> bool {
    forall|k: int| line.0 <= k < line.1 ==> is_whitespace(#[trigger] chars[k]) || covered(comments, char_start(chars, k))
}

/// The region is left alone: it has no comment, cuts through a comment, or
/// has a line with something besides comments and whitespace.
pub open spec fn refused(chars: Seq<char>, range: TextSpan, comments: Seq<Token>, lines: Seq<(int, int)>) -> bool {
    ||| lines.len() == 0
    ||| comments.len() == 0
    ||| exists|i: int| 0 <= i < comments.len() && overlaps(#[trigger] comments[i].span, range) && !span_within(
        range,
        comments[i].span,
    )
    ||| exists|j: int| 0 <= j < lines.len() && !blank(chars, #[trigger] lines[j]) && !comment_only(chars, lines[j], comments)
}

fn comments_of(tokens: &[Token]) -> (r: Vec<Token>)
    ensures
        r@ == comment_tokens(tokens@),
{
    let mut r: Vec<Token> = Vec::new();
    let mut i: usize = 0;
    while i < tokens.len()
        invariant
            i <= tokens@.len(),
            r@ == comment_tokens(tokens@.take(i as int)),
        decreases tokens@.len() - i,
    {
        assert(tokens@.take(i + 1).drop_last() =~= tokens@.take(i as int));
        if is_comment_kind(tokens[i].kind) {
            r.push(tokens[i]);
        }
        i = i + 1;
    }
    assert(tokens@.take(i as int) =~= tokens@);
    r
}

fn is_covered(comments: &Vec<Token>, off: usize) -> (r: bool)
    ensures
        r == covered(comments@, off as int),
{
    let mut i: usize = 0;
    while i < comments.len()
        invariant
            i <= comments@.len(),
            forall|j: int| 0 <= j < i ==> !(#[trigger] comments@[j].span.start <= off < comments@[j].span.end),
        decreases comments@.len() - i,
    {
        if comments[i].span.start <= off && off < comments[i].span.end {
            return true;
        }
        i = i + 1;
    }
    false
}

fn cuts_a_comment(comments: &Vec<Token>, range: TextSpan) -> (r: bool)
    ensures
        r == exists|i: int| 0 <= i < comments@.len() && overlaps(#[trigger] comments@[i].span, range) && !span_within(
            range,
            comments@[i].span,
        ),
{
    let mut i: usize = 0;
    while i < comments.len()
        invariant
            i <= comments@.len(),
            forall|j: int| 0 <= j < i ==> !(overlaps(#[trigger] comments@[j].span, range) && !span_within(range, comments@[j].span)),
        decreases comments@.len() - i,
    {
        let span = comments[i].span;
        if span.start < range.end && range.start < span.end && !(range.start <= span.start && span.end <= range.end) {
            return true;
        }
        i = i + 1;
    }
    false
}

fn is_blank(chars: &Vec<char>, line: (usize, usize)) -> (r: bool)
    requires
        line.1 <= chars@.len(),
    ensures
        r == blank(chars@, (line.0 as int, line.1 as int)),
{
    let mut k: usize = line.0;
    while k < line.1
        invariant
            line.0 <= k,
            line.1 <= chars@.len(),
            forall|j: int| line.0 <= j < k && j < line.1 ==> is_whitespace(#[trigger] chars@[j]),
        decreases line.1 - k,
    {
        if !exec_is_whitespace(chars[k]) {
            assert(line.0 <= k < line.1 && !is_whitespace(chars@[k as int]));
            return false;
        }
        k = k + 1;
    }
    true
}

fn is_comment_only(chars: &Vec<char>, offsets: &Vec<usize>, line: (usize, usize), comments: &Vec<Token>) -> (r: bool)
    requires
        line.1 <= chars@.len(),
        offsets@.len() == chars@.len() + 1,
        forall|k: int| 0 <= k <= chars@.len() ==> #[trigger] offsets@[k] == char_start(chars@, k),
    ensures
        r == comment_only(chars@, (line.0 as int, line.1 as int), comments@),
{
    let mut k: usize = line.0;
    while k < line.1
        invariant
            line.0 <= k,
            line.1 <= chars@.len(),
            offsets@.len() == chars@.len() + 1,
            forall|j: int| 0 <= j <= chars@.len() ==> #[trigger] offsets@[j] == char_start(chars@, j),
            forall|j: int| line.0 <= j < k && j < line.1 ==> is_whitespace(#[trigger] chars@[j]) || covered(
                comments@,
                char_start(chars@, j),
            ),
        decreases line.1 - k,
    {
        if !exec_is_whitespace(chars[k]) && !is_covered(comments, offsets[k]) {
            assert(offsets@[k as int] == char_start(chars@, k as int));
            assert(line.0 <= k < line.1 && !is_whitespace(chars@[k as int]) && !covered(comments@, char_start(chars@, k as int)));
            return false;
        }
        k = k + 1;
    }
    true
}

// ---------------------------------------------------------------------------
// Edits

/// The number of spaces and tabs that start the characters `a..b`.
pub open spec fn indent_len(chars: Seq<char>, a: int, b: int) -> int
    decreases b - a,
{
    if a < b && (chars[a] == ' ' || chars[a] == '\t') {
        1 + indent_len(chars, a + 1, b)
    } else {
        0
    }
}

proof fn lemma_indent_len(chars: Seq<char>, a: int, b: int)
    ensures
        0 <= indent_len(chars, a, b),
        a <= b ==> a + indent_len(chars, a, b) <= b,
        forall|k: int| a <= k < a + indent_len(chars, a, b) ==> #[trigger] chars[k] == ' ' || chars[k] == '\t',
        a + indent_len(chars, a, b) < b ==> !(chars[a + indent_len(chars, a, b)] == ' ' || chars[a + indent_len(
            chars,
            a,
            b,
        )] == '\t'),
    decreases b - a,
{
    if a < b && (chars[a] == ' ' || chars[a] == '\t') {
        lemma_indent_len(chars, a + 1, b);
    }
}

/// The edits for `lines[i..]`, with `group` the indentation of the first
/// line of the current group of comment lines, if one has started.  A
/// blank line ends a group; the first line of a group keeps its
/// indentation; each further line gets the group's, one space more when
/// it continues a block comment with `*`.  Lines already indented so get
/// no edit.
pub open spec fn edits_from(
    chars: Seq<char>,
    lines: Seq<(int, int)>,
    i: int,
    group: Option<Seq<char>>,
) -> Seq<(TextSpan, Seq<char>)>
    decreases lines.len() - i,
{
    if i < 0 || i >= lines.len() {
        Seq::empty()
    } else {
        let line = lines[i];
        if blank(chars, line) {
            edits_from(chars, lines, i + 1, None)
        } else {
            let m = indent_len(chars, line.0, line.1);
            let indent = chars.subrange(line.0, line.0 + m);
            match group {
                None => edits_from(chars, lines, i + 1, Some(indent)),
                Some(base) => {
                    let replacement = if line.0 + m < line.1 && chars[line.0 + m] == '*' {
                        base.push(' ')
                    } else {
                        base
                    };
                    let start = char_start(chars, line.0);
                    let here = if indent != replacement {
                        seq![(TextSpan { start: start as usize, end: (start + m) as usize }, replacement)]
                    } else {
                        Seq::empty()
                    };
                    here + edits_from(chars, lines, i + 1, group)
                },
            }
        }
    }
}

pub open spec fn edit_views(edits: Seq<FormattingEdit>) -> Seq<(TextSpan, Seq<char>)> {
    edits.map_values(|e: FormattingEdit| (e.span, e.replacement@))
}

/// The edits that normalize the indentation of the comment-only region
/// `range` of `source`: none when the range is empty, outside the text,
/// not on character boundaries, or refused.
pub open spec fn spec_format_comment_region(source: Seq<char>, range: TextSpan, tokens: Seq<Token>) -> Seq<
    (TextSpan, Seq<char>),
> {
    let bytes = encode_utf8(source);
    if range.start >= range.end || range.end > bytes.len() || !is_char_boundary(bytes, range.start as int)
        || !is_char_boundary(bytes, range.end as int) {
        Seq::empty()
    } else {
        let ks = choose|k: int| 0 <= k <= source.len() && char_start(source, k) == range.start;
        let ke = choose|k: int| 0 <= k <= source.len() && char_start(source, k) == range.end;
        let lines = selected_lines(source, ks, ke);
        let comments = comment_tokens(tokens);
        if refused(source, range, comments, lines) {
            Seq::empty()
        } else {
            edits_from(source, lines, 0, None)
        }
    }
}

/// Only one character starts at a byte offset.
pub(crate) proof fn lemma_char_start_unique(chars: Seq<char>, a: int, b: int)
    requires
        0 <= a,
        0 <= b,
        char_start(chars, a) == char_start(chars, b),
    ensures
        a == b,
{
    if a < b {
        lemma_char_start_grows(chars, a, b);
    } else if b < a {
        lemma_char_start_grows(chars, b, a);
    }
}

fn group_view(group: &Option<Vec<char>>) -> (r: Ghost<Option<Seq<char>>>)
    ensures
        r@ == match group {
            Some(g) => Some(g@),
            None => None,
        },
{
    Ghost(
        match group {
            Some(g) => Some(g@),
            None => None,
        },
    )
}

/// Normalizes the indentation of one explicit comment-only region of
/// `source`, whose tokens are `tokens`.
pub fn format_comment_region(source: &str, range: TextSpan, tokens: &[Token]) -> (r: Vec<FormattingEdit>)
    ensures
        edit_views(r@) == spec_format_comment_region(source@, range, tokens@),
{
    let byte_len = source.as_bytes().len();
    if range.start >= range.end || range.end > byte_len || !source.is_char_boundary(range.start)
        || !source.is_char_boundary(range.end) {
        let none: Vec<FormattingEdit> = Vec::new();
        assert(edit_views(none@) =~= Seq::<(TextSpan, Seq<char>)>::empty());
        return none;
    }
    let chars = chars_of(source);
    let offsets = char_offsets(&chars, byte_len);
    let ks = char_index_of(&chars, &offsets, range.start);
    let ke = char_index_of(&chars, &offsets, range.end);
    let ghost cks = choose|k: int| 0 <= k <= source@.len() && char_start(source@, k) == range.start;
    let ghost cke = choose|k: int| 0 <= k <= source@.len() && char_start(source@, k) == range.end;
    proof {
        lemma_char_start_unique(chars@, ks as int, cks);
        lemma_char_start_unique(chars@, ke as int, cke);
    }
    let n = chars.len();
    let start = find_line_start(&chars, ks);
    let end = find_newline(&chars, ke, n);
    proof {
        lemma_newline_from(chars@, ke as int, n as int);
        assert(start <= ks) by {
            lemma_line_start_before(chars@, ks as int);
        }
        if range.start < range.end {
            if ke < ks {
                lemma_char_start_grows(chars@, ke as int, ks as int);
            }
        }
    }
    let lines = collect_lines(&chars, start, end);
    let ghost line_views = lines@.map_values(|l: (usize, usize)| (l.0 as int, l.1 as int));
    let comments = comments_of(tokens);
    let empty: Vec<FormattingEdit> = Vec::new();
    assert(edit_views(empty@) =~= Seq::<(TextSpan, Seq<char>)>::empty());
    if lines.len() == 0 || comments.len() == 0 || cuts_a_comment(&comments, range) {
        return empty;
    }
    let ghost expected = if refused(chars@, range, comments@, line_views) {
        Seq::<(TextSpan, Seq<char>)>::empty()
    } else {
        edits_from(chars@, line_views, 0, None)
    };
    assert(spec_format_comment_region(source@, range, tokens@) == expected);
    let mut j: usize = 0;
    while j < lines.len()
        invariant
            spec_format_comment_region(source@, range, tokens@) == expected,
            expected == if refused(chars@, range, comments@, line_views) {
                Seq::<(TextSpan, Seq<char>)>::empty()
            } else {
                edits_from(chars@, line_views, 0, None)
            },
            edit_views(empty@) == Seq::<(TextSpan, Seq<char>)>::empty(),
            j <= lines@.len(),
            line_views == lines@.map_values(|l: (usize, usize)| (l.0 as int, l.1 as int)),
            forall|i: int| 0 <= i < lines@.len() ==> (#[trigger] lines@[i]).1 <= chars@.len(),
            offsets@.len() == chars@.len() + 1,
            forall|k: int| 0 <= k <= chars@.len() ==> #[trigger] offsets@[k] == char_start(chars@, k),
            forall|i: int| 0 <= i < j ==> blank(chars@, #[trigger] line_views[i]) || comment_only(chars@, line_views[i], comments@),
        decreases lines@.len() - j,
    {
        let line = lines[j];
        if !is_blank(&chars, line) && !is_comment_only(&chars, &offsets, line, &comments) {
            assert(line_views[j as int] == (line.0 as int, line.1 as int));
            return empty;
        }
        j = j + 1;
    }
    assert(!refused(chars@, range, comments@, line_views));
    let mut edits: Vec<FormattingEdit> = Vec::new();
    let mut group: Option<Vec<char>> = None;
    let mut i: usize = 0;
    proof {
        lemma_char_start_encoded(chars@, chars@.len() as int);
        assert(chars@.take(chars@.len() as int) =~= chars@);
    }
    while i < lines.len()
        invariant
            i <= lines@.len(),
            line_views == lines@.map_values(|l: (usize, usize)| (l.0 as int, l.1 as int)),
            forall|q: int| 0 <= q < lines@.len() ==> (#[trigger] lines@[q]).0 <= lines@[q].1 <= chars@.len(),
            offsets@.len() == chars@.len() + 1,
            forall|k: int| 0 <= k <= chars@.len() ==> #[trigger] offsets@[k] == char_start(chars@, k),
            char_start(chars@, chars@.len() as int) <= usize::MAX,
            edits_from(chars@, line_views, 0, None) == edit_views(edits@) + edits_from(
                chars@,
                line_views,
                i as int,
                match group {
                    Some(g) => Some(g@),
                    None => None,
                },
            ),
        decreases lines@.len() - i,
    {
        let line = lines[i];
        let g = group_view(&group);
        assert(line_views[i as int] == (line.0 as int, line.1 as int));
        if is_blank(&chars, line) {
            group = None;
        } else {
            let mut m: usize = 0;
            while line.0 + m < line.1 && (chars[line.0 + m] == ' ' || chars[line.0 + m] == '\t')
                invariant
                    line.0 + m <= line.1 <= chars@.len(),
                    indent_len(chars@, line.0 as int, line.1 as int) == m + indent_len(
                        chars@,
                        line.0 + m,
                        line.1 as int,
                    ),
                decreases line.1 - (line.0 + m),
            {
                m = m + 1;
            }
            let indent = chars_range(&chars, line.0, line.0 + m);
            match &group {
                None => {
                    group = Some(indent);
                },
                Some(base) => {
                    let mut replacement = base.clone();
                    assert(replacement@ == base@);
                    if line.0 + m < line.1 && chars[line.0 + m] == '*' {
                        replacement.push(' ');
                    }
                    let start = offsets[line.0];
                    proof {
                        lemma_char_start_grows(chars@, line.0 as int, line.0 + m);
                        lemma_char_start_grows(chars@, line.0 + m, chars@.len() as int);
                    }
                    if !chars_eq(indent.as_slice(), replacement.as_slice()) {
                        let ghost before = edits@;
                        edits.push(
                            FormattingEdit {
                                span: TextSpan { start, end: start + m },
                                replacement: string_from_chars(replacement.as_slice()),
                            },
                        );
                        assert(edit_views(edits@) =~= edit_views(before).push(
                            (TextSpan { start, end: (start + m) as usize }, replacement@),
                        ));
                    }
                },
            }
        }
        i = i + 1;
    }
    edits
}

proof fn lemma_line_start_before(chars: Seq<char>, k: int)
    requires
        0 <= k,
    ensures
        0 <= line_start_before(chars, k) <= k,
    decreases k,
{
    if k > 0 && chars[k - 1] != '\n' {
        lemma_line_start_before(chars, k - 1);
    }
}

fn chars_range(chars: &Vec<char>, a: usize, b: usize) -> (r: Vec<char>)
    requires
        a <= b <= chars@.len(),
    ensures
        r@ == chars@.subrange(a as int, b as int),
{
    let mut r: Vec<char> = Vec::new();
    let mut k: usize = a;
    while k < b
        invariant
            a <= k <= b <= chars@.len(),
            r@ == chars@.subrange(a as int, k as int),
        decreases b - k,
    {
        r.push(chars[k]);
        assert(chars@.subrange(a as int, k + 1) =~= chars@.subrange(a as int, k as int).push(chars@[k as int]));
        k = k + 1;
    }
    r
}

} // verus!
