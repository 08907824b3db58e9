//! Bookkeeping of an index build: the roots and control of a build, the
//! counts it reports per source kind, and the details (position and source
//! snippet) of lossy decodes and parse diagnostics.
//!
//! Walking directories, reading files and timing the phases is the caller's
//! part; everything here works on values.
use vstd::prelude::*;
use crate::addon_sources::{lines_of, strip_cr, lemma_first_index_bound};
use crate::analysis_runtime::utf8_len;
use crate::declarators::lemma_encode_concat;
use vstd::utf8::encode_utf8;
use crate::expression_type::{find_char, first_index_of, sub_chars};
use crate::model::{SourceKind, TextSpan};
use crate::syntax::ParseDiagnostic;
use std::sync::atomic::AtomicBool;
use std::sync::Arc;
use std::time::Duration;
use crate::text::{chars_of, decimal, push_decimal, str_eq, string_push, string_push_str, to_owned_string};

verus! {

/// The error of a build that was cancelled.
pub const INDEX_BUILD_CANCELLED: &'static str = "index build cancelled";

/// At most this many lossy decodes are described.
pub const MAX_RECORDED_LOSSY_FILES: usize = 50;

/// Parse diagnostics are described for at most this many files.
pub const MAX_RECORDED_DIAGNOSTIC_FILES: usize = 100;

/// At most this many diagnostics are described per file.
pub const MAX_RECORDED_DIAGNOSTICS_PER_FILE: usize = 3;

/// Lines shown before and after the line of interest in a snippet.
pub const SNIPPET_CONTEXT_LINES: usize = 2;

// ---------------------------------------------------------------------------
// Lines and columns

/// The (line, column) reached scanning from character `k` (at byte `pos`)
/// while characters start before byte `offset`: a line feed starts a new
/// line at column 1, any other character moves one column.
pub open spec fn line_column_from(chars: Seq<char>, k: int, offset: int, pos: int, line: int, column: int) -> (int, int)
    decreases chars.len() - k,
{
    if k >= chars.len() || k < 0 || pos >= offset {
        (line, column)
    } else if chars[k] == '\n' {
        line_column_from(chars, k + 1, offset, pos + utf8_len(chars[k]), line + 1, 1)
    } else {
        line_column_from(chars, k + 1, offset, pos + utf8_len(chars[k]), line, column + 1)
    }
}

/// The 1-based line and column of byte `offset` of `source`, counting
/// columns in characters.
pub open spec fn spec_line_column(source: Seq<char>, offset: int) -> (int, int) {
    line_column_from(source, 0, offset, 0, 1, 1)
}

fn char_width(c: char) -> (n: u128)
    ensures
        n == utf8_len(c),
{
    let v = c as u32;
    if v < 0x80 {
        1
    } else if v < 0x800 {
        2
    } else if v < 0x10000 {
        3
    } else {
        4
    }
}

pub fn line_column(source: &str, offset: usize) -> (r: (usize, usize))
    requires
        source@.len() < usize::MAX,
    ensures
        (r.0 as int, r.1 as int) == spec_line_column(source@, offset as int),
        1 <= r.0 <= source@.len() + 1,
{
    let chars = chars_of(source);
    let mut line: usize = 1;
    let mut column: usize = 1;
    let mut pos: u128 = 0;
    let mut k: usize = 0;
    while k < chars.len() && pos < offset as u128
        invariant
            k <= chars@.len(),
            chars@ == source@,
            chars@.len() < usize::MAX,
            1 <= line <= k + 1,
            column <= k + 1,
            line_column_from(chars@, k as int, offset as int, pos as int, line as int, column as int)
                == spec_line_column(source@, offset as int),
        decreases chars@.len() - k,
    {
        let c = chars[k];
        if c == '\n' {
            line = line + 1;
            column = 1;
        } else {
            column = column + 1;
        }
        pos = pos + char_width(c);
        k = k + 1;
    }
    (line, column)
}

// ---------------------------------------------------------------------------
// Snippets

pub open spec fn replacement_label() -> Seq<char> {
    seq!['<', 'U', '+', 'F', 'F', 'F', 'D', '>']
}

/// One character of a snippet line as shown: a tab as four spaces, the
/// replacement character as `<U+FFFD>`.
pub open spec fn render_char(c: char) -> Seq<char> {
    if c == '\t' {
        seq![' ', ' ', ' ', ' ']
    } else if c == '\u{FFFD}' {
        replacement_label()
    } else {
        seq![c]
    }
}

/// A line as shown in a snippet.
pub open spec fn render_line(line: Seq<char>) -> Seq<char>
    decreases line.len(),
{
    if line.len() == 0 {
        Seq::empty()
    } else {
        render_line(line.drop_last()) + render_char(line.last())
    }
}

fn push_rendered(out: &mut String, line: &[char])
    ensures
        final(out)@ == old(out)@ + render_line(line@),
{
    let ghost start = old(out)@;
    let mut i: usize = 0;
    while i < line.len()
        invariant
            i <= line@.len(),
            out@ == start + render_line(line@.take(i as int)),
        decreases line@.len() - i,
    {
        let c = line[i];
        assert(line@.take(i + 1).drop_last() =~= line@.take(i as int));
        if c == '\t' {
            string_push_str(out, "    ");
            proof {
                reveal_strlit("    ");
            }
        } else if c == '\u{FFFD}' {
            string_push_str(out, "<U+FFFD>");
            proof {
                reveal_strlit("<U+FFFD>");
            }
        } else {
            string_push(out, c);
        }
        assert(out@ =~= start + render_line(line@.take(i + 1)));
        i = i + 1;
    }
    assert(line@.take(i as int) =~= line@);
}

/// `text` right-aligned in a field of `width` characters.
pub open spec fn right_aligned(text: Seq<char>, width: nat) -> Seq<char> {
    if text.len() < width {
        Seq::new((width - text.len()) as nat, |_i: int| ' ') + text
    } else {
        text
    }
}

/// `{marker} {number:>5} | {line}\n` for line `index` (0-based), marked
/// `>` when it is the line of interest.
pub open spec fn snippet_line(index: int, line: int, text: Seq<char>) -> Seq<char> {
    seq![if index + 1 == line { '>' } else { ' ' }, ' '] + right_aligned(decimal((index + 1) as nat), 5) + seq![
        ' ',
        '|',
        ' ',
    ] + render_line(text) + seq!['\n']
}

/// The snippet lines `start..end`.
pub open spec fn snippet_lines(lines: Seq<Seq<char>>, line: int, start: int, end: int) -> Seq<char>
    decreases end - start,
{
    if start >= end {
        Seq::empty()
    } else {
        snippet_lines(lines, line, start, end - 1) + snippet_line(end - 1, line, lines[end - 1])
    }
}

/// The lines around `line` (1-based): two before and two after, clipped to
/// the text; `<empty file>` for a text without lines.
pub open spec fn spec_source_snippet(source: Seq<char>, line: int) -> Seq<char> {
    let lines = lines_of(source);
    if lines.len() == 0 {
        seq!['<', 'e', 'm', 'p', 't', 'y', ' ', 'f', 'i', 'l', 'e', '>', '\n']
    } else {
        let start = if line >= 3 { line - 3 } else { 0 };
        let end = if line + 2 < lines.len() { line + 2 } else { lines.len() as int };
        snippet_lines(lines, line, start, end)
    }
}

fn push_right_aligned_number(out: &mut String, n: usize)
    ensures
        final(out)@ == old(out)@ + right_aligned(decimal(n as nat), 5),
{
    let mut digits = String::new();
    push_decimal(&mut digits, n);
    let count = chars_of(digits.as_str()).len();
    let ghost start = out@;
    if count < 5 {
        let mut k: usize = 0;
        while k < 5 - count
            invariant
                k <= 5 - count,
                count == digits@.len(),
                count < 5,
                out@ == start + Seq::new(k as nat, |_i: int| ' '),
            decreases 5 - count - k,
        {
            string_push(out, ' ');
            assert(start + Seq::new((k + 1) as nat, |_i: int| ' ') =~= (start + Seq::new(k as nat, |_i: int| ' ')).push(' '));
            k = k + 1;
        }
    }
    string_push_str(out, digits.as_str());
    assert(digits@ =~= decimal(n as nat));
    assert(out@ =~= start + right_aligned(decimal(n as nat), 5));
}

/// All lines of `source`, as `str::lines` yields them.
fn source_lines(source: &str) -> (r: Vec<Vec<char>>)
    ensures
        r@.map_values(|l: Vec<char>| l@) == lines_of(source@),
{
    let s = chars_of(source);
    let mut out: Vec<Vec<char>> = Vec::new();
    let mut pos: usize = 0;
    assert(s@.skip(0) =~= s@);
    while pos < s.len()
        invariant
            pos <= s@.len(),
            s@ == source@,
            out@.map_values(|l: Vec<char>| l@) + lines_of(s@.skip(pos as int)) == lines_of(s@),
        decreases s@.len() - pos,
    {
        let rest = sub_chars(s.as_slice(), pos, s.len());
        assert(rest@ =~= s@.skip(pos as int));
        let ghost before = out@.map_values(|l: Vec<char>| l@);
        let next = match find_char(rest.as_slice(), '\n') {
            Some(k) => {
                proof {
                    lemma_first_index_bound(rest@, '\n');
                }
                let mut line = sub_chars(rest.as_slice(), 0, k);
                assert(line@ =~= rest@.take(k as int));
                if line.len() > 0 && line[line.len() - 1] == '\r' {
                    line.pop();
                }
                assert(line@ == strip_cr(rest@.take(k as int)));
                assert(s@.skip(pos + k + 1) =~= rest@.skip(k + 1));
                out.push(line);
                pos + k + 1
            },
            None => {
                out.push(rest);
                s.len()
            },
        };
        proof {
            let lines = lines_of(rest@);
            assert(out@.map_values(|l: Vec<char>| l@) =~= before.push(lines[0]));
            assert(lines.drop_first() == lines_of(s@.skip(next as int))) by {
                if first_index_of(rest@, '\n') is None {
                    assert(s@.skip(next as int) =~= Seq::<char>::empty());
                    assert(lines.drop_first() =~= Seq::<Seq<char>>::empty());
                }
            }
            assert(lines =~= seq![lines[0]] + lines.drop_first());
            assert(out@.map_values(|l: Vec<char>| l@) + lines_of(s@.skip(next as int)) =~= before + lines);
        }
        pos = next;
    }
    assert(s@.skip(pos as int) =~= Seq::<char>::empty());
    assert(out@.map_values(|l: Vec<char>| l@) + Seq::<Seq<char>>::empty() =~= out@.map_values(|l: Vec<char>| l@));
    out
}

/// The snippet around line `line` of `source` (see `spec_source_snippet`).
pub fn source_snippet(source: &str, line: usize) -> (r: String)
    requires
        line <= usize::MAX - 2,
    ensures
        r@ == spec_source_snippet(source@, line as int),
{
    let lines = source_lines(source);
    let ghost views = lines@.map_values(|l: Vec<char>| l@);
    if lines.len() == 0 {
        proof {
            reveal_strlit("<empty file>\n");
        }
        let r = to_owned_string("<empty file>\n");
        assert(r@ =~= spec_source_snippet(source@, line as int));
        return r;
    }
    let start: usize = if line >= 3 { line - 3 } else { 0 };
    let end: usize = if line + 2 < lines.len() { line + 2 } else { lines.len() };
    let mut out = String::new();
    let mut index: usize = start;
    if start >= end {
        assert(out@ =~= snippet_lines(views, line as int, start as int, end as int));
        return out;
    }
    while index < end
        invariant
            start <= index <= end,
            end <= lines@.len(),
            views == lines@.map_values(|l: Vec<char>| l@),
            out@ == snippet_lines(views, line as int, start as int, index as int),
        decreases end - index,
    {
        let marker = if index + 1 == line { '>' } else { ' ' };
        let ghost before = out@;
        string_push(&mut out, marker);
        string_push(&mut out, ' ');
        push_right_aligned_number(&mut out, index + 1);
        string_push_str(&mut out, " | ");
        proof {
            reveal_strlit(" | ");
        }
        push_rendered(&mut out, lines[index].as_slice());
        string_push(&mut out, '\n');
        assert(views[index as int] == lines@[index as int]@);
        assert(out@ =~= before + snippet_line(index as int, line as int, views[index as int]));
        index = index + 1;
    }
    out
}


// ---------------------------------------------------------------------------
// Details of lossy decodes and parse diagnostics

/// Where the first replacement character of a lossily decoded file stands,
/// how many there are, and the lines around it.
#[derive(Debug, Clone, PartialEq, Eq)]
pub struct LossyDecodeDetail {
    pub path: String,
    pub first_replacement_offset: usize,
    pub line: usize,
    pub column: usize,
    pub replacement_count: usize,
    pub snippet: String,
}

/// One parse diagnostic with its position and the lines around it.
#[derive(Debug, Clone, PartialEq, Eq)]
pub struct ParseDiagnosticDetail {
    pub path: String,
    pub message: String,
    pub span: TextSpan,
    pub line: usize,
    pub column: usize,
    pub snippet: String,
}

/// The byte offset at which character `k` starts.
pub open spec fn char_start(chars: Seq<char>, k: int) -> int
    decreases k,
{
    if k <= 0 {
        0
    } else {
        char_start(chars, k - 1) + utf8_len(chars[k - 1])
    }
}

/// Character `k` starts where the encoding of the characters before it
/// ends, which is within the encoding of the whole text.
pub(crate) proof fn lemma_char_start_encoded(chars: Seq<char>, k: int)
    requires
        0 <= k <= chars.len(),
    ensures
        char_start(chars, k) == encode_utf8(chars.take(k)).len(),
        encode_utf8(chars.take(k)).len() <= encode_utf8(chars).len(),
    decreases k,
{
    if k > 0 {
        lemma_char_start_encoded(chars, k - 1);
        let c = chars[k - 1];
        assert(chars.take(k) =~= chars.take(k - 1) + seq![c]);
        lemma_encode_concat(chars.take(k - 1), seq![c]);
        let one = seq![c];
        assert(one[0] == c);
        assert(one.drop_first() =~= Seq::<char>::empty());
        assert(encode_utf8(one.drop_first()) =~= Seq::<u8>::empty());
        vstd::utf8::char_is_scalar(c);
        assert(encode_utf8(one).len() == utf8_len(c));
    }
    lemma_encode_concat(chars.take(k), chars.skip(k));
    assert(chars.take(k) + chars.skip(k) =~= chars);
}

/// The number of replacement characters among `chars`.
pub open spec fn replacement_count(chars: Seq<char>) -> int
    decreases chars.len(),
{
    if chars.len() == 0 {
        0
    } else {
        replacement_count(chars.drop_last()) + if chars.last() == '\u{FFFD}' {
            1int
        } else {
            0int
        }
    }
}

/// The first byte of invalid UTF-8 in `bytes`: the end of the longest
/// valid prefix; none when all bytes are valid.
pub open spec fn is_first_invalid(bytes: Seq<u8>, k: int) -> bool {
    0 <= k <= bytes.len() && vstd::utf8::valid_utf8(bytes.take(k)) && forall|j: int|
        k < j <= bytes.len() ==> !vstd::utf8::valid_utf8(#[trigger] bytes.take(j))
}

/// `std::str::from_utf8` on the bytes, read back through the error's
/// `valid_up_to`.  Claimed, as std documents it: nothing exactly when the
/// bytes are valid UTF-8, else the length of the longest valid prefix.
#[verifier::external_body]
fn first_invalid_utf8_offset(bytes: &[u8]) -> (r: Option<usize>)
    ensures
        r is None <==> vstd::utf8::valid_utf8(bytes@),
        r matches Some(k) ==> is_first_invalid(bytes@, k as int),
{
    match std::str::from_utf8(bytes) {
        Ok(_) => None,
        Err(error) => Some(error.valid_up_to()),
    }
}

/// The length of the longest valid UTF-8 prefix of invalid `bytes`.
pub open spec fn valid_prefix_len(bytes: Seq<u8>) -> int {
    choose|k: int| is_first_invalid(bytes, k)
}

/// Only one prefix is the longest valid one.
proof fn lemma_first_invalid_unique(bytes: Seq<u8>, a: int, b: int)
    requires
        is_first_invalid(bytes, a),
        is_first_invalid(bytes, b),
    ensures
        a == b,
{
    if a < b {
        assert(!vstd::utf8::valid_utf8(bytes.take(b)));
    } else if b < a {
        assert(!vstd::utf8::valid_utf8(bytes.take(a)));
    }
}

/// What a lossy decode detail says.
pub struct LossyView {
    pub path: Seq<char>,
    pub first_replacement_offset: int,
    pub line: int,
    pub column: int,
    pub replacement_count: int,
    pub snippet: Seq<char>,
}

impl View for LossyDecodeDetail {
    type V = LossyView;

    open spec fn view(&self) -> LossyView {
        LossyView {
            path: self.path@,
            first_replacement_offset: self.first_replacement_offset as int,
            line: self.line as int,
            column: self.column as int,
            replacement_count: self.replacement_count as int,
            snippet: self.snippet@,
        }
    }
}

/// The detail of a lossy decode of `bytes` into `source`: the offset of the
/// first invalid byte (or, when the bytes are valid, of the first
/// replacement character), the line, column and snippet of the first
/// replacement character, and how many there are.  Nothing when the text
/// holds no replacement character.
pub open spec fn spec_lossy_decode_detail(file: Seq<char>, bytes: Seq<u8>, source: Seq<char>) -> Option<LossyView> {
    match first_index_of(source, '\u{FFFD}') {
        None => None,
        Some(k) => {
            let at = char_start(source, k);
            let (line, column) = spec_line_column(source, at);
            Some(
                LossyView {
                    path: file,
                    first_replacement_offset: if vstd::utf8::valid_utf8(bytes) {
                        at
                    } else {
                        valid_prefix_len(bytes)
                    },
                    line,
                    column,
                    replacement_count: replacement_count(source),
                    snippet: spec_source_snippet(source, line),
                },
            )
        },
    }
}

pub fn lossy_decode_detail(file: &str, bytes: &[u8], source: &str) -> (r: Option<LossyDecodeDetail>)
    requires
        source@.len() + 3 <= usize::MAX,
    ensures
        r is None <==> spec_lossy_decode_detail(file@, bytes@, source@) is None,
        r matches Some(d) ==> spec_lossy_decode_detail(file@, bytes@, source@) == Some(d@),
{
    let chars = chars_of(source);
    let mut offset: u128 = 0;
    let mut k: usize = 0;
    let mut count: usize = 0;
    let mut first: Option<(usize, u128)> = None;
    while k < chars.len()
        invariant
            k <= chars@.len(),
            chars@ == source@,
            offset == char_start(chars@, k as int),
            offset <= 4 * k,
            count == replacement_count(chars@.take(k as int)),
            count <= k,
            match first {
                Some((i, o)) => first_index_of(chars@, '\u{FFFD}') == Some(i as int) && o == char_start(chars@, i as int),
                None => forall|j: int| 0 <= j < k ==> chars@[j] != '\u{FFFD}',
            },
        decreases chars@.len() - k,
    {
        let c = chars[k];
        assert(chars@.take(k + 1).drop_last() =~= chars@.take(k as int));
        if c == '\u{FFFD}' {
            count = count + 1;
            if first.is_none() {
                proof {
                    crate::text::lemma_leading_count_unique(chars@, crate::expression_type::other_than('\u{FFFD}'), k as int);
                }
                first = Some((k, offset));
            }
        }
        offset = offset + char_width(c);
        k = k + 1;
    }
    assert(chars@.take(k as int) =~= chars@);
    let (index, at) = match first {
        Some(p) => p,
        None => {
            proof {
                crate::text::lemma_leading_count_unique(chars@, crate::expression_type::other_than('\u{FFFD}'), chars@.len() as int);
            }
            return None;
        },
    };
    let encoded_len: usize = source.as_bytes().len();
    proof {
        lemma_char_start_encoded(chars@, index as int);
        assert(at <= encoded_len);
    }
    let at_usize: usize = at as usize;
    let first_replacement_offset = match first_invalid_utf8_offset(bytes) {
        Some(o) => {
            proof {
                assert(is_first_invalid(bytes@, o as int));
                lemma_first_invalid_unique(bytes@, o as int, valid_prefix_len(bytes@));
            }
            o
        },
        None => at_usize,
    };
    let (line, column) = line_column(source, at_usize);
    let snippet = source_snippet(source, line);
    assert(first_index_of(source@, '\u{FFFD}') == Some(index as int));
    assert(at_usize == char_start(source@, index as int));
    assert(count == replacement_count(source@));
    Some(LossyDecodeDetail {
        path: to_owned_string(file),
        first_replacement_offset,
        line,
        column,
        replacement_count: count,
        snippet,
    })
}


/// What a parse diagnostic detail says.
pub struct DiagnosticView {
    pub path: Seq<char>,
    pub message: Seq<char>,
    pub span: TextSpan,
    pub line: int,
    pub column: int,
    pub snippet: Seq<char>,
}

impl View for ParseDiagnosticDetail {
    type V = DiagnosticView;

    open spec fn view(&self) -> DiagnosticView {
        DiagnosticView {
            path: self.path@,
            message: self.message@,
            span: self.span,
            line: self.line as int,
            column: self.column as int,
            snippet: self.snippet@,
        }
    }
}

/// The detail of one diagnostic: its position is that of the start of its
/// span.
pub open spec fn spec_diagnostic_detail(file: Seq<char>, source: Seq<char>, diagnostic: ParseDiagnostic) -> DiagnosticView {
    let (line, column) = spec_line_column(source, diagnostic.span.start as int);
    DiagnosticView {
        path: file,
        message: diagnostic.message@,
        span: diagnostic.span,
        line,
        column,
        snippet: spec_source_snippet(source, line),
    }
}

/// The details of the first diagnostics of a file, at most
/// `MAX_RECORDED_DIAGNOSTICS_PER_FILE` of them.
pub open spec fn spec_parse_diagnostic_details(
    file: Seq<char>,
    source: Seq<char>,
    diagnostics: Seq<ParseDiagnostic>,
) -> Seq<DiagnosticView> {
    let n = if diagnostics.len() < MAX_RECORDED_DIAGNOSTICS_PER_FILE {
        diagnostics.len() as int
    } else {
        MAX_RECORDED_DIAGNOSTICS_PER_FILE as int
    };
    Seq::new(n as nat, |i: int| spec_diagnostic_detail(file, source, diagnostics[i]))
}

/// The views of a sequence of diagnostic details.
pub open spec fn diagnostic_views(details: Seq<ParseDiagnosticDetail>) -> Seq<DiagnosticView> {
    details.map_values(|d: ParseDiagnosticDetail| d@)
}

pub fn parse_diagnostic_details(file: &str, source: &str, diagnostics: &[ParseDiagnostic]) -> (r: Vec<
    ParseDiagnosticDetail,
>)
    requires
        source@.len() + 3 <= usize::MAX,
    ensures
        diagnostic_views(r@) == spec_parse_diagnostic_details(file@, source@, diagnostics@),
{
    let n = if diagnostics.len() < MAX_RECORDED_DIAGNOSTICS_PER_FILE {
        diagnostics.len()
    } else {
        MAX_RECORDED_DIAGNOSTICS_PER_FILE
    };
    let ghost expected = spec_parse_diagnostic_details(file@, source@, diagnostics@);
    let mut details: Vec<ParseDiagnosticDetail> = Vec::new();
    let mut i: usize = 0;
    while i < n
        invariant
            n <= diagnostics@.len(),
            n == expected.len(),
            expected == spec_parse_diagnostic_details(file@, source@, diagnostics@),
            source@.len() + 3 <= usize::MAX,
            i <= n,
            details@.len() == i,
            forall|j: int| 0 <= j < i ==> #[trigger] details@[j]@ == expected[j],
        decreases n - i,
    {
        let diagnostic = &diagnostics[i];
        let (line, column) = line_column(source, diagnostic.span.start);
        let snippet = source_snippet(source, line);
        details.push(
            ParseDiagnosticDetail {
                path: to_owned_string(file),
                message: diagnostic.message.clone(),
                span: diagnostic.span,
                line,
                column,
                snippet,
            },
        );
        i = i + 1;
    }
    assert(diagnostic_views(details@) =~= expected);
    details
}


/// A copy of a detail, equal to it.
fn copy_lossy_detail(d: &LossyDecodeDetail) -> (r: LossyDecodeDetail)
    ensures
        r@ == d@,
{
    LossyDecodeDetail {
        path: d.path.clone(),
        first_replacement_offset: d.first_replacement_offset,
        line: d.line,
        column: d.column,
        replacement_count: d.replacement_count,
        snippet: d.snippet.clone(),
    }
}

/// A copy of a detail, equal to it.
fn copy_diagnostic_detail(d: &ParseDiagnosticDetail) -> (r: ParseDiagnosticDetail)
    ensures
        r@ == d@,
{
    ParseDiagnosticDetail {
        path: d.path.clone(),
        message: d.message.clone(),
        span: d.span,
        line: d.line,
        column: d.column,
        snippet: d.snippet.clone(),
    }
}

// ---------------------------------------------------------------------------
// Counts

/// At most this many diagnostic details are recorded in all.
pub const DIAGNOSTIC_DETAIL_CAPACITY: usize = 300;

/// What a build met: files, bytes, lossy decodes, parse diagnostics and
/// indexed symbols, with the details of the first lossy decodes and
/// diagnostics.
#[derive(Debug, Clone, PartialEq, Eq)]
pub struct IndexBuildCounts {
    pub files: usize,
    pub bytes: usize,
    pub lossy_files: usize,
    pub lossy_decode_details: Vec<LossyDecodeDetail>,
    pub parse_diagnostics: usize,
    pub parse_diagnostic_files: usize,
    pub parse_diagnostic_details: Vec<ParseDiagnosticDetail>,
    pub indexed_files: usize,
    pub indexed_symbols: usize,
    pub non_declaration_callable_fragments: usize,
}

/// What a set of counts says.
pub struct CountsView {
    pub files: int,
    pub bytes: int,
    pub lossy_files: int,
    pub lossy_decode_details: Seq<LossyView>,
    pub parse_diagnostics: int,
    pub parse_diagnostic_files: int,
    pub parse_diagnostic_details: Seq<DiagnosticView>,
    pub indexed_files: int,
    pub indexed_symbols: int,
    pub non_declaration_callable_fragments: int,
}

impl View for IndexBuildCounts {
    type V = CountsView;

    open spec fn view(&self) -> CountsView {
        CountsView {
            files: self.files as int,
            bytes: self.bytes as int,
            lossy_files: self.lossy_files as int,
            lossy_decode_details: self.lossy_decode_details@.map_values(|d: LossyDecodeDetail| d@),
            parse_diagnostics: self.parse_diagnostics as int,
            parse_diagnostic_files: self.parse_diagnostic_files as int,
            parse_diagnostic_details: diagnostic_views(self.parse_diagnostic_details@),
            indexed_files: self.indexed_files as int,
            indexed_symbols: self.indexed_symbols as int,
            non_declaration_callable_fragments: self.non_declaration_callable_fragments as int,
        }
    }
}

/// Counts of a build that met nothing yet.
pub open spec fn empty_counts() -> CountsView {
    CountsView {
        files: 0,
        bytes: 0,
        lossy_files: 0,
        lossy_decode_details: Seq::empty(),
        parse_diagnostics: 0,
        parse_diagnostic_files: 0,
        parse_diagnostic_details: Seq::empty(),
        indexed_files: 0,
        indexed_symbols: 0,
        non_declaration_callable_fragments: 0,
    }
}

impl Default for IndexBuildCounts {
    fn default() -> (r: Self)
        ensures
            r@ == empty_counts(),
    {
        let r = IndexBuildCounts {
            files: 0,
            bytes: 0,
            lossy_files: 0,
            lossy_decode_details: Vec::new(),
            parse_diagnostics: 0,
            parse_diagnostic_files: 0,
            parse_diagnostic_details: Vec::new(),
            indexed_files: 0,
            indexed_symbols: 0,
            non_declaration_callable_fragments: 0,
        };
        assert(r@.lossy_decode_details =~= Seq::<LossyView>::empty());
        assert(r@.parse_diagnostic_details =~= Seq::<DiagnosticView>::empty());
        r
    }
}

/// The number of distinct files among diagnostic details.
pub open spec fn detail_file_count(details: Seq<DiagnosticView>) -> nat {
    details.map_values(|d: DiagnosticView| d.path).to_set().len()
}

/// The diagnostic details kept after a file's `details` are offered: none
/// of them once the capacity is used up or details of
/// `MAX_RECORDED_DIAGNOSTIC_FILES` files are kept, else as many as fit.
pub open spec fn recorded_diagnostic_details(kept: Seq<DiagnosticView>, details: Seq<DiagnosticView>) -> Seq<
    DiagnosticView,
> {
    if details.len() == 0 || kept.len() >= DIAGNOSTIC_DETAIL_CAPACITY || detail_file_count(kept)
        >= MAX_RECORDED_DIAGNOSTIC_FILES {
        kept
    } else {
        let remaining = DIAGNOSTIC_DETAIL_CAPACITY - kept.len();
        let n = if details.len() < remaining {
            details.len() as int
        } else {
            remaining as int
        };
        kept + details.take(n)
    }
}

fn contains_path(paths: &Vec<&str>, path: &str) -> (r: bool)
    ensures
        r == paths@.map_values(|p: &str| p@).contains(path@),
{
    let ghost views = paths@.map_values(|p: &str| p@);
    let mut j: usize = 0;
    while j < paths.len()
        invariant
            j <= paths@.len(),
            views == paths@.map_values(|p: &str| p@),
            forall|m: int| 0 <= m < j ==> views[m] != path@,
        decreases paths@.len() - j,
    {
        if str_eq(paths[j], path) {
            assert(views[j as int] == path@);
            return true;
        }
        j = j + 1;
    }
    false
}

fn diagnostic_detail_file_count(counts: &IndexBuildCounts) -> (r: usize)
    ensures
        r == detail_file_count(counts@.parse_diagnostic_details),
{
    let details = &counts.parse_diagnostic_details;
    let ghost all = diagnostic_views(details@).map_values(|d: DiagnosticView| d.path);
    let mut paths: Vec<&str> = Vec::new();
    let mut i: usize = 0;
    while i < details.len()
        invariant
            i <= details@.len(),
            all == diagnostic_views(details@).map_values(|d: DiagnosticView| d.path),
            paths@.map_values(|p: &str| p@).no_duplicates(),
            paths@.map_values(|p: &str| p@).to_set() == all.take(i as int).to_set(),
        decreases details@.len() - i,
    {
        let path = details[i].path.as_str();
        let ghost before = paths@.map_values(|p: &str| p@);
        assert(all.take(i + 1) =~= all.take(i as int).push(path@));
        if !contains_path(&paths, path) {
            paths.push(path);
            assert(paths@.map_values(|p: &str| p@) =~= before.push(path@));
            proof {
                before.lemma_push_to_set_commute(path@);
                all.take(i as int).lemma_push_to_set_commute(path@);
            }
        } else {
            proof {
                all.take(i as int).lemma_push_to_set_commute(path@);
            }
            assert(all.take(i + 1).to_set() =~= all.take(i as int).to_set());
        }
        i = i + 1;
    }
    proof {
        paths@.map_values(|p: &str| p@).unique_seq_to_set();
        assert(all.take(details@.len() as int) =~= all);
    }
    paths.len()
}


/// Offers a file's diagnostic details to `counts`, which keeps as many as
/// its limits allow; nothing else changes.
pub fn record_parse_diagnostic_details(counts: &mut IndexBuildCounts, details: &[ParseDiagnosticDetail])
    ensures
        final(counts)@ == (CountsView {
            parse_diagnostic_details: recorded_diagnostic_details(
                old(counts)@.parse_diagnostic_details,
                diagnostic_views(details@),
            ),
            ..old(counts)@
        }),
{
    if details.len() == 0 || counts.parse_diagnostic_details.len() >= DIAGNOSTIC_DETAIL_CAPACITY
        || diagnostic_detail_file_count(counts) >= MAX_RECORDED_DIAGNOSTIC_FILES {
        return;
    }
    let remaining = DIAGNOSTIC_DETAIL_CAPACITY - counts.parse_diagnostic_details.len();
    let n = if details.len() < remaining {
        details.len()
    } else {
        remaining
    };
    let ghost kept = diagnostic_views(counts.parse_diagnostic_details@);
    let ghost offered = diagnostic_views(details@);
    let ghost before = *counts;
    let mut i: usize = 0;
    while i < n
        invariant
            n <= details@.len(),
            i <= n,
            offered == diagnostic_views(details@),
            diagnostic_views(counts.parse_diagnostic_details@) == kept + offered.take(i as int),
            counts@ == (CountsView { parse_diagnostic_details: kept + offered.take(i as int), ..before@ }),
        decreases n - i,
    {
        let d = copy_diagnostic_detail(&details[i]);
        let ghost old_details = counts.parse_diagnostic_details@;
        counts.parse_diagnostic_details.push(d);
        assert(diagnostic_views(counts.parse_diagnostic_details@) =~= diagnostic_views(old_details).push(d@));
        assert(offered.take(i + 1) =~= offered.take(i as int).push(d@));
        assert(kept + offered.take(i + 1) =~= (kept + offered.take(i as int)).push(d@));
        i = i + 1;
    }
}

/// Offering the details of one file keeps details of at most
/// `MAX_RECORDED_DIAGNOSTIC_FILES` files.
pub proof fn lemma_recorded_files_limit(kept: Seq<DiagnosticView>, details: Seq<DiagnosticView>, path: Seq<char>)
    requires
        detail_file_count(kept) <= MAX_RECORDED_DIAGNOSTIC_FILES,
        forall|i: int| 0 <= i < details.len() ==> (#[trigger] details[i]).path == path,
    ensures
        detail_file_count(recorded_diagnostic_details(kept, details)) <= MAX_RECORDED_DIAGNOSTIC_FILES,
{
    let after = recorded_diagnostic_details(kept, details);
    if after != kept {
        let before_paths = kept.map_values(|d: DiagnosticView| d.path).to_set();
        let after_paths = after.map_values(|d: DiagnosticView| d.path).to_set();
        assert(after_paths.subset_of(before_paths.insert(path))) by {
            assert forall|p: Seq<char>| after_paths.contains(p) implies before_paths.insert(path).contains(p) by {
                let views = after.map_values(|d: DiagnosticView| d.path);
                let i = choose|i: int| 0 <= i < views.len() && views[i] == p;
                if i < kept.len() {
                    assert(kept.map_values(|d: DiagnosticView| d.path)[i] == p);
                } else {
                    assert(after[i] == details[i - kept.len()]);
                }
            }
        }
        vstd::set_lib::lemma_len_subset(after_paths, before_paths.insert(path));
    }
}

/// The counts after one more file: `lossy_detail` and `details` are the
/// file's lossy decode detail and diagnostic details.
pub open spec fn counted(
    c: CountsView,
    byte_count: int,
    lossy: bool,
    lossy_detail: Option<LossyView>,
    parse_diagnostics: int,
    details: Seq<DiagnosticView>,
    indexed_symbols: int,
    fragments: int,
) -> CountsView {
    CountsView {
        files: c.files + 1,
        bytes: c.bytes + byte_count,
        lossy_files: c.lossy_files + if lossy {
            1int
        } else {
            0int
        },
        lossy_decode_details: if lossy && lossy_detail is Some && c.lossy_decode_details.len()
            < MAX_RECORDED_LOSSY_FILES {
            c.lossy_decode_details.push(lossy_detail->0)
        } else {
            c.lossy_decode_details
        },
        parse_diagnostics: c.parse_diagnostics + parse_diagnostics,
        parse_diagnostic_files: c.parse_diagnostic_files + if parse_diagnostics > 0 {
            1int
        } else {
            0int
        },
        parse_diagnostic_details: if parse_diagnostics > 0 {
            recorded_diagnostic_details(c.parse_diagnostic_details, details)
        } else {
            c.parse_diagnostic_details
        },
        indexed_files: c.indexed_files + 1,
        indexed_symbols: c.indexed_symbols + indexed_symbols,
        non_declaration_callable_fragments: c.non_declaration_callable_fragments + fragments,
    }
}

/// Counting a file keeps the recorded details within their limits: at
/// most `MAX_RECORDED_LOSSY_FILES` lossy decode details and at most
/// `DIAGNOSTIC_DETAIL_CAPACITY` diagnostic details.
pub proof fn lemma_counted_keeps_detail_limits(
    c: CountsView,
    byte_count: int,
    lossy: bool,
    lossy_detail: Option<LossyView>,
    parse_diagnostics: int,
    details: Seq<DiagnosticView>,
    indexed_symbols: int,
    fragments: int,
)
    requires
        c.lossy_decode_details.len() <= MAX_RECORDED_LOSSY_FILES,
        c.parse_diagnostic_details.len() <= DIAGNOSTIC_DETAIL_CAPACITY,
    ensures
        ({
            let n = counted(c, byte_count, lossy, lossy_detail, parse_diagnostics, details, indexed_symbols, fragments);
            &&& n.lossy_decode_details.len() <= MAX_RECORDED_LOSSY_FILES
            &&& n.parse_diagnostic_details.len() <= DIAGNOSTIC_DETAIL_CAPACITY
        }),
{
}

/// The counts leave room for one more file with these numbers.
pub open spec fn room_for_file(
    c: CountsView,
    byte_count: int,
    parse_diagnostics: int,
    indexed_symbols: int,
    fragments: int,
) -> bool {
    &&& c.files < usize::MAX
    &&& c.bytes + byte_count <= usize::MAX
    &&& c.lossy_files < usize::MAX
    &&& c.parse_diagnostics + parse_diagnostics <= usize::MAX
    &&& c.parse_diagnostic_files < usize::MAX
    &&& c.indexed_files < usize::MAX
    &&& c.indexed_symbols + indexed_symbols <= usize::MAX
    &&& c.non_declaration_callable_fragments + fragments <= usize::MAX
}

fn count_file(
    counts: &mut IndexBuildCounts,
    byte_count: usize,
    lossy: bool,
    lossy_detail: &Option<LossyDecodeDetail>,
    parse_diagnostics: usize,
    details: &[ParseDiagnosticDetail],
    indexed_symbols: usize,
    fragments: usize,
)
    requires
        room_for_file(old(counts)@, byte_count as int, parse_diagnostics as int, indexed_symbols as int, fragments as int),
    ensures
        final(counts)@ == counted(
            old(counts)@,
            byte_count as int,
            lossy,
            match lossy_detail {
                Some(d) => Some(d@),
                None => None,
            },
            parse_diagnostics as int,
            diagnostic_views(details@),
            indexed_symbols as int,
            fragments as int,
        ),
{
    counts.files = counts.files + 1;
    counts.bytes = counts.bytes + byte_count;
    counts.indexed_files = counts.indexed_files + 1;
    counts.indexed_symbols = counts.indexed_symbols + indexed_symbols;
    counts.parse_diagnostics = counts.parse_diagnostics + parse_diagnostics;
    counts.non_declaration_callable_fragments = counts.non_declaration_callable_fragments + fragments;
    if parse_diagnostics > 0 {
        counts.parse_diagnostic_files = counts.parse_diagnostic_files + 1;
        record_parse_diagnostic_details(counts, details);
    }
    if lossy {
        counts.lossy_files = counts.lossy_files + 1;
        if let Some(detail) = lossy_detail {
            if counts.lossy_decode_details.len() < MAX_RECORDED_LOSSY_FILES {
                let ghost old_details = counts.lossy_decode_details@;
                let d = copy_lossy_detail(detail);
                counts.lossy_decode_details.push(d);
                assert(counts.lossy_decode_details@.map_values(|x: LossyDecodeDetail| x@)
                    =~= old_details.map_values(|x: LossyDecodeDetail| x@).push(d@));
            }
        }
    }
}


// ---------------------------------------------------------------------------
// The summary of a build

/// How long the phases of a build took.
#[derive(Debug, Clone, Copy, Default, PartialEq, Eq)]
pub struct IndexBuildTimings {
    pub file_discovery: Duration,
    pub read_decode: Duration,
    pub parse: Duration,
    pub ast_model_catalog: Duration,
    pub catalog_build: Duration,
    pub index_build: Duration,
    pub total: Duration,
}

/// The counts of a build in all and per source kind, and its timings.  The
/// per-kind counts are kept in the order of the kinds, one entry per kind
/// met.
#[derive(Debug, Clone, PartialEq, Eq)]
pub struct IndexBuildSummary {
    pub totals: IndexBuildCounts,
    pub by_source_kind: Vec<(SourceKind, IndexBuildCounts)>,
    pub timings: IndexBuildTimings,
}

/// The position of a kind in the order of kinds.
pub open spec fn kind_rank(kind: SourceKind) -> int {
    match kind {
        SourceKind::GameData => 0,
        SourceKind::Workspace => 1,
        SourceKind::Unknown => 2,
    }
}

fn rank_of(kind: SourceKind) -> (r: u8)
    ensures
        r == kind_rank(kind),
{
    match kind {
        SourceKind::GameData => 0,
        SourceKind::Workspace => 1,
        SourceKind::Unknown => 2,
    }
}

/// The numbers of a set of counts, without the details.
pub struct Tally {
    pub files: int,
    pub bytes: int,
    pub lossy_files: int,
    pub parse_diagnostics: int,
    pub parse_diagnostic_files: int,
    pub indexed_files: int,
    pub indexed_symbols: int,
    pub fragments: int,
}

pub open spec fn tally(c: CountsView) -> Tally {
    Tally {
        files: c.files,
        bytes: c.bytes,
        lossy_files: c.lossy_files,
        parse_diagnostics: c.parse_diagnostics,
        parse_diagnostic_files: c.parse_diagnostic_files,
        indexed_files: c.indexed_files,
        indexed_symbols: c.indexed_symbols,
        fragments: c.non_declaration_callable_fragments,
    }
}

pub open spec fn tally_add(a: Tally, b: Tally) -> Tally {
    Tally {
        files: a.files + b.files,
        bytes: a.bytes + b.bytes,
        lossy_files: a.lossy_files + b.lossy_files,
        parse_diagnostics: a.parse_diagnostics + b.parse_diagnostics,
        parse_diagnostic_files: a.parse_diagnostic_files + b.parse_diagnostic_files,
        indexed_files: a.indexed_files + b.indexed_files,
        indexed_symbols: a.indexed_symbols + b.indexed_symbols,
        fragments: a.fragments + b.fragments,
    }
}

pub open spec fn tally_le(a: Tally, b: Tally) -> bool {
    &&& a.files <= b.files
    &&& a.bytes <= b.bytes
    &&& a.lossy_files <= b.lossy_files
    &&& a.parse_diagnostics <= b.parse_diagnostics
    &&& a.parse_diagnostic_files <= b.parse_diagnostic_files
    &&& a.indexed_files <= b.indexed_files
    &&& a.indexed_symbols <= b.indexed_symbols
    &&& a.fragments <= b.fragments
}

pub open spec fn zero_tally() -> Tally {
    tally(empty_counts())
}

/// The numbers of all per-kind counts added up.
pub open spec fn kinds_tally(entries: Seq<(SourceKind, IndexBuildCounts)>) -> Tally
    decreases entries.len(),
{
    if entries.len() == 0 {
        zero_tally()
    } else {
        tally_add(kinds_tally(entries.drop_last()), tally(entries.last().1@))
    }
}

/// The counts of `kind`, if any file of that kind was counted.
pub open spec fn counts_for(entries: Seq<(SourceKind, IndexBuildCounts)>, kind: SourceKind) -> Option<CountsView>
    decreases entries.len(),
{
    if entries.len() == 0 {
        None
    } else if entries.last().0 == kind {
        Some(entries.last().1@)
    } else {
        counts_for(entries.drop_last(), kind)
    }
}

/// The entries follow the order of kinds, so each kind has one at most.
pub open spec fn kinds_ordered(entries: Seq<(SourceKind, IndexBuildCounts)>) -> bool {
    forall|i: int, j: int| 0 <= i < j < entries.len() ==> kind_rank(#[trigger] entries[i].0) < kind_rank(#[trigger] entries[j].0)
}

impl IndexBuildSummary {
    /// The per-kind counts are ordered by kind, and the totals are their sum.
    pub open spec fn well_formed(&self) -> bool {
        &&& kinds_ordered(self.by_source_kind@)
        &&& tally(self.totals@) == kinds_tally(self.by_source_kind@)
    }

    /// The counts of the files of `kind`.
    pub fn counts_for_kind(&self, kind: SourceKind) -> (r: Option<&IndexBuildCounts>)
        requires
            self.well_formed(),
        ensures
            match r {
                Some(c) => counts_for(self.by_source_kind@, kind) == Some(c@),
                None => counts_for(self.by_source_kind@, kind) is None,
            },
    {
        let entries = &self.by_source_kind;
        proof {
            lemma_counts_for(entries@, kind);
        }
        let mut i: usize = 0;
        while i < entries.len()
            invariant
                i <= entries@.len(),
                forall|j: int| 0 <= j < i ==> entries@[j].0 != kind,
                entries@ == self.by_source_kind@,
                self.well_formed(),
            decreases entries@.len() - i,
        {
            if entries[i].0 == kind {
                proof {
                    lemma_counts_for(entries@, kind);
                }
                return Some(&entries[i].1);
            }
            i = i + 1;
        }
        None
    }
}

/// With the kinds in order, the counts of a kind are those of its entry.
pub proof fn lemma_counts_for(entries: Seq<(SourceKind, IndexBuildCounts)>, kind: SourceKind)
    requires
        kinds_ordered(entries),
    ensures
        forall|i: int| 0 <= i < entries.len() && entries[i].0 == kind ==> counts_for(entries, kind) == Some(
            entries[i].1@,
        ),
        (forall|i: int| 0 <= i < entries.len() ==> entries[i].0 != kind) ==> counts_for(entries, kind) is None,
    decreases entries.len(),
{
    if entries.len() > 0 {
        let rest = entries.drop_last();
        assert(kinds_ordered(rest));
        lemma_counts_for(rest, kind);
        assert forall|i: int| 0 <= i < entries.len() && entries[i].0 == kind implies counts_for(entries, kind) == Some(
            entries[i].1@,
        ) by {
            if i < entries.len() - 1 {
                assert(kind_rank(entries[i].0) < kind_rank(entries[entries.len() - 1].0));
                assert(rest[i] == entries[i]);
            }
        }
        if forall|i: int| 0 <= i < entries.len() ==> entries[i].0 != kind {
            assert(entries.last().0 != kind);
            assert forall|i: int| 0 <= i < rest.len() implies rest[i].0 != kind by {
                assert(rest[i] == entries[i]);
            }
        }
    }
}

proof fn lemma_kinds_tally_update(s: Seq<(SourceKind, IndexBuildCounts)>, i: int, x: (SourceKind, IndexBuildCounts))
    requires
        0 <= i < s.len(),
    ensures
        tally_add(kinds_tally(s.update(i, x)), tally(s[i].1@)) == tally_add(kinds_tally(s), tally(x.1@)),
    decreases s.len(),
{
    let t = s.update(i, x);
    if i == s.len() - 1 {
        assert(t.drop_last() =~= s.drop_last());
    } else {
        assert(t.drop_last() =~= s.drop_last().update(i, x));
        lemma_kinds_tally_update(s.drop_last(), i, x);
    }
}

proof fn lemma_kinds_tally_insert(s: Seq<(SourceKind, IndexBuildCounts)>, i: int, x: (SourceKind, IndexBuildCounts))
    requires
        0 <= i <= s.len(),
    ensures
        kinds_tally(s.insert(i, x)) == tally_add(kinds_tally(s), tally(x.1@)),
    decreases s.len(),
{
    let t = s.insert(i, x);
    if i == s.len() {
        assert(t.drop_last() =~= s);
    } else {
        assert(t.drop_last() =~= s.drop_last().insert(i, x));
        lemma_kinds_tally_insert(s.drop_last(), i, x);
    }
}

/// Each entry's numbers are within the sum of all.
proof fn lemma_entry_within_tally(s: Seq<(SourceKind, IndexBuildCounts)>, i: int)
    requires
        0 <= i < s.len(),
    ensures
        tally_le(tally(s[i].1@), kinds_tally(s)),
    decreases s.len(),
{
    if i < s.len() - 1 {
        lemma_entry_within_tally(s.drop_last(), i);
    }
    lemma_kinds_tally_nonnegative(s.drop_last());
}

proof fn lemma_kinds_tally_nonnegative(s: Seq<(SourceKind, IndexBuildCounts)>)
    ensures
        tally_le(zero_tally(), kinds_tally(s)),
    decreases s.len(),
{
    if s.len() > 0 {
        lemma_kinds_tally_nonnegative(s.drop_last());
    }
}


/// The counts of one more file of `kind`, as the summary records them.
pub open spec fn counted_file(
    c: CountsView,
    file: Seq<char>,
    byte_count: int,
    lossy: bool,
    bytes: Seq<u8>,
    source: Seq<char>,
    diagnostics: Seq<ParseDiagnostic>,
    parse_diagnostics: int,
    indexed_symbols: int,
    fragments: int,
) -> CountsView {
    counted(
        c,
        byte_count,
        lossy,
        if lossy {
            spec_lossy_decode_detail(file, bytes, source)
        } else {
            None
        },
        parse_diagnostics,
        spec_parse_diagnostic_details(file, source, diagnostics),
        indexed_symbols,
        fragments,
    )
}

/// Records one file of `kind` in the totals and in the counts of its kind:
/// its bytes, whether its decode was lossy (with the detail of the first
/// replacement), its parse diagnostics (with the details of the first
/// ones), and its indexed symbols and callable fragments.  The counts of
/// the other kinds and the timings stay as they were.
pub fn record_file_counts(
    summary: &mut IndexBuildSummary,
    kind: SourceKind,
    file: &str,
    byte_count: usize,
    lossy: bool,
    bytes: &[u8],
    source: &str,
    diagnostics: &[ParseDiagnostic],
    parse_diagnostics: usize,
    indexed_symbols: usize,
    non_declaration_callable_fragments: usize,
)
    requires
        old(summary).well_formed(),
        room_for_file(
            old(summary).totals@,
            byte_count as int,
            parse_diagnostics as int,
            indexed_symbols as int,
            non_declaration_callable_fragments as int,
        ),
        source@.len() + 3 <= usize::MAX,
    ensures
        final(summary).well_formed(),
        final(summary).totals@ == counted_file(
            old(summary).totals@,
            file@,
            byte_count as int,
            lossy,
            bytes@,
            source@,
            diagnostics@,
            parse_diagnostics as int,
            indexed_symbols as int,
            non_declaration_callable_fragments as int,
        ),
        counts_for(final(summary).by_source_kind@, kind) == Some(
            counted_file(
                match counts_for(old(summary).by_source_kind@, kind) {
                    Some(c) => c,
                    None => empty_counts(),
                },
                file@,
                byte_count as int,
                lossy,
                bytes@,
                source@,
                diagnostics@,
                parse_diagnostics as int,
                indexed_symbols as int,
                non_declaration_callable_fragments as int,
            ),
        ),
        forall|other: SourceKind|
            other != kind ==> counts_for(final(summary).by_source_kind@, other) == counts_for(
                old(summary).by_source_kind@,
                other,
            ),
        final(summary).timings == old(summary).timings,
{
    let lossy_detail = if lossy {
        lossy_decode_detail(file, bytes, source)
    } else {
        None
    };
    let diagnostic_details = parse_diagnostic_details(file, source, diagnostics);
    let ghost entries = summary.by_source_kind@;
    let rank = rank_of(kind);
    let mut i: usize = 0;
    while i < summary.by_source_kind.len() && rank_of(summary.by_source_kind[i].0) < rank
        invariant
            i <= entries.len(),
            entries == summary.by_source_kind@,
            rank == kind_rank(kind),
            forall|j: int| 0 <= j < i ==> kind_rank(#[trigger] entries[j].0) < kind_rank(kind),
        decreases entries.len() - i,
    {
        i = i + 1;
    }
    let existing = i < summary.by_source_kind.len() && summary.by_source_kind[i as usize].0 == kind;
    proof {
        lemma_counts_for(entries, kind);
        if existing {
            lemma_entry_within_tally(entries, i as int);
        } else {
            assert forall|j: int| 0 <= j < entries.len() implies entries[j].0 != kind by {
                if j >= i {
                    assert(kind_rank(entries[i as int].0) >= kind_rank(kind));
                    if j > i {
                        assert(kind_rank(entries[i as int].0) < kind_rank(entries[j].0));
                    }
                }
            }
        }
    }
    let mut entry = if existing {
        summary.by_source_kind.remove(i)
    } else {
        (kind, IndexBuildCounts::default())
    };
    let ghost start = entry.1@;
    assert(start == match counts_for(entries, kind) {
        Some(c) => c,
        None => empty_counts(),
    });
    count_file(
        &mut entry.1,
        byte_count,
        lossy,
        &lossy_detail,
        parse_diagnostics,
        diagnostic_details.as_slice(),
        indexed_symbols,
        non_declaration_callable_fragments,
    );
    count_file(
        &mut summary.totals,
        byte_count,
        lossy,
        &lossy_detail,
        parse_diagnostics,
        diagnostic_details.as_slice(),
        indexed_symbols,
        non_declaration_callable_fragments,
    );
    summary.by_source_kind.insert(i, entry);
    proof {
        let after = summary.by_source_kind@;
        if existing {
            assert(after =~= entries.update(i as int, entry));
            lemma_kinds_tally_update(entries, i as int, entry);
        } else {
            assert(after =~= entries.insert(i as int, entry));
            lemma_kinds_tally_insert(entries, i as int, entry);
            assert(tally(start) == zero_tally());
        }
        lemma_place_entry(entries, i as int, entry, existing);
    }
}

/// Putting the counts of `entry.0` at the place the kind order gives it
/// (over its old entry, if there is one) keeps the order, and changes the
/// counts of that kind only.
proof fn lemma_place_entry(
    entries: Seq<(SourceKind, IndexBuildCounts)>,
    i: int,
    entry: (SourceKind, IndexBuildCounts),
    existing: bool,
)
    requires
        kinds_ordered(entries),
        0 <= i <= entries.len(),
        forall|j: int| 0 <= j < i ==> kind_rank(#[trigger] entries[j].0) < kind_rank(entry.0),
        existing ==> i < entries.len() && entries[i].0 == entry.0,
        !existing ==> i < entries.len() ==> kind_rank(entries[i].0) >= kind_rank(entry.0),
        !existing ==> forall|j: int| 0 <= j < entries.len() ==> entries[j].0 != entry.0,
    ensures
        ({
            let after = if existing {
                entries.update(i, entry)
            } else {
                entries.insert(i, entry)
            };
            &&& kinds_ordered(after)
            &&& counts_for(after, entry.0) == Some(entry.1@)
            &&& forall|other: SourceKind|
                other != entry.0 ==> counts_for(after, other) == counts_for(entries, other)
        }),
{
    let kind = entry.0;
    let after = if existing {
        entries.update(i, entry)
    } else {
        entries.insert(i, entry)
    };
    assert(kinds_ordered(after)) by {
        assert forall|a: int, b: int| 0 <= a < b < after.len() implies kind_rank(#[trigger] after[a].0) < kind_rank(
            #[trigger] after[b].0,
        ) by {
            if existing {
                assert(after[a].0 == entries[a].0);
                assert(after[b].0 == entries[b].0);
            } else {
                if a < i {
                    assert(after[a] == entries[a]);
                }
                if b > i {
                    assert(after[b] == entries[b - 1]);
                    assert(entries[i].0 != kind);
                    assert(kind_rank(entries[i].0) > kind_rank(kind));
                    if a > i {
                        assert(after[a] == entries[a - 1]);
                    } else if b - 1 > i {
                        assert(kind_rank(entries[i].0) < kind_rank(entries[b - 1].0));
                    }
                }
            }
        }
    }
    lemma_counts_for(after, kind);
    assert(after[i].0 == kind);
    assert forall|other: SourceKind| other != kind implies counts_for(after, other) == counts_for(entries, other) by {
        lemma_counts_for(after, other);
        lemma_counts_for(entries, other);
        if exists|j: int| 0 <= j < entries.len() && entries[j].0 == other {
            let j = choose|j: int| 0 <= j < entries.len() && entries[j].0 == other;
            if existing || j < i {
                assert(after[j] == entries[j]);
            } else {
                assert(after[j + 1] == entries[j]);
            }
        } else {
            assert forall|j: int| 0 <= j < after.len() implies after[j].0 != other by {
                if existing {
                    if j != i {
                        assert(after[j] == entries[j]);
                    }
                } else if j < i {
                    assert(after[j] == entries[j]);
                } else if j > i {
                    assert(after[j] == entries[j - 1]);
                }
            }
        }
    }
}

// ---------------------------------------------------------------------------
// Roots and control of a build

/// A folder whose script files a build indexes, with the kind and priority
/// its files get.
#[derive(Debug, Clone, PartialEq, Eq)]
pub struct IndexSourceRoot {
    pub root_path: String,
    pub kind: SourceKind,
    pub priority: u16,
}

impl IndexSourceRoot {
    pub fn new(root_path: &str, kind: SourceKind, priority: u16) -> (r: Self)
        ensures
            r.root_path@ == root_path@,
            r.kind == kind,
            r.priority == priority,
    {
        IndexSourceRoot { root_path: to_owned_string(root_path), kind, priority }
    }
}

/// The roots of a build, in the order they are indexed.
#[derive(Debug, Clone, PartialEq, Eq)]
pub struct IndexBuildConfig {
    pub roots: Vec<IndexSourceRoot>,
}

/// A cancellation flag shared by a build and whoever may stop it.
#[derive(Debug, Clone, Default)]
pub struct IndexBuildControl {
    cancelled: Arc<AtomicBool>,
}

impl IndexBuildControl {
    /// Raises the flag, for this control and every clone of it.
    pub fn cancel(&self) {
        self.cancelled.store(true, std::sync::atomic::Ordering::Release);
    }

    /// Reads the flag.  Another holder may raise it at any time, so nothing
    /// is claimed of the value read.
    pub fn is_cancelled(&self) -> bool {
        self.cancelled.load(std::sync::atomic::Ordering::Acquire)
    }

    /// The outcome of a check that read the flag as `cancelled`.
    pub fn check_outcome(cancelled: bool) -> (r: Result<(), String>)
        ensures
            r is Ok <==> !cancelled,
            r matches Err(e) ==> e@ == INDEX_BUILD_CANCELLED@,
    {
        if cancelled {
            Err(to_owned_string(INDEX_BUILD_CANCELLED))
        } else {
            Ok(())
        }
    }

    /// Fails with `INDEX_BUILD_CANCELLED` once the flag is raised.
    pub fn check(&self) -> (r: Result<(), String>)
        ensures
            r matches Err(e) ==> e@ == INDEX_BUILD_CANCELLED@,
    {
        Self::check_outcome(self.is_cancelled())
    }
}

} // verus!
