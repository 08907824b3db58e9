//! The request, page and hit shapes of a symbol search over the game data
//! or the workspace, and the pieces of the search that work on plain
//! values: line numbers of offsets, query normalisation, the names of
//! symbol kinds, qualified names, compact signatures and the hexadecimal
//! framing of references.
use vstd::prelude::*;
use crate::addon_sources::ascii_upper;
use crate::index::{IndexedSymbol, SourceFileId, SymbolIndex};
use crate::model::SymbolKind;
use vstd::utf8::encode_utf8;
use crate::order::{char_lt, chars_less, chars_lt, lemma_char_lt_strict_total, lemma_lex_irreflexive, lemma_lex_total, lemma_lex_transitive, segment_views};
use crate::text::{chars_eq, chars_of, exec_is_whitespace, is_whitespace, str_eq, string_from_chars, string_push, string_push_str, to_owned_string};

verus! {

pub const DEFAULT_LIMIT: usize = 20;

pub const MAX_LIMIT: usize = 100;

pub const MAX_QUERY_CHARS: usize = 256;

pub const MAX_CURSOR_BYTES: usize = 2048;

pub const MAX_OWNER_CHARS: usize = 256;

pub const MAX_SEARCH_RESULT_BYTES: usize = 256 * 1024;

/// Texts of a hit are cut after this many characters.
pub const MAX_SEARCH_TEXT_CHARS: usize = 16 * 1024;

// ---------------------------------------------------------------------------
// Line starts

/// The byte offsets at which the lines of a text start.
#[derive(Debug, Clone, Default)]
pub struct SourceLineStarts(Vec<usize>);

/// The line starts of the first `n` bytes: 0, and one past each line feed.
pub open spec fn newline_starts(bytes: Seq<u8>, n: int) -> Seq<usize>
    decreases n,
{
    if n <= 0 {
        seq![0usize]
    } else if bytes[n - 1] == 10u8 {
        newline_starts(bytes, n - 1).push(n as usize)
    } else {
        newline_starts(bytes, n - 1)
    }
}

/// The number of line feeds among the first `n` bytes.
pub open spec fn newlines_before(bytes: Seq<u8>, n: int) -> int
    decreases n,
{
    if n <= 0 {
        0
    } else {
        newlines_before(bytes, n - 1) + if bytes[n - 1] == 10u8 {
            1int
        } else {
            0int
        }
    }
}

/// How many of `starts` are at most `offset`.
pub open spec fn starts_at_most(starts: Seq<usize>, offset: int) -> int
    decreases starts.len(),
{
    if starts.len() == 0 {
        0
    } else {
        starts_at_most(starts.drop_last(), offset) + if starts.last() <= offset {
            1int
        } else {
            0int
        }
    }
}

/// The 1-based line of `offset`: the number of line starts at or before it,
/// and 1 when there is none.
pub open spec fn spec_line_for_offset(starts: Seq<usize>, offset: int) -> int {
    let n = starts_at_most(starts, offset);
    if n < 1 {
        1
    } else {
        n
    }
}

pub open spec fn ascending(starts: Seq<usize>) -> bool {
    forall|i: int, j: int| 0 <= i < j < starts.len() ==> starts[i] < starts[j]
}

/// With the starts ascending, those at most `offset` are a prefix.
proof fn lemma_starts_prefix(starts: Seq<usize>, offset: int, p: int)
    requires
        0 <= p <= starts.len(),
        forall|i: int| 0 <= i < p ==> starts[i] <= offset,
        forall|i: int| p <= i < starts.len() ==> starts[i] > offset,
    ensures
        starts_at_most(starts, offset) == p,
    decreases starts.len(),
{
    if starts.len() > 0 {
        let rest = starts.drop_last();
        if p == starts.len() {
            lemma_starts_prefix(rest, offset, p - 1);
        } else {
            lemma_starts_prefix(rest, offset, p);
        }
    }
}

fn line_for_offset(starts: &[usize], offset: usize) -> (r: usize)
    requires
        ascending(starts@),
    ensures
        r == spec_line_for_offset(starts@, offset as int),
{
    let mut low: usize = 0;
    let mut high: usize = starts.len();
    while low < high
        invariant
            0 <= low <= high <= starts@.len(),
            ascending(starts@),
            forall|i: int| 0 <= i < low ==> starts@[i] <= offset,
            forall|i: int| high <= i < starts@.len() ==> starts@[i] > offset,
        decreases high - low,
    {
        let mid = low + (high - low) / 2;
        if starts[mid] <= offset {
            low = mid + 1;
        } else {
            high = mid;
        }
    }
    proof {
        lemma_starts_prefix(starts@, offset as int, low as int);
    }
    if low < 1 {
        1
    } else {
        low
    }
}

/// The first and last line of a range, 1-based.
#[derive(Debug, Clone, PartialEq, Eq)]
pub struct SourceLineRange {
    pub start_line: usize,
    pub end_line: usize,
}

impl SourceLineStarts {
    pub closed spec fn spec_starts(&self) -> Seq<usize> {
        self.0@
    }

    pub fn from_source(source: &str) -> (r: Self)
        ensures
            r.spec_starts() == newline_starts(encode_utf8(source@), encode_utf8(source@).len() as int),
    {
        let bytes = source.as_bytes();
        let mut starts: Vec<usize> = Vec::new();
        starts.push(0);
        let mut i: usize = 0;
        while i < bytes.len()
            invariant
                i <= bytes@.len(),
                bytes@ == encode_utf8(source@),
                starts@ == newline_starts(bytes@, i as int),
            decreases bytes@.len() - i,
        {
            if bytes[i] == 10u8 {
                starts.push(i + 1);
            }
            i = i + 1;
        }
        SourceLineStarts(starts)
    }

    /// Starts kept from an earlier reading of a text; an empty list stands
    /// for a text of one line.
    pub fn from_cached_starts(starts: Vec<usize>) -> (r: Self)
        ensures
            r.spec_starts() == if starts@.len() == 0 {
                seq![0usize]
            } else {
                starts@
            },
    {
        if starts.len() == 0 {
            let mut one: Vec<usize> = Vec::new();
            one.push(0);
            SourceLineStarts(one)
        } else {
            SourceLineStarts(starts)
        }
    }

    /// The lines of the byte range `start..end`.
    pub fn range(&self, start: usize, end: usize) -> (r: SourceLineRange)
        requires
            ascending(self.spec_starts()),
        ensures
            r.start_line == spec_line_for_offset(self.spec_starts(), start as int),
            r.end_line == spec_line_for_offset(self.spec_starts(), end as int),
    {
        SourceLineRange {
            start_line: line_for_offset(self.0.as_slice(), start),
            end_line: line_for_offset(self.0.as_slice(), end),
        }
    }

    /// The number of lines, at least 1.
    pub fn line_count(&self) -> (r: usize)
        ensures
            r == if self.spec_starts().len() < 1 {
                1
            } else {
                self.spec_starts().len()
            },
    {
        if self.0.len() < 1 {
            1
        } else {
            self.0.len()
        }
    }
}

/// The line starts of a text ascend, and the line of an offset is one more
/// than the number of line feeds before it.
pub proof fn lemma_line_of_offset(bytes: Seq<u8>, offset: int)
    requires
        bytes.len() <= usize::MAX,
        0 <= offset,
    ensures
        ascending(newline_starts(bytes, bytes.len() as int)),
        newline_starts(bytes, bytes.len() as int)[0] == 0,
        spec_line_for_offset(newline_starts(bytes, bytes.len() as int), offset) == 1 + newlines_before(
            bytes,
            if offset < bytes.len() {
                offset
            } else {
                bytes.len() as int
            },
        ),
{
    lemma_newline_starts(bytes, bytes.len() as int, offset);
    lemma_newlines_nonnegative(bytes, if offset < bytes.len() { offset } else { bytes.len() as int });
}

proof fn lemma_newline_starts(bytes: Seq<u8>, n: int, offset: int)
    requires
        0 <= n <= bytes.len() <= usize::MAX,
        0 <= offset,
    ensures
        ascending(newline_starts(bytes, n)),
        newline_starts(bytes, n).len() >= 1,
        newline_starts(bytes, n)[0] == 0,
        forall|i: int| 0 <= i < newline_starts(bytes, n).len() ==> newline_starts(bytes, n)[i] <= n,
        starts_at_most(newline_starts(bytes, n), offset) == 1 + newlines_before(
            bytes,
            if offset < n {
                offset
            } else {
                n
            },
        ),
    decreases n,
{
    if n == 0 {
        assert(newline_starts(bytes, 0).drop_last() =~= Seq::<usize>::empty());
        assert(starts_at_most(Seq::<usize>::empty(), offset) == 0);
    } else {
        lemma_newline_starts(bytes, n - 1, offset);
        let prev = newline_starts(bytes, n - 1);
        if bytes[n - 1] == 10u8 {
            assert(newline_starts(bytes, n).drop_last() =~= prev);
        }
    }
}

proof fn lemma_newlines_nonnegative(bytes: Seq<u8>, n: int)
    ensures
        newlines_before(bytes, n) >= 0,
    decreases n,
{
    if n > 0 {
        lemma_newlines_nonnegative(bytes, n - 1);
    }
}

// ---------------------------------------------------------------------------
// Requests, pages and hits

/// A search: a query with optional filters, a page size and a position,
/// either a cursor from an earlier page or an offset.
#[derive(Debug, Clone, PartialEq, Eq)]
pub struct GameDataSearchRequest {
    pub query: String,
    pub addon_guids: Option<Vec<String>>,
    pub kinds: Option<Vec<String>>,
    pub owner: Option<String>,
    pub source_categories: Option<Vec<String>>,
    pub limit: Option<usize>,
    pub cursor: Option<String>,
    pub offset: Option<usize>,
}

impl GameDataSearchRequest {
    /// A search for `query` with no filter, default limit and no position.
    pub fn new(query: &str) -> (r: Self)
        ensures
            r.query@ == query@,
            r.addon_guids is None,
            r.kinds is None,
            r.owner is None,
            r.source_categories is None,
            r.limit is None,
            r.cursor is None,
            r.offset is None,
    {
        GameDataSearchRequest {
            query: to_owned_string(query),
            addon_guids: None,
            kinds: None,
            owner: None,
            source_categories: None,
            limit: None,
            cursor: None,
            offset: None,
        }
    }
}

/// The filters a page was computed with, in canonical form.
#[derive(Debug, Clone, PartialEq, Eq)]
pub struct AppliedFilters {
    pub addon_guids: Vec<String>,
    pub kinds: Vec<String>,
    pub owner: Option<String>,
    pub source_categories: Vec<String>,
    pub limit: usize,
}

/// The argument of an inspection of a hit.
#[derive(Debug, Clone, PartialEq, Eq)]
pub struct InspectInput {
    pub symbol_ref: String,
}

/// The argument of a source read at a hit.
#[derive(Debug, Clone, PartialEq, Eq)]
pub struct ReadSourceInput {
    pub catalogue_revision: String,
    pub addon_guid: Option<String>,
    pub relative_path: String,
    pub start_line: usize,
}

/// One symbol found by a search.
#[derive(Debug, Clone, PartialEq, Eq)]
pub struct GameDataSearchHit {
    pub addon_guid: Option<String>,
    pub addon_label: Option<String>,
    pub thumbnail_color: Option<String>,
    pub symbol_ref: String,
    pub name: String,
    pub kind: String,
    pub qualified_name: String,
    pub owner: Option<String>,
    pub signature: String,
    pub documentation_summary: Option<String>,
    pub source_category: String,
    pub relative_path: String,
    pub source_uri: Option<String>,
    pub declaration_range: SourceLineRange,
    pub selection_range: SourceLineRange,
    pub match_kind: String,
    pub inspect_input: InspectInput,
    pub read_source_input: ReadSourceInput,
}

/// One page of a search, with the number of hits per addon in ascending
/// order of addon GUID.
#[derive(Debug, Clone, PartialEq, Eq)]
pub struct GameDataSearchPage {
    pub catalogue_revision: String,
    pub query: String,
    pub applied_filters: AppliedFilters,
    pub returned: usize,
    pub total: usize,
    pub truncated: bool,
    pub totals_by_addon: Vec<(String, usize)>,
    pub next_cursor: Option<String>,
    pub results: Vec<GameDataSearchHit>,
}

/// Why a search was refused.
#[derive(Debug, Clone, PartialEq, Eq)]
pub enum GameDataSearchError {
    InvalidRequest(&'static str),
    InvalidCursor,
    StaleCursor,
    Cancelled,
}

/// The addon a file belongs to, as search hits show it.
#[derive(Debug, Clone, PartialEq, Eq)]
pub struct GameDataAddonIdentity {
    pub guid: String,
    pub label: String,
    pub thumbnail_color: Option<String>,
}

// ---------------------------------------------------------------------------
// Queries

/// The words of a text: its maximal runs of characters that are not
/// whitespace, in order.
pub open spec fn words(s: Seq<char>) -> Seq<Seq<char>>
    decreases s.len(),
{
    if s.len() == 0 {
        Seq::empty()
    } else if is_whitespace(s.last()) {
        words(s.drop_last())
    } else if s.len() >= 2 && !is_whitespace(s[s.len() - 2]) {
        let w = words(s.drop_last());
        w.update(w.len() - 1, w.last().push(s.last()))
    } else {
        words(s.drop_last()).push(seq![s.last()])
    }
}

/// A query with its words joined by single spaces.
pub open spec fn normalized_query(query: Seq<char>) -> Seq<char> {
    crate::text::join_chars(words(query), seq![' '])
}

/// Words are not empty, and a text ending in a word has one.
pub(crate) proof fn lemma_words(s: Seq<char>)
    ensures
        forall|i: int| 0 <= i < words(s).len() ==> #[trigger] words(s)[i].len() > 0,
        s.len() > 0 && !is_whitespace(s.last()) ==> words(s).len() > 0,
    decreases s.len(),
{
    if s.len() > 0 {
        lemma_words(s.drop_last());
        if !is_whitespace(s.last()) && s.len() >= 2 && !is_whitespace(s[s.len() - 2]) {
            assert(s.drop_last().last() == s[s.len() - 2]);
        }
    }
}

/// Extending the last part extends the joined text.
proof fn lemma_join_extend_last(parts: Seq<Seq<char>>, sep: Seq<char>, c: char)
    requires
        parts.len() > 0,
    ensures
        crate::text::join_chars(parts.update(parts.len() - 1, parts.last().push(c)), sep)
            == crate::text::join_chars(parts, sep).push(c),
{
    let t = parts.update(parts.len() - 1, parts.last().push(c));
    if parts.len() > 1 {
        assert(t.drop_last() =~= parts.drop_last());
    }
}

/// The words of a text, each as its characters.
pub(crate) fn split_words(chars: &[char]) -> (r: Vec<Vec<char>>)
    ensures
        segment_views(r@) == words(chars@),
{
    let mut out: Vec<Vec<char>> = Vec::new();
    let mut current: Vec<char> = Vec::new();
    let mut in_word = false;
    let mut i: usize = 0;
    while i < chars.len()
        invariant
            i <= chars@.len(),
            in_word == (i > 0 && !is_whitespace(chars@[i - 1])),
            in_word ==> words(chars@.take(i as int)).len() > 0,
            (if in_word {
                segment_views(out@).push(current@)
            } else {
                segment_views(out@)
            }) == words(chars@.take(i as int)),
        decreases chars@.len() - i,
    {
        let c = chars[i];
        let ghost prefix = chars@.take(i as int);
        let ghost next = chars@.take(i + 1);
        assert(next.drop_last() =~= prefix);
        proof {
            lemma_words(prefix);
            lemma_words(next);
        }
        if exec_is_whitespace(c) {
            if in_word {
                let ghost before = segment_views(out@);
                let done = current;
                current = Vec::new();
                out.push(done);
                assert(segment_views(out@) =~= before.push(done@));
            }
            in_word = false;
        } else {
            if in_word {
                assert(next[next.len() - 2] == chars@[i - 1]);
                let ghost before = current@;
                current.push(c);
                assert(words(next) =~= segment_views(out@).push(current@));
            } else {
                current = Vec::new();
                current.push(c);
                assert(words(next) =~= words(prefix).push(seq![c]));
                assert(current@ =~= seq![c]);
            }
            in_word = true;
        }
        i = i + 1;
    }
    assert(chars@.take(i as int) =~= chars@);
    if in_word {
        let ghost before = segment_views(out@);
        out.push(current);
        assert(segment_views(out@) =~= before.push(current@));
    }
    out
}

pub fn normalize_query(query: &str) -> (r: Result<String, GameDataSearchError>)
    ensures
        r is Ok <==> normalized_query(query@).len() <= MAX_QUERY_CHARS,
        r matches Ok(q) ==> q@ == normalized_query(query@),
        r matches Err(e) ==> e == GameDataSearchError::InvalidRequest("query exceeds 256 characters"),
{
    let chars = chars_of(query);
    let mut out = String::new();
    let mut count: usize = 0;
    let mut in_word = false;
    let mut i: usize = 0;
    while i < chars.len()
        invariant
            i <= chars@.len(),
            chars@ == query@,
            count == out@.len(),
            count + (if !in_word && count > 0 { 1int } else { 0int }) <= i,
            out@ == crate::text::join_chars(words(chars@.take(i as int)), seq![' ']),
            in_word == (i > 0 && !is_whitespace(chars@[i - 1])),
            out@.len() == 0 <==> words(chars@.take(i as int)).len() == 0,
        decreases chars@.len() - i,
    {
        let c = chars[i];
        let ghost prefix = chars@.take(i as int);
        let ghost next = chars@.take(i + 1);
        assert(next.drop_last() =~= prefix);
        proof {
            lemma_words(prefix);
            lemma_words(next);
        }
        if exec_is_whitespace(c) {
            in_word = false;
        } else {
            if in_word {
                assert(next[next.len() - 2] == chars@[i - 1]);
                proof {
                    lemma_join_extend_last(words(prefix), seq![' '], c);
                }
            } else {
                if count > 0 {
                    string_push(&mut out, ' ');
                    count = count + 1;
                }
                assert(words(next) =~= words(prefix).push(seq![c]));
                assert(words(next).drop_last() =~= words(prefix));
            }
            string_push(&mut out, c);
            count = count + 1;
            in_word = true;
        }
        i = i + 1;
    }
    assert(chars@.take(i as int) =~= chars@);
    if count > MAX_QUERY_CHARS {
        return Err(GameDataSearchError::InvalidRequest("query exceeds 256 characters"));
    }
    Ok(out)
}

// ---------------------------------------------------------------------------
// Names and signatures

/// The name a search gives a symbol kind.
pub open spec fn kind_label(kind: SymbolKind) -> Seq<char> {
    match kind {
        SymbolKind::Class => "class"@,
        SymbolKind::TypeParameter => "typeParameter"@,
        SymbolKind::Enum => "enum"@,
        SymbolKind::EnumMember => "enumMember"@,
        SymbolKind::Typedef => "typedef"@,
        SymbolKind::Function => "function"@,
        SymbolKind::GlobalField => "globalField"@,
        SymbolKind::Field => "field"@,
        SymbolKind::Method => "method"@,
        SymbolKind::Constructor => "constructor"@,
        SymbolKind::Destructor => "destructor"@,
        SymbolKind::Parameter => "parameter"@,
        SymbolKind::LocalVariable => "localVariable"@,
        SymbolKind::PreprocessorMacro => "preprocessorMacro"@,
    }
}

pub fn kind_name(kind: SymbolKind) -> (r: &'static str)
    ensures
        r@ == kind_label(kind),
{
    match kind {
        SymbolKind::Class => "class",
        SymbolKind::TypeParameter => "typeParameter",
        SymbolKind::Enum => "enum",
        SymbolKind::EnumMember => "enumMember",
        SymbolKind::Typedef => "typedef",
        SymbolKind::Function => "function",
        SymbolKind::GlobalField => "globalField",
        SymbolKind::Field => "field",
        SymbolKind::Method => "method",
        SymbolKind::Constructor => "constructor",
        SymbolKind::Destructor => "destructor",
        SymbolKind::Parameter => "parameter",
        SymbolKind::LocalVariable => "localVariable",
        SymbolKind::PreprocessorMacro => "preprocessorMacro",
    }
}

/// `owner.name`, or `name` without an owner.
pub open spec fn qualified(owner: Option<Seq<char>>, name: Seq<char>) -> Seq<char> {
    match owner {
        Some(o) => o + seq!['.'] + name,
        None => name,
    }
}

pub fn qualify(owner: Option<&str>, name: &str) -> (r: String)
    ensures
        r@ == qualified(
            match owner {
                Some(o) => Some(o@),
                None => None,
            },
            name@,
        ),
{
    let mut r = String::new();
    if let Some(o) = owner {
        string_push_str(&mut r, o);
        string_push(&mut r, '.');
    }
    string_push_str(&mut r, name);
    r
}

/// The name of the symbol's parent, if it has a named parent in the index.
pub open spec fn spec_owner_name(index: SymbolIndex, symbol: IndexedSymbol) -> Option<String> {
    match symbol.parent {
        Some(parent) => match index.spec_symbol(parent) {
            Some(p) => p.name,
            None => None,
        },
        None => None,
    }
}

pub fn owner_name(index: &SymbolIndex, symbol: &IndexedSymbol) -> (r: Option<String>)
    ensures
        r == spec_owner_name(*index, *symbol),
{
    match symbol.parent {
        Some(parent) => match index.symbol(parent) {
            Some(p) => match &p.name {
                Some(name) => Some(name.clone()),
                None => None,
            },
            None => None,
        },
        None => None,
    }
}

/// The signature shown for a symbol without a callable signature: a class
/// with its base, an enum, or the name with its type or return type.
pub open spec fn spec_compact_signature(symbol: IndexedSymbol, qualified_name: Seq<char>) -> Seq<char> {
    match symbol.kind {
        SymbolKind::Class => match symbol.detail.base_type {
            Some(base) => "class "@ + qualified_name + " : "@ + base@,
            None => "class "@ + qualified_name,
        },
        SymbolKind::Enum => "enum "@ + qualified_name,
        _ => match symbol.detail.type_text {
            Some(t) => qualified_name + ": "@ + t@,
            None => match symbol.detail.return_type_text {
                Some(t) => qualified_name + " -> "@ + t@,
                None => qualified_name,
            },
        },
    }
}

pub fn compact_signature(symbol: &IndexedSymbol, qualified_name: &str) -> (r: String)
    ensures
        r@ == spec_compact_signature(*symbol, qualified_name@),
{
    let mut r = String::new();
    match symbol.kind {
        SymbolKind::Class => {
            string_push_str(&mut r, "class ");
            string_push_str(&mut r, qualified_name);
            if let Some(base) = &symbol.detail.base_type {
                string_push_str(&mut r, " : ");
                string_push_str(&mut r, base.as_str());
            }
        },
        SymbolKind::Enum => {
            string_push_str(&mut r, "enum ");
            string_push_str(&mut r, qualified_name);
        },
        _ => {
            string_push_str(&mut r, qualified_name);
            if let Some(t) = &symbol.detail.type_text {
                string_push_str(&mut r, ": ");
                string_push_str(&mut r, t.as_str());
            } else if let Some(t) = &symbol.detail.return_type_text {
                string_push_str(&mut r, " -> ");
                string_push_str(&mut r, t.as_str());
            }
        },
    }
    r
}

/// A text of a hit: cut after `MAX_SEARCH_TEXT_CHARS` characters, with an
/// ellipsis when cut.
pub open spec fn bounded_text(value: Seq<char>) -> Seq<char> {
    if value.len() > MAX_SEARCH_TEXT_CHARS {
        value.take(MAX_SEARCH_TEXT_CHARS as int).push('\u{2026}')
    } else {
        value
    }
}

pub fn bounded_search_text(value: String) -> (r: String)
    ensures
        r@ == bounded_text(value@),
{
    let chars = chars_of(value.as_str());
    if chars.len() <= MAX_SEARCH_TEXT_CHARS {
        return value;
    }
    let mut r = String::new();
    let mut i: usize = 0;
    while i < MAX_SEARCH_TEXT_CHARS
        invariant
            i <= MAX_SEARCH_TEXT_CHARS < chars@.len(),
            r@ == chars@.take(i as int),
        decreases MAX_SEARCH_TEXT_CHARS - i,
    {
        string_push(&mut r, chars[i]);
        assert(chars@.take(i + 1) =~= chars@.take(i as int).push(chars@[i as int]));
        i = i + 1;
    }
    string_push(&mut r, '\u{2026}');
    r
}

// ---------------------------------------------------------------------------
// Hexadecimal framing of references and cursors

/// The lowercase hexadecimal digit of `d < 16`.
pub open spec fn hex_digit(d: int) -> char {
    if d < 10 {
        (48 + d) as char
    } else {
        (87 + d) as char
    }
}

/// Two lowercase hexadecimal digits per byte.
pub open spec fn spec_hex(bytes: Seq<u8>) -> Seq<char>
    decreases bytes.len(),
{
    if bytes.len() == 0 {
        Seq::empty()
    } else {
        spec_hex(bytes.drop_last()) + seq![hex_digit(bytes.last() as int / 16), hex_digit(bytes.last() as int % 16)]
    }
}

fn exec_hex_digit(d: u8) -> (c: char)
    requires
        d < 16,
    ensures
        c == hex_digit(d as int),
{
    if d < 10 {
        (48 + d) as char
    } else {
        (87 + d) as char
    }
}

pub fn hex(bytes: &[u8]) -> (r: String)
    ensures
        r@ == spec_hex(bytes@),
{
    let mut r = String::new();
    let mut i: usize = 0;
    while i < bytes.len()
        invariant
            i <= bytes@.len(),
            r@ == spec_hex(bytes@.take(i as int)),
        decreases bytes@.len() - i,
    {
        let b = bytes[i];
        assert(bytes@.take(i + 1).drop_last() =~= bytes@.take(i as int));
        string_push(&mut r, exec_hex_digit(b / 16));
        string_push(&mut r, exec_hex_digit(b % 16));
        i = i + 1;
    }
    assert(bytes@.take(i as int) =~= bytes@);
    r
}

/// The value of an ASCII hexadecimal digit of either case.
pub open spec fn hex_value(b: u8) -> Option<u8> {
    if 48 <= b <= 57 {
        Some((b - 48) as u8)
    } else if 97 <= b <= 102 {
        Some((b - 87) as u8)
    } else if 65 <= b <= 70 {
        Some((b - 55) as u8)
    } else {
        None
    }
}

fn exec_hex_value(b: u8) -> (r: Option<u8>)
    ensures
        r == hex_value(b),
{
    if 48 <= b && b <= 57 {
        Some(b - 48)
    } else if 97 <= b && b <= 102 {
        Some(b - 87)
    } else if 65 <= b && b <= 70 {
        Some(b - 55)
    } else {
        None
    }
}

/// A two-character base-16 number as `u8::from_str_radix` reads it: two
/// digits, or a plus sign and one digit.
pub open spec fn pair_value(a: u8, b: u8) -> Option<u8> {
    match (hex_value(a), hex_value(b)) {
        (Some(x), Some(y)) => Some((16 * x + y) as u8),
        (None, Some(y)) => if a == 43 {
            Some(y)
        } else {
            None
        },
        _ => None,
    }
}

/// The bytes spelled by pairs of hexadecimal digits; none when the length
/// is odd or a pair is not a number.
pub open spec fn spec_unhex(text: Seq<u8>) -> Option<Seq<u8>>
    decreases text.len(),
{
    if text.len() % 2 != 0 {
        None
    } else if text.len() == 0 {
        Some(Seq::empty())
    } else {
        match (spec_unhex(text.take(text.len() - 2)), pair_value(text[text.len() - 2], text[text.len() - 1])) {
            (Some(front), Some(v)) => Some(front.push(v)),
            _ => None,
        }
    }
}

/// Each pair of bytes that is read starts and ends on a character: pairs
/// are read from the front until one is not a number, and a text of odd
/// length is refused before any is read.
pub open spec fn pairs_on_boundaries(text: Seq<u8>) -> bool {
    text.len() % 2 != 0 || forall|k: int|
        0 <= k < text.len() && k % 2 == 0 && (#[trigger] spec_unhex(text.take(k))) is Some
            ==> vstd::utf8::is_char_boundary(text, k) && vstd::utf8::is_char_boundary(text, k + 2)
}

fn unhex_bytes(text: &[u8]) -> (r: Option<Vec<u8>>)
    ensures
        match r {
            Some(v) => spec_unhex(text@) == Some(v@),
            None => spec_unhex(text@) is None,
        },
{
    let ghost t = text@;
    if text.len() % 2 != 0 {
        return None;
    }
    let mut out: Vec<u8> = Vec::new();
    let mut i: usize = 0;
    while i < text.len()
        invariant
            t == text@,
            t.len() % 2 == 0,
            i <= t.len(),
            i % 2 == 0,
            spec_unhex(t.take(i as int)) == Some(out@),
        decreases t.len() - i,
    {
        let a = text[i];
        let b = text[i + 1];
        let ghost next = t.take(i + 2);
        assert(next.take(next.len() - 2) =~= t.take(i as int));
        let v = match (exec_hex_value(a), exec_hex_value(b)) {
            (Some(x), Some(y)) => 16 * x + y,
            (None, Some(y)) => {
                if a == 43 {
                    y
                } else {
                    proof {
                        lemma_unhex_fails_from(t, i + 2);
                    }
                    return None;
                }
            },
            _ => {
                proof {
                    lemma_unhex_fails_from(t, i + 2);
                }
                return None;
            },
        };
        out.push(v);
        i = i + 2;
    }
    assert(t.take(i as int) =~= t);
    Some(out)
}

/// The bytes that `value` spells in hexadecimal.  Each pair is read as a
/// piece of the text, so each pair that is read must lie on characters.
pub fn unhex(value: &str) -> (r: Option<Vec<u8>>)
    requires
        pairs_on_boundaries(encode_utf8(value@)),
    ensures
        match r {
            Some(v) => spec_unhex(encode_utf8(value@)) == Some(v@),
            None => spec_unhex(encode_utf8(value@)) is None,
        },
{
    unhex_bytes(value.as_bytes())
}

/// Once a prefix of even length fails, every longer even prefix fails.
proof fn lemma_unhex_fails_from(t: Seq<u8>, n: int)
    requires
        t.len() % 2 == 0,
        0 <= n <= t.len(),
        n % 2 == 0,
        spec_unhex(t.take(n)) is None,
    ensures
        spec_unhex(t) is None,
    decreases t.len() - n,
{
    if n < t.len() {
        let next = t.take(n + 2);
        assert(next.take(next.len() - 2) =~= t.take(n));
        lemma_unhex_fails_from(t, n + 2);
    } else {
        assert(t.take(n) =~= t);
    }
}

/// The framing of a symbol reference: `sr2:`.
pub open spec fn symbol_ref_prefix() -> Seq<u8> {
    seq![115u8, 114u8, 50u8, 58u8]
}

/// A symbol reference for the serialized form `json` of its fields.
pub fn encode_symbol_ref(json: &[u8]) -> (r: String)
    ensures
        r@ == "sr2:"@ + spec_hex(json@),
{
    let mut r = String::new();
    string_push_str(&mut r, "sr2:");
    let digits = hex(json);
    string_push_str(&mut r, digits.as_str());
    r
}

/// The serialized fields inside a symbol reference: nothing without the
/// `sr2:` prefix, for a value longer than `MAX_CURSOR_BYTES` bytes or with
/// nothing after the prefix, or when the rest is not hexadecimal.
pub open spec fn spec_symbol_ref_payload(text: Seq<u8>) -> Option<Seq<u8>> {
    if text.len() < 4 || text.take(4) != symbol_ref_prefix() {
        None
    } else if text.len() > MAX_CURSOR_BYTES || text.len() == 4 {
        None
    } else {
        spec_unhex(text.skip(4))
    }
}

pub fn symbol_ref_payload(value: &str) -> (r: Option<Vec<u8>>)
    requires
        ({
            let text = encode_utf8(value@);
            text.len() > 4 && text.take(4) == symbol_ref_prefix() && text.len() <= MAX_CURSOR_BYTES
                ==> pairs_on_boundaries(text.skip(4))
        }),
    ensures
        match r {
            Some(v) => spec_symbol_ref_payload(encode_utf8(value@)) == Some(v@),
            None => spec_symbol_ref_payload(encode_utf8(value@)) is None,
        },
{
    let text = value.as_bytes();
    if text.len() < 4 || text[0] != 115u8 || text[1] != 114u8 || text[2] != 50u8 || text[3] != 58u8 {
        proof {
            if text@.len() >= 4 {
                assert(text@.take(4)[0] == text@[0]);
                assert(text@.take(4)[1] == text@[1]);
                assert(text@.take(4)[2] == text@[2]);
                assert(text@.take(4)[3] == text@[3]);
            }
        }
        return None;
    }
    assert(text@.take(4) =~= symbol_ref_prefix());
    if text.len() > MAX_CURSOR_BYTES || text.len() == 4 {
        return None;
    }
    let rest = vstd::slice::slice_subrange(text, 4, text.len());
    assert(rest@ =~= text@.skip(4));
    unhex_bytes(rest)
}

/// The fields of a symbol reference.
#[derive(Debug, Clone, PartialEq, Eq)]
pub struct SymbolReference {
    pub version: u8,
    pub catalogue_revision: String,
    pub addon_guid: Option<String>,
    pub path: String,
    pub kind: String,
    pub qualified_name: String,
    pub selection_start: usize,
}

/// A reference read back from its fields is accepted in version 2 with a
/// revision, a path, a kind and a qualified name.
pub fn accept_symbol_reference(reference: SymbolReference) -> (r: Option<SymbolReference>)
    ensures
        r is Some <==> (reference.version == 2 && reference.catalogue_revision@.len() > 0
            && reference.path@.len() > 0 && reference.kind@.len() > 0
            && reference.qualified_name@.len() > 0),
        r matches Some(x) ==> x == reference,
{
    let accepted = reference.version == 2 && !chars_of(reference.catalogue_revision.as_str()).is_empty()
        && !chars_of(reference.path.as_str()).is_empty() && !chars_of(reference.kind.as_str()).is_empty()
        && !chars_of(reference.qualified_name.as_str()).is_empty();
    if accepted {
        Some(reference)
    } else {
        None
    }
}

/// The position of a search page and the canonical request it belongs to.
#[derive(Debug, Clone, PartialEq, Eq)]
pub struct Cursor {
    pub version: u8,
    pub catalogue_revision: String,
    pub query: String,
    pub kinds: Vec<String>,
    pub owner: Option<String>,
    pub source_categories: Vec<String>,
    pub addon_guids: Vec<String>,
    pub offset: usize,
}

/// A cursor for the serialized form `json` of its fields.
pub fn encode_cursor(json: &[u8]) -> (r: String)
    ensures
        r@ == spec_hex(json@),
{
    hex(json)
}

/// The serialized fields inside a cursor: refused when it is longer than
/// `MAX_CURSOR_BYTES` bytes or not hexadecimal.
pub fn cursor_payload(value: &str) -> (r: Result<Vec<u8>, GameDataSearchError>)
    requires
        encode_utf8(value@).len() <= MAX_CURSOR_BYTES ==> pairs_on_boundaries(encode_utf8(value@)),
    ensures
        match r {
            Ok(v) => encode_utf8(value@).len() <= MAX_CURSOR_BYTES && spec_unhex(encode_utf8(value@))
                == Some(v@),
            Err(e) => e == GameDataSearchError::InvalidCursor && (encode_utf8(value@).len()
                > MAX_CURSOR_BYTES || spec_unhex(encode_utf8(value@)) is None),
        },
{
    if value.as_bytes().len() > MAX_CURSOR_BYTES {
        return Err(GameDataSearchError::InvalidCursor);
    }
    match unhex(value) {
        Some(bytes) => Ok(bytes),
        None => Err(GameDataSearchError::InvalidCursor),
    }
}

/// A cursor read back from its fields is accepted in version 2 only.
pub fn accept_cursor(cursor: Cursor) -> (r: Result<Cursor, GameDataSearchError>)
    ensures
        r is Ok <==> cursor.version == 2,
        r matches Ok(c) ==> c == cursor,
        r matches Err(e) ==> e == GameDataSearchError::InvalidCursor,
{
    if cursor.version == 2 {
        Ok(cursor)
    } else {
        Err(GameDataSearchError::InvalidCursor)
    }
}

/// The hexadecimal text of bytes is ASCII, two digits per byte.
proof fn lemma_hex_shape(bytes: Seq<u8>)
    ensures
        spec_hex(bytes).len() == 2 * bytes.len(),
        forall|i: int| 0 <= i < bytes.len() ==> #[trigger] spec_hex(bytes)[2 * i] == hex_digit(bytes[i] as int / 16)
            && spec_hex(bytes)[2 * i + 1] == hex_digit(bytes[i] as int % 16),
        vstd::utf8::is_ascii_chars(spec_hex(bytes)),
    decreases bytes.len(),
{
    if bytes.len() > 0 {
        let rest = bytes.drop_last();
        lemma_hex_shape(rest);
        assert forall|i: int| 0 <= i < bytes.len() implies #[trigger] spec_hex(bytes)[2 * i] == hex_digit(bytes[i] as int / 16)
            && spec_hex(bytes)[2 * i + 1] == hex_digit(bytes[i] as int % 16) by {
            if i < rest.len() {
                assert(spec_hex(rest)[2 * i] == hex_digit(rest[i] as int / 16));
            }
        }
    }
}

/// Reading back pairs of digits gives the bytes they were written for.
proof fn lemma_unhex_digits(t: Seq<u8>, bytes: Seq<u8>)
    requires
        t.len() == 2 * bytes.len(),
        forall|i: int| 0 <= i < bytes.len() ==> #[trigger] t[2 * i] == hex_digit(bytes[i] as int / 16) as u8 && t[2 * i
            + 1] == hex_digit(bytes[i] as int % 16) as u8,
    ensures
        spec_unhex(t) == Some(bytes),
    decreases bytes.len(),
{
    if bytes.len() > 0 {
        let n = bytes.len() - 1;
        let front = t.take(t.len() - 2);
        assert forall|i: int| 0 <= i < n implies #[trigger] front[2 * i] == hex_digit(bytes.drop_last()[i] as int / 16) as u8
            && front[2 * i + 1] == hex_digit(bytes.drop_last()[i] as int % 16) as u8 by {
            assert(t[2 * i] == hex_digit(bytes[i] as int / 16) as u8);
        }
        lemma_unhex_digits(front, bytes.drop_last());
        assert(t[2 * n] == hex_digit(bytes[n] as int / 16) as u8);
        let hi = bytes[n] / 16;
        let lo = bytes[n] % 16;
        assert(hex_value(hex_digit(hi as int) as u8) == Some(hi as u8));
        assert(hex_value(hex_digit(lo as int) as u8) == Some(lo as u8));
        assert(16 * hi + lo == bytes[n]);
        assert(bytes.drop_last().push(bytes[n]) =~= bytes);
    }
}

/// Reading back the hexadecimal text of bytes gives the bytes.
pub proof fn lemma_unhex_undoes_hex(bytes: Seq<u8>)
    ensures
        spec_unhex(encode_utf8(spec_hex(bytes))) == Some(bytes),
{
    lemma_hex_shape(bytes);
    let chars = spec_hex(bytes);
    vstd::utf8::is_ascii_chars_encode_utf8(chars);
    let t = encode_utf8(chars);
    assert forall|i: int| 0 <= i < bytes.len() implies #[trigger] t[2 * i] == hex_digit(bytes[i] as int / 16) as u8 && t[2 * i
        + 1] == hex_digit(bytes[i] as int % 16) as u8 by {
        assert(chars[2 * i] as u8 == t[2 * i]);
        assert(chars[2 * i + 1] as u8 == t[2 * i + 1]);
    }
    lemma_unhex_digits(t, bytes);
}

/// A symbol reference made of serialized fields gives those fields back,
/// when it fits in `MAX_CURSOR_BYTES` bytes.
pub proof fn lemma_symbol_ref_round_trip(json: Seq<u8>)
    requires
        json.len() > 0,
        4 + 2 * json.len() <= MAX_CURSOR_BYTES,
    ensures
        spec_symbol_ref_payload(encode_utf8("sr2:"@ + spec_hex(json))) == Some(json),
{
    reveal_strlit("sr2:");
    let p = "sr2:"@;
    let h = spec_hex(json);
    crate::declarators::lemma_encode_concat(p, h);
    assert(vstd::utf8::is_ascii_chars(p));
    vstd::utf8::is_ascii_chars_encode_utf8(p);
    lemma_hex_shape(json);
    vstd::utf8::is_ascii_chars_encode_utf8(h);
    let text = encode_utf8(p + h);
    assert(text.take(4) =~= symbol_ref_prefix());
    assert(text.skip(4) =~= encode_utf8(h));
    lemma_unhex_undoes_hex(json);
}

// ---------------------------------------------------------------------------
// Canonical filters

/// Strictly ascending by code point, so without repeats.
pub open spec fn strictly_ascending(s: Seq<Seq<char>>) -> bool {
    forall|i: int, j: int| 0 <= i < j < s.len() ==> chars_lt(#[trigger] s[i], #[trigger] s[j])
}

/// Puts `key` at its place among ascending `keys`, unless it is there.
pub(crate) fn insert_key(keys: &mut Vec<Vec<char>>, key: Vec<char>) -> (inserted: bool)
    requires
        strictly_ascending(segment_views(old(keys)@)),
    ensures
        inserted == !segment_views(old(keys)@).contains(key@),
        strictly_ascending(segment_views(final(keys)@)),
        segment_views(final(keys)@).to_set() == segment_views(old(keys)@).to_set().insert(key@),
        final(keys)@.len() == old(keys)@.len() + if inserted {
            1int
        } else {
            0int
        },
{
    let ghost before = segment_views(keys@);
    proof {
        lemma_char_lt_strict_total();
    }
    let mut p: usize = 0;
    while p < keys.len() && chars_less(keys[p].as_slice(), key.as_slice())
        invariant
            p <= keys@.len(),
            before == segment_views(keys@),
            strictly_ascending(before),
            forall|j: int| 0 <= j < p ==> chars_lt(#[trigger] before[j], key@),
        decreases keys@.len() - p,
    {
        p = p + 1;
    }
    proof {
        lemma_char_lt_strict_total();
    }
    if p < keys.len() && chars_eq(keys[p].as_slice(), key.as_slice()) {
        assert(before[p as int] == key@);
        assert(before.to_set().insert(key@) =~= before.to_set());
        return false;
    }
    let ghost k = key@;
    proof {
        if p < before.len() {
            assert(!chars_lt(before[p as int], k));
            assert(before[p as int] != k);
            lemma_lex_total(before[p as int], k, char_lt());
        }
        assert forall|q: int| 0 <= q < before.len() implies before[q] != k by {
            if q < p {
                lemma_lex_irreflexive(k, char_lt());
            } else if q > p {
                if before[q] == k {
                    assert(chars_lt(before[p as int], before[q]));
                }
            }
        }
    }
    keys.insert(p, key);
    let ghost after = segment_views(keys@);
    assert(after =~= before.insert(p as int, k));
    proof {
        assert forall|i: int, j: int| 0 <= i < j < after.len() implies chars_lt(#[trigger] after[i], #[trigger] after[j]) by {
            if j < p {
                assert(after[i] == before[i] && after[j] == before[j]);
            } else if j == p {
                assert(after[i] == before[i]);
            } else if i > p {
                assert(after[i] == before[i - 1] && after[j] == before[j - 1]);
            } else if i == p {
                assert(after[j] == before[j - 1]);
                if j - 1 > p {
                    lemma_lex_transitive(k, before[p as int], before[j - 1], char_lt());
                }
            } else {
                assert(after[i] == before[i] && after[j] == before[j - 1]);
                if j - 1 >= p {
                    lemma_lex_transitive(before[i], k, before[p as int], char_lt());
                    if j - 1 > p {
                        lemma_lex_transitive(before[i], before[p as int], before[j - 1], char_lt());
                    }
                }
            }
        }
        assert(after.to_set() =~= before.to_set().insert(k)) by {
            assert forall|x: Seq<char>| after.contains(x) <==> before.contains(x) || x == k by {
                if after.contains(x) {
                    let i = choose|i: int| 0 <= i < after.len() && after[i] == x;
                    if i < p {
                        assert(before[i] == x);
                    } else if i > p {
                        assert(before[i - 1] == x);
                    }
                }
                if before.contains(x) {
                    let i = choose|i: int| 0 <= i < before.len() && before[i] == x;
                    if i < p {
                        assert(after[i] == x);
                    } else {
                        assert(after[i + 1] == x);
                    }
                }
                if x == k {
                    assert(after[p as int] == x);
                }
            }
        }
    }
    true
}

pub(crate) fn strings_of_keys(keys: &Vec<Vec<char>>) -> (r: Vec<String>)
    ensures
        r@.map_values(|x: String| x@) == segment_views(keys@),
{
    let mut r: Vec<String> = Vec::new();
    let mut i: usize = 0;
    while i < keys.len()
        invariant
            i <= keys@.len(),
            r@.map_values(|x: String| x@) == segment_views(keys@).take(i as int),
        decreases keys@.len() - i,
    {
        let ghost before = r@;
        r.push(string_from_chars(keys[i].as_slice()));
        assert(r@.map_values(|x: String| x@) =~= before.map_values(|x: String| x@).push(keys@[i as int]@));
        assert(segment_views(keys@).take(i + 1) =~= segment_views(keys@).take(i as int).push(keys@[i as int]@));
        i = i + 1;
    }
    assert(segment_views(keys@).take(i as int) =~= segment_views(keys@));
    r
}

/// The kinds a search filters by when the request names none.
pub open spec fn default_kind_labels() -> Seq<Seq<char>> {
    seq![
        "class"@,
        "constructor"@,
        "destructor"@,
        "enum"@,
        "enumMember"@,
        "field"@,
        "function"@,
        "globalField"@,
        "method"@,
        "preprocessorMacro"@,
        "typedef"@,
    ]
}

/// Every kind a search can filter by.
pub open spec fn all_kind_labels() -> Seq<Seq<char>> {
    seq![
        "class"@,
        "constructor"@,
        "destructor"@,
        "enum"@,
        "enumMember"@,
        "field"@,
        "function"@,
        "globalField"@,
        "localVariable"@,
        "method"@,
        "parameter"@,
        "preprocessorMacro"@,
        "typeParameter"@,
        "typedef"@,
    ]
}

fn default_kinds() -> (r: Vec<&'static str>)
    ensures
        r@.map_values(|x: &str| x@) == default_kind_labels(),
{
    let r = vec![
        "class",
        "constructor",
        "destructor",
        "enum",
        "enumMember",
        "field",
        "function",
        "globalField",
        "method",
        "preprocessorMacro",
        "typedef",
    ];
    assert(r@.map_values(|x: &str| x@) =~= default_kind_labels());
    r
}

fn all_kinds() -> (r: Vec<&'static str>)
    ensures
        r@.map_values(|x: &str| x@) == all_kind_labels(),
{
    let r = vec![
        "class",
        "constructor",
        "destructor",
        "enum",
        "enumMember",
        "field",
        "function",
        "globalField",
        "localVariable",
        "method",
        "parameter",
        "preprocessorMacro",
        "typeParameter",
        "typedef",
    ];
    assert(r@.map_values(|x: &str| x@) =~= all_kind_labels());
    r
}

fn contains_str(list: &Vec<&'static str>, value: &str) -> (r: bool)
    ensures
        r == list@.map_values(|x: &str| x@).contains(value@),
{
    let ghost views = list@.map_values(|x: &str| x@);
    let mut i: usize = 0;
    while i < list.len()
        invariant
            i <= list@.len(),
            views == list@.map_values(|x: &str| x@),
            forall|j: int| 0 <= j < i ==> views[j] != value@,
        decreases list@.len() - i,
    {
        if str_eq(list[i], value) {
            assert(views[i as int] == value@);
            return true;
        }
        i = i + 1;
    }
    false
}

/// The kinds a request names, or the default kinds.
pub open spec fn requested_kinds(values: Option<&[String]>) -> Seq<Seq<char>> {
    match values {
        Some(v) => v@.map_values(|x: String| x@),
        None => default_kind_labels(),
    }
}

/// A list was given, and it is empty.
pub open spec fn given_empty(values: Option<&[String]>) -> bool {
    match values {
        Some(v) => v@.len() == 0,
        None => false,
    }
}

/// The kinds of a request in canonical form: refused when the list is
/// given empty, or holds a repeat or a kind a search does not know; else
/// the kinds in ascending order.
pub fn canonical_kinds(values: Option<&[String]>) -> (r: Result<Vec<String>, GameDataSearchError>)
    ensures
        given_empty(values) ==> r == Err::<Vec<String>, GameDataSearchError>(
            GameDataSearchError::InvalidRequest("kinds must be non-empty"),
        ),
        !given_empty(values) ==> (r is Ok <==> requested_kinds(values).no_duplicates() && forall|i: int|
            0 <= i < requested_kinds(values).len() ==> all_kind_labels().contains(
                #[trigger] requested_kinds(values)[i],
            )),
        !given_empty(values) ==> (r matches Err(e) ==> e == GameDataSearchError::InvalidRequest(
            "kinds must be unique supported symbol kinds",
        )),
        r matches Ok(out) ==> strictly_ascending(out@.map_values(|x: String| x@)) && out@.map_values(
            |x: String| x@,
        ).to_set() == requested_kinds(values).to_set() && out@.len() == requested_kinds(values).len(),
{
    let ghost kinds = requested_kinds(values);
    let mut names: Vec<Vec<char>> = Vec::new();
    match values {
        Some(v) => {
            if v.len() == 0 {
                return Err(GameDataSearchError::InvalidRequest("kinds must be non-empty"));
            }
            let mut i: usize = 0;
            while i < v.len()
                invariant
                    i <= v@.len(),
                    kinds == v@.map_values(|x: String| x@),
                    segment_views(names@) == kinds.take(i as int),
                decreases v@.len() - i,
            {
                let ghost before = names@;
                names.push(chars_of(v[i].as_str()));
                assert(segment_views(names@) =~= segment_views(before).push(kinds[i as int]));
                assert(kinds.take(i + 1) =~= kinds.take(i as int).push(kinds[i as int]));
                i = i + 1;
            }
            assert(kinds.take(i as int) =~= kinds);
        },
        None => {
            let defaults = default_kinds();
            let mut i: usize = 0;
            while i < defaults.len()
                invariant
                    i <= defaults@.len(),
                    kinds == defaults@.map_values(|x: &str| x@),
                    segment_views(names@) == kinds.take(i as int),
                decreases defaults@.len() - i,
            {
                let ghost before = names@;
                names.push(chars_of(defaults[i]));
                assert(segment_views(names@) =~= segment_views(before).push(kinds[i as int]));
                assert(kinds.take(i + 1) =~= kinds.take(i as int).push(kinds[i as int]));
                i = i + 1;
            }
            assert(kinds.take(i as int) =~= kinds);
        },
    }
    let allowed = all_kinds();
    let mut keys: Vec<Vec<char>> = Vec::new();
    let mut i: usize = 0;
    while i < names.len()
        invariant
            i <= names@.len(),
            segment_views(names@) == kinds,
            kinds == requested_kinds(values),
            !given_empty(values),
            allowed@.map_values(|x: &str| x@) == all_kind_labels(),
            kinds.take(i as int).no_duplicates(),
            forall|j: int| 0 <= j < i ==> all_kind_labels().contains(#[trigger] kinds[j]),
            strictly_ascending(segment_views(keys@)),
            segment_views(keys@).to_set() == kinds.take(i as int).to_set(),
            keys@.len() == i,
        decreases names@.len() - i,
    {
        let name = string_from_chars(names[i].as_slice());
        assert(name@ == kinds[i as int]);
        if !contains_str(&allowed, name.as_str()) {
            assert(!all_kind_labels().contains(kinds[i as int]));
            return Err(GameDataSearchError::InvalidRequest("kinds must be unique supported symbol kinds"));
        }
        let ghost prefix = kinds.take(i as int);
        assert(kinds.take(i + 1) =~= prefix.push(kinds[i as int]));
        proof {
            prefix.lemma_push_to_set_commute(kinds[i as int]);
        }
        let ghost old_keys = segment_views(keys@);
        if !insert_key(&mut keys, names[i].clone()) {
            proof {
                assert(old_keys.contains(kinds[i as int]));
                assert(old_keys.to_set().contains(kinds[i as int]));
                assert(prefix.to_set().contains(kinds[i as int]));
                let j = choose|j: int| 0 <= j < prefix.len() && prefix[j] == kinds[i as int];
                assert(kinds[j] == kinds[i as int]);
                assert(!kinds.no_duplicates());
            }
            return Err(GameDataSearchError::InvalidRequest("kinds must be unique supported symbol kinds"));
        }
        proof {
            assert(!prefix.contains(kinds[i as int])) by {
                if prefix.contains(kinds[i as int]) {
                    assert(prefix.to_set().contains(kinds[i as int]));
                }
            }
            assert(kinds.take(i + 1).no_duplicates()) by {
                let next = kinds.take(i + 1);
                assert forall|a: int, b: int| 0 <= a < next.len() && 0 <= b < next.len() && a != b implies #[trigger] next[a] != #[trigger] next[b] by {
                    if b == i {
                        assert(prefix[a] == kinds[a]);
                    } else if a == i {
                        assert(prefix[b] == kinds[b]);
                    } else {
                        assert(prefix[a] != prefix[b]);
                    }
                }
            }
        }
        i = i + 1;
    }
    assert(kinds.take(i as int) =~= kinds);
    Ok(strings_of_keys(&keys))
}

/// The addons of the files of an index, by file.
pub type GameDataAddonMap = Vec<(SourceFileId, GameDataAddonIdentity)>;

/// The GUIDs of the addons of a map.
pub open spec fn available_guids(addons: Seq<(SourceFileId, GameDataAddonIdentity)>) -> Set<Seq<char>> {
    addons.map_values(|e: (SourceFileId, GameDataAddonIdentity)| e.1.guid@).to_set()
}

pub open spec fn upper_guid(s: Seq<char>) -> Seq<char> {
    s.map_values(|c: char| ascii_upper(c))
}

pub open spec fn is_hex_char(c: char) -> bool {
    ('0' <= c <= '9') || ('a' <= c <= 'f') || ('A' <= c <= 'F')
}

/// Sixteen hexadecimal digits.
pub open spec fn guid_shaped(s: Seq<char>) -> bool {
    s.len() == 16 && forall|i: int| 0 <= i < s.len() ==> is_hex_char(#[trigger] s[i])
}

/// The GUIDs a request names, in upper case.
pub open spec fn requested_guids(values: Seq<String>) -> Seq<Seq<char>> {
    values.map_values(|x: String| upper_guid(x@))
}

fn upper_chars(s: &str) -> (r: Vec<char>)
    ensures
        r@ == upper_guid(s@),
{
    let chars = chars_of(s);
    let mut r: Vec<char> = Vec::new();
    let mut i: usize = 0;
    while i < chars.len()
        invariant
            i <= chars@.len(),
            chars@ == s@,
            r@ == upper_guid(chars@.take(i as int)),
        decreases chars@.len() - i,
    {
        let c = chars[i];
        let u = if 'a' <= c && c <= 'z' {
            ((c as u8) - 32) as char
        } else {
            c
        };
        assert(u == ascii_upper(c));
        r.push(u);
        assert(upper_guid(chars@.take(i + 1)) =~= upper_guid(chars@.take(i as int)).push(ascii_upper(c)));
        i = i + 1;
    }
    assert(chars@.take(i as int) =~= chars@);
    r
}

pub(crate) fn is_guid_shaped(s: &[char]) -> (r: bool)
    ensures
        r == guid_shaped(s@),
{
    if s.len() != 16 {
        return false;
    }
    let mut i: usize = 0;
    while i < s.len()
        invariant
            i <= s@.len(),
            forall|j: int| 0 <= j < i ==> is_hex_char(#[trigger] s@[j]),
        decreases s@.len() - i,
    {
        let c = s[i];
        if !(('0' <= c && c <= '9') || ('a' <= c && c <= 'f') || ('A' <= c && c <= 'F')) {
            return false;
        }
        i = i + 1;
    }
    true
}

fn contains_key(keys: &Vec<Vec<char>>, key: &[char]) -> (r: bool)
    ensures
        r == segment_views(keys@).contains(key@),
{
    let ghost views = segment_views(keys@);
    let mut i: usize = 0;
    while i < keys.len()
        invariant
            i <= keys@.len(),
            views == segment_views(keys@),
            forall|j: int| 0 <= j < i ==> views[j] != key@,
        decreases keys@.len() - i,
    {
        if chars_eq(keys[i].as_slice(), key) {
            assert(views[i as int] == key@);
            return true;
        }
        i = i + 1;
    }
    false
}

/// The addon GUIDs a search is restricted to, in canonical form.  A
/// workspace search takes none.  Without a list, all the addons' GUIDs;
/// a given list must not be empty, and each GUID, in upper case, must be
/// sixteen hexadecimal digits, named once and loaded.  The GUIDs come out
/// in ascending order.
pub fn canonical_addon_guids(
    values: Option<&[String]>,
    addon_map: &[(SourceFileId, GameDataAddonIdentity)],
    workspace_scope: bool,
) -> (r: Result<Vec<String>, GameDataSearchError>)
    ensures
        workspace_scope && values is Some ==> r == Err::<Vec<String>, GameDataSearchError>(
            GameDataSearchError::InvalidRequest("addonGuids is supported only for Game Data search"),
        ),
        workspace_scope && values is None ==> (r matches Ok(out) && out@.len() == 0),
        !workspace_scope && values is None ==> (r matches Ok(out) && strictly_ascending(
            out@.map_values(|x: String| x@),
        ) && out@.map_values(|x: String| x@).to_set() == available_guids(addon_map@)),
        !workspace_scope && given_empty(values) ==> r == Err::<Vec<String>, GameDataSearchError>(
            GameDataSearchError::InvalidRequest("addonGuids must be non-empty when provided"),
        ),
        !workspace_scope && values is Some && !given_empty(values) ==> ({
            let guids = requested_guids(values->0@);
            &&& r is Ok <==> guids.no_duplicates() && forall|i: int|
                0 <= i < guids.len() ==> guid_shaped(#[trigger] guids[i]) && available_guids(addon_map@).contains(
                    guids[i],
                )
            &&& r matches Err(e) ==> e == GameDataSearchError::InvalidRequest(
                "addonGuids must contain unique loaded 16-character hexadecimal GUIDs",
            )
            &&& r matches Ok(out) ==> strictly_ascending(out@.map_values(|x: String| x@)) && out@.map_values(
                |x: String| x@,
            ).to_set() == guids.to_set() && out@.len() == guids.len()
        }),
{
    if workspace_scope {
        if values.is_some() {
            return Err(GameDataSearchError::InvalidRequest("addonGuids is supported only for Game Data search"));
        }
        return Ok(Vec::new());
    }
    let ghost all = addon_map@.map_values(|e: (SourceFileId, GameDataAddonIdentity)| e.1.guid@);
    let mut available: Vec<Vec<char>> = Vec::new();
    let mut i: usize = 0;
    while i < addon_map.len()
        invariant
            i <= addon_map@.len(),
            all == addon_map@.map_values(|e: (SourceFileId, GameDataAddonIdentity)| e.1.guid@),
            strictly_ascending(segment_views(available@)),
            segment_views(available@).to_set() == all.take(i as int).to_set(),
        decreases addon_map@.len() - i,
    {
        let guid = chars_of(addon_map[i].1.guid.as_str());
        proof {
            all.take(i as int).lemma_push_to_set_commute(all[i as int]);
        }
        assert(all.take(i + 1) =~= all.take(i as int).push(all[i as int]));
        insert_key(&mut available, guid);
        i = i + 1;
    }
    assert(all.take(i as int) =~= all);
    let v = match values {
        None => {
            return Ok(strings_of_keys(&available));
        },
        Some(v) => v,
    };
    if v.len() == 0 {
        return Err(GameDataSearchError::InvalidRequest("addonGuids must be non-empty when provided"));
    }
    let ghost guids = requested_guids(v@);
    let mut keys: Vec<Vec<char>> = Vec::new();
    let mut i: usize = 0;
    while i < v.len()
        invariant
            i <= v@.len(),
            v@.len() > 0,
            values == Some(v),
            !workspace_scope,
            guids == requested_guids(v@),
            segment_views(available@).to_set() == available_guids(addon_map@),
            all == addon_map@.map_values(|e: (SourceFileId, GameDataAddonIdentity)| e.1.guid@),
            guids.take(i as int).no_duplicates(),
            forall|j: int| 0 <= j < i ==> guid_shaped(#[trigger] guids[j]) && available_guids(addon_map@).contains(guids[j]),
            strictly_ascending(segment_views(keys@)),
            segment_views(keys@).to_set() == guids.take(i as int).to_set(),
            keys@.len() == i,
        decreases v@.len() - i,
    {
        let guid = upper_chars(v[i].as_str());
        assert(guid@ == guids[i as int]);
        if !is_guid_shaped(guid.as_slice()) {
            return Err(
                GameDataSearchError::InvalidRequest("addonGuids must contain unique loaded 16-character hexadecimal GUIDs"),
            );
        }
        if !contains_key(&available, guid.as_slice()) {
            proof {
                if available_guids(addon_map@).contains(guids[i as int]) {
                    assert(segment_views(available@).to_set().contains(guid@));
                }
            }
            return Err(
                GameDataSearchError::InvalidRequest("addonGuids must contain unique loaded 16-character hexadecimal GUIDs"),
            );
        }
        let ghost prefix = guids.take(i as int);
        assert(guids.take(i + 1) =~= prefix.push(guids[i as int]));
        proof {
            prefix.lemma_push_to_set_commute(guids[i as int]);
        }
        let ghost old_keys = segment_views(keys@);
        if !insert_key(&mut keys, guid) {
            proof {
                assert(old_keys.contains(guids[i as int]));
                assert(old_keys.to_set().contains(guids[i as int]));
                assert(prefix.to_set().contains(guids[i as int]));
                let j = choose|j: int| 0 <= j < prefix.len() && prefix[j] == guids[i as int];
                assert(guids[j] == guids[i as int]);
                assert(!guids.no_duplicates());
            }
            return Err(
                GameDataSearchError::InvalidRequest("addonGuids must contain unique loaded 16-character hexadecimal GUIDs"),
            );
        }
        proof {
            assert(!prefix.contains(guids[i as int])) by {
                if prefix.contains(guids[i as int]) {
                    assert(prefix.to_set().contains(guids[i as int]));
                }
            }
            let next = guids.take(i + 1);
            assert forall|a: int, b: int| 0 <= a < next.len() && 0 <= b < next.len() && a != b implies #[trigger] next[a]
                != #[trigger] next[b] by {
                if b == i {
                    assert(prefix[a] == guids[a]);
                } else if a == i {
                    assert(prefix[b] == guids[b]);
                } else {
                    assert(prefix[a] != prefix[b]);
                }
            }
        }
        i = i + 1;
    }
    assert(guids.take(i as int) =~= guids);
    Ok(strings_of_keys(&keys))
}

// ---------------------------------------------------------------------------
// Ranking a symbol against a query

/// What `str::to_lowercase` gives for a text: the Unicode lowercase
/// mapping of each character, which takes the Unicode tables to state.
pub uninterp spec fn lowercase(s: Seq<char>) -> Seq<char>;

/// `str::to_lowercase`.  Claimed: the result is `lowercase` of the text,
/// the same for the same text.
#[verifier::external_body]
fn to_lowercase(s: &str) -> (r: String)
    ensures
        r@ == lowercase(s@),
{
    s.to_lowercase()
}

/// `needle` occurs in `hay`.
pub open spec fn contains_text(hay: Seq<char>, needle: Seq<char>) -> bool {
    exists|i: int| 0 <= i <= hay.len() - needle.len() && #[trigger] hay.subrange(i, i + needle.len()) == needle
}

pub(crate) fn chars_contain(hay: &[char], needle: &[char]) -> (r: bool)
    ensures
        r == contains_text(hay@, needle@),
{
    if needle.len() > hay.len() {
        return false;
    }
    let n = hay.len();
    let last = n - needle.len();
    let mut i: usize = 0;
    while i <= last
        invariant
            n == hay@.len(),
            last == hay@.len() - needle@.len(),
            i <= last + 1,
            forall|k: int| 0 <= k < i ==> #[trigger] hay@.subrange(k, k + needle@.len()) != needle@,
        decreases last + 1 - i,
    {
        let mut j: usize = 0;
        while j < needle.len() && hay[i + j] == needle[j]
            invariant
                n == hay@.len(),
                i <= last,
                last == hay@.len() - needle@.len(),
                j <= needle@.len(),
                forall|m: int| 0 <= m < j ==> hay@[i + m] == needle@[m],
            decreases needle@.len() - j,
        {
            j = j + 1;
        }
        if j == needle.len() {
            assert(hay@.subrange(i as int, i + needle@.len()) =~= needle@);
            return true;
        }
        assert(hay@.subrange(i as int, i + needle@.len())[j as int] != needle@[j as int]);
        i = i + 1;
    }
    false
}

fn text_contains(hay: &str, needle: &[char]) -> (r: bool)
    ensures
        r == contains_text(hay@, needle@),
{
    let chars = chars_of(hay);
    chars_contain(chars.as_slice(), needle)
}

/// A query in the shape of an identifier prefix, such as `SCR_`: it ends in
/// `_` and holds only ASCII letters, digits and `_`.
pub open spec fn identifier_prefix(folded: Seq<char>) -> bool {
    folded.len() > 0 && folded.last() == '_' && forall|i: int|
        0 <= i < folded.len() ==> #[trigger] is_word_char(folded[i])
}

pub open spec fn is_word_char(c: char) -> bool {
    ('a' <= c <= 'z') || ('A' <= c <= 'Z') || ('0' <= c <= '9') || c == '_'
}

fn is_identifier_prefix(folded: &[char]) -> (r: bool)
    ensures
        r == identifier_prefix(folded@),
{
    if folded.len() == 0 || folded[folded.len() - 1] != '_' {
        return false;
    }
    let mut i: usize = 0;
    while i < folded.len()
        invariant
            i <= folded@.len(),
            forall|j: int| 0 <= j < i ==> is_word_char(#[trigger] folded@[j]),
        decreases folded@.len() - i,
    {
        let c = folded[i];
        if !(('a' <= c && c <= 'z') || ('A' <= c && c <= 'Z') || ('0' <= c && c <= '9') || c == '_') {
            assert(!is_word_char(folded@[i as int]));
            return false;
        }
        i = i + 1;
    }
    true
}

/// The lowercase form of an optional text contains `folded`.
pub open spec fn folded_contains(value: Option<String>, folded: Seq<char>) -> bool {
    match value {
        Some(v) => contains_text(lowercase(v@), folded),
        None => false,
    }
}

/// How well a symbol matches a query, best first: the exact name, the name
/// in any case, a name prefix, the qualified name, a part of the name, the
/// signature, a type; none when nothing matches.  An empty query matches
/// every named symbol by kind.  A query shaped as an identifier prefix is
/// not looked for in qualified names, signatures or types.
pub open spec fn spec_match_rank(
    symbol: IndexedSymbol,
    qualified_name: Seq<char>,
    signature: Option<Seq<char>>,
    query: Seq<char>,
    folded: Seq<char>,
) -> Option<(u8, Seq<char>)> {
    match symbol.name {
        None => None,
        Some(name) => {
            let name_folded = lowercase(name@);
            let prefix_shape = identifier_prefix(folded);
            if query.len() == 0 {
                Some((8u8, "kind"@))
            } else if name@ == query {
                Some((1u8, "exactName"@))
            } else if name_folded == folded {
                Some((2u8, "caseInsensitiveName"@))
            } else if crate::expression_type::starts_with(name_folded, folded) {
                Some((3u8, "namePrefix"@))
            } else if !prefix_shape && qualified_name != name@ && contains_text(lowercase(qualified_name), folded) {
                Some((4u8, "qualifiedName"@))
            } else if contains_text(name_folded, folded) {
                Some((5u8, "nameSubstring"@))
            } else if !prefix_shape && (signature matches Some(sig) && contains_text(lowercase(sig), folded)) {
                Some((6u8, "signature"@))
            } else if !prefix_shape && (folded_contains(symbol.detail.type_text, folded) || folded_contains(
                symbol.detail.return_type_text,
                folded,
            ) || folded_contains(symbol.detail.base_type, folded)) {
                Some((7u8, "type"@))
            } else {
                None
            }
        },
    }
}

/// A named symbol is found through each of its type texts: when a query
/// that is not an identifier prefix occurs in its lowercased type, return
/// type or base type, the symbol matches at the type rank (7) or better;
/// and exactly as a type match when its name (in any case), qualified name
/// and signature do not match.
pub proof fn lemma_type_texts_are_searched(
    symbol: IndexedSymbol,
    qualified_name: Seq<char>,
    signature: Option<Seq<char>>,
    query: Seq<char>,
    folded: Seq<char>,
)
    requires
        symbol.name is Some,
        query.len() > 0,
        !identifier_prefix(folded),
        (symbol.detail.type_text matches Some(t) && contains_text(lowercase(t@), folded)) || (
        symbol.detail.return_type_text matches Some(t) && contains_text(lowercase(t@), folded)) || (
        symbol.detail.base_type matches Some(t) && contains_text(lowercase(t@), folded)),
    ensures
        spec_match_rank(symbol, qualified_name, signature, query, folded) matches Some((rank, _)) && 1 <= rank <= 7,
        ({
            let name = symbol.name->0@;
            name != query && !contains_text(lowercase(name), folded) && qualified_name == name && signature is None
        }) ==> spec_match_rank(symbol, qualified_name, signature, query, folded) == Some((7u8, "type"@)),
{
    let name = symbol.name->0@;
    let nf = lowercase(name);
    if nf == folded {
        assert(nf.subrange(0int, 0int + folded.len()) =~= folded);
        assert(contains_text(nf, folded));
    }
    if crate::expression_type::starts_with(nf, folded) {
        assert(nf.subrange(0int, 0int + folded.len()) =~= nf.take(folded.len() as int));
        assert(contains_text(nf, folded));
    }
}

/// The best ranks: an empty query matches every named symbol by kind (8);
/// otherwise the exact name ranks first (1), and the name in another case
/// second (2).
pub proof fn lemma_name_ranks(
    symbol: IndexedSymbol,
    qualified_name: Seq<char>,
    signature: Option<Seq<char>>,
    query: Seq<char>,
    folded: Seq<char>,
)
    requires
        symbol.name is Some,
    ensures
        query.len() == 0 ==> spec_match_rank(symbol, qualified_name, signature, query, folded) == Some(
            (8u8, "kind"@),
        ),
        query.len() > 0 && symbol.name->0@ == query ==> spec_match_rank(
            symbol,
            qualified_name,
            signature,
            query,
            folded,
        ) == Some((1u8, "exactName"@)),
        query.len() > 0 && symbol.name->0@ != query && lowercase(symbol.name->0@) == folded ==> spec_match_rank(
            symbol,
            qualified_name,
            signature,
            query,
            folded,
        ) == Some((2u8, "caseInsensitiveName"@)),
{
}

fn optional_folded_contains(value: &Option<String>, folded: &[char]) -> (r: bool)
    ensures
        r == folded_contains(*value, folded@),
{
    match value {
        Some(v) => {
            let lower = to_lowercase(v.as_str());
            text_contains(lower.as_str(), folded)
        },
        None => false,
    }
}

pub fn match_rank(
    symbol: &IndexedSymbol,
    qualified_name: &str,
    signature: Option<&str>,
    query: &str,
    query_folded: &str,
) -> (r: Option<(u8, &'static str)>)
    ensures
        match r {
            Some((rank, kind)) => spec_match_rank(
                *symbol,
                qualified_name@,
                match signature {
                    Some(s) => Some(s@),
                    None => None,
                },
                query@,
                query_folded@,
            ) == Some((rank, kind@)),
            None => spec_match_rank(
                *symbol,
                qualified_name@,
                match signature {
                    Some(s) => Some(s@),
                    None => None,
                },
                query@,
                query_folded@,
            ) is None,
        },
{
    let name = match &symbol.name {
        Some(n) => n,
        None => return None,
    };
    let name_folded = to_lowercase(name.as_str());
    if chars_of(query).len() == 0 {
        return Some((8, "kind"));
    }
    let folded = chars_of(query_folded);
    let prefix_shape = is_identifier_prefix(folded.as_slice());
    if str_eq(name.as_str(), query) {
        return Some((1, "exactName"));
    }
    let name_folded_chars = chars_of(name_folded.as_str());
    if chars_eq(name_folded_chars.as_slice(), folded.as_slice()) {
        return Some((2, "caseInsensitiveName"));
    }
    if crate::expression_type::chars_start_with(name_folded_chars.as_slice(), folded.as_slice()) {
        return Some((3, "namePrefix"));
    }
    if !prefix_shape && !str_eq(qualified_name, name.as_str()) {
        let qualified_folded = to_lowercase(qualified_name);
        if text_contains(qualified_folded.as_str(), folded.as_slice()) {
            return Some((4, "qualifiedName"));
        }
    }
    if chars_contain(name_folded_chars.as_slice(), folded.as_slice()) {
        return Some((5, "nameSubstring"));
    }
    if !prefix_shape {
        if let Some(sig) = signature {
            let sig_folded = to_lowercase(sig);
            if text_contains(sig_folded.as_str(), folded.as_slice()) {
                return Some((6, "signature"));
            }
        }
        if optional_folded_contains(&symbol.detail.type_text, folded.as_slice())
            || optional_folded_contains(&symbol.detail.return_type_text, folded.as_slice())
            || optional_folded_contains(&symbol.detail.base_type, folded.as_slice()) {
            return Some((7, "type"));
        }
    }
    None
}

/// The symbol is declared `modded` or `override`.
pub open spec fn has_origin_modifier(s: IndexedSymbol) -> bool {
    exists|i: int| 0 <= i < s.modifiers.len() && (#[trigger] s.modifiers[i]@ == "modded"@ || s.modifiers[i]@
        == "override"@)
}

/// The symbol's chain of parents in the index ends after at most `fuel`
/// steps.
pub open spec fn chain_ends_within(index: SymbolIndex, s: IndexedSymbol, fuel: nat) -> bool
    decreases fuel,
{
    match s.parent {
        None => true,
        Some(p) => match index.spec_symbol(p) {
            None => true,
            Some(parent) => fuel > 0 && chain_ends_within(index, parent, (fuel - 1) as nat),
        },
    }
}

/// The symbol or one of its first `fuel` ancestors is `modded` or
/// `override`.
pub open spec fn marked_within(index: SymbolIndex, s: IndexedSymbol, fuel: nat) -> bool
    decreases fuel,
{
    has_origin_modifier(s) || (fuel > 0 && match s.parent {
        None => false,
        Some(p) => match index.spec_symbol(p) {
            None => false,
            Some(parent) => marked_within(index, parent, (fuel - 1) as nat),
        },
    })
}

fn is_origin_modifier_list(modifiers: &Vec<String>) -> (r: bool)
    ensures
        r == exists|i: int| 0 <= i < modifiers@.len() && (#[trigger] modifiers@[i]@ == "modded"@ || modifiers@[i]@
            == "override"@),
{
    let mut i: usize = 0;
    while i < modifiers.len()
        invariant
            i <= modifiers@.len(),
            forall|j: int| 0 <= j < i ==> !(#[trigger] modifiers@[j]@ == "modded"@ || modifiers@[j]@ == "override"@),
        decreases modifiers@.len() - i,
    {
        if str_eq(modifiers[i].as_str(), "modded") || str_eq(modifiers[i].as_str(), "override") {
            return true;
        }
        i = i + 1;
    }
    false
}

/// 1 when the symbol or an ancestor is declared `modded` or `override`,
/// else 0.  The walk up the parents ends only where the chain of parents
/// does, which the caller vouches for.
pub fn declaration_origin_rank(index: &SymbolIndex, symbol: &IndexedSymbol) -> (r: u8)
    requires
        exists|fuel: nat| chain_ends_within(*index, *symbol, fuel),
    ensures
        forall|fuel: nat| #[trigger] chain_ends_within(*index, *symbol, fuel) ==> (r == 1 <==> marked_within(
            *index,
            *symbol,
            fuel,
        )),
        r == 0 || r == 1,
{
    let ghost total = choose|fuel: nat| chain_ends_within(*index, *symbol, fuel);
    let mut current = symbol;
    let ghost mut depth: nat = 0;
    loop
        invariant
            depth <= total,
            chain_ends_within(*index, *symbol, total),
            forall|fuel: nat| #[trigger] chain_ends_within(*index, *symbol, fuel) ==> fuel >= depth
                && chain_ends_within(*index, *current, (fuel - depth) as nat) && (marked_within(*index, *symbol, fuel)
                <==> marked_within(*index, *current, (fuel - depth) as nat)),
        decreases total - depth,
    {
        if is_origin_modifier_list(&current.modifiers) {
            return 1;
        }
        let parent = match current.parent {
            Some(p) => p,
            None => return 0,
        };
        match index.symbol(parent) {
            Some(next) => {
                proof {
                    assert forall|fuel: nat| #[trigger] chain_ends_within(*index, *symbol, fuel) implies fuel >= depth + 1
                        && chain_ends_within(*index, *next, (fuel - (depth + 1)) as nat) && (marked_within(
                        *index,
                        *symbol,
                        fuel,
                    ) <==> marked_within(*index, *next, (fuel - (depth + 1)) as nat)) by {
                        let f = (fuel - depth) as nat;
                        assert(chain_ends_within(*index, *current, f));
                        assert(f > 0);
                        assert(marked_within(*index, *current, f) == marked_within(*index, *next, (f - 1) as nat));
                    }
                    depth = depth + 1;
                }
                current = next;
            },
            None => return 0,
        }
    }
}

} // verus!
