//! The errors and requests of inspection and source reads: the checks on
//! a source read request, and the byte-bounded cut of long texts.
use vstd::prelude::*;
use crate::analysis_runtime::utf8_len;
use crate::game_data_search::contains_text;
use crate::index_build::char_start;
use crate::text::{chars_of, string_push, to_owned_string};
use vstd::utf8::encode_utf8;

verus! {

pub const MAX_SYMBOL_REF_BYTES: usize = 2048;

/// Lines read when a request names no count.
pub const DEFAULT_LINES: usize = 200;

/// At most this many lines are read at once.
pub const MAX_LINES: usize = 500;

/// At most this many bytes of source are returned at once.
pub const MAX_SOURCE_BYTES: usize = 128 * 1024;

/// Why an inspection or a source read failed.
#[derive(Debug, Clone, PartialEq, Eq)]
pub enum GameDataInspectionError {
    Initialization(String),
    Unavailable,
    InvalidSymbolRef,
    StaleSymbolRef,
    InvalidSource(String),
    GameDataChanged,
    Cancelled,
}

/// A request for lines of a catalogue file.
#[derive(Debug, Clone)]
pub struct GameDataSourceReadRequest {
    pub catalogue_revision: String,
    pub relative_path: String,
    pub start_line: Option<usize>,
    pub line_count: Option<usize>,
}

// ---------------------------------------------------------------------------
// Cutting texts by bytes

/// The longest prefix of `chars` whose encoding fits in `max` bytes.
pub open spec fn prefix_within(chars: Seq<char>, max: int, k: int) -> bool {
    0 <= k <= chars.len() && char_start(chars, k) <= max && (k == chars.len() || char_start(chars, k + 1) > max)
}

/// `value` cut to at most `max` bytes at a character boundary, and whether
/// it was cut.
pub fn bounded(value: String, max: usize) -> (r: (String, bool))
    ensures
        encode_utf8(value@).len() <= max ==> r.0@ == value@ && !r.1,
        encode_utf8(value@).len() > max ==> r.1 && exists|k: int| prefix_within(value@, max as int, k) && r.0@
            == value@.take(k),
{
    let byte_len = value.as_str().as_bytes().len();
    if byte_len <= max {
        return (value, false);
    }
    let chars = chars_of(value.as_str());
    let mut out = String::new();
    let mut used: usize = 0;
    let mut k: usize = 0;
    proof {
        crate::index_build::lemma_char_start_encoded(chars@, chars@.len() as int);
        assert(chars@.take(chars@.len() as int) =~= chars@);
    }
    while k < chars.len()
        invariant
            k <= chars@.len(),
            chars@ == value@,
            used == char_start(chars@, k as int),
            used <= max,
            out@ == chars@.take(k as int),
            char_start(chars@, chars@.len() as int) == byte_len,
            byte_len == encode_utf8(value@).len(),
            byte_len > max,
        decreases chars@.len() - k,
    {
        let c = chars[k];
        let width: usize = if (c as u32) < 0x80 {
            1
        } else if (c as u32) < 0x800 {
            2
        } else if (c as u32) < 0x10000 {
            3
        } else {
            4
        };
        assert(width == utf8_len(c));
        if width > max - used {
            assert(prefix_within(value@, max as int, k as int));
            return (out, true);
        }
        used = used + width;
        string_push(&mut out, c);
        assert(chars@.take(k + 1) =~= chars@.take(k as int).push(c));
        k = k + 1;
    }
    (out, true)
}

// ---------------------------------------------------------------------------
// Read requests

/// A logical catalogue path: not empty, with no backslash, no leading `/`
/// and no `..`.
pub open spec fn exact_logical_path(path: Seq<char>) -> bool {
    path.len() > 0 && !contains_text(path, seq!['\\']) && path[0] != '/' && !contains_text(path, seq!['.', '.'])
}

/// A read request for `revision` is refused as stale when it was made for
/// another revision, and as invalid when its path is not an exact logical
/// catalogue path.
pub fn check_source_read_request(request: &GameDataSourceReadRequest, revision: &str) -> (r: Result<
    (),
    GameDataInspectionError,
>)
    ensures
        request.catalogue_revision@ != revision@ ==> r == Err::<(), GameDataInspectionError>(
            GameDataInspectionError::StaleSymbolRef,
        ),
        request.catalogue_revision@ == revision@ && !exact_logical_path(request.relative_path@) ==> (r matches Err(
            GameDataInspectionError::InvalidSource(m),
        ) && m@ == "relativePath must be an exact logical catalogue path"@),
        request.catalogue_revision@ == revision@ && exact_logical_path(request.relative_path@) ==> r is Ok,
{
    if !crate::text::str_eq(request.catalogue_revision.as_str(), revision) {
        return Err(GameDataInspectionError::StaleSymbolRef);
    }
    let path = chars_of(request.relative_path.as_str());
    let backslash = vec!['\\'];
    let dots = vec!['.', '.'];
    assert(backslash@ =~= seq!['\\']);
    assert(dots@ =~= seq!['.', '.']);
    if path.len() == 0 || crate::game_data_search::chars_contain(path.as_slice(), backslash.as_slice()) || path[0]
        == '/' || crate::game_data_search::chars_contain(path.as_slice(), dots.as_slice()) {
        return Err(
            GameDataInspectionError::InvalidSource(
                to_owned_string("relativePath must be an exact logical catalogue path"),
            ),
        );
    }
    Ok(())
}

} // verus!
