//! Game-data research queries: their terms (identifiers split into words
//! at separators and lower-to-upper case steps, lowercased and reduced to a
//! singular form), the ranking of matched candidates, the answer's status
//! and alternatives, and the add-ons a query may answer from.
use crate::game_data_inspection::GameDataInspectionError;
use crate::game_data_search::{
    available_guids, canonical_addon_guids, given_empty, guid_shaped, requested_guids, strictly_ascending,
    GameDataAddonIdentity, GameDataSearchError,
};
use crate::index::{GlobalSymbolId, SourceFileId};
use crate::order::{char_lt, chars_less, chars_lt, lemma_char_lt_strict_total, lemma_chars_lt_strict_total, lemma_lex_irreflexive, lemma_lex_total, lemma_lex_transitive};
use crate::text::{chars_eq, chars_of, str_eq, string_from_chars, to_owned_string};
use vstd::prelude::*;

verus! {

/// Whether `char::is_alphanumeric` holds of `c` (Unicode `Alphabetic` or
/// `Numeric`).
pub uninterp spec fn alphanumeric(c: char) -> bool;

/// Whether `char::is_uppercase` holds of `c` (Unicode `Uppercase`).
pub uninterp spec fn uppercase(c: char) -> bool;

/// Whether `char::is_lowercase` holds of `c` (Unicode `Lowercase`).
pub uninterp spec fn lowercase(c: char) -> bool;

/// `char::is_alphanumeric`; the contract names its answer, which depends on
/// the character alone.
#[verifier::external_body]
fn char_is_alphanumeric(c: char) -> (r: bool)
    ensures
        r == alphanumeric(c),
{
    c.is_alphanumeric()
}

/// `char::is_uppercase`; the contract names its answer, which depends on
/// the character alone.
#[verifier::external_body]
fn char_is_uppercase(c: char) -> (r: bool)
    ensures
        r == uppercase(c),
{
    c.is_uppercase()
}

/// `char::is_lowercase`; the contract names its answer, which depends on
/// the character alone.
#[verifier::external_body]
fn char_is_lowercase(c: char) -> (r: bool)
    ensures
        r == lowercase(c),
{
    c.is_lowercase()
}

/// An ASCII decimal digit.
pub open spec fn ascii_digit(c: char) -> bool {
    '0' <= c <= '9'
}

/// `c` with an ASCII capital letter replaced by its small letter.
pub open spec fn ascii_lower(c: char) -> char {
    if 'A' <= c <= 'Z' {
        ((c as u32) + 32) as char
    } else {
        c
    }
}

fn exec_ascii_lower(c: char) -> (r: char)
    ensures
        r == ascii_lower(c),
{
    if 'A' <= c && c <= 'Z' {
        let v: u32 = (c as u32) + 32;
        assert(0x61 <= v <= 0x7a);
        v as u8 as char
    } else {
        c
    }
}

/// A character that ends a word: an underscore or a character that is not
/// alphanumeric.
pub open spec fn separates(c: char) -> bool {
    c == '_' || !alphanumeric(c)
}

/// `c` starts a new word after `previous`: a capital after a small letter
/// or an ASCII digit.
pub open spec fn case_step(previous: Option<char>, c: char) -> bool {
    uppercase(c) && match previous {
        Some(p) => lowercase(p) || ascii_digit(p),
        None => false,
    }
}

/// `words` with the word being read appended, unless it is empty.
pub open spec fn close_word(words: Seq<Seq<char>>, current: Seq<char>) -> Seq<Seq<char>> {
    if current.len() == 0 {
        words
    } else {
        words.push(current)
    }
}

/// Reading `cs` from the front: the words finished so far, the word being
/// read (lowercased), and the last character of that word.
pub open spec fn scan_words(cs: Seq<char>) -> (Seq<Seq<char>>, Seq<char>, Option<char>)
    decreases cs.len(),
{
    if cs.len() == 0 {
        (Seq::empty(), Seq::empty(), None)
    } else {
        let (words, current, previous) = scan_words(cs.drop_last());
        let c = cs.last();
        if separates(c) {
            (close_word(words, current), Seq::empty(), None)
        } else if case_step(previous, c) {
            (close_word(words, current), seq![ascii_lower(c)], Some(c))
        } else {
            (words, current.push(ascii_lower(c)), Some(c))
        }
    }
}

/// The lowercased words of an identifier or a phrase.
pub open spec fn identifier_words(cs: Seq<char>) -> Seq<Seq<char>> {
    let (words, current, _) = scan_words(cs);
    close_word(words, current)
}

/// The UTF-8 length of a word.
pub open spec fn utf8_len(w: Seq<char>) -> nat {
    vstd::utf8::encode_utf8(w).len()
}

/// `w` ends with `suffix`.
pub open spec fn ends_with(w: Seq<char>, suffix: Seq<char>) -> bool {
    suffix.len() <= w.len() && w.subrange(w.len() - suffix.len(), w.len() as int) == suffix
}

/// A word in its singular form: `-ies` becomes `-y`; `-ses`, `-xes`,
/// `-zes`, `-ches` and `-shes` lose `es`; any other final `s` goes.  Each
/// rule applies to words longer than its limit in UTF-8 bytes (four, four
/// and three).
pub open spec fn normalized_term(w: Seq<char>) -> Seq<char> {
    if utf8_len(w) > 4 && ends_with(w, "ies"@) {
        w.take(w.len() - 3).push('y')
    } else if utf8_len(w) > 4 && (ends_with(w, "ses"@) || ends_with(w, "xes"@) || ends_with(w, "zes"@)
        || ends_with(w, "ches"@) || ends_with(w, "shes"@)) {
        w.take(w.len() - 2)
    } else if utf8_len(w) > 3 && w.len() > 0 && w.last() == 's' {
        w.take(w.len() - 1)
    } else {
        w
    }
}

/// The terms of an identifier or a phrase, in order.
pub open spec fn spec_identifier_terms(cs: Seq<char>) -> Seq<Seq<char>> {
    identifier_words(cs).map_values(|w: Seq<char>| normalized_term(w))
}

fn chars_end_with(w: &Vec<char>, suffix: &str) -> (r: bool)
    ensures
        r == ends_with(w@, suffix@),
{
    let s = chars_of(suffix);
    if s.len() > w.len() {
        return false;
    }
    let start = w.len() - s.len();
    let mut i: usize = 0;
    while i < s.len()
        invariant
            s@ == suffix@,
            s.len() <= w.len(),
            start == w.len() - s.len(),
            i <= s.len(),
            forall|k: int| 0 <= k < i ==> w@[start + k] == s@[k],
        decreases s.len() - i,
    {
        if w[start + i] != s[i] {
            assert(w@.subrange(start as int, w.len() as int)[i as int] != s@[i as int]);
            return false;
        }
        i = i + 1;
    }
    assert(w@.subrange(start as int, w.len() as int) =~= s@);
    true
}

fn take_chars(w: &Vec<char>, n: usize) -> (r: Vec<char>)
    requires
        n <= w.len(),
    ensures
        r@ == w@.take(n as int),
{
    let mut r: Vec<char> = Vec::new();
    let mut i: usize = 0;
    while i < n
        invariant
            n <= w.len(),
            i <= n,
            r@ == w@.take(i as int),
        decreases n - i,
    {
        r.push(w[i]);
        assert(w@.take(i + 1) =~= w@.take(i as int).push(w@[i as int]));
        i = i + 1;
    }
    r
}

/// The singular form of a lowercased word (see `normalized_term`).
pub fn normalize_term(value: &str) -> (r: String)
    ensures
        r@ == normalized_term(value@),
{
    let w = chars_of(value);
    let bytes = value.as_bytes().len();
    proof {
        reveal_strlit("ies");
        reveal_strlit("ses");
        reveal_strlit("xes");
        reveal_strlit("zes");
        reveal_strlit("ches");
        reveal_strlit("shes");
    }
    if bytes > 4 && chars_end_with(&w, "ies") {
        let mut t = take_chars(&w, w.len() - 3);
        t.push('y');
        return string_from_chars(&t);
    }
    if bytes > 4 && (chars_end_with(&w, "ses") || chars_end_with(&w, "xes") || chars_end_with(&w, "zes")
        || chars_end_with(&w, "ches") || chars_end_with(&w, "shes")) {
        let t = take_chars(&w, w.len() - 2);
        return string_from_chars(&t);
    }
    if bytes > 3 && w.len() > 0 && w[w.len() - 1] == 's' {
        let t = take_chars(&w, w.len() - 1);
        return string_from_chars(&t);
    }
    string_from_chars(&w)
}

/// The terms of `ts` that are not empty, in order.
pub open spec fn drop_empty(ts: Seq<Seq<char>>) -> Seq<Seq<char>>
    decreases ts.len(),
{
    if ts.len() == 0 {
        Seq::empty()
    } else if ts.last().len() > 0 {
        drop_empty(ts.drop_last()).push(ts.last())
    } else {
        drop_empty(ts.drop_last())
    }
}

/// The views of a list of strings.
pub open spec fn string_views(v: Seq<String>) -> Seq<Seq<char>> {
    v.map_values(|t: String| t@)
}

/// The views of a list of character vectors.
pub open spec fn word_views(v: Seq<Vec<char>>) -> Seq<Seq<char>> {
    v.map_values(|w: Vec<char>| w@)
}

/// The terms of an identifier or a phrase: its words (split at characters
/// that are not alphanumeric, at underscores and where a capital follows a
/// small letter or a digit), ASCII-lowercased and in singular form.
pub fn identifier_terms(value: &str) -> (r: Vec<String>)
    ensures
        string_views(r@) == drop_empty(spec_identifier_terms(value@)),
{
    let cs = chars_of(value);
    let mut words: Vec<Vec<char>> = Vec::new();
    let mut current: Vec<char> = Vec::new();
    let mut previous: Option<char> = None;
    let mut i: usize = 0;
    assert(cs@.take(0) =~= Seq::<char>::empty());
    while i < cs.len()
        invariant
            i <= cs@.len(),
            cs@ == value@,
            (word_views(words@), current@, previous) == scan_words(cs@.take(i as int)),
        decreases cs@.len() - i,
    {
        let c = cs[i];
        assert(cs@.take(i + 1).drop_last() =~= cs@.take(i as int));
        assert(cs@.take(i + 1).last() == c);
        let ghost before = word_views(words@);
        let ghost cur = current@;
        if c == '_' || !char_is_alphanumeric(c) {
            if current.len() > 0 {
                words.push(current);
                assert(word_views(words@) =~= before.push(cur));
            }
            current = Vec::new();
            previous = None;
            assert(current@ =~= Seq::<char>::empty());
        } else {
            let step = char_is_uppercase(c) && match previous {
                Some(p) => char_is_lowercase(p) || ('0' <= p && p <= '9'),
                None => false,
            };
            let lower = exec_ascii_lower(c);
            if step {
                if current.len() > 0 {
                    words.push(current);
                    assert(word_views(words@) =~= before.push(cur));
                }
                current = Vec::new();
                current.push(lower);
                assert(current@ =~= seq![ascii_lower(c)]);
            } else {
                current.push(lower);
            }
            previous = Some(c);
        }
        i = i + 1;
    }
    assert(cs@.take(i as int) =~= cs@);
    let ghost before = word_views(words@);
    if current.len() > 0 {
        let ghost cur = current@;
        words.push(current);
        assert(word_views(words@) =~= before.push(cur));
    }
    let ghost ws = word_views(words@);
    assert(ws == identifier_words(value@));
    let mut out: Vec<String> = Vec::new();
    let mut k: usize = 0;
    let ghost terms = spec_identifier_terms(value@);
    assert(terms.take(0) =~= Seq::<Seq<char>>::empty());
    while k < words.len()
        invariant
            k <= words@.len(),
            ws == word_views(words@),
            terms == ws.map_values(|w: Seq<char>| normalized_term(w)),
            string_views(out@) == drop_empty(terms.take(k as int)),
        decreases words@.len() - k,
    {
        let word = string_from_chars(&words[k]);
        assert(word@ == ws[k as int]);
        let t = normalize_term(word.as_str());
        assert(terms.take(k + 1).drop_last() =~= terms.take(k as int));
        assert(terms.take(k + 1).last() == t@);
        let ghost before_out = string_views(out@);
        if !t.as_str().is_empty() {
            out.push(t);
            assert(string_views(out@) =~= before_out.push(t@));
        }
        k = k + 1;
    }
    assert(terms.take(k as int) =~= terms);
    out
}

/// Words that carry no meaning in a research query.
pub open spec fn stop_word(t: Seq<char>) -> bool {
    ||| t == "a"@ ||| t == "an"@ ||| t == "and"@ ||| t == "for"@ ||| t == "from"@ ||| t == "get"@
    ||| t == "how"@ ||| t == "in"@ ||| t == "me"@ ||| t == "of"@ ||| t == "on"@ ||| t == "the"@
    ||| t == "this"@ ||| t == "to"@ ||| t == "when"@ ||| t == "where"@ ||| t == "with"@
}

fn is_stop_word(t: &str) -> (r: bool)
    ensures
        r == stop_word(t@),
{
    str_eq(t, "a") || str_eq(t, "an") || str_eq(t, "and") || str_eq(t, "for") || str_eq(t, "from")
        || str_eq(t, "get") || str_eq(t, "how") || str_eq(t, "in") || str_eq(t, "me") || str_eq(t, "of")
        || str_eq(t, "on") || str_eq(t, "the") || str_eq(t, "this") || str_eq(t, "to") || str_eq(t, "when")
        || str_eq(t, "where") || str_eq(t, "with")
}

/// Strictly increasing in the order of strings (by code point).
pub open spec fn strictly_sorted(ts: Seq<Seq<char>>) -> bool {
    forall|i: int, j: int| 0 <= i < j < ts.len() ==> chars_lt(#[trigger] ts[i], #[trigger] ts[j])
}

/// Adds `x` to a strictly sorted list unless it is already there.
fn insert_sorted(out: &mut Vec<Vec<char>>, x: Vec<char>)
    requires
        strictly_sorted(word_views(old(out)@)),
    ensures
        strictly_sorted(word_views(final(out)@)),
        forall|t: Seq<char>| #[trigger] word_views(final(out)@).contains(t) <==> (word_views(old(out)@).contains(t)
            || t == x@),
{
    let ghost v = word_views(out@);
    proof {
        lemma_chars_lt_strict_total();
    }
    let mut p: usize = 0;
    while p < out.len() && chars_less(out[p].as_slice(), x.as_slice())
        invariant
            v == word_views(out@),
            p <= out@.len(),
            forall|k: int| 0 <= k < p ==> chars_lt(#[trigger] v[k], x@),
        decreases out@.len() - p,
    {
        p = p + 1;
    }
    if p < out.len() && chars_eq(out[p].as_slice(), x.as_slice()) {
        assert(v[p as int] == x@);
        return;
    }
    proof {
        if p < v.len() {
            assert(!chars_lt(v[p as int], x@));
            assert(v[p as int] != x@);
            lemma_lex_total(v[p as int], x@, char_lt());
            assert(chars_lt(x@, v[p as int]));
        }
    }
    let ghost xv = x@;
    out.insert(p, x);
    let ghost w = word_views(out@);
    assert(w =~= v.insert(p as int, xv));
    assert forall|i: int, j: int| 0 <= i < j < w.len() implies chars_lt(#[trigger] w[i], #[trigger] w[j]) by {
        lemma_char_lt_strict_total();
        if j < p {
            assert(w[i] == v[i] && w[j] == v[j]);
        } else if j == p {
            assert(w[i] == v[i]);
        } else if i == p {
            assert(w[j] == v[j - 1]);
            if j - 1 > p {
                assert(chars_lt(v[p as int], v[j - 1]));
                lemma_lex_transitive(xv, v[p as int], v[j - 1], char_lt());
            }
        } else if i < p {
            assert(w[i] == v[i] && w[j] == v[j - 1]);
            if i < j - 1 {
                assert(chars_lt(v[i], v[j - 1]));
            } else {
                assert(chars_lt(v[i], xv));
                lemma_lex_irreflexive(xv, char_lt());
            }
        } else {
            assert(w[i] == v[i - 1] && w[j] == v[j - 1]);
        }
    }
    assert forall|t: Seq<char>| #[trigger] w.contains(t) <==> (v.contains(t) || t == xv) by {
        if w.contains(t) {
            let k = choose|k: int| 0 <= k < w.len() && w[k] == t;
            if k < p {
                assert(v[k] == t);
            } else if k > p {
                assert(v[k - 1] == t);
            }
        }
        if v.contains(t) {
            let k = choose|k: int| 0 <= k < v.len() && v[k] == t;
            if k < p {
                assert(w[k] == t);
            } else {
                assert(w[k + 1] == t);
            }
        }
        if t == xv {
            assert(w[p as int] == t);
        }
    }
}

/// The distinct meaningful terms of a query, in the order of strings: its
/// identifier terms without the stop words.
pub fn meaningful_terms(value: &str) -> (r: Vec<String>)
    ensures
        strictly_sorted(string_views(r@)),
        forall|t: Seq<char>| #[trigger] string_views(r@).contains(t) <==> (drop_empty(spec_identifier_terms(value@)).contains(t)
            && !stop_word(t)),
{
    let terms = identifier_terms(value);
    let ghost tv = string_views(terms@);
    let mut sorted: Vec<Vec<char>> = Vec::new();
    let mut k: usize = 0;
    while k < terms.len()
        invariant
            k <= terms@.len(),
            tv == string_views(terms@),
            strictly_sorted(word_views(sorted@)),
            forall|t: Seq<char>| #[trigger] word_views(sorted@).contains(t) <==> (tv.take(k as int).contains(t)
                && !stop_word(t)),
        decreases terms@.len() - k,
    {
        let ghost before = word_views(sorted@);
        let ghost xk = tv[k as int];
        assert(tv.take(k + 1) =~= tv.take(k as int).push(xk));
        assert forall|t: Seq<char>| #[trigger] tv.take(k + 1).contains(t) <==> (tv.take(k as int).contains(t) || t == xk) by {
            if tv.take(k + 1).contains(t) && t != xk {
                let j = choose|j: int| 0 <= j < k + 1 && #[trigger] tv.take(k + 1)[j] == t;
                assert(tv.take(k as int)[j] == t);
            }
            if tv.take(k as int).contains(t) {
                let j = choose|j: int| 0 <= j < k && #[trigger] tv.take(k as int)[j] == t;
                assert(tv.take(k + 1)[j] == t);
            }
            if t == xk {
                assert(tv.take(k + 1)[k as int] == t);
            }
        }
        if !is_stop_word(terms[k].as_str()) {
            let x = chars_of(terms[k].as_str());
            assert(x@ == xk);
            insert_sorted(&mut sorted, x);
            assert forall|t: Seq<char>| #[trigger] word_views(sorted@).contains(t) <==> (tv.take(k + 1).contains(t)
                && !stop_word(t)) by {
                assert(tv.take(k + 1).contains(t) <==> (tv.take(k as int).contains(t) || t == xk));
                assert(before.contains(t) <==> (tv.take(k as int).contains(t) && !stop_word(t)));
            }
        } else {
            assert forall|t: Seq<char>| #[trigger] word_views(sorted@).contains(t) <==> (tv.take(k + 1).contains(t)
                && !stop_word(t)) by {
                assert(tv.take(k + 1).contains(t) <==> (tv.take(k as int).contains(t) || t == xk));
                assert(before.contains(t) <==> (tv.take(k as int).contains(t) && !stop_word(t)));
            }
        }
        k = k + 1;
    }
    assert(tv.take(k as int) =~= tv);
    let mut out: Vec<String> = Vec::new();
    let mut i: usize = 0;
    while i < sorted.len()
        invariant
            i <= sorted@.len(),
            string_views(out@) == word_views(sorted@).take(i as int),
        decreases sorted@.len() - i,
    {
        let t = string_from_chars(sorted[i].as_slice());
        assert(t@ == word_views(sorted@)[i as int]);
        let ghost before_out = string_views(out@);
        out.push(t);
        assert(string_views(out@) =~= before_out.push(t@));
        assert(word_views(sorted@).take(i + 1) =~= word_views(sorted@).take(i as int).push(t@));
        i = i + 1;
    }
    assert(word_views(sorted@).take(i as int) =~= word_views(sorted@));
    out
}

/// How a research query was answered.
#[derive(Debug, Clone, Copy, PartialEq, Eq, Structural)]
pub enum IntentStatus {
    Resolved,
    Ambiguous,
    NotFound,
}

/// What the caller should do next: `Nothing` when the answer is settled.
#[derive(Debug, Clone, Copy, PartialEq, Eq, Structural)]
pub enum IntentFollowUp {
    Nothing,
    RefineQuery,
}

/// A symbol that matched a research query, with its score.
#[derive(Debug, Clone, PartialEq, Eq)]
pub struct IntentCandidate {
    pub id: GlobalSymbolId,
    pub score: u32,
    pub whole_query_exact: bool,
    pub origin_rank: u8,
    pub matched_terms: Vec<String>,
}

/// `a` ranks before `b`: a higher score, then a lower origin rank, then the
/// lower file and symbol ids.
pub open spec fn candidate_before(a: IntentCandidate, b: IntentCandidate) -> bool {
    ||| a.score > b.score
    ||| a.score == b.score && a.origin_rank < b.origin_rank
    ||| a.score == b.score && a.origin_rank == b.origin_rank && a.id.file_id.0 < b.id.file_id.0
    ||| a.score == b.score && a.origin_rank == b.origin_rank && a.id.file_id == b.id.file_id
        && a.id.symbol_id.0 < b.id.symbol_id.0
}

/// The ranking order of candidates.
pub fn compare_candidates(left: &IntentCandidate, right: &IntentCandidate) -> (r: std::cmp::Ordering)
    ensures
        (r == std::cmp::Ordering::Less) == candidate_before(*left, *right),
        (r == std::cmp::Ordering::Greater) == candidate_before(*right, *left),
        (r == std::cmp::Ordering::Equal) == (left.score == right.score && left.origin_rank == right.origin_rank
            && left.id == right.id),
{
    if left.score != right.score {
        if left.score > right.score {
            std::cmp::Ordering::Less
        } else {
            std::cmp::Ordering::Greater
        }
    } else if left.origin_rank != right.origin_rank {
        if left.origin_rank < right.origin_rank {
            std::cmp::Ordering::Less
        } else {
            std::cmp::Ordering::Greater
        }
    } else if left.id.file_id.0 != right.id.file_id.0 {
        if left.id.file_id.0 < right.id.file_id.0 {
            std::cmp::Ordering::Less
        } else {
            std::cmp::Ordering::Greater
        }
    } else if left.id.symbol_id.0 != right.id.symbol_id.0 {
        if left.id.symbol_id.0 < right.id.symbol_id.0 {
            std::cmp::Ordering::Less
        } else {
            std::cmp::Ordering::Greater
        }
    } else {
        std::cmp::Ordering::Equal
    }
}

/// Candidates in ranking order (`candidate_before`), as a stable sort puts
/// them: the same candidates, none ranked before one that precedes it.
pub fn sort_candidates(candidates: Vec<IntentCandidate>) -> (r: Vec<IntentCandidate>)
    ensures
        r@.to_multiset() == candidates@.to_multiset(),
        forall|i: int, j: int| 0 <= i < j < r@.len() ==> !candidate_before(#[trigger] r@[j], #[trigger] r@[i]),
{
    let ghost all = candidates@;
    let mut rest = candidates;
    let mut out: Vec<IntentCandidate> = Vec::new();
    proof {
        out@.to_multiset_ensures();
        assert(out@.to_multiset() =~= vstd::multiset::Multiset::empty());
        assert(rest@.to_multiset().add(out@.to_multiset()) =~= all.to_multiset());
    }
    while rest.len() > 0
        invariant
            rest@.to_multiset().add(out@.to_multiset()) == all.to_multiset(),
            forall|i: int, j: int| 0 <= i < j < out@.len() ==> !candidate_before(#[trigger] out@[j], #[trigger] out@[i]),
        decreases rest@.len(),
    {
        let ghost before_rest = rest@;
        let ghost before_out = out@;
        let x = rest.pop().unwrap();
        proof {
            assert(before_rest =~= rest@.push(x));
            rest@.to_multiset_ensures();
        }
        let mut p: usize = 0;
        while p < out.len() && ranks_before(&out[p], &x)
            invariant
                out@ == before_out,
                p <= out@.len(),
                forall|k: int| 0 <= k < p ==> candidate_before(#[trigger] out@[k], x),
            decreases out@.len() - p,
        {
            p = p + 1;
        }
        let ghost xv = x;
        out.insert(p, x);
        proof {
            vstd::seq_lib::to_multiset_insert(before_out, p as int, xv);
            assert(out@ == before_out.insert(p as int, xv));
            assert forall|i: int, j: int| 0 <= i < j < out@.len() implies !candidate_before(
                #[trigger] out@[j],
                #[trigger] out@[i],
            ) by {
                if j < p {
                    assert(out@[i] == before_out[i] && out@[j] == before_out[j]);
                } else if j == p {
                    assert(out@[i] == before_out[i]);
                    assert(candidate_before(before_out[i], xv));
                } else if i == p {
                    assert(out@[j] == before_out[j - 1]);
                    if p < before_out.len() {
                        assert(!candidate_before(before_out[p as int], xv));
                        if j - 1 > p {
                            assert(!candidate_before(before_out[j - 1], before_out[p as int]));
                        }
                    }
                } else if i < p {
                    assert(out@[i] == before_out[i] && out@[j] == before_out[j - 1]);
                    if i < j - 1 {
                        assert(!candidate_before(before_out[j - 1], before_out[i]));
                    } else {
                        assert(candidate_before(before_out[i], xv));
                        assert(!candidate_before(before_out[p as int], xv));
                    }
                } else {
                    assert(out@[i] == before_out[i - 1] && out@[j] == before_out[j - 1]);
                }
            }
        }
    }
    proof {
        rest@.to_multiset_ensures();
        assert(rest@.to_multiset() =~= vstd::multiset::Multiset::empty());
        assert(rest@.to_multiset().add(out@.to_multiset()) =~= out@.to_multiset());
    }
    out
}

/// `a` ranks before `b` (see `candidate_before`).
fn ranks_before(a: &IntentCandidate, b: &IntentCandidate) -> (r: bool)
    ensures
        r == candidate_before(*a, *b),
{
    a.score > b.score || (a.score == b.score && (a.origin_rank < b.origin_rank || (a.origin_rank == b.origin_rank
        && (a.id.file_id.0 < b.id.file_id.0 || (a.id.file_id.0 == b.id.file_id.0
        && a.id.symbol_id.0 < b.id.symbol_id.0)))))
}

/// The number of candidates that name the whole query exactly.
pub open spec fn exact_count(cs: Seq<IntentCandidate>) -> nat
    decreases cs.len(),
{
    if cs.len() == 0 {
        0
    } else {
        exact_count(cs.drop_last()) + if cs.last().whole_query_exact {
            1nat
        } else {
            0nat
        }
    }
}

/// The first candidate is the one exact match of the whole query.
pub open spec fn exact_is_unique(cs: Seq<IntentCandidate>) -> bool {
    cs.len() > 0 && cs[0].whole_query_exact && exact_count(cs) == 1
}

/// The first candidate settles the query: it is the one exact match, or it
/// matched two or more terms and leads the next by at least 100 points.
pub open spec fn spec_resolved(cs: Seq<IntentCandidate>) -> bool {
    exact_is_unique(cs) || (cs.len() > 0 && cs[0].matched_terms@.len() >= 2 && (cs.len() < 2 || cs[0].score
        >= if cs[1].score + 100 > u32::MAX {
        u32::MAX as int
    } else {
        cs[1].score + 100
    }))
}

/// The answer to a query from its candidates in ranking order: the status,
/// the follow-up, and how many candidates after the first are offered as
/// alternatives (none when the first is the one exact match, else up to
/// two).
pub fn intent_outcome(candidates: &Vec<IntentCandidate>) -> (r: (IntentStatus, IntentFollowUp, usize))
    ensures
        candidates@.len() == 0 ==> r == (IntentStatus::NotFound, IntentFollowUp::RefineQuery, 0usize),
        candidates@.len() > 0 ==> r.0 == (if spec_resolved(candidates@) {
            IntentStatus::Resolved
        } else {
            IntentStatus::Ambiguous
        }),
        candidates@.len() > 0 ==> r.1 == (if spec_resolved(candidates@) {
            IntentFollowUp::Nothing
        } else {
            IntentFollowUp::RefineQuery
        }),
        candidates@.len() > 0 ==> r.2 == (if exact_is_unique(candidates@) {
            0
        } else if candidates@.len() - 1 < 2 {
            candidates@.len() - 1
        } else {
            2
        }),
{
    if candidates.len() == 0 {
        return (IntentStatus::NotFound, IntentFollowUp::RefineQuery, 0);
    }
    let mut exact: usize = 0;
    let mut i: usize = 0;
    while i < candidates.len()
        invariant
            i <= candidates@.len(),
            exact == exact_count(candidates@.take(i as int)),
            exact <= i,
        decreases candidates@.len() - i,
    {
        assert(candidates@.take(i + 1).drop_last() =~= candidates@.take(i as int));
        if candidates[i].whole_query_exact {
            exact = exact + 1;
        }
        i = i + 1;
    }
    assert(candidates@.take(i as int) =~= candidates@);
    let unique = candidates[0].whole_query_exact && exact == 1;
    let alternatives: usize = if unique {
        0
    } else if candidates.len() - 1 < 2 {
        candidates.len() - 1
    } else {
        2
    };
    let resolved = unique || (candidates[0].matched_terms.len() >= 2 && (candidates.len() < 2
        || candidates[0].score >= candidates[1].score.saturating_add(100)));
    if resolved {
        (IntentStatus::Resolved, IntentFollowUp::Nothing, alternatives)
    } else {
        (IntentStatus::Ambiguous, IntentFollowUp::RefineQuery, alternatives)
    }
}

/// Why a research query was refused.
#[derive(Debug)]
pub enum GameDataIntentError {
    InvalidRequest(String),
    Inspection(GameDataInspectionError),
    Cancelled,
}

/// The add-ons a research query may answer from, in GUID order: all loaded
/// add-ons when none are named; otherwise the named GUIDs (uppercased),
/// which must be given, distinct, 16 hexadecimal digits and loaded.
pub fn selected_addons(
    requested: Option<&[String]>,
    addon_map: &[(SourceFileId, GameDataAddonIdentity)],
) -> (r: Result<Vec<String>, GameDataIntentError>)
    ensures
        requested is None ==> (r matches Ok(out) && strictly_ascending(out@.map_values(|x: String| x@))
            && out@.map_values(|x: String| x@).to_set() == available_guids(addon_map@)),
        given_empty(requested) ==> (r matches Err(GameDataIntentError::InvalidRequest(m))
            && m@ == "addonGuids must be non-empty when provided"@),
        requested is Some && !given_empty(requested) ==> ({
            let guids = requested_guids(requested->0@);
            &&& r is Ok <==> guids.no_duplicates() && forall|i: int|
                0 <= i < guids.len() ==> guid_shaped(#[trigger] guids[i]) && available_guids(addon_map@).contains(
                    guids[i],
                )
            &&& r matches Err(e) ==> (e matches GameDataIntentError::InvalidRequest(m)
                && m@ == "addonGuids must contain unique loaded 16-character hexadecimal GUIDs"@)
            &&& r matches Ok(out) ==> strictly_ascending(out@.map_values(|x: String| x@)) && out@.map_values(
                |x: String| x@,
            ).to_set() == guids.to_set() && out@.len() == guids.len()
        }),
{
    match canonical_addon_guids(requested, addon_map, false) {
        Ok(guids) => Ok(guids),
        Err(GameDataSearchError::InvalidRequest(m)) => Err(GameDataIntentError::InvalidRequest(to_owned_string(m))),
        Err(_) => Err(GameDataIntentError::Cancelled),
    }
}

} // verus!
