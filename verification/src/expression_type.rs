//! Type-text analysis: qualifier stripping, owner names, generic arguments,
//! element types of indexed collections and classification of literal
//! expression text.
//!
//! Every operation works on the characters of its input; each result is
//! stated by a spec function over `Seq<char>`.
use vstd::prelude::*;
use crate::index::{lemma_same_multiset_contains, GlobalSymbolId, IndexedSymbol, SymbolIndex};
use crate::model::SymbolKind;
use crate::text::{
    chars_of, exec_is_whitespace, is_whitespace, leading_count, lemma_leading_count,
    lemma_leading_count_unique, string_from_chars, trim, trim_chars, trim_start,
};

verus! {

// ---------------------------------------------------------------------------
// Character helpers

/// `s` begins with `p`.
pub open spec fn starts_with(s: Seq<char>, p: Seq<char>) -> bool {
    p.len() <= s.len() && s.take(p.len() as int) == p
}

/// The test "is not `c`".
pub open spec fn other_than(c: char) -> spec_fn(char) -> bool {
    |x: char| x != c
}

/// Position of the first `c` in `s`, if any.
pub open spec fn first_index_of(s: Seq<char>, c: char) -> Option<int> {
    let n = leading_count(s, other_than(c));
    if n < s.len() {
        Some(n as int)
    } else {
        None
    }
}

/// `s` without leading whitespace (as an owned copy).
pub(crate) fn trim_start_chars(s: &[char]) -> (r: Vec<char>)
    ensures
        r@ == trim_start(s@),
{
    let mut start: usize = 0;
    while start < s.len() && exec_is_whitespace(s[start])
        invariant
            start <= s.len(),
            forall|i: int| 0 <= i < start ==> is_whitespace(#[trigger] s@[i]),
        decreases s.len() - start,
    {
        start = start + 1;
    }
    proof {
        lemma_leading_count_unique(s@, |c: char| is_whitespace(c), start as int);
    }
    sub_chars(s, start, s.len())
}

/// A copy of `s[a..b]`.
pub(crate) fn sub_chars(s: &[char], a: usize, b: usize) -> (r: Vec<char>)
    requires
        a <= b <= s.len(),
    ensures
        r@ == s@.subrange(a as int, b as int),
{
    let mut out: Vec<char> = Vec::new();
    let mut i: usize = a;
    while i < b
        invariant
            a <= i <= b,
            b <= s.len(),
            out@ =~= s@.subrange(a as int, i as int),
        decreases b - i,
    {
        out.push(s[i]);
        i = i + 1;
    }
    out
}

/// Whether `s` begins with the characters of `p`.
pub(crate) fn chars_start_with(s: &[char], p: &[char]) -> (r: bool)
    ensures
        r == starts_with(s@, p@),
{
    if p.len() > s.len() {
        return false;
    }
    let mut i: usize = 0;
    while i < p.len()
        invariant
            p.len() <= s.len(),
            i <= p.len(),
            forall|j: int| 0 <= j < i ==> s@[j] == p@[j],
        decreases p.len() - i,
    {
        if s[i] != p[i] {
            assert(s@.take(p.len() as int)[i as int] != p@[i as int]);
            return false;
        }
        i = i + 1;
    }
    assert(s@.take(p.len() as int) =~= p@);
    true
}

/// Position of the first `c` in `s`.
pub(crate) fn find_char(s: &[char], c: char) -> (r: Option<usize>)
    ensures
        match r {
            Some(i) => first_index_of(s@, c) == Some(i as int),
            None => first_index_of(s@, c) is None,
        },
{
    let mut i: usize = 0;
    while i < s.len() && s[i] != c
        invariant
            i <= s.len(),
            forall|j: int| 0 <= j < i ==> #[trigger] s@[j] != c,
        decreases s.len() - i,
    {
        i = i + 1;
    }
    proof {
        lemma_leading_count_unique(s@, other_than(c), i as int);
    }
    if i < s.len() {
        Some(i)
    } else {
        None
    }
}

// ---------------------------------------------------------------------------
// The inferred type of an expression

/// The type of an expression: the owner whose members it offers, whether it
/// names the type itself (static access), and the declared type text it was
/// read from.
#[derive(Debug, Clone, PartialEq, Eq)]
pub struct ExpressionType {
    pub owner_type: String,
    pub is_static: bool,
    pub raw_type_text: Option<String>,
}

impl ExpressionType {
    pub fn instance(owner_type: String) -> (r: Self)
        ensures
            r.owner_type == owner_type,
            !r.is_static,
            r.raw_type_text is None,
    {
        ExpressionType { owner_type, is_static: false, raw_type_text: None }
    }

    pub fn instance_with_raw(owner_type: String, raw_type_text: String) -> (r: Self)
        ensures
            r.owner_type == owner_type,
            !r.is_static,
            r.raw_type_text == Some(raw_type_text),
    {
        ExpressionType { owner_type, is_static: false, raw_type_text: Some(raw_type_text) }
    }

    pub fn static_type(owner_type: String) -> (r: Self)
        ensures
            r.owner_type == owner_type,
            r.is_static,
            r.raw_type_text is None,
    {
        ExpressionType { owner_type, is_static: true, raw_type_text: None }
    }

    pub fn static_type_with_raw(owner_type: String, raw_type_text: String) -> (r: Self)
        ensures
            r.owner_type == owner_type,
            r.is_static,
            r.raw_type_text == Some(raw_type_text),
    {
        ExpressionType { owner_type, is_static: true, raw_type_text: Some(raw_type_text) }
    }
}

// ---------------------------------------------------------------------------
// Qualifier prefixes

/// The qualifier words that may stand before a type, in the order they are
/// tried.
pub open spec fn type_prefix_words() -> Seq<Seq<char>> {
    seq![
        seq!['r', 'e', 'f'],
        seq!['n', 'o', 't', 'n', 'u', 'l', 'l'],
        seq!['a', 'u', 't', 'o', 'p', 't', 'r'],
        seq!['o', 'w', 'n', 'e', 'd'],
        seq!['c', 'o', 'n', 's', 't'],
        seq!['o', 'u', 't'],
        seq!['i', 'n', 'o', 'u', 't'],
    ]
}

/// `s` starts with the word `w`, followed by whitespace or `<`.
pub open spec fn prefix_word_applies(s: Seq<char>, w: Seq<char>) -> bool {
    w.len() < s.len() && s.take(w.len() as int) == w && (is_whitespace(s[w.len() as int]) || s[w.len()
        as int] == '<')
}

/// `s` without the first of `words` that applies to it.
pub open spec fn strip_first_word(s: Seq<char>, words: Seq<Seq<char>>) -> Seq<char>
    decreases words.len(),
{
    if words.len() == 0 {
        s
    } else if prefix_word_applies(s, words[0]) {
        s.skip(words[0].len() as int)
    } else {
        strip_first_word(s, words.drop_first())
    }
}

/// `s` without one leading qualifier word (the rest keeps its leading
/// whitespace).
pub open spec fn spec_strip_type_prefix(s: Seq<char>) -> Seq<char> {
    strip_first_word(s, type_prefix_words())
}

pub proof fn lemma_strip_first_word(s: Seq<char>, words: Seq<Seq<char>>)
    requires
        forall|k: int| 0 <= k < words.len() ==> (#[trigger] words[k]).len() > 0,
    ensures
        strip_first_word(s, words) == s || exists|n: int|
            1 <= n <= s.len() && strip_first_word(s, words) == s.skip(n),
    decreases words.len(),
{
    if words.len() > 0 && !prefix_word_applies(s, words[0]) {
        assert forall|k: int| 0 <= k < words.drop_first().len() implies (#[trigger] words.drop_first()[k]).len() > 0 by {
            assert(words.drop_first()[k] == words[k + 1]);
        }
        lemma_strip_first_word(s, words.drop_first());
    }
}

pub proof fn lemma_strip_shortens(t: Seq<char>)
    ensures
        trim_start(spec_strip_type_prefix(t)) == t || trim_start(spec_strip_type_prefix(t)).len()
            < t.len(),
{
    let words = type_prefix_words();
    assert forall|k: int| 0 <= k < words.len() implies (#[trigger] words[k]).len() > 0 by {}
    lemma_strip_first_word(t, words);
    let s = spec_strip_type_prefix(t);
    lemma_leading_count(s, |c: char| is_whitespace(c));
    let m = leading_count(s, |c: char| is_whitespace(c));
    if s == t {
        if m == 0 {
            assert(trim_start(s) =~= t);
        }
    }
}

/// Repeatedly removes qualifier words (and the whitespace after each) until
/// none applies.
pub open spec fn strip_prefixes_from(t: Seq<char>) -> Seq<char>
    decreases t.len(),
{
    let next = trim_start(spec_strip_type_prefix(t));
    if next == t {
        t
    } else {
        proof {
            lemma_strip_shortens(t);
        }
        strip_prefixes_from(next)
    }
}

/// The type text with surrounding whitespace and every leading qualifier
/// (`ref`, `notnull`, `autoptr`, `owned`, `const`, `out`, `inout`) removed.
pub open spec fn spec_strip_all_type_prefixes(s: Seq<char>) -> Seq<char> {
    strip_prefixes_from(trim(s))
}

fn prefix_words() -> (r: Vec<Vec<char>>)
    ensures
        r@.map_values(|w: Vec<char>| w@) == type_prefix_words(),
{
    let r = vec![
        vec!['r', 'e', 'f'],
        vec!['n', 'o', 't', 'n', 'u', 'l', 'l'],
        vec!['a', 'u', 't', 'o', 'p', 't', 'r'],
        vec!['o', 'w', 'n', 'e', 'd'],
        vec!['c', 'o', 'n', 's', 't'],
        vec!['o', 'u', 't'],
        vec!['i', 'n', 'o', 'u', 't'],
    ];
    assert(r@.map_values(|w: Vec<char>| w@) =~= type_prefix_words());
    r
}

fn strip_type_prefix_chars(text: &[char]) -> (r: Vec<char>)
    ensures
        r@ == spec_strip_type_prefix(text@),
{
    let words = prefix_words();
    let ghost ws = words@.map_values(|w: Vec<char>| w@);
    let mut i: usize = 0;
    assert(ws.skip(0) =~= ws);
    while i < words.len()
        invariant
            i <= words@.len(),
            ws == words@.map_values(|w: Vec<char>| w@),
            strip_first_word(text@, ws.skip(i as int)) == spec_strip_type_prefix(text@),
        decreases words@.len() - i,
    {
        let w = &words[i];
        assert(ws.skip(i as int)[0] == w@);
        assert(ws.skip(i as int).drop_first() =~= ws.skip(i + 1));
        if w.len() < text.len() && chars_start_with(text, w.as_slice()) {
            let c = text[w.len()];
            if exec_is_whitespace(c) || c == '<' {
                return sub_chars(text, w.len(), text.len());
            }
        }
        i = i + 1;
    }
    assert(ws.skip(i as int).len() == 0);
    sub_chars(text, 0, text.len())
}

/// `type_text` with surrounding whitespace and every leading qualifier word
/// removed.
pub fn strip_all_type_prefixes(type_text: &str) -> (r: String)
    ensures
        r@ == spec_strip_all_type_prefixes(type_text@),
{
    let chars = chars_of(type_text);
    let stripped = strip_all_prefix_chars(chars.as_slice());
    string_from_chars(stripped.as_slice())
}

fn strip_all_prefix_chars(type_text: &[char]) -> (r: Vec<char>)
    ensures
        r@ == spec_strip_all_type_prefixes(type_text@),
{
    let mut text = trim_chars(type_text);
    loop
        invariant
            strip_prefixes_from(text@) == spec_strip_all_type_prefixes(type_text@),
        decreases text@.len(),
    {
        let once = strip_type_prefix_chars(text.as_slice());
        let next = trim_start_chars(once.as_slice());
        proof {
            lemma_strip_shortens(text@);
        }
        if next.len() == text.len() {
            return text;
        }
        text = next;
    }
}


// ---------------------------------------------------------------------------
// Owner names

/// The views of a sequence of owned strings.
pub open spec fn string_views(v: Seq<String>) -> Seq<Seq<char>> {
    v.map_values(|s: String| s@)
}

/// The view of an optional owned string.
pub open spec fn opt_chars(o: Option<String>) -> Option<Seq<char>> {
    match o {
        Some(s) => Some(s@),
        None => None,
    }
}

/// The view of an optional character vector.
pub open spec fn opt_vec_chars(o: Option<Vec<char>>) -> Option<Seq<char>> {
    match o {
        Some(v) => Some(v@),
        None => None,
    }
}

pub open spec fn array_word() -> Seq<char> {
    seq!['a', 'r', 'r', 'a', 'y']
}

pub open spec fn set_word() -> Seq<char> {
    seq!['s', 'e', 't']
}

pub open spec fn map_word() -> Seq<char> {
    seq!['m', 'a', 'p']
}

/// Characters that end an owner name: `<`, `[`, `(`, whitespace, `&`, `*`.
pub open spec fn is_owner_stop(c: char) -> bool {
    c == '<' || c == '[' || c == '(' || is_whitespace(c) || c == '&' || c == '*'
}

pub open spec fn owner_char() -> spec_fn(char) -> bool {
    |c: char| !is_owner_stop(c)
}

/// `text` is the collection `word` followed, after optional whitespace, by
/// `<`.
pub open spec fn collection_head(text: Seq<char>, word: Seq<char>) -> bool {
    starts_with(text, word) && {
        let rest = trim_start(text.skip(word.len() as int));
        rest.len() > 0 && rest[0] == '<'
    }
}

/// The owner named by a type text: after the qualifiers are stripped, a
/// generic `array`, `set` or `map` names its collection; any other text
/// names the characters before its first `<`, `[`, `(`, whitespace, `&` or
/// `*`.  Nothing when that is empty.
pub open spec fn spec_owner_type_from_type_text(type_text: Seq<char>) -> Option<Seq<char>> {
    let text = spec_strip_all_type_prefixes(type_text);
    if text.len() == 0 {
        None
    } else if collection_head(text, array_word()) {
        Some(array_word())
    } else if collection_head(text, set_word()) {
        Some(set_word())
    } else if collection_head(text, map_word()) {
        Some(map_word())
    } else {
        let owner = text.take(leading_count(text, owner_char()) as int);
        if owner.len() == 0 {
            None
        } else {
            Some(owner)
        }
    }
}

/// Every character is a small ASCII letter.
pub open spec fn small_letters(w: Seq<char>) -> bool
    decreases w.len(),
{
    w.len() == 0 || ('a' <= w.last() <= 'z' && small_letters(w.drop_last()))
}

proof fn lemma_small_letters(w: Seq<char>)
    requires
        small_letters(w),
    ensures
        forall|i: int| 0 <= i < w.len() ==> 'a' <= #[trigger] w[i] <= 'z',
    decreases w.len(),
{
    if w.len() > 0 {
        lemma_small_letters(w.drop_last());
        assert forall|i: int| 0 <= i < w.len() implies 'a' <= #[trigger] w[i] <= 'z' by {
            if i < w.len() - 1 {
                assert(w[i] == w.drop_last()[i]);
            }
        }
    }
}

/// Of two words of small letters, only the one that `w + " " + rest`
/// starts with applies to it.
proof fn lemma_only_leading_word_applies(w: Seq<char>, u: Seq<char>, rest: Seq<char>)
    requires
        small_letters(w),
        small_letters(u),
        w.len() > 0,
        u.len() > 0,
    ensures
        prefix_word_applies(w + seq![' '] + rest, u) <==> u == w,
{
    let s = w + seq![' '] + rest;
    lemma_small_letters(w);
    lemma_small_letters(u);
    assert(s[w.len() as int] == ' ');
    if u == w {
        assert(s.take(w.len() as int) =~= w);
    }
    if prefix_word_applies(s, u) {
        if u.len() < w.len() {
            assert(s[u.len() as int] == w[u.len() as int]);
        } else if u.len() > w.len() {
            assert(s.take(u.len() as int)[w.len() as int] == s[w.len() as int]);
            assert(u[w.len() as int] == ' ');
        } else {
            assert forall|i: int| 0 <= i < u.len() implies u[i] == w[i] by {
                assert(s.take(u.len() as int)[i] == s[i]);
            }
            assert(u =~= w);
        }
    }
}

/// With `w` the only word of the list that applies, `w` is removed.
proof fn lemma_strip_the_applying_word(s: Seq<char>, words: Seq<Seq<char>>, w: Seq<char>)
    requires
        words.contains(w),
        forall|k: int| 0 <= k < words.len() ==> (prefix_word_applies(s, #[trigger] words[k]) <==> words[k] == w),
    ensures
        strip_first_word(s, words) == s.skip(w.len() as int),
    decreases words.len(),
{
    if words[0] != w {
        assert(words.drop_first().contains(w)) by {
            let k = choose|k: int| 0 <= k < words.len() && words[k] == w;
            assert(words.drop_first()[k - 1] == w);
        }
        assert forall|k: int| 0 <= k < words.drop_first().len() implies (prefix_word_applies(
            s,
            #[trigger] words.drop_first()[k],
        ) <==> words.drop_first()[k] == w) by {
            assert(words.drop_first()[k] == words[k + 1]);
        }
        lemma_strip_the_applying_word(s, words.drop_first(), w);
    } else {
        assert(prefix_word_applies(s, words[0]));
    }
}

/// A text without whitespace or `<` keeps its words.
proof fn lemma_no_word_applies(t: Seq<char>, words: Seq<Seq<char>>)
    requires
        forall|i: int| 0 <= i < t.len() ==> !is_whitespace(#[trigger] t[i]) && t[i] != '<',
    ensures
        strip_first_word(t, words) == t,
    decreases words.len(),
{
    if words.len() > 0 {
        if prefix_word_applies(t, words[0]) {
            assert(t[words[0].len() as int] != '<');
        }
        lemma_no_word_applies(t, words.drop_first());
    }
}

/// Each qualifier word (`ref`, `notnull`, `autoptr`, `owned`, `const`,
/// `out`, `inout`) before a type name is stripped: what remains of
/// `w + " " + name` is `name`, which is also the owner the type text names.
pub proof fn lemma_qualifier_before_name_is_stripped(w: Seq<char>, name: Seq<char>)
    requires
        w == seq!['r', 'e', 'f'] || w == seq!['n', 'o', 't', 'n', 'u', 'l', 'l'] || w == seq![
            'a',
            'u',
            't',
            'o',
            'p',
            't',
            'r',
        ] || w == seq!['o', 'w', 'n', 'e', 'd'] || w == seq!['c', 'o', 'n', 's', 't'] || w == seq!['o', 'u', 't']
            || w == seq!['i', 'n', 'o', 'u', 't'],
        name.len() > 0,
        forall|i: int| 0 <= i < name.len() ==> !is_owner_stop(#[trigger] name[i]),
    ensures
        spec_strip_all_type_prefixes(w + seq![' '] + name) == name,
        spec_owner_type_from_type_text(w + seq![' '] + name) == Some(name),
{
    let s = w + seq![' '] + name;
    let ws = |c: char| is_whitespace(c);
    let words = type_prefix_words();
    reveal_with_fuel(small_letters, 8);
    assert(small_letters(w));
    assert(small_letters(words[0]) && small_letters(words[1]) && small_letters(words[2]) && small_letters(words[3])
        && small_letters(words[4]) && small_letters(words[5]) && small_letters(words[6]));
    assert(forall|i: int| 0 <= i < name.len() ==> !is_whitespace(#[trigger] name[i]) && name[i] != '<');
    lemma_small_letters(w);
    // The text has no surrounding whitespace.
    assert(s[0] == w[0]);
    assert(s[s.len() - 1] == name[name.len() - 1]);
    lemma_leading_count_unique(s, ws, 0);
    crate::text::lemma_trailing_count_unique(s, ws, 0);
    assert(trim_start(s) =~= s);
    assert(trim(s) =~= s);
    // The first round removes `w`.
    assert(words.len() == 7);
    assert forall|k: int| 0 <= k < words.len() implies (prefix_word_applies(s, #[trigger] words[k]) <==> words[k]
        == w) by {
        assert(words[k].len() > 0);
        lemma_only_leading_word_applies(w, words[k], name);
    }
    assert(words.contains(w)) by {
        if w == seq!['r', 'e', 'f'] {
            assert(words[0] == w);
        } else if w == seq!['n', 'o', 't', 'n', 'u', 'l', 'l'] {
            assert(words[1] == w);
        } else if w == seq!['a', 'u', 't', 'o', 'p', 't', 'r'] {
            assert(words[2] == w);
        } else if w == seq!['o', 'w', 'n', 'e', 'd'] {
            assert(words[3] == w);
        } else if w == seq!['c', 'o', 'n', 's', 't'] {
            assert(words[4] == w);
        } else if w == seq!['o', 'u', 't'] {
            assert(words[5] == w);
        } else {
            assert(words[6] == w);
        }
    }
    lemma_strip_the_applying_word(s, words, w);
    let after = s.skip(w.len() as int);
    assert(after =~= seq![' '] + name);
    lemma_leading_count_unique(after, ws, 1);
    assert(trim_start(after) =~= name);
    // The second round finds nothing more to remove.
    lemma_no_word_applies(name, words);
    lemma_leading_count_unique(name, ws, 0);
    assert(trim_start(name) =~= name);
    assert(strip_prefixes_from(name) == name);
    assert(name != s);
    assert(strip_prefixes_from(s) == name);
    // The owner is the whole name.
    lemma_leading_count_unique(name, owner_char(), name.len() as int);
    assert(name.take(name.len() as int) =~= name);
    assert forall|word: Seq<char>| !collection_head(name, word) by {
        if starts_with(name, word) {
            let rest = name.skip(word.len() as int);
            lemma_leading_count(rest, ws);
            let n = leading_count(rest, ws);
            if n < rest.len() {
                assert(trim_start(rest)[0] == rest[n as int]);
                assert(rest[n as int] == name[(word.len() + n) as int]);
            }
        }
    }
}

fn collection_head_chars(text: &[char], word: &[char]) -> (r: bool)
    ensures
        r == collection_head(text@, word@),
{
    if !chars_start_with(text, word) {
        return false;
    }
    let after = sub_chars(text, word.len(), text.len());
    let rest = trim_start_chars(after.as_slice());
    rest.len() > 0 && rest[0] == '<'
}

fn owner_stop(c: char) -> (r: bool)
    ensures
        r == is_owner_stop(c),
{
    c == '<' || c == '[' || c == '(' || exec_is_whitespace(c) || c == '&' || c == '*'
}

fn owner_type_chars(type_text: &[char]) -> (r: Option<Vec<char>>)
    ensures
        opt_vec_chars(r) == spec_owner_type_from_type_text(type_text@),
{
    let text = strip_all_prefix_chars(type_text);
    if text.len() == 0 {
        return None;
    }
    let array = vec!['a', 'r', 'r', 'a', 'y'];
    let set = vec!['s', 'e', 't'];
    let map = vec!['m', 'a', 'p'];
    if collection_head_chars(text.as_slice(), array.as_slice()) {
        return Some(array);
    }
    if collection_head_chars(text.as_slice(), set.as_slice()) {
        return Some(set);
    }
    if collection_head_chars(text.as_slice(), map.as_slice()) {
        return Some(map);
    }
    let mut n: usize = 0;
    while n < text.len() && !owner_stop(text[n])
        invariant
            n <= text@.len(),
            forall|i: int| 0 <= i < n ==> !is_owner_stop(#[trigger] text@[i]),
        decreases text@.len() - n,
    {
        n = n + 1;
    }
    proof {
        lemma_leading_count_unique(text@, owner_char(), n as int);
    }
    if n == 0 {
        None
    } else {
        Some(sub_chars(text.as_slice(), 0, n))
    }
}

/// The owner named by a type text (see `spec_owner_type_from_type_text`).
pub fn owner_type_from_type_text(type_text: &str) -> (r: Option<String>)
    ensures
        opt_chars(r) == spec_owner_type_from_type_text(type_text@),
{
    let chars = chars_of(type_text);
    match owner_type_chars(chars.as_slice()) {
        Some(v) => Some(string_from_chars(v.as_slice())),
        None => None,
    }
}


// ---------------------------------------------------------------------------
// Generic arguments

/// `n - 1`, but never below zero.
pub open spec fn sat_dec(n: nat) -> nat {
    if n == 0 {
        0
    } else {
        (n - 1) as nat
    }
}

/// `[s]` when `s` is not empty, else nothing.
pub open spec fn keep_nonempty(s: Seq<char>) -> Seq<Seq<char>> {
    if s.len() > 0 {
        seq![s]
    } else {
        Seq::empty()
    }
}

/// The trimmed, non-empty pieces of `text` from position `i` on, where the
/// current piece began at `start` and `a`, `p`, `b` count the open `<`,
/// `(` and `[` (a closer never takes a count below zero).  A comma splits
/// only where all three counts are zero.
pub open spec fn split_commas_from(
    text: Seq<char>,
    i: nat,
    start: nat,
    a: nat,
    p: nat,
    b: nat,
) -> Seq<Seq<char>>
    decreases text.len() - i,
{
    if i >= text.len() {
        keep_nonempty(trim(text.subrange(start as int, text.len() as int)))
    } else {
        let c = text[i as int];
        if c == '<' {
            split_commas_from(text, i + 1, start, a + 1, p, b)
        } else if c == '>' {
            split_commas_from(text, i + 1, start, sat_dec(a), p, b)
        } else if c == '(' {
            split_commas_from(text, i + 1, start, a, p + 1, b)
        } else if c == ')' {
            split_commas_from(text, i + 1, start, a, sat_dec(p), b)
        } else if c == '[' {
            split_commas_from(text, i + 1, start, a, p, b + 1)
        } else if c == ']' {
            split_commas_from(text, i + 1, start, a, p, sat_dec(b))
        } else if c == ',' && a == 0 && p == 0 && b == 0 {
            keep_nonempty(trim(text.subrange(start as int, i as int))) + split_commas_from(
                text,
                i + 1,
                i + 1,
                a,
                p,
                b,
            )
        } else {
            split_commas_from(text, i + 1, start, a, p, b)
        }
    }
}

/// The trimmed, non-empty pieces of `text` between commas that stand
/// outside every `<>`, `()` and `[]` pair.
pub open spec fn spec_split_top_level_commas(text: Seq<char>) -> Seq<Seq<char>> {
    split_commas_from(text, 0, 0, 0, 0, 0)
}

pub open spec fn vec_views(v: Seq<Vec<char>>) -> Seq<Seq<char>> {
    v.map_values(|x: Vec<char>| x@)
}

fn push_if_nonempty(out: &mut Vec<Vec<char>>, piece: Vec<char>)
    ensures
        vec_views(final(out)@) == vec_views(old(out)@) + keep_nonempty(piece@),
{
    let ghost before = vec_views(out@);
    if piece.len() > 0 {
        out.push(piece);
        assert(vec_views(out@) =~= before + keep_nonempty(piece@));
    } else {
        assert(vec_views(out@) =~= before + keep_nonempty(piece@));
    }
}

fn split_top_level_comma_chars(text: &[char]) -> (r: Vec<Vec<char>>)
    ensures
        vec_views(r@) == spec_split_top_level_commas(text@),
{
    let mut out: Vec<Vec<char>> = Vec::new();
    let mut start: usize = 0;
    let mut a: usize = 0;
    let mut p: usize = 0;
    let mut b: usize = 0;
    let mut i: usize = 0;
    assert(vec_views(out@) + split_commas_from(text@, 0, 0, 0, 0, 0) =~= spec_split_top_level_commas(text@));
    while i < text.len()
        invariant
            i <= text.len(),
            start <= i,
            a <= i,
            p <= i,
            b <= i,
            vec_views(out@) + split_commas_from(text@, i as nat, start as nat, a as nat, p as nat, b as nat)
                == spec_split_top_level_commas(text@),
        decreases text.len() - i,
    {
        let c = text[i];
        let ghost before = vec_views(out@);
        if c == '<' {
            a = a + 1;
        } else if c == '>' {
            if a > 0 {
                a = a - 1;
            }
        } else if c == '(' {
            p = p + 1;
        } else if c == ')' {
            if p > 0 {
                p = p - 1;
            }
        } else if c == '[' {
            b = b + 1;
        } else if c == ']' {
            if b > 0 {
                b = b - 1;
            }
        } else if c == ',' && a == 0 && p == 0 && b == 0 {
            let piece = sub_chars(text, start, i);
            let trimmed = trim_chars(piece.as_slice());
            push_if_nonempty(&mut out, trimmed);
            assert(vec_views(out@) + split_commas_from(text@, (i + 1) as nat, (i + 1) as nat, a as nat, p as nat, b as nat)
                =~= before + split_commas_from(text@, i as nat, start as nat, a as nat, p as nat, b as nat));
            start = i + 1;
        }
        i = i + 1;
    }
    let piece = sub_chars(text, start, text.len());
    let trimmed = trim_chars(piece.as_slice());
    push_if_nonempty(&mut out, trimmed);
    out
}

/// The position of the `>` that closes the angle bracket opened at or after
/// `i`, given `depth` brackets already open; closers never take the depth
/// below zero.
pub open spec fn angle_close_from(t: Seq<char>, i: nat, depth: nat) -> Option<int>
    decreases t.len() - i,
{
    if i >= t.len() {
        None
    } else if t[i as int] == '<' {
        angle_close_from(t, i + 1, depth + 1)
    } else if t[i as int] == '>' {
        if depth <= 1 {
            Some(i as int)
        } else {
            angle_close_from(t, i + 1, (depth - 1) as nat)
        }
    } else {
        angle_close_from(t, i + 1, depth)
    }
}

pub proof fn lemma_angle_close_bounds(t: Seq<char>, i: nat, depth: nat)
    ensures
        angle_close_from(t, i, depth) matches Some(c) ==> i <= c < t.len(),
    decreases t.len() - i,
{
    if i < t.len() {
        if t[i as int] == '<' {
            lemma_angle_close_bounds(t, i + 1, depth + 1);
        } else if t[i as int] == '>' {
            if depth > 1 {
                lemma_angle_close_bounds(t, i + 1, (depth - 1) as nat);
            }
        } else {
            lemma_angle_close_bounds(t, i + 1, depth);
        }
    }
}

/// A generic type text split into its owner and its top-level arguments:
/// the owner is the trimmed text before the first `<`, the arguments are
/// the top-level comma pieces up to the matching `>`.  Nothing without a
/// `<`, without a matching `>`, or with an empty owner.
pub open spec fn spec_generic_owner_and_args(type_text: Seq<char>) -> Option<(Seq<char>, Seq<Seq<char>>)> {
    let t = trim(type_text);
    match first_index_of(t, '<') {
        None => None,
        Some(less) => {
            let owner = trim(t.take(less));
            match angle_close_from(t, less as nat, 0) {
                None => None,
                Some(close) => if owner.len() == 0 {
                    None
                } else {
                    Some((owner, spec_split_top_level_commas(t.subrange(less + 1, close))))
                },
            }
        },
    }
}

fn angle_close(t: &[char], less: usize) -> (r: Option<usize>)
    requires
        less <= t.len(),
    ensures
        match r {
            Some(c) => angle_close_from(t@, less as nat, 0) == Some(c as int),
            None => angle_close_from(t@, less as nat, 0) is None,
        },
{
    let mut depth: usize = 0;
    let mut i: usize = less;
    while i < t.len()
        invariant
            less <= i <= t.len(),
            depth <= i,
            angle_close_from(t@, i as nat, depth as nat) == angle_close_from(t@, less as nat, 0),
        decreases t.len() - i,
    {
        let c = t[i];
        if c == '<' {
            depth = depth + 1;
        } else if c == '>' {
            if depth <= 1 {
                return Some(i);
            }
            depth = depth - 1;
        }
        i = i + 1;
    }
    None
}

fn generic_owner_and_arg_chars(type_text: &[char]) -> (r: Option<(Vec<char>, Vec<Vec<char>>)>)
    ensures
        match r {
            Some((o, args)) => spec_generic_owner_and_args(type_text@) == Some((o@, vec_views(args@))),
            None => spec_generic_owner_and_args(type_text@) is None,
        },
{
    let t = trim_chars(type_text);
    let less = match find_char(t.as_slice(), '<') {
        Some(l) => l,
        None => return None,
    };
    proof {
        lemma_leading_count(t@, other_than('<'));
    }
    let head = sub_chars(t.as_slice(), 0, less);
    let owner = trim_chars(head.as_slice());
    assert(head@ =~= t@.take(less as int));
    let close = match angle_close(t.as_slice(), less) {
        Some(c) => c,
        None => return None,
    };
    proof {
        assert(t@[less as int] == '<');
        assert(angle_close_from(t@, less as nat, 0) == angle_close_from(t@, (less + 1) as nat, 1));
        lemma_angle_close_bounds(t@, (less + 1) as nat, 1);
    }
    let inner = sub_chars(t.as_slice(), less + 1, close);
    let args = split_top_level_comma_chars(inner.as_slice());
    if owner.len() == 0 {
        None
    } else {
        Some((owner, args))
    }
}

fn strings_of(v: Vec<Vec<char>>) -> (r: Vec<String>)
    ensures
        string_views(r@) == vec_views(v@),
{
    let mut out: Vec<String> = Vec::new();
    let mut i: usize = 0;
    while i < v.len()
        invariant
            i <= v@.len(),
            string_views(out@) =~= vec_views(v@).take(i as int),
        decreases v@.len() - i,
    {
        let item = string_from_chars(v[i].as_slice());
        let ghost before = out@;
        out.push(item);
        assert(string_views(out@) =~= string_views(before).push(item@));
        assert(vec_views(v@).take(i + 1) =~= vec_views(v@).take(i as int).push(v@[i as int]@));
        i = i + 1;
    }
    out
}

/// A generic type text split into its owner and top-level arguments (see
/// `spec_generic_owner_and_args`).
pub fn generic_owner_and_args(type_text: &str) -> (r: Option<(String, Vec<String>)>)
    ensures
        match r {
            Some((o, args)) => spec_generic_owner_and_args(type_text@) == Some((o@, string_views(args@))),
            None => spec_generic_owner_and_args(type_text@) is None,
        },
{
    let chars = chars_of(type_text);
    match generic_owner_and_arg_chars(chars.as_slice()) {
        Some((o, args)) => Some((string_from_chars(o.as_slice()), strings_of(args))),
        None => None,
    }
}


// ---------------------------------------------------------------------------
// Element types of collections

pub open spec fn string_word() -> Seq<char> {
    seq!['s', 't', 'r', 'i', 'n', 'g']
}

pub open spec fn vector_word() -> Seq<char> {
    seq!['v', 'e', 'c', 't', 'o', 'r']
}

pub open spec fn quat_word() -> Seq<char> {
    seq!['q', 'u', 'a', 't']
}

pub open spec fn float_word() -> Seq<char> {
    seq!['f', 'l', 'o', 'a', 't']
}

/// The trimmed text before the first `[` of a static array type, when not
/// empty.
pub open spec fn spec_static_array_base_type(t: Seq<char>) -> Option<Seq<char>> {
    match first_index_of(t, '[') {
        None => None,
        Some(k) => {
            let base = trim(t.take(k));
            if base.len() == 0 {
                None
            } else {
                Some(base)
            }
        },
    }
}

/// The argument that holds the element type of a generic collection: the
/// first of `array<..>` and `set<..>`, the second of `map<..>`.
pub open spec fn element_argument(owner: Seq<char>, args: Seq<Seq<char>>) -> Option<Seq<char>> {
    if owner == array_word() || owner == set_word() {
        if args.len() > 0 {
            Some(args[0])
        } else {
            None
        }
    } else if owner == map_word() {
        if args.len() > 1 {
            Some(args[1])
        } else {
            None
        }
    } else {
        None
    }
}

/// The owner and raw type text of `target`, when `target` names an owner.
pub open spec fn element_of(target: Seq<char>) -> Option<(Seq<char>, Seq<char>)> {
    match spec_owner_type_from_type_text(target) {
        Some(o) => Some((o, trim(target))),
        None => None,
    }
}

/// The (owner, raw type text) of an element read by indexing a value of
/// type `type_text`: a `string` yields `string`, a `vector` or `quat`
/// yields `float`, a static array yields its base type, and `array`, `set`
/// and `map` yield their element argument.
pub open spec fn spec_collection_index_result_type(type_text: Seq<char>) -> Option<(Seq<char>, Seq<char>)> {
    let text = spec_strip_all_type_prefixes(type_text);
    if text == string_word() {
        Some((string_word(), string_word()))
    } else if text == vector_word() || text == quat_word() {
        Some((float_word(), float_word()))
    } else {
        match spec_static_array_base_type(text) {
            Some(base) => element_of(base),
            None => match spec_generic_owner_and_args(text) {
                None => None,
                Some((owner, args)) => match element_argument(owner, args) {
                    None => None,
                    Some(target) => element_of(target),
                },
            },
        }
    }
}

fn static_array_base_chars(t: &[char]) -> (r: Option<Vec<char>>)
    ensures
        opt_vec_chars(r) == spec_static_array_base_type(t@),
{
    let k = match find_char(t, '[') {
        Some(k) => k,
        None => return None,
    };
    proof {
        lemma_leading_count(t@, other_than('['));
    }
    let head = sub_chars(t, 0, k);
    assert(head@ =~= t@.take(k as int));
    let base = trim_chars(head.as_slice());
    if base.len() == 0 {
        None
    } else {
        Some(base)
    }
}

fn element_type_of(target: &[char]) -> (r: Option<ExpressionType>)
    ensures
        match r {
            Some(e) => !e.is_static && match element_of(target@) {
                Some((o, raw)) => e.owner_type@ == o && opt_chars(e.raw_type_text) == Some(raw),
                None => false,
            },
            None => element_of(target@) is None,
        },
{
    match owner_type_chars(target) {
        Some(o) => {
            let raw = trim_chars(target);
            Some(
                ExpressionType::instance_with_raw(
                    string_from_chars(o.as_slice()),
                    string_from_chars(raw.as_slice()),
                ),
            )
        },
        None => None,
    }
}

/// The type of an element read by indexing a value of type `type_text`
/// (see `spec_collection_index_result_type`); always an instance with its
/// raw type text.
pub fn collection_index_result_type(type_text: &str) -> (r: Option<ExpressionType>)
    ensures
        match r {
            Some(e) => !e.is_static && match spec_collection_index_result_type(type_text@) {
                Some((o, raw)) => e.owner_type@ == o && opt_chars(e.raw_type_text) == Some(raw),
                None => false,
            },
            None => spec_collection_index_result_type(type_text@) is None,
        },
{
    let chars = chars_of(type_text);
    let text = strip_all_prefix_chars(chars.as_slice());
    let string = vec!['s', 't', 'r', 'i', 'n', 'g'];
    let vector = vec!['v', 'e', 'c', 't', 'o', 'r'];
    let quat = vec!['q', 'u', 'a', 't'];
    if crate::text::chars_eq(text.as_slice(), string.as_slice()) {
        let owner = string_from_chars(string.as_slice());
        let raw = string_from_chars(string.as_slice());
        return Some(ExpressionType::instance_with_raw(owner, raw));
    }
    if crate::text::chars_eq(text.as_slice(), vector.as_slice()) || crate::text::chars_eq(
        text.as_slice(),
        quat.as_slice(),
    ) {
        let float = vec!['f', 'l', 'o', 'a', 't'];
        let owner = string_from_chars(float.as_slice());
        let raw = string_from_chars(float.as_slice());
        return Some(ExpressionType::instance_with_raw(owner, raw));
    }
    if let Some(base) = static_array_base_chars(text.as_slice()) {
        return element_type_of(base.as_slice());
    }
    let (owner, args) = match generic_owner_and_arg_chars(text.as_slice()) {
        Some(pair) => pair,
        None => return None,
    };
    let array = vec!['a', 'r', 'r', 'a', 'y'];
    let set = vec!['s', 'e', 't'];
    let map = vec!['m', 'a', 'p'];
    if crate::text::chars_eq(owner.as_slice(), array.as_slice()) || crate::text::chars_eq(
        owner.as_slice(),
        set.as_slice(),
    ) {
        if args.len() > 0 {
            return element_type_of(args[0].as_slice());
        }
        return None;
    }
    if crate::text::chars_eq(owner.as_slice(), map.as_slice()) {
        if args.len() > 1 {
            return element_type_of(args[1].as_slice());
        }
        return None;
    }
    None
}


// ---------------------------------------------------------------------------
// Literal expression text

/// A string literal: at least two characters, opening and closing with `"`.
pub open spec fn is_string_literal(t: Seq<char>) -> bool {
    t.len() >= 2 && t[0] == '"' && t.last() == '"'
}

pub open spec fn is_ascii_digit(c: char) -> bool {
    '0' <= c && c <= '9'
}

pub open spec fn is_ascii_hexdigit(c: char) -> bool {
    is_ascii_digit(c) || ('a' <= c && c <= 'f') || ('A' <= c && c <= 'F')
}

/// Space, tab, line feed, form feed or carriage return.
pub open spec fn is_ascii_whitespace(c: char) -> bool {
    c == ' ' || c == '\t' || c == '\n' || c == '\x0C' || c == '\r'
}

/// The characters a numeric expression may hold besides digits.
pub open spec fn is_numeric_operator_char(c: char) -> bool {
    is_ascii_whitespace(c) || c == '+' || c == '-' || c == '*' || c == '/' || c == '%' || c == '.'
        || c == '(' || c == ')' || c == '<' || c == '>' || c == '=' || c == '!' || c == '&' || c
        == '|' || c == 'e' || c == 'E'
}

/// The digits after a leading `0x` or `0X`.
pub open spec fn hex_digits_after_prefix(t: Seq<char>) -> Option<Seq<char>> {
    if starts_with(t, seq!['0', 'x']) || starts_with(t, seq!['0', 'X']) {
        Some(t.skip(2))
    } else {
        None
    }
}

/// A hexadecimal literal (`0x` and at least one hex digit, nothing else
/// after trimming), or digits mixed only with arithmetic, comparison and
/// exponent characters.
pub open spec fn looks_like_numeric_expression(text: Seq<char>) -> bool {
    match hex_digits_after_prefix(trim(text)) {
        Some(hex) => hex.len() > 0 && forall|i: int| 0 <= i < hex.len() ==> is_ascii_hexdigit(#[trigger] hex[i]),
        None => (forall|i: int|
            0 <= i < text.len() ==> is_ascii_digit(#[trigger] text[i]) || is_numeric_operator_char(
                text[i],
            )) && exists|i: int| 0 <= i < text.len() && is_ascii_digit(#[trigger] text[i]),
    }
}

pub open spec fn bool_word() -> Seq<char> {
    seq!['b', 'o', 'o', 'l']
}

pub open spec fn int_word() -> Seq<char> {
    seq!['i', 'n', 't']
}

/// The primitive type of a literal expression: `string` for a string
/// literal, `bool` for `true`/`false`, and for a numeric expression `float`
/// when it holds `.`, `e` or `E`, else `int`.
pub open spec fn spec_primitive_type_from_expression_text(text: Seq<char>) -> Option<Seq<char>> {
    let t = trim(text);
    if t.len() == 0 {
        None
    } else if is_string_literal(t) {
        Some(string_word())
    } else if t == seq!['t', 'r', 'u', 'e'] || t == seq!['f', 'a', 'l', 's', 'e'] {
        Some(bool_word())
    } else if looks_like_numeric_expression(t) {
        if t.contains('.') || t.contains('e') || t.contains('E') {
            Some(float_word())
        } else {
            Some(int_word())
        }
    } else {
        None
    }
}

fn all_hex_digits(s: &[char]) -> (r: bool)
    ensures
        r == forall|i: int| 0 <= i < s@.len() ==> is_ascii_hexdigit(#[trigger] s@[i]),
{
    let mut i: usize = 0;
    while i < s.len()
        invariant
            i <= s.len(),
            forall|j: int| 0 <= j < i ==> is_ascii_hexdigit(#[trigger] s@[j]),
        decreases s.len() - i,
    {
        let c = s[i];
        if !(('0' <= c && c <= '9') || ('a' <= c && c <= 'f') || ('A' <= c && c <= 'F')) {
            assert(!is_ascii_hexdigit(s@[i as int]));
            return false;
        }
        i = i + 1;
    }
    true
}

fn numeric_chars(text: &[char]) -> (r: bool)
    ensures
        r == looks_like_numeric_expression(text@),
{
    let trimmed = trim_chars(text);
    let x = vec!['0', 'x'];
    let big_x = vec!['0', 'X'];
    assert(x@ =~= seq!['0', 'x']);
    assert(big_x@ =~= seq!['0', 'X']);
    if chars_start_with(trimmed.as_slice(), x.as_slice()) || chars_start_with(
        trimmed.as_slice(),
        big_x.as_slice(),
    ) {
        let hex = sub_chars(trimmed.as_slice(), 2, trimmed.len());
        assert(hex@ =~= trimmed@.skip(2));
        return hex.len() > 0 && all_hex_digits(hex.as_slice());
    }
    assert(hex_digits_after_prefix(trim(text@)) is None);
    let mut saw_digit = false;
    let mut i: usize = 0;
    while i < text.len()
        invariant
            i <= text.len(),
            hex_digits_after_prefix(trim(text@)) is None,
            forall|j: int|
                0 <= j < i ==> is_ascii_digit(#[trigger] text@[j]) || is_numeric_operator_char(text@[j]),
            saw_digit == exists|j: int| 0 <= j < i && is_ascii_digit(#[trigger] text@[j]),
        decreases text.len() - i,
    {
        let c = text[i];
        if '0' <= c && c <= '9' {
            saw_digit = true;
        } else if !(c == ' ' || c == '\t' || c == '\n' || c == '\x0C' || c == '\r' || c == '+' || c
            == '-' || c == '*' || c == '/' || c == '%' || c == '.' || c == '(' || c == ')' || c == '<'
            || c == '>' || c == '=' || c == '!' || c == '&' || c == '|' || c == 'e' || c == 'E') {
            assert(!(is_ascii_digit(text@[i as int]) || is_numeric_operator_char(text@[i as int])));
            return false;
        }
        i = i + 1;
    }
    saw_digit
}

fn contains_char(s: &[char], c: char) -> (r: bool)
    ensures
        r == s@.contains(c),
{
    let mut i: usize = 0;
    while i < s.len()
        invariant
            i <= s.len(),
            forall|j: int| 0 <= j < i ==> s@[j] != c,
        decreases s.len() - i,
    {
        if s[i] == c {
            assert(s@[i as int] == c);
            return true;
        }
        i = i + 1;
    }
    false
}

/// The primitive type of a literal expression text (see
/// `spec_primitive_type_from_expression_text`).
pub fn primitive_type_from_expression_text(text: &str) -> (r: Option<&'static str>)
    ensures
        match r {
            Some(name) => spec_primitive_type_from_expression_text(text@) == Some(name@),
            None => spec_primitive_type_from_expression_text(text@) is None,
        },
{
    proof {
        reveal_strlit("string");
        reveal_strlit("bool");
        reveal_strlit("float");
        reveal_strlit("int");
    }
    let chars = chars_of(text);
    let t = trim_chars(chars.as_slice());
    if t.len() == 0 {
        return None;
    }
    if t.len() >= 2 && t[0] == '"' && t[t.len() - 1] == '"' {
        return Some("string");
    }
    let yes = vec!['t', 'r', 'u', 'e'];
    let no = vec!['f', 'a', 'l', 's', 'e'];
    if crate::text::chars_eq(t.as_slice(), yes.as_slice()) || crate::text::chars_eq(t.as_slice(), no.as_slice()) {
        return Some("bool");
    }
    if numeric_chars(t.as_slice()) {
        if contains_char(t.as_slice(), '.') || contains_char(t.as_slice(), 'e') || contains_char(
            t.as_slice(),
            'E',
        ) {
            return Some("float");
        }
        return Some("int");
    }
    None
}

/// The text is `null` once trimmed.
pub fn is_null_literal_text(text: &str) -> (r: bool)
    ensures
        r == (trim(text@) == seq!['n', 'u', 'l', 'l']),
{
    let chars = chars_of(text);
    let t = trim_chars(chars.as_slice());
    let null = vec!['n', 'u', 'l', 'l'];
    crate::text::chars_eq(t.as_slice(), null.as_slice())
}

// ---------------------------------------------------------------------------
// `new` and `Cast` expressions

/// The owner created by a `new` expression: the type text after a leading
/// `new` of the trimmed text.
pub open spec fn spec_owner_type_from_new_expression_text(text: Seq<char>) -> Option<Seq<char>> {
    let t = trim(text);
    if starts_with(t, seq!['n', 'e', 'w']) {
        spec_owner_type_from_type_text(trim_start(t.skip(3)))
    } else {
        None
    }
}

pub fn owner_type_from_new_expression_text(text: &str) -> (r: Option<String>)
    ensures
        opt_chars(r) == spec_owner_type_from_new_expression_text(text@),
{
    let chars = chars_of(text);
    let t = trim_chars(chars.as_slice());
    let new_word = vec!['n', 'e', 'w'];
    if !chars_start_with(t.as_slice(), new_word.as_slice()) {
        return None;
    }
    let rest = sub_chars(t.as_slice(), 3, t.len());
    assert(rest@ =~= t@.skip(3));
    let rest = trim_start_chars(rest.as_slice());
    match owner_type_chars(rest.as_slice()) {
        Some(v) => Some(string_from_chars(v.as_slice())),
        None => None,
    }
}

/// The first position at or after `i` where `pat` occurs in `t`.
pub open spec fn find_from(t: Seq<char>, pat: Seq<char>, i: nat) -> Option<int>
    decreases t.len() - i,
{
    if i >= t.len() || i + pat.len() > t.len() {
        None
    } else if t.subrange(i as int, (i + pat.len()) as int) == pat {
        Some(i as int)
    } else {
        find_from(t, pat, i + 1)
    }
}

pub open spec fn cast_word() -> Seq<char> {
    seq!['.', 'C', 'a', 's', 't']
}

/// The owner a `.Cast` expression casts to: the type text before the first
/// `.Cast` of the trimmed text, when not empty.
pub open spec fn spec_owner_type_from_cast_expression_text(text: Seq<char>) -> Option<Seq<char>> {
    let t = trim(text);
    match find_from(t, cast_word(), 0) {
        None => None,
        Some(k) => {
            let owner = crate::text::trim_end(t.take(k));
            if owner.len() == 0 {
                None
            } else {
                spec_owner_type_from_type_text(owner)
            }
        },
    }
}

pub proof fn lemma_find_from_bounds(t: Seq<char>, pat: Seq<char>, i: nat)
    ensures
        find_from(t, pat, i) matches Some(k) ==> i <= k && k + pat.len() <= t.len(),
    decreases t.len() - i,
{
    if !(i >= t.len() || i + pat.len() > t.len()) && t.subrange(i as int, (i + pat.len()) as int) != pat {
        lemma_find_from_bounds(t, pat, i + 1);
    }
}

fn find_chars(t: &[char], pat: &[char]) -> (r: Option<usize>)
    ensures
        match r {
            Some(k) => find_from(t@, pat@, 0) == Some(k as int),
            None => find_from(t@, pat@, 0) is None,
        },
{
    let mut i: usize = 0;
    while i < t.len() && pat.len() <= t.len() - i
        invariant
            i <= t.len(),
            find_from(t@, pat@, i as nat) == find_from(t@, pat@, 0),
        decreases t.len() - i,
    {
        let window = sub_chars(t, i, i + pat.len());
        if crate::text::chars_eq(window.as_slice(), pat) {
            return Some(i);
        }
        i = i + 1;
    }
    None
}

fn trim_end_chars(s: &[char]) -> (r: Vec<char>)
    ensures
        r@ == crate::text::trim_end(s@),
{
    let mut end: usize = s.len();
    while end > 0 && exec_is_whitespace(s[end - 1])
        invariant
            end <= s.len(),
            forall|i: int| end <= i < s.len() ==> is_whitespace(#[trigger] s@[i]),
        decreases end,
    {
        end = end - 1;
    }
    proof {
        crate::text::lemma_trailing_count_unique(s@, |c: char| is_whitespace(c), (s.len() - end) as int);
    }
    sub_chars(s, 0, end)
}

pub fn owner_type_from_cast_expression_text(text: &str) -> (r: Option<String>)
    ensures
        opt_chars(r) == spec_owner_type_from_cast_expression_text(text@),
{
    let chars = chars_of(text);
    let t = trim_chars(chars.as_slice());
    let cast = vec!['.', 'C', 'a', 's', 't'];
    let k = match find_chars(t.as_slice(), cast.as_slice()) {
        Some(k) => k,
        None => return None,
    };
    proof {
        lemma_find_from_bounds(t@, cast@, 0);
    }
    let head = sub_chars(t.as_slice(), 0, k);
    assert(head@ =~= t@.take(k as int));
    let owner = trim_end_chars(head.as_slice());
    if owner.len() == 0 {
        return None;
    }
    match owner_type_chars(owner.as_slice()) {
        Some(v) => Some(string_from_chars(v.as_slice())),
        None => None,
    }
}


// ---------------------------------------------------------------------------
// Generic return types

/// The names of the type parameters declared directly under `id`, in table
/// order.
pub open spec fn type_parameter_names_of(symbols: Seq<IndexedSymbol>, id: GlobalSymbolId) -> Seq<Seq<char>>
    decreases symbols.len(),
{
    if symbols.len() == 0 {
        Seq::empty()
    } else {
        let before = type_parameter_names_of(symbols.drop_last(), id);
        let s = symbols.last();
        if s.parent == Some(id) && s.kind == SymbolKind::TypeParameter && s.name is Some {
            before.push(s.name->0@)
        } else {
            before
        }
    }
}

/// `c` is a class named `owner` with type parameters, and no other such
/// class is preferred over it.
pub open spec fn is_most_preferred_generic(index: SymbolIndex, c: GlobalSymbolId, owner: Seq<char>) -> bool {
    let classes = index.spec_kind_named(SymbolKind::Class, owner);
    &&& classes.contains(c)
    &&& type_parameter_names_of(index.spec_symbols(), c).len() > 0
    &&& forall|x: GlobalSymbolId|
        classes.contains(x) && type_parameter_names_of(index.spec_symbols(), x).len() > 0
            ==> !index.prefers(x, c)
}

/// The type parameter names of the most preferred class named `owner` that
/// declares any; empty when none does.
pub open spec fn spec_class_type_parameter_names(index: SymbolIndex, owner: Seq<char>) -> Seq<Seq<char>> {
    if exists|c: GlobalSymbolId| is_most_preferred_generic(index, c, owner) {
        type_parameter_names_of(
            index.spec_symbols(),
            choose|c: GlobalSymbolId| is_most_preferred_generic(index, c, owner),
        )
    } else {
        Seq::empty()
    }
}

fn type_parameter_names(index: &SymbolIndex, id: GlobalSymbolId) -> (r: Vec<Vec<char>>)
    ensures
        vec_views(r@) == type_parameter_names_of(index.spec_symbols(), id),
{
    let symbols = index.symbols();
    let mut out: Vec<Vec<char>> = Vec::new();
    let mut i: usize = 0;
    while i < symbols.len()
        invariant
            symbols@ == index.spec_symbols(),
            i <= symbols@.len(),
            vec_views(out@) == type_parameter_names_of(symbols@.take(i as int), id),
        decreases symbols@.len() - i,
    {
        let s = &symbols[i];
        assert(symbols@.take(i + 1).drop_last() =~= symbols@.take(i as int));
        if s.parent == Some(id) && s.kind == SymbolKind::TypeParameter {
            if let Some(name) = &s.name {
                let ghost before = vec_views(out@);
                out.push(chars_of(name.as_str()));
                assert(vec_views(out@) =~= before.push(name@));
            }
        }
        i = i + 1;
    }
    assert(symbols@.take(symbols@.len() as int) =~= symbols@);
    out
}

fn class_type_parameter_names(index: &SymbolIndex, owner: &str) -> (r: Vec<Vec<char>>)
    ensures
        vec_views(r@) == spec_class_type_parameter_names(*index, owner@),
{
    let classes = index.classes_by_name(owner);
    let sorted = index.preferred_from_symbols(classes.as_slice());
    let ghost cls = index.spec_kind_named(SymbolKind::Class, owner@);
    proof {
        lemma_same_multiset_contains(cls, sorted@);
    }
    let mut i: usize = 0;
    while i < sorted.len()
        invariant
            i <= sorted@.len(),
            cls == index.spec_kind_named(SymbolKind::Class, owner@),
            index.preference_ordered(sorted@),
            forall|x: GlobalSymbolId| cls.contains(x) <==> sorted@.contains(x),
            forall|k: int|
                0 <= k < i ==> type_parameter_names_of(index.spec_symbols(), #[trigger] sorted@[k]).len() == 0,
        decreases sorted@.len() - i,
    {
        let names = type_parameter_names(index, sorted[i]);
        if names.len() > 0 {
            proof {
                let c = sorted@[i as int];
                assert(cls.contains(c));
                assert forall|x: GlobalSymbolId|
                    cls.contains(x) && type_parameter_names_of(index.spec_symbols(), x).len() > 0 implies !index.prefers(
                    x,
                    c,
                ) by {
                    let k = choose|k: int| 0 <= k < sorted@.len() && sorted@[k] == x;
                    if k > i {
                        assert(!index.prefers(sorted@[k], sorted@[i as int]));
                    }
                }
                assert(is_most_preferred_generic(*index, c, owner@));
                let chosen = choose|c2: GlobalSymbolId| is_most_preferred_generic(*index, c2, owner@);
                index.lemma_prefers_total(chosen, c);
                assert(chosen == c);
            }
            return names;
        }
        i = i + 1;
    }
    proof {
        assert forall|c: GlobalSymbolId| !is_most_preferred_generic(*index, c, owner@) by {
            if cls.contains(c) {
                let k = choose|k: int| 0 <= k < sorted@.len() && sorted@[k] == c;
                assert(type_parameter_names_of(index.spec_symbols(), sorted@[k]).len() == 0);
            }
        }
    }
    let empty: Vec<Vec<char>> = Vec::new();
    assert(vec_views(empty@) =~= Seq::<Seq<char>>::empty());
    empty
}

/// `k` is the first position of `x` in `names`.
pub open spec fn is_first_position(names: Seq<Seq<char>>, x: Seq<char>, k: int) -> bool {
    0 <= k < names.len() && names[k] == x && forall|j: int| 0 <= j < k ==> names[j] != x
}

/// The first position of `x` in `names`, if any.
pub open spec fn first_position(names: Seq<Seq<char>>, x: Seq<char>) -> Option<int> {
    if exists|k: int| is_first_position(names, x, k) {
        Some(choose|k: int| is_first_position(names, x, k))
    } else {
        None
    }
}

/// The argument that a receiver of type `receiver_type_text` gives to the
/// generic return type `return_type_text` of a member of `owner`: the
/// receiver must name `owner`, and the return type must name one of the
/// type parameters of the most preferred generic class `owner`; the result
/// is the receiver's argument at that parameter's position.
pub open spec fn spec_substitute_generic_return_type(
    index: SymbolIndex,
    owner: Seq<char>,
    receiver_type_text: Seq<char>,
    return_type_text: Seq<char>,
) -> Option<Seq<char>> {
    match spec_owner_type_from_type_text(return_type_text) {
        None => None,
        Some(return_owner) => match spec_owner_type_from_type_text(receiver_type_text) {
            None => None,
            Some(receiver_owner) => if receiver_owner != owner {
                None
            } else {
                match spec_generic_owner_and_args(spec_strip_all_type_prefixes(receiver_type_text)) {
                    None => None,
                    Some((_, args)) => match first_position(
                        spec_class_type_parameter_names(index, owner),
                        return_owner,
                    ) {
                        None => None,
                        Some(k) => if k < args.len() {
                            Some(args[k])
                        } else {
                            None
                        },
                    },
                }
            },
        },
    }
}

/// Substitutes a generic return type by the receiver's type argument (see
/// `spec_substitute_generic_return_type`).
#[verifier::loop_isolation(false)]
pub fn substitute_generic_return_type(
    index: &SymbolIndex,
    owner: &str,
    receiver_type_text: &str,
    return_type_text: &str,
) -> (r: Option<String>)
    ensures
        opt_chars(r) == spec_substitute_generic_return_type(
            *index,
            owner@,
            receiver_type_text@,
            return_type_text@,
        ),
{
    let return_chars = chars_of(return_type_text);
    let return_owner = match owner_type_chars(return_chars.as_slice()) {
        Some(o) => o,
        None => return None,
    };
    let receiver_chars = chars_of(receiver_type_text);
    let receiver_owner = match owner_type_chars(receiver_chars.as_slice()) {
        Some(o) => o,
        None => return None,
    };
    let owner_chars = chars_of(owner);
    if !crate::text::chars_eq(receiver_owner.as_slice(), owner_chars.as_slice()) {
        return None;
    }
    let stripped = strip_all_prefix_chars(receiver_chars.as_slice());
    let args = match generic_owner_and_arg_chars(stripped.as_slice()) {
        Some((_, args)) => args,
        None => return None,
    };
    let names = class_type_parameter_names(index, owner);
    let ghost ns = vec_views(names@);
    let mut k: usize = 0;
    while k < names.len()
        invariant
            k <= names@.len(),
            ns == vec_views(names@),
            forall|j: int| 0 <= j < k ==> ns[j] != return_owner@,
        decreases names@.len() - k,
    {
        if crate::text::chars_eq(names[k].as_slice(), return_owner.as_slice()) {
            proof {
                assert(is_first_position(ns, return_owner@, k as int));
                let c = choose|c: int| is_first_position(ns, return_owner@, c);
                assert(c == k);
            }
            if k < args.len() {
                return Some(string_from_chars(args[k].as_slice()));
            }
            return None;
        }
        k = k + 1;
    }
    proof {
        assert forall|c: int| !is_first_position(ns, return_owner@, c) by {}
    }
    None
}

} // verus!
