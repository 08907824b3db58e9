//! Lexicographic order of sequences, as `str` and tuples of strings order
//! themselves: strings by code point, tuples of strings field by field.
use vstd::prelude::*;

verus! {

/// `lt` is irreflexive, transitive and total on distinct values.
pub open spec fn is_strict_total<T>(lt: spec_fn(T, T) -> bool) -> bool {
    &&& forall|x: T| !(#[trigger] lt(x, x))
    &&& forall|x: T, y: T, z: T| #[trigger] lt(x, y) && #[trigger] lt(y, z) ==> lt(x, z)
    &&& forall|x: T, y: T| x != y ==> #[trigger] lt(x, y) || #[trigger] lt(y, x)
}

/// `a` sorts strictly before `b`: at the first difference `a`'s element is
/// smaller, or `a` is a proper prefix of `b`.
pub open spec fn lex_lt<T>(a: Seq<T>, b: Seq<T>, lt: spec_fn(T, T) -> bool) -> bool
    decreases a.len(),
{
    if a.len() == 0 {
        b.len() > 0
    } else if b.len() == 0 {
        false
    } else if a[0] != b[0] {
        lt(a[0], b[0])
    } else {
        lex_lt(a.drop_first(), b.drop_first(), lt)
    }
}

/// Characters by code point.
pub open spec fn char_lt() -> spec_fn(char, char) -> bool {
    |x: char, y: char| x < y
}

/// Strings by code point, as `str` compares them.
pub open spec fn chars_lt(a: Seq<char>, b: Seq<char>) -> bool {
    lex_lt(a, b, char_lt())
}

/// Tuples of strings, field by field.
pub open spec fn fields_lt(a: Seq<Seq<char>>, b: Seq<Seq<char>>) -> bool {
    lex_lt(a, b, |x: Seq<char>, y: Seq<char>| chars_lt(x, y))
}

pub proof fn lemma_lex_irreflexive<T>(a: Seq<T>, lt: spec_fn(T, T) -> bool)
    requires
        is_strict_total(lt),
    ensures
        !lex_lt(a, a, lt),
    decreases a.len(),
{
    if a.len() > 0 {
        lemma_lex_irreflexive(a.drop_first(), lt);
    }
}

pub proof fn lemma_lex_transitive<T>(a: Seq<T>, b: Seq<T>, c: Seq<T>, lt: spec_fn(T, T) -> bool)
    requires
        is_strict_total(lt),
        lex_lt(a, b, lt),
        lex_lt(b, c, lt),
    ensures
        lex_lt(a, c, lt),
    decreases a.len(),
{
    if a.len() > 0 && b.len() > 0 && c.len() > 0 {
        if a[0] == b[0] && b[0] == c[0] {
            lemma_lex_transitive(a.drop_first(), b.drop_first(), c.drop_first(), lt);
        } else if a[0] != b[0] && b[0] != c[0] {
            assert(lt(a[0], b[0]) && lt(b[0], c[0]));
            assert(lt(a[0], c[0]));
            if a[0] == c[0] {
                assert(!lt(a[0], a[0]));
            }
        }
    }
}

pub proof fn lemma_lex_total<T>(a: Seq<T>, b: Seq<T>, lt: spec_fn(T, T) -> bool)
    requires
        is_strict_total(lt),
        a != b,
    ensures
        lex_lt(a, b, lt) || lex_lt(b, a, lt),
    decreases a.len(),
{
    if a.len() == 0 && b.len() == 0 {
        assert(a =~= b);
    } else if a.len() > 0 && b.len() > 0 {
        if a[0] == b[0] {
            if a.drop_first() == b.drop_first() {
                assert(a.drop_first().len() == a.len() - 1);
                assert(b.drop_first().len() == b.len() - 1);
                assert(a.len() == b.len());
                assert(a =~= b) by {
                    assert forall|i: int| 0 <= i < a.len() implies a[i] == b[i] by {
                        if i > 0 {
                            assert(a[i] == a.drop_first()[i - 1]);
                            assert(b[i] == b.drop_first()[i - 1]);
                        }
                    }
                }
            }
            lemma_lex_total(a.drop_first(), b.drop_first(), lt);
        } else {
            assert(lt(a[0], b[0]) || lt(b[0], a[0]));
        }
    }
}

/// Lexicographic order over a strict total order is a strict total order.
pub proof fn lemma_lex_strict_total<T>(lt: spec_fn(T, T) -> bool)
    requires
        is_strict_total(lt),
    ensures
        is_strict_total(|a: Seq<T>, b: Seq<T>| lex_lt(a, b, lt)),
{
    let l = |a: Seq<T>, b: Seq<T>| lex_lt(a, b, lt);
    assert forall|x: Seq<T>| !(#[trigger] l(x, x)) by {
        lemma_lex_irreflexive(x, lt);
    }
    assert forall|x: Seq<T>, y: Seq<T>, z: Seq<T>| #[trigger] l(x, y) && #[trigger] l(y, z) implies l(x, z) by {
        lemma_lex_transitive(x, y, z, lt);
    }
    assert forall|x: Seq<T>, y: Seq<T>| x != y implies #[trigger] l(x, y) || #[trigger] l(y, x) by {
        lemma_lex_total(x, y, lt);
    }
}

/// The code-point order on characters is a strict total order.
pub proof fn lemma_char_lt_strict_total()
    ensures
        is_strict_total(char_lt()),
{
    assert forall|x: char, y: char| x != y implies #[trigger] char_lt()(x, y) || #[trigger] char_lt()(y, x) by {}
}

/// The string order is a strict total order.
pub proof fn lemma_chars_lt_strict_total()
    ensures
        is_strict_total(|a: Seq<char>, b: Seq<char>| chars_lt(a, b)),
{
    lemma_char_lt_strict_total();
    lemma_lex_strict_total(char_lt());
    assert((|a: Seq<char>, b: Seq<char>| chars_lt(a, b)) =~= (|a: Seq<char>, b: Seq<char>| lex_lt(
        a,
        b,
        char_lt(),
    )));
}

/// The order of tuples of strings is a strict total order.
pub proof fn lemma_fields_lt_strict_total()
    ensures
        is_strict_total(|a: Seq<Seq<char>>, b: Seq<Seq<char>>| fields_lt(a, b)),
{
    lemma_chars_lt_strict_total();
    lemma_lex_strict_total(|x: Seq<char>, y: Seq<char>| chars_lt(x, y));
    assert((|a: Seq<Seq<char>>, b: Seq<Seq<char>>| fields_lt(a, b)) =~= (|a: Seq<Seq<char>>, b: Seq<Seq<char>>| lex_lt(
        a,
        b,
        |x: Seq<char>, y: Seq<char>| chars_lt(x, y),
    )));
}

/// Whether `a` sorts strictly before `b` by code point.
pub fn chars_less(a: &[char], b: &[char]) -> (r: bool)
    ensures
        r == chars_lt(a@, b@),
{
    let mut i: usize = 0;
    assert(a@.skip(0) =~= a@ && b@.skip(0) =~= b@);
    loop
        invariant
            i <= a.len(),
            i <= b.len(),
            lex_lt(a@.skip(i as int), b@.skip(i as int), char_lt()) == chars_lt(a@, b@),
        decreases a.len() - i,
    {
        if i == a.len() {
            return i < b.len();
        }
        if i == b.len() {
            return false;
        }
        assert(a@.skip(i as int)[0] == a@[i as int] && b@.skip(i as int)[0] == b@[i as int]);
        if a[i] != b[i] {
            return a[i] < b[i];
        }
        assert(a@.skip(i as int).drop_first() =~= a@.skip(i + 1));
        assert(b@.skip(i as int).drop_first() =~= b@.skip(i + 1));
        i = i + 1;
    }
}

/// The views of a sequence of character vectors.
pub open spec fn segment_views(v: Seq<Vec<char>>) -> Seq<Seq<char>> {
    v.map_values(|x: Vec<char>| x@)
}

/// Whether the tuple `a` sorts strictly before the tuple `b`.
pub fn fields_less(a: &[Vec<char>], b: &[Vec<char>]) -> (r: bool)
    ensures
        r == fields_lt(segment_views(a@), segment_views(b@)),
{
    let ghost av = segment_views(a@);
    let ghost bv = segment_views(b@);
    let ghost lt = |x: Seq<char>, y: Seq<char>| chars_lt(x, y);
    let mut i: usize = 0;
    assert(av.skip(0) =~= av && bv.skip(0) =~= bv);
    loop
        invariant
            i <= a.len(),
            i <= b.len(),
            av == segment_views(a@),
            bv == segment_views(b@),
            lt == (|x: Seq<char>, y: Seq<char>| chars_lt(x, y)),
            lex_lt(av.skip(i as int), bv.skip(i as int), lt) == fields_lt(av, bv),
        decreases a.len() - i,
    {
        if i == a.len() {
            return i < b.len();
        }
        if i == b.len() {
            return false;
        }
        assert(av.skip(i as int)[0] == a@[i as int]@ && bv.skip(i as int)[0] == b@[i as int]@);
        if !crate::text::chars_eq(a[i].as_slice(), b[i].as_slice()) {
            return chars_less(a[i].as_slice(), b[i].as_slice());
        }
        assert(av.skip(i as int).drop_first() =~= av.skip(i + 1));
        assert(bv.skip(i as int).drop_first() =~= bv.skip(i + 1));
        i = i + 1;
    }
}

/// Whether two tuples of strings are equal.
pub fn fields_equal(a: &[Vec<char>], b: &[Vec<char>]) -> (r: bool)
    ensures
        r == (segment_views(a@) == segment_views(b@)),
{
    if a.len() != b.len() {
        assert(segment_views(a@).len() != segment_views(b@).len());
        return false;
    }
    let mut i: usize = 0;
    while i < a.len()
        invariant
            a.len() == b.len(),
            i <= a.len(),
            forall|j: int| 0 <= j < i ==> a@[j]@ == b@[j]@,
        decreases a.len() - i,
    {
        if !crate::text::chars_eq(a[i].as_slice(), b[i].as_slice()) {
            assert(segment_views(a@)[i as int] != segment_views(b@)[i as int]);
            return false;
        }
        i = i + 1;
    }
    assert(segment_views(a@) =~= segment_views(b@));
    true
}

} // verus!
