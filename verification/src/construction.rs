//! The type a `new` expression is expected to construct, recovered from
//! the tokens before it: a declaration `Type name = new ...`, or an element
//! of a collection initializer `array<Type> name = { new ..., new ... }`.
use vstd::prelude::*;
use crate::formatting::{char_index_of, char_offsets, lemma_boundary_is_char_start, lemma_char_start_grows, lemma_char_start_unique};
use crate::index_build::{char_start, lemma_char_start_encoded};
use crate::model::TextSpan;
use crate::expression_type::{generic_owner_and_args, spec_generic_owner_and_args, spec_strip_all_type_prefixes, strip_all_type_prefixes};
use crate::text::{chars_of, str_eq, string_from_chars, trim, trim_chars};
use vstd::utf8::{encode_utf8, is_char_boundary};
use crate::syntax::{spec_is_trivia, Keyword, Operator, Token, TokenKind};

verus! {

/// The expected type of a construction, and the class it stands in, when
/// known.
#[derive(Debug, Clone, PartialEq, Eq)]
pub struct ContextualConstruction {
    pub type_text: String,
    pub containing_class: Option<String>,
}

// ---------------------------------------------------------------------------
// Declaration types

/// A token that can name a type: an identifier or a built-in type keyword.
pub open spec fn is_type_name(kind: TokenKind) -> bool {
    kind == TokenKind::Identifier || kind == TokenKind::Keyword(Keyword::Void) || kind == TokenKind::Keyword(
        Keyword::Bool,
    ) || kind == TokenKind::Keyword(Keyword::Int) || kind == TokenKind::Keyword(Keyword::Float) || kind
        == TokenKind::Keyword(Keyword::String) || kind == TokenKind::Keyword(Keyword::Vector) || kind
        == TokenKind::Keyword(Keyword::Typename) || kind == TokenKind::Keyword(Keyword::Auto)
}

pub fn is_type_name_token(kind: TokenKind) -> (r: bool)
    ensures
        r == is_type_name(kind),
{
    match kind {
        TokenKind::Identifier => true,
        TokenKind::Keyword(Keyword::Void) | TokenKind::Keyword(Keyword::Bool) | TokenKind::Keyword(Keyword::Int)
        | TokenKind::Keyword(Keyword::Float) | TokenKind::Keyword(Keyword::String) | TokenKind::Keyword(
            Keyword::Vector,
        ) | TokenKind::Keyword(Keyword::Typename) | TokenKind::Keyword(Keyword::Auto) => true,
        _ => false,
    }
}

/// A qualifier that may precede a declared type.
pub open spec fn is_leading_qualifier(kind: TokenKind) -> bool {
    kind == TokenKind::Keyword(Keyword::Ref) || kind == TokenKind::Keyword(Keyword::Autoptr) || kind
        == TokenKind::Keyword(Keyword::Owned) || kind == TokenKind::Keyword(Keyword::Const) || kind
        == TokenKind::Keyword(Keyword::Notnull)
}

/// A qualifier allowed inside generic arguments.
pub open spec fn is_argument_qualifier(kind: TokenKind) -> bool {
    kind == TokenKind::Keyword(Keyword::Ref) || kind == TokenKind::Keyword(Keyword::Autoptr) || kind
        == TokenKind::Keyword(Keyword::Owned) || kind == TokenKind::Keyword(Keyword::Const)
}

/// The number of leading qualifiers.
pub open spec fn qualifier_count(t: Seq<Token>, i: int) -> int
    decreases t.len() - i,
{
    if 0 <= i < t.len() && is_leading_qualifier(t[i].kind) {
        1 + qualifier_count(t, i + 1)
    } else {
        0
    }
}

/// The nesting of angle brackets after walking generic tokens `i..`, from
/// `depth`; none when a token cannot stand there or a bracket closes more
/// than is open.
pub open spec fn generic_walk(t: Seq<Token>, i: int, depth: int) -> Option<int>
    decreases t.len() - i,
{
    if i < 0 || i >= t.len() {
        Some(depth)
    } else {
        let kind = t[i].kind;
        if kind == TokenKind::Operator(Operator::Less) {
            generic_walk(t, i + 1, depth + 1)
        } else if kind == TokenKind::Operator(Operator::Greater) {
            if depth < 1 {
                None
            } else {
                generic_walk(t, i + 1, depth - 1)
            }
        } else if kind == TokenKind::Operator(Operator::GreaterGreater) {
            if depth < 2 {
                None
            } else {
                generic_walk(t, i + 1, depth - 2)
            }
        } else if depth > 0 && (kind == TokenKind::Comma || is_type_name(kind) || is_argument_qualifier(kind)) {
            generic_walk(t, i + 1, depth)
        } else {
            None
        }
    }
}

/// The tokens spell a declared type: qualifiers, a type name, and
/// optionally balanced generic arguments in angle brackets.
pub open spec fn forms_declaration_type(t: Seq<Token>) -> bool {
    let q = qualifier_count(t, 0);
    &&& q < t.len()
    &&& is_type_name(t[q].kind)
    &&& (q + 1 == t.len() || (t[q + 1].kind == TokenKind::Operator(Operator::Less) && generic_walk(t, q + 1, 0)
        == Some(0int) && (t.last().kind == TokenKind::Operator(Operator::Greater) || t.last().kind
        == TokenKind::Operator(Operator::GreaterGreater))))
}

fn is_leading_qualifier_kind(kind: TokenKind) -> (r: bool)
    ensures
        r == is_leading_qualifier(kind),
{
    match kind {
        TokenKind::Keyword(Keyword::Ref) | TokenKind::Keyword(Keyword::Autoptr) | TokenKind::Keyword(Keyword::Owned)
        | TokenKind::Keyword(Keyword::Const) | TokenKind::Keyword(Keyword::Notnull) => true,
        _ => false,
    }
}

fn is_argument_qualifier_kind(kind: TokenKind) -> (r: bool)
    ensures
        r == is_argument_qualifier(kind),
{
    match kind {
        TokenKind::Keyword(Keyword::Ref) | TokenKind::Keyword(Keyword::Autoptr) | TokenKind::Keyword(Keyword::Owned)
        | TokenKind::Keyword(Keyword::Const) => true,
        _ => false,
    }
}

/// A declared type may open with a qualifier: `ref`, `autoptr`, `owned`,
/// `const` or `notnull` followed by a type name spells a declared type,
/// just as the name alone does, while the qualifier alone does not.
pub proof fn lemma_qualified_name_is_declaration_type(qualifier: Token, name: Token)
    requires
        qualifier.kind == TokenKind::Keyword(Keyword::Ref) || qualifier.kind == TokenKind::Keyword(Keyword::Autoptr)
            || qualifier.kind == TokenKind::Keyword(Keyword::Owned) || qualifier.kind == TokenKind::Keyword(
            Keyword::Const,
        ) || qualifier.kind == TokenKind::Keyword(Keyword::Notnull),
        name.kind == TokenKind::Identifier,
    ensures
        forms_declaration_type(seq![qualifier, name]),
        forms_declaration_type(seq![name]),
        !forms_declaration_type(seq![qualifier]),
{
    let t = seq![qualifier, name];
    assert(qualifier_count(t, 2) == 0);
    assert(qualifier_count(t, 1) == 0);
    assert(qualifier_count(t, 0) == 1);
    let u = seq![name];
    assert(qualifier_count(u, 0) == 0);
    let v = seq![qualifier];
    assert(qualifier_count(v, 1) == 0);
    assert(qualifier_count(v, 0) == 1);
}

/// Generic arguments may carry the qualifiers `ref`, `autoptr`, `owned`
/// and `const`: `Name<q Arg>` spells a declared type for each of them.
pub proof fn lemma_qualified_generic_argument(name: Token, less: Token, qualifier: Token, arg: Token, greater: Token)
    requires
        name.kind == TokenKind::Identifier,
        arg.kind == TokenKind::Identifier,
        less.kind == TokenKind::Operator(Operator::Less),
        greater.kind == TokenKind::Operator(Operator::Greater),
        qualifier.kind == TokenKind::Keyword(Keyword::Ref) || qualifier.kind == TokenKind::Keyword(Keyword::Autoptr)
            || qualifier.kind == TokenKind::Keyword(Keyword::Owned) || qualifier.kind == TokenKind::Keyword(
            Keyword::Const,
        ),
    ensures
        forms_declaration_type(seq![name, less, qualifier, arg, greater]),
{
    let t = seq![name, less, qualifier, arg, greater];
    assert(qualifier_count(t, 0) == 0);
    assert(generic_walk(t, 5, 0) == Some(0int));
    assert(generic_walk(t, 4, 1) == Some(0int));
    assert(generic_walk(t, 3, 1) == Some(0int));
    assert(generic_walk(t, 2, 1) == Some(0int));
    assert(generic_walk(t, 1, 0) == Some(0int));
}

pub fn tokens_form_declaration_type(tokens: &[Token]) -> (r: bool)
    ensures
        r == forms_declaration_type(tokens@),
{
    let t = tokens;
    let mut q: usize = 0;
    while q < t.len() && is_leading_qualifier_kind(t[q].kind)
        invariant
            q <= t@.len(),
            qualifier_count(t@, 0) == q + qualifier_count(t@, q as int),
        decreases t@.len() - q,
    {
        q = q + 1;
    }
    assert(qualifier_count(t@, q as int) == 0);
    if q >= t.len() || !is_type_name_token(t[q].kind) {
        return false;
    }
    if q + 1 == t.len() {
        return true;
    }
    if t[q + 1].kind != TokenKind::Operator(Operator::Less) {
        return false;
    }
    let mut depth: usize = 0;
    let mut i: usize = q + 1;
    while i < t.len()
        invariant
            t@ == tokens@,
            q + 1 < t@.len(),
            q == qualifier_count(t@, 0),
            is_type_name(t@[q as int].kind),
            t@[q + 1].kind == TokenKind::Operator(Operator::Less),
            q + 1 <= i <= t@.len(),
            generic_walk(t@, q + 1, 0) == generic_walk(t@, i as int, depth as int),
            depth <= i,
        decreases t@.len() - i,
    {
        let kind = t[i].kind;
        if kind == TokenKind::Operator(Operator::Less) {
            depth = depth + 1;
        } else if kind == TokenKind::Operator(Operator::Greater) {
            if depth < 1 {
                return false;
            }
            depth = depth - 1;
        } else if kind == TokenKind::Operator(Operator::GreaterGreater) {
            if depth < 2 {
                return false;
            }
            depth = depth - 2;
        } else if depth > 0 && (kind == TokenKind::Comma || is_type_name_token(kind) || is_argument_qualifier_kind(kind)) {
        } else {
            return false;
        }
        i = i + 1;
    }
    let last = t[t.len() - 1].kind;
    depth == 0 && (last == TokenKind::Operator(Operator::Greater) || last == TokenKind::Operator(
        Operator::GreaterGreater,
    ))
}

// ---------------------------------------------------------------------------
// Tokens and text before `new`

/// The tokens that end before `limit` and are neither trivia nor the end
/// of input, in order.
pub open spec fn significant_before(tokens: Seq<Token>, limit: int) -> Seq<Token>
    decreases tokens.len(),
{
    if tokens.len() == 0 {
        Seq::empty()
    } else {
        let t = tokens.last();
        let rest = significant_before(tokens.drop_last(), limit);
        if t.span.end <= limit && !spec_is_trivia(t.kind) && t.kind != TokenKind::Eof {
            rest.push(t)
        } else {
            rest
        }
    }
}

fn significant_tokens(tokens: &[Token], limit: usize) -> (r: Vec<Token>)
    ensures
        r@ == significant_before(tokens@, limit as int),
{
    let mut r: Vec<Token> = Vec::new();
    let mut i: usize = 0;
    while i < tokens.len()
        invariant
            i <= tokens@.len(),
            r@ == significant_before(tokens@.take(i as int), limit as int),
        decreases tokens@.len() - i,
    {
        assert(tokens@.take(i + 1).drop_last() =~= tokens@.take(i as int));
        let t = tokens[i];
        if t.span.end <= limit && !t.kind.is_trivia() && t.kind != TokenKind::Eof {
            r.push(t);
        }
        i = i + 1;
    }
    assert(tokens@.take(i as int) =~= tokens@);
    r
}

pub open spec fn is_structural(kind: TokenKind) -> bool {
    kind == TokenKind::LeftBrace || kind == TokenKind::RightBrace || kind == TokenKind::Semicolon
}

/// Just after the last brace or semicolon before token `k`, or 0.
pub open spec fn structural_start(t: Seq<Token>, k: int) -> int
    decreases k,
{
    if k <= 0 {
        0
    } else if is_structural(t[k - 1].kind) {
        k
    } else {
        structural_start(t, k - 1)
    }
}

fn find_structural_start(t: &Vec<Token>, k: usize) -> (r: usize)
    requires
        k <= t@.len(),
    ensures
        r == structural_start(t@, k as int),
        r <= k,
{
    let mut i: usize = k;
    while i > 0 && !(t[i - 1].kind == TokenKind::LeftBrace || t[i - 1].kind == TokenKind::RightBrace || t[i
        - 1].kind == TokenKind::Semicolon)
        invariant
            i <= k <= t@.len(),
            structural_start(t@, i as int) == structural_start(t@, k as int),
        decreases i,
    {
        i = i - 1;
    }
    i
}

/// The characters `a..b` of a text by byte offsets, as `str::get` gives
/// them: none unless `a <= b <= len` and both are character boundaries.
pub open spec fn slice_chars(chars: Seq<char>, a: int, b: int) -> Option<Seq<char>> {
    let bytes = encode_utf8(chars);
    if 0 <= a <= b <= bytes.len() && is_char_boundary(bytes, a) && is_char_boundary(bytes, b) {
        let ka = choose|k: int| 0 <= k <= chars.len() && char_start(chars, k) == a;
        let kb = choose|k: int| 0 <= k <= chars.len() && char_start(chars, k) == b;
        Some(chars.subrange(ka, kb))
    } else {
        None
    }
}

fn slice_source(source: &str, chars: &Vec<char>, offsets: &Vec<usize>, a: usize, b: usize) -> (r: Option<
    Vec<char>,
>)
    requires
        chars@ == source@,
        offsets@.len() == chars@.len() + 1,
        forall|k: int| 0 <= k <= chars@.len() ==> #[trigger] offsets@[k] == char_start(chars@, k),
    ensures
        match r {
            Some(v) => slice_chars(source@, a as int, b as int) == Some(v@),
            None => slice_chars(source@, a as int, b as int) is None,
        },
{
    let byte_len = source.as_bytes().len();
    if !(a <= b && b <= byte_len && source.is_char_boundary(a) && source.is_char_boundary(b)) {
        return None;
    }
    let ka = char_index_of(chars, offsets, a);
    let kb = char_index_of(chars, offsets, b);
    let ghost cka = choose|k: int| 0 <= k <= chars@.len() && char_start(chars@, k) == a;
    let ghost ckb = choose|k: int| 0 <= k <= chars@.len() && char_start(chars@, k) == b;
    proof {
        lemma_char_start_unique(chars@, ka as int, cka);
        lemma_char_start_unique(chars@, kb as int, ckb);
        if kb < ka {
            lemma_char_start_grows(chars@, kb as int, ka as int);
        }
    }
    let mut v: Vec<char> = Vec::new();
    let mut k: usize = ka;
    while k < kb
        invariant
            ka <= k <= kb <= chars@.len(),
            v@ == chars@.subrange(ka as int, k as int),
        decreases kb - k,
    {
        v.push(chars[k]);
        assert(chars@.subrange(ka as int, k + 1) =~= chars@.subrange(ka as int, k as int).push(chars@[k as int]));
        k = k + 1;
    }
    Some(v)
}

/// Just after the last line break before character `k`, as a byte offset;
/// 0 when there is none.
pub open spec fn line_break_after(chars: Seq<char>, k: int) -> int
    decreases k,
{
    if k <= 0 {
        0
    } else if chars[k - 1] == '\n' || chars[k - 1] == '\r' {
        char_start(chars, k - 1) + 1
    } else {
        line_break_after(chars, k - 1)
    }
}

/// The first of the tokens `i..k` that starts at or after byte `at`, else `k`.
pub open spec fn first_starting_at(t: Seq<Token>, at: int, i: int, k: int) -> int
    decreases k - i,
{
    if i >= k {
        k
    } else if t[i].span.start >= at {
        i
    } else {
        first_starting_at(t, at, i + 1, k)
    }
}

/// The text of the type tokens `t`, trimmed, when it can be read.
pub open spec fn type_text_of(chars: Seq<char>, t: Seq<Token>) -> Option<Seq<char>> {
    match slice_chars(chars, t[0].span.start as int, t.last().span.end as int) {
        Some(text) => Some(trim(text)),
        None => None,
    }
}

/// The declared type before `new` at byte `new_start`: the tokens before
/// end in `name =`, and the type tokens run from the last brace or
/// semicolon before the name, or from the start of the line of `new` if
/// later, to the name.
pub open spec fn spec_declaration_type_before_new(chars: Seq<char>, tokens: Seq<Token>, new_start: int) -> Option<
    Seq<char>,
> {
    let t = significant_before(tokens, new_start);
    if t.len() < 2 || t.last().kind != TokenKind::Operator(Operator::Equal) || t[t.len() - 2].kind
        != TokenKind::Identifier {
        None
    } else {
        let name = t.len() - 2;
        match slice_chars(chars, 0, new_start) {
            None => None,
            Some(prefix) => {
                let line_start = line_break_after(chars, prefix.len() as int);
                let start = structural_start(t, name);
                let line_index = first_starting_at(t, line_start, 0, name);
                let type_start = if start > line_index {
                    start
                } else {
                    line_index
                };
                let type_tokens = t.subrange(type_start, name);
                if !forms_declaration_type(type_tokens) {
                    None
                } else {
                    type_text_of(chars, type_tokens)
                }
            },
        }
    }
}

fn find_line_break_after(chars: &Vec<char>, offsets: &Vec<usize>, k: usize) -> (r: usize)
    requires
        k <= chars@.len(),
        offsets@.len() == chars@.len() + 1,
        forall|j: int| 0 <= j <= chars@.len() ==> #[trigger] offsets@[j] == char_start(chars@, j),
        char_start(chars@, chars@.len() as int) <= usize::MAX,
    ensures
        r == line_break_after(chars@, k as int),
{
    let mut i: usize = k;
    while i > 0 && !(chars[i - 1] == '\n' || chars[i - 1] == '\r')
        invariant
            i <= k <= chars@.len(),
            line_break_after(chars@, i as int) == line_break_after(chars@, k as int),
        decreases i,
    {
        i = i - 1;
    }
    if i == 0 {
        0
    } else {
        proof {
            lemma_char_start_grows(chars@, i - 1, chars@.len() as int);
        }
        offsets[i - 1] + 1
    }
}

fn find_first_starting_at(t: &Vec<Token>, at: usize, k: usize) -> (r: usize)
    requires
        k <= t@.len(),
    ensures
        r == first_starting_at(t@, at as int, 0, k as int),
        r <= k,
{
    let mut i: usize = 0;
    while i < k && t[i].span.start < at
        invariant
            i <= k <= t@.len(),
            first_starting_at(t@, at as int, i as int, k as int) == first_starting_at(t@, at as int, 0, k as int),
        decreases k - i,
    {
        i = i + 1;
    }
    i
}

fn tokens_range(t: &Vec<Token>, a: usize, b: usize) -> (r: Vec<Token>)
    requires
        a <= b <= t@.len(),
    ensures
        r@ == t@.subrange(a as int, b as int),
{
    let mut r: Vec<Token> = Vec::new();
    let mut k: usize = a;
    while k < b
        invariant
            a <= k <= b <= t@.len(),
            r@ == t@.subrange(a as int, k as int),
        decreases b - k,
    {
        r.push(t[k]);
        assert(t@.subrange(a as int, k + 1) =~= t@.subrange(a as int, k as int).push(t@[k as int]));
        k = k + 1;
    }
    r
}

fn read_type_text(source: &str, chars: &Vec<char>, offsets: &Vec<usize>, type_tokens: &Vec<Token>) -> (r: Option<
    Vec<char>,
>)
    requires
        type_tokens@.len() > 0,
        chars@ == source@,
        offsets@.len() == chars@.len() + 1,
        forall|k: int| 0 <= k <= chars@.len() ==> #[trigger] offsets@[k] == char_start(chars@, k),
    ensures
        match r {
            Some(v) => type_text_of(source@, type_tokens@) == Some(v@),
            None => type_text_of(source@, type_tokens@) is None,
        },
{
    let a = type_tokens[0].span.start;
    let b = type_tokens[type_tokens.len() - 1].span.end;
    match slice_source(source, chars, offsets, a, b) {
        Some(text) => Some(trim_chars(text.as_slice())),
        None => None,
    }
}

fn declaration_type_before_new(
    source: &str,
    chars: &Vec<char>,
    offsets: &Vec<usize>,
    tokens: &[Token],
    new_start: usize,
) -> (r: Option<Vec<char>>)
    requires
        chars@ == source@,
        offsets@.len() == chars@.len() + 1,
        forall|k: int| 0 <= k <= chars@.len() ==> #[trigger] offsets@[k] == char_start(chars@, k),
        char_start(chars@, chars@.len() as int) <= usize::MAX,
    ensures
        match r {
            Some(v) => spec_declaration_type_before_new(source@, tokens@, new_start as int) == Some(v@),
            None => spec_declaration_type_before_new(source@, tokens@, new_start as int) is None,
        },
{
    let t = significant_tokens(tokens, new_start);
    if t.len() < 2 || t[t.len() - 1].kind != TokenKind::Operator(Operator::Equal) || t[t.len() - 2].kind
        != TokenKind::Identifier {
        return None;
    }
    let name = t.len() - 2;
    let prefix = match slice_source(source, chars, offsets, 0, new_start) {
        Some(p) => p,
        None => return None,
    };
    proof {
        assert(slice_chars(chars@, 0, new_start as int) is Some);
        lemma_boundary_is_char_start(chars@, 0);
        lemma_boundary_is_char_start(chars@, new_start as int);
        let kn = choose|k: int| 0 <= k <= chars@.len() && char_start(chars@, k) == 0;
        let kb = choose|k: int| 0 <= k <= chars@.len() && char_start(chars@, k) == new_start;
        assert(char_start(chars@, 0) == 0);
        lemma_char_start_unique(chars@, kn, 0);
        assert(prefix@ == chars@.subrange(0, kb));
    }
    let line_start = find_line_break_after(chars, offsets, prefix.len());
    let start = find_structural_start(&t, name);
    let line_index = find_first_starting_at(&t, line_start, name);
    let type_start = if start > line_index {
        start
    } else {
        line_index
    };
    let type_tokens = tokens_range(&t, type_start, name);
    if !tokens_form_declaration_type(type_tokens.as_slice()) {
        return None;
    }
    read_type_text(source, chars, offsets, &type_tokens)
}

// ---------------------------------------------------------------------------
// Collection initializers

/// The open braces (by token index) after the first `i` tokens; none when a
/// brace closes that was not open.
pub open spec fn brace_stack(t: Seq<Token>, i: int) -> Option<Seq<int>>
    decreases i,
{
    if i <= 0 {
        Some(Seq::empty())
    } else {
        match brace_stack(t, i - 1) {
            None => None,
            Some(st) => if t[i - 1].kind == TokenKind::LeftBrace {
                Some(st.push(i - 1))
            } else if t[i - 1].kind == TokenKind::RightBrace {
                if st.len() == 0 {
                    None
                } else {
                    Some(st.drop_last())
                }
            } else {
                Some(st)
            },
        }
    }
}

/// The outermost open brace, from `j` on, that follows an `=`.
pub open spec fn first_assigned_brace(t: Seq<Token>, st: Seq<int>, j: int) -> Option<int>
    decreases st.len() - j,
{
    if j < 0 || j >= st.len() {
        None
    } else if st[j] >= 1 && t[st[j] - 1].kind == TokenKind::Operator(Operator::Equal) {
        Some(st[j])
    } else {
        first_assigned_brace(t, st, j + 1)
    }
}

/// Walks tokens `i..` counting braces, parentheses and brackets; none when
/// one closes more than is open.  Gives the brace depth at the end, and
/// whether the last token is a comma that separates elements of the
/// initializer (inside braces, outside parentheses and brackets).
pub open spec fn depth_walk(t: Seq<Token>, i: int, braces: int, parens: int, brackets: int, separator: bool) -> Option<
    (int, bool),
>
    decreases t.len() - i,
{
    if i < 0 || i >= t.len() {
        Some((braces, separator))
    } else {
        let kind = t[i].kind;
        if kind == TokenKind::LeftBrace {
            depth_walk(t, i + 1, braces + 1, parens, brackets, separator)
        } else if kind == TokenKind::RightBrace {
            if braces < 1 {
                None
            } else {
                depth_walk(t, i + 1, braces - 1, parens, brackets, separator)
            }
        } else if kind == TokenKind::LeftParen {
            depth_walk(t, i + 1, braces, parens + 1, brackets, separator)
        } else if kind == TokenKind::RightParen {
            if parens < 1 {
                None
            } else {
                depth_walk(t, i + 1, braces, parens - 1, brackets, separator)
            }
        } else if kind == TokenKind::LeftBracket {
            depth_walk(t, i + 1, braces, parens, brackets + 1, separator)
        } else if kind == TokenKind::RightBracket {
            if brackets < 1 {
                None
            } else {
                depth_walk(t, i + 1, braces, parens, brackets - 1, separator)
            }
        } else if kind == TokenKind::Comma && i == t.len() - 1 && braces > 0 && parens == 0 && brackets == 0 {
            depth_walk(t, i + 1, braces, parens, brackets, true)
        } else {
            depth_walk(t, i + 1, braces, parens, brackets, separator)
        }
    }
}

/// The element type of `text` unwrapped `n` times: each time the text must
/// be `array<T>` or `set<T>` (after qualifiers), and `T` is kept.
pub open spec fn unwrap_elements(text: Seq<char>, n: nat) -> Option<Seq<char>>
    decreases n,
{
    if n == 0 {
        Some(text)
    } else {
        match spec_generic_owner_and_args(spec_strip_all_type_prefixes(text)) {
            Some((owner, args)) => if (owner == "array"@ || owner == "set"@) && args.len() == 1 {
                unwrap_elements(args[0], (n - 1) as nat)
            } else {
                None
            },
            None => None,
        }
    }
}

/// The element type expected for a `new` at byte `new_start` that starts
/// an element of a collection initializer `T name = { ... }`: the tokens
/// before end in `{` or in a comma between elements, and the declared type
/// is unwrapped once per open brace.
pub open spec fn spec_initializer_element_type_before_new(chars: Seq<char>, tokens: Seq<Token>, new_start: int) -> Option<
    Seq<char>,
> {
    let t = significant_before(tokens, new_start);
    if t.len() == 0 || !(t.last().kind == TokenKind::LeftBrace || t.last().kind == TokenKind::Comma) {
        None
    } else {
        match brace_stack(t, t.len() as int) {
            None => None,
            Some(st) => match first_assigned_brace(t, st, 0) {
                None => None,
                Some(root) => if root < 2 || t[root - 2].kind != TokenKind::Identifier {
                    None
                } else {
                    let name = root - 2;
                    match depth_walk(t, root, 0, 0, 0, false) {
                        None => None,
                        Some((depth, separator)) => if t.last().kind == TokenKind::Comma && !separator {
                            None
                        } else {
                            let type_tokens = t.subrange(structural_start(t, name), name);
                            if !forms_declaration_type(type_tokens) {
                                None
                            } else {
                                match type_text_of(chars, type_tokens) {
                                    None => None,
                                    Some(text) => unwrap_elements(text, depth as nat),
                                }
                            }
                        },
                    }
                },
            },
        }
    }
}

fn open_braces(t: &Vec<Token>) -> (r: Option<Vec<usize>>)
    ensures
        match r {
            Some(st) => brace_stack(t@, t@.len() as int) == Some(st@.map_values(|x: usize| x as int)),
            None => brace_stack(t@, t@.len() as int) is None,
        },
{
    let mut st: Vec<usize> = Vec::new();
    let mut i: usize = 0;
    while i < t.len()
        invariant
            i <= t@.len(),
            brace_stack(t@, i as int) == Some(st@.map_values(|x: usize| x as int)),
        decreases t@.len() - i,
    {
        let ghost before = st@;
        if t[i].kind == TokenKind::LeftBrace {
            st.push(i);
            assert(st@.map_values(|x: usize| x as int) =~= before.map_values(|x: usize| x as int).push(i as int));
        } else if t[i].kind == TokenKind::RightBrace {
            if st.len() == 0 {
                proof {
                    lemma_brace_stack_fails_from(t@, i + 1);
                }
                return None;
            }
            st.pop();
            assert(st@.map_values(|x: usize| x as int) =~= before.map_values(|x: usize| x as int).drop_last());
        }
        i = i + 1;
    }
    Some(st)
}

/// Once a closing brace has nothing to close, the stack stays undefined.
proof fn lemma_brace_stack_fails_from(t: Seq<Token>, i: int)
    requires
        0 <= i <= t.len(),
        brace_stack(t, i) is None,
    ensures
        brace_stack(t, t.len() as int) is None,
    decreases t.len() - i,
{
    if i < t.len() {
        lemma_brace_stack_fails_from(t, i + 1);
    }
}

fn find_assigned_brace(t: &Vec<Token>, st: &Vec<usize>) -> (r: Option<usize>)
    requires
        forall|j: int| 0 <= j < st@.len() ==> #[trigger] st@[j] < t@.len(),
    ensures
        match r {
            Some(root) => first_assigned_brace(t@, st@.map_values(|x: usize| x as int), 0) == Some(root as int),
            None => first_assigned_brace(t@, st@.map_values(|x: usize| x as int), 0) is None,
        },
{
    let ghost view = st@.map_values(|x: usize| x as int);
    let mut j: usize = 0;
    while j < st.len()
        invariant
            j <= st@.len(),
            view == st@.map_values(|x: usize| x as int),
            forall|q: int| 0 <= q < st@.len() ==> #[trigger] st@[q] < t@.len(),
            first_assigned_brace(t@, view, j as int) == first_assigned_brace(t@, view, 0),
        decreases st@.len() - j,
    {
        let o = st[j];
        if o >= 1 && t[o - 1].kind == TokenKind::Operator(Operator::Equal) {
            return Some(o);
        }
        j = j + 1;
    }
    None
}

fn walk_depths(t: &Vec<Token>, root: usize) -> (r: Option<(usize, bool)>)
    requires
        root <= t@.len(),
        t@.len() > 0,
    ensures
        match r {
            Some((depth, separator)) => depth_walk(t@, root as int, 0, 0, 0, false) == Some((depth as int, separator)),
            None => depth_walk(t@, root as int, 0, 0, 0, false) is None,
        },
{
    let mut braces: usize = 0;
    let mut parens: usize = 0;
    let mut brackets: usize = 0;
    let mut separator = false;
    let mut i: usize = root;
    let last = t.len() - 1;
    while i < t.len()
        invariant
            root <= i <= t@.len(),
            braces <= i && parens <= i && brackets <= i,
            t@.len() > 0 ==> last == t@.len() - 1,
            depth_walk(t@, root as int, 0, 0, 0, false) == depth_walk(
                t@,
                i as int,
                braces as int,
                parens as int,
                brackets as int,
                separator,
            ),
        decreases t@.len() - i,
    {
        let kind = t[i].kind;
        if kind == TokenKind::LeftBrace {
            braces = braces + 1;
        } else if kind == TokenKind::RightBrace {
            if braces < 1 {
                return None;
            }
            braces = braces - 1;
        } else if kind == TokenKind::LeftParen {
            parens = parens + 1;
        } else if kind == TokenKind::RightParen {
            if parens < 1 {
                return None;
            }
            parens = parens - 1;
        } else if kind == TokenKind::LeftBracket {
            brackets = brackets + 1;
        } else if kind == TokenKind::RightBracket {
            if brackets < 1 {
                return None;
            }
            brackets = brackets - 1;
        } else if kind == TokenKind::Comma && i == last && braces > 0 && parens == 0 && brackets == 0 {
            separator = true;
        }
        i = i + 1;
    }
    Some((braces, separator))
}

fn unwrap_element_types(text: Vec<char>, n: usize) -> (r: Option<Vec<char>>)
    ensures
        match r {
            Some(v) => unwrap_elements(text@, n as nat) == Some(v@),
            None => unwrap_elements(text@, n as nat) is None,
        },
{
    let mut current = string_from_chars(text.as_slice());
    let mut i: usize = 0;
    while i < n
        invariant
            i <= n,
            unwrap_elements(text@, n as nat) == unwrap_elements(current@, (n - i) as nat),
        decreases n - i,
    {
        let stripped = strip_all_type_prefixes(current.as_str());
        let (owner, mut args) = match generic_owner_and_args(stripped.as_str()) {
            Some(p) => p,
            None => return None,
        };
        if !((str_eq(owner.as_str(), "array") || str_eq(owner.as_str(), "set")) && args.len() == 1) {
            return None;
        }
        current = args.remove(0);
        i = i + 1;
    }
    Some(chars_of(current.as_str()))
}

fn initializer_element_type_before_new(
    source: &str,
    chars: &Vec<char>,
    offsets: &Vec<usize>,
    tokens: &[Token],
    new_start: usize,
) -> (r: Option<Vec<char>>)
    requires
        chars@ == source@,
        offsets@.len() == chars@.len() + 1,
        forall|k: int| 0 <= k <= chars@.len() ==> #[trigger] offsets@[k] == char_start(chars@, k),
    ensures
        match r {
            Some(v) => spec_initializer_element_type_before_new(source@, tokens@, new_start as int) == Some(v@),
            None => spec_initializer_element_type_before_new(source@, tokens@, new_start as int) is None,
        },
{
    let t = significant_tokens(tokens, new_start);
    if t.len() == 0 || !(t[t.len() - 1].kind == TokenKind::LeftBrace || t[t.len() - 1].kind == TokenKind::Comma) {
        return None;
    }
    let st = match open_braces(&t) {
        Some(st) => st,
        None => return None,
    };
    proof {
        lemma_brace_stack_in_range(t@, t@.len() as int);
        assert forall|j: int| 0 <= j < st@.len() implies #[trigger] st@[j] < t@.len() by {
            assert(st@.map_values(|x: usize| x as int)[j] == st@[j] as int);
        }
    }
    let root = match find_assigned_brace(&t, &st) {
        Some(root) => root,
        None => return None,
    };
    proof {
        lemma_first_assigned_in_range(t@, st@.map_values(|x: usize| x as int), 0);
    }
    if root < 2 || t[root - 2].kind != TokenKind::Identifier {
        return None;
    }
    let name = root - 2;
    let (depth, separator) = match walk_depths(&t, root) {
        Some(p) => p,
        None => return None,
    };
    if t[t.len() - 1].kind == TokenKind::Comma && !separator {
        return None;
    }
    let start = find_structural_start(&t, name);
    let type_tokens = tokens_range(&t, start, name);
    if !tokens_form_declaration_type(type_tokens.as_slice()) {
        return None;
    }
    let text = match read_type_text(source, chars, offsets, &type_tokens) {
        Some(text) => text,
        None => return None,
    };
    unwrap_element_types(text, depth)
}

/// Open braces are tokens already walked.
proof fn lemma_brace_stack_in_range(t: Seq<Token>, i: int)
    requires
        0 <= i <= t.len(),
    ensures
        brace_stack(t, i) matches Some(st) ==> forall|j: int| 0 <= j < st.len() ==> 0 <= #[trigger] st[j] < i,
    decreases i,
{
    if i > 0 {
        lemma_brace_stack_in_range(t, i - 1);
    }
}

proof fn lemma_first_assigned_in_range(t: Seq<Token>, st: Seq<int>, j: int)
    requires
        0 <= j,
        forall|q: int| 0 <= q < st.len() ==> 0 <= #[trigger] st[q] < t.len(),
    ensures
        first_assigned_brace(t, st, j) matches Some(root) ==> 1 <= root < t.len(),
    decreases st.len() - j,
{
    if j < st.len() {
        lemma_first_assigned_in_range(t, st, j + 1);
    }
}

/// The type a `new` whose operand starts at `operand_span` is expected to
/// construct, read from the tokens before it: the declared type of
/// `Type name = new`, else the element type of the initializer it stands in.
pub fn lexical_construction_context_at_operand(source: &str, tokens: &[Token], operand_span: TextSpan) -> (r: Option<
    ContextualConstruction,
>)
    ensures
        match r {
            Some(c) => c.containing_class is None && match spec_declaration_type_before_new(
                source@,
                tokens@,
                operand_span.start as int,
            ) {
                Some(t) => c.type_text@ == t,
                None => spec_initializer_element_type_before_new(source@, tokens@, operand_span.start as int)
                    == Some(c.type_text@),
            },
            None => spec_declaration_type_before_new(source@, tokens@, operand_span.start as int) is None
                && spec_initializer_element_type_before_new(source@, tokens@, operand_span.start as int) is None,
        },
{
    let chars = chars_of(source);
    let byte_len = source.as_bytes().len();
    let offsets = char_offsets(&chars, byte_len);
    proof {
        lemma_char_start_encoded(chars@, chars@.len() as int);
        assert(chars@.take(chars@.len() as int) =~= chars@);
    }
    let type_text = match declaration_type_before_new(source, &chars, &offsets, tokens, operand_span.start) {
        Some(t) => Some(t),
        None => initializer_element_type_before_new(source, &chars, &offsets, tokens, operand_span.start),
    };
    match type_text {
        Some(t) => Some(ContextualConstruction { type_text: string_from_chars(t.as_slice()), containing_class: None }),
        None => None,
    }
}

} // verus!
