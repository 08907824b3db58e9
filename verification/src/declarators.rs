//! Declarators of fields and locals, type parameters of generic classes,
//! and the whitespace trimming of source spans they rely on.
use vstd::prelude::*;
use vstd::string::StringSliceAdditionalSpecFns;
use vstd::utf8::{encode_utf8, is_char_boundary, valid_utf8};
use crate::ast::{
    at_top, depth_at, find_last_name_token, last_name_token, ClassDecl, DepthCounter,
    find_child_node, find_first_name_token, first_child_node, first_name_token, is_local_modifier_token,
    is_name_token, make_text_value, opt_text_value, slice_span, span_chars, spec_is_local_modifier_token,
    spec_is_name_token, text_value, token_texts, valid_span, FieldDecl, LocalVariableKind, MethodDecl, TextValue,
};
use crate::model::TextSpan;
use crate::syntax::{direct_tokens, node_direct_tokens, spec_is_trivia, Operator, SyntaxElement, SyntaxKind, SyntaxNode, Token, TokenKind};
use crate::text::{
    chars_of, exec_is_whitespace, is_whitespace, leading_count, lemma_leading_count_unique,
    lemma_trailing_count_unique, string_from_chars, trailing_count, trim, trim_start,
};

verus! {

broadcast use {vstd::utf8::encode_utf8_valid_utf8, vstd::utf8::encode_utf8_decode_utf8};

// ---------------------------------------------------------------------------
// Trimming spans

pub proof fn lemma_encode_concat(a: Seq<char>, b: Seq<char>)
    ensures
        encode_utf8(a + b) == encode_utf8(a) + encode_utf8(b),
    decreases a.len(),
{
    if a.len() == 0 {
        assert(a + b =~= b);
        assert(encode_utf8(a) + encode_utf8(b) =~= encode_utf8(b));
    } else {
        assert((a + b).drop_first() =~= a.drop_first() + b);
        lemma_encode_concat(a.drop_first(), b);
        assert(encode_utf8(a + b) =~= encode_utf8(a) + encode_utf8(b));
    }
}

/// The end of the encoding of the first `k` characters is a character
/// boundary of the whole encoding.
pub proof fn lemma_encode_boundary(chars: Seq<char>, k: int)
    requires
        0 <= k <= chars.len(),
    ensures
        is_char_boundary(encode_utf8(chars), encode_utf8(chars.take(k)).len() as int),
    decreases k,
{
    let bytes = encode_utf8(chars);
    if k == 0 {
        assert(chars.take(0) =~= Seq::<char>::empty());
    } else {
        vstd::utf8::encode_utf8_first_scalar(chars);
        assert(vstd::utf8::pop_first_scalar(bytes) =~= encode_utf8(chars.drop_first()));
        assert(chars.take(k).drop_first() =~= chars.drop_first().take(k - 1));
        lemma_encode_boundary(chars.drop_first(), k - 1);
        lemma_encode_concat(chars.take(k), chars.skip(k));
        assert(chars.take(k) + chars.skip(k) =~= chars);
    }
}

/// A character boundary of a slice between two boundaries is a boundary of
/// the whole text.
pub proof fn lemma_boundary_in_slice(s: Seq<u8>, start: int, end: int, l: int)
    requires
        valid_utf8(s),
        0 <= start <= end <= s.len(),
        is_char_boundary(s, start),
        is_char_boundary(s, end),
        0 <= l <= end - start,
        is_char_boundary(s.subrange(start, end), l),
    ensures
        is_char_boundary(s, start + l),
{
    if l == 0 {
    } else if l == end - start {
    } else {
        vstd::utf8::valid_utf8_split(s, end);
        let p = s.subrange(0, end);
        crate::ast::lemma_prefix_boundary(s, start, end);
        vstd::utf8::valid_utf8_split(p, start);
        assert(p.subrange(start, end) =~= s.subrange(start, end));
        let sub = s.subrange(start, end);
        vstd::utf8::is_char_boundary_iff_not_is_continuation_byte(sub, l);
        vstd::utf8::is_char_boundary_iff_not_is_continuation_byte(s, start + l);
        assert(sub[l] == s[start + l]);
    }
}

/// `span` without the whitespace characters at both ends of its text; an
/// empty or inverted span is kept as it is.
pub open spec fn spec_trim_text_span(source: &str, span: TextSpan) -> TextSpan {
    if span.start >= span.end {
        span
    } else {
        let chars = span_chars(source, span);
        let lead = leading_count(chars, |c: char| is_whitespace(c));
        let start = span.start + encode_utf8(chars.take(lead as int)).len();
        TextSpan { start: start as usize, end: (start + encode_utf8(trim(chars)).len()) as usize }
    }
}

/// Trims whitespace off both ends of a span's text (see
/// `spec_trim_text_span`); the result is a valid span whose text is the
/// trimmed text.
pub fn trim_text_span(source: &str, span: TextSpan) -> (r: TextSpan)
    requires
        span.start < span.end ==> valid_span(source, span),
    ensures
        r == spec_trim_text_span(source, span),
        span.start < span.end ==> valid_span(source, r),
        span.start < span.end ==> span_chars(source, r) == trim(span_chars(source, span)),
        span.start < span.end ==> span.start <= r.start <= r.end <= span.end,
{
    if span.start >= span.end {
        return span;
    }
    let text = slice_span(source, span);
    let chars = chars_of(text);
    let ghost s = source.spec_bytes();
    let ghost ws = |c: char| is_whitespace(c);
    proof {
        vstd::utf8::valid_utf8_split(s, span.end as int);
        crate::ast::lemma_prefix_boundary(s, span.start as int, span.end as int);
        vstd::utf8::valid_utf8_split(s.subrange(0, span.end as int), span.start as int);
        assert(s.subrange(0, span.end as int).subrange(span.start as int, span.end as int)
            =~= s.subrange(span.start as int, span.end as int));
        assert(text@ == span_chars(source, span));
    }
    let mut lead: usize = 0;
    while lead < chars.len() && exec_is_whitespace(chars[lead])
        invariant
            lead <= chars@.len(),
            forall|i: int| 0 <= i < lead ==> is_whitespace(#[trigger] chars@[i]),
        decreases chars@.len() - lead,
    {
        lead = lead + 1;
    }
    proof {
        lemma_leading_count_unique(chars@, ws, lead as int);
    }
    let mut end: usize = chars.len();
    while end > lead && exec_is_whitespace(chars[end - 1])
        invariant
            lead <= end <= chars@.len(),
            forall|i: int| end <= i < chars@.len() ==> is_whitespace(#[trigger] chars@[i]),
        decreases end - lead,
    {
        end = end - 1;
    }
    let ghost t = trim_start(chars@);
    proof {
        assert(t =~= chars@.skip(lead as int));
        lemma_trailing_count_unique(t, ws, (chars@.len() - end) as int);
        assert(trim(chars@) =~= chars@.subrange(lead as int, end as int));
    }
    let head = string_from_chars(&chars.as_slice()[0..lead]);
    let middle = string_from_chars(&chars.as_slice()[lead..end]);
    let lead_bytes = head.as_str().len();
    let middle_bytes = middle.as_str().len();
    proof {
        let c = chars@;
        let a = c.take(lead as int);
        let m = c.subrange(lead as int, end as int);
        let z = c.skip(end as int);
        assert(c =~= a + m + z);
        lemma_encode_concat(a, m);
        lemma_encode_concat(a + m, z);
        assert(encode_utf8(c) == text.spec_bytes());
        assert(text.spec_bytes() == s.subrange(span.start as int, span.end as int));
        lemma_encode_boundary(c, lead as int);
        assert(c.take(end as int) =~= a + m);
        lemma_encode_boundary(c, end as int);
        let sub = s.subrange(span.start as int, span.end as int);
        lemma_boundary_in_slice(s, span.start as int, span.end as int, encode_utf8(a).len() as int);
        lemma_boundary_in_slice(s, span.start as int, span.end as int, encode_utf8(a + m).len() as int);
        let la = encode_utf8(a).len() as int;
        let lm = encode_utf8(m).len() as int;
        assert(sub.subrange(la, la + lm) =~= encode_utf8(m));
        assert(s.subrange(span.start + la, span.start + la + lm) =~= sub.subrange(la, la + lm));
    }
    TextSpan::new(span.start + lead_bytes, span.start + lead_bytes + middle_bytes)
}


// ---------------------------------------------------------------------------
// Valid trees

/// Every node and token under `node` lies on character boundaries of
/// `source`.
pub open spec fn tree_valid(source: &str, node: SyntaxNode) -> bool
    decreases node, 1nat,
{
    valid_span(source, node.span) && elements_valid(source, node.children@)
}

/// Every element of `children` lies on character boundaries of `source`.
pub open spec fn elements_valid(source: &str, children: Seq<SyntaxElement>) -> bool
    decreases children, 0nat,
{
    if children.len() == 0 {
        true
    } else {
        elements_valid(source, children.drop_last()) && match children.last() {
            SyntaxElement::Token(t) => valid_span(source, t.span),
            SyntaxElement::Node(n) => tree_valid(source, *n),
        }
    }
}

/// One element lies on character boundaries of `source`.
pub open spec fn element_valid(source: &str, e: SyntaxElement) -> bool {
    match e {
        SyntaxElement::Token(t) => valid_span(source, t.span),
        SyntaxElement::Node(n) => tree_valid(source, *n),
    }
}

pub proof fn lemma_elements_valid(source: &str, children: Seq<SyntaxElement>)
    requires
        elements_valid(source, children),
    ensures
        forall|i: int| 0 <= i < children.len() ==> element_valid(source, #[trigger] children[i]),
    decreases children.len(),
{
    if children.len() > 0 {
        lemma_elements_valid(source, children.drop_last());
        assert forall|i: int| 0 <= i < children.len() implies element_valid(source, #[trigger] children[i]) by {
            if i < children.len() - 1 {
                assert(children[i] == children.drop_last()[i]);
            }
        }
    }
}

pub proof fn lemma_first_child_valid(source: &str, children: Seq<SyntaxElement>, kind: SyntaxKind)
    requires
        forall|i: int| 0 <= i < children.len() ==> element_valid(source, #[trigger] children[i]),
    ensures
        first_child_node(children, kind) matches Some(n) ==> tree_valid(source, n),
    decreases children.len(),
{
    if children.len() > 0 {
        assert(element_valid(source, children[0]));
        assert forall|i: int| 0 <= i < children.drop_first().len() implies element_valid(
            source,
            #[trigger] children.drop_first()[i],
        ) by {
            assert(children.drop_first()[i] == children[i + 1]);
        }
        lemma_first_child_valid(source, children.drop_first(), kind);
    }
}

pub proof fn lemma_direct_tokens_valid(source: &str, children: Seq<SyntaxElement>)
    requires
        forall|i: int| 0 <= i < children.len() ==> element_valid(source, #[trigger] children[i]),
    ensures
        forall|k: int| 0 <= k < direct_tokens(children).len() ==> valid_span(source, #[trigger] direct_tokens(children)[k].span),
    decreases children.len(),
{
    if children.len() > 0 {
        assert forall|i: int| 0 <= i < children.drop_last().len() implies element_valid(
            source,
            #[trigger] children.drop_last()[i],
        ) by {
            assert(children.drop_last()[i] == children[i]);
        }
        lemma_direct_tokens_valid(source, children.drop_last());
        assert(element_valid(source, children[children.len() - 1]));
    }
}

pub proof fn lemma_tree_parts_valid(source: &str, node: SyntaxNode)
    requires
        tree_valid(source, node),
    ensures
        forall|i: int| 0 <= i < node.children@.len() ==> element_valid(source, #[trigger] node.children@[i]),
        forall|k: int| 0 <= k < direct_tokens(node.children@).len() ==> valid_span(source, #[trigger] direct_tokens(node.children@)[k].span),
        forall|kind: SyntaxKind| #[trigger] first_child_node(node.children@, kind) matches Some(n) ==> tree_valid(source, n),
{
    lemma_elements_valid(source, node.children@);
    lemma_direct_tokens_valid(source, node.children@);
    assert forall|kind: SyntaxKind| (#[trigger] first_child_node(node.children@, kind)) is Some implies tree_valid(
        source,
        first_child_node(node.children@, kind)->0,
    ) by {
        lemma_first_child_valid(source, node.children@, kind);
    }
}

// ---------------------------------------------------------------------------
// Declaration types

/// The tokens of a type reference that are neither trivia nor local
/// modifiers (`const`, `out`, `inout`, `notnull`).
pub open spec fn type_ref_tokens(tokens: Seq<Token>) -> Seq<Token>
    decreases tokens.len(),
{
    if tokens.len() == 0 {
        Seq::empty()
    } else {
        let rest = type_ref_tokens(tokens.drop_last());
        let t = tokens.last();
        if !spec_is_trivia(t.kind) && !spec_is_local_modifier_token(t.kind) {
            rest.push(t)
        } else {
            rest
        }
    }
}

/// The trimmed span from the first to the last type token of the
/// declaration's `TypeRef`, when not empty.
pub open spec fn spec_declaration_type_span(source: &str, node: SyntaxNode) -> Option<TextSpan> {
    match first_child_node(node.children@, SyntaxKind::TypeRef) {
        None => None,
        Some(t) => {
            let toks = type_ref_tokens(direct_tokens(t.children@));
            if toks.len() == 0 {
                None
            } else {
                let sp = spec_trim_text_span(
                    source,
                    TextSpan { start: toks[0].span.start, end: toks.last().span.end },
                );
                if sp.end <= sp.start {
                    None
                } else {
                    Some(sp)
                }
            }
        },
    }
}

pub(crate) fn declaration_type_span(source: &str, node: &SyntaxNode) -> (r: Option<TextSpan>)
    requires
        tree_valid(source, *node),
    ensures
        r == spec_declaration_type_span(source, *node),
{
    proof {
        lemma_tree_parts_valid(source, *node);
    }
    let type_ref = match find_child_node(node, SyntaxKind::TypeRef) {
        Some(t) => t,
        None => return None,
    };
    proof {
        assert(first_child_node(node.children@, SyntaxKind::TypeRef) == Some(*type_ref));
        lemma_tree_parts_valid(source, *type_ref);
    }
    let direct = node_direct_tokens(type_ref);
    let mut toks: Vec<Token> = Vec::new();
    let mut i: usize = 0;
    while i < direct.len()
        invariant
            i <= direct@.len(),
            direct@ == direct_tokens(type_ref.children@),
            forall|k: int| 0 <= k < direct@.len() ==> valid_span(source, #[trigger] direct@[k].span),
            toks@ == type_ref_tokens(direct@.take(i as int)),
            forall|k: int| 0 <= k < toks@.len() ==> valid_span(source, #[trigger] toks@[k].span),
        decreases direct@.len() - i,
    {
        assert(direct@.take(i + 1).drop_last() =~= direct@.take(i as int));
        let t = direct[i];
        if !t.kind.is_trivia() && !is_local_modifier_token(t.kind) {
            toks.push(t);
        }
        i = i + 1;
    }
    assert(direct@.take(i as int) =~= direct@);
    if toks.len() == 0 {
        return None;
    }
    let first = toks[0];
    let last = toks[toks.len() - 1];
    let sp = trim_text_span(source, TextSpan::new(first.span.start, last.span.end));
    if sp.end <= sp.start {
        None
    } else {
        Some(sp)
    }
}

// ---------------------------------------------------------------------------
// Declarators

/// The first `=` token of `tokens`.
pub open spec fn first_equal_token(tokens: Seq<Token>) -> Option<Token>
    decreases tokens.len(),
{
    if tokens.len() == 0 {
        None
    } else if tokens[0].kind == TokenKind::Operator(Operator::Equal) {
        Some(tokens[0])
    } else {
        first_equal_token(tokens.drop_first())
    }
}

/// The default after the first `=` among `children`: the first child after
/// it that is a node (its trimmed span) or a non-trivia token (its span).
pub open spec fn default_after(source: &str, children: Seq<SyntaxElement>, seen_equal: bool) -> Option<TextSpan>
    decreases children.len(),
{
    if children.len() == 0 {
        None
    } else if !seen_equal {
        match children[0] {
            SyntaxElement::Token(t) => if t.kind == TokenKind::Operator(Operator::Equal) {
                default_after(source, children.drop_first(), true)
            } else {
                default_after(source, children.drop_first(), false)
            },
            SyntaxElement::Node(_) => default_after(source, children.drop_first(), false),
        }
    } else {
        match children[0] {
            SyntaxElement::Node(e) => Some(spec_trim_text_span(source, e.span)),
            SyntaxElement::Token(t) => if !spec_is_trivia(t.kind) {
                Some(t.span)
            } else {
                default_after(source, children.drop_first(), true)
            },
        }
    }
}

/// A declarator: its name token, its trimmed span from the name up to `=`
/// (or the declarator's end), and the span of its default; nothing without
/// a name or with an empty span.
pub open spec fn declarator_of(source: &str, d: SyntaxNode) -> Option<(Token, TextSpan, Option<TextSpan>)> {
    let toks = direct_tokens(d.children@);
    match first_name_token(toks) {
        None => None,
        Some(name) => {
            let before = match first_equal_token(toks) {
                Some(e) => e.span.start,
                None => d.span.end,
            };
            let span = spec_trim_text_span(source, TextSpan { start: name.span.start, end: before });
            if span.end <= span.start {
                None
            } else {
                Some((name, span, default_after(source, d.children@, false)))
            }
        },
    }
}

/// The declarators among the children of a `DeclaratorList`, in order.
pub open spec fn declarators_among(source: &str, children: Seq<SyntaxElement>) -> Seq<(Token, TextSpan, Option<TextSpan>)>
    decreases children.len(),
{
    if children.len() == 0 {
        Seq::empty()
    } else {
        let rest = declarators_among(source, children.drop_last());
        match children.last() {
            SyntaxElement::Node(d) => if d.kind == SyntaxKind::Declarator {
                match declarator_of(source, *d) {
                    Some(x) => rest.push(x),
                    None => rest,
                }
            } else {
                rest
            },
            SyntaxElement::Token(_) => rest,
        }
    }
}

/// The declarators of a declaration's `DeclaratorList`.
pub open spec fn spec_declaration_declarators(source: &str, node: SyntaxNode) -> Seq<(Token, TextSpan, Option<TextSpan>)> {
    match first_child_node(node.children@, SyntaxKind::DeclaratorList) {
        None => Seq::empty(),
        Some(list) => declarators_among(source, list.children@),
    }
}

fn find_equal_token(tokens: &Vec<Token>) -> (r: Option<Token>)
    ensures
        r == first_equal_token(tokens@),
        r matches Some(t) ==> tokens@.contains(t),
{
    let mut i: usize = 0;
    assert(tokens@.skip(0) =~= tokens@);
    while i < tokens.len()
        invariant
            i <= tokens@.len(),
            first_equal_token(tokens@) == first_equal_token(tokens@.skip(i as int)),
        decreases tokens@.len() - i,
    {
        assert(tokens@.skip(i as int).drop_first() =~= tokens@.skip(i + 1));
        if tokens[i].kind == TokenKind::Operator(Operator::Equal) {
            assert(tokens@[i as int] == tokens[i as int]);
            return Some(tokens[i]);
        }
        i = i + 1;
    }
    None
}

fn default_span_of(source: &str, d: &SyntaxNode) -> (r: Option<TextSpan>)
    requires
        tree_valid(source, *d),
    ensures
        r == default_after(source, d.children@, false),
{
    proof {
        lemma_tree_parts_valid(source, *d);
    }
    let mut seen = false;
    let mut i: usize = 0;
    assert(d.children@.skip(0) =~= d.children@);
    while i < d.children.len()
        invariant
            i <= d.children@.len(),
            forall|j: int| 0 <= j < d.children@.len() ==> element_valid(source, #[trigger] d.children@[j]),
            default_after(source, d.children@.skip(i as int), seen) == default_after(source, d.children@, false),
        decreases d.children@.len() - i,
    {
        assert(d.children@.skip(i as int).drop_first() =~= d.children@.skip(i + 1));
        assert(d.children@.skip(i as int)[0] == d.children@[i as int]);
        match &d.children[i] {
            SyntaxElement::Token(t) => {
                if !seen {
                    if t.kind == TokenKind::Operator(Operator::Equal) {
                        seen = true;
                    }
                } else if !t.kind.is_trivia() {
                    return Some(t.span);
                }
            },
            SyntaxElement::Node(e) => {
                if seen {
                    assert(element_valid(source, d.children@[i as int]));
                    return Some(trim_text_span(source, e.span));
                }
            },
        }
        i = i + 1;
    }
    None
}

fn declarator_from_node(source: &str, d: &SyntaxNode) -> (r: Option<(Token, TextSpan, Option<TextSpan>)>)
    requires
        tree_valid(source, *d),
    ensures
        r == declarator_of(source, *d),
{
    proof {
        lemma_tree_parts_valid(source, *d);
    }
    let toks = node_direct_tokens(d);
    let name = match find_first_name_token(&toks) {
        Some(n) => n,
        None => return None,
    };
    proof {
        lemma_first_name_in(toks@);
    }
    let before = match find_equal_token(&toks) {
        Some(e) => e.span.start,
        None => d.span.end,
    };
    let span = trim_text_span(source, TextSpan::new(name.span.start, before));
    if span.end <= span.start {
        return None;
    }
    let default_span = default_span_of(source, d);
    Some((name, span, default_span))
}

pub proof fn lemma_first_name_in(tokens: Seq<Token>)
    ensures
        first_name_token(tokens) matches Some(t) ==> tokens.contains(t),
    decreases tokens.len(),
{
    if tokens.len() > 0 && !spec_is_name_token(tokens[0].kind) {
        lemma_first_name_in(tokens.drop_first());
        if let Some(t) = first_name_token(tokens) {
            let k = choose|k: int| 0 <= k < tokens.drop_first().len() && tokens.drop_first()[k] == t;
            assert(tokens[k + 1] == t);
        }
    }
}

pub(crate) fn declaration_declarators(source: &str, node: &SyntaxNode) -> (r: Vec<(Token, TextSpan, Option<TextSpan>)>)
    requires
        tree_valid(source, *node),
    ensures
        r@ == spec_declaration_declarators(source, *node),
{
    proof {
        lemma_tree_parts_valid(source, *node);
    }
    let list = match find_child_node(node, SyntaxKind::DeclaratorList) {
        Some(l) => l,
        None => return Vec::new(),
    };
    proof {
        assert(first_child_node(node.children@, SyntaxKind::DeclaratorList) == Some(*list));
        lemma_tree_parts_valid(source, *list);
    }
    let mut out: Vec<(Token, TextSpan, Option<TextSpan>)> = Vec::new();
    let mut i: usize = 0;
    while i < list.children.len()
        invariant
            i <= list.children@.len(),
            forall|j: int| 0 <= j < list.children@.len() ==> element_valid(source, #[trigger] list.children@[j]),
            out@ == declarators_among(source, list.children@.take(i as int)),
        decreases list.children@.len() - i,
    {
        assert(list.children@.take(i + 1).drop_last() =~= list.children@.take(i as int));
        match &list.children[i] {
            SyntaxElement::Node(d) => {
                if d.kind == SyntaxKind::Declarator {
                    assert(element_valid(source, list.children@[i as int]));
                    if let Some(x) = declarator_from_node(source, d) {
                        out.push(x);
                    }
                }
            },
            SyntaxElement::Token(_) => {},
        }
        i = i + 1;
    }
    assert(list.children@.take(i as int) =~= list.children@);
    out
}

// ---------------------------------------------------------------------------
// Field declarators

/// One declarator of a field declaration; all declarators share the type.
#[derive(Debug, Clone, Copy)]
pub struct FieldDeclarator<'source> {
    pub source: &'source str,
    pub name: Token,
    pub type_span: Option<TextSpan>,
    pub span: TextSpan,
}

/// The declarators of a field declaration node.
pub open spec fn spec_field_declarators<'source>(source: &'source str, node: SyntaxNode) -> Seq<FieldDeclarator<'source>> {
    spec_declaration_declarators(source, node).map_values(
        |x: (Token, TextSpan, Option<TextSpan>)|
            FieldDeclarator { source, name: x.0, type_span: spec_declaration_type_span(source, node), span: x.1 },
    )
}

impl<'source> FieldDeclarator<'source> {
    pub fn span(&self) -> (r: TextSpan)
        ensures
            r == self.span,
    {
        self.span
    }

    pub fn name(&self) -> (r: TextValue<'source>)
        ensures
            r == text_value(self.source, self.name.span),
    {
        make_text_value(self.source, self.name.span)
    }

    pub fn type_text(&self) -> (r: Option<TextValue<'source>>)
        ensures
            r == opt_text_value(self.source, self.type_span),
    {
        match self.type_span {
            Some(span) => Some(make_text_value(self.source, span)),
            None => None,
        }
    }
}

impl<'source, 'tree> FieldDecl<'source, 'tree> {
    /// The declarators, each with the declaration's type.
    pub fn declarators(&self) -> (r: Vec<FieldDeclarator<'source>>)
        requires
            tree_valid(self.source, *self.node),
        ensures
            r@ == spec_field_declarators(self.source, *self.node),
    {
        let type_span = declaration_type_span(self.source, self.node);
        let decls = declaration_declarators(self.source, self.node);
        let mut out: Vec<FieldDeclarator<'source>> = Vec::new();
        let mut i: usize = 0;
        while i < decls.len()
            invariant
                i <= decls@.len(),
                decls@ == spec_declaration_declarators(self.source, *self.node),
                type_span == spec_declaration_type_span(self.source, *self.node),
                out@ =~= spec_field_declarators(self.source, *self.node).take(i as int),
            decreases decls@.len() - i,
        {
            let (name, span, _) = decls[i];
            out.push(FieldDeclarator { source: self.source, name, type_span, span });
            i = i + 1;
        }
        out
    }

    /// The name of the first declarator.
    pub fn name(&self) -> (r: Option<TextValue<'source>>)
        requires
            tree_valid(self.source, *self.node),
        ensures
            r == (if spec_field_declarators(self.source, *self.node).len() > 0 {
                Some(text_value(self.source, spec_field_declarators(self.source, *self.node)[0].name.span))
            } else {
                None
            }),
    {
        let decls = self.declarators();
        if decls.len() > 0 {
            Some(decls[0].name())
        } else {
            None
        }
    }

    /// The type of the first declarator.
    pub fn type_text(&self) -> (r: Option<TextValue<'source>>)
        requires
            tree_valid(self.source, *self.node),
        ensures
            r == (if spec_field_declarators(self.source, *self.node).len() > 0 {
                opt_text_value(self.source, spec_field_declarators(self.source, *self.node)[0].type_span)
            } else {
                None
            }),
    {
        let decls = self.declarators();
        if decls.len() > 0 {
            decls[0].type_text()
        } else {
            None
        }
    }
}


// ---------------------------------------------------------------------------
// Token segments

/// `;`, `{` and `}`, which never belong to a segment's text.
pub open spec fn is_frame_token(kind: TokenKind) -> bool {
    kind == TokenKind::Semicolon || kind == TokenKind::LeftBrace || kind == TokenKind::RightBrace
}

pub open spec fn drop_leading_frames(t: Seq<Token>) -> Seq<Token>
    decreases t.len(),
{
    if t.len() > 0 && is_frame_token(t[0].kind) {
        drop_leading_frames(t.drop_first())
    } else {
        t
    }
}

pub open spec fn drop_trailing_frames(t: Seq<Token>) -> Seq<Token>
    decreases t.len(),
{
    if t.len() > 0 && is_frame_token(t.last().kind) {
        drop_trailing_frames(t.drop_last())
    } else {
        t
    }
}

/// `t` without `;`, `{` and `}` tokens at either end.
pub open spec fn trim_token_slice(t: Seq<Token>) -> Seq<Token> {
    drop_trailing_frames(drop_leading_frames(t))
}

/// All tokens of `t` lie on character boundaries of `source`.
pub open spec fn tokens_all_valid(source: &str, t: Seq<Token>) -> bool {
    forall|k: int| 0 <= k < t.len() ==> valid_span(source, #[trigger] t[k].span)
}

pub proof fn lemma_trim_token_slice_valid(source: &str, t: Seq<Token>)
    requires
        tokens_all_valid(source, t),
    ensures
        tokens_all_valid(source, drop_leading_frames(t)),
        tokens_all_valid(source, trim_token_slice(t)),
{
    lemma_drop_leading_valid(source, t);
    lemma_drop_trailing_valid(source, drop_leading_frames(t));
}

proof fn lemma_drop_leading_valid(source: &str, t: Seq<Token>)
    requires
        tokens_all_valid(source, t),
    ensures
        tokens_all_valid(source, drop_leading_frames(t)),
    decreases t.len(),
{
    if t.len() > 0 && is_frame_token(t[0].kind) {
        assert forall|k: int| 0 <= k < t.drop_first().len() implies valid_span(source, #[trigger] t.drop_first()[k].span) by {
            assert(t.drop_first()[k] == t[k + 1]);
        }
        lemma_drop_leading_valid(source, t.drop_first());
    }
}

proof fn lemma_drop_trailing_valid(source: &str, t: Seq<Token>)
    requires
        tokens_all_valid(source, t),
    ensures
        tokens_all_valid(source, drop_trailing_frames(t)),
    decreases t.len(),
{
    if t.len() > 0 && is_frame_token(t.last().kind) {
        assert forall|k: int| 0 <= k < t.drop_last().len() implies valid_span(source, #[trigger] t.drop_last()[k].span) by {
            assert(t.drop_last()[k] == t[k]);
        }
        lemma_drop_trailing_valid(source, t.drop_last());
    }
}

fn frame_token(kind: TokenKind) -> (r: bool)
    ensures
        r == is_frame_token(kind),
{
    kind == TokenKind::Semicolon || kind == TokenKind::LeftBrace || kind == TokenKind::RightBrace
}

fn trim_tokens(t: &[Token]) -> (r: Vec<Token>)
    ensures
        r@ == trim_token_slice(t@),
{
    let mut start: usize = 0;
    assert(t@.skip(0) =~= t@);
    while start < t.len() && frame_token(t[start].kind)
        invariant
            start <= t@.len(),
            drop_leading_frames(t@.skip(start as int)) == drop_leading_frames(t@),
        decreases t@.len() - start,
    {
        assert(t@.skip(start as int).drop_first() =~= t@.skip(start + 1));
        start = start + 1;
    }
    let ghost lead = t@.skip(start as int);
    assert(drop_leading_frames(lead) == lead);
    let mut end: usize = t.len();
    assert(lead.take(lead.len() as int) =~= lead);
    while end > start && frame_token(t[end - 1].kind)
        invariant
            start <= end <= t@.len(),
            lead == t@.skip(start as int),
            drop_trailing_frames(lead.take(end - start)) == drop_trailing_frames(lead),
        decreases end - start,
    {
        assert(lead.take(end - start).drop_last() =~= lead.take(end - start - 1));
        assert(lead.take(end - start).last() == t@[end - 1]);
        end = end - 1;
    }
    let mut out: Vec<Token> = Vec::new();
    let mut i: usize = start;
    while i < end
        invariant
            start <= i <= end,
            end <= t@.len(),
            out@ =~= t@.subrange(start as int, i as int),
        decreases end - i,
    {
        out.push(t[i]);
        i = i + 1;
    }
    assert(lead.take(end - start) =~= t@.subrange(start as int, end as int));
    out
}

/// The pieces of `t` between top-level `delim` tokens (outside every
/// parenthesis, bracket and angle bracket), each trimmed, from position
/// `i` on, where the current piece began at `start`.
pub open spec fn split_from(t: Seq<Token>, delim: TokenKind, i: int, start: int) -> Seq<Seq<Token>>
    decreases t.len() - i,
{
    if i >= t.len() {
        seq![trim_token_slice(t.subrange(start, t.len() as int))]
    } else if at_top(t, i) && t[i].kind == delim {
        seq![trim_token_slice(t.subrange(start, i))] + split_from(t, delim, i + 1, i + 1)
    } else {
        split_from(t, delim, i + 1, start)
    }
}

/// The trimmed pieces of `t` between top-level `delim` tokens.
pub open spec fn split_top_level(t: Seq<Token>, delim: TokenKind) -> Seq<Seq<Token>> {
    split_from(t, delim, 0, 0)
}

pub open spec fn token_vec_views(v: Seq<Vec<Token>>) -> Seq<Seq<Token>> {
    v.map_values(|x: Vec<Token>| x@)
}

fn split_top_level_preserving_angles(t: &Vec<Token>, delim: TokenKind) -> (r: Vec<Vec<Token>>)
    requires
        t@.len() <= usize::MAX,
    ensures
        token_vec_views(r@) == split_top_level(t@, delim),
        forall|a: int|
            0 <= a < r@.len() ==> exists|s: int, e: int|
                0 <= s <= e <= t@.len() && (#[trigger] r@[a])@ == trim_token_slice(#[trigger] t@.subrange(s, e)),
{
    let mut out: Vec<Vec<Token>> = Vec::new();
    let mut depth = DepthCounter::new();
    let mut start: usize = 0;
    let mut i: usize = 0;
    proof {
        assert(token_vec_views(out@) + split_from(t@, delim, 0, 0) =~= split_top_level(t@, delim));
    }
    while i < t.len()
        invariant
            i <= t@.len(),
            start <= i,
            t@.len() <= usize::MAX,
            depth.matches(depth_at(t@, i as int)),
            token_vec_views(out@) + split_from(t@, delim, i as int, start as int) == split_top_level(t@, delim),
            forall|a: int|
                0 <= a < out@.len() ==> exists|s: int, e: int|
                    0 <= s <= e <= t@.len() && (#[trigger] out@[a])@ == trim_token_slice(#[trigger] t@.subrange(s, e)),
        decreases t@.len() - i,
    {
        let kind = t[i].kind;
        if depth.top() && kind == delim {
            let piece = trim_tokens(&t.as_slice()[start..i]);
            let ghost before = out@;
            out.push(piece);
            proof {
                assert(token_vec_views(out@) =~= token_vec_views(before).push(piece@));
                assert(token_vec_views(out@) + split_from(t@, delim, i + 1, i + 1) =~= token_vec_views(before)
                    + split_from(t@, delim, i as int, start as int));
                assert forall|a: int| 0 <= a < out@.len() implies exists|s: int, e: int|
                    0 <= s <= e <= t@.len() && (#[trigger] out@[a])@ == trim_token_slice(#[trigger] t@.subrange(s, e)) by {
                    if a == before.len() {
                        assert(out@[a]@ == trim_token_slice(t@.subrange(start as int, i as int)));
                    } else {
                        assert(out@[a] == before[a]);
                    }
                }
            }
            start = i + 1;
        }
        depth.step(Ghost(t@), i, kind);
        i = i + 1;
    }
    let piece = trim_tokens(&t.as_slice()[start..t.len()]);
    let ghost before = out@;
    out.push(piece);
    proof {
        assert(token_vec_views(out@) =~= token_vec_views(before).push(piece@));
        assert forall|a: int| 0 <= a < out@.len() implies exists|s: int, e: int|
            0 <= s <= e <= t@.len() && (#[trigger] out@[a])@ == trim_token_slice(#[trigger] t@.subrange(s, e)) by {
            if a == before.len() {
                assert(out@[a]@ == trim_token_slice(t@.subrange(start as int, t@.len() as int)));
            } else {
                assert(out@[a] == before[a]);
            }
        }
    }
    out
}

proof fn lemma_leading_idempotent(t: Seq<Token>)
    ensures
        drop_leading_frames(drop_leading_frames(t)) == drop_leading_frames(t),
        drop_leading_frames(t).len() > 0 ==> !is_frame_token(drop_leading_frames(t)[0].kind),
    decreases t.len(),
{
    if t.len() > 0 && is_frame_token(t[0].kind) {
        lemma_leading_idempotent(t.drop_first());
    }
}

proof fn lemma_trailing_keeps_head(t: Seq<Token>)
    requires
        t.len() > 0 ==> !is_frame_token(t[0].kind),
    ensures
        drop_leading_frames(drop_trailing_frames(t)) == drop_trailing_frames(t),
        drop_trailing_frames(drop_trailing_frames(t)) == drop_trailing_frames(t),
    decreases t.len(),
{
    if t.len() > 0 && is_frame_token(t.last().kind) {
        if t.len() > 1 {
            assert(t.drop_last()[0] == t[0]);
        }
        lemma_trailing_keeps_head(t.drop_last());
    }
}

/// Trimming twice is trimming once.
pub proof fn lemma_trim_idempotent(t: Seq<Token>)
    ensures
        trim_token_slice(trim_token_slice(t)) == trim_token_slice(t),
{
    lemma_leading_idempotent(t);
    lemma_trailing_keeps_head(drop_leading_frames(t));
}

// ---------------------------------------------------------------------------
// Type parameters

/// A type parameter of a generic class: its name token, the span of the
/// constraint before the name, and its whole trimmed span.
#[derive(Debug, Clone, Copy)]
pub struct TypeParameter<'source> {
    pub source: &'source str,
    pub name: Token,
    pub constraint_span: Option<TextSpan>,
    pub span: TextSpan,
}

/// The type parameter a segment of a generic argument list declares: its
/// last name token is the name, the text before the name its constraint.
pub open spec fn type_parameter_from_segment<'source>(source: &'source str, segment: Seq<Token>) -> Option<TypeParameter<'source>> {
    let seg = trim_token_slice(segment);
    match last_name_token(seg) {
        None => None,
        Some(name) => {
            if seg.len() == 0 {
                None
            } else {
                let first = seg[0];
                let last = seg.last();
                let span = spec_trim_text_span(source, TextSpan { start: first.span.start, end: last.span.end });
                let constraint_span = if first.span.start < name.span.start {
                    let c = spec_trim_text_span(source, TextSpan { start: first.span.start, end: name.span.start });
                    if c.end <= c.start {
                        None
                    } else {
                        Some(c)
                    }
                } else {
                    None
                };
                Some(TypeParameter { source, name, constraint_span, span })
            }
        },
    }
}

/// The tokens of a generic argument list that matter for its parameters:
/// no trivia and no angle brackets.
pub open spec fn generic_arg_tokens(tokens: Seq<Token>) -> Seq<Token>
    decreases tokens.len(),
{
    if tokens.len() == 0 {
        Seq::empty()
    } else {
        let rest = generic_arg_tokens(tokens.drop_last());
        let k = tokens.last().kind;
        if !spec_is_trivia(k) && k != TokenKind::Operator(Operator::Less) && k != TokenKind::Operator(
            Operator::Greater,
        ) && k != TokenKind::Operator(Operator::GreaterGreater) {
            rest.push(tokens.last())
        } else {
            rest
        }
    }
}

/// The type parameters declared by the segments, in order.
pub open spec fn type_parameters_of_segments<'source>(source: &'source str, segments: Seq<Seq<Token>>) -> Seq<TypeParameter<'source>>
    decreases segments.len(),
{
    if segments.len() == 0 {
        Seq::empty()
    } else {
        let rest = type_parameters_of_segments(source, segments.drop_last());
        match type_parameter_from_segment(source, segments.last()) {
            Some(p) => rest.push(p),
            None => rest,
        }
    }
}

/// The type parameters of a class: those of its first `GenericArgList`
/// child, split at top-level commas.
pub open spec fn spec_type_parameters<'source>(source: &'source str, node: SyntaxNode) -> Seq<TypeParameter<'source>> {
    match first_child_node(node.children@, SyntaxKind::GenericArgList) {
        None => Seq::empty(),
        Some(list) => type_parameters_of_segments(
            source,
            split_top_level(generic_arg_tokens(direct_tokens(list.children@)), TokenKind::Comma),
        ),
    }
}

proof fn lemma_last_name_in(tokens: Seq<Token>)
    ensures
        last_name_token(tokens) matches Some(t) ==> tokens.contains(t),
    decreases tokens.len(),
{
    if tokens.len() > 0 && !spec_is_name_token(tokens.last().kind) {
        lemma_last_name_in(tokens.drop_last());
        if let Some(t) = last_name_token(tokens) {
            let k = choose|k: int| 0 <= k < tokens.drop_last().len() && tokens.drop_last()[k] == t;
            assert(tokens[k] == t);
        }
    } else if tokens.len() > 0 {
        assert(tokens[tokens.len() - 1] == tokens.last());
    }
}

fn type_parameter_of<'a>(source: &'a str, segment: &Vec<Token>) -> (r: Option<TypeParameter<'a>>)
    requires
        tokens_all_valid(source, segment@),
    ensures
        r == type_parameter_from_segment(source, segment@),
{
    let seg = trim_tokens(segment.as_slice());
    proof {
        lemma_trim_token_slice_valid(source, segment@);
    }
    let name = match find_last_name_token(&seg) {
        Some(n) => n,
        None => return None,
    };
    proof {
        lemma_last_name_in(seg@);
    }
    if seg.len() == 0 {
        return None;
    }
    let first = seg[0];
    let last = seg[seg.len() - 1];
    assert(valid_span(source, seg@[0].span) && valid_span(source, seg@[seg@.len() - 1].span));
    let span = trim_text_span(source, TextSpan::new(first.span.start, last.span.end));
    let constraint_span = if first.span.start < name.span.start {
        let c = trim_text_span(source, TextSpan::new(first.span.start, name.span.start));
        if c.end <= c.start {
            None
        } else {
            Some(c)
        }
    } else {
        None
    };
    Some(TypeParameter { source, name, constraint_span, span })
}

impl<'source> TypeParameter<'source> {
    pub fn span(&self) -> (r: TextSpan)
        ensures
            r == self.span,
    {
        self.span
    }

    pub fn name(&self) -> (r: TextValue<'source>)
        ensures
            r == text_value(self.source, self.name.span),
    {
        make_text_value(self.source, self.name.span)
    }

    pub fn constraint_text(&self) -> (r: Option<TextValue<'source>>)
        ensures
            r == opt_text_value(self.source, self.constraint_span),
    {
        match self.constraint_span {
            Some(span) => Some(make_text_value(self.source, span)),
            None => None,
        }
    }
}

impl<'source, 'tree> ClassDecl<'source, 'tree> {
    /// The type parameters of a generic class.
    pub fn type_parameters(&self) -> (r: Vec<TypeParameter<'source>>)
        requires
            tree_valid(self.source, *self.node),
        ensures
            r@ == spec_type_parameters(self.source, *self.node),
    {
        proof {
            lemma_tree_parts_valid(self.source, *self.node);
        }
        let list = match find_child_node(self.node, SyntaxKind::GenericArgList) {
            Some(l) => l,
            None => return Vec::new(),
        };
        proof {
            assert(first_child_node(self.node.children@, SyntaxKind::GenericArgList) == Some(*list));
            lemma_tree_parts_valid(self.source, *list);
        }
        let direct = node_direct_tokens(list);
        let mut toks: Vec<Token> = Vec::new();
        let mut i: usize = 0;
        while i < direct.len()
            invariant
                i <= direct@.len(),
                direct@ == direct_tokens(list.children@),
                tokens_all_valid(self.source, direct@),
                toks@ == generic_arg_tokens(direct@.take(i as int)),
                tokens_all_valid(self.source, toks@),
                toks@.len() <= i,
            decreases direct@.len() - i,
        {
            assert(direct@.take(i + 1).drop_last() =~= direct@.take(i as int));
            let t = direct[i];
            if !t.kind.is_trivia() && t.kind != TokenKind::Operator(Operator::Less) && t.kind != TokenKind::Operator(
                Operator::Greater,
            ) && t.kind != TokenKind::Operator(Operator::GreaterGreater) {
                toks.push(t);
            }
            i = i + 1;
        }
        assert(direct@.take(i as int) =~= direct@);
        let segments = split_top_level_preserving_angles(&toks, TokenKind::Comma);
        proof {
            assert forall|a: int| 0 <= a < segments@.len() implies exists|s: int, e: int|
                0 <= s <= e <= toks@.len() && (#[trigger] segments@[a])@ == trim_token_slice(
                    #[trigger] toks@.subrange(s, e),
                ) by {
                let x = segments@[a];
            }
        }
        let mut out: Vec<TypeParameter<'source>> = Vec::new();
        let mut k: usize = 0;
        while k < segments.len()
            invariant
                k <= segments@.len(),
                token_vec_views(segments@) == split_top_level(toks@, TokenKind::Comma),
                tokens_all_valid(self.source, toks@),
                forall|a: int|
                    0 <= a < segments@.len() ==> exists|s: int, e: int|
                        0 <= s <= e <= toks@.len() && (#[trigger] segments@[a])@ == trim_token_slice(
                            #[trigger] toks@.subrange(s, e),
                        ),
                out@ == type_parameters_of_segments(self.source, token_vec_views(segments@).take(k as int)),
            decreases segments@.len() - k,
        {
            assert(token_vec_views(segments@).take(k + 1).drop_last() =~= token_vec_views(segments@).take(k as int));
            assert(token_vec_views(segments@)[k as int] == segments@[k as int]@);
            proof {
                let (s, e) = choose|s: int, e: int|
                    0 <= s <= e <= toks@.len() && segments@[k as int]@ == trim_token_slice(#[trigger] toks@.subrange(s, e));
                assert(tokens_all_valid(self.source, toks@.subrange(s, e))) by {
                    assert forall|j: int| 0 <= j < toks@.subrange(s, e).len() implies valid_span(
                        self.source,
                        #[trigger] toks@.subrange(s, e)[j].span,
                    ) by {
                        assert(toks@.subrange(s, e)[j] == toks@[s + j]);
                    }
                }
                lemma_trim_token_slice_valid(self.source, toks@.subrange(s, e));
            }
            if let Some(p) = type_parameter_of(self.source, &segments[k]) {
                out.push(p);
            }
            k = k + 1;
        }
        assert(token_vec_views(segments@).take(k as int) =~= token_vec_views(segments@));
        out
    }
}


// ---------------------------------------------------------------------------
// Local variables

/// A local variable declared in a method body.
#[derive(Debug, Clone)]
pub struct LocalVariable<'source> {
    pub source: &'source str,
    pub kind: LocalVariableKind,
    pub name: Token,
    pub type_span: Option<TextSpan>,
    pub default_span: Option<TextSpan>,
    pub span: TextSpan,
    pub modifiers: Vec<Token>,
}

/// A local variable as plain values: kind, name token, type span, default
/// span, span and modifier tokens.
pub type LocalView = (LocalVariableKind, Token, Option<TextSpan>, Option<TextSpan>, TextSpan, Seq<Token>);

pub open spec fn local_view(l: LocalVariable) -> LocalView {
    (l.kind, l.name, l.type_span, l.default_span, l.span, l.modifiers@)
}

pub open spec fn local_views(v: Seq<LocalVariable>) -> Seq<LocalView> {
    v.map_values(|l: LocalVariable| local_view(l))
}

/// The tokens among `tokens` that are local modifiers.
pub open spec fn local_modifiers_of(tokens: Seq<Token>) -> Seq<Token>
    decreases tokens.len(),
{
    if tokens.len() == 0 {
        Seq::empty()
    } else {
        let rest = local_modifiers_of(tokens.drop_last());
        if spec_is_local_modifier_token(tokens.last().kind) {
            rest.push(tokens.last())
        } else {
            rest
        }
    }
}

/// The modifiers of a declaration: the local modifiers of its `TypeRef`.
pub open spec fn declaration_modifiers(node: SyntaxNode) -> Seq<Token> {
    match first_child_node(node.children@, SyntaxKind::TypeRef) {
        Some(t) => local_modifiers_of(direct_tokens(t.children@)),
        None => Seq::empty(),
    }
}

/// The locals of a `LocalDeclStatement`: one per declarator, all with the
/// statement's type and modifiers.
pub open spec fn structured_locals(source: &str, node: SyntaxNode, kind: LocalVariableKind) -> Seq<LocalView> {
    spec_declaration_declarators(source, node).map_values(
        |x: (Token, TextSpan, Option<TextSpan>)|
            (kind, x.0, spec_declaration_type_span(source, node), x.2, x.1, declaration_modifiers(node)),
    )
}

/// The locals of the `LocalDeclStatement` children of a `for` initializer.
pub open spec fn for_initializer_locals(source: &str, children: Seq<SyntaxElement>) -> Seq<LocalView>
    decreases children.len(),
{
    if children.len() == 0 {
        Seq::empty()
    } else {
        for_initializer_locals(source, children.drop_last()) + match children.last() {
            SyntaxElement::Node(c) => if c.kind == SyntaxKind::LocalDeclStatement {
                structured_locals(source, *c, LocalVariableKind::ForInitializer)
            } else {
                Seq::empty()
            },
            SyntaxElement::Token(_) => Seq::empty(),
        }
    }
}

/// The variable of a `foreach` header item: the first name of its
/// declarator, with the item's type and modifiers and no default.
pub open spec fn foreach_locals(source: &str, node: SyntaxNode) -> Seq<LocalView> {
    match first_child_node(node.children@, SyntaxKind::Declarator) {
        None => Seq::empty(),
        Some(d) => match first_name_token(direct_tokens(d.children@)) {
            None => Seq::empty(),
            Some(name) => seq![
                (
                    LocalVariableKind::ForeachVariable,
                    name,
                    spec_declaration_type_span(source, node),
                    None,
                    name.span,
                    declaration_modifiers(node),
                ),
            ],
        },
    }
}

/// The locals declared under `node`, in source order: declaration
/// statements, `for` initializers and `foreach` variables, not looking
/// inside any of them.
pub open spec fn locals_in(source: &str, node: SyntaxNode) -> Seq<LocalView>
    decreases node, 1nat,
{
    if node.kind == SyntaxKind::LocalDeclStatement {
        structured_locals(source, node, LocalVariableKind::LocalVariable)
    } else if node.kind == SyntaxKind::ForInitializer {
        for_initializer_locals(source, node.children@)
    } else if node.kind == SyntaxKind::ForeachVariable {
        foreach_locals(source, node)
    } else {
        locals_among(source, node.children@)
    }
}

/// The locals declared under the node children of `children`.
pub open spec fn locals_among(source: &str, children: Seq<SyntaxElement>) -> Seq<LocalView>
    decreases children, 0nat,
{
    if children.len() == 0 {
        Seq::empty()
    } else {
        locals_among(source, children.drop_last()) + match children.last() {
            SyntaxElement::Node(n) => locals_in(source, *n),
            SyntaxElement::Token(_) => Seq::empty(),
        }
    }
}

fn modifiers_of_declaration(node: &SyntaxNode) -> (r: Vec<Token>)
    ensures
        r@ == declaration_modifiers(*node),
{
    let type_ref = match find_child_node(node, SyntaxKind::TypeRef) {
        Some(t) => t,
        None => return Vec::new(),
    };
    let direct = node_direct_tokens(type_ref);
    let mut out: Vec<Token> = Vec::new();
    let mut i: usize = 0;
    while i < direct.len()
        invariant
            i <= direct@.len(),
            out@ == local_modifiers_of(direct@.take(i as int)),
        decreases direct@.len() - i,
    {
        assert(direct@.take(i + 1).drop_last() =~= direct@.take(i as int));
        if is_local_modifier_token(direct[i].kind) {
            out.push(direct[i]);
        }
        i = i + 1;
    }
    assert(direct@.take(i as int) =~= direct@);
    out
}

fn copy_tokens(v: &Vec<Token>) -> (r: Vec<Token>)
    ensures
        r@ == v@,
{
    let mut out: Vec<Token> = Vec::new();
    let mut i: usize = 0;
    while i < v.len()
        invariant
            i <= v@.len(),
            out@ =~= v@.take(i as int),
        decreases v@.len() - i,
    {
        out.push(v[i]);
        i = i + 1;
    }
    assert(v@.take(i as int) =~= v@);
    out
}

fn push_structured_locals<'source>(
    source: &'source str,
    out: &mut Vec<LocalVariable<'source>>,
    node: &SyntaxNode,
    kind: LocalVariableKind,
)
    requires
        tree_valid(source, *node),
    ensures
        local_views(final(out)@) == local_views(old(out)@) + structured_locals(source, *node, kind),
        old(out)@.len() <= final(out)@.len(),
        forall|k: int| 0 <= k < old(out)@.len() ==> final(out)@[k] == old(out)@[k],
        forall|k: int| old(out)@.len() <= k < final(out)@.len() ==> (#[trigger] final(out)@[k]).source == source,
{
    let ghost start = old(out)@;
    let type_span = declaration_type_span(source, node);
    let modifiers = modifiers_of_declaration(node);
    let decls = declaration_declarators(source, node);
    let mut i: usize = 0;
    while i < decls.len()
        invariant
            i <= decls@.len(),
            decls@ == spec_declaration_declarators(source, *node),
            type_span == spec_declaration_type_span(source, *node),
            modifiers@ == declaration_modifiers(*node),
            start.len() <= out@.len(),
            forall|k: int| 0 <= k < start.len() ==> out@[k] == start[k],
            forall|k: int| start.len() <= k < out@.len() ==> (#[trigger] out@[k]).source == source,
            local_views(out@) =~= local_views(start) + structured_locals(source, *node, kind).take(i as int),
        decreases decls@.len() - i,
    {
        let (name, span, default_span) = decls[i];
        let mods = copy_tokens(&modifiers);
        let ghost before = out@;
        let local = LocalVariable { source, kind, name, type_span, default_span, span, modifiers: mods };
        out.push(local);
        proof {
            assert(local_views(out@) =~= local_views(before).push(local_view(local)));
            assert(structured_locals(source, *node, kind).take(i + 1) =~= structured_locals(source, *node, kind).take(
                i as int,
            ).push(local_view(local)));
        }
        i = i + 1;
    }
    assert(structured_locals(source, *node, kind).take(i as int) =~= structured_locals(source, *node, kind));
}

fn push_foreach_variable<'source>(source: &'source str, out: &mut Vec<LocalVariable<'source>>, node: &SyntaxNode)
    requires
        tree_valid(source, *node),
    ensures
        local_views(final(out)@) == local_views(old(out)@) + foreach_locals(source, *node),
        old(out)@.len() <= final(out)@.len(),
        forall|k: int| 0 <= k < old(out)@.len() ==> final(out)@[k] == old(out)@[k],
        forall|k: int| old(out)@.len() <= k < final(out)@.len() ==> (#[trigger] final(out)@[k]).source == source,
{
    let ghost start = old(out)@;
    let declarator = match find_child_node(node, SyntaxKind::Declarator) {
        Some(d) => d,
        None => {
            assert(local_views(out@) =~= local_views(start) + foreach_locals(source, *node));
            return;
        },
    };
    let toks = node_direct_tokens(declarator);
    let name = match find_first_name_token(&toks) {
        Some(n) => n,
        None => {
            assert(local_views(out@) =~= local_views(start) + foreach_locals(source, *node));
            return;
        },
    };
    let modifiers = modifiers_of_declaration(node);
    let type_span = declaration_type_span(source, node);
    out.push(
        LocalVariable {
            source,
            kind: LocalVariableKind::ForeachVariable,
            name,
            type_span,
            default_span: None,
            span: name.span,
            modifiers,
        },
    );
    assert(local_views(out@) =~= local_views(start) + foreach_locals(source, *node));
}

fn push_for_initializer_variables<'source>(source: &'source str, out: &mut Vec<LocalVariable<'source>>, node: &SyntaxNode)
    requires
        tree_valid(source, *node),
    ensures
        local_views(final(out)@) == local_views(old(out)@) + for_initializer_locals(source, node.children@),
        old(out)@.len() <= final(out)@.len(),
        forall|k: int| 0 <= k < old(out)@.len() ==> final(out)@[k] == old(out)@[k],
        forall|k: int| old(out)@.len() <= k < final(out)@.len() ==> (#[trigger] final(out)@[k]).source == source,
{
    proof {
        lemma_tree_parts_valid(source, *node);
    }
    let ghost start = old(out)@;
    let mut i: usize = 0;
    while i < node.children.len()
        invariant
            i <= node.children@.len(),
            forall|j: int| 0 <= j < node.children@.len() ==> element_valid(source, #[trigger] node.children@[j]),
            start.len() <= out@.len(),
            forall|k: int| 0 <= k < start.len() ==> out@[k] == start[k],
            forall|k: int| start.len() <= k < out@.len() ==> (#[trigger] out@[k]).source == source,
            local_views(out@) == local_views(start) + for_initializer_locals(source, node.children@.take(i as int)),
        decreases node.children@.len() - i,
    {
        assert(node.children@.take(i + 1).drop_last() =~= node.children@.take(i as int));
        let ghost before = out@;
        match &node.children[i] {
            SyntaxElement::Node(c) => {
                if c.kind == SyntaxKind::LocalDeclStatement {
                    assert(element_valid(source, node.children@[i as int]));
                    push_structured_locals(source, out, c, LocalVariableKind::ForInitializer);
                }
            },
            SyntaxElement::Token(_) => {},
        }
        assert(local_views(out@) =~= local_views(start) + for_initializer_locals(source, node.children@.take(i + 1)));
        i = i + 1;
    }
    assert(node.children@.take(i as int) =~= node.children@);
}

fn collect_local_variables<'source>(source: &'source str, node: &SyntaxNode, out: &mut Vec<LocalVariable<'source>>)
    requires
        tree_valid(source, *node),
    ensures
        local_views(final(out)@) == local_views(old(out)@) + locals_in(source, *node),
        old(out)@.len() <= final(out)@.len(),
        forall|k: int| 0 <= k < old(out)@.len() ==> final(out)@[k] == old(out)@[k],
        forall|k: int| old(out)@.len() <= k < final(out)@.len() ==> (#[trigger] final(out)@[k]).source == source,
    decreases node,
{
    if node.kind == SyntaxKind::LocalDeclStatement {
        push_structured_locals(source, out, node, LocalVariableKind::LocalVariable);
        return;
    }
    if node.kind == SyntaxKind::ForInitializer {
        push_for_initializer_variables(source, out, node);
        return;
    }
    if node.kind == SyntaxKind::ForeachVariable {
        push_foreach_variable(source, out, node);
        return;
    }
    proof {
        lemma_tree_parts_valid(source, *node);
    }
    let ghost start = old(out)@;
    let mut i: usize = 0;
    while i < node.children.len()
        invariant
            i <= node.children@.len(),
            forall|j: int| 0 <= j < node.children@.len() ==> element_valid(source, #[trigger] node.children@[j]),
            start.len() <= out@.len(),
            forall|k: int| 0 <= k < start.len() ==> out@[k] == start[k],
            forall|k: int| start.len() <= k < out@.len() ==> (#[trigger] out@[k]).source == source,
            local_views(out@) == local_views(start) + locals_among(source, node.children@.take(i as int)),
        decreases node.children@.len() - i,
    {
        assert(node.children@.take(i + 1).drop_last() =~= node.children@.take(i as int));
        match &node.children[i] {
            SyntaxElement::Node(c) => {
                assert(element_valid(source, node.children@[i as int]));
                assert(decreases_to!(node => node.children));
                collect_local_variables(source, c, out);
            },
            SyntaxElement::Token(_) => {},
        }
        assert(local_views(out@) =~= local_views(start) + locals_among(source, node.children@.take(i + 1)));
        i = i + 1;
    }
    assert(node.children@.take(i as int) =~= node.children@);
}

/// The locals of a method: those declared under its body block.
pub open spec fn spec_method_locals(source: &str, node: SyntaxNode) -> Seq<LocalView> {
    match first_child_node(node.children@, SyntaxKind::Block) {
        None => Seq::empty(),
        Some(block) => locals_in(source, block),
    }
}

impl<'source, 'tree> MethodDecl<'source, 'tree> {
    /// The local variables declared in the body, in source order.
    pub fn local_variables(&self) -> (r: Vec<LocalVariable<'source>>)
        requires
            tree_valid(self.source, *self.node),
        ensures
            local_views(r@) == spec_method_locals(self.source, *self.node),
            forall|k: int| 0 <= k < r@.len() ==> (#[trigger] r@[k]).source == self.source,
    {
        proof {
            lemma_tree_parts_valid(self.source, *self.node);
        }
        let mut out: Vec<LocalVariable<'source>> = Vec::new();
        match find_child_node(self.node, SyntaxKind::Block) {
            Some(block) => {
                assert(first_child_node(self.node.children@, SyntaxKind::Block) == Some(*block));
                collect_local_variables(self.source, block, &mut out);
                assert(local_views(out@) =~= spec_method_locals(self.source, *self.node));
            },
            None => {
                assert(local_views(out@) =~= spec_method_locals(self.source, *self.node));
            },
        }
        out
    }
}

impl<'source> LocalVariable<'source> {
    pub fn span(&self) -> (r: TextSpan)
        ensures
            r == self.span,
    {
        self.span
    }

    pub fn kind(&self) -> (r: LocalVariableKind)
        ensures
            r == self.kind,
    {
        self.kind
    }

    pub fn name(&self) -> (r: TextValue<'source>)
        ensures
            r == text_value(self.source, self.name.span),
    {
        make_text_value(self.source, self.name.span)
    }

    pub fn type_text(&self) -> (r: Option<TextValue<'source>>)
        ensures
            r == opt_text_value(self.source, self.type_span),
    {
        match self.type_span {
            Some(span) => Some(make_text_value(self.source, span)),
            None => None,
        }
    }

    pub fn default_text(&self) -> (r: Option<TextValue<'source>>)
        ensures
            r == opt_text_value(self.source, self.default_span),
    {
        match self.default_span {
            Some(span) => Some(make_text_value(self.source, span)),
            None => None,
        }
    }

    pub fn modifiers(&self) -> (r: Vec<TextValue<'source>>)
        ensures
            r@ == token_texts(self.source, self.modifiers@),
    {
        let mut out: Vec<TextValue<'source>> = Vec::new();
        let mut i: usize = 0;
        while i < self.modifiers.len()
            invariant
                i <= self.modifiers@.len(),
                out@ =~= token_texts(self.source, self.modifiers@.take(i as int)),
            decreases self.modifiers@.len() - i,
        {
            out.push(make_text_value(self.source, self.modifiers[i].span));
            i = i + 1;
        }
        assert(self.modifiers@.take(i as int) =~= self.modifiers@);
        out
    }
}

} // verus!
