//! Typed views over the concrete syntax tree: declarations, members,
//! parameters, local variables and expressions, each read from the node
//! kinds and tokens of the tree and the bytes of the source text.
use vstd::prelude::*;
use vstd::string::StringSliceAdditionalSpecFns;
use vstd::utf8::{encode_utf8, is_char_boundary, valid_utf8};
use crate::model::{DocCommentKind, TextSpan};
use crate::text::str_eq;
use crate::syntax::{
    all_tokens, direct_tokens, elements_tokens, node_direct_tokens, push_all_tokens, spec_is_trivia, Keyword,
    Operator, Parse, SyntaxElement, SyntaxKind, SyntaxNode, Token, TokenKind,
};

verus! {

broadcast use {vstd::utf8::encode_utf8_valid_utf8, vstd::utf8::encode_utf8_decode_utf8};

// ---------------------------------------------------------------------------
// Text of spans

/// `span` lies inside `source` and starts and ends on character boundaries.
pub open spec fn valid_span(source: &str, span: TextSpan) -> bool {
    &&& span.start <= span.end <= source.spec_bytes().len()
    &&& is_char_boundary(source.spec_bytes(), span.start as int)
    &&& is_char_boundary(source.spec_bytes(), span.end as int)
}

/// Every token under `node` has a valid span in `source`.
pub open spec fn tokens_valid(source: &str, node: SyntaxNode) -> bool {
    forall|i: int| 0 <= i < all_tokens(node).len() ==> valid_span(source, #[trigger] all_tokens(node)[i].span)
}

pub(crate) proof fn lemma_prefix_boundary(bytes: Seq<u8>, start: int, end: int)
    requires
        valid_utf8(bytes),
        0 <= start <= end <= bytes.len(),
        is_char_boundary(bytes, start),
        is_char_boundary(bytes, end),
    ensures
        valid_utf8(bytes.subrange(0, end)),
        is_char_boundary(bytes.subrange(0, end), start),
{
    vstd::utf8::valid_utf8_split(bytes, end);
    let p = bytes.subrange(0, end);
    if start == end {
        vstd::utf8::is_char_boundary_start_end_of_seq(p);
    } else {
        vstd::utf8::is_char_boundary_iff_not_is_continuation_byte(bytes, start);
        vstd::utf8::is_char_boundary_iff_not_is_continuation_byte(p, start);
        assert(p[start] == bytes[start]);
    }
}

/// The bytes `span.start..span.end` of `source`.
pub(crate) fn slice_span<'a>(source: &'a str, span: TextSpan) -> (r: &'a str)
    requires
        valid_span(source, span),
    ensures
        r.spec_bytes() == source.spec_bytes().subrange(span.start as int, span.end as int),
{
    proof {
        lemma_prefix_boundary(source.spec_bytes(), span.start as int, span.end as int);
    }
    let (head, _) = source.split_at(span.end);
    let (_, text) = head.split_at(span.start);
    proof {
        assert(text.spec_bytes() =~= source.spec_bytes().subrange(span.start as int, span.end as int));
    }
    text
}

/// A span of a source text, read on demand.
#[derive(Debug, Clone, Copy, PartialEq, Eq)]
pub struct TextValue<'source> {
    pub span: TextSpan,
    source: &'source str,
}

impl<'source> TextValue<'source> {
    pub closed spec fn spec_source(&self) -> &'source str {
        self.source
    }

    pub closed spec fn spec_span(&self) -> TextSpan {
        self.span
    }

    pub fn new(source: &'source str, span: TextSpan) -> (r: Self)
        ensures
            r == text_value(source, span),
    {
        TextValue { span, source }
    }

    /// The covered text.
    pub fn text(self) -> (r: &'source str)
        requires
            valid_span(self.spec_source(), self.spec_span()),
        ensures
            r.spec_bytes() == self.spec_source().spec_bytes().subrange(
                self.spec_span().start as int,
                self.spec_span().end as int,
            ),
    {
        slice_span(self.source, self.span)
    }
}

/// The text value of `span` in `source`.
pub open spec fn text_value(source: &str, span: TextSpan) -> TextValue<'_> {
    TextValue::<'_>::view_of(source, span)
}

impl<'source> TextValue<'source> {
    /// The value with these parts.
    pub closed spec fn view_of(source: &'source str, span: TextSpan) -> Self {
        TextValue { span, source }
    }

    pub broadcast proof fn lemma_view_of(source: &'source str, span: TextSpan)
        ensures
            #[trigger] Self::view_of(source, span).spec_span() == span,
            Self::view_of(source, span).spec_source() == source,
    {
    }
}

/// The text value of an optional span.
pub open spec fn opt_text_value(source: &str, span: Option<TextSpan>) -> Option<TextValue<'_>> {
    match span {
        Some(s) => Some(text_value(source, s)),
        None => None,
    }
}

pub(crate) fn make_text_value<'a>(source: &'a str, span: TextSpan) -> (r: TextValue<'a>)
    ensures
        r == text_value(source, span),
{
    TextValue { span, source }
}

// ---------------------------------------------------------------------------
// Token classes

/// Identifiers and keywords can name things.
pub open spec fn spec_is_name_token(kind: TokenKind) -> bool {
    kind is Identifier || kind is Keyword
}

pub(crate) fn is_name_token(kind: TokenKind) -> (r: bool)
    ensures
        r == spec_is_name_token(kind),
{
    match kind {
        TokenKind::Identifier | TokenKind::Keyword(_) => true,
        _ => false,
    }
}

/// Documentation comments.
pub open spec fn spec_is_doc_comment_token(kind: TokenKind) -> bool {
    kind is DocLineComment || kind is DocBlockComment
}

fn is_doc_comment_token(kind: TokenKind) -> (r: bool)
    ensures
        r == spec_is_doc_comment_token(kind),
{
    match kind {
        TokenKind::DocLineComment | TokenKind::DocBlockComment => true,
        _ => false,
    }
}

/// Keywords that may precede a declaration's type.
pub open spec fn spec_is_declaration_prefix_token(kind: TokenKind) -> bool {
    match kind {
        TokenKind::Keyword(k) => match k {
            Keyword::Class | Keyword::Enum | Keyword::Typedef | Keyword::Private | Keyword::Protected
            | Keyword::Static | Keyword::Override | Keyword::Const | Keyword::Proto | Keyword::External
            | Keyword::Native | Keyword::Volatile | Keyword::Owned | Keyword::Event | Keyword::Modded
            | Keyword::Sealed => true,
            _ => false,
        },
        _ => false,
    }
}

fn is_declaration_prefix_token(kind: TokenKind) -> (r: bool)
    ensures
        r == spec_is_declaration_prefix_token(kind),
{
    match kind {
        TokenKind::Keyword(k) => match k {
            Keyword::Class | Keyword::Enum | Keyword::Typedef | Keyword::Private | Keyword::Protected
            | Keyword::Static | Keyword::Override | Keyword::Const | Keyword::Proto | Keyword::External
            | Keyword::Native | Keyword::Volatile | Keyword::Owned | Keyword::Event | Keyword::Modded
            | Keyword::Sealed => true,
            _ => false,
        },
        _ => false,
    }
}

/// `out`, `inout` and `notnull`.
pub open spec fn spec_is_parameter_modifier_token(kind: TokenKind) -> bool {
    kind == TokenKind::Keyword(Keyword::Out) || kind == TokenKind::Keyword(Keyword::Inout) || kind
        == TokenKind::Keyword(Keyword::Notnull)
}

fn is_parameter_modifier_token(kind: TokenKind) -> (r: bool)
    ensures
        r == spec_is_parameter_modifier_token(kind),
{
    kind == TokenKind::Keyword(Keyword::Out) || kind == TokenKind::Keyword(Keyword::Inout) || kind
        == TokenKind::Keyword(Keyword::Notnull)
}

/// `const`, `out`, `inout` and `notnull`.
pub open spec fn spec_is_local_modifier_token(kind: TokenKind) -> bool {
    kind == TokenKind::Keyword(Keyword::Const) || spec_is_parameter_modifier_token(kind)
}

pub(crate) fn is_local_modifier_token(kind: TokenKind) -> (r: bool)
    ensures
        r == spec_is_local_modifier_token(kind),
{
    kind == TokenKind::Keyword(Keyword::Const) || is_parameter_modifier_token(kind)
}

// ---------------------------------------------------------------------------
// Tree helpers

/// The first child node of `kind`.
pub open spec fn first_child_node(children: Seq<SyntaxElement>, kind: SyntaxKind) -> Option<SyntaxNode>
    decreases children.len(),
{
    if children.len() == 0 {
        None
    } else {
        match children[0] {
            SyntaxElement::Node(n) if n.kind == kind => Some(*n),
            _ => first_child_node(children.drop_first(), kind),
        }
    }
}

pub(crate) fn find_child_node(node: &SyntaxNode, kind: SyntaxKind) -> (r: Option<&SyntaxNode>)
    ensures
        match r {
            Some(n) => first_child_node(node.children@, kind) == Some(*n),
            None => first_child_node(node.children@, kind) is None,
        },
{
    let mut i: usize = 0;
    assert(node.children@.skip(0) =~= node.children@);
    while i < node.children.len()
        invariant
            i <= node.children@.len(),
            first_child_node(node.children@, kind) == first_child_node(node.children@.skip(i as int), kind),
        decreases node.children@.len() - i,
    {
        proof {
            assert(node.children@.skip(i as int).drop_first() =~= node.children@.skip(i + 1));
            assert(node.children@.skip(i as int)[0] == node.children@[i as int]);
        }
        match &node.children[i] {
            SyntaxElement::Node(n) => {
                if n.kind == kind {
                    return Some(n);
                }
            },
            SyntaxElement::Token(_) => {},
        }
        i = i + 1;
    }
    None
}

/// The non-trivia tokens of `tokens`, in order.
pub open spec fn non_trivia(tokens: Seq<Token>) -> Seq<Token> {
    tokens.filter(|t: Token| !spec_is_trivia(t.kind))
}

pub(crate) fn non_trivia_tokens(tokens: &Vec<Token>) -> (r: Vec<Token>)
    ensures
        r@ == non_trivia(tokens@),
{
    let mut r: Vec<Token> = Vec::new();
    let mut i: usize = 0;
    while i < tokens.len()
        invariant
            i <= tokens@.len(),
            r@ == non_trivia(tokens@.take(i as int)),
        decreases tokens@.len() - i,
    {
        proof {
            reveal(Seq::filter);
            assert(tokens@.take(i + 1).drop_last() =~= tokens@.take(i as int));
        }
        if !tokens[i].kind.is_trivia() {
            r.push(tokens[i]);
        }
        i = i + 1;
    }
    assert(tokens@.take(i as int) =~= tokens@);
    r
}

fn node_all_tokens(node: &SyntaxNode) -> (v: Vec<Token>)
    ensures
        v@ == all_tokens(*node),
{
    let mut v: Vec<Token> = Vec::new();
    push_all_tokens(node, &mut v);
    assert(v@ =~= all_tokens(*node));
    v
}

/// The span from the first to the last non-trivia token under `node`.
pub open spec fn trimmed_node_span(node: SyntaxNode) -> Option<TextSpan> {
    let tokens = non_trivia(all_tokens(node));
    if tokens.len() == 0 {
        None
    } else {
        Some(TextSpan { start: tokens[0].span.start, end: tokens.last().span.end })
    }
}

fn trimmed_node_text<'a>(source: &'a str, node: &SyntaxNode) -> (r: Option<TextValue<'a>>)
    ensures
        r == opt_text_value(source, trimmed_node_span(*node)),
{
    let all = node_all_tokens(node);
    let tokens = non_trivia_tokens(&all);
    if tokens.len() == 0 {
        return None;
    }
    let first = tokens[0];
    let last = tokens[tokens.len() - 1];
    Some(make_text_value(source, TextSpan::new(first.span.start, last.span.end)))
}

} // verus!

verus! {

// ---------------------------------------------------------------------------
// Declarations

/// Kind of a documentation comment token.
pub open spec fn spec_doc_comment_kind(kind: TokenKind) -> DocCommentKind {
    if kind is DocLineComment {
        DocCommentKind::Line
    } else {
        DocCommentKind::Block
    }
}

/// A documentation comment attached to a declaration.
#[derive(Debug, Clone, Copy)]
pub struct DocComment<'source> {
    pub source: &'source str,
    pub token: Token,
}

impl<'source> DocComment<'source> {
    pub fn span(&self) -> (r: TextSpan)
        ensures
            r == self.token.span,
    {
        self.token.span
    }

    pub fn text(self) -> (r: &'source str)
        requires
            valid_span(self.source, self.token.span),
        ensures
            r.spec_bytes() == self.source.spec_bytes().subrange(
                self.token.span.start as int,
                self.token.span.end as int,
            ),
    {
        slice_span(self.source, self.token.span)
    }

    pub fn kind(&self) -> (r: DocCommentKind)
        requires
            spec_is_doc_comment_token(self.token.kind),
        ensures
            r == spec_doc_comment_kind(self.token.kind),
    {
        match self.token.kind {
            TokenKind::DocLineComment => DocCommentKind::Line,
            _ => DocCommentKind::Block,
        }
    }
}

/// A whole parsed file.
pub struct AstSourceFile<'source, 'tree> {
    pub source: &'source str,
    pub parse: &'tree Parse,
}

/// A top-level declaration.
#[derive(Debug, Clone, Copy)]
pub enum Declaration<'source, 'tree> {
    Class(ClassDecl<'source, 'tree>),
    Enum(EnumDecl<'source, 'tree>),
    Typedef(TypedefDecl<'source, 'tree>),
    Function(MethodDecl<'source, 'tree>),
    Field(FieldDecl<'source, 'tree>),
}

#[derive(Debug, Clone, Copy, PartialEq, Eq, Structural)]
pub enum MethodKind {
    Method,
    Constructor,
    Destructor,
}

#[derive(Debug, Clone, Copy, PartialEq, Eq, Structural)]
pub enum ParameterKind {
    Declaration,
    NonDeclarationFragment,
}

#[derive(Debug, Clone, Copy, PartialEq, Eq, Structural)]
pub enum LocalVariableKind {
    LocalVariable,
    ForeachVariable,
    ForInitializer,
}

/// A class declaration; `container` is the node whose children hold it.
#[derive(Debug, Clone, Copy)]
pub struct ClassDecl<'source, 'tree> {
    pub source: &'source str,
    pub container: &'tree SyntaxNode,
    pub node: &'tree SyntaxNode,
}

/// A field declaration (one or more declarators sharing a type).
#[derive(Debug, Clone, Copy)]
pub struct FieldDecl<'source, 'tree> {
    pub source: &'source str,
    pub container: &'tree SyntaxNode,
    pub node: &'tree SyntaxNode,
}

/// A method or free function declaration.
#[derive(Debug, Clone, Copy)]
pub struct MethodDecl<'source, 'tree> {
    pub source: &'source str,
    pub container: &'tree SyntaxNode,
    pub node: &'tree SyntaxNode,
}

/// An enum declaration.
#[derive(Debug, Clone, Copy)]
pub struct EnumDecl<'source, 'tree> {
    pub source: &'source str,
    pub container: &'tree SyntaxNode,
    pub node: &'tree SyntaxNode,
}

/// A typedef declaration.
#[derive(Debug, Clone, Copy)]
pub struct TypedefDecl<'source, 'tree> {
    pub source: &'source str,
    pub container: &'tree SyntaxNode,
    pub node: &'tree SyntaxNode,
}

/// A stray `;` inside a class body.
#[derive(Debug, Clone, Copy)]
pub struct EmptyDecl<'tree> {
    pub node: &'tree SyntaxNode,
}

/// A member of a class body.
#[derive(Debug, Clone, Copy)]
pub enum ClassMember<'source, 'tree> {
    Field(FieldDecl<'source, 'tree>),
    Method(MethodDecl<'source, 'tree>),
    Empty(EmptyDecl<'tree>),
}

/// The declaration that `node` (a child of `container`) is, if any.
pub open spec fn spec_declaration_from_node<'source, 'tree>(
    source: &'source str,
    container: &'tree SyntaxNode,
    node: &'tree SyntaxNode,
) -> Option<Declaration<'source, 'tree>> {
    match node.kind {
        SyntaxKind::ClassDecl => Some(Declaration::Class(ClassDecl { source, container, node })),
        SyntaxKind::EnumDecl => Some(Declaration::Enum(EnumDecl { source, container, node })),
        SyntaxKind::TypedefDecl => Some(Declaration::Typedef(TypedefDecl { source, container, node })),
        SyntaxKind::FunctionDecl => Some(Declaration::Function(MethodDecl { source, container, node })),
        SyntaxKind::FieldDecl => Some(Declaration::Field(FieldDecl { source, container, node })),
        _ => None,
    }
}

fn declaration_from_node<'source, 'tree>(
    source: &'source str,
    container: &'tree SyntaxNode,
    node: &'tree SyntaxNode,
) -> (r: Option<Declaration<'source, 'tree>>)
    ensures
        r == spec_declaration_from_node(source, container, node),
{
    match node.kind {
        SyntaxKind::ClassDecl => Some(Declaration::Class(ClassDecl { source, container, node })),
        SyntaxKind::EnumDecl => Some(Declaration::Enum(EnumDecl { source, container, node })),
        SyntaxKind::TypedefDecl => Some(Declaration::Typedef(TypedefDecl { source, container, node })),
        SyntaxKind::FunctionDecl => Some(Declaration::Function(MethodDecl { source, container, node })),
        SyntaxKind::FieldDecl => Some(Declaration::Field(FieldDecl { source, container, node })),
        _ => None,
    }
}

/// The declarations among the node children of `children` (the children of
/// `container`), in order.
pub open spec fn declarations_among<'source, 'tree>(
    source: &'source str,
    container: &'tree SyntaxNode,
    children: Seq<SyntaxElement>,
) -> Seq<Declaration<'source, 'tree>>
    decreases children.len(),
{
    if children.len() == 0 {
        Seq::empty()
    } else {
        let rest = declarations_among(source, container, children.drop_last());
        match children.last() {
            SyntaxElement::Node(n) => match spec_declaration_from_node(source, container, &*n) {
                Some(d) => rest.push(d),
                None => rest,
            },
            SyntaxElement::Token(_) => rest,
        }
    }
}

impl<'source, 'tree> AstSourceFile<'source, 'tree> {
    pub fn new(source: &'source str, parse: &'tree Parse) -> (r: Self)
        ensures
            r.source == source,
            r.parse == parse,
    {
        AstSourceFile { source, parse }
    }

    /// The file's top-level declarations, in order.
    pub fn declarations(&self) -> (r: Vec<Declaration<'source, 'tree>>)
        ensures
            r@ == declarations_among(self.source, &self.parse.root, self.parse.root.children@),
    {
        let root = &self.parse.root;
        let mut r: Vec<Declaration<'source, 'tree>> = Vec::new();
        let mut i: usize = 0;
        while i < root.children.len()
            invariant
                root == &self.parse.root,
                i <= root.children@.len(),
                r@ == declarations_among(self.source, root, root.children@.take(i as int)),
            decreases root.children@.len() - i,
        {
            proof {
                assert(root.children@.take(i + 1).drop_last() =~= root.children@.take(i as int));
            }
            match &root.children[i] {
                SyntaxElement::Node(n) => {
                    if let Some(d) = declaration_from_node(self.source, root, n) {
                        r.push(d);
                    }
                },
                SyntaxElement::Token(_) => {},
            }
            i = i + 1;
        }
        assert(root.children@.take(i as int) =~= root.children@);
        r
    }
}

/// The first name token after the first `keyword` token, scanning
/// `tokens` from `i`.
pub open spec fn name_after_keyword(tokens: Seq<Token>, keyword: Keyword, i: int, seen: bool) -> Option<Token>
    decreases tokens.len() - i,
{
    if i < 0 || i >= tokens.len() {
        None
    } else if seen && spec_is_name_token(tokens[i].kind) {
        Some(tokens[i])
    } else {
        name_after_keyword(tokens, keyword, i + 1, seen || tokens[i].kind == TokenKind::Keyword(keyword))
    }
}

fn find_name_after_keyword(tokens: &Vec<Token>, keyword: Keyword) -> (r: Option<Token>)
    ensures
        r == name_after_keyword(tokens@, keyword, 0, false),
{
    let mut seen = false;
    let mut i: usize = 0;
    while i < tokens.len()
        invariant
            i <= tokens@.len(),
            name_after_keyword(tokens@, keyword, 0, false) == name_after_keyword(tokens@, keyword, i as int, seen),
        decreases tokens@.len() - i,
    {
        if seen && is_name_token(tokens[i].kind) {
            return Some(tokens[i]);
        }
        if tokens[i].kind == TokenKind::Keyword(keyword) {
            seen = true;
        }
        i = i + 1;
    }
    None
}

/// The name token of a class or enum declaration.
pub open spec fn declared_name(node: SyntaxNode, keyword: Keyword) -> Option<Token> {
    name_after_keyword(non_trivia(direct_tokens(node.children@)), keyword, 0, false)
}

/// The text value of an optional token.
pub open spec fn opt_token_text<'a>(source: &'a str, token: Option<Token>) -> Option<TextValue<'a>> {
    match token {
        Some(t) => Some(text_value(source, t.span)),
        None => None,
    }
}

fn declared_name_text<'a>(source: &'a str, node: &SyntaxNode, keyword: Keyword) -> (r: Option<TextValue<'a>>)
    ensures
        r == opt_token_text(source, declared_name(*node, keyword)),
{
    let direct = node_direct_tokens(node);
    let tokens = non_trivia_tokens(&direct);
    match find_name_after_keyword(&tokens, keyword) {
        Some(t) => Some(make_text_value(source, t.span)),
        None => None,
    }
}

/// The trimmed text of the first `TypeRef` child.
pub open spec fn base_type_span(node: SyntaxNode) -> Option<TextSpan> {
    match first_child_node(node.children@, SyntaxKind::TypeRef) {
        Some(t) => trimmed_node_span(t),
        None => None,
    }
}

fn base_type_text<'a>(source: &'a str, node: &SyntaxNode) -> (r: Option<TextValue<'a>>)
    ensures
        r == opt_text_value(source, base_type_span(*node)),
{
    match find_child_node(node, SyntaxKind::TypeRef) {
        Some(t) => trimmed_node_text(source, t),
        None => None,
    }
}

/// The class member that `node` (a child of `container`) is, if any.
pub open spec fn spec_class_member_from_node<'source, 'tree>(
    source: &'source str,
    container: &'tree SyntaxNode,
    node: &'tree SyntaxNode,
) -> Option<ClassMember<'source, 'tree>> {
    match node.kind {
        SyntaxKind::FieldDecl => Some(ClassMember::Field(FieldDecl { source, container, node })),
        SyntaxKind::MethodDecl => Some(ClassMember::Method(MethodDecl { source, container, node })),
        SyntaxKind::EmptyDecl => Some(ClassMember::Empty(EmptyDecl { node })),
        _ => None,
    }
}

/// The class members among `children` (the children of the body `block`).
pub open spec fn members_among<'source, 'tree>(
    source: &'source str,
    block: &'tree SyntaxNode,
    children: Seq<SyntaxElement>,
) -> Seq<ClassMember<'source, 'tree>>
    decreases children.len(),
{
    if children.len() == 0 {
        Seq::empty()
    } else {
        let rest = members_among(source, block, children.drop_last());
        match children.last() {
            SyntaxElement::Node(n) => match spec_class_member_from_node(source, block, &*n) {
                Some(m) => rest.push(m),
                None => rest,
            },
            SyntaxElement::Token(_) => rest,
        }
    }
}

impl<'source, 'tree> ClassDecl<'source, 'tree> {
    pub fn span(&self) -> (r: TextSpan)
        ensures
            r == self.node.span,
    {
        self.node.span
    }

    /// The name after the `class` keyword.
    pub fn name(&self) -> (r: Option<TextValue<'source>>)
        ensures
            r == opt_token_text(self.source, declared_name(*self.node, Keyword::Class)),
    {
        declared_name_text(self.source, self.node, Keyword::Class)
    }

    /// The trimmed text of the base type.
    pub fn base_type(&self) -> (r: Option<TextValue<'source>>)
        ensures
            r == opt_text_value(self.source, base_type_span(*self.node)),
    {
        base_type_text(self.source, self.node)
    }

    /// The members of the class body, in order.
    pub fn members(&self) -> (r: Vec<ClassMember<'source, 'tree>>)
        ensures
            match first_child_node(self.node.children@, SyntaxKind::Block) {
                Some(block) => r@.len() == members_among(self.source, &block, block.children@).len() && forall|
                    k: int,
                | 0 <= k < r@.len() ==> r@[k] == members_among(self.source, &block, block.children@)[k],
                None => r@.len() == 0,
            },
    {
        let mut r: Vec<ClassMember<'source, 'tree>> = Vec::new();
        match find_child_node(self.node, SyntaxKind::Block) {
            Some(block) => {
                let mut i: usize = 0;
                while i < block.children.len()
                    invariant
                        i <= block.children@.len(),
                        r@ == members_among(self.source, block, block.children@.take(i as int)),
                    decreases block.children@.len() - i,
                {
                    proof {
                        assert(block.children@.take(i + 1).drop_last() =~= block.children@.take(i as int));
                    }
                    match &block.children[i] {
                        SyntaxElement::Node(n) => {
                            let member = match n.kind {
                                SyntaxKind::FieldDecl => Some(
                                    ClassMember::Field(FieldDecl { source: self.source, container: block, node: n }),
                                ),
                                SyntaxKind::MethodDecl => Some(
                                    ClassMember::Method(MethodDecl { source: self.source, container: block, node: n }),
                                ),
                                SyntaxKind::EmptyDecl => Some(ClassMember::Empty(EmptyDecl { node: n })),
                                _ => None,
                            };
                            if let Some(m) = member {
                                r.push(m);
                            }
                        },
                        SyntaxElement::Token(_) => {},
                    }
                    i = i + 1;
                }
                assert(block.children@.take(i as int) =~= block.children@);
            },
            None => {},
        }
        r
    }
}

} // verus!

verus! {

// ---------------------------------------------------------------------------
// Attributes, modifiers and documentation comments

/// An attribute inside an attribute list.
#[derive(Debug, Clone, Copy)]
pub struct Attribute<'source, 'tree> {
    pub source: &'source str,
    pub node: &'tree SyntaxNode,
}

/// The `Attribute` nodes among `children`.
pub open spec fn attribute_children<'source, 'tree>(source: &'source str, children: Seq<SyntaxElement>) -> Seq<
    Attribute<'source, 'tree>,
>
    decreases children.len(),
{
    if children.len() == 0 {
        Seq::empty()
    } else {
        let rest = attribute_children(source, children.drop_last());
        match children.last() {
            SyntaxElement::Node(n) if n.kind == SyntaxKind::Attribute => rest.push(Attribute { source, node: &*n }),
            _ => rest,
        }
    }
}

/// The attributes of all `AttributeList` nodes among `children`, in order.
pub open spec fn attributes_among<'source, 'tree>(source: &'source str, children: Seq<SyntaxElement>) -> Seq<
    Attribute<'source, 'tree>,
>
    decreases children.len(),
{
    if children.len() == 0 {
        Seq::empty()
    } else {
        let rest = attributes_among(source, children.drop_last());
        match children.last() {
            SyntaxElement::Node(n) if n.kind == SyntaxKind::AttributeList => rest + attribute_children(
                source,
                n.children@,
            ),
            _ => rest,
        }
    }
}

fn collect_attributes<'source, 'tree>(source: &'source str, node: &'tree SyntaxNode) -> (r: Vec<Attribute<'source, 'tree>>)
    ensures
        r@ == attributes_among(source, node.children@),
{
    let mut r: Vec<Attribute<'source, 'tree>> = Vec::new();
    let mut i: usize = 0;
    while i < node.children.len()
        invariant
            i <= node.children@.len(),
            r@ == attributes_among(source, node.children@.take(i as int)),
        decreases node.children@.len() - i,
    {
        proof {
            assert(node.children@.take(i + 1).drop_last() =~= node.children@.take(i as int));
        }
        match &node.children[i] {
            SyntaxElement::Node(list) => {
                if list.kind == SyntaxKind::AttributeList {
                    let ghost before = r@;
                    let mut j: usize = 0;
                    while j < list.children.len()
                        invariant
                            j <= list.children@.len(),
                            r@ == before + attribute_children(source, list.children@.take(j as int)),
                        decreases list.children@.len() - j,
                    {
                        proof {
                            assert(list.children@.take(j + 1).drop_last() =~= list.children@.take(j as int));
                        }
                        match &list.children[j] {
                            SyntaxElement::Node(a) => {
                                if a.kind == SyntaxKind::Attribute {
                                    r.push(Attribute { source, node: a });
                                }
                            },
                            SyntaxElement::Token(_) => {},
                        }
                        proof {
                            assert(r@ =~= before + attribute_children(source, list.children@.take(j + 1)));
                        }
                        j = j + 1;
                    }
                    assert(list.children@.take(j as int) =~= list.children@);
                }
            },
            SyntaxElement::Token(_) => {},
        }
        i = i + 1;
    }
    assert(node.children@.take(i as int) =~= node.children@);
    r
}

/// The text values of `tokens`.
pub open spec fn token_texts<'a>(source: &'a str, tokens: Seq<Token>) -> Seq<TextValue<'a>> {
    tokens.map_values(|t: Token| text_value(source, t.span))
}

/// The non-trivia tokens of all `ModifierList` nodes among `children`.
pub open spec fn modifier_tokens(children: Seq<SyntaxElement>) -> Seq<Token>
    decreases children.len(),
{
    if children.len() == 0 {
        Seq::empty()
    } else {
        let rest = modifier_tokens(children.drop_last());
        match children.last() {
            SyntaxElement::Node(n) if n.kind == SyntaxKind::ModifierList => rest + non_trivia(
                direct_tokens(n.children@),
            ),
            _ => rest,
        }
    }
}

fn push_token_texts<'a>(source: &'a str, tokens: &Vec<Token>, out: &mut Vec<TextValue<'a>>)
    ensures
        final(out)@ == old(out)@ + token_texts(source, tokens@),
{
    let ghost before = out@;
    let mut i: usize = 0;
    while i < tokens.len()
        invariant
            i <= tokens@.len(),
            out@ == before + token_texts(source, tokens@.take(i as int)),
        decreases tokens@.len() - i,
    {
        out.push(make_text_value(source, tokens[i].span));
        proof {
            assert(token_texts(source, tokens@.take(i + 1)) =~= token_texts(source, tokens@.take(i as int)).push(
                text_value(source, tokens@[i as int].span),
            ));
        }
        i = i + 1;
    }
    assert(tokens@.take(i as int) =~= tokens@);
}

fn collect_modifiers<'a>(source: &'a str, node: &SyntaxNode) -> (r: Vec<TextValue<'a>>)
    ensures
        r@ == token_texts(source, modifier_tokens(node.children@)),
{
    let mut r: Vec<TextValue<'a>> = Vec::new();
    let mut i: usize = 0;
    while i < node.children.len()
        invariant
            i <= node.children@.len(),
            r@ == token_texts(source, modifier_tokens(node.children@.take(i as int))),
        decreases node.children@.len() - i,
    {
        proof {
            assert(node.children@.take(i + 1).drop_last() =~= node.children@.take(i as int));
        }
        match &node.children[i] {
            SyntaxElement::Node(list) => {
                if list.kind == SyntaxKind::ModifierList {
                    let direct = node_direct_tokens(list);
                    let tokens = non_trivia_tokens(&direct);
                    let ghost before = r@;
                    push_token_texts(source, &tokens, &mut r);
                    proof {
                        assert(token_texts(source, modifier_tokens(node.children@.take(i as int)) + tokens@)
                            =~= before + token_texts(source, tokens@));
                    }
                }
            },
            SyntaxElement::Token(_) => {},
        }
        i = i + 1;
    }
    assert(node.children@.take(i as int) =~= node.children@);
    r
}

/// Documentation comments met scanning a node's children backwards from
/// position `j`, newest first, and whether a non-comment ended the scan.
pub open spec fn docs_in_node_rev(children: Seq<SyntaxElement>, j: int) -> (Seq<Token>, bool)
    decreases j,
{
    if j <= 0 || j > children.len() {
        (Seq::empty(), false)
    } else {
        match children[j - 1] {
            SyntaxElement::Token(t) => if t.kind is Whitespace {
                docs_in_node_rev(children, j - 1)
            } else if spec_is_doc_comment_token(t.kind) {
                let rest = docs_in_node_rev(children, j - 1);
                (seq![t] + rest.0, rest.1)
            } else {
                (Seq::empty(), true)
            },
            SyntaxElement::Node(_) => (Seq::empty(), true),
        }
    }
}

/// Documentation comments before position `k` of a container's children,
/// scanning backwards (also into the trailing tokens of preceding nodes)
/// until anything but whitespace or a documentation comment; newest first.
pub open spec fn docs_before_rev(children: Seq<SyntaxElement>, k: int) -> Seq<Token>
    decreases k,
{
    if k <= 0 || k > children.len() {
        Seq::empty()
    } else {
        match children[k - 1] {
            SyntaxElement::Token(t) => if t.kind is Whitespace {
                docs_before_rev(children, k - 1)
            } else if spec_is_doc_comment_token(t.kind) {
                seq![t] + docs_before_rev(children, k - 1)
            } else {
                Seq::empty()
            },
            SyntaxElement::Node(n) => {
                let inner = docs_in_node_rev(n.children@, n.children@.len() as int);
                if inner.1 {
                    inner.0
                } else {
                    inner.0 + docs_before_rev(children, k - 1)
                }
            },
        }
    }
}

/// Position of the first child node with the kind and span of `target`.
pub open spec fn target_position(children: Seq<SyntaxElement>, target: SyntaxNode, i: int) -> Option<int>
    decreases children.len() - i,
{
    if i < 0 || i >= children.len() {
        None
    } else {
        match children[i] {
            SyntaxElement::Node(n) if n.kind == target.kind && n.span == target.span => Some(i),
            _ => target_position(children, target, i + 1),
        }
    }
}

/// The documentation comments directly before `target` in `container`,
/// in source order.
pub open spec fn leading_doc_tokens(container: SyntaxNode, target: SyntaxNode) -> Seq<Token> {
    match target_position(container.children@, target, 0) {
        Some(k) => docs_before_rev(container.children@, k).reverse(),
        None => Seq::empty(),
    }
}

fn docs_in_node(children: &Vec<SyntaxElement>, out: &mut Vec<Token>) -> (stopped: bool)
    ensures
        final(out)@ == old(out)@ + docs_in_node_rev(children@, children@.len() as int).0,
        stopped == docs_in_node_rev(children@, children@.len() as int).1,
{
    let ghost before = out@;
    let ghost answer = docs_in_node_rev(children@, children@.len() as int);
    let mut j: usize = children.len();
    while j > 0
        invariant
            j <= children@.len(),
            before == old(out)@,
            answer == docs_in_node_rev(children@, children@.len() as int),
            before + answer.0 == out@ + docs_in_node_rev(children@, j as int).0,
            answer.1 == docs_in_node_rev(children@, j as int).1,
        decreases j,
    {
        let ghost rest = docs_in_node_rev(children@, j - 1);
        match &children[j - 1] {
            SyntaxElement::Token(t) => {
                if t.kind == TokenKind::Whitespace {
                } else if is_doc_comment_token(t.kind) {
                    let ghost prev = out@;
                    out.push(*t);
                    proof {
                        assert(prev + (seq![*t] + rest.0) =~= out@ + rest.0);
                    }
                } else {
                    proof {
                        assert(docs_in_node_rev(children@, j as int) == (Seq::<Token>::empty(), true));
                        assert(out@ + Seq::<Token>::empty() =~= out@);
                    }
                    return true;
                }
            },
            SyntaxElement::Node(_) => {
                proof {
                    assert(docs_in_node_rev(children@, j as int) == (Seq::<Token>::empty(), true));
                    assert(out@ + Seq::<Token>::empty() =~= out@);
                }
                return true;
            },
        }
        j = j - 1;
    }
    proof {
        assert(out@ + Seq::<Token>::empty() =~= out@);
    }
    false
}

fn leading_doc_comments<'source>(source: &'source str, container: &SyntaxNode, target: &SyntaxNode) -> (r: Vec<
    DocComment<'source>,
>)
    ensures
        r@ == leading_doc_tokens(*container, *target).map_values(|t: Token| DocComment { source, token: t }),
{
    let children = &container.children;
    let mut k: usize = 0;
    let mut found: Option<usize> = None;
    while k < children.len()
        invariant_except_break
            k <= children@.len(),
            found is None,
            target_position(children@, *target, 0) == target_position(children@, *target, k as int),
        ensures
            match found {
                Some(i) => target_position(children@, *target, 0) == Some(i as int) && i < children@.len(),
                None => target_position(children@, *target, 0) is None,
            },
        decreases children@.len() - k,
    {
        match &children[k] {
            SyntaxElement::Node(n) => {
                if n.kind == target.kind && n.span == target.span {
                    found = Some(k);
                    break;
                }
            },
            SyntaxElement::Token(_) => {},
        }
        k = k + 1;
    }
    let mut rev: Vec<Token> = Vec::new();
    if let Some(index) = found {
        let ghost answer = docs_before_rev(children@, index as int);
        let mut k: usize = index;
        assert(rev@ + answer =~= answer);
        while k > 0
            invariant_except_break
                k <= index,
                index < children@.len(),
                answer == docs_before_rev(children@, index as int),
                rev@ + docs_before_rev(children@, k as int) == answer,
            ensures
                rev@ == answer,
            decreases k,
        {
            let ghost rest = docs_before_rev(children@, k - 1);
            match &children[k - 1] {
                SyntaxElement::Token(t) => {
                    if t.kind == TokenKind::Whitespace {
                    } else if is_doc_comment_token(t.kind) {
                        let ghost prev = rev@;
                        rev.push(*t);
                        proof {
                            assert(prev + (seq![*t] + rest) =~= rev@ + rest);
                        }
                    } else {
                        proof {
                            assert(rev@ + Seq::<Token>::empty() =~= rev@);
                        }
                        break;
                    }
                },
                SyntaxElement::Node(n) => {
                    let ghost prev = rev@;
                    let ghost inner = docs_in_node_rev(n.children@, n.children@.len() as int);
                    let stopped = docs_in_node(&n.children, &mut rev);
                    if stopped {
                        break;
                    }
                    proof {
                        assert(prev + (inner.0 + rest) =~= rev@ + rest);
                    }
                },
            }
            k = k - 1;
        }
        proof {
            if k == 0 {
                assert(rev@ + Seq::<Token>::empty() =~= rev@);
            }
        }
    }
    let mut r: Vec<DocComment<'source>> = Vec::new();
    let mut i: usize = rev.len();
    while i > 0
        invariant
            i <= rev@.len(),
            r@ == rev@.skip(i as int).reverse().map_values(|t: Token| DocComment { source, token: t }),
        decreases i,
    {
        r.push(DocComment { source, token: rev[i - 1] });
        proof {
            assert(rev@.skip(i - 1).reverse() =~= rev@.skip(i as int).reverse().push(rev@[i - 1]));
            assert(rev@.skip(i - 1).reverse().map_values(|t: Token| DocComment { source, token: t })
                =~= rev@.skip(i as int).reverse().map_values(|t: Token| DocComment { source, token: t }).push(
                DocComment { source, token: rev@[i - 1] },
            ));
        }
        i = i - 1;
    }
    proof {
        assert(rev@.skip(0) =~= rev@);
        if found is None {
            assert(rev@ =~= Seq::<Token>::empty());
            assert(leading_doc_tokens(*container, *target) =~= Seq::<Token>::empty().reverse());
        }
    }
    r
}

} // verus!

verus! {

// ---------------------------------------------------------------------------
// Token sequence helpers

/// Position of the first token of `kind` at or after `i`, or the length.
pub open spec fn index_of_kind(tokens: Seq<Token>, kind: TokenKind, i: int) -> int
    decreases tokens.len() - i,
{
    if i < 0 || i >= tokens.len() {
        tokens.len() as int
    } else if tokens[i].kind == kind {
        i
    } else {
        index_of_kind(tokens, kind, i + 1)
    }
}

/// The tokens before the first token of `kind`.
pub open spec fn take_until_kind(tokens: Seq<Token>, kind: TokenKind) -> Seq<Token> {
    tokens.take(index_of_kind(tokens, kind, 0))
}

proof fn lemma_index_of_kind_bounds(tokens: Seq<Token>, kind: TokenKind, i: int)
    requires
        0 <= i <= tokens.len(),
    ensures
        i <= index_of_kind(tokens, kind, i) <= tokens.len(),
    decreases tokens.len() - i,
{
    if i < tokens.len() && tokens[i].kind != kind {
        lemma_index_of_kind_bounds(tokens, kind, i + 1);
    }
}

fn tokens_until_kind(tokens: &Vec<Token>, kind: TokenKind) -> (r: Vec<Token>)
    ensures
        r@ == take_until_kind(tokens@, kind),
{
    let mut r: Vec<Token> = Vec::new();
    let mut i: usize = 0;
    proof {
        lemma_index_of_kind_bounds(tokens@, kind, 0);
    }
    while i < tokens.len()
        invariant_except_break
            i <= tokens@.len(),
            r@ == tokens@.take(i as int),
            index_of_kind(tokens@, kind, 0) == index_of_kind(tokens@, kind, i as int),
        ensures
            r@ == take_until_kind(tokens@, kind),
        decreases tokens@.len() - i,
    {
        if tokens[i].kind == kind {
            break;
        }
        r.push(tokens[i]);
        assert(tokens@.take(i + 1) =~= tokens@.take(i as int).push(tokens@[i as int]));
        i = i + 1;
    }
    r
}

/// The last name token of `tokens`.
pub open spec fn last_name_token(tokens: Seq<Token>) -> Option<Token>
    decreases tokens.len(),
{
    if tokens.len() == 0 {
        None
    } else if spec_is_name_token(tokens.last().kind) {
        Some(tokens.last())
    } else {
        last_name_token(tokens.drop_last())
    }
}

pub(crate) fn find_last_name_token(tokens: &Vec<Token>) -> (r: Option<Token>)
    ensures
        r == last_name_token(tokens@),
{
    let mut i: usize = tokens.len();
    assert(tokens@.take(tokens@.len() as int) =~= tokens@);
    while i > 0
        invariant
            i <= tokens@.len(),
            last_name_token(tokens@) == last_name_token(tokens@.take(i as int)),
        decreases i,
    {
        assert(tokens@.take(i as int).drop_last() =~= tokens@.take(i - 1));
        if is_name_token(tokens[i - 1].kind) {
            return Some(tokens[i - 1]);
        }
        i = i - 1;
    }
    None
}

/// The first name token of `tokens`.
pub open spec fn first_name_token(tokens: Seq<Token>) -> Option<Token>
    decreases tokens.len(),
{
    if tokens.len() == 0 {
        None
    } else if spec_is_name_token(tokens[0].kind) {
        Some(tokens[0])
    } else {
        first_name_token(tokens.drop_first())
    }
}

pub(crate) fn find_first_name_token(tokens: &Vec<Token>) -> (r: Option<Token>)
    ensures
        r == first_name_token(tokens@),
{
    let mut i: usize = 0;
    assert(tokens@.skip(0) =~= tokens@);
    while i < tokens.len()
        invariant
            i <= tokens@.len(),
            first_name_token(tokens@) == first_name_token(tokens@.skip(i as int)),
        decreases tokens@.len() - i,
    {
        assert(tokens@.skip(i as int).drop_first() =~= tokens@.skip(i + 1));
        if is_name_token(tokens[i].kind) {
            return Some(tokens[i]);
        }
        i = i + 1;
    }
    None
}

/// From the start of the first token to the end of the last one, when that
/// is a non-empty range.
pub open spec fn tokens_span(tokens: Seq<Token>) -> Option<TextSpan> {
    if tokens.len() == 0 || tokens[0].span.start >= tokens.last().span.end {
        None
    } else {
        Some(TextSpan { start: tokens[0].span.start, end: tokens.last().span.end })
    }
}

fn span_of_tokens(tokens: &Vec<Token>) -> (r: Option<TextSpan>)
    ensures
        r == tokens_span(tokens@),
{
    if tokens.len() == 0 {
        return None;
    }
    let first = tokens[0];
    let last = tokens[tokens.len() - 1];
    if first.span.start >= last.span.end {
        None
    } else {
        Some(TextSpan::new(first.span.start, last.span.end))
    }
}

fn opt_span_text<'a>(source: &'a str, span: Option<TextSpan>) -> (r: Option<TextValue<'a>>)
    ensures
        r == opt_text_value(source, span),
{
    match span {
        Some(s) => Some(make_text_value(source, s)),
        None => None,
    }
}

fn opt_token_value<'a>(source: &'a str, token: Option<Token>) -> (r: Option<TextValue<'a>>)
    ensures
        r == opt_token_text(source, token),
{
    match token {
        Some(t) => Some(make_text_value(source, t.span)),
        None => None,
    }
}

// ---------------------------------------------------------------------------
// Declaration details

impl<'source, 'tree> ClassDecl<'source, 'tree> {
    pub fn attributes(&self) -> (r: Vec<Attribute<'source, 'tree>>)
        ensures
            r@ == attributes_among(self.source, self.node.children@),
    {
        collect_attributes(self.source, self.node)
    }

    pub fn doc_comments(&self) -> (r: Vec<DocComment<'source>>)
        ensures
            r@ == leading_doc_tokens(*self.container, *self.node).map_values(
                |t: Token| DocComment { source: self.source, token: t },
            ),
    {
        leading_doc_comments(self.source, self.container, self.node)
    }

    pub fn modifiers(&self) -> (r: Vec<TextValue<'source>>)
        ensures
            r@ == token_texts(self.source, modifier_tokens(self.node.children@)),
    {
        collect_modifiers(self.source, self.node)
    }
}

impl<'source, 'tree> FieldDecl<'source, 'tree> {
    pub fn span(&self) -> (r: TextSpan)
        ensures
            r == self.node.span,
    {
        self.node.span
    }

    pub fn attributes(&self) -> (r: Vec<Attribute<'source, 'tree>>)
        ensures
            r@ == attributes_among(self.source, self.node.children@),
    {
        collect_attributes(self.source, self.node)
    }

    pub fn doc_comments(&self) -> (r: Vec<DocComment<'source>>)
        ensures
            r@ == leading_doc_tokens(*self.container, *self.node).map_values(
                |t: Token| DocComment { source: self.source, token: t },
            ),
    {
        leading_doc_comments(self.source, self.container, self.node)
    }

    pub fn modifiers(&self) -> (r: Vec<TextValue<'source>>)
        ensures
            r@ == token_texts(self.source, modifier_tokens(self.node.children@)),
    {
        collect_modifiers(self.source, self.node)
    }
}

impl<'source, 'tree> EnumDecl<'source, 'tree> {
    pub fn span(&self) -> (r: TextSpan)
        ensures
            r == self.node.span,
    {
        self.node.span
    }

    /// The name after the `enum` keyword.
    pub fn name(&self) -> (r: Option<TextValue<'source>>)
        ensures
            r == opt_token_text(self.source, declared_name(*self.node, Keyword::Enum)),
    {
        declared_name_text(self.source, self.node, Keyword::Enum)
    }

    pub fn attributes(&self) -> (r: Vec<Attribute<'source, 'tree>>)
        ensures
            r@ == attributes_among(self.source, self.node.children@),
    {
        collect_attributes(self.source, self.node)
    }

    pub fn base_type(&self) -> (r: Option<TextValue<'source>>)
        ensures
            r == opt_text_value(self.source, base_type_span(*self.node)),
    {
        base_type_text(self.source, self.node)
    }

    pub fn doc_comments(&self) -> (r: Vec<DocComment<'source>>)
        ensures
            r@ == leading_doc_tokens(*self.container, *self.node).map_values(
                |t: Token| DocComment { source: self.source, token: t },
            ),
    {
        leading_doc_comments(self.source, self.container, self.node)
    }

    /// The `EnumMember` children, in order.
    pub fn members(&self) -> (r: Vec<EnumMember<'source, 'tree>>)
        ensures
            r@ == enum_members_among(self.source, self.node.children@),
    {
        let mut r: Vec<EnumMember<'source, 'tree>> = Vec::new();
        let mut i: usize = 0;
        while i < self.node.children.len()
            invariant
                i <= self.node.children@.len(),
                r@ == enum_members_among(self.source, self.node.children@.take(i as int)),
            decreases self.node.children@.len() - i,
        {
            proof {
                assert(self.node.children@.take(i + 1).drop_last() =~= self.node.children@.take(i as int));
            }
            match &self.node.children[i] {
                SyntaxElement::Node(n) => {
                    if n.kind == SyntaxKind::EnumMember {
                        r.push(EnumMember { source: self.source, node: n });
                    }
                },
                SyntaxElement::Token(_) => {},
            }
            i = i + 1;
        }
        assert(self.node.children@.take(i as int) =~= self.node.children@);
        r
    }
}

/// An enumerator of an enum.
#[derive(Debug, Clone, Copy)]
pub struct EnumMember<'source, 'tree> {
    pub source: &'source str,
    pub node: &'tree SyntaxNode,
}

/// The `EnumMember` nodes among `children`.
pub open spec fn enum_members_among<'source, 'tree>(source: &'source str, children: Seq<SyntaxElement>) -> Seq<
    EnumMember<'source, 'tree>,
>
    decreases children.len(),
{
    if children.len() == 0 {
        Seq::empty()
    } else {
        let rest = enum_members_among(source, children.drop_last());
        match children.last() {
            SyntaxElement::Node(n) if n.kind == SyntaxKind::EnumMember => rest.push(EnumMember { source, node: &*n }),
            _ => rest,
        }
    }
}

/// The non-trivia tokens after the first `=` up to the next `,`.
pub open spec fn value_tokens(tokens: Seq<Token>) -> Seq<Token> {
    let k = index_of_kind(tokens, TokenKind::Operator(Operator::Equal), 0);
    if k >= tokens.len() {
        Seq::empty()
    } else {
        take_until_kind(tokens.skip(k + 1), TokenKind::Comma)
    }
}

impl<'source, 'tree> EnumMember<'source, 'tree> {
    pub fn span(&self) -> (r: TextSpan)
        ensures
            r == self.node.span,
    {
        self.node.span
    }

    /// The first name token.
    pub fn name(&self) -> (r: Option<TextValue<'source>>)
        ensures
            r == opt_token_text(self.source, first_name_token(direct_tokens(self.node.children@))),
    {
        let direct = node_direct_tokens(self.node);
        opt_token_value(self.source, find_first_name_token(&direct))
    }

    /// The source text of the value after `=`.
    pub fn value_text(&self) -> (r: Option<TextValue<'source>>)
        ensures
            r == opt_text_value(self.source, tokens_span(value_tokens(non_trivia(all_tokens(*self.node))))),
    {
        let all = node_all_tokens(self.node);
        let tokens = non_trivia_tokens(&all);
        let ghost t = tokens@;
        let mut i: usize = 0;
        proof {
            lemma_index_of_kind_bounds(t, TokenKind::Operator(Operator::Equal), 0);
        }
        while i < tokens.len()
            invariant_except_break
                i <= t.len(),
                tokens@ == t,
                index_of_kind(t, TokenKind::Operator(Operator::Equal), 0) == index_of_kind(
                    t,
                    TokenKind::Operator(Operator::Equal),
                    i as int,
                ),
            ensures
                i == index_of_kind(t, TokenKind::Operator(Operator::Equal), 0),
                i <= t.len(),
            decreases t.len() - i,
        {
            if tokens[i].kind == TokenKind::Operator(Operator::Equal) {
                break;
            }
            i = i + 1;
        }
        let mut after: Vec<Token> = Vec::new();
        let mut j: usize = if i < tokens.len() {
            i + 1
        } else {
            tokens.len()
        };
        let start = j;
        while j < tokens.len()
            invariant
                start <= j <= t.len(),
                tokens@ == t,
                after@ == t.subrange(start as int, j as int),
            decreases t.len() - j,
        {
            after.push(tokens[j]);
            assert(t.subrange(start as int, j + 1) =~= t.subrange(start as int, j as int).push(t[j as int]));
            j = j + 1;
        }
        assert(after@ =~= t.skip(start as int));
        proof {
            if i >= t.len() {
                assert(after@ =~= Seq::<Token>::empty());
                assert(take_until_kind(Seq::<Token>::empty(), TokenKind::Comma) =~= Seq::<Token>::empty());
            }
        }
        let value = tokens_until_kind(&after, TokenKind::Comma);
        opt_span_text(self.source, span_of_tokens(&value))
    }
}

impl<'source, 'tree> TypedefDecl<'source, 'tree> {
    pub fn text_span(&self) -> (r: TextSpan)
        ensures
            r == self.node.span,
    {
        self.node.span
    }

    /// The last name token before the first `;`.
    pub fn name(&self) -> (r: Option<TextValue<'source>>)
        ensures
            r == opt_token_text(
                self.source,
                last_name_token(take_until_kind(all_tokens(*self.node), TokenKind::Semicolon)),
            ),
    {
        let all = node_all_tokens(self.node);
        let head = tokens_until_kind(&all, TokenKind::Semicolon);
        opt_token_value(self.source, find_last_name_token(&head))
    }

    /// The aliased type: the non-trivia tokens before the name (and the
    /// first `;`), without the `typedef` keyword.
    pub fn type_text(&self) -> (r: Option<TextValue<'source>>)
        ensures
            r == match last_name_token(take_until_kind(all_tokens(*self.node), TokenKind::Semicolon)) {
                Some(name) => opt_text_value(
                    self.source,
                    tokens_span(typedef_type_tokens(all_tokens(*self.node), name.span.start)),
                ),
                None => None,
            },
    {
        let all = node_all_tokens(self.node);
        let head = tokens_until_kind(&all, TokenKind::Semicolon);
        let name = match find_last_name_token(&head) {
            Some(n) => n,
            None => return None,
        };
        let mut kept: Vec<Token> = Vec::new();
        let mut i: usize = 0;
        while i < head.len()
            invariant
                i <= head@.len(),
                kept@ == typedef_filter(head@.take(i as int), name.span.start),
            decreases head@.len() - i,
        {
            proof {
                assert(head@.take(i + 1).drop_last() =~= head@.take(i as int));
            }
            let t = head[i];
            if !t.kind.is_trivia() && t.span.end <= name.span.start && t.kind != TokenKind::Keyword(Keyword::Typedef) {
                kept.push(t);
            }
            i = i + 1;
        }
        assert(head@.take(i as int) =~= head@);
        opt_span_text(self.source, span_of_tokens(&kept))
    }

    pub fn doc_comments(&self) -> (r: Vec<DocComment<'source>>)
        ensures
            r@ == leading_doc_tokens(*self.container, *self.node).map_values(
                |t: Token| DocComment { source: self.source, token: t },
            ),
    {
        leading_doc_comments(self.source, self.container, self.node)
    }
}

/// Non-trivia tokens ending by `before`, other than `typedef`.
pub open spec fn typedef_filter(tokens: Seq<Token>, before: usize) -> Seq<Token>
    decreases tokens.len(),
{
    if tokens.len() == 0 {
        Seq::empty()
    } else {
        let rest = typedef_filter(tokens.drop_last(), before);
        let t = tokens.last();
        if !spec_is_trivia(t.kind) && t.span.end <= before && t.kind != TokenKind::Keyword(Keyword::Typedef) {
            rest.push(t)
        } else {
            rest
        }
    }
}

/// The type tokens of a typedef: those before the first `;` that
/// `typedef_filter` keeps.
pub open spec fn typedef_type_tokens(tokens: Seq<Token>, before: usize) -> Seq<Token> {
    typedef_filter(take_until_kind(tokens, TokenKind::Semicolon), before)
}

impl<'source, 'tree> Attribute<'source, 'tree> {
    pub fn span(&self) -> (r: TextSpan)
        ensures
            r == self.node.span,
    {
        self.node.span
    }

    pub fn text(&self) -> (r: Option<TextValue<'source>>)
        ensures
            r == opt_text_value(self.source, trimmed_node_span(*self.node)),
    {
        trimmed_node_text(self.source, self.node)
    }

    /// The first name token.
    pub fn name(&self) -> (r: Option<TextValue<'source>>)
        ensures
            r == opt_token_text(self.source, first_name_token(direct_tokens(self.node.children@))),
    {
        let direct = node_direct_tokens(self.node);
        opt_token_value(self.source, find_first_name_token(&direct))
    }
}

impl<'tree> EmptyDecl<'tree> {
    pub fn span(&self) -> (r: TextSpan)
        ensures
            r == self.node.span,
    {
        self.node.span
    }
}

} // verus!

verus! {

// ---------------------------------------------------------------------------
// Bracket depth

/// Open parentheses, brackets and angle brackets.
pub struct Depth {
    pub paren: nat,
    pub bracket: nat,
    pub angle: nat,
}

/// `d - k`, not below zero.
pub open spec fn sat_sub(d: nat, k: nat) -> nat {
    if d >= k {
        (d - k) as nat
    } else {
        0
    }
}

/// The depth after a token of `kind`.
pub open spec fn depth_step(d: Depth, kind: TokenKind) -> Depth {
    match kind {
        TokenKind::LeftParen => Depth { paren: d.paren + 1, ..d },
        TokenKind::RightParen => Depth { paren: sat_sub(d.paren, 1), ..d },
        TokenKind::LeftBracket => Depth { bracket: d.bracket + 1, ..d },
        TokenKind::RightBracket => Depth { bracket: sat_sub(d.bracket, 1), ..d },
        TokenKind::Operator(Operator::Less) => Depth { angle: d.angle + 1, ..d },
        TokenKind::Operator(Operator::Greater) => Depth { angle: sat_sub(d.angle, 1), ..d },
        TokenKind::Operator(Operator::GreaterGreater) => Depth { angle: sat_sub(d.angle, 2), ..d },
        _ => d,
    }
}

/// The depth before token `i`.
pub open spec fn depth_at(tokens: Seq<Token>, i: int) -> Depth
    decreases i,
{
    if i <= 0 {
        Depth { paren: 0, bracket: 0, angle: 0 }
    } else {
        depth_step(depth_at(tokens, i - 1), tokens[i - 1].kind)
    }
}

/// Token `i` is outside all brackets.
pub open spec fn at_top(tokens: Seq<Token>, i: int) -> bool {
    let d = depth_at(tokens, i);
    d.paren == 0 && d.bracket == 0 && d.angle == 0
}

proof fn lemma_depth_bound(tokens: Seq<Token>, i: int)
    requires
        0 <= i,
    ensures
        depth_at(tokens, i).paren + depth_at(tokens, i).bracket + depth_at(tokens, i).angle <= i,
    decreases i,
{
    if i > 0 {
        lemma_depth_bound(tokens, i - 1);
    }
}

/// Tracks `depth_at` while scanning tokens.
pub(crate) struct DepthCounter {
    pub(crate) paren: usize,
    pub(crate) bracket: usize,
    pub(crate) angle: usize,
}

impl DepthCounter {
    pub(crate) open spec fn matches(&self, d: Depth) -> bool {
        self.paren == d.paren && self.bracket == d.bracket && self.angle == d.angle
    }

    pub(crate) fn new() -> (r: Self)
        ensures
            r.matches(Depth { paren: 0, bracket: 0, angle: 0 }),
    {
        DepthCounter { paren: 0, bracket: 0, angle: 0 }
    }

    pub(crate) fn top(&self) -> (r: bool)
        ensures
            r == (self.paren == 0 && self.bracket == 0 && self.angle == 0),
    {
        self.paren == 0 && self.bracket == 0 && self.angle == 0
    }

    pub(crate) fn step(&mut self, tokens: Ghost<Seq<Token>>, i: usize, kind: TokenKind)
        requires
            old(self).matches(depth_at(tokens@, i as int)),
            i < tokens@.len(),
            tokens@[i as int].kind == kind,
            tokens@.len() <= usize::MAX,
        ensures
            final(self).matches(depth_at(tokens@, i + 1)),
    {
        proof {
            lemma_depth_bound(tokens@, i as int);
        }
        match kind {
            TokenKind::LeftParen => self.paren = self.paren + 1,
            TokenKind::RightParen => self.paren = self.paren.saturating_sub(1),
            TokenKind::LeftBracket => self.bracket = self.bracket + 1,
            TokenKind::RightBracket => self.bracket = self.bracket.saturating_sub(1),
            TokenKind::Operator(Operator::Less) => self.angle = self.angle + 1,
            TokenKind::Operator(Operator::Greater) => self.angle = self.angle.saturating_sub(1),
            TokenKind::Operator(Operator::GreaterGreater) => self.angle = self.angle.saturating_sub(2),
            _ => {},
        }
    }
}

/// The first top-level `=` at or after `i`, or the length.
pub open spec fn top_equal_index(tokens: Seq<Token>, i: int) -> int
    decreases tokens.len() - i,
{
    if i < 0 || i >= tokens.len() {
        tokens.len() as int
    } else if at_top(tokens, i) && tokens[i].kind == TokenKind::Operator(Operator::Equal) {
        i
    } else {
        top_equal_index(tokens, i + 1)
    }
}

proof fn lemma_top_equal_bounds(tokens: Seq<Token>, i: int)
    requires
        0 <= i <= tokens.len(),
    ensures
        i <= top_equal_index(tokens, i) <= tokens.len(),
    decreases tokens.len() - i,
{
    if i < tokens.len() && !(at_top(tokens, i) && tokens[i].kind == TokenKind::Operator(Operator::Equal)) {
        lemma_top_equal_bounds(tokens, i + 1);
    }
}

/// The last top-level name token among the first `n` tokens that is not a
/// parameter modifier.
pub open spec fn top_name_candidate(tokens: Seq<Token>, n: int) -> Option<Token>
    decreases n,
{
    if n <= 0 {
        None
    } else {
        let t = tokens[n - 1];
        if at_top(tokens, n - 1) && spec_is_name_token(t.kind) && !spec_is_parameter_modifier_token(t.kind) {
            Some(t)
        } else {
            top_name_candidate(tokens, n - 1)
        }
    }
}

/// The top-level parameter modifiers among the first `n` tokens.
pub open spec fn top_modifiers(tokens: Seq<Token>, n: int) -> Seq<Token>
    decreases n,
{
    if n <= 0 {
        Seq::empty()
    } else {
        let rest = top_modifiers(tokens, n - 1);
        let t = tokens[n - 1];
        if at_top(tokens, n - 1) && spec_is_parameter_modifier_token(t.kind) {
            rest.push(t)
        } else {
            rest
        }
    }
}

/// The name token of a parameter: the last top-level name before any
/// top-level `=`, skipping modifiers.
pub open spec fn parameter_name(node: SyntaxNode) -> Option<Token> {
    let tokens = non_trivia(all_tokens(node));
    top_name_candidate(tokens, top_equal_index(tokens, 0))
}

fn find_parameter_name(node: &SyntaxNode) -> (r: Option<Token>)
    ensures
        r == parameter_name(*node),
{
    let all = node_all_tokens(node);
    let tokens = non_trivia_tokens(&all);
    let ghost t = tokens@;
    let mut d = DepthCounter::new();
    let mut candidate: Option<Token> = None;
    let mut i: usize = 0;
    proof {
        lemma_top_equal_bounds(t, 0);
    }
    while i < tokens.len()
        invariant_except_break
            i <= t.len(),
            tokens@ == t,
            d.matches(depth_at(t, i as int)),
            top_equal_index(t, 0) == top_equal_index(t, i as int),
            candidate == top_name_candidate(t, i as int),
        ensures
            candidate == top_name_candidate(t, top_equal_index(t, 0)),
        decreases t.len() - i,
    {
        let kind = tokens[i].kind;
        let top = d.top();
        if top && kind == TokenKind::Operator(Operator::Equal) {
            break;
        }
        if top && is_name_token(kind) && !is_parameter_modifier_token(kind) {
            candidate = Some(tokens[i]);
        }
        d.step(Ghost(t), i, kind);
        i = i + 1;
    }
    candidate
}

/// The first top-level `=` among the non-trivia direct tokens.
pub open spec fn parameter_default_equal(node: SyntaxNode) -> Option<Token> {
    let tokens = non_trivia(direct_tokens(node.children@));
    let k = top_equal_index(tokens, 0);
    if k < tokens.len() {
        Some(tokens[k])
    } else {
        None
    }
}

fn find_parameter_default_equal(node: &SyntaxNode) -> (r: Option<Token>)
    ensures
        r == parameter_default_equal(*node),
{
    let direct = node_direct_tokens(node);
    let tokens = non_trivia_tokens(&direct);
    let ghost t = tokens@;
    let mut d = DepthCounter::new();
    let mut i: usize = 0;
    proof {
        lemma_top_equal_bounds(t, 0);
    }
    while i < tokens.len()
        invariant
            i <= t.len(),
            tokens@ == t,
            t == non_trivia(direct_tokens(node.children@)),
            d.matches(depth_at(t, i as int)),
            top_equal_index(t, 0) == top_equal_index(t, i as int),
        decreases t.len() - i,
    {
        let kind = tokens[i].kind;
        if d.top() && kind == TokenKind::Operator(Operator::Equal) {
            proof {
                assert(at_top(t, i as int));
                assert(top_equal_index(t, i as int) == i);
            }
            return Some(tokens[i]);
        }
        d.step(Ghost(t), i, kind);
        i = i + 1;
    }
    None
}

/// The top-level modifiers before any top-level `=` among the non-trivia
/// direct tokens.
pub open spec fn parameter_modifier_tokens(node: SyntaxNode) -> Seq<Token> {
    let tokens = non_trivia(direct_tokens(node.children@));
    top_modifiers(tokens, top_equal_index(tokens, 0))
}

fn find_parameter_modifiers(node: &SyntaxNode) -> (r: Vec<Token>)
    ensures
        r@ == parameter_modifier_tokens(*node),
{
    let direct = node_direct_tokens(node);
    let tokens = non_trivia_tokens(&direct);
    let ghost t = tokens@;
    let mut d = DepthCounter::new();
    let mut r: Vec<Token> = Vec::new();
    let mut i: usize = 0;
    proof {
        lemma_top_equal_bounds(t, 0);
    }
    while i < tokens.len()
        invariant_except_break
            i <= t.len(),
            tokens@ == t,
            d.matches(depth_at(t, i as int)),
            top_equal_index(t, 0) == top_equal_index(t, i as int),
            r@ == top_modifiers(t, i as int),
        ensures
            r@ == top_modifiers(t, top_equal_index(t, 0)),
        decreases t.len() - i,
    {
        let kind = tokens[i].kind;
        let top = d.top();
        if top && kind == TokenKind::Operator(Operator::Equal) {
            break;
        }
        if top && is_parameter_modifier_token(kind) {
            r.push(tokens[i]);
        }
        d.step(Ghost(t), i, kind);
        i = i + 1;
    }
    r
}

/// The first token at or after `i` ending after `before`, or the length.
pub open spec fn index_past(tokens: Seq<Token>, before: usize, i: int) -> int
    decreases tokens.len() - i,
{
    if i < 0 || i >= tokens.len() {
        tokens.len() as int
    } else if tokens[i].span.end > before {
        i
    } else {
        index_past(tokens, before, i + 1)
    }
}

/// Among the first `n` tokens, those that are not top-level parameter
/// modifiers.
pub open spec fn without_top_modifiers(tokens: Seq<Token>, n: int) -> Seq<Token>
    decreases n,
{
    if n <= 0 {
        Seq::empty()
    } else {
        let rest = without_top_modifiers(tokens, n - 1);
        let t = tokens[n - 1];
        if at_top(tokens, n - 1) && spec_is_parameter_modifier_token(t.kind) {
            rest
        } else {
            rest.push(t)
        }
    }
}

proof fn lemma_index_past_bounds(tokens: Seq<Token>, before: usize, i: int)
    requires
        0 <= i <= tokens.len(),
    ensures
        i <= index_past(tokens, before, i) <= tokens.len(),
    decreases tokens.len() - i,
{
    if i < tokens.len() && tokens[i].span.end <= before {
        lemma_index_past_bounds(tokens, before, i + 1);
    }
}

/// The type tokens of a parameter: the non-trivia direct tokens ending by
/// `before`, without top-level modifiers.
pub open spec fn parameter_type_tokens(node: SyntaxNode, before: usize) -> Seq<Token> {
    let tokens = non_trivia(direct_tokens(node.children@));
    without_top_modifiers(tokens, index_past(tokens, before, 0))
}

fn find_parameter_type_tokens(node: &SyntaxNode, before: usize) -> (r: Vec<Token>)
    ensures
        r@ == parameter_type_tokens(*node, before),
{
    let direct = node_direct_tokens(node);
    let tokens = non_trivia_tokens(&direct);
    let ghost t = tokens@;
    let mut d = DepthCounter::new();
    let mut r: Vec<Token> = Vec::new();
    let mut i: usize = 0;
    proof {
        lemma_index_past_bounds(t, before, 0);
    }
    while i < tokens.len()
        invariant_except_break
            i <= t.len(),
            tokens@ == t,
            d.matches(depth_at(t, i as int)),
            index_past(t, before, 0) == index_past(t, before, i as int),
            r@ == without_top_modifiers(t, i as int),
        ensures
            r@ == without_top_modifiers(t, index_past(t, before, 0)),
        decreases t.len() - i,
    {
        let token = tokens[i];
        if token.span.end > before {
            break;
        }
        if !(d.top() && is_parameter_modifier_token(token.kind)) {
            r.push(token);
        }
        d.step(Ghost(t), i, token.kind);
        i = i + 1;
    }
    r
}

/// The non-trivia tokens under `node` starting at or after `after`.
pub open spec fn tokens_from(tokens: Seq<Token>, after: usize) -> Seq<Token>
    decreases tokens.len(),
{
    if tokens.len() == 0 {
        Seq::empty()
    } else {
        let rest = tokens_from(tokens.drop_last(), after);
        if tokens.last().span.start >= after {
            rest.push(tokens.last())
        } else {
            rest
        }
    }
}

fn collect_tokens_from(tokens: &Vec<Token>, after: usize) -> (r: Vec<Token>)
    ensures
        r@ == tokens_from(tokens@, after),
{
    let mut r: Vec<Token> = Vec::new();
    let mut i: usize = 0;
    while i < tokens.len()
        invariant
            i <= tokens@.len(),
            r@ == tokens_from(tokens@.take(i as int), after),
        decreases tokens@.len() - i,
    {
        proof {
            assert(tokens@.take(i + 1).drop_last() =~= tokens@.take(i as int));
        }
        if tokens[i].span.start >= after {
            r.push(tokens[i]);
        }
        i = i + 1;
    }
    assert(tokens@.take(i as int) =~= tokens@);
    r
}

} // verus!

verus! {

// ---------------------------------------------------------------------------
// Methods and parameters

/// The characters of `span` in `source`.
pub open spec fn span_chars(source: &str, span: TextSpan) -> Seq<char> {
    vstd::utf8::decode_utf8(source.spec_bytes().subrange(span.start as int, span.end as int))
}

/// `true`, `false`, `null` and `NULL`, which appear as whole parameter
/// fragments in some declarations.
pub open spec fn is_literal_fragment(s: Seq<char>) -> bool {
    s == seq!['t', 'r', 'u', 'e'] || s == seq!['f', 'a', 'l', 's', 'e'] || s == seq!['n', 'u', 'l', 'l'] || s
        == seq!['N', 'U', 'L', 'L']
}

fn literal_fragment(s: &str) -> (r: bool)
    ensures
        r == is_literal_fragment(crate::text::trim(s@)),
{
    proof {
        reveal_strlit("true");
        reveal_strlit("false");
        reveal_strlit("null");
        reveal_strlit("NULL");
        assert("true"@ =~= seq!['t', 'r', 'u', 'e']);
        assert("false"@ =~= seq!['f', 'a', 'l', 's', 'e']);
        assert("null"@ =~= seq!['n', 'u', 'l', 'l']);
        assert("NULL"@ =~= seq!['N', 'U', 'L', 'L']);
    }
    let t = crate::text::trim_str(s);
    let a = crate::text::string_eq_str(&t, "true");
    let b = crate::text::string_eq_str(&t, "false");
    let c = crate::text::string_eq_str(&t, "null");
    let d = crate::text::string_eq_str(&t, "NULL");
    a || b || c || d
}

/// The text of a span, as characters.
fn span_text<'a>(source: &'a str, span: TextSpan) -> (r: &'a str)
    requires
        valid_span(source, span),
    ensures
        r@ == span_chars(source, span),
{
    let r = slice_span(source, span);
    proof {
        assert(r@ == vstd::utf8::decode_utf8(encode_utf8(r@)));
    }
    r
}

/// The name token of a method: the last name token before `(`.
pub open spec fn method_name(node: SyntaxNode) -> Option<Token> {
    last_name_token(take_until_kind(direct_tokens(node.children@), TokenKind::LeftParen))
}

fn find_method_name(node: &SyntaxNode) -> (r: Option<Token>)
    ensures
        r == method_name(*node),
{
    let direct = node_direct_tokens(node);
    let head = tokens_until_kind(&direct, TokenKind::LeftParen);
    find_last_name_token(&head)
}

/// The first non-trivia token before `(` that is a `~` ending by the start
/// of `name`.
pub open spec fn tilde_before(tokens: Seq<Token>, name: Token) -> Option<Token>
    decreases tokens.len(),
{
    if tokens.len() == 0 {
        None
    } else {
        let t = tokens[0];
        if t.span.end <= name.span.start && t.kind == TokenKind::Operator(Operator::Tilde) {
            Some(t)
        } else {
            tilde_before(tokens.drop_first(), name)
        }
    }
}

/// The `~` marking a destructor.
pub open spec fn destructor_marker(node: SyntaxNode) -> Option<Token> {
    match method_name(node) {
        Some(name) => tilde_before(
            non_trivia(take_until_kind(direct_tokens(node.children@), TokenKind::LeftParen)),
            name,
        ),
        None => None,
    }
}

fn find_destructor_marker(node: &SyntaxNode) -> (r: Option<Token>)
    ensures
        r == destructor_marker(*node),
{
    let name = match find_method_name(node) {
        Some(n) => n,
        None => return None,
    };
    let direct = node_direct_tokens(node);
    let head = tokens_until_kind(&direct, TokenKind::LeftParen);
    let tokens = non_trivia_tokens(&head);
    let mut i: usize = 0;
    assert(tokens@.skip(0) =~= tokens@);
    while i < tokens.len()
        invariant
            i <= tokens@.len(),
            method_name(*node) == Some(name),
            tokens@ == non_trivia(take_until_kind(direct_tokens(node.children@), TokenKind::LeftParen)),
            tilde_before(tokens@, name) == tilde_before(tokens@.skip(i as int), name),
        decreases tokens@.len() - i,
    {
        assert(tokens@.skip(i as int).drop_first() =~= tokens@.skip(i + 1));
        assert(tokens@.skip(i as int)[0] == tokens@[i as int]);
        let t = tokens[i];
        if t.span.end <= name.span.start && t.kind == TokenKind::Operator(Operator::Tilde) {
            return Some(t);
        }
        i = i + 1;
    }
    None
}

/// Non-trivia direct tokens ending by `before`, without `;` and declaration
/// prefix keywords.
pub open spec fn decl_prefix_filter(tokens: Seq<Token>, before: usize) -> Seq<Token>
    decreases tokens.len(),
{
    if tokens.len() == 0 {
        Seq::empty()
    } else {
        let rest = decl_prefix_filter(tokens.drop_last(), before);
        let t = tokens.last();
        if !spec_is_trivia(t.kind) && t.span.end <= before && t.kind != TokenKind::Semicolon
            && !spec_is_declaration_prefix_token(t.kind) {
            rest.push(t)
        } else {
            rest
        }
    }
}

/// The return type span of a method.
pub open spec fn return_type_span(node: SyntaxNode) -> Option<TextSpan> {
    match method_name(node) {
        Some(name) => {
            let before = match destructor_marker(node) {
                Some(m) => m.span.start,
                None => name.span.start,
            };
            tokens_span(decl_prefix_filter(direct_tokens(node.children@), before))
        },
        None => None,
    }
}

/// The `Parameter` children of the first `ParameterList` child.
pub open spec fn parameter_nodes<'source, 'tree>(source: &'source str, children: Seq<SyntaxElement>) -> Seq<
    Parameter<'source, 'tree>,
>
    decreases children.len(),
{
    if children.len() == 0 {
        Seq::empty()
    } else {
        let rest = parameter_nodes(source, children.drop_last());
        match children.last() {
            SyntaxElement::Node(n) if n.kind == SyntaxKind::Parameter => rest.push(Parameter { source, node: &*n }),
            _ => rest,
        }
    }
}

/// All parameters of a method, in order.
pub open spec fn all_parameters<'source, 'tree>(source: &'source str, node: SyntaxNode) -> Seq<
    Parameter<'source, 'tree>,
> {
    match first_child_node(node.children@, SyntaxKind::ParameterList) {
        Some(list) => parameter_nodes(source, list.children@),
        None => Seq::empty(),
    }
}

/// The type span of a parameter.
pub open spec fn parameter_type_span(node: SyntaxNode) -> Option<TextSpan> {
    match parameter_name(node) {
        Some(name) => tokens_span(parameter_type_tokens(node, name.span.start)),
        None => None,
    }
}

/// A parameter is a bare literal (no type, trimmed text `true`, `false`,
/// `null` or `NULL`) or a declaration.
pub open spec fn spec_parameter_kind(source: &str, node: SyntaxNode) -> ParameterKind {
    if parameter_type_span(node) is None && trimmed_node_span(node) is Some && is_literal_fragment(
        crate::text::trim(span_chars(source, trimmed_node_span(node).unwrap())),
    ) {
        ParameterKind::NonDeclarationFragment
    } else {
        ParameterKind::Declaration
    }
}

/// The parameter's trimmed text lies on character boundaries.
pub open spec fn parameter_text_valid(source: &str, node: SyntaxNode) -> bool {
    trimmed_node_span(node) is Some ==> valid_span(source, trimmed_node_span(node).unwrap())
}

/// The parameters of `params` whose kind is `kind`.
pub open spec fn parameters_of_kind<'source, 'tree>(params: Seq<Parameter<'source, 'tree>>, kind: ParameterKind) -> Seq<
    Parameter<'source, 'tree>,
>
    decreases params.len(),
{
    if params.len() == 0 {
        Seq::empty()
    } else {
        let rest = parameters_of_kind(params.drop_last(), kind);
        let p = params.last();
        if spec_parameter_kind(p.source, *p.node) == kind {
            rest.push(p)
        } else {
            rest
        }
    }
}

/// A parameter declaration.
#[derive(Debug, Clone, Copy)]
pub struct Parameter<'source, 'tree> {
    pub source: &'source str,
    pub node: &'tree SyntaxNode,
}

impl<'source, 'tree> Parameter<'source, 'tree> {
    pub fn span(&self) -> (r: TextSpan)
        ensures
            r == self.node.span,
    {
        self.node.span
    }

    pub fn text(&self) -> (r: Option<TextValue<'source>>)
        ensures
            r == opt_text_value(self.source, trimmed_node_span(*self.node)),
    {
        trimmed_node_text(self.source, self.node)
    }

    pub fn kind(&self) -> (r: ParameterKind)
        requires
            parameter_text_valid(self.source, *self.node),
        ensures
            r == spec_parameter_kind(self.source, *self.node),
    {
        if self.type_text().is_none() {
            if let Some(text) = self.text() {
                let chars = span_text(self.source, text.span);
                if literal_fragment(chars) {
                    return ParameterKind::NonDeclarationFragment;
                }
            }
        }
        ParameterKind::Declaration
    }

    pub fn name(&self) -> (r: Option<TextValue<'source>>)
        ensures
            r == opt_token_text(self.source, parameter_name(*self.node)),
    {
        opt_token_value(self.source, find_parameter_name(self.node))
    }

    pub fn type_text(&self) -> (r: Option<TextValue<'source>>)
        ensures
            r == opt_text_value(self.source, parameter_type_span(*self.node)),
    {
        let name = match find_parameter_name(self.node) {
            Some(n) => n,
            None => return None,
        };
        let tokens = find_parameter_type_tokens(self.node, name.span.start);
        opt_span_text(self.source, span_of_tokens(&tokens))
    }

    pub fn default_text(&self) -> (r: Option<TextValue<'source>>)
        ensures
            r == match parameter_default_equal(*self.node) {
                Some(equal) => opt_text_value(
                    self.source,
                    tokens_span(tokens_from(non_trivia(all_tokens(*self.node)), equal.span.end)),
                ),
                None => None,
            },
    {
        let equal = match find_parameter_default_equal(self.node) {
            Some(e) => e,
            None => return None,
        };
        let all = node_all_tokens(self.node);
        let tokens = non_trivia_tokens(&all);
        let after = collect_tokens_from(&tokens, equal.span.end);
        opt_span_text(self.source, span_of_tokens(&after))
    }

    pub fn modifiers(&self) -> (r: Vec<TextValue<'source>>)
        ensures
            r@ == token_texts(self.source, parameter_modifier_tokens(*self.node)),
    {
        let tokens = find_parameter_modifiers(self.node);
        let mut r: Vec<TextValue<'source>> = Vec::new();
        push_token_texts(self.source, &tokens, &mut r);
        assert(r@ =~= token_texts(self.source, tokens@));
        r
    }
}

impl<'source, 'tree> MethodDecl<'source, 'tree> {
    pub fn span(&self) -> (r: TextSpan)
        ensures
            r == self.node.span,
    {
        self.node.span
    }

    pub fn name(&self) -> (r: Option<TextValue<'source>>)
        ensures
            r == opt_token_text(self.source, method_name(*self.node)),
    {
        opt_token_value(self.source, find_method_name(self.node))
    }

    pub fn is_destructor(&self) -> (r: bool)
        ensures
            r == destructor_marker(*self.node) is Some,
    {
        find_destructor_marker(self.node).is_some()
    }

    /// The declared return type: the tokens before the name (or the `~`),
    /// without `;` and declaration prefix keywords.
    pub fn return_type_text(&self) -> (r: Option<TextValue<'source>>)
        ensures
            r == opt_text_value(self.source, return_type_span(*self.node)),
    {
        let name = match find_method_name(self.node) {
            Some(n) => n,
            None => return None,
        };
        let before = match find_destructor_marker(self.node) {
            Some(m) => m.span.start,
            None => name.span.start,
        };
        let direct = node_direct_tokens(self.node);
        let mut kept: Vec<Token> = Vec::new();
        let mut i: usize = 0;
        while i < direct.len()
            invariant
                i <= direct@.len(),
                kept@ == decl_prefix_filter(direct@.take(i as int), before),
            decreases direct@.len() - i,
        {
            proof {
                assert(direct@.take(i + 1).drop_last() =~= direct@.take(i as int));
            }
            let t = direct[i];
            if !t.kind.is_trivia() && t.span.end <= before && t.kind != TokenKind::Semicolon
                && !is_declaration_prefix_token(t.kind) {
                kept.push(t);
            }
            i = i + 1;
        }
        assert(direct@.take(i as int) =~= direct@);
        opt_span_text(self.source, span_of_tokens(&kept))
    }

    fn all_parameters(&self) -> (r: Vec<Parameter<'source, 'tree>>)
        ensures
            r@ == all_parameters(self.source, *self.node),
    {
        let mut r: Vec<Parameter<'source, 'tree>> = Vec::new();
        match find_child_node(self.node, SyntaxKind::ParameterList) {
            Some(list) => {
                let mut i: usize = 0;
                while i < list.children.len()
                    invariant
                        i <= list.children@.len(),
                        r@ == parameter_nodes(self.source, list.children@.take(i as int)),
                    decreases list.children@.len() - i,
                {
                    proof {
                        assert(list.children@.take(i + 1).drop_last() =~= list.children@.take(i as int));
                    }
                    match &list.children[i] {
                        SyntaxElement::Node(n) => {
                            if n.kind == SyntaxKind::Parameter {
                                r.push(Parameter { source: self.source, node: n });
                            }
                        },
                        SyntaxElement::Token(_) => {},
                    }
                    i = i + 1;
                }
                assert(list.children@.take(i as int) =~= list.children@);
            },
            None => {},
        }
        r
    }

    fn parameters_with_kind(&self, kind: ParameterKind) -> (r: Vec<Parameter<'source, 'tree>>)
        requires
            forall|k: int|
                0 <= k < all_parameters(self.source, *self.node).len() ==> parameter_text_valid(
                    all_parameters(self.source, *self.node)[k].source,
                    *(#[trigger] all_parameters(self.source, *self.node)[k]).node,
                ),
        ensures
            r@ == parameters_of_kind(all_parameters(self.source, *self.node), kind),
    {
        let all = self.all_parameters();
        let mut r: Vec<Parameter<'source, 'tree>> = Vec::new();
        let mut i: usize = 0;
        while i < all.len()
            invariant
                i <= all@.len(),
                all@ == all_parameters(self.source, *self.node),
                forall|k: int| 0 <= k < all@.len() ==> parameter_text_valid(all@[k].source, *(#[trigger] all@[k]).node),
                r@ == parameters_of_kind(all@.take(i as int), kind),
            decreases all@.len() - i,
        {
            proof {
                assert(all@.take(i + 1).drop_last() =~= all@.take(i as int));
            }
            let p = all[i];
            assert(all@[i as int] == p);
            if p.kind() == kind {
                r.push(p);
            }
            i = i + 1;
        }
        assert(all@.take(i as int) =~= all@);
        r
    }

    /// The parameters that declare something.
    pub fn parameters(&self) -> (r: Vec<Parameter<'source, 'tree>>)
        requires
            forall|k: int|
                0 <= k < all_parameters(self.source, *self.node).len() ==> parameter_text_valid(
                    all_parameters(self.source, *self.node)[k].source,
                    *(#[trigger] all_parameters(self.source, *self.node)[k]).node,
                ),
        ensures
            r@ == parameters_of_kind(all_parameters(self.source, *self.node), ParameterKind::Declaration),
    {
        self.parameters_with_kind(ParameterKind::Declaration)
    }

    /// The bare literal fragments among the parameters.
    pub fn parameter_fragments(&self) -> (r: Vec<Parameter<'source, 'tree>>)
        requires
            forall|k: int|
                0 <= k < all_parameters(self.source, *self.node).len() ==> parameter_text_valid(
                    all_parameters(self.source, *self.node)[k].source,
                    *(#[trigger] all_parameters(self.source, *self.node)[k]).node,
                ),
        ensures
            r@ == parameters_of_kind(all_parameters(self.source, *self.node), ParameterKind::NonDeclarationFragment),
    {
        self.parameters_with_kind(ParameterKind::NonDeclarationFragment)
    }

    pub fn attributes(&self) -> (r: Vec<Attribute<'source, 'tree>>)
        ensures
            r@ == attributes_among(self.source, self.node.children@),
    {
        collect_attributes(self.source, self.node)
    }

    pub fn doc_comments(&self) -> (r: Vec<DocComment<'source>>)
        ensures
            r@ == leading_doc_tokens(*self.container, *self.node).map_values(
                |t: Token| DocComment { source: self.source, token: t },
            ),
    {
        leading_doc_comments(self.source, self.container, self.node)
    }

    pub fn modifiers(&self) -> (r: Vec<TextValue<'source>>)
        ensures
            r@ == token_texts(self.source, modifier_tokens(self.node.children@)),
    {
        collect_modifiers(self.source, self.node)
    }

    /// The span of the body block.
    pub fn body_span(&self) -> (r: Option<TextSpan>)
        ensures
            r == match first_child_node(self.node.children@, SyntaxKind::Block) {
                Some(b) => Some(b.span),
                None => None,
            },
    {
        match find_child_node(self.node, SyntaxKind::Block) {
            Some(b) => Some(b.span),
            None => None,
        }
    }
}

impl<'source, 'tree> ClassDecl<'source, 'tree> {
    /// A destructor, a constructor (named like the class) or a method.
    pub fn classify_method(&self, method: MethodDecl<'source, 'tree>) -> (r: MethodKind)
        requires
            declared_name(*self.node, Keyword::Class) is Some ==> valid_span(
                self.source,
                declared_name(*self.node, Keyword::Class).unwrap().span,
            ),
            method_name(*method.node) is Some ==> valid_span(method.source, method_name(*method.node).unwrap().span),
        ensures
            r == if destructor_marker(*method.node) is Some {
                MethodKind::Destructor
            } else if declared_name(*self.node, Keyword::Class) is Some && method_name(*method.node) is Some
                && span_chars(self.source, declared_name(*self.node, Keyword::Class).unwrap().span) == span_chars(
                method.source,
                method_name(*method.node).unwrap().span,
            ) {
                MethodKind::Constructor
            } else {
                MethodKind::Method
            },
    {
        if method.is_destructor() {
            return MethodKind::Destructor;
        }
        match (self.name(), method.name()) {
            (Some(class_name), Some(method_name)) => {
                let a = span_text(self.source, class_name.span);
                let b = span_text(method.source, method_name.span);
                if str_eq(a, b) {
                    MethodKind::Constructor
                } else {
                    MethodKind::Method
                }
            },
            _ => MethodKind::Method,
        }
    }
}

} // verus!

verus! {

// ---------------------------------------------------------------------------
// Expressions

#[derive(Debug, Clone, Copy, PartialEq, Eq, Structural)]
pub enum ExpressionKind {
    Name,
    Literal,
    Call,
    MemberAccess,
    Index,
    Cast,
    New,
    Unary,
    Binary,
    Assignment,
    Ternary,
    Initializer,
    Parenthesized,
    Unknown,
}

/// An expression node together with its source text.
#[derive(Debug, Clone, Copy)]
pub struct ExpressionNode<'source, 'tree> {
    pub source: &'source str,
    pub node: &'tree SyntaxNode,
}

/// An expression, by its syntactic form.
#[derive(Debug, Clone, Copy)]
pub enum Expression<'source, 'tree> {
    Name(ExpressionNode<'source, 'tree>),
    Literal(ExpressionNode<'source, 'tree>),
    Call(ExpressionNode<'source, 'tree>),
    MemberAccess(ExpressionNode<'source, 'tree>),
    Index(ExpressionNode<'source, 'tree>),
    Cast(ExpressionNode<'source, 'tree>),
    New(ExpressionNode<'source, 'tree>),
    Unary(ExpressionNode<'source, 'tree>),
    Binary(ExpressionNode<'source, 'tree>),
    Assignment(ExpressionNode<'source, 'tree>),
    Ternary(ExpressionNode<'source, 'tree>),
    Initializer(ExpressionNode<'source, 'tree>),
    Parenthesized(ExpressionNode<'source, 'tree>),
    Unknown(ExpressionNode<'source, 'tree>),
}

/// A member access whose member name was looked up.
#[derive(Debug, Clone, Copy)]
pub struct MemberAccessExpression<'source, 'tree> {
    pub expression: Expression<'source, 'tree>,
    pub receiver: Expression<'source, 'tree>,
    pub member_name: TextValue<'source>,
}

/// The label of a named argument.
#[derive(Debug, Clone, Copy)]
pub struct NamedArgumentLabel<'source> {
    pub name: TextValue<'source>,
}

/// Node kinds that are expressions.
pub open spec fn spec_is_expression_kind(kind: SyntaxKind) -> bool {
    match kind {
        SyntaxKind::Expression | SyntaxKind::NameExpression | SyntaxKind::LiteralExpression
        | SyntaxKind::ParenthesizedExpression | SyntaxKind::UnaryExpression | SyntaxKind::BinaryExpression
        | SyntaxKind::AssignmentExpression | SyntaxKind::TernaryExpression | SyntaxKind::CallExpression
        | SyntaxKind::NamedArgument | SyntaxKind::MemberAccessExpression | SyntaxKind::IndexExpression
        | SyntaxKind::CastExpression | SyntaxKind::PostfixExpression | SyntaxKind::NewExpression
        | SyntaxKind::InitializerExpression => true,
        _ => false,
    }
}

fn is_expression_syntax_kind(kind: SyntaxKind) -> (r: bool)
    ensures
        r == spec_is_expression_kind(kind),
{
    match kind {
        SyntaxKind::Expression | SyntaxKind::NameExpression | SyntaxKind::LiteralExpression
        | SyntaxKind::ParenthesizedExpression | SyntaxKind::UnaryExpression | SyntaxKind::BinaryExpression
        | SyntaxKind::AssignmentExpression | SyntaxKind::TernaryExpression | SyntaxKind::CallExpression
        | SyntaxKind::NamedArgument | SyntaxKind::MemberAccessExpression | SyntaxKind::IndexExpression
        | SyntaxKind::CastExpression | SyntaxKind::PostfixExpression | SyntaxKind::NewExpression
        | SyntaxKind::InitializerExpression => true,
        _ => false,
    }
}

/// The expression that `node` is, if its kind is an expression kind.
pub open spec fn spec_expression<'source, 'tree>(source: &'source str, node: &'tree SyntaxNode) -> Option<
    Expression<'source, 'tree>,
> {
    if !spec_is_expression_kind(node.kind) {
        None
    } else {
        let view = ExpressionNode { source, node };
        Some(
            match node.kind {
                SyntaxKind::NameExpression => Expression::Name(view),
                SyntaxKind::LiteralExpression => Expression::Literal(view),
                SyntaxKind::CallExpression => Expression::Call(view),
                SyntaxKind::MemberAccessExpression => Expression::MemberAccess(view),
                SyntaxKind::IndexExpression => Expression::Index(view),
                SyntaxKind::CastExpression => Expression::Cast(view),
                SyntaxKind::NewExpression => Expression::New(view),
                SyntaxKind::UnaryExpression | SyntaxKind::PostfixExpression => Expression::Unary(view),
                SyntaxKind::BinaryExpression => Expression::Binary(view),
                SyntaxKind::AssignmentExpression => Expression::Assignment(view),
                SyntaxKind::TernaryExpression => Expression::Ternary(view),
                SyntaxKind::InitializerExpression => Expression::Initializer(view),
                SyntaxKind::ParenthesizedExpression => Expression::Parenthesized(view),
                _ => Expression::Unknown(view),
            },
        )
    }
}

/// The node view of an expression.
pub open spec fn spec_expression_node<'source, 'tree>(e: Expression<'source, 'tree>) -> ExpressionNode<'source, 'tree> {
    match e {
        Expression::Name(n) | Expression::Literal(n) | Expression::Call(n) | Expression::MemberAccess(n)
        | Expression::Index(n) | Expression::Cast(n) | Expression::New(n) | Expression::Unary(n)
        | Expression::Binary(n) | Expression::Assignment(n) | Expression::Ternary(n) | Expression::Initializer(n)
        | Expression::Parenthesized(n) | Expression::Unknown(n) => n,
    }
}

/// The kind of an expression.
pub open spec fn spec_expression_kind(e: Expression) -> ExpressionKind {
    match e {
        Expression::Name(_) => ExpressionKind::Name,
        Expression::Literal(_) => ExpressionKind::Literal,
        Expression::Call(_) => ExpressionKind::Call,
        Expression::MemberAccess(_) => ExpressionKind::MemberAccess,
        Expression::Index(_) => ExpressionKind::Index,
        Expression::Cast(_) => ExpressionKind::Cast,
        Expression::New(_) => ExpressionKind::New,
        Expression::Unary(_) => ExpressionKind::Unary,
        Expression::Binary(_) => ExpressionKind::Binary,
        Expression::Assignment(_) => ExpressionKind::Assignment,
        Expression::Ternary(_) => ExpressionKind::Ternary,
        Expression::Initializer(_) => ExpressionKind::Initializer,
        Expression::Parenthesized(_) => ExpressionKind::Parenthesized,
        Expression::Unknown(_) => ExpressionKind::Unknown,
    }
}

/// The first child node that is an expression.
pub open spec fn first_expression_among<'source, 'tree>(source: &'source str, children: Seq<SyntaxElement>) -> Option<
    Expression<'source, 'tree>,
>
    decreases children.len(),
{
    if children.len() == 0 {
        None
    } else {
        match children[0] {
            SyntaxElement::Node(n) if spec_expression(source, &*n) is Some => spec_expression(source, &*n),
            _ => first_expression_among(source, children.drop_first()),
        }
    }
}

/// The node itself if it is an expression, else the first expression found
/// depth first below it.
pub open spec fn first_expression_descendant<'source, 'tree>(source: &'source str, node: &'tree SyntaxNode) -> Option<
    Expression<'source, 'tree>,
>
    decreases *node, 1nat,
{
    if spec_expression(source, node) is Some {
        spec_expression(source, node)
    } else {
        first_descendant_among(source, node.children@)
    }
}

/// The first expression found depth first among `children`.
pub open spec fn first_descendant_among<'source, 'tree>(source: &'source str, children: Seq<SyntaxElement>) -> Option<
    Expression<'source, 'tree>,
>
    decreases children, 0nat,
{
    if children.len() == 0 {
        None
    } else {
        let here = match children[0] {
            SyntaxElement::Node(n) => first_expression_descendant(source, &*n),
            SyntaxElement::Token(_) => None,
        };
        if here is Some {
            here
        } else {
            first_descendant_among(source, children.drop_first())
        }
    }
}

/// The name of the last `NameExpression` child that has one.
pub open spec fn last_member_name<'a>(source: &'a str, children: Seq<SyntaxElement>) -> Option<TextValue<'a>>
    decreases children.len(),
{
    if children.len() == 0 {
        None
    } else {
        let here = match children.last() {
            SyntaxElement::Node(n) if n.kind == SyntaxKind::NameExpression => spec_name_text(source, *n),
            _ => None,
        };
        if here is Some {
            here
        } else {
            last_member_name(source, children.drop_last())
        }
    }
}

/// The name text of a name or literal expression: its first non-trivia
/// direct token.
pub open spec fn spec_name_text<'a>(source: &'a str, node: SyntaxNode) -> Option<TextValue<'a>> {
    if node.kind == SyntaxKind::NameExpression || node.kind == SyntaxKind::LiteralExpression {
        let tokens = non_trivia(direct_tokens(node.children@));
        if tokens.len() > 0 {
            Some(text_value(source, tokens[0].span))
        } else {
            None
        }
    } else {
        None
    }
}

/// The callee of a call: the first child node, other than the argument
/// list, that is or holds an expression.
pub open spec fn callee_among<'source, 'tree>(source: &'source str, children: Seq<SyntaxElement>) -> Option<
    Expression<'source, 'tree>,
>
    decreases children.len(),
{
    if children.len() == 0 {
        None
    } else {
        let here = match children[0] {
            SyntaxElement::Node(n) if n.kind == SyntaxKind::ArgumentList => None,
            SyntaxElement::Node(n) => first_expression_descendant(source, &*n),
            SyntaxElement::Token(_) => None,
        };
        if here is Some {
            here
        } else {
            callee_among(source, children.drop_first())
        }
    }
}

/// The expression of an argument: for a named argument, its first
/// expression child other than the label.
pub open spec fn argument_expression<'source, 'tree>(source: &'source str, node: &'tree SyntaxNode) -> Option<
    Expression<'source, 'tree>,
> {
    if node.kind == SyntaxKind::NamedArgument {
        first_non_label_expression(source, node.children@)
    } else {
        spec_expression(source, node)
    }
}

/// The first expression child that is not a name expression.
pub open spec fn first_non_label_expression<'source, 'tree>(source: &'source str, children: Seq<SyntaxElement>) -> Option<
    Expression<'source, 'tree>,
>
    decreases children.len(),
{
    if children.len() == 0 {
        None
    } else {
        match children[0] {
            SyntaxElement::Node(n) if n.kind != SyntaxKind::NameExpression && spec_expression(source, &*n) is Some =>
                spec_expression(source, &*n),
            _ => first_non_label_expression(source, children.drop_first()),
        }
    }
}

/// The argument expressions among an argument list's children.
pub open spec fn arguments_among<'source, 'tree>(source: &'source str, children: Seq<SyntaxElement>) -> Seq<
    Expression<'source, 'tree>,
>
    decreases children.len(),
{
    if children.len() == 0 {
        Seq::empty()
    } else {
        let rest = arguments_among(source, children.drop_last());
        match children.last() {
            SyntaxElement::Node(n) => match argument_expression(source, &*n) {
                Some(e) => rest.push(e),
                None => rest,
            },
            SyntaxElement::Token(_) => rest,
        }
    }
}

/// The expressions among the child nodes, in order.
pub open spec fn expressions_among<'source, 'tree>(source: &'source str, children: Seq<SyntaxElement>) -> Seq<
    Expression<'source, 'tree>,
>
    decreases children.len(),
{
    if children.len() == 0 {
        Seq::empty()
    } else {
        let rest = expressions_among(source, children.drop_last());
        match children.last() {
            SyntaxElement::Node(n) => match spec_expression(source, &*n) {
                Some(e) => rest.push(e),
                None => rest,
            },
            SyntaxElement::Token(_) => rest,
        }
    }
}

fn expression_from_node<'source, 'tree>(source: &'source str, node: &'tree SyntaxNode) -> (r: Option<
    Expression<'source, 'tree>,
>)
    ensures
        r == spec_expression(source, node),
{
    if !is_expression_syntax_kind(node.kind) {
        return None;
    }
    let view = ExpressionNode { source, node };
    Some(
        match node.kind {
            SyntaxKind::NameExpression => Expression::Name(view),
            SyntaxKind::LiteralExpression => Expression::Literal(view),
            SyntaxKind::CallExpression => Expression::Call(view),
            SyntaxKind::MemberAccessExpression => Expression::MemberAccess(view),
            SyntaxKind::IndexExpression => Expression::Index(view),
            SyntaxKind::CastExpression => Expression::Cast(view),
            SyntaxKind::NewExpression => Expression::New(view),
            SyntaxKind::UnaryExpression | SyntaxKind::PostfixExpression => Expression::Unary(view),
            SyntaxKind::BinaryExpression => Expression::Binary(view),
            SyntaxKind::AssignmentExpression => Expression::Assignment(view),
            SyntaxKind::TernaryExpression => Expression::Ternary(view),
            SyntaxKind::InitializerExpression => Expression::Initializer(view),
            SyntaxKind::ParenthesizedExpression => Expression::Parenthesized(view),
            _ => Expression::Unknown(view),
        },
    )
}

fn find_first_expression_child<'source, 'tree>(source: &'source str, node: &'tree SyntaxNode) -> (r: Option<
    Expression<'source, 'tree>,
>)
    ensures
        r == first_expression_among(source, node.children@),
{
    let mut i: usize = 0;
    assert(node.children@.skip(0) =~= node.children@);
    while i < node.children.len()
        invariant
            i <= node.children@.len(),
            first_expression_among(source, node.children@) == first_expression_among(
                source,
                node.children@.skip(i as int),
            ),
        decreases node.children@.len() - i,
    {
        assert(node.children@.skip(i as int).drop_first() =~= node.children@.skip(i + 1));
        assert(node.children@.skip(i as int)[0] == node.children@[i as int]);
        match &node.children[i] {
            SyntaxElement::Node(n) => {
                let e = expression_from_node(source, n);
                if e.is_some() {
                    return e;
                }
            },
            SyntaxElement::Token(_) => {},
        }
        i = i + 1;
    }
    None
}

fn find_first_expression_descendant<'source, 'tree>(source: &'source str, node: &'tree SyntaxNode) -> (r: Option<
    Expression<'source, 'tree>,
>)
    ensures
        r == first_expression_descendant(source, node),
    decreases *node,
{
    let e = expression_from_node(source, node);
    if e.is_some() {
        return e;
    }
    let mut i: usize = 0;
    assert(node.children@.skip(0) =~= node.children@);
    while i < node.children.len()
        invariant
            i <= node.children@.len(),
            first_expression_descendant(source, node) == first_descendant_among(source, node.children@.skip(i as int)),
        decreases node.children@.len() - i,
    {
        assert(node.children@.skip(i as int).drop_first() =~= node.children@.skip(i + 1));
        assert(node.children@.skip(i as int)[0] == node.children@[i as int]);
        match &node.children[i] {
            SyntaxElement::Node(n) => {
                assert(decreases_to!(*node => node.children));
                let d = find_first_expression_descendant(source, n);
                if d.is_some() {
                    return d;
                }
            },
            SyntaxElement::Token(_) => {},
        }
        i = i + 1;
    }
    None
}

impl<'source, 'tree> ExpressionNode<'source, 'tree> {
    pub fn syntax_node(&self) -> (r: &'tree SyntaxNode)
        ensures
            r == self.node,
    {
        self.node
    }

    pub fn span(&self) -> (r: TextSpan)
        ensures
            r == self.node.span,
    {
        self.node.span
    }

    /// The span of the name, for name and literal expressions; otherwise
    /// the whole node.
    pub fn selection_span(&self) -> (r: TextSpan)
        ensures
            r == match spec_name_text(self.source, *self.node) {
                Some(v) => v.spec_span(),
                None => self.node.span,
            },
    {
        match self.name_text() {
            Some(v) => v.span,
            None => self.node.span,
        }
    }

    pub fn source_text(&self) -> (r: &'source str)
        requires
            valid_span(self.source, self.node.span),
        ensures
            r@ == span_chars(self.source, self.node.span),
    {
        span_text(self.source, self.node.span)
    }

    /// The first non-trivia token of a name or literal expression.
    pub fn name_text(&self) -> (r: Option<TextValue<'source>>)
        ensures
            r == spec_name_text(self.source, *self.node),
    {
        match self.node.kind {
            SyntaxKind::NameExpression | SyntaxKind::LiteralExpression => {
                let direct = node_direct_tokens(self.node);
                let tokens = non_trivia_tokens(&direct);
                if tokens.len() > 0 {
                    Some(make_text_value(self.source, tokens[0].span))
                } else {
                    None
                }
            },
            _ => None,
        }
    }

    /// The first child expression of a member access, index or call.
    pub fn receiver(&self) -> (r: Option<Expression<'source, 'tree>>)
        ensures
            r == match self.node.kind {
                SyntaxKind::MemberAccessExpression | SyntaxKind::IndexExpression | SyntaxKind::CallExpression =>
                    first_expression_among(self.source, self.node.children@),
                _ => None,
            },
    {
        match self.node.kind {
            SyntaxKind::MemberAccessExpression | SyntaxKind::IndexExpression | SyntaxKind::CallExpression =>
                find_first_expression_child(self.source, self.node),
            _ => None,
        }
    }

    /// The member name of a member access: the last name expression child.
    pub fn member_name(&self) -> (r: Option<TextValue<'source>>)
        ensures
            r == if self.node.kind == SyntaxKind::MemberAccessExpression {
                last_member_name(self.source, self.node.children@)
            } else {
                None
            },
    {
        if self.node.kind != SyntaxKind::MemberAccessExpression {
            return None;
        }
        let children = &self.node.children;
        let mut i: usize = children.len();
        assert(children@.take(children@.len() as int) =~= children@);
        while i > 0
            invariant
                i <= children@.len(),
                self.node.kind == SyntaxKind::MemberAccessExpression,
                children@ == self.node.children@,
                last_member_name(self.source, children@) == last_member_name(self.source, children@.take(i as int)),
            decreases i,
        {
            assert(children@.take(i as int).drop_last() =~= children@.take(i - 1));
            assert(children@.take(i as int).last() == children@[i - 1]);
            match &children[i - 1] {
                SyntaxElement::Node(n) => {
                    if n.kind == SyntaxKind::NameExpression {
                        let view = ExpressionNode { source: self.source, node: n };
                        let name = view.name_text();
                        if name.is_some() {
                            return name;
                        }
                    }
                },
                SyntaxElement::Token(_) => {},
            }
            i = i - 1;
        }
        None
    }

    /// The callee of a call expression.
    pub fn callee(&self) -> (r: Option<Expression<'source, 'tree>>)
        ensures
            r == if self.node.kind == SyntaxKind::CallExpression {
                callee_among(self.source, self.node.children@)
            } else {
                None
            },
    {
        if self.node.kind != SyntaxKind::CallExpression {
            return None;
        }
        let children = &self.node.children;
        let mut i: usize = 0;
        assert(children@.skip(0) =~= children@);
        while i < children.len()
            invariant
                i <= children@.len(),
                self.node.kind == SyntaxKind::CallExpression,
                children@ == self.node.children@,
                callee_among(self.source, children@) == callee_among(self.source, children@.skip(i as int)),
            decreases children@.len() - i,
        {
            assert(children@.skip(i as int).drop_first() =~= children@.skip(i + 1));
            assert(children@.skip(i as int)[0] == children@[i as int]);
            match &children[i] {
                SyntaxElement::Node(n) => {
                    if n.kind != SyntaxKind::ArgumentList {
                        let d = find_first_expression_descendant(self.source, n);
                        if d.is_some() {
                            return d;
                        }
                    }
                },
                SyntaxElement::Token(_) => {},
            }
            i = i + 1;
        }
        None
    }

    /// The argument expressions of the first argument list.
    pub fn arguments(&self) -> (r: Vec<Expression<'source, 'tree>>)
        ensures
            r@ == match first_child_node(self.node.children@, SyntaxKind::ArgumentList) {
                Some(list) => arguments_among(self.source, list.children@),
                None => Seq::empty(),
            },
    {
        let mut r: Vec<Expression<'source, 'tree>> = Vec::new();
        let list = match find_child_node(self.node, SyntaxKind::ArgumentList) {
            Some(l) => l,
            None => return r,
        };
        let mut i: usize = 0;
        while i < list.children.len()
            invariant
                i <= list.children@.len(),
                r@ == arguments_among(self.source, list.children@.take(i as int)),
            decreases list.children@.len() - i,
        {
            proof {
                assert(list.children@.take(i + 1).drop_last() =~= list.children@.take(i as int));
            }
            match &list.children[i] {
                SyntaxElement::Node(n) => {
                    let arg = if n.kind == SyntaxKind::NamedArgument {
                        let mut found: Option<Expression<'source, 'tree>> = None;
                        let mut j: usize = 0;
                        assert(n.children@.skip(0) =~= n.children@);
                        while j < n.children.len()
                            invariant_except_break
                                j <= n.children@.len(),
                                found is None,
                                first_non_label_expression(self.source, n.children@) == first_non_label_expression(
                                    self.source,
                                    n.children@.skip(j as int),
                                ),
                            ensures
                                found == first_non_label_expression(self.source, n.children@),
                            decreases n.children@.len() - j,
                        {
                            assert(n.children@.skip(j as int).drop_first() =~= n.children@.skip(j + 1));
                            assert(n.children@.skip(j as int)[0] == n.children@[j as int]);
                            match &n.children[j] {
                                SyntaxElement::Node(c) => {
                                    if c.kind != SyntaxKind::NameExpression {
                                        let e = expression_from_node(self.source, c);
                                        if e.is_some() {
                                            found = e;
                                            break;
                                        }
                                    }
                                },
                                SyntaxElement::Token(_) => {},
                            }
                            j = j + 1;
                        }
                        found
                    } else {
                        expression_from_node(self.source, n)
                    };
                    if let Some(e) = arg {
                        r.push(e);
                    }
                },
                SyntaxElement::Token(_) => {},
            }
            i = i + 1;
        }
        assert(list.children@.take(i as int) =~= list.children@);
        r
    }

    /// The second expression child of an index expression.
    pub fn index_expression(&self) -> (r: Option<Expression<'source, 'tree>>)
        ensures
            r == if self.node.kind == SyntaxKind::IndexExpression && expressions_among(
                self.source,
                self.node.children@,
            ).len() > 1 {
                Some(expressions_among(self.source, self.node.children@)[1])
            } else {
                None
            },
    {
        if self.node.kind != SyntaxKind::IndexExpression {
            return None;
        }
        let mut found: Vec<Expression<'source, 'tree>> = Vec::new();
        let mut i: usize = 0;
        while i < self.node.children.len()
            invariant
                i <= self.node.children@.len(),
                found@ == expressions_among(self.source, self.node.children@.take(i as int)),
            decreases self.node.children@.len() - i,
        {
            proof {
                assert(self.node.children@.take(i + 1).drop_last() =~= self.node.children@.take(i as int));
            }
            match &self.node.children[i] {
                SyntaxElement::Node(n) => {
                    if let Some(e) = expression_from_node(self.source, n) {
                        found.push(e);
                    }
                },
                SyntaxElement::Token(_) => {},
            }
            i = i + 1;
        }
        assert(self.node.children@.take(i as int) =~= self.node.children@);
        if found.len() > 1 {
            Some(found[1])
        } else {
            None
        }
    }
}

impl<'source, 'tree> Expression<'source, 'tree> {
    /// The expression that `node` is, if its kind is an expression kind.
    pub fn from_node(source: &'source str, node: &'tree SyntaxNode) -> (r: Option<Self>)
        ensures
            r == spec_expression(source, node),
    {
        expression_from_node(source, node)
    }

    pub fn kind(&self) -> (r: ExpressionKind)
        ensures
            r == spec_expression_kind(*self),
    {
        match self {
            Expression::Name(_) => ExpressionKind::Name,
            Expression::Literal(_) => ExpressionKind::Literal,
            Expression::Call(_) => ExpressionKind::Call,
            Expression::MemberAccess(_) => ExpressionKind::MemberAccess,
            Expression::Index(_) => ExpressionKind::Index,
            Expression::Cast(_) => ExpressionKind::Cast,
            Expression::New(_) => ExpressionKind::New,
            Expression::Unary(_) => ExpressionKind::Unary,
            Expression::Binary(_) => ExpressionKind::Binary,
            Expression::Assignment(_) => ExpressionKind::Assignment,
            Expression::Ternary(_) => ExpressionKind::Ternary,
            Expression::Initializer(_) => ExpressionKind::Initializer,
            Expression::Parenthesized(_) => ExpressionKind::Parenthesized,
            Expression::Unknown(_) => ExpressionKind::Unknown,
        }
    }

    pub fn node(&self) -> (r: ExpressionNode<'source, 'tree>)
        ensures
            r == spec_expression_node(*self),
    {
        match self {
            Expression::Name(n) | Expression::Literal(n) | Expression::Call(n) | Expression::MemberAccess(n)
            | Expression::Index(n) | Expression::Cast(n) | Expression::New(n) | Expression::Unary(n)
            | Expression::Binary(n) | Expression::Assignment(n) | Expression::Ternary(n)
            | Expression::Initializer(n) | Expression::Parenthesized(n) | Expression::Unknown(n) => *n,
        }
    }

    pub fn span(&self) -> (r: TextSpan)
        ensures
            r == spec_expression_node(*self).node.span,
    {
        self.node().span()
    }

    pub fn selection_span(&self) -> (r: TextSpan)
        ensures
            r == match spec_name_text(spec_expression_node(*self).source, *spec_expression_node(*self).node) {
                Some(v) => v.spec_span(),
                None => spec_expression_node(*self).node.span,
            },
    {
        self.node().selection_span()
    }

    pub fn source_text(&self) -> (r: &'source str)
        requires
            valid_span(spec_expression_node(*self).source, spec_expression_node(*self).node.span),
        ensures
            r@ == span_chars(spec_expression_node(*self).source, spec_expression_node(*self).node.span),
    {
        self.node().source_text()
    }

    pub fn name_text(&self) -> (r: Option<TextValue<'source>>)
        ensures
            r == spec_name_text(spec_expression_node(*self).source, *spec_expression_node(*self).node),
    {
        self.node().name_text()
    }

    pub fn receiver(&self) -> (r: Option<Expression<'source, 'tree>>)
        ensures
            r == match spec_expression_node(*self).node.kind {
                SyntaxKind::MemberAccessExpression | SyntaxKind::IndexExpression | SyntaxKind::CallExpression =>
                    first_expression_among(spec_expression_node(*self).source, spec_expression_node(*self).node.children@),
                _ => None,
            },
    {
        self.node().receiver()
    }

    pub fn member_name(&self) -> (r: Option<TextValue<'source>>)
        ensures
            r == if spec_expression_node(*self).node.kind == SyntaxKind::MemberAccessExpression {
                last_member_name(spec_expression_node(*self).source, spec_expression_node(*self).node.children@)
            } else {
                None
            },
    {
        self.node().member_name()
    }

    pub fn callee(&self) -> (r: Option<Expression<'source, 'tree>>)
        ensures
            r == if spec_expression_node(*self).node.kind == SyntaxKind::CallExpression {
                callee_among(spec_expression_node(*self).source, spec_expression_node(*self).node.children@)
            } else {
                None
            },
    {
        self.node().callee()
    }

    pub fn arguments(&self) -> (r: Vec<Expression<'source, 'tree>>)
        ensures
            r@ == match first_child_node(spec_expression_node(*self).node.children@, SyntaxKind::ArgumentList) {
                Some(list) => arguments_among(spec_expression_node(*self).source, list.children@),
                None => Seq::empty(),
            },
    {
        self.node().arguments()
    }

    pub fn index_expression(&self) -> (r: Option<Expression<'source, 'tree>>)
        ensures
            r == if spec_expression_node(*self).node.kind == SyntaxKind::IndexExpression && expressions_among(
                spec_expression_node(*self).source,
                spec_expression_node(*self).node.children@,
            ).len() > 1 {
                Some(expressions_among(spec_expression_node(*self).source, spec_expression_node(*self).node.children@)[1])
            } else {
                None
            },
    {
        self.node().index_expression()
    }

    /// Expressions carry no declared type of their own.
    pub fn return_like_type_text(&self) -> (r: Option<TextValue<'source>>)
        ensures
            r is None,
    {
        None
    }
}

} // verus!

verus! {

// ---------------------------------------------------------------------------
// Lookups by position

/// The number of bytes of a span (zero when inverted).
pub open spec fn span_len(s: TextSpan) -> int {
    if s.start <= s.end {
        s.end - s.start
    } else {
        0
    }
}

/// `offset` lies in `span`.
pub open spec fn span_contains_offset(span: TextSpan, offset: usize) -> bool {
    span.start <= offset && offset < span.end
}

/// `inner` lies in `outer`.
pub open spec fn span_contains_span(outer: TextSpan, inner: TextSpan) -> bool {
    outer.start <= inner.start && inner.end <= outer.end
}

/// `candidate` replaces `best` when there is none or it is strictly shorter.
pub open spec fn shorter<'source, 'tree>(candidate: Expression<'source, 'tree>, best: Option<Expression<'source, 'tree>>) -> bool {
    match best {
        Some(b) => span_len(spec_expression_node(candidate).node.span) < span_len(spec_expression_node(b).node.span),
        None => true,
    }
}

/// Pre-order walk below `node` keeping the shortest expression that holds
/// `offset`, starting from `best`.
pub open spec fn smallest_in<'source, 'tree>(
    source: &'source str,
    node: &'tree SyntaxNode,
    offset: usize,
    best: Option<Expression<'source, 'tree>>,
) -> Option<Expression<'source, 'tree>>
    decreases *node, 1nat,
{
    if !span_contains_offset(node.span, offset) {
        best
    } else {
        let b1 = match spec_expression(source, node) {
            Some(e) => if shorter(e, best) {
                Some(e)
            } else {
                best
            },
            None => best,
        };
        smallest_among(source, node.children@, offset, b1)
    }
}

/// The walk of `smallest_in` over a sequence of siblings.
pub open spec fn smallest_among<'source, 'tree>(
    source: &'source str,
    children: Seq<SyntaxElement>,
    offset: usize,
    best: Option<Expression<'source, 'tree>>,
) -> Option<Expression<'source, 'tree>>
    decreases children, 0nat,
{
    if children.len() == 0 {
        best
    } else {
        let b = match children[0] {
            SyntaxElement::Node(n) => smallest_in(source, &*n, offset, best),
            SyntaxElement::Token(_) => best,
        };
        smallest_among(source, children.drop_first(), offset, b)
    }
}

fn collect_smallest_expression<'source, 'tree>(
    source: &'source str,
    node: &'tree SyntaxNode,
    offset: usize,
    best: &mut Option<Expression<'source, 'tree>>,
)
    ensures
        *final(best) == smallest_in(source, node, offset, *old(best)),
    decreases *node,
{
    if !(node.span.start <= offset && offset < node.span.end) {
        return;
    }
    if let Some(e) = expression_from_node(source, node) {
        let replace = match best {
            Some(b) => e.span().len() < b.span().len(),
            None => true,
        };
        if replace {
            *best = Some(e);
        }
    }
    let ghost answer = smallest_in(source, node, offset, *old(best));
    let mut i: usize = 0;
    assert(node.children@.skip(0) =~= node.children@);
    while i < node.children.len()
        invariant
            i <= node.children@.len(),
            answer == smallest_among(source, node.children@.skip(i as int), offset, *best),
        decreases node.children@.len() - i,
    {
        assert(node.children@.skip(i as int).drop_first() =~= node.children@.skip(i + 1));
        assert(node.children@.skip(i as int)[0] == node.children@[i as int]);
        match &node.children[i] {
            SyntaxElement::Node(n) => {
                assert(decreases_to!(*node => node.children));
                collect_smallest_expression(source, n, offset, best);
            },
            SyntaxElement::Token(_) => {},
        }
        i = i + 1;
    }
}

/// The shortest expression under `root` whose span holds `offset`; the
/// first such one met in pre-order among equally short ones.
pub fn smallest_expression_at_offset<'source, 'tree>(source: &'source str, root: &'tree SyntaxNode, offset: usize) -> (r:
    Option<Expression<'source, 'tree>>)
    ensures
        r == smallest_in(source, root, offset, None),
{
    let mut best: Option<Expression<'source, 'tree>> = None;
    collect_smallest_expression(source, root, offset, &mut best);
    best
}

/// The member-access candidate that `node` offers for a member name at
/// `token_span`.
pub open spec fn member_access_candidate<'source, 'tree>(
    source: &'source str,
    node: &'tree SyntaxNode,
    token_span: TextSpan,
) -> Option<MemberAccessExpression<'source, 'tree>> {
    if node.kind == SyntaxKind::MemberAccessExpression {
        let e = spec_expression(source, node).unwrap();
        let receiver = first_expression_among(source, node.children@);
        let member = last_member_name(source, node.children@);
        if receiver is Some && member is Some && member.unwrap().spec_span() == token_span {
            Some(MemberAccessExpression { expression: e, receiver: receiver.unwrap(), member_name: member.unwrap() })
        } else {
            None
        }
    } else {
        None
    }
}

/// Pre-order walk keeping the shortest member access whose member name is
/// exactly at `token_span`.
pub open spec fn member_access_in<'source, 'tree>(
    source: &'source str,
    node: &'tree SyntaxNode,
    token_span: TextSpan,
    best: Option<MemberAccessExpression<'source, 'tree>>,
) -> Option<MemberAccessExpression<'source, 'tree>>
    decreases *node, 1nat,
{
    if !span_contains_span(node.span, token_span) {
        best
    } else {
        let b1 = match member_access_candidate(source, node, token_span) {
            Some(c) => if best is None || span_len(spec_expression_node(c.expression).node.span) < span_len(
                spec_expression_node(best.unwrap().expression).node.span,
            ) {
                Some(c)
            } else {
                best
            },
            None => best,
        };
        member_access_among(source, node.children@, token_span, b1)
    }
}

/// The walk of `member_access_in` over a sequence of siblings.
pub open spec fn member_access_among<'source, 'tree>(
    source: &'source str,
    children: Seq<SyntaxElement>,
    token_span: TextSpan,
    best: Option<MemberAccessExpression<'source, 'tree>>,
) -> Option<MemberAccessExpression<'source, 'tree>>
    decreases children, 0nat,
{
    if children.len() == 0 {
        best
    } else {
        let b = match children[0] {
            SyntaxElement::Node(n) => member_access_in(source, &*n, token_span, best),
            SyntaxElement::Token(_) => best,
        };
        member_access_among(source, children.drop_first(), token_span, b)
    }
}

fn collect_member_access<'source, 'tree>(
    source: &'source str,
    node: &'tree SyntaxNode,
    token_span: TextSpan,
    best: &mut Option<MemberAccessExpression<'source, 'tree>>,
)
    ensures
        *final(best) == member_access_in(source, node, token_span, *old(best)),
    decreases *node,
{
    if !(node.span.start <= token_span.start && token_span.end <= node.span.end) {
        return;
    }
    if node.kind == SyntaxKind::MemberAccessExpression {
        if let Some(expression) = expression_from_node(source, node) {
            let view = ExpressionNode { source, node };
            if let (Some(receiver), Some(member_name)) = (view.receiver(), view.member_name()) {
                if member_name.span == token_span {
                    let candidate = MemberAccessExpression { expression, receiver, member_name };
                    let replace = match best {
                        Some(b) => expression.span().len() < b.expression.span().len(),
                        None => true,
                    };
                    if replace {
                        *best = Some(candidate);
                    }
                }
            }
        }
    }
    let ghost answer = member_access_in(source, node, token_span, *old(best));
    let mut i: usize = 0;
    assert(node.children@.skip(0) =~= node.children@);
    while i < node.children.len()
        invariant
            i <= node.children@.len(),
            answer == member_access_among(source, node.children@.skip(i as int), token_span, *best),
        decreases node.children@.len() - i,
    {
        assert(node.children@.skip(i as int).drop_first() =~= node.children@.skip(i + 1));
        assert(node.children@.skip(i as int)[0] == node.children@[i as int]);
        match &node.children[i] {
            SyntaxElement::Node(n) => {
                assert(decreases_to!(*node => node.children));
                collect_member_access(source, n, token_span, best);
            },
            SyntaxElement::Token(_) => {},
        }
        i = i + 1;
    }
}

/// The shortest member access under `root` whose member name is the token
/// at `token_span`.
pub fn member_access_for_member_name_at_offset<'source, 'tree>(
    source: &'source str,
    root: &'tree SyntaxNode,
    token_span: TextSpan,
) -> (r: Option<MemberAccessExpression<'source, 'tree>>)
    ensures
        r == member_access_in(source, root, token_span, None),
{
    let mut best: Option<MemberAccessExpression<'source, 'tree>> = None;
    collect_member_access(source, root, token_span, &mut best);
    best
}

/// Scans a named argument's children for the label at `token_span`: the
/// answer is `Some(seen)` when a `:` ends the scan (with the label seen so
/// far), `None` when there is no `:`.
pub open spec fn label_scan<'a>(
    source: &'a str,
    children: Seq<SyntaxElement>,
    token_span: TextSpan,
    seen: Option<TextValue<'a>>,
) -> Option<Option<TextValue<'a>>>
    decreases children.len(),
{
    if children.len() == 0 {
        None
    } else {
        let rest = children.drop_first();
        match children[0] {
            SyntaxElement::Token(t) => if t.span == token_span && spec_is_name_token(t.kind) {
                label_scan(source, rest, token_span, Some(text_value(source, t.span)))
            } else if t.kind == TokenKind::Colon {
                Some(seen)
            } else {
                label_scan(source, rest, token_span, seen)
            },
            SyntaxElement::Node(n) => if n.kind == SyntaxKind::NameExpression && spec_name_text(source, *n) is Some
                && spec_name_text(source, *n).unwrap().spec_span() == token_span {
                label_scan(source, rest, token_span, spec_name_text(source, *n))
            } else {
                label_scan(source, rest, token_span, seen)
            },
        }
    }
}

/// Pre-order walk for the first named argument whose label is at
/// `token_span`.
pub open spec fn named_label_in<'a>(
    source: &'a str,
    node: SyntaxNode,
    token_span: TextSpan,
    result: Option<NamedArgumentLabel<'a>>,
) -> Option<NamedArgumentLabel<'a>>
    decreases node, 1nat,
{
    if result is Some || !span_contains_span(node.span, token_span) {
        result
    } else if node.kind == SyntaxKind::NamedArgument && label_scan(source, node.children@, token_span, None) is Some {
        match label_scan(source, node.children@, token_span, None).unwrap() {
            Some(name) => Some(NamedArgumentLabel { name }),
            None => result,
        }
    } else {
        named_label_among(source, node.children@, token_span, result)
    }
}

/// The walk of `named_label_in` over a sequence of siblings.
pub open spec fn named_label_among<'a>(
    source: &'a str,
    children: Seq<SyntaxElement>,
    token_span: TextSpan,
    result: Option<NamedArgumentLabel<'a>>,
) -> Option<NamedArgumentLabel<'a>>
    decreases children, 0nat,
{
    if children.len() == 0 {
        result
    } else {
        let r = match children[0] {
            SyntaxElement::Node(n) => named_label_in(source, *n, token_span, result),
            SyntaxElement::Token(_) => result,
        };
        named_label_among(source, children.drop_first(), token_span, r)
    }
}

fn collect_named_label<'a>(
    source: &'a str,
    node: &SyntaxNode,
    token_span: TextSpan,
    result: &mut Option<NamedArgumentLabel<'a>>,
)
    ensures
        *final(result) == named_label_in(source, *node, token_span, *old(result)),
    decreases *node,
{
    if result.is_some() || !(node.span.start <= token_span.start && token_span.end <= node.span.end) {
        return;
    }
    if node.kind == SyntaxKind::NamedArgument {
        let mut seen: Option<TextValue<'a>> = None;
        let mut j: usize = 0;
        assert(node.children@.skip(0) =~= node.children@);
        while j < node.children.len()
            invariant
                j <= node.children@.len(),
                (*result) is None,
                *old(result) is None,
                span_contains_span(node.span, token_span),
                node.kind == SyntaxKind::NamedArgument,
                label_scan(source, node.children@, token_span, None) == label_scan(
                    source,
                    node.children@.skip(j as int),
                    token_span,
                    seen,
                ),
            decreases node.children@.len() - j,
        {
            assert(node.children@.skip(j as int).drop_first() =~= node.children@.skip(j + 1));
            assert(node.children@.skip(j as int)[0] == node.children@[j as int]);
            match &node.children[j] {
                SyntaxElement::Token(t) => {
                    if t.span == token_span && is_name_token(t.kind) {
                        seen = Some(make_text_value(source, t.span));
                    } else if t.kind == TokenKind::Colon {
                        if let Some(name) = seen {
                            *result = Some(NamedArgumentLabel { name });
                        }
                        return;
                    }
                },
                SyntaxElement::Node(c) => {
                    if c.kind == SyntaxKind::NameExpression {
                        let view = ExpressionNode { source, node: c };
                        if let Some(name) = view.name_text() {
                            if name.span == token_span {
                                seen = Some(name);
                            }
                        }
                    }
                },
            }
            j = j + 1;
        }
    }
    let ghost answer = named_label_in(source, *node, token_span, *old(result));
    let mut i: usize = 0;
    assert(node.children@.skip(0) =~= node.children@);
    while i < node.children.len()
        invariant
            i <= node.children@.len(),
            answer == named_label_among(source, node.children@.skip(i as int), token_span, *result),
        decreases node.children@.len() - i,
    {
        assert(node.children@.skip(i as int).drop_first() =~= node.children@.skip(i + 1));
        assert(node.children@.skip(i as int)[0] == node.children@[i as int]);
        match &node.children[i] {
            SyntaxElement::Node(n) => {
                assert(decreases_to!(*node => node.children));
                collect_named_label(source, n, token_span, result);
            },
            SyntaxElement::Token(_) => {},
        }
        i = i + 1;
    }
}

/// The label of the first named argument under `root`, in pre-order,
/// whose label token is at `token_span`.
pub fn named_argument_label_at_offset<'a>(source: &'a str, root: &SyntaxNode, token_span: TextSpan) -> (r: Option<
    NamedArgumentLabel<'a>,
>)
    ensures
        r == named_label_in(source, *root, token_span, None),
{
    let mut result: Option<NamedArgumentLabel<'a>> = None;
    collect_named_label(source, root, token_span, &mut result);
    result
}

} // verus!
