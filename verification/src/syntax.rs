//! Lexical tokens and the concrete syntax tree of a parsed source file.
//!
//! Every node records its kind, the byte span it covers and its children in
//! source order; tokens (trivia included) are leaves.
use vstd::prelude::*;
use crate::model::TextSpan;

verus! {

/// Reserved words of the language.
#[derive(Debug, Clone, Copy, PartialEq, Eq, Structural, Hash)]
pub enum Keyword {
    Auto,
    Autoptr,
    Bool,
    Break,
    Case,
    Class,
    Const,
    Continue,
    Default,
    Delete,
    Else,
    Enum,
    Event,
    External,
    False,
    Float,
    For,
    Foreach,
    If,
    Inout,
    Int,
    Modded,
    Native,
    New,
    Notnull,
    Null,
    Out,
    Override,
    Owned,
    Private,
    Protected,
    Proto,
    Ref,
    Return,
    Sealed,
    Static,
    String,
    Super,
    Switch,
    This,
    True,
    Typedef,
    Typename,
    Vector,
    Void,
    Volatile,
    While,
}

/// Operator tokens.
#[derive(Debug, Clone, Copy, PartialEq, Eq, Structural, Hash)]
pub enum Operator {
    Equal,
    EqualEqual,
    NotEqual,
    Less,
    LessEqual,
    Greater,
    GreaterEqual,
    GreaterGreater,
    LessLess,
    Plus,
    Minus,
    Star,
    Slash,
    Percent,
    Bang,
    Tilde,
    Amp,
    AmpAmp,
    Pipe,
    PipePipe,
    Caret,
    Question,
    PlusPlus,
    MinusMinus,
    PlusEqual,
    MinusEqual,
    StarEqual,
    SlashEqual,
}

/// The kind of a lexical token.
#[derive(Debug, Clone, Copy, PartialEq, Eq, Structural, Hash)]
pub enum TokenKind {
    Whitespace,
    LineComment,
    BlockComment,
    DocLineComment,
    DocBlockComment,
    Identifier,
    Keyword(Keyword),
    Operator(Operator),
    IntegerLiteral,
    FloatLiteral,
    StringLiteral,
    LeftParen,
    RightParen,
    LeftBracket,
    RightBracket,
    LeftBrace,
    RightBrace,
    Comma,
    Semicolon,
    Colon,
    Dot,
    Hash,
    Unknown,
    Eof,
}

/// Whitespace and comments.
pub open spec fn spec_is_trivia(kind: TokenKind) -> bool {
    match kind {
        TokenKind::Whitespace | TokenKind::LineComment | TokenKind::BlockComment | TokenKind::DocLineComment
        | TokenKind::DocBlockComment => true,
        _ => false,
    }
}

impl TokenKind {
    /// Whitespace and comments, which carry no syntax.
    pub fn is_trivia(&self) -> (r: bool)
        ensures
            r == spec_is_trivia(*self),
    {
        match self {
            TokenKind::Whitespace | TokenKind::LineComment | TokenKind::BlockComment | TokenKind::DocLineComment
            | TokenKind::DocBlockComment => true,
            _ => false,
        }
    }
}

/// One token: its kind and the bytes it covers.
#[derive(Debug, Clone, Copy, PartialEq, Eq, Structural, Hash)]
pub struct Token {
    pub kind: TokenKind,
    pub span: TextSpan,
}

/// The kind of a syntax node.
#[derive(Debug, Clone, Copy, PartialEq, Eq, Structural, Hash)]
pub enum SyntaxKind {
    SourceFile,
    ClassDecl,
    EnumDecl,
    EnumMember,
    TypedefDecl,
    FunctionDecl,
    FieldDecl,
    MethodDecl,
    EmptyDecl,
    AttributeList,
    Attribute,
    ModifierList,
    TypeRef,
    GenericArgList,
    ParameterList,
    Parameter,
    DeclaratorList,
    Declarator,
    Block,
    LocalDeclStatement,
    ExpressionStatement,
    ReturnStatement,
    IfStatement,
    WhileStatement,
    ForStatement,
    ForInitializer,
    ForeachStatement,
    ForeachHeader,
    ForeachVariableList,
    ForeachVariable,
    ForeachIterable,
    ArgumentList,
    NamedArgument,
    Expression,
    NameExpression,
    LiteralExpression,
    ParenthesizedExpression,
    UnaryExpression,
    PostfixExpression,
    BinaryExpression,
    AssignmentExpression,
    TernaryExpression,
    CallExpression,
    MemberAccessExpression,
    IndexExpression,
    CastExpression,
    NewExpression,
    InitializerExpression,
    Error,
}

/// A child of a syntax node.
#[derive(Debug)]
pub enum SyntaxElement {
    Node(Box<SyntaxNode>),
    Token(Token),
}

/// A syntax node: kind, covered bytes and children in source order.
#[derive(Debug)]
pub struct SyntaxNode {
    pub kind: SyntaxKind,
    pub span: TextSpan,
    pub children: Vec<SyntaxElement>,
}

/// A problem the parser found, with the span it concerns.
#[derive(Debug, Clone, PartialEq, Eq)]
pub struct ParseDiagnostic {
    pub message: String,
    pub span: TextSpan,
}

/// A parsed file.
#[derive(Debug)]
pub struct Parse {
    pub root: SyntaxNode,
}

/// The tokens among `children`, in order.
pub open spec fn direct_tokens(children: Seq<SyntaxElement>) -> Seq<Token>
    decreases children.len(),
{
    if children.len() == 0 {
        Seq::empty()
    } else {
        let rest = direct_tokens(children.drop_last());
        match children.last() {
            SyntaxElement::Token(t) => rest.push(t),
            SyntaxElement::Node(_) => rest,
        }
    }
}

/// All tokens under `node`, depth first, in source order.
pub open spec fn all_tokens(node: SyntaxNode) -> Seq<Token>
    decreases node, 1nat,
{
    elements_tokens(node.children@)
}

/// All tokens under the elements of `children`, in order.
pub open spec fn elements_tokens(children: Seq<SyntaxElement>) -> Seq<Token>
    decreases children, 0nat,
{
    if children.len() == 0 {
        Seq::empty()
    } else {
        elements_tokens(children.drop_last()) + match children.last() {
            SyntaxElement::Token(t) => seq![t],
            SyntaxElement::Node(n) => all_tokens(*n),
        }
    }
}

/// The direct tokens of a node.
pub fn node_direct_tokens(node: &SyntaxNode) -> (v: Vec<Token>)
    ensures
        v@ == direct_tokens(node.children@),
{
    let mut v: Vec<Token> = Vec::new();
    let mut i: usize = 0;
    while i < node.children.len()
        invariant
            i <= node.children@.len(),
            v@ == direct_tokens(node.children@.take(i as int)),
        decreases node.children@.len() - i,
    {
        proof {
            assert(node.children@.take(i + 1).drop_last() =~= node.children@.take(i as int));
        }
        match &node.children[i] {
            SyntaxElement::Token(t) => v.push(*t),
            SyntaxElement::Node(_) => {},
        }
        i = i + 1;
    }
    assert(node.children@.take(i as int) =~= node.children@);
    v
}

/// Appends all tokens under `node`, depth first.
pub fn push_all_tokens(node: &SyntaxNode, out: &mut Vec<Token>)
    ensures
        final(out)@ == old(out)@ + all_tokens(*node),
    decreases node,
{
    let ghost start = out@;
    let mut i: usize = 0;
    while i < node.children.len()
        invariant
            i <= node.children@.len(),
            out@ == start + elements_tokens(node.children@.take(i as int)),
        decreases node.children@.len() - i,
    {
        proof {
            assert(node.children@.take(i + 1).drop_last() =~= node.children@.take(i as int));
        }
        match &node.children[i] {
            SyntaxElement::Token(t) => {
                out.push(*t);
            },
            SyntaxElement::Node(n) => {
                assert(decreases_to!(node => node.children));
                push_all_tokens(n, out);
            },
        }
        proof {
            assert(out@ =~= start + elements_tokens(node.children@.take(i + 1)));
        }
        i = i + 1;
    }
    assert(node.children@.take(i as int) =~= node.children@);
}

} // verus!
