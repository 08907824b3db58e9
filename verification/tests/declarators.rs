// Syntax trees are written out by hand here, with spans taken from the
// source text, the way the parser lays them out.
use reforger_language_server::ast::{ClassDecl, FieldDecl, LocalVariableKind, MethodDecl};
use reforger_language_server::declarators::trim_text_span;
use reforger_language_server::model::TextSpan;
use reforger_language_server::syntax::{Keyword, Operator, SyntaxElement, SyntaxKind, SyntaxNode, Token, TokenKind};

struct Cursor<'a> {
    source: &'a str,
    at: usize,
}

impl<'a> Cursor<'a> {
    fn new(source: &'a str) -> Self {
        Cursor { source, at: 0 }
    }

    /// The next occurrence of `text` as a token.
    fn t(&mut self, kind: TokenKind, text: &str) -> SyntaxElement {
        let start = self.at + self.source[self.at..].find(text).expect("token text");
        self.at = start + text.len();
        SyntaxElement::Token(Token { kind, span: TextSpan::new(start, start + text.len()) })
    }
}

fn span_of(children: &[SyntaxElement]) -> TextSpan {
    let spans: Vec<TextSpan> = children
        .iter()
        .map(|c| match c {
            SyntaxElement::Token(t) => t.span,
            SyntaxElement::Node(n) => n.span,
        })
        .collect();
    TextSpan::new(spans.first().map_or(0, |s| s.start), spans.last().map_or(0, |s| s.end))
}

fn n(kind: SyntaxKind, children: Vec<SyntaxElement>) -> SyntaxElement {
    let span = span_of(&children);
    SyntaxElement::Node(Box::new(SyntaxNode { kind, span, children }))
}

fn root(children: Vec<SyntaxElement>) -> SyntaxNode {
    let span = span_of(&children);
    SyntaxNode { kind: SyntaxKind::SourceFile, span, children }
}

fn node_of(e: &SyntaxElement) -> &SyntaxNode {
    match e {
        SyntaxElement::Node(n) => n,
        SyntaxElement::Token(_) => panic!("expected a node"),
    }
}

fn kw(k: Keyword) -> TokenKind {
    TokenKind::Keyword(k)
}

#[test]
fn trims_ascii_and_multibyte_whitespace_from_spans() {
    let source = "  ab c \n";
    assert_eq!(trim_text_span(source, TextSpan::new(0, source.len())), TextSpan::new(2, 6));
    let wide = "\u{3000}é x\u{2028}";
    assert_eq!(trim_text_span(wide, TextSpan::new(0, wide.len())), TextSpan::new(3, 7));
    assert_eq!(trim_text_span(source, TextSpan::new(0, 2)), TextSpan::new(2, 2));
    assert_eq!(trim_text_span(source, TextSpan::new(4, 4)), TextSpan::new(4, 4));
}

#[test]
fn field_declarators_share_the_declared_type() {
    let source = "int a = 1, b;";
    let mut c = Cursor::new(source);
    let type_ref = n(SyntaxKind::TypeRef, vec![c.t(kw(Keyword::Int), "int")]);
    let a = n(
        SyntaxKind::Declarator,
        vec![
            c.t(TokenKind::Identifier, "a"),
            c.t(TokenKind::Whitespace, " "),
            c.t(TokenKind::Operator(Operator::Equal), "="),
            c.t(TokenKind::Whitespace, " "),
            n(SyntaxKind::LiteralExpression, vec![c.t(TokenKind::IntegerLiteral, "1")]),
        ],
    );
    let comma = c.t(TokenKind::Comma, ",");
    let b = n(SyntaxKind::Declarator, vec![c.t(TokenKind::Identifier, "b")]);
    let list = n(SyntaxKind::DeclaratorList, vec![a, comma, b]);
    let field = n(SyntaxKind::FieldDecl, vec![type_ref, list, c.t(TokenKind::Semicolon, ";")]);
    let file = root(vec![field]);
    let decl = FieldDecl { source, container: &file, node: node_of(&file.children[0]) };

    let declarators = decl.declarators();
    assert_eq!(declarators.len(), 2);
    assert_eq!(declarators[0].name().text(), "a");
    assert_eq!(declarators[0].span(), TextSpan::new(4, 5));
    assert_eq!(declarators[0].type_text().unwrap().text(), "int");
    assert_eq!(declarators[1].name().text(), "b");
    assert_eq!(declarators[1].span(), TextSpan::new(11, 12));
    assert_eq!(declarators[1].type_text().unwrap().text(), "int");
    assert_eq!(decl.name().unwrap().text(), "a");
    assert_eq!(decl.type_text().unwrap().text(), "int");
}

#[test]
fn generic_class_type_parameters_carry_their_constraints() {
    let source = "class Map<TKey, ref TValue> {}";
    let mut c = Cursor::new(source);
    let class_kw = c.t(kw(Keyword::Class), "class");
    let name = c.t(TokenKind::Identifier, "Map");
    let args = n(
        SyntaxKind::GenericArgList,
        vec![
            c.t(TokenKind::Operator(Operator::Less), "<"),
            c.t(TokenKind::Identifier, "TKey"),
            c.t(TokenKind::Comma, ","),
            c.t(TokenKind::Whitespace, " "),
            c.t(kw(Keyword::Ref), "ref"),
            c.t(TokenKind::Whitespace, " "),
            c.t(TokenKind::Identifier, "TValue"),
            c.t(TokenKind::Operator(Operator::Greater), ">"),
        ],
    );
    let body = n(SyntaxKind::Block, vec![c.t(TokenKind::LeftBrace, "{"), c.t(TokenKind::RightBrace, "}")]);
    let file = root(vec![n(SyntaxKind::ClassDecl, vec![class_kw, name, args, body])]);
    let class = ClassDecl { source, container: &file, node: node_of(&file.children[0]) };

    let params = class.type_parameters();
    assert_eq!(params.len(), 2);
    assert_eq!(params[0].name().text(), "TKey");
    assert!(params[0].constraint_text().is_none());
    assert_eq!(params[0].span(), TextSpan::new(10, 14));
    assert_eq!(params[1].name().text(), "TValue");
    assert_eq!(params[1].constraint_text().unwrap().text(), "ref");
    assert_eq!(params[1].span(), TextSpan::new(16, 26));
}

#[test]
fn method_locals_come_from_statements_for_initializers_and_foreach_headers() {
    let source = "void F() { int x = 5; const int y = 2; for (int i = 0; i < 3; i++) {} foreach (auto v : items) {} }";
    let mut c = Cursor::new(source);
    let ret = n(SyntaxKind::TypeRef, vec![c.t(kw(Keyword::Void), "void")]);
    let name = c.t(TokenKind::Identifier, "F");
    let params = n(SyntaxKind::ParameterList, vec![c.t(TokenKind::LeftParen, "("), c.t(TokenKind::RightParen, ")")]);
    let open = c.t(TokenKind::LeftBrace, "{");

    let first = n(
        SyntaxKind::LocalDeclStatement,
        vec![
            n(SyntaxKind::TypeRef, vec![c.t(kw(Keyword::Int), "int")]),
            n(
                SyntaxKind::DeclaratorList,
                vec![n(
                    SyntaxKind::Declarator,
                    vec![
                        c.t(TokenKind::Identifier, "x"),
                        c.t(TokenKind::Operator(Operator::Equal), "="),
                        n(SyntaxKind::LiteralExpression, vec![c.t(TokenKind::IntegerLiteral, "5")]),
                    ],
                )],
            ),
            c.t(TokenKind::Semicolon, ";"),
        ],
    );
    let second = n(
        SyntaxKind::LocalDeclStatement,
        vec![
            n(SyntaxKind::TypeRef, vec![c.t(kw(Keyword::Const), "const"), c.t(kw(Keyword::Int), "int")]),
            n(
                SyntaxKind::DeclaratorList,
                vec![n(
                    SyntaxKind::Declarator,
                    vec![
                        c.t(TokenKind::Identifier, "y"),
                        c.t(TokenKind::Operator(Operator::Equal), "="),
                        n(SyntaxKind::LiteralExpression, vec![c.t(TokenKind::IntegerLiteral, "2")]),
                    ],
                )],
            ),
            c.t(TokenKind::Semicolon, ";"),
        ],
    );
    let for_kw = c.t(kw(Keyword::For), "for");
    let for_open = c.t(TokenKind::LeftParen, "(");
    let init = n(
        SyntaxKind::ForInitializer,
        vec![n(
            SyntaxKind::LocalDeclStatement,
            vec![
                n(SyntaxKind::TypeRef, vec![c.t(kw(Keyword::Int), "int")]),
                n(
                    SyntaxKind::DeclaratorList,
                    vec![n(
                        SyntaxKind::Declarator,
                        vec![
                            c.t(TokenKind::Identifier, "i"),
                            c.t(TokenKind::Operator(Operator::Equal), "="),
                            n(SyntaxKind::LiteralExpression, vec![c.t(TokenKind::IntegerLiteral, "0")]),
                        ],
                    )],
                ),
                c.t(TokenKind::Semicolon, ";"),
            ],
        )],
    );
    let condition = n(SyntaxKind::Expression, vec![c.t(TokenKind::Identifier, "i"), c.t(TokenKind::Operator(Operator::Less), "<")]);
    let rest = c.t(TokenKind::RightParen, ")");
    let for_body = n(SyntaxKind::Block, vec![c.t(TokenKind::LeftBrace, "{"), c.t(TokenKind::RightBrace, "}")]);
    let for_stmt = n(SyntaxKind::ForStatement, vec![for_kw, for_open, init, condition, rest, for_body]);
    let foreach_kw = c.t(kw(Keyword::Foreach), "foreach");
    let foreach_open = c.t(TokenKind::LeftParen, "(");
    let variable = n(
        SyntaxKind::ForeachVariable,
        vec![
            n(SyntaxKind::TypeRef, vec![c.t(kw(Keyword::Auto), "auto")]),
            n(SyntaxKind::Declarator, vec![c.t(TokenKind::Identifier, "v")]),
        ],
    );
    let header = n(
        SyntaxKind::ForeachHeader,
        vec![
            n(SyntaxKind::ForeachVariableList, vec![variable]),
            c.t(TokenKind::Colon, ":"),
            n(SyntaxKind::ForeachIterable, vec![c.t(TokenKind::Identifier, "items")]),
        ],
    );
    let foreach_close = c.t(TokenKind::RightParen, ")");
    let foreach_body = n(SyntaxKind::Block, vec![c.t(TokenKind::LeftBrace, "{"), c.t(TokenKind::RightBrace, "}")]);
    let foreach_stmt = n(SyntaxKind::ForeachStatement, vec![foreach_kw, foreach_open, header, foreach_close, foreach_body]);
    let close = c.t(TokenKind::RightBrace, "}");
    let body = n(SyntaxKind::Block, vec![open, first, second, for_stmt, foreach_stmt, close]);
    let file = root(vec![n(SyntaxKind::MethodDecl, vec![ret, name, params, body])]);
    let method = MethodDecl { source, container: &file, node: node_of(&file.children[0]) };

    let locals = method.local_variables();
    let summary: Vec<(String, LocalVariableKind, Option<String>, Option<String>)> = locals
        .iter()
        .map(|l| {
            (
                l.name().text().to_string(),
                l.kind(),
                l.type_text().map(|t| t.text().to_string()),
                l.default_text().map(|t| t.text().to_string()),
            )
        })
        .collect();
    assert_eq!(
        summary,
        vec![
            ("x".to_string(), LocalVariableKind::LocalVariable, Some("int".to_string()), Some("5".to_string())),
            ("y".to_string(), LocalVariableKind::LocalVariable, Some("int".to_string()), Some("2".to_string())),
            ("i".to_string(), LocalVariableKind::ForInitializer, Some("int".to_string()), Some("0".to_string())),
            ("v".to_string(), LocalVariableKind::ForeachVariable, Some("auto".to_string()), None),
        ]
    );
    let y_modifiers: Vec<&str> = locals[1].modifiers().into_iter().map(|m| m.text()).collect();
    assert_eq!(y_modifiers, vec!["const"]);
    assert!(locals[0].modifiers().is_empty());
    assert_eq!(locals[3].span(), locals[3].name().span);
}
