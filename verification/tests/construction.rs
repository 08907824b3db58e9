// The tokens are those the lexer reports for these small sources:
// identifiers, type keywords, brackets, `=`, `<`, `>`, `>>` and whitespace.
use reforger_language_server::construction::{
    lexical_construction_context_at_operand, tokens_form_declaration_type, ContextualConstruction,
};
use reforger_language_server::model::TextSpan;
use reforger_language_server::syntax::{Keyword, Operator, Token, TokenKind};

fn keyword(word: &str) -> Option<Keyword> {
    Some(match word {
        "ref" => Keyword::Ref,
        "autoptr" => Keyword::Autoptr,
        "owned" => Keyword::Owned,
        "const" => Keyword::Const,
        "notnull" => Keyword::Notnull,
        "new" => Keyword::New,
        "int" => Keyword::Int,
        "float" => Keyword::Float,
        "bool" => Keyword::Bool,
        "string" => Keyword::String,
        "vector" => Keyword::Vector,
        "void" => Keyword::Void,
        "auto" => Keyword::Auto,
        "typename" => Keyword::Typename,
        _ => return None,
    })
}

fn lex(source: &str) -> Vec<Token> {
    let bytes = source.as_bytes();
    let mut tokens = Vec::new();
    let mut i = 0;
    while i < bytes.len() {
        let start = i;
        let c = bytes[i];
        let kind = if c.is_ascii_whitespace() {
            while i < bytes.len() && bytes[i].is_ascii_whitespace() {
                i += 1;
            }
            TokenKind::Whitespace
        } else if c.is_ascii_alphabetic() || c == b'_' {
            while i < bytes.len() && (bytes[i].is_ascii_alphanumeric() || bytes[i] == b'_') {
                i += 1;
            }
            match keyword(&source[start..i]) {
                Some(k) => TokenKind::Keyword(k),
                None => TokenKind::Identifier,
            }
        } else {
            i += 1;
            match c {
                b'{' => TokenKind::LeftBrace,
                b'}' => TokenKind::RightBrace,
                b'(' => TokenKind::LeftParen,
                b')' => TokenKind::RightParen,
                b'[' => TokenKind::LeftBracket,
                b']' => TokenKind::RightBracket,
                b',' => TokenKind::Comma,
                b';' => TokenKind::Semicolon,
                b'=' => TokenKind::Operator(Operator::Equal),
                b'<' => TokenKind::Operator(Operator::Less),
                b'>' if i < bytes.len() && bytes[i] == b'>' => {
                    i += 1;
                    TokenKind::Operator(Operator::GreaterGreater)
                }
                b'>' => TokenKind::Operator(Operator::Greater),
                _ => TokenKind::Unknown,
            }
        };
        tokens.push(Token { kind, span: TextSpan::new(start, i) });
    }
    tokens
}

/// The expected construction type at the last `new` of `source`.
fn context_at_last_new(source: &str) -> Option<ContextualConstruction> {
    let start = source.rfind("new").unwrap();
    let tokens = lex(source);
    lexical_construction_context_at_operand(source, &tokens, TextSpan::new(start, start + 3))
}

fn expected(type_text: &str) -> Option<ContextualConstruction> {
    Some(ContextualConstruction { type_text: type_text.to_string(), containing_class: None })
}

#[test]
fn declaration_gives_its_type() {
    assert_eq!(context_at_last_new("Foo x = new Foo();"), expected("Foo"));
    assert_eq!(context_at_last_new("  ref array<ref Foo> items = new"), expected("ref array<ref Foo>"));
    assert_eq!(context_at_last_new("int a; Foo b = new"), expected("Foo"));
    assert_eq!(context_at_last_new("void Run() { map<string, Foo> m = new"), expected("map<string, Foo>"));
}

#[test]
fn declaration_type_stays_on_the_line_of_new() {
    assert_eq!(context_at_last_new("Foo\n x = new"), None);
    assert_eq!(context_at_last_new("x = new"), None);
    assert_eq!(context_at_last_new("Foo x new"), None);
}

#[test]
fn initializer_elements_unwrap_the_collection_type() {
    assert_eq!(context_at_last_new("array<Foo> items = { new"), expected("Foo"));
    assert_eq!(context_at_last_new("array<Foo> items = { new Foo(), new"), expected("Foo"));
    assert_eq!(context_at_last_new("array<ref set<Foo>> nested = {{ new"), expected("Foo"));
    assert_eq!(context_at_last_new("map<string, Foo> m = { new"), None);
}

#[test]
fn commas_inside_calls_do_not_start_elements() {
    assert_eq!(context_at_last_new("array<Foo> items = { Make(a, new"), None);
    assert_eq!(context_at_last_new("Call(a, new"), None);
}

#[test]
fn unbalanced_braces_give_nothing() {
    assert_eq!(context_at_last_new("} array<Foo> items = { new"), None);
}

#[test]
fn declaration_types_are_checked_token_by_token() {
    let check = |source: &str| tokens_form_declaration_type(&lex(source).into_iter().filter(|t| t.kind != TokenKind::Whitespace).collect::<Vec<_>>());
    assert!(check("Foo"));
    assert!(check("ref Foo"));
    assert!(check("array<ref Foo>"));
    assert!(check("map<int, array<Foo>>"));
    assert!(!check(""));
    assert!(!check("ref"));
    assert!(!check("array<Foo"));
    assert!(!check("array<Foo>>"));
    assert!(!check("Foo Bar"));
    assert!(!check("array<(Foo)>"));
}
