use fuzzer::lexer::{Lexer, Token, TokenType};

fn tok(token_type: TokenType, value: &str) -> Token {
    Token { token_type, value: value.to_string() }
}

fn eof() -> Token {
    tok(TokenType::EndOfFile, "")
}

fn lex(input: &str) -> Vec<Token> {
    Lexer::new(input.to_string()).lex()
}

#[test]
fn test_lexer_single_identifier() {
    assert_eq!(lex("X"), vec![tok(TokenType::Identifier, "X"), eof()]);
}

#[test]
fn test_lexer_identifier_semicolon() {
    assert_eq!(
        lex("X;"),
        vec![tok(TokenType::Identifier, "X"), tok(TokenType::SemiColon, ";"), eof()]
    );
}

#[test]
fn test_lexer_header() {
    assert_eq!(
        lex("lexer grammar kyoto;"),
        vec![
            tok(TokenType::Lexer, "lexer"),
            tok(TokenType::Grammar, "grammar"),
            tok(TokenType::Identifier, "kyoto"),
            tok(TokenType::SemiColon, ";"),
            eof()
        ]
    );
}

#[test]
fn test_lexer_simple_rule() {
    assert_eq!(
        lex("X: Y;"),
        vec![
            tok(TokenType::Identifier, "X"),
            tok(TokenType::Colon, ":"),
            tok(TokenType::Identifier, "Y"),
            tok(TokenType::SemiColon, ";"),
            eof()
        ]
    );
}

#[test]
fn test_lexer_string_literal() {
    assert_eq!(
        lex("IDENT: 'XYZ';"),
        vec![
            tok(TokenType::Identifier, "IDENT"),
            tok(TokenType::Colon, ":"),
            tok(TokenType::String, "XYZ"),
            tok(TokenType::SemiColon, ";"),
            eof()
        ]
    );
}

#[test]
fn test_lexer_string_literal_rule() {
    assert_eq!(
        lex("STRING_LITERAL: '\"' (~[\"\\\\\\r\\n] | '\\\\' .)* '\"';"),
        vec![
            tok(TokenType::Identifier, "STRING_LITERAL"),
            tok(TokenType::Colon, ":"),
            tok(TokenType::String, "\""),
            tok(TokenType::OpenParen, "("),
            tok(TokenType::Tilde, "~"),
            tok(TokenType::CharSet, "[\"\\\\\\r\\n]"),
            tok(TokenType::Or, "|"),
            tok(TokenType::String, "\\\\"),
            tok(TokenType::Dot, "."),
            tok(TokenType::CloseParen, ")"),
            tok(TokenType::Star, "*"),
            tok(TokenType::String, "\""),
            tok(TokenType::SemiColon, ";"),
            eof()
        ]
    );
}

#[test]
fn test_lexer_char_literal_rule() {
    assert_eq!(
        lex("CHAR_LITERAL: '\\'' (~['\\\\\\r\\n] | '\\\\' .) '\\'';"),
        vec![
            tok(TokenType::Identifier, "CHAR_LITERAL"),
            tok(TokenType::Colon, ":"),
            tok(TokenType::String, "\\'"),
            tok(TokenType::OpenParen, "("),
            tok(TokenType::Tilde, "~"),
            tok(TokenType::CharSet, "['\\\\\\r\\n]"),
            tok(TokenType::Or, "|"),
            tok(TokenType::String, "\\\\"),
            tok(TokenType::Dot, "."),
            tok(TokenType::CloseParen, ")"),
            tok(TokenType::String, "\\'"),
            tok(TokenType::SemiColon, ";"),
            eof()
        ]
    );
}

#[test]
fn test_lexer_eof_keyword() {
    assert_eq!(
        lex("ruleName: X EOF;"),
        vec![
            tok(TokenType::Identifier, "ruleName"),
            tok(TokenType::Colon, ":"),
            tok(TokenType::Identifier, "X"),
            tok(TokenType::EOF, "EOF"),
            tok(TokenType::SemiColon, ";"),
            eof()
        ]
    );
}

#[test]
fn test_lexer_plus_suffix() {
    assert_eq!(
        lex("ruleName: X+;"),
        vec![
            tok(TokenType::Identifier, "ruleName"),
            tok(TokenType::Colon, ":"),
            tok(TokenType::Identifier, "X"),
            tok(TokenType::Plus, "+"),
            tok(TokenType::SemiColon, ";"),
            eof()
        ]
    );
}

#[test]
fn test_lexer_skip_directive() {
    assert_eq!(
        lex("NAME: [a-z] -> skip;"),
        vec![
            tok(TokenType::Identifier, "NAME"),
            tok(TokenType::Colon, ":"),
            tok(TokenType::CharSet, "[a-z]"),
            tok(TokenType::Arrow, "->"),
            tok(TokenType::Skip, "skip"),
            tok(TokenType::SemiColon, ";"),
            eof()
        ]
    );
}

#[test]
fn test_lexer_block_comment() {
    assert_eq!(
        lex("X: Y | /* empty */;"),
        vec![
            tok(TokenType::Identifier, "X"),
            tok(TokenType::Colon, ":"),
            tok(TokenType::Identifier, "Y"),
            tok(TokenType::Or, "|"),
            tok(TokenType::SemiColon, ";"),
            eof()
        ]
    );
}

#[test]
fn lexer_skips_line_and_hash_comments() {
    assert_eq!(
        lex("// note\nA # rest\n: B;"),
        vec![
            tok(TokenType::Identifier, "A"),
            tok(TokenType::Colon, ":"),
            tok(TokenType::Identifier, "B"),
            tok(TokenType::SemiColon, ";"),
            eof()
        ]
    );
}

#[test]
fn lexer_stops_at_unknown_character() {
    assert_eq!(lex("A @ B"), vec![tok(TokenType::Identifier, "A"), eof()]);
}

#[test]
fn lexer_empty_input_gives_only_end_of_file() {
    assert_eq!(lex(""), vec![eof()]);
    assert_eq!(lex("   \n\t "), vec![eof()]);
}

#[test]
fn lexer_is_deterministic_and_ends_with_one_end_of_file() {
    let input = "parser grammar P; options { a = b; } r: 'x' r? | <assoc = right> s+ ;";
    let first = lex(input);
    let second = lex(input);
    assert_eq!(first, second);
    assert_eq!(first.last().unwrap().token_type, TokenType::EndOfFile);
    assert_eq!(
        first.iter().filter(|t| t.token_type == TokenType::EndOfFile).count(),
        1
    );
}

#[test]
fn lexer_drains_once() {
    let mut lexer = Lexer::new("A B".to_string());
    assert_eq!(lexer.lex().len(), 3);
    assert_eq!(lexer.lex(), vec![eof()]);
}

#[test]
fn lexer_keeps_quoted_keywords_as_strings() {
    assert_eq!(lex("'skip'"), vec![tok(TokenType::String, "skip"), eof()]);
    assert_eq!(
        lex("X: 'skip' 'lexer';"),
        vec![
            tok(TokenType::Identifier, "X"),
            tok(TokenType::Colon, ":"),
            tok(TokenType::String, "skip"),
            tok(TokenType::String, "lexer"),
            tok(TokenType::SemiColon, ";"),
            eof()
        ]
    );
}

#[test]
fn lexer_identifiers_continue_with_unicode_letters() {
    assert_eq!(
        lex("Aé1 B"),
        vec![tok(TokenType::Identifier, "Aé1"), tok(TokenType::Identifier, "B"), eof()]
    );
}

fn rejoin(tokens: &[Token]) -> String {
    tokens[..tokens.len() - 1]
        .iter()
        .map(|t| {
            if t.token_type == TokenType::String {
                format!("'{}'", t.value)
            } else {
                t.value.clone()
            }
        })
        .collect::<Vec<_>>()
        .join(" ")
}

#[test]
fn relexing_joined_tokens_gives_them_back() {
    let inputs = [
        "lexer grammar L; // header\nA: 'x' [a-z\\]]+ -> skip; /* c */ B: ~'\\'' . EOF;",
        "parser grammar P; options { a = b; } r: <assoc = right> s? | 'skip' t* ;",
        "X: 'unterminated",
        "Y: [abc",
    ];
    for input in inputs {
        let tokens = lex(input);
        assert_eq!(lex(&rejoin(&tokens)), tokens, "input {:?}", input);
        assert_eq!(lex(input), tokens);
    }
}
