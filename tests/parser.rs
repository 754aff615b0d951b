use fuzzer::ast::{Grammar, Op, Rule, RuleType};
use fuzzer::lexer::TokenType;
use fuzzer::parser::{ParseError, Parser};

fn lexer_grammar(body: &str) -> Result<Grammar, ParseError> {
    Parser::new().parse_lexer_rules(format!("lexer grammar L;\n{}", body))
}

fn only_rule(g: &Grammar) -> &Rule {
    assert_eq!(g.rules.len(), 1);
    &g.rules[0]
}

fn t(s: &str) -> Op {
    Op::Terminal(s.to_string())
}

fn r(s: &str) -> Op {
    Op::RuleRef(s.to_string())
}

#[test]
fn terminal_rule_parses() {
    let g = lexer_grammar("IDENT: 'XYZ';").unwrap();
    let rule = only_rule(&g);
    assert_eq!(
        *rule,
        Rule { name: "IDENT".to_string(), rule_type: RuleType::Other, definition: t("XYZ"), skip: false }
    );
}

#[test]
fn skip_rule_parses() {
    let g = lexer_grammar("NAME: [a-z] -> skip;").unwrap();
    let rule = only_rule(&g);
    assert_eq!(rule.name, "NAME");
    assert!(rule.skip);
    assert_eq!(rule.definition, Op::CharSet(vec![Op::CharRange('a', 'z')]));
}

#[test]
fn fragment_rule_parses() {
    let g = lexer_grammar("fragment DIGIT: [0-9];").unwrap();
    assert_eq!(only_rule(&g).rule_type, RuleType::Fragment);
}

#[test]
fn alternatives_sequences_and_suffixes() {
    let g = lexer_grammar("A: 'a' B* | C? D+ | ~'x' . EOF;").unwrap();
    assert_eq!(
        only_rule(&g).definition,
        Op::Alternative(vec![
            Op::Sequence(vec![t("a"), Op::ZeroOrMore(Box::new(r("B")))]),
            Op::Sequence(vec![Op::Optional(Box::new(r("C"))), Op::OneOrMore(Box::new(r("D")))]),
            Op::Not(Box::new(Op::Sequence(vec![t("x"), Op::AnyChar, Op::EofDefinition]))),
        ])
    );
}

#[test]
fn parentheses_are_transparent() {
    let g = lexer_grammar("A: ('a' | 'b') 'c';").unwrap();
    assert_eq!(
        only_rule(&g).definition,
        Op::Sequence(vec![Op::Alternative(vec![t("a"), t("b")]), t("c")])
    );
}

#[test]
fn empty_alternatives_are_dropped() {
    let g = lexer_grammar("X: Y | /* empty */;").unwrap();
    assert_eq!(only_rule(&g).definition, r("Y"));
    let g = lexer_grammar("E: ;").unwrap();
    assert_eq!(only_rule(&g).definition, Op::Empty);
}

#[test]
fn associativity_annotation_is_ignored() {
    let g = lexer_grammar("A: <assoc = right> B;").unwrap();
    assert_eq!(only_rule(&g).definition, r("B"));
}

#[test]
fn suffixes_do_not_stack() {
    assert_eq!(lexer_grammar("A: B+*;").unwrap_err(), ParseError::UnexpectedToken(TokenType::Star));
}

#[test]
fn bad_header_is_rejected() {
    assert_eq!(
        Parser::new().parse_lexer_rules("parser grammar L;".to_string()).unwrap_err(),
        ParseError::Expected(TokenType::Lexer)
    );
    assert_eq!(
        Parser::new().parse_lexer_rules("lexer grammar".to_string()).unwrap_err(),
        ParseError::Expected(TokenType::Identifier)
    );
}

#[test]
fn quoted_keyword_is_a_terminal() {
    let g = lexer_grammar("X: 'skip';").unwrap();
    assert_eq!(only_rule(&g).definition, t("skip"));
}

#[test]
fn bad_set_is_rejected() {
    assert!(matches!(lexer_grammar("A: [-a];").unwrap_err(), ParseError::BadSet(_)));
}

#[test]
fn missing_semicolon_is_rejected() {
    assert_eq!(lexer_grammar("A: 'a'").unwrap_err(), ParseError::Expected(TokenType::SemiColon));
}

#[test]
fn parser_grammar_needs_options_block() {
    let src = "parser grammar P;\noptions { tokenVocab = L; }\nprogram: A B;";
    let g = Parser::new().parse_parser_rules(src.to_string()).unwrap();
    assert_eq!(only_rule(&g).definition, Op::Sequence(vec![r("A"), r("B")]));
    let bad = "parser grammar P;\nprogram: A B;";
    assert_eq!(
        Parser::new().parse_parser_rules(bad.to_string()).unwrap_err(),
        ParseError::Expected(TokenType::Options)
    );
}

#[test]
fn later_rule_replaces_earlier_one() {
    let g = lexer_grammar("A: 'x'; A: 'y';").unwrap();
    assert_eq!(only_rule(&g).definition, t("y"));
}

#[test]
fn grammar_from_both_files() {
    let lexer = "lexer grammar L;\nA: 'a';\nB: 'b';";
    let parser = "parser grammar P;\noptions { tokenVocab = L; }\nprogram: A B;\nB: 'c';";
    let g = Grammar::new(lexer.to_string(), parser.to_string()).unwrap();
    assert_eq!(g.entry_points, vec!["program".to_string()]);
    assert!(Grammar::new(lexer.to_string(), "parser grammar P;\noptions { a = b; }\nR: [xy;".to_string()).is_err());
    assert_eq!(g.rules.len(), 3);
    let b = g.find_rule(&"B".to_string()).unwrap();
    assert_eq!(g.rules[b].definition, t("c"));
}

#[test]
fn parse_rule_definition_without_tokens_is_empty() {
    let mut p = Parser::new();
    assert_eq!(p.parse_rule_definition(), Ok(Op::Empty));
}

#[test]
fn grammar_errors_come_from_the_failing_file() {
    let good_lexer = "lexer grammar L;\nA: 'a';";
    let good_parser = "parser grammar P;\noptions { tokenVocab = L; }\nprogram: A;";
    assert_eq!(
        Grammar::new("grammar L;".to_string(), good_parser.to_string()).unwrap_err(),
        ParseError::Expected(TokenType::Lexer)
    );
    assert_eq!(
        Grammar::new(good_lexer.to_string(), "parser grammar P;\nprogram: A;".to_string()).unwrap_err(),
        ParseError::Expected(TokenType::Options)
    );
    assert_eq!(
        Grammar::new(good_lexer.to_string(), "parser grammar P;\noptions { a = b; }\nprogram: A )".to_string())
            .unwrap_err(),
        ParseError::Expected(TokenType::SemiColon)
    );
}
