use fuzzer::ast::{Grammar, Op};
use fuzzer::generator::{char_at_offset, GenError, Generator};
use rand::rngs::StdRng;
use rand::SeedableRng;

fn t(s: &str) -> Op {
    Op::Terminal(s.to_string())
}

fn grammar(lexer_rules: &str, parser_rules: &str) -> Grammar {
    let lexer = format!("lexer grammar L;\n{}", lexer_rules);
    let parser = format!("parser grammar P;\noptions {{ tokenVocab = L; }}\n{}", parser_rules);
    Grammar::new(lexer, parser).unwrap()
}

fn is_surrogate(c: char) -> bool {
    (0xD800..=0xDFFF).contains(&(c as u32))
}

#[test]
fn terminals_pass_through() {
    let g = grammar("", "program: 'x';");
    let mut gen = Generator::new(&g, StdRng::seed_from_u64(1), 10);
    assert_eq!(gen.generate_op(&t("abc"), 0), Ok(t("abc")));
    assert_eq!(gen.generate_op(&t(""), 0), Ok(Op::Empty));
    assert_eq!(gen.generate_op(&Op::Empty, 0), Ok(Op::Empty));
    assert_eq!(gen.generate_op(&Op::Skip, 0), Ok(Op::Skip));
    assert_eq!(gen.generate_op(&Op::EofDefinition, 0), Ok(Op::EofDefinition));
}

#[test]
fn depth_limit_cuts_non_trivial_operations() {
    let g = grammar("", "program: 'x';");
    let mut gen = Generator::new(&g, StdRng::seed_from_u64(2), 3);
    let alt = Op::Alternative(vec![t("a"), t("b")]);
    assert_eq!(gen.generate_op(&alt, 3), Ok(Op::Empty));
    assert_eq!(gen.generate_op(&Op::RuleRef("program".to_string()), 5), Ok(Op::Empty));
    assert_eq!(gen.generate_op(&t("kept"), 7), Ok(t("kept")));
}

#[test]
fn generate_ast_expands_entry_rule() {
    let g = grammar("A: 'a';\nB: 'b';", "program: A B;");
    let mut gen = Generator::new(&g, StdRng::seed_from_u64(3), 10);
    let rule = gen.generate_ast().unwrap();
    assert_eq!(rule.name, "program");
    assert_eq!(rule.definition, Op::Sequence(vec![t("a"), t("b")]));
    assert_eq!(gen.stringify_op(&rule.definition), "ab");
}

#[test]
fn unknown_rule_is_an_error() {
    let g = grammar("", "program: missing;");
    let mut gen = Generator::new(&g, StdRng::seed_from_u64(4), 10);
    assert_eq!(gen.generate_ast().unwrap_err(), GenError::RuleNotFound);
}

#[test]
fn missing_entry_rule_is_an_error() {
    let g = grammar("A: 'a';", "start: A;");
    let mut gen = Generator::new(&g, StdRng::seed_from_u64(5), 10);
    assert_eq!(gen.generate_ast().unwrap_err(), GenError::RuleNotFound);
}

#[test]
fn alternative_picks_a_surviving_choice() {
    let g = grammar("", "program: 'x';");
    let mut gen = Generator::new(&g, StdRng::seed_from_u64(6), 10);
    let alt = Op::Alternative(vec![t("a"), Op::Empty, t("b")]);
    for _ in 0..50 {
        let got = gen.generate_op(&alt, 0).unwrap();
        assert!(got == t("a") || got == t("b"));
    }
}

#[test]
fn char_range_never_yields_surrogates() {
    let g = grammar("", "program: 'x';");
    let mut gen = Generator::new(&g, StdRng::seed_from_u64(7), 10);
    let range = Op::CharRange('\u{D7F0}', '\u{E00F}');
    for _ in 0..2000 {
        match gen.generate_op(&range, 0).unwrap() {
            Op::Terminal(s) => {
                let c = s.chars().next().unwrap();
                assert_eq!(s.chars().count(), 1);
                assert!(!is_surrogate(c));
                assert!(('\u{D7F0}'..='\u{E00F}').contains(&c));
            }
            other => panic!("unexpected {:?}", other),
        }
    }
}

#[test]
fn inverted_range_is_an_error() {
    let g = grammar("", "program: 'x';");
    let mut gen = Generator::new(&g, StdRng::seed_from_u64(8), 10);
    assert_eq!(gen.generate_op(&Op::CharRange('z', 'a'), 0), Err(GenError::EmptyRange));
}

#[test]
fn char_at_offset_skips_the_surrogate_block() {
    assert_eq!(char_at_offset('a', 'z', 0), 'a');
    assert_eq!(char_at_offset('a', 'z', 25), 'z');
    assert_eq!(char_at_offset('\u{D7FF}', '\u{E001}', 0), '\u{D7FF}');
    assert_eq!(char_at_offset('\u{D7FF}', '\u{E001}', 1), '\u{E000}');
    assert_eq!(char_at_offset('\u{D7FF}', '\u{E001}', 2), '\u{E001}');
}

#[test]
fn zero_or_more_prunes_about_one_in_ten() {
    let g = grammar("", "program: 'x';");
    let mut gen = Generator::new(&g, StdRng::seed_from_u64(9), 10);
    let rep = Op::ZeroOrMore(Box::new(t("x")));
    let trials = 10_000;
    let mut empty = 0;
    let mut counts = [0usize; 30];
    for _ in 0..trials {
        match gen.generate_op(&rep, 0).unwrap() {
            Op::Empty => empty += 1,
            Op::Terminal(_) => counts[1] += 1,
            Op::Sequence(v) => {
                assert!(v.len() >= 2 && v.len() < 30);
                counts[v.len()] += 1;
            }
            other => panic!("unexpected {:?}", other),
        }
    }
    // Pruned with probability 1/10, and a count of zero (1/30 of the rest) is empty too.
    let expected_empty = trials as f64 * (0.1 + 0.9 / 30.0);
    assert!((empty as f64 - expected_empty).abs() < 150.0, "empty = {}", empty);
    let per_count = trials as f64 * 0.9 / 30.0;
    for n in 1..30 {
        assert!((counts[n] as f64 - per_count).abs() < 110.0, "count {} seen {}", n, counts[n]);
    }
}

#[test]
fn one_or_more_is_never_empty() {
    let g = grammar("", "program: 'x';");
    let mut gen = Generator::new(&g, StdRng::seed_from_u64(10), 10);
    let rep = Op::OneOrMore(Box::new(t("x")));
    for _ in 0..500 {
        assert_ne!(gen.generate_op(&rep, 0).unwrap(), Op::Empty);
    }
}

#[test]
fn identifier_is_synthesized() {
    let g = grammar("", "program: IDENTIFIER;");
    let mut gen = Generator::new(&g, StdRng::seed_from_u64(11), 10);
    for _ in 0..200 {
        match gen.generate_ast().unwrap().definition {
            Op::Terminal(s) => {
                let n = s.chars().count();
                assert!((1..30).contains(&n));
                for c in s.chars() {
                    assert!((0x80..0xFFFF).contains(&(c as u32)) && !is_surrogate(c));
                }
            }
            other => panic!("unexpected {:?}", other),
        }
    }
}

#[test]
fn set_members_join_into_one_terminal() {
    let g = grammar("", "program: 'x';");
    let mut gen = Generator::new(&g, StdRng::seed_from_u64(12), 10);
    let set = Op::CharSet(vec![Op::CharRange('a', 'a'), Op::CharRange('b', 'b')]);
    assert_eq!(gen.generate_op(&set, 0), Ok(t("ab")));
    let bad = Op::CharSet(vec![Op::Sequence(vec![t("a"), t("b")])]);
    assert_eq!(gen.generate_op(&bad, 0), Err(GenError::UnsupportedInSet));
}

#[test]
fn recursive_grammar_terminates_at_every_depth() {
    let g = grammar(
        "NUMBER: [0-9]+;",
        "program: expr;\nexpr: expr '+' expr | '(' expr ')' | NUMBER;",
    );
    for depth in [0usize, 1, 3, 8] {
        let mut gen = Generator::new(&g, StdRng::seed_from_u64(depth as u64), depth);
        for _ in 0..20 {
            let rule = gen.generate_ast().unwrap();
            let _ = gen.stringify_op(&rule.definition);
        }
    }
}

#[test]
fn derivations_hold_no_empty_children() {
    fn check(op: &Op) {
        match op {
            Op::Sequence(v) => {
                assert!(v.len() >= 2);
                for c in v {
                    assert_ne!(*c, Op::Empty);
                    check(c);
                }
            }
            Op::Optional(o) | Op::Not(o) | Op::Parentheses(o) => {
                assert_ne!(**o, Op::Empty);
                check(o);
            }
            Op::Terminal(_) | Op::EofDefinition | Op::Skip | Op::Empty => {}
            other => panic!("not concrete: {:?}", other),
        }
    }
    let g = grammar(
        "ID: [a-z]+;\nWS: [ ] -> skip;",
        "program: stmt* EOF;\nstmt: 'let' ID ('=' ID)? ';' | ~';' | ;",
    );
    let mut gen = Generator::new(&g, StdRng::seed_from_u64(13), 6);
    for _ in 0..100 {
        check(&gen.generate_ast().unwrap().definition);
    }
}

#[test]
fn stringify_spaces_reserved_words() {
    let g = grammar("", "program: 'x';");
    let mut gen = Generator::new(&g, StdRng::seed_from_u64(14), 10);
    let seq = Op::Sequence(vec![t("return"), t("x"), t("y")]);
    assert_eq!(gen.stringify_op(&seq), "return xy");
    let nested = Op::ZeroOrMore(Box::new(Op::Parentheses(Box::new(t("fn")))));
    assert_eq!(gen.stringify_op(&nested), "fn");
    assert_eq!(gen.stringify_op(&Op::Not(Box::new(t("z")))), "");
}

#[test]
fn stringify_optional_flips_a_coin() {
    let g = grammar("", "program: 'x';");
    let mut gen = Generator::new(&g, StdRng::seed_from_u64(15), 10);
    let opt = Op::Optional(Box::new(t("q")));
    let mut kept = 0;
    for _ in 0..1000 {
        let s = gen.stringify_op(&opt);
        assert!(s == "q" || s.is_empty());
        if s == "q" {
            kept += 1;
        }
    }
    assert!(kept > 400 && kept < 600, "kept {}", kept);
}

#[test]
fn self_referring_trivial_rule_is_refused() {
    let cyclic = grammar("A: 'x' A;", "program: A;");
    assert!(!cyclic.has_bounded_generation());
    assert!(Generator::try_new(&cyclic, StdRng::seed_from_u64(16), 5).is_none());
    let optional_loop = grammar("A: 'x' A?;", "program: A;");
    assert!(!optional_loop.has_bounded_generation());
    let behind_choice = grammar("A: 'x' | A;", "program: A;");
    assert!(behind_choice.has_bounded_generation());
    let fine = grammar("A: 'x' B;\nB: 'y';", "program: A program | A;");
    assert!(fine.has_bounded_generation());
    assert!(Generator::try_new(&fine, StdRng::seed_from_u64(17), 5).is_some());
}

#[test]
fn regenerating_a_derivation_gives_it_back() {
    let g = grammar("ID: [a-z]+;", "program: 'let' ID ('=' ID)? ';' EOF;");
    let mut gen = Generator::new(&g, StdRng::seed_from_u64(18), 50);
    for _ in 0..50 {
        let d = gen.generate_ast().unwrap().definition;
        let has_empty_text = format!("{:?}", d).contains("Terminal(\"\")");
        if !has_empty_text {
            assert_eq!(gen.generate_op(&d, 0).unwrap(), d);
        }
    }
}
