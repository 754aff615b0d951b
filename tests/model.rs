use fuzzer::ast::{choose_alternative, is_void_op, make_alternative, make_sequence, trivial_name, Grammar, Op, Rule, RuleType};

fn t(s: &str) -> Op {
    Op::Terminal(s.to_string())
}

#[test]
fn sequence_simplification() {
    assert_eq!(make_sequence(vec![]), Op::Empty);
    assert_eq!(make_sequence(vec![Op::Empty, t("a"), Op::Sequence(vec![])]), t("a"));
    assert_eq!(
        make_sequence(vec![t("a"), Op::Empty, t("b")]),
        Op::Sequence(vec![t("a"), t("b")])
    );
    assert_eq!(make_alternative(vec![Op::Empty, Op::Empty]), Op::Empty);
    assert_eq!(
        make_alternative(vec![t("a"), Op::Empty, t("b")]),
        Op::Alternative(vec![t("a"), t("b")])
    );
}

#[test]
fn simplification_is_idempotent() {
    let once = make_sequence(vec![t("a"), Op::Empty, t("b"), Op::Sequence(vec![])]);
    let children = match &once {
        Op::Sequence(v) => v.clone_ops(),
        _ => panic!("expected a sequence"),
    };
    assert_eq!(make_sequence(children), once);
}

trait CloneOps {
    fn clone_ops(&self) -> Vec<Op>;
}

impl CloneOps for Vec<Op> {
    fn clone_ops(&self) -> Vec<Op> {
        self.iter()
            .map(|o| match o {
                Op::Terminal(s) => Op::Terminal(s.clone()),
                _ => panic!("only terminals here"),
            })
            .collect()
    }
}

#[test]
fn void_children() {
    assert!(is_void_op(&Op::Empty));
    assert!(is_void_op(&Op::Sequence(vec![])));
    assert!(!is_void_op(&t("")));
}

#[test]
fn trivial_operations() {
    assert!(Op::CharSet(vec![]).is_trivial_rule());
    assert!(Op::CharRange('a', 'b').is_trivial_rule());
    assert!(t("x").is_trivial_rule());
    assert!(Op::AnyChar.is_trivial_rule());
    assert!(Op::RuleRef("STRING_LITERAL".to_string()).is_trivial_rule());
    assert!(Op::RuleRef("I32".to_string()).is_trivial_rule());
    assert!(Op::RuleRef("type".to_string()).is_trivial_rule());
    assert!(!Op::RuleRef("expression".to_string()).is_trivial_rule());
    assert!(Op::Sequence(vec![t("a"), Op::RuleRef("B".to_string())]).is_trivial_rule());
    assert!(!Op::Sequence(vec![t("a"), Op::RuleRef("b".to_string())]).is_trivial_rule());
    assert!(Op::Optional(Box::new(t("a"))).is_trivial_rule());
    assert!(!Op::Alternative(vec![t("a")]).is_trivial_rule());
    assert!(!Op::Not(Box::new(t("a"))).is_trivial_rule());
    assert!(trivial_name(&"A_B".to_string()));
    assert!(!trivial_name(&"Ab".to_string()));
}

#[test]
fn insert_rule_replaces_by_name() {
    let mut g = Grammar::empty();
    let rule = |name: &str, text: &str| Rule {
        name: name.to_string(),
        rule_type: RuleType::Other,
        definition: t(text),
        skip: false,
    };
    g.insert_rule(rule("A", "1"));
    g.insert_rule(rule("B", "2"));
    g.insert_rule(rule("A", "3"));
    assert_eq!(g.rules.len(), 2);
    assert_eq!(g.rules[g.find_rule(&"A".to_string()).unwrap()].definition, t("3"));
    assert_eq!(g.find_rule(&"C".to_string()), None);
}

#[test]
fn non_ascii_names_use_the_unicode_case() {
    assert!(trivial_name(&"ÄB_".to_string()));
    assert!(!trivial_name(&"äB".to_string()));
    assert!(Op::RuleRef("ÉTAT".to_string()).is_trivial_rule());
}

#[test]
fn alternative_choice_counts_only_survivors() {
    let kids = || vec![Op::Empty, t("a"), Op::Sequence(vec![]), t("b")];
    assert_eq!(choose_alternative(kids(), 0), t("a"));
    assert_eq!(choose_alternative(kids(), 1), t("b"));
}
