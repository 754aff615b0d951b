use vstd::prelude::*;
use crate::text::{chars_of, is_uppercase, slice_is, uppercase_of};

verus! {

broadcast use vstd::std_specs::vec::axiom_vec_index_decreases;

/// One node of a grammar's operation tree.
#[derive(Debug, PartialEq, Eq)]
pub enum Op {
    Terminal(String),
    RuleRef(String),
    ZeroOrMore(Box<Op>),
    OneOrMore(Box<Op>),
    Optional(Box<Op>),
    Not(Box<Op>),
    Parentheses(Box<Op>),
    Sequence(Vec<Op>),
    Alternative(Vec<Op>),
    CharRange(char, char),
    CharSet(Vec<Op>),
    AnyChar,
    Empty,
    Skip,
    EofDefinition,
}

/// The mathematical value of an `Op`: text as character sequences, children as sequences.
pub enum OpV {
    Terminal(Seq<char>),
    RuleRef(Seq<char>),
    ZeroOrMore(Box<OpV>),
    OneOrMore(Box<OpV>),
    Optional(Box<OpV>),
    Not(Box<OpV>),
    Parentheses(Box<OpV>),
    Sequence(Seq<OpV>),
    Alternative(Seq<OpV>),
    CharRange(char, char),
    CharSet(Seq<OpV>),
    AnyChar,
    Empty,
    Skip,
    EofDefinition,
}

/// A child that `Sequence` and `Alternative` construction drops: `Empty`, or an empty
/// `Sequence`.
pub open spec fn is_void(o: OpV) -> bool {
    o == OpV::Empty || o == OpV::Sequence(Seq::<OpV>::empty())
}

/// The children that survive simplification, in order.
pub open spec fn survivors(v: Seq<OpV>) -> Seq<OpV> {
    v.filter(|o: OpV| !is_void(o))
}

/// A sequence of children after simplification: nothing left is `Empty`, one child stands for
/// itself, more become a `Sequence`.
pub open spec fn simplify_sequence(v: Seq<OpV>) -> OpV {
    let f = survivors(v);
    if f.len() == 0 {
        OpV::Empty
    } else if f.len() == 1 {
        f[0]
    } else {
        OpV::Sequence(f)
    }
}

/// Alternatives after simplification, built the same way as a sequence.
pub open spec fn simplify_alternative(v: Seq<OpV>) -> OpV {
    let f = survivors(v);
    if f.len() == 0 {
        OpV::Empty
    } else if f.len() == 1 {
        f[0]
    } else {
        OpV::Alternative(f)
    }
}

/// What a parsed rule body looks like: no `Skip` marker and no `Parentheses` wrapper; every
/// `Sequence` and `Alternative` has at least two children, none of them `Empty`.
pub open spec fn is_normal(op: OpV) -> bool
    decreases op,
{
    match op {
        OpV::Sequence(v) => v.len() >= 2 && forall|i: int|
            0 <= i < v.len() ==> !is_void(#[trigger] v[i]) && is_normal(v[i]),
        OpV::Alternative(v) => v.len() >= 2 && forall|i: int|
            0 <= i < v.len() ==> !is_void(#[trigger] v[i]) && is_normal(v[i]),
        OpV::ZeroOrMore(o) => is_normal(*o),
        OpV::OneOrMore(o) => is_normal(*o),
        OpV::Optional(o) => is_normal(*o),
        OpV::Not(o) => is_normal(*o),
        OpV::Parentheses(_) => false,
        OpV::Skip => false,
        _ => true,
    }
}

impl Op {
    pub open spec fn view(&self) -> OpV
        decreases self,
    {
        match self {
            Op::Terminal(s) => OpV::Terminal(s@),
            Op::RuleRef(s) => OpV::RuleRef(s@),
            Op::ZeroOrMore(o) => OpV::ZeroOrMore(Box::new(o.view())),
            Op::OneOrMore(o) => OpV::OneOrMore(Box::new(o.view())),
            Op::Optional(o) => OpV::Optional(Box::new(o.view())),
            Op::Not(o) => OpV::Not(Box::new(o.view())),
            Op::Parentheses(o) => OpV::Parentheses(Box::new(o.view())),
            Op::Sequence(v) => OpV::Sequence(Seq::new(v.len() as nat, |i: int| if 0 <= i < v.len() { v[i].view() } else { OpV::Empty })),
            Op::Alternative(v) => OpV::Alternative(Seq::new(v.len() as nat, |i: int| if 0 <= i < v.len() { v[i].view() } else { OpV::Empty })),
            Op::CharRange(a, b) => OpV::CharRange(*a, *b),
            Op::CharSet(v) => OpV::CharSet(Seq::new(v.len() as nat, |i: int| if 0 <= i < v.len() { v[i].view() } else { OpV::Empty })),
            Op::AnyChar => OpV::AnyChar,
            Op::Empty => OpV::Empty,
            Op::Skip => OpV::Skip,
            Op::EofDefinition => OpV::EofDefinition,
        }
    }
}

/// The values of a sequence of operations.
pub closed spec fn ops_view(v: Seq<Op>) -> Seq<OpV> {
    v.map_values(|o: Op| o@)
}

pub proof fn lemma_ops_view_index(v: Seq<Op>)
    ensures
        ops_view(v).len() == v.len(),
        forall|i: int| 0 <= i < v.len() ==> #[trigger] ops_view(v)[i] == v[i]@,
{
}

pub proof fn lemma_ops_view_push(v: Seq<Op>, o: Op)
    ensures
        ops_view(v.push(o)) == ops_view(v).push(o@),
{
    assert(ops_view(v.push(o)) =~= ops_view(v).push(o@));
}

pub proof fn lemma_ops_view_empty()
    ensures
        ops_view(Seq::<Op>::empty()) == Seq::<OpV>::empty(),
{
    assert(ops_view(Seq::<Op>::empty()) =~= Seq::<OpV>::empty());
}

/// The value of a list node is the list of its children's values.
pub proof fn lemma_list_view(v: Vec<Op>)
    ensures
        Op::Sequence(v)@ == OpV::Sequence(ops_view(v@)),
        Op::Alternative(v)@ == OpV::Alternative(ops_view(v@)),
        Op::CharSet(v)@ == OpV::CharSet(ops_view(v@)),
{
    if let OpV::Sequence(s) = Op::Sequence(v)@ {
        assert(s =~= ops_view(v@));
    }
    if let OpV::Alternative(s) = Op::Alternative(v)@ {
        assert(s =~= ops_view(v@));
    }
    if let OpV::CharSet(s) = Op::CharSet(v)@ {
        assert(s =~= ops_view(v@));
    }
}

pub proof fn lemma_ops_view_first(v: Seq<Op>)
    requires
        v.len() > 0,
    ensures
        ops_view(v) == seq![v[0]@] + ops_view(v.drop_first()),
{
    assert(ops_view(v) =~= seq![v[0]@] + ops_view(v.drop_first()));
}

/// Simplification looks at the children one at a time, from the first.
pub proof fn lemma_survivors_first(x: OpV, t: Seq<OpV>)
    ensures
        survivors(seq![x] + t) == (if is_void(x) {
            Seq::<OpV>::empty()
        } else {
            seq![x]
        }) + survivors(t),
{
    Seq::filter_distributes_over_add(seq![x], t, |o: OpV| !is_void(o));
    reveal_with_fuel(Seq::filter, 2);
    assert(seq![x].drop_last() =~= Seq::<OpV>::empty());
}

proof fn lemma_survivors_keep_all(v: Seq<OpV>)
    requires
        forall|i: int| 0 <= i < v.len() ==> !is_void(#[trigger] v[i]),
    ensures
        survivors(v) == v,
    decreases v.len(),
{
    reveal(Seq::filter);
    if v.len() > 0 {
        lemma_survivors_keep_all(v.drop_last());
        assert(v.drop_last().push(v.last()) =~= v);
    }
}

/// Simplification is idempotent: the survivors of the survivors are the survivors, simplifying
/// them again gives the same node, and a `Sequence` or `Alternative` built from two or more
/// survivors simplifies to itself.
pub proof fn lemma_simplify_idempotent(v: Seq<OpV>)
    ensures
        survivors(survivors(v)) == survivors(v),
        simplify_sequence(survivors(v)) == simplify_sequence(v),
        simplify_alternative(survivors(v)) == simplify_alternative(v),
        survivors(v).len() >= 2 ==> simplify_sequence(simplify_sequence(v)->Sequence_0)
            == simplify_sequence(v),
        survivors(v).len() >= 2 ==> simplify_alternative(
            simplify_alternative(v)->Alternative_0,
        ) == simplify_alternative(v),
        forall|i: int|
            0 <= i < survivors(v).len() ==> !is_void(#[trigger] survivors(v)[i]),
{
    let f = survivors(v);
    let pred = |o: OpV| !is_void(o);
    assert forall|i: int| 0 <= i < f.len() implies !is_void(#[trigger] f[i]) by {
        v.lemma_filter_pred(pred, i);
    }
    lemma_survivors_keep_all(f);
    if f.len() >= 2 {
        assert(simplify_sequence(v)->Sequence_0 == f);
        assert(simplify_alternative(v)->Alternative_0 == f);
    }
}

/// Whether `o` is a child that simplification drops.
pub fn is_void_op(o: &Op) -> (r: bool)
    ensures
        r == is_void(o@),
{
    match o {
        Op::Empty => true,
        Op::Sequence(v) => {
            proof {
                lemma_list_view(*v);
                lemma_ops_view_index(v@);
                if v@.len() == 0 {
                    assert(ops_view(v@) =~= Seq::<OpV>::empty());
                }
            }
            v.len() == 0
        },
        _ => false,
    }
}

/// The children that simplification keeps, in order.
pub fn keep_survivors(children: Vec<Op>) -> (r: Vec<Op>)
    ensures
        ops_view(r@) == survivors(ops_view(children@)),
{
    let ghost whole = ops_view(children@);
    let mut rest = children;
    let mut kept: Vec<Op> = Vec::new();
    proof {
        lemma_ops_view_empty();
    }
    while rest.len() > 0
        invariant
            whole == ops_view(children@),
            whole.len() >= 0,
            survivors(whole) == ops_view(kept@) + survivors(ops_view(rest@)),
        decreases rest@.len(),
    {
        let ghost before = rest@;
        proof {
            lemma_ops_view_first(before);
        }
        let o = rest.remove(0);
        proof {
            assert(rest@ == before.drop_first());
            lemma_survivors_first(o@, ops_view(rest@));
        }
        if !is_void_op(&o) {
            proof {
                lemma_ops_view_push(kept@, o);
            }
            kept.push(o);
            assert(survivors(whole) =~= ops_view(kept@) + survivors(ops_view(rest@)));
        } else {
            assert(survivors(whole) =~= ops_view(kept@) + survivors(ops_view(rest@)));
        }
    }
    proof {
        lemma_ops_view_index(rest@);
        assert(ops_view(rest@) =~= Seq::<OpV>::empty());
        reveal_with_fuel(Seq::filter, 1);
        assert(survivors(ops_view(rest@)) =~= Seq::<OpV>::empty());
        assert(survivors(whole) =~= ops_view(kept@));
    }
    kept
}

/// A `Sequence` built from `children` with simplification applied.
pub fn make_sequence(children: Vec<Op>) -> (r: Op)
    ensures
        r@ == simplify_sequence(ops_view(children@)),
{
    let mut kept = keep_survivors(children);
    proof {
        lemma_ops_view_index(kept@);
    }
    if kept.len() == 0 {
        Op::Empty
    } else if kept.len() == 1 {
        kept.remove(0)
    } else {
        proof {
            lemma_list_view(kept);
        }
        Op::Sequence(kept)
    }
}

/// The `k`-th child that simplification keeps: the choice an alternative makes once `k` is
/// drawn.
pub fn choose_alternative(children: Vec<Op>, k: usize) -> (r: Op)
    requires
        k < survivors(ops_view(children@)).len(),
    ensures
        r@ == survivors(ops_view(children@))[k as int],
{
    let mut kept = keep_survivors(children);
    proof {
        lemma_ops_view_index(kept@);
    }
    kept.remove(k)
}

/// An `Alternative` built from `children` with simplification applied.
pub fn make_alternative(children: Vec<Op>) -> (r: Op)
    ensures
        r@ == simplify_alternative(ops_view(children@)),
{
    let mut kept = keep_survivors(children);
    proof {
        lemma_ops_view_index(kept@);
    }
    if kept.len() == 0 {
        Op::Empty
    } else if kept.len() == 1 {
        kept.remove(0)
    } else {
        proof {
            lemma_list_view(kept);
        }
        Op::Alternative(kept)
    }
}

#[derive(Debug, Clone, Copy, PartialEq, Eq, Structural)]
pub enum RuleType {
    Fragment,
    Other,
}

/// One named rule of a grammar. `skip` marks a rule whose body ended in `-> skip`.
#[derive(Debug, PartialEq)]
pub struct Rule {
    pub name: String,
    pub rule_type: RuleType,
    pub definition: Op,
    pub skip: bool,
}

/// The mathematical value of a rule.
pub struct RuleV {
    pub name: Seq<char>,
    pub rule_type: RuleType,
    pub definition: OpV,
    pub skip: bool,
}

impl Rule {
    pub open spec fn view(&self) -> RuleV {
        RuleV { name: self.name@, rule_type: self.rule_type, definition: self.definition@, skip: self.skip }
    }
}

/// A grammar: its rules, with names unique, and the names generation may start from.
#[derive(Debug)]
pub struct Grammar {
    pub rules: Vec<Rule>,
    pub entry_points: Vec<String>,
}

/// The index of the rule called `name`, if any.
pub open spec fn rule_index(rules: Seq<Rule>, name: Seq<char>) -> Option<int> {
    if exists|i: int| 0 <= i < rules.len() && (#[trigger] rules[i]).name@ == name {
        Some(choose|i: int| 0 <= i < rules.len() && (#[trigger] rules[i]).name@ == name)
    } else {
        None
    }
}

/// No two rules share a name.
pub open spec fn names_unique(rules: Seq<Rule>) -> bool {
    forall|i: int, j: int|
        0 <= i < rules.len() && 0 <= j < rules.len() && #[trigger] rules[i].name@ == #[trigger] rules[j].name@
            ==> i == j
}

/// The rules of `rules` from position `k` on, by name.
pub open spec fn rules_from(rules: Seq<Rule>, k: int) -> Map<Seq<char>, RuleV> {
    Map::new(
        |n: Seq<char>| exists|i: int| k <= i < rules.len() && (#[trigger] rules[i]).name@ == n,
        |n: Seq<char>| rules[choose|i: int| k <= i < rules.len() && (#[trigger] rules[i]).name@ == n]@,
    )
}

pub proof fn lemma_rules_from_all(g: Grammar)
    requires
        g.wf(),
    ensures
        rules_from(g.rules@, 0) == g.rules_view(),
{
    let rules = g.rules@;
    assert forall|n: Seq<char>| #[trigger] rules_from(rules, 0).contains_key(n) <==> g.rules_view().contains_key(n) by {
        if rules_from(rules, 0).contains_key(n) {
            let i = choose|i: int| 0 <= i < rules.len() && (#[trigger] rules[i]).name@ == n;
            assert(rule_index(rules, n) is Some);
        }
        if g.rules_view().contains_key(n) {
            let i = rule_index(rules, n)->0;
            assert(0 <= i < rules.len() && rules[i].name@ == n);
        }
    }
    assert forall|n: Seq<char>| #[trigger] rules_from(rules, 0).contains_key(n) implies rules_from(rules, 0)[n]
        == g.rules_view()[n] by {
        let i = choose|i: int| 0 <= i < rules.len() && (#[trigger] rules[i]).name@ == n;
        let j = rule_index(rules, n)->0;
        assert(rules[j].name@ == n);
        assert(i == j);
    }
    assert(rules_from(rules, 0) =~= g.rules_view());
}

pub proof fn lemma_rules_from_step(rules: Seq<Rule>, k: int)
    requires
        names_unique(rules),
        0 < k <= rules.len(),
    ensures
        rules_from(rules, k - 1) == rules_from(rules, k).insert(rules[k - 1].name@, rules[k - 1]@),
{
    let n0 = rules[k - 1].name@;
    let a = rules_from(rules, k - 1);
    let b = rules_from(rules, k).insert(n0, rules[k - 1]@);
    assert forall|n: Seq<char>| #[trigger] a.contains_key(n) <==> b.contains_key(n) by {
        if a.contains_key(n) && n != n0 {
            let i = choose|i: int| k - 1 <= i < rules.len() && (#[trigger] rules[i]).name@ == n;
            assert(i != k - 1);
        }
        if b.contains_key(n) && n != n0 {
            let i = choose|i: int| k <= i < rules.len() && (#[trigger] rules[i]).name@ == n;
            assert(k - 1 <= i);
        }
    }
    assert forall|n: Seq<char>| #[trigger] a.contains_key(n) implies a[n] == b[n] by {
        let i = choose|i: int| k - 1 <= i < rules.len() && (#[trigger] rules[i]).name@ == n;
        if n == n0 {
            assert(rules[i].name@ == rules[k - 1].name@);
            assert(i == k - 1);
        } else {
            assert(i != k - 1);
            let j = choose|j: int| k <= j < rules.len() && (#[trigger] rules[j]).name@ == n;
            assert(rules[i].name@ == rules[j].name@);
            assert(i == j);
        }
    }
    assert(a =~= b);
}

pub proof fn lemma_rules_from_end(rules: Seq<Rule>)
    ensures
        rules_from(rules, rules.len() as int) == Map::<Seq<char>, RuleV>::empty(),
{
    assert(rules_from(rules, rules.len() as int) =~= Map::<Seq<char>, RuleV>::empty());
}

impl Grammar {
    pub open spec fn wf(&self) -> bool {
        names_unique(self.rules@)
    }

    /// The grammar's rules as a map from name to rule.
    pub open spec fn rule_map(&self) -> Map<Seq<char>, Rule> {
        Map::new(
            |n: Seq<char>| rule_index(self.rules@, n) is Some,
            |n: Seq<char>| self.rules@[rule_index(self.rules@, n)->0],
        )
    }

    /// The grammar's rules as a map from name to the rule's value.
    pub open spec fn rules_view(&self) -> Map<Seq<char>, RuleV> {
        self.rule_map().map_values(|r: Rule| r@)
    }

    /// A grammar with no rules and no entry points.
    pub fn empty() -> (r: Grammar)
        ensures
            r.wf(),
            r.rules@.len() == 0,
            r.entry_points@.len() == 0,
            r.rules_view() == Map::<Seq<char>, RuleV>::empty(),
    {
        let g = Grammar { rules: Vec::new(), entry_points: Vec::new() };
        proof {
            assert(g.rules_view() =~= Map::<Seq<char>, RuleV>::empty());
        }
        g
    }

    /// The position of the rule called `name`.
    pub fn find_rule(&self, name: &String) -> (r: Option<usize>)
        requires
            self.wf(),
        ensures
            r is None <==> rule_index(self.rules@, name@) is None,
            r matches Some(i) ==> i < self.rules@.len() && self.rules@[i as int].name@ == name@,
            r matches Some(i) ==> rule_index(self.rules@, name@) == Some(i as int),
    {
        let mut i: usize = 0;
        while i < self.rules.len()
            invariant
                self.wf(),
                i <= self.rules@.len(),
                forall|k: int| 0 <= k < i ==> (#[trigger] self.rules@[k]).name@ != name@,
            decreases self.rules@.len() - i,
        {
            if self.rules[i].name == *name {
                proof {
                    let k = choose|k: int| 0 <= k < self.rules@.len() && (#[trigger] self.rules@[k]).name@ == name@;
                    assert(self.rules@[i as int].name@ == self.rules@[k].name@);
                }
                return Some(i);
            }
            i += 1;
        }
        None
    }

    /// Adds `rule`, replacing a rule of the same name.
    pub fn insert_rule(&mut self, rule: Rule)
        requires
            old(self).wf(),
        ensures
            final(self).wf(),
            final(self).entry_points@ == old(self).entry_points@,
            final(self).rule_map() == old(self).rule_map().insert(rule.name@, rule),
            final(self).rules_view() == old(self).rules_view().insert(rule.name@, rule@),
    {
        let ghost name = rule.name@;
        let ghost old_map = self.rule_map();
        match self.find_rule(&rule.name) {
            Some(i) => {
                let ghost before = self.rules@;
                self.rules.set(i, rule);
                proof {
                    assert forall|a: int, b: int|
                        0 <= a < self.rules@.len() && 0 <= b < self.rules@.len()
                            && #[trigger] self.rules@[a].name@ == #[trigger] self.rules@[b].name@ implies a == b by {
                        assert(before[a].name@ == self.rules@[a].name@);
                        assert(before[b].name@ == self.rules@[b].name@);
                    }
                    assert forall|n: Seq<char>| #[trigger] rule_index(self.rules@, n) == rule_index(before, n) by {
                        if exists|k: int| 0 <= k < before.len() && (#[trigger] before[k]).name@ == n {
                            let k = choose|k: int| 0 <= k < before.len() && (#[trigger] before[k]).name@ == n;
                            assert(self.rules@[k].name@ == n);
                        }
                        if exists|k: int| 0 <= k < self.rules@.len() && (#[trigger] self.rules@[k]).name@ == n {
                            let k = choose|k: int| 0 <= k < self.rules@.len() && (#[trigger] self.rules@[k]).name@ == n;
                            assert(before[k].name@ == n);
                        }
                    }
                    assert(self.rule_map() =~= old_map.insert(name, self.rules@[i as int]));
                    assert(self.rules_view() =~= old_map.map_values(|r: Rule| r@).insert(name, self.rules@[i as int]@));
                }
            },
            None => {
                let ghost before = self.rules@;
                self.rules.push(rule);
                proof {
                    assert forall|a: int, b: int|
                        0 <= a < self.rules@.len() && 0 <= b < self.rules@.len()
                            && #[trigger] self.rules@[a].name@ == #[trigger] self.rules@[b].name@ implies a == b by {
                        if a < before.len() {
                            assert(before[a].name@ == self.rules@[a].name@);
                        }
                        if b < before.len() {
                            assert(before[b].name@ == self.rules@[b].name@);
                        }
                        if a < before.len() && b == before.len() {
                            assert(rule_index(before, name) is Some);
                        }
                        if b < before.len() && a == before.len() {
                            assert(rule_index(before, name) is Some);
                        }
                    }
                    assert forall|n: Seq<char>| n != name implies #[trigger] rule_index(self.rules@, n) == rule_index(before, n) by {
                        if exists|k: int| 0 <= k < before.len() && (#[trigger] before[k]).name@ == n {
                            let k = choose|k: int| 0 <= k < before.len() && (#[trigger] before[k]).name@ == n;
                            assert(self.rules@[k].name@ == n);
                        }
                        if exists|k: int| 0 <= k < self.rules@.len() && (#[trigger] self.rules@[k]).name@ == n {
                            let k = choose|k: int| 0 <= k < self.rules@.len() && (#[trigger] self.rules@[k]).name@ == n;
                            assert(before[k].name@ == n);
                        }
                    }
                    let last = before.len() as int;
                    assert(self.rules@[last].name@ == name);
                    assert(rule_index(self.rules@, name) == Some(last));
                    assert(self.rule_map() =~= old_map.insert(name, self.rules@[last]));
                    assert(self.rules_view() =~= old_map.map_values(|r: Rule| r@).insert(name, self.rules@[last]@));
                }
            },
        }
    }
}

/// Whether a character counts as upper case: ASCII letters by their case, any other
/// character by the Unicode `Uppercase` property.
pub open spec fn upper_char(c: char) -> bool {
    if 'a' <= c && c <= 'z' {
        false
    } else if 'A' <= c && c <= 'Z' {
        true
    } else {
        uppercase_of(c)
    }
}

/// Built-in type-like rule names that stay expandable at the depth limit.
pub open spec fn builtin_type_name(n: Seq<char>) -> bool {
    n == seq!['C', 'H', 'A', 'R'] || n == seq!['V', 'O', 'I', 'D'] || n == seq!['S', 'T', 'R', 'I', 'N', 'G']
        || n == seq!['I', '8'] || n == seq!['I', '1', '6'] || n == seq!['I', '3', '2'] || n == seq!['I', '6', '4']
        || n == seq!['U', '8'] || n == seq!['U', '1', '6'] || n == seq!['U', '3', '2'] || n == seq!['U', '6', '4']
        || n == seq!['F', '3', '2'] || n == seq!['F', '6', '4'] || n == seq!['t', 'y', 'p', 'e']
}

/// A rule name whose references stay expandable at the depth limit: made of upper-case
/// letters and underscores, or a built-in type name (`IDENTIFIER` is of the first kind).
pub open spec fn is_trivial_name(n: Seq<char>) -> bool {
    (forall|i: int| 0 <= i < n.len() ==> upper_char(#[trigger] n[i]) || n[i] == '_') || builtin_type_name(n)
}

/// Terminal-like operations, which the generator still expands at the depth limit: sets,
/// ranges, terminals, `AnyChar`, references by a trivial name, and sequences and repetitions
/// of trivial operations.
pub open spec fn is_trivial(op: OpV) -> bool
    decreases op,
{
    match op {
        OpV::CharSet(_) => true,
        OpV::CharRange(_, _) => true,
        OpV::Terminal(_) => true,
        OpV::AnyChar => true,
        OpV::RuleRef(n) => is_trivial_name(n),
        OpV::Sequence(v) => forall|i: int| 0 <= i < v.len() ==> is_trivial(#[trigger] v[i]),
        OpV::ZeroOrMore(o) => is_trivial(*o),
        OpV::OneOrMore(o) => is_trivial(*o),
        OpV::Optional(o) => is_trivial(*o),
        _ => false,
    }
}

proof fn lemma_sequence_not_trivial(v: Seq<OpV>, i: int)
    requires
        0 <= i < v.len(),
        !is_trivial(v[i]),
    ensures
        !is_trivial(OpV::Sequence(v)),
{
    let op = OpV::Sequence(v);
    assert(op is Sequence);
    assert(op->Sequence_0 == v);
    assert(!(forall|k: int| 0 <= k < v.len() ==> is_trivial(#[trigger] v[k])));
}

fn is_upper_char(c: char) -> (r: bool)
    ensures
        r == upper_char(c),
{
    if 'a' <= c && c <= 'z' {
        false
    } else if 'A' <= c && c <= 'Z' {
        true
    } else {
        is_uppercase(c)
    }
}

fn is_builtin_type_name(n: &Vec<char>) -> (r: bool)
    ensures
        r == builtin_type_name(n@),
{
    let len = n.len();
    proof {
        assert(n@.subrange(0, len as int) =~= n@);
    }
    slice_is(n, 0, len, &['C', 'H', 'A', 'R']) || slice_is(n, 0, len, &['V', 'O', 'I', 'D'])
        || slice_is(n, 0, len, &['S', 'T', 'R', 'I', 'N', 'G']) || slice_is(n, 0, len, &['I', '8'])
        || slice_is(n, 0, len, &['I', '1', '6']) || slice_is(n, 0, len, &['I', '3', '2'])
        || slice_is(n, 0, len, &['I', '6', '4']) || slice_is(n, 0, len, &['U', '8'])
        || slice_is(n, 0, len, &['U', '1', '6']) || slice_is(n, 0, len, &['U', '3', '2'])
        || slice_is(n, 0, len, &['U', '6', '4']) || slice_is(n, 0, len, &['F', '3', '2'])
        || slice_is(n, 0, len, &['F', '6', '4']) || slice_is(n, 0, len, &['t', 'y', 'p', 'e'])
}

pub fn trivial_name(name: &String) -> (r: bool)
    ensures
        r == is_trivial_name(name@),
{
    let n = chars_of(name.as_str());
    proof {
        assert(n@.subrange(0, n@.len() as int) =~= n@);
    }
    let mut i: usize = 0;
    let mut all_upper = true;
    while i < n.len()
        invariant
            i <= n@.len(),
            all_upper == (forall|k: int| 0 <= k < i ==> upper_char(#[trigger] n@[k]) || n@[k] == '_'),
        decreases n@.len() - i,
    {
        let c = n[i];
        if !(is_upper_char(c) || c == '_') {
            all_upper = false;
        }
        i += 1;
    }
    all_upper || is_builtin_type_name(&n)
}

impl Op {
    /// Whether this operation stays expandable at the depth limit.
    pub fn is_trivial_rule(&self) -> (r: bool)
        ensures
            r == is_trivial(self@),
        decreases self,
    {
        match self {
            Op::CharSet(_) => true,
            Op::CharRange(_, _) => true,
            Op::Terminal(_) => true,
            Op::AnyChar => true,
            Op::RuleRef(name) => trivial_name(name),
            Op::Sequence(ops) => {
                proof {
                    lemma_list_view(*ops);
                    lemma_ops_view_index(ops@);
                }
                let mut i: usize = 0;
                while i < ops.len()
                    invariant
                        *self == Op::Sequence(*ops),
                        self@ == OpV::Sequence(ops_view(ops@)),
                        i <= ops@.len(),
                        ops_view(ops@).len() == ops@.len(),
                        forall|k: int| 0 <= k < ops@.len() ==> #[trigger] ops_view(ops@)[k] == ops@[k]@,
                        forall|k: int| 0 <= k < i ==> is_trivial(#[trigger] ops_view(ops@)[k]),
                    decreases ops@.len() - i,
                {
                    if !ops[i].is_trivial_rule() {
                        proof {
                            lemma_sequence_not_trivial(ops_view(ops@), i as int);
                        }
                        return false;
                    }
                    i += 1;
                }
                true
            },
            Op::ZeroOrMore(o) => o.is_trivial_rule(),
            Op::OneOrMore(o) => o.is_trivial_rule(),
            Op::Optional(o) => o.is_trivial_rule(),
            _ => false,
        }
    }
}

} // verus!
