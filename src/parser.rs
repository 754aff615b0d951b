use vstd::prelude::*;
use vstd::string::StringExecFns;
use crate::ast::{
    is_normal, is_void, lemma_ops_view_empty, lemma_ops_view_push, lemma_rules_from_all,
    lemma_rules_from_end, lemma_rules_from_step, make_alternative, make_sequence, names_unique,
    ops_view, rules_from, simplify_alternative, simplify_sequence, survivors, Grammar, Op, OpV,
    Rule, RuleType, RuleV,
};
use crate::lexer::{lex_spec, tokens_view, Lexer, Token, TokenType, TokenV};
use crate::set_parser::{parse_set_spec, SetError, SetParser};

verus! {

/// Why a grammar text was rejected.
#[derive(Debug, Clone, Copy, PartialEq, Eq, Structural)]
pub enum ParseError {
    /// A token of another kind stood where one of this kind was required.
    Expected(TokenType),
    /// A token that cannot start an operation.
    UnexpectedToken(TokenType),
    /// The tokens ran out.
    UnexpectedEnd,
    /// A malformed character-set literal.
    BadSet(SetError),
}

/// Whether the tokens from `p` on begin with tokens of the kinds `kinds`, in order.
pub open spec fn kinds_match(t: Seq<TokenV>, p: int, kinds: Seq<TokenType>) -> bool {
    0 <= p && p + kinds.len() <= t.len() && forall|i: int| 0 <= i < kinds.len() ==> #[trigger] t[p + i].kind
        == kinds[i]
}

pub open spec fn lexer_header() -> Seq<TokenType> {
    seq![TokenType::Lexer, TokenType::Grammar, TokenType::Identifier, TokenType::SemiColon]
}

pub open spec fn parser_header() -> Seq<TokenType> {
    seq![TokenType::Parser, TokenType::Grammar, TokenType::Identifier, TokenType::SemiColon]
}

pub open spec fn options_block() -> Seq<TokenType> {
    seq![
        TokenType::Options,
        TokenType::OpenCurly,
        TokenType::Identifier,
        TokenType::Equal,
        TokenType::Identifier,
        TokenType::SemiColon,
        TokenType::CloseCurly,
    ]
}

/// Every rule of the grammar has a body in normal form.
pub open spec fn rules_normal(g: Grammar) -> bool {
    forall|i: int| 0 <= i < g.rules@.len() ==> is_normal(#[trigger] g.rules@[i].definition@)
}


// ---------------------------------------------------------------------------
// The grammar language, as recursive descent over tokens
// ---------------------------------------------------------------------------

/// The outcome of parsing from a position: the operation, the position after it, and whether
/// a `-> skip` directive was met on the way; or the error.
pub enum Parsed {
    Op(OpV, int, bool),
    Failed(ParseError),
}

pub open spec fn kind_at(t: Seq<TokenV>, p: int) -> Option<TokenType> {
    if 0 <= p < t.len() {
        Some(t[p].kind)
    } else {
        None
    }
}

/// The error for a token of kind `k` missing at `p`.
pub open spec fn expect_error(t: Seq<TokenV>, p: int, k: TokenType) -> ParseError {
    if 0 <= p < t.len() {
        ParseError::Expected(k)
    } else {
        ParseError::UnexpectedEnd
    }
}

/// The first mismatch when tokens of the kinds `kinds` are required from `p` on, if any.
pub open spec fn expect_kinds(t: Seq<TokenV>, p: int, kinds: Seq<TokenType>) -> Option<ParseError>
    decreases kinds.len(),
{
    if kinds.len() == 0 {
        None
    } else if kind_at(t, p) == Some(kinds[0]) {
        expect_kinds(t, p + 1, kinds.drop_first())
    } else {
        Some(expect_error(t, p, kinds[0]))
    }
}

pub open spec fn annotation_kinds() -> Seq<TokenType> {
    seq![TokenType::Identifier, TokenType::Equal, TokenType::Identifier, TokenType::CloseAngle]
}

pub open spec fn ends_sequence(k: Option<TokenType>) -> bool {
    k is None || k == Some(TokenType::SemiColon) || k == Some(TokenType::EndOfFile) || k == Some(
        TokenType::Or,
    ) || k == Some(TokenType::CloseParen)
}

/// A rule body from `p`: alternatives separated by `|`, simplified.
pub open spec fn p_def(t: Seq<TokenV>, p: int) -> Parsed
    decreases t.len() - p, 4int,
{
    if p < 0 || p > t.len() {
        Parsed::Failed(ParseError::UnexpectedEnd)
    } else {
        match p_seq(t, p, seq![], false) {
            Parsed::Failed(e) => Parsed::Failed(e),
            Parsed::Op(op, q, sk) => if p <= q <= t.len() {
                p_alts(t, q, seq![op], sk)
            } else {
                Parsed::Failed(ParseError::UnexpectedEnd)
            },
        }
    }
}

/// Further alternatives from `q`, after those in `acc`.
pub open spec fn p_alts(t: Seq<TokenV>, q: int, acc: Seq<OpV>, sk: bool) -> Parsed
    decreases t.len() - q, 3int,
{
    if kind_at(t, q) == Some(TokenType::Or) {
        match p_seq(t, q + 1, seq![], false) {
            Parsed::Failed(e) => Parsed::Failed(e),
            Parsed::Op(op, r, sk2) => if q < r <= t.len() {
                p_alts(t, r, acc.push(op), sk || sk2)
            } else {
                Parsed::Failed(ParseError::UnexpectedEnd)
            },
        }
    } else {
        Parsed::Op(simplify_alternative(acc), q, sk)
    }
}

/// Operations from `p` up to `;`, `|`, `)` or the end, after those in `acc`, simplified; a
/// `-> skip` marker is left out.
pub open spec fn p_seq(t: Seq<TokenV>, p: int, acc: Seq<OpV>, sk: bool) -> Parsed
    decreases t.len() - p, 2int,
{
    if ends_sequence(kind_at(t, p)) {
        Parsed::Op(simplify_sequence(acc), p, sk)
    } else {
        match p_op(t, p) {
            Parsed::Failed(e) => Parsed::Failed(e),
            Parsed::Op(op, q, sk2) => if p < q <= t.len() {
                p_seq(t, q, if op == OpV::Skip { acc } else { acc.push(op) }, sk || sk2)
            } else {
                Parsed::Failed(ParseError::UnexpectedEnd)
            },
        }
    }
}

/// A primary term with at most one `+`, `*` or `?` after it.
pub open spec fn p_op(t: Seq<TokenV>, p: int) -> Parsed
    decreases t.len() - p, 1int,
{
    match p_prim(t, p) {
        Parsed::Failed(e) => Parsed::Failed(e),
        Parsed::Op(op, q, sk) => if op == OpV::Skip {
            Parsed::Op(op, q, sk)
        } else if kind_at(t, q) == Some(TokenType::Plus) {
            Parsed::Op(OpV::OneOrMore(Box::new(op)), q + 1, sk)
        } else if kind_at(t, q) == Some(TokenType::Star) {
            Parsed::Op(OpV::ZeroOrMore(Box::new(op)), q + 1, sk)
        } else if kind_at(t, q) == Some(TokenType::QuestionMark) {
            Parsed::Op(OpV::Optional(Box::new(op)), q + 1, sk)
        } else {
            Parsed::Op(op, q, sk)
        },
    }
}

/// A primary term at `p`.
pub open spec fn p_prim(t: Seq<TokenV>, p: int) -> Parsed
    decreases t.len() - p, 0int,
{
    if p < 0 || p >= t.len() {
        Parsed::Failed(ParseError::UnexpectedEnd)
    } else {
        let k = t[p].kind;
        if k == TokenType::String {
            Parsed::Op(OpV::Terminal(t[p].text), p + 1, false)
        } else if k == TokenType::Identifier {
            Parsed::Op(OpV::RuleRef(t[p].text), p + 1, false)
        } else if k == TokenType::OpenParen {
            match p_def(t, p + 1) {
                Parsed::Failed(e) => Parsed::Failed(e),
                Parsed::Op(op, q, sk) => if kind_at(t, q) == Some(TokenType::CloseParen) {
                    Parsed::Op(op, q + 1, sk)
                } else {
                    Parsed::Failed(expect_error(t, q, TokenType::CloseParen))
                },
            }
        } else if k == TokenType::Tilde {
            match p_def(t, p + 1) {
                Parsed::Failed(e) => Parsed::Failed(e),
                Parsed::Op(op, q, sk) => Parsed::Op(OpV::Not(Box::new(op)), q, sk),
            }
        } else if k == TokenType::CharSet {
            match parse_set_spec(t[p].text) {
                Ok(v) => Parsed::Op(v, p + 1, false),
                Err(e) => Parsed::Failed(ParseError::BadSet(e)),
            }
        } else if k == TokenType::Dot {
            Parsed::Op(OpV::AnyChar, p + 1, false)
        } else if k == TokenType::EOF {
            Parsed::Op(OpV::EofDefinition, p + 1, false)
        } else if k == TokenType::Arrow {
            if kind_at(t, p + 1) == Some(TokenType::Skip) {
                Parsed::Op(OpV::Skip, p + 2, true)
            } else {
                Parsed::Failed(expect_error(t, p + 1, TokenType::Skip))
            }
        } else if k == TokenType::OpenAngle {
            if expect_kinds(t, p + 1, annotation_kinds()) is Some {
                Parsed::Failed(expect_kinds(t, p + 1, annotation_kinds())->0)
            } else if p + 5 <= t.len() {
                p_prim(t, p + 5)
            } else {
                Parsed::Failed(ParseError::UnexpectedEnd)
            }
        } else {
            Parsed::Failed(ParseError::UnexpectedToken(k))
        }
    }
}

/// The outcome of parsing one rule from a position: the rule and the position after it; or
/// the error.
pub enum RuleParsed {
    Rule(RuleV, int),
    Failed(ParseError),
}

/// One rule at `p`: `[fragment] name : body ;`; its skip flag records a `-> skip` in the body.
pub open spec fn p_rule(t: Seq<TokenV>, p: int) -> RuleParsed {
    if kind_at(t, p) is None {
        RuleParsed::Failed(ParseError::UnexpectedEnd)
    } else {
        let fragment = kind_at(t, p) == Some(TokenType::Fragment);
        let p1 = if fragment { p + 1 } else { p };
        let ty = if fragment { RuleType::Fragment } else { RuleType::Other };
        if kind_at(t, p1) != Some(TokenType::Identifier) {
            RuleParsed::Failed(expect_error(t, p1, TokenType::Identifier))
        } else if kind_at(t, p1 + 1) != Some(TokenType::Colon) {
            RuleParsed::Failed(expect_error(t, p1 + 1, TokenType::Colon))
        } else {
            match p_def(t, p1 + 2) {
                Parsed::Failed(e) => RuleParsed::Failed(e),
                Parsed::Op(def, q, sk) => if kind_at(t, q) == Some(TokenType::SemiColon) {
                    RuleParsed::Rule(RuleV { name: t[p1].text, rule_type: ty, definition: def, skip: sk }, q + 1)
                } else {
                    RuleParsed::Failed(expect_error(t, q, TokenType::SemiColon))
                },
            }
        }
    }
}

/// The outcome of parsing the rules of a file: the rules by name, a later rule replacing an
/// earlier one of the same name; or the first error.
pub enum RulesParsed {
    Done(Map<Seq<char>, RuleV>),
    Failed(ParseError),
}

/// The rules from `p` up to the end of the tokens, added to `m`.
pub open spec fn p_rules(t: Seq<TokenV>, p: int, m: Map<Seq<char>, RuleV>) -> RulesParsed
    decreases t.len() - p,
{
    if kind_at(t, p) is None || kind_at(t, p) == Some(TokenType::EndOfFile) {
        RulesParsed::Done(m)
    } else {
        match p_rule(t, p) {
            RuleParsed::Failed(e) => RulesParsed::Failed(e),
            RuleParsed::Rule(rv, q) => if p < q <= t.len() {
                p_rules(t, q, m.insert(rv.name, rv))
            } else {
                RulesParsed::Failed(ParseError::UnexpectedEnd)
            },
        }
    }
}

proof fn lemma_expect_kinds_concat(t: Seq<TokenV>, p: int, a: Seq<TokenType>, b: Seq<TokenType>)
    ensures
        expect_kinds(t, p, a + b) == (if expect_kinds(t, p, a) is Some {
            expect_kinds(t, p, a)
        } else {
            expect_kinds(t, p + a.len(), b)
        }),
    decreases a.len(),
{
    if a.len() > 0 {
        assert((a + b).drop_first() =~= a.drop_first() + b);
        assert((a + b)[0] == a[0]);
        lemma_expect_kinds_concat(t, p + 1, a.drop_first(), b);
    } else {
        assert(a + b =~= b);
    }
}

/// The grammar a file's tokens give, after a header of the kinds `header` at the start.
pub open spec fn p_file(t: Seq<TokenV>, header: Seq<TokenType>) -> RulesParsed {
    if expect_kinds(t, 0, header) is Some {
        RulesParsed::Failed(expect_kinds(t, 0, header)->0)
    } else {
        p_rules(t, header.len() as int, Map::empty())
    }
}

/// The exec result `g` is the one `s` describes.
pub open spec fn grammar_agrees(r: Result<Grammar, ParseError>, s: RulesParsed) -> bool {
    match s {
        RulesParsed::Done(m) => r is Ok && r->Ok_0.rules_view() == m,
        RulesParsed::Failed(e) => r == Err::<Grammar, ParseError>(e),
    }
}

/// The exec result `r`, with the parser's position and skip flag after parsing (and the flag
/// before), is the one `s` describes.
pub open spec fn agrees(r: Result<Op, ParseError>, pos: int, skip_after: bool, skip_before: bool, s: Parsed) -> bool {
    match s {
        Parsed::Op(op, q, sk) => r is Ok && r->Ok_0@ == op && pos == q && skip_after == (skip_before || sk),
        Parsed::Failed(e) => r == Err::<Op, ParseError>(e),
    }
}

/// A recursive-descent parser over the tokens of one grammar file.
pub struct Parser {
    tokens: Vec<Token>,
    pos: usize,
    in_skip_rule: bool,
}

impl Parser {
    pub closed spec fn wf(&self) -> bool {
        self.pos <= self.tokens@.len()
    }

    /// The tokens being parsed.
    pub closed spec fn token_values(&self) -> Seq<TokenV> {
        tokens_view(self.tokens@)
    }

    pub closed spec fn tokens_seq(&self) -> Seq<Token> {
        self.tokens@
    }

    /// Whether a `-> skip` directive has been met in the current rule.
    pub closed spec fn skip_seen(&self) -> bool {
        self.in_skip_rule
    }

    /// How many tokens have been consumed.
    pub closed spec fn position(&self) -> int {
        self.pos as int
    }

    pub fn new() -> (r: Parser)
        ensures
            r.wf(),
    {
        Parser { tokens: Vec::new(), pos: 0, in_skip_rule: false }
    }

    /// Parses a lexer grammar: `lexer grammar <name> ;` followed by rules.
    pub fn parse_lexer_rules(&mut self, grammar_str: String) -> (r: Result<Grammar, ParseError>)
        ensures
            !kinds_match(lex_spec(grammar_str@), 0, lexer_header()) ==> r is Err,
            r matches Ok(g) ==> g.wf() && rules_normal(g) && g.entry_points@.len() == 0,
            grammar_agrees(r, p_file(lex_spec(grammar_str@), lexer_header())),
    {
        self.load(grammar_str);
        let header = [TokenType::Lexer, TokenType::Grammar, TokenType::Identifier, TokenType::SemiColon];
        proof {
            assert(header@ =~= lexer_header());
        }
        match self.expect_and_consume_n(&header) {
            Ok(()) => {},
            Err(e) => {
                return Err(e);
            },
        }
        self.parse()
    }

    /// Parses a parser grammar: `parser grammar <name> ;`, an `options { a = b ; }` block,
    /// then rules.
    pub fn parse_parser_rules(&mut self, grammar_str: String) -> (r: Result<Grammar, ParseError>)
        ensures
            !kinds_match(lex_spec(grammar_str@), 0, parser_header()) ==> r is Err,
            kinds_match(lex_spec(grammar_str@), 0, parser_header()) && !kinds_match(
                lex_spec(grammar_str@),
                4,
                options_block(),
            ) ==> r is Err,
            r matches Ok(g) ==> g.wf() && rules_normal(g) && g.entry_points@.len() == 0,
            grammar_agrees(r, p_file(lex_spec(grammar_str@), parser_header() + options_block())),
    {
        self.load(grammar_str);
        proof {
            lemma_expect_kinds_concat(lex_spec(grammar_str@), 0, parser_header(), options_block());
        }
        let header = [TokenType::Parser, TokenType::Grammar, TokenType::Identifier, TokenType::SemiColon];
        proof {
            assert(header@ =~= parser_header());
        }
        match self.expect_and_consume_n(&header) {
            Ok(()) => {},
            Err(e) => {
                return Err(e);
            },
        }
        let options = [
            TokenType::Options,
            TokenType::OpenCurly,
            TokenType::Identifier,
            TokenType::Equal,
            TokenType::Identifier,
            TokenType::SemiColon,
            TokenType::CloseCurly,
        ];
        proof {
            assert(options@ =~= options_block());
        }
        match self.expect_and_consume_n(&options) {
            Ok(()) => {},
            Err(e) => {
                return Err(e);
            },
        }
        self.parse()
    }

    fn load(&mut self, grammar_str: String)
        ensures
            final(self).wf(),
            final(self).token_values() == lex_spec(grammar_str@),
            final(self).position() == 0,
            !final(self).in_skip_rule,
    {
        let mut lexer = Lexer::new(grammar_str);
        self.tokens = lexer.lex();
        self.pos = 0;
        self.in_skip_rule = false;
    }

    /// The rules up to the end of the tokens.
    fn parse(&mut self) -> (r: Result<Grammar, ParseError>)
        requires
            old(self).wf(),
            !old(self).in_skip_rule,
        ensures
            r matches Ok(g) ==> g.wf() && rules_normal(g) && g.entry_points@.len() == 0,
            grammar_agrees(r, p_rules(tokens_view(old(self).tokens@), old(self).pos as int, Map::empty())),
    {
        let ghost t = tokens_view(self.tokens@);
        let ghost p0 = self.pos as int;
        let mut grammar = Grammar::empty();
        loop
            invariant
                self.wf(),
                self.tokens@ == old(self).tokens@,
                t == tokens_view(self.tokens@),
                p0 == old(self).pos,
                !self.in_skip_rule,
                grammar.wf(),
                rules_normal(grammar),
                grammar.entry_points@.len() == 0,
                p_rules(t, p0, Map::empty()) == p_rules(t, self.pos as int, grammar.rules_view()),
            decreases self.tokens@.len() - self.pos,
        {
            proof {
                lemma_kind_at(self.tokens@, self.pos as int);
            }
            match self.peek_kind() {
                None => {
                    return Ok(grammar);
                },
                Some(TokenType::EndOfFile) => {
                    self.advance();
                    return Ok(grammar);
                },
                Some(_) => {},
            }
            let ghost at = self.pos as int;
            let mut rule = match self.parse_rule() {
                Ok(rule) => rule,
                Err(e) => {
                    return Err(e);
                },
            };
            if self.in_skip_rule {
                rule.skip = true;
                self.in_skip_rule = false;
            }
            proof {
                let rv = p_rule(t, at)->Rule_0;
                assert(rule@ == rv);
            }
            insert_normal(&mut grammar, rule);
        }
    }

    fn parse_rule_type(&mut self) -> (r: Result<RuleType, ParseError>)
        requires
            old(self).wf(),
        ensures
            final(self).wf(),
            final(self).tokens@ == old(self).tokens@,
            final(self).in_skip_rule == old(self).in_skip_rule,
            old(self).pos <= final(self).pos,
            kind_at(tokens_view(old(self).tokens@), old(self).pos as int) is None ==> r == Err::<RuleType, ParseError>(ParseError::UnexpectedEnd),
            kind_at(tokens_view(old(self).tokens@), old(self).pos as int) == Some(TokenType::Fragment) ==> r == Ok::<RuleType, ParseError>(RuleType::Fragment) && final(self).pos == old(self).pos + 1,
            kind_at(tokens_view(old(self).tokens@), old(self).pos as int) is Some && kind_at(tokens_view(old(self).tokens@), old(self).pos as int) != Some(TokenType::Fragment)
                ==> r == Ok::<RuleType, ParseError>(RuleType::Other) && final(self).pos == old(self).pos,
    {
        proof {
            lemma_kind_at(self.tokens@, self.pos as int);
        }
        match self.peek_kind() {
            Some(TokenType::Fragment) => {
                self.advance();
                Ok(RuleType::Fragment)
            },
            Some(_) => Ok(RuleType::Other),
            None => Err(ParseError::UnexpectedEnd),
        }
    }

    /// One rule: `[fragment] name : body ;`.
    fn parse_rule(&mut self) -> (r: Result<Rule, ParseError>)
        requires
            old(self).wf(),
        ensures
            final(self).wf(),
            final(self).tokens@ == old(self).tokens@,
            r is Ok ==> old(self).pos < final(self).pos,
            r matches Ok(rule) ==> is_normal(rule.definition@) && !rule.skip,
            p_rule(tokens_view(old(self).tokens@), old(self).pos as int) is Failed ==> r == Err::<Rule, ParseError>(
                p_rule(tokens_view(old(self).tokens@), old(self).pos as int)->Failed_0,
            ),
            p_rule(tokens_view(old(self).tokens@), old(self).pos as int) is Rule ==> r is Ok && ({
                let rv = p_rule(tokens_view(old(self).tokens@), old(self).pos as int)->Rule_0;
                &&& r->Ok_0.name@ == rv.name
                &&& r->Ok_0.rule_type == rv.rule_type
                &&& r->Ok_0.definition@ == rv.definition
                &&& final(self).in_skip_rule == (old(self).in_skip_rule || rv.skip)
                &&& final(self).pos == p_rule(tokens_view(old(self).tokens@), old(self).pos as int)->Rule_1
            }),
    {
        let ghost t = tokens_view(self.tokens@);
        let ghost p = self.pos as int;
        proof {
            lemma_kind_at(self.tokens@, p);
            lemma_kind_at(self.tokens@, p + 1);
            lemma_kind_at(self.tokens@, p + 2);
        }
        let rule_type = match self.parse_rule_type() {
            Ok(t) => t,
            Err(e) => {
                return Err(e);
            },
        };
        let name_at = match self.expect(TokenType::Identifier) {
            Ok(i) => i,
            Err(e) => {
                return Err(e);
            },
        };
        let name = self.tokens[name_at].value.clone();
        proof {
            assert(t[name_at as int] == self.tokens@[name_at as int]@);
        }
        match self.expect(TokenType::Colon) {
            Ok(_) => {},
            Err(e) => {
                return Err(e);
            },
        }
        let definition = match self.parse_rule_definition() {
            Ok(d) => d,
            Err(e) => {
                return Err(e);
            },
        };
        proof {
            lemma_kind_at(self.tokens@, self.pos as int);
        }
        match self.expect(TokenType::SemiColon) {
            Ok(_) => {},
            Err(e) => {
                return Err(e);
            },
        }
        Ok(Rule { name, rule_type, definition, skip: false })
    }

    /// A rule body: alternatives separated by `|`, simplified.
    pub fn parse_rule_definition(&mut self) -> (r: Result<Op, ParseError>)
        requires
            old(self).wf(),
        ensures
            final(self).wf(),
            final(self).tokens_seq() == old(self).tokens_seq(),
            old(self).position() <= final(self).position(),
            r matches Ok(op) ==> is_normal(op@),
            agrees(r, final(self).position(), final(self).skip_seen(), old(self).skip_seen(), p_def(old(self).token_values(), old(self).position())),
        decreases old(self).tokens_seq().len() - old(self).position(), 3int,
    {
        let ghost t = tokens_view(self.tokens@);
        let ghost p0 = self.pos as int;
        let ghost skip0 = self.in_skip_rule;
        let mut alternatives: Vec<Op> = Vec::new();
        let first = match self.parse_sequence() {
            Ok(op) => op,
            Err(e) => {
                return Err(e);
            },
        };
        proof {
            lemma_ops_view_empty();
            lemma_ops_view_push(alternatives@, first);
        }
        alternatives.push(first);
        let ghost mut sk: bool = p_seq(t, p0, seq![], false)->Op_2;
        proof {
            assert(ops_view(alternatives@) =~= seq![first@]);
        }
        loop
            invariant
                self.wf(),
                self.tokens@ == old(self).tokens@,
                t == tokens_view(self.tokens@),
                p0 == old(self).pos,
                skip0 == old(self).in_skip_rule,
                old(self).pos <= self.pos,
                all_normal(ops_view(alternatives@)),
                p_def(t, p0) == p_alts(t, self.pos as int, ops_view(alternatives@), sk),
                self.in_skip_rule == (skip0 || sk),
            decreases self.tokens@.len() - self.pos,
        {
            proof {
                lemma_kind_at(self.tokens@, self.pos as int);
            }
            match self.peek_kind() {
                Some(TokenType::Or) => {},
                _ => {
                    let ghost children = ops_view(alternatives@);
                    let r = make_alternative(alternatives);
                    proof {
                        lemma_simplify_normal(children);
                    }
                    return Ok(r);
                },
            }
            self.advance();
            let ghost q = self.pos as int;
            let next = match self.parse_sequence() {
                Ok(op) => op,
                Err(e) => {
                    return Err(e);
                },
            };
            proof {
                sk = sk || p_seq(t, q, seq![], false)->Op_2;
                lemma_ops_view_push(alternatives@, next);
                lemma_all_normal_push(ops_view(alternatives@), next@);
            }
            alternatives.push(next);
        }
    }

    /// Operations up to `;`, `|`, `)` or the end, simplified; `-> skip` markers are left out.
    fn parse_sequence(&mut self) -> (r: Result<Op, ParseError>)
        requires
            old(self).wf(),
        ensures
            final(self).wf(),
            final(self).tokens@ == old(self).tokens@,
            old(self).pos <= final(self).pos,
            r matches Ok(op) ==> is_normal(op@),
            agrees(r, final(self).pos as int, final(self).in_skip_rule, old(self).in_skip_rule, p_seq(tokens_view(old(self).tokens@), old(self).pos as int, seq![], false)),
        decreases old(self).tokens@.len() - old(self).pos, 2int,
    {
        let ghost t = tokens_view(self.tokens@);
        let ghost p0 = self.pos as int;
        let ghost skip0 = self.in_skip_rule;
        let ghost mut sk: bool = false;
        let mut sequence: Vec<Op> = Vec::new();
        proof {
            lemma_ops_view_empty();
        }
        loop
            invariant
                self.wf(),
                self.tokens@ == old(self).tokens@,
                t == tokens_view(self.tokens@),
                p0 == old(self).pos,
                skip0 == old(self).in_skip_rule,
                old(self).pos <= self.pos,
                all_normal(ops_view(sequence@)),
                p_seq(t, p0, seq![], false) == p_seq(t, self.pos as int, ops_view(sequence@), sk),
                self.in_skip_rule == (skip0 || sk),
            decreases self.tokens@.len() - self.pos,
        {
            proof {
                lemma_kind_at(self.tokens@, self.pos as int);
            }
            let stop = match self.peek_kind() {
                None => true,
                Some(TokenType::SemiColon) | Some(TokenType::EndOfFile) | Some(TokenType::Or) | Some(
                    TokenType::CloseParen,
                ) => true,
                Some(_) => false,
            };
            if stop {
                let ghost children = ops_view(sequence@);
                let r = make_sequence(sequence);
                proof {
                    lemma_simplify_normal(children);
                }
                return Ok(r);
            }
            let ghost before = self.pos as int;
            let op = match self.parse_operation() {
                Ok(op) => op,
                Err(e) => {
                    return Err(e);
                },
            };
            proof {
                sk = sk || p_op(t, before)->Op_2;
            }
            if !is_skip(&op) {
                proof {
                    lemma_ops_view_push(sequence@, op);
                    lemma_all_normal_push(ops_view(sequence@), op@);
                }
                sequence.push(op);
            }
        }
    }

    /// A primary term with at most one `+`, `*` or `?` after it.
    fn parse_operation(&mut self) -> (r: Result<Op, ParseError>)
        requires
            old(self).wf(),
        ensures
            final(self).wf(),
            final(self).tokens@ == old(self).tokens@,
            r is Ok ==> old(self).pos < final(self).pos,
            old(self).pos <= final(self).pos,
            r matches Ok(op) ==> op@ == OpV::Skip || is_normal(op@),
            agrees(r, final(self).pos as int, final(self).in_skip_rule, old(self).in_skip_rule, p_op(tokens_view(old(self).tokens@), old(self).pos as int)),
        decreases old(self).tokens@.len() - old(self).pos, 1int,
    {
        let op = match self.parse_primary_operation() {
            Ok(op) => op,
            Err(e) => {
                return Err(e);
            },
        };
        if is_skip(&op) {
            return Ok(op);
        }
        match self.peek_kind() {
            Some(TokenType::Plus) => {
                self.advance();
                Ok(Op::OneOrMore(Box::new(op)))
            },
            Some(TokenType::Star) => {
                self.advance();
                Ok(Op::ZeroOrMore(Box::new(op)))
            },
            Some(TokenType::QuestionMark) => {
                self.advance();
                Ok(Op::Optional(Box::new(op)))
            },
            _ => Ok(op),
        }
    }

    /// A terminal, a rule reference, a parenthesised body, `~` and a body, a set, `.`, `EOF`,
    /// or `-> skip`; an `< a = b >` annotation before a term is passed over.
    fn parse_primary_operation(&mut self) -> (r: Result<Op, ParseError>)
        requires
            old(self).wf(),
        ensures
            final(self).wf(),
            final(self).tokens@ == old(self).tokens@,
            r is Ok ==> old(self).pos < final(self).pos,
            old(self).pos <= final(self).pos,
            r matches Ok(op) ==> op@ == OpV::Skip || is_normal(op@),
            agrees(r, final(self).pos as int, final(self).in_skip_rule, old(self).in_skip_rule, p_prim(tokens_view(old(self).tokens@), old(self).pos as int)),
        decreases old(self).tokens@.len() - old(self).pos, 0int,
    {
        if self.pos >= self.tokens.len() {
            return Err(ParseError::UnexpectedEnd);
        }
        let at = self.pos;
        self.advance();
        let kind = self.tokens[at].token_type;
        match kind {
            TokenType::String => self.parse_terminal_operation(at),
            TokenType::Identifier => self.parse_rule_reference(at),
            TokenType::OpenParen => {
                let inner = match self.parse_rule_definition() {
                    Ok(op) => op,
                    Err(e) => {
                        return Err(e);
                    },
                };
                match self.expect(TokenType::CloseParen) {
                    Ok(_) => Ok(inner),
                    Err(e) => Err(e),
                }
            },
            TokenType::Tilde => {
                let inner = match self.parse_rule_definition() {
                    Ok(op) => op,
                    Err(e) => {
                        return Err(e);
                    },
                };
                Ok(Op::Not(Box::new(inner)))
            },
            TokenType::CharSet => {
                let sp = SetParser::new();
                match sp.parse_set(self.tokens[at].value.as_str()) {
                    Ok(op) => Ok(op),
                    Err(e) => Err(ParseError::BadSet(e)),
                }
            },
            TokenType::Dot => Ok(Op::AnyChar),
            TokenType::EOF => Ok(Op::EofDefinition),
            TokenType::Arrow => {
                match self.expect(TokenType::Skip) {
                    Ok(_) => {},
                    Err(e) => {
                        return Err(e);
                    },
                }
                self.in_skip_rule = true;
                Ok(Op::Skip)
            },
            TokenType::OpenAngle => {
                let annotation = [TokenType::Identifier, TokenType::Equal, TokenType::Identifier, TokenType::CloseAngle];
                match self.expect_and_consume_n(&annotation) {
                    Ok(()) => {},
                    Err(e) => {
                        return Err(e);
                    },
                }
                self.parse_primary_operation()
            },
            other => Err(ParseError::UnexpectedToken(other)),
        }
    }

    fn parse_terminal_operation(&self, at: usize) -> (r: Result<Op, ParseError>)
        requires
            at < self.tokens@.len(),
        ensures
            r is Ok,
            r->Ok_0@ == OpV::Terminal(self.tokens@[at as int].value@),
    {
        Ok(Op::Terminal(self.tokens[at].value.clone()))
    }

    fn parse_rule_reference(&self, at: usize) -> (r: Result<Op, ParseError>)
        requires
            at < self.tokens@.len(),
        ensures
            r is Ok,
            r->Ok_0@ == OpV::RuleRef(self.tokens@[at as int].value@),
    {
        Ok(Op::RuleRef(self.tokens[at].value.clone()))
    }

    /// Moves past the current token.
    fn advance(&mut self)
        requires
            old(self).pos < old(self).tokens@.len(),
        ensures
            final(self).tokens@ == old(self).tokens@,
            final(self).in_skip_rule == old(self).in_skip_rule,
            final(self).pos == old(self).pos + 1,
    {
        if self.pos < self.tokens.len() {
            self.pos = self.pos + 1;
        }
    }

    /// The kind of the next token, if any is left.
    fn peek_kind(&self) -> (r: Option<TokenType>)
        requires
            self.wf(),
        ensures
            r == (if self.pos < self.tokens@.len() {
                Some(self.tokens@[self.pos as int].token_type)
            } else {
                None
            }),
    {
        if self.pos < self.tokens.len() {
            Some(self.tokens[self.pos].token_type)
        } else {
            None
        }
    }

    /// Consumes a token of kind `expected`; its index.
    fn expect(&mut self, expected: TokenType) -> (r: Result<usize, ParseError>)
        requires
            old(self).wf(),
        ensures
            final(self).wf(),
            final(self).tokens@ == old(self).tokens@,
            final(self).in_skip_rule == old(self).in_skip_rule,
            r is Ok <==> old(self).pos < old(self).tokens@.len() && old(self).tokens@[old(
                self,
            ).pos as int].token_type == expected,
            r is Ok ==> r == Ok::<usize, ParseError>(old(self).pos) && final(self).pos == old(self).pos + 1,
            r is Err ==> final(self).pos == old(self).pos,
            r is Err ==> r == Err::<usize, ParseError>(
                expect_error(tokens_view(old(self).tokens@), old(self).pos as int, expected),
            ),
    {
        proof {
            if self.pos < self.tokens@.len() {
                assert(tokens_view(self.tokens@)[self.pos as int] == self.tokens@[self.pos as int]@);
            }
        }
        if self.pos < self.tokens.len() {
            if self.tokens[self.pos].token_type == expected {
                let at = self.pos;
                self.advance();
                Ok(at)
            } else {
                Err(ParseError::Expected(expected))
            }
        } else {
            Err(ParseError::UnexpectedEnd)
        }
    }

    /// Consumes tokens of the kinds `token_types`, in order.
    fn expect_and_consume_n(&mut self, token_types: &[TokenType]) -> (r: Result<(), ParseError>)
        requires
            old(self).wf(),
        ensures
            final(self).wf(),
            final(self).tokens@ == old(self).tokens@,
            final(self).in_skip_rule == old(self).in_skip_rule,
            r is Ok <==> kinds_match(tokens_view(old(self).tokens@), old(self).pos as int, token_types@),
            r is Ok ==> final(self).pos == old(self).pos + token_types@.len(),
            old(self).pos <= final(self).pos,
            r is Ok <==> expect_kinds(tokens_view(old(self).tokens@), old(self).pos as int, token_types@) is None,
            r is Err ==> expect_kinds(tokens_view(old(self).tokens@), old(self).pos as int, token_types@)
                == Some(r->Err_0),
    {
        let mut i: usize = 0;
        let ghost p0 = self.pos as int;
        proof {
            assert(token_types@.subrange(0, token_types@.len() as int) =~= token_types@);
        }
        while i < token_types.len()
            invariant
                self.wf(),
                self.tokens@ == old(self).tokens@,
                self.in_skip_rule == old(self).in_skip_rule,
                p0 == old(self).pos,
                i <= token_types@.len(),
                self.pos == p0 + i,
                p0 + i <= self.tokens@.len(),
                forall|k: int| 0 <= k < i ==> #[trigger] self.tokens@[p0 + k].token_type == token_types@[k],
                expect_kinds(tokens_view(self.tokens@), p0, token_types@) == expect_kinds(
                    tokens_view(self.tokens@),
                    p0 + i,
                    token_types@.subrange(i as int, token_types@.len() as int),
                ),
            decreases token_types@.len() - i,
        {
            proof {
                let rest = token_types@.subrange(i as int, token_types@.len() as int);
                assert(rest.drop_first() =~= token_types@.subrange(i + 1, token_types@.len() as int));
                assert(rest[0] == token_types@[i as int]);
                if p0 + i < self.tokens@.len() {
                    assert(tokens_view(self.tokens@)[p0 + i] == self.tokens@[p0 + i]@);
                }
            }
            match self.expect(token_types[i]) {
                Ok(_) => {},
                Err(e) => {
                    proof {
                        let t = tokens_view(self.tokens@);
                        if kinds_match(t, p0, token_types@) {
                            assert(t[p0 + i].kind == token_types@[i as int]);
                        }
                    }
                    return Err(e);
                },
            }
            i += 1;
        }
        proof {
            let t = tokens_view(self.tokens@);
            assert forall|k: int| 0 <= k < token_types@.len() implies #[trigger] t[p0 + k].kind
                == token_types@[k] by {
                assert(self.tokens@[p0 + k].token_type == token_types@[k]);
            }
            assert(token_types@.subrange(i as int, token_types@.len() as int).len() == 0);
        }
        Ok(())
    }
}

/// Adds `rule` to `g`, replacing a rule of the same name; bodies stay in normal form.
fn insert_normal(g: &mut Grammar, rule: Rule)
    requires
        old(g).wf(),
        rules_normal(*old(g)),
        is_normal(rule.definition@),
    ensures
        final(g).wf(),
        rules_normal(*final(g)),
        final(g).entry_points@ == old(g).entry_points@,
        final(g).rule_map() == old(g).rule_map().insert(rule.name@, rule),
        final(g).rules_view() == old(g).rules_view().insert(rule.name@, rule@),
{
    let ghost g0 = *g;
    let ghost added = rule;
    g.insert_rule(rule);
    proof {
        assert forall|i: int| 0 <= i < g.rules@.len() implies is_normal(
            #[trigger] g.rules@[i].definition@,
        ) by {
            let n = g.rules@[i].name@;
            assert(crate::ast::rule_index(g.rules@, n) is Some);
            let j = crate::ast::rule_index(g.rules@, n)->0;
            assert(g.rules@[j].name@ == n);
            assert(i == j);
            assert(g.rule_map()[n] == g.rules@[i]);
            if n != added.name@ {
                assert(g.rule_map().contains_key(n));
                assert(g0.rule_map().insert(added.name@, added).contains_key(n));
                assert(g0.rule_map().contains_key(n));
                let k = crate::ast::rule_index(g0.rules@, n)->0;
                assert(g0.rules@[k] == g.rules@[i]);
            }
        }
    }
}

/// Moves every rule of `from` into `into`; a rule of `from` replaces one of the same name.
fn merge_rules(into: &mut Grammar, from: Grammar)
    requires
        old(into).wf(),
        from.wf(),
        rules_normal(*old(into)),
        rules_normal(from),
    ensures
        final(into).wf(),
        rules_normal(*final(into)),
        final(into).entry_points@ == old(into).entry_points@,
        final(into).rules_view() == old(into).rules_view().union_prefer_right(from.rules_view()),
{
    let ghost all = from.rules@;
    let ghost start = into.rules_view();
    proof {
        lemma_rules_from_all(from);
        lemma_rules_from_end(all);
        assert(start.union_prefer_right(Map::<Seq<char>, RuleV>::empty()) =~= start);
    }
    let mut rest = from.rules;
    while rest.len() > 0
        invariant
            into.wf(),
            rules_normal(*into),
            into.entry_points@ == old(into).entry_points@,
            names_unique(all),
            start == old(into).rules_view(),
            rest@ == all.subrange(0, rest@.len() as int),
            rest@.len() <= all.len(),
            forall|i: int| 0 <= i < rest@.len() ==> is_normal(#[trigger] rest@[i].definition@),
            into.rules_view() == start.union_prefer_right(rules_from(all, rest@.len() as int)),
        decreases rest@.len(),
    {
        let ghost before = rest@;
        let ghost k = before.len() as int;
        let rule = rest.pop().unwrap();
        proof {
            assert(rule == before[before.len() - 1]);
            assert(rule == all[k - 1]);
            assert forall|i: int| 0 <= i < rest@.len() implies is_normal(#[trigger] rest@[i].definition@) by {
                assert(rest@[i] == before[i]);
            }
            assert(rest@ =~= all.subrange(0, rest@.len() as int));
            lemma_rules_from_step(all, k);
            let m = rules_from(all, k);
            assert(start.union_prefer_right(m).insert(rule.name@, rule@) =~= start.union_prefer_right(
                m.insert(rule.name@, rule@),
            ));
        }
        insert_normal(into, rule);
    }
}

/// The names generation starts from.
fn default_entry_points() -> (r: Vec<String>)
    ensures
        r@.len() == 1,
        r@[0]@ == "program"@,
{
    let mut v: Vec<String> = Vec::new();
    v.push(String::from_str("program"));
    v
}

impl Grammar {
    /// Builds a grammar from the text of a lexer grammar and of a parser grammar. A rule of the
    /// parser grammar replaces a lexer rule of the same name; generation starts from `program`.
    pub fn new(lexer_src: String, parser_src: String) -> (r: Result<Grammar, ParseError>)
        ensures
            !kinds_match(lex_spec(lexer_src@), 0, lexer_header()) ==> r is Err,
            !kinds_match(lex_spec(parser_src@), 0, parser_header()) ==> r is Err,
            r matches Ok(g) ==> g.wf() && rules_normal(g) && g.entry_points@.len() == 1
                && g.entry_points@[0]@ == "program"@,
            p_file(lex_spec(lexer_src@), lexer_header()) is Failed ==> r == Err::<Grammar, ParseError>(
                p_file(lex_spec(lexer_src@), lexer_header())->Failed_0,
            ),
            p_file(lex_spec(lexer_src@), lexer_header()) is Done && p_file(
                lex_spec(parser_src@),
                parser_header() + options_block(),
            ) is Failed ==> r == Err::<Grammar, ParseError>(
                p_file(lex_spec(parser_src@), parser_header() + options_block())->Failed_0,
            ),
            p_file(lex_spec(lexer_src@), lexer_header()) is Done && p_file(
                lex_spec(parser_src@),
                parser_header() + options_block(),
            ) is Done ==> r is Ok && r->Ok_0.rules_view() == p_file(
                lex_spec(lexer_src@),
                lexer_header(),
            )->Done_0.union_prefer_right(
                p_file(lex_spec(parser_src@), parser_header() + options_block())->Done_0,
            ),
    {
        let lexer_rules = match Parser::new().parse_lexer_rules(lexer_src) {
            Ok(g) => g,
            Err(e) => {
                return Err(e);
            },
        };
        let parser_rules = match Parser::new().parse_parser_rules(parser_src) {
            Ok(g) => g,
            Err(e) => {
                return Err(e);
            },
        };
        let mut grammar = Grammar::empty();
        proof {
            assert(Map::<Seq<char>, RuleV>::empty().union_prefer_right(lexer_rules.rules_view())
                =~= lexer_rules.rules_view());
        }
        merge_rules(&mut grammar, lexer_rules);
        merge_rules(&mut grammar, parser_rules);
        let entry_points = default_entry_points();
        let ghost view = grammar.rules_view();
        grammar.entry_points = entry_points;
        proof {
            assert(grammar.rules_view() =~= view);
        }
        Ok(grammar)
    }
}

fn is_skip(op: &Op) -> (r: bool)
    ensures
        r == (op@ == OpV::Skip),
{
    match op {
        Op::Skip => true,
        _ => false,
    }
}

pub open spec fn all_normal(v: Seq<OpV>) -> bool {
    forall|i: int| 0 <= i < v.len() ==> is_normal(#[trigger] v[i])
}

proof fn lemma_all_normal_push(v: Seq<OpV>, o: OpV)
    requires
        all_normal(v),
        is_normal(o),
    ensures
        all_normal(v.push(o)),
{
    assert forall|i: int| 0 <= i < v.push(o).len() implies is_normal(#[trigger] v.push(o)[i]) by {
        if i < v.len() {
            assert(v.push(o)[i] == v[i]);
        }
    }
}

/// The kind of the token at `p`, as the parser sees it.
proof fn lemma_kind_at(tokens: Seq<Token>, p: int)
    ensures
        kind_at(tokens_view(tokens), p) == (if 0 <= p < tokens.len() {
            Some(tokens[p].token_type)
        } else {
            None
        }),
{
    if 0 <= p < tokens.len() {
        assert(tokens_view(tokens)[p] == tokens[p]@);
    }
}

/// Simplifying normal children gives a normal result.
proof fn lemma_simplify_normal(v: Seq<OpV>)
    requires
        all_normal(v),
    ensures
        is_normal(simplify_sequence(v)),
        is_normal(simplify_alternative(v)),
{
    let f = survivors(v);
    let pred = |o: OpV| !is_void(o);
    assert forall|i: int| 0 <= i < f.len() implies !is_void(#[trigger] f[i]) && is_normal(f[i]) by {
        v.lemma_filter_pred(pred, i);
        let x = f[i];
        assert(f.contains(x));
        v.lemma_filter_contains_rev(pred, x);
        assert(v.contains(x));
        let k = choose|k: int| 0 <= k < v.len() && v[k] == x;
        assert(is_normal(v[k]));
    }
}

} // verus!
