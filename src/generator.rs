use vstd::prelude::*;
use rand::rngs::StdRng;
use crate::ast::{
    is_trivial, is_trivial_name, is_void, trivial_name, lemma_list_view, lemma_ops_view_empty,
    choose_alternative, is_void_op, lemma_simplify_idempotent, lemma_ops_view_index, lemma_ops_view_push, make_sequence, ops_view, rule_index,
    simplify_sequence, survivors, Grammar, Op, OpV, Rule,
};
use crate::rng::{random_in, random_ratio};
use crate::text::{char_from_u32, chars_of, is_scalar_value, push_char, slice_is};
use vstd::string::StringExecFns;

verus! {

broadcast use vstd::std_specs::vec::axiom_vec_index_decreases;

/// Why one generation attempt failed.
#[derive(Debug, Clone, Copy, PartialEq, Eq, Structural)]
pub enum GenError {
    /// The grammar has no entry point.
    NoEntryPoint,
    /// A referenced rule is not in the grammar.
    RuleNotFound,
    /// A set member produced something other than text.
    UnsupportedInSet,
    /// A character range whose end comes before its start.
    EmptyRange,
}

// ---------------------------------------------------------------------------
// Characters
// ---------------------------------------------------------------------------

/// How many Unicode scalar values (code points outside the surrogate block) lie in `lo..=hi`,
/// where `lo` and `hi` are themselves scalar values.
pub open spec fn scalar_count(lo: int, hi: int) -> int {
    if hi < 0xD800 || lo > 0xDFFF {
        hi - lo + 1
    } else {
        hi - lo + 1 - 0x800
    }
}

/// The scalar value `k` places after `lo`, surrogates skipped.
pub open spec fn nth_scalar(lo: int, k: int) -> int {
    if lo > 0xDFFF || lo + k < 0xD800 {
        lo + k
    } else {
        lo + k + 0x800
    }
}

pub open spec fn is_surrogate(u: int) -> bool {
    0xD800 <= u <= 0xDFFF
}

proof fn lemma_char_not_surrogate(c: char)
    ensures
        !is_surrogate(c as int),
        0 <= c as int <= 0x10FFFF,
{
}

/// The character `k` scalar values after `lo`; every scalar value of `lo..=hi` is one of
/// these for exactly one `k` below `scalar_count`.
pub fn char_at_offset(lo: char, hi: char, k: u32) -> (r: char)
    requires
        lo <= hi,
        (k as int) < scalar_count(lo as int, hi as int),
    ensures
        r as int == nth_scalar(lo as int, k as int),
        lo <= r <= hi,
        !is_surrogate(r as int),
{
    proof {
        lemma_char_not_surrogate(lo);
        lemma_char_not_surrogate(hi);
    }
    let base = lo as u32;
    let mut u: u32 = base + k;
    if base < 0xD800 && u >= 0xD800 {
        u = u + 0x800;
    }
    match char_from_u32(u) {
        Some(c) => c.clone(),
        None => {
            proof {
                assert(is_scalar_value(u as int));
            }
            lo
        },
    }
}

/// How many scalar values lie in `lo..=hi`.
fn count_scalars(lo: char, hi: char) -> (r: u32)
    requires
        lo <= hi,
    ensures
        r as int == scalar_count(lo as int, hi as int),
        r >= 1,
{
    proof {
        lemma_char_not_surrogate(lo);
        lemma_char_not_surrogate(hi);
    }
    let a = lo as u32;
    let b = hi as u32;
    if b < 0xD800 || a > 0xDFFF {
        b - a + 1
    } else {
        b - a + 1 - 0x800
    }
}

// ---------------------------------------------------------------------------
// Derivations and bounded recursion
// ---------------------------------------------------------------------------

/// A concrete derivation: only text, sequences of at least two non-empty parts, and the
/// `Optional`, `Not` and `Parentheses` wrappers around non-empty parts, with the `Skip`,
/// `EofDefinition` and `Empty` markers; no reference, alternative or repetition is left.
pub open spec fn is_derivation(op: OpV) -> bool
    decreases op,
{
    match op {
        OpV::Terminal(_) => true,
        OpV::EofDefinition => true,
        OpV::Skip => true,
        OpV::Empty => true,
        OpV::Sequence(v) => v.len() >= 2 && forall|i: int|
            0 <= i < v.len() ==> !is_void(#[trigger] v[i]) && is_derivation(v[i]),
        OpV::Optional(o) => !is_void(*o) && is_derivation(*o),
        OpV::Not(o) => !is_void(*o) && is_derivation(*o),
        OpV::Parentheses(o) => !is_void(*o) && is_derivation(*o),
        _ => false,
    }
}

/// Every reference that stays expandable at the depth limit in `op` (reached through trivial
/// operations only) names a rule of rank below `b`.
pub open spec fn refs_below(op: OpV, b: nat, rank: spec_fn(Seq<char>) -> nat) -> bool
    decreases op,
{
    if !is_trivial(op) {
        true
    } else {
        match op {
            OpV::RuleRef(n) => rank(n) < b,
            OpV::ZeroOrMore(o) => refs_below(*o, b, rank),
            OpV::OneOrMore(o) => refs_below(*o, b, rank),
            OpV::Optional(o) => refs_below(*o, b, rank),
            OpV::Sequence(v) => forall|i: int| 0 <= i < v.len() ==> refs_below(#[trigger] v[i], b, rank),
            OpV::CharSet(v) => forall|i: int| 0 <= i < v.len() ==> refs_below(#[trigger] v[i], b, rank),
            _ => true,
        }
    }
}

/// The bound a child is generated under: any bound of its own below the depth limit, the
/// parent's at or past it.
pub open spec fn child_bound(depth: int, max: int, b: nat, x: OpV, rank: spec_fn(Seq<char>) -> nat) -> nat {
    if depth < max && depth < usize::MAX {
        bound_of(x, rank)
    } else {
        b
    }
}

/// `rank` orders the rules with trivial names: the references that stay expandable at the
/// depth limit in such a rule's body name only rules of lower rank. Such an order exists exactly when no trivial reference leads from a rule back to
/// itself.
pub open spec fn ranks_rules(g: Grammar, rank: spec_fn(Seq<char>) -> nat) -> bool {
    forall|n: Seq<char>| #[trigger] g.rule_map().contains_key(n) && is_trivial_name(n) ==> refs_below(
        g.rule_map()[n].definition@,
        rank(n),
        rank,
    )
}

/// Generation from this grammar terminates at every depth limit: the references that stay
/// expandable at the limit never lead from a rule back to itself.
pub open spec fn generation_bounded(g: Grammar) -> bool {
    exists|rank: spec_fn(Seq<char>) -> nat| ranks_rules(g, rank)
}

// ---------------------------------------------------------------------------
// Rendering
// ---------------------------------------------------------------------------

/// Words after which rendering inserts a space, so that they do not run into what follows.
pub open spec fn is_reserved_word(w: Seq<char>) -> bool {
    w == seq!['c', 'd', 'e', 'c', 'l'] || w == seq!['f', 'n'] || w == seq!['c', 'l', 'a', 's', 's']
        || w == seq!['v', 'a', 'r'] || w == seq!['t', 'r', 'u', 'e'] || w == seq!['f', 'a', 'l', 's', 'e']
        || w == seq!['r', 'e', 't', 'u', 'r', 'n'] || w == seq!['i', 'f'] || w == seq!['e', 'l', 's', 'e']
        || w == seq!['f', 'o', 'r'] || w == seq!['m', 'a', 't', 'c', 'h'] || w == seq![
        'd',
        'e',
        'f',
        'a',
        'u',
        'l',
        't',
    ] || w == seq!['c', 'o', 'n', 's', 't', 'r', 'u', 'c', 't', 'o', 'r'] || w == seq!['n', 'e', 'w']
        || w == seq!['f', 'r', 'e', 'e']
}

/// The parts of a sequence joined, with a space after each reserved word.
pub open spec fn join_spaced(parts: Seq<Seq<char>>) -> Seq<char>
    decreases parts.len(),
{
    if parts.len() == 0 {
        Seq::empty()
    } else {
        let last = parts.last();
        join_spaced(parts.drop_last()) + last + (if is_reserved_word(last) {
            seq![' ']
        } else {
            Seq::empty()
        })
    }
}

/// Whether `op` holds an `Optional`, whose rendering is decided by a coin flip.
pub open spec fn has_optional(op: OpV) -> bool
    decreases op,
{
    match op {
        OpV::Optional(_) => true,
        OpV::Sequence(v) => exists|i: int| 0 <= i < v.len() && has_optional(#[trigger] v[i]),
        OpV::ZeroOrMore(o) => has_optional(*o),
        OpV::OneOrMore(o) => has_optional(*o),
        OpV::Parentheses(o) => has_optional(*o),
        _ => false,
    }
}

/// The rendering of each part of a sequence.
pub open spec fn rendered_parts(v: Seq<OpV>) -> Seq<Seq<char>>
    decreases v,
{
    Seq::new(v.len(), |i: int| if 0 <= i < v.len() { render(v[i]) } else { Seq::<char>::empty() })
}

/// Whether a derivation may render as `t`: terminals give their text; a sequence joins its
/// parts' texts, with a space after each reserved word; repetitions and parentheses give their
/// content's text; an `Optional` gives its content's text or nothing, by a coin flip; anything
/// else gives nothing.
pub open spec fn renders_as(op: OpV, t: Seq<char>) -> bool
    decreases op,
{
    match op {
        OpV::Terminal(s) => t == s,
        OpV::Sequence(v) => exists|parts: Seq<Seq<char>>|
            #![trigger join_spaced(parts)]
            parts.len() == v.len() && (forall|i: int| 0 <= i < v.len() ==> renders_as(v[i], #[trigger] parts[i]))
                && t == join_spaced(parts),
        OpV::ZeroOrMore(o) => renders_as(*o, t),
        OpV::OneOrMore(o) => renders_as(*o, t),
        OpV::Parentheses(o) => renders_as(*o, t),
        OpV::Optional(o) => t.len() == 0 || renders_as(*o, t),
        _ => t.len() == 0,
    }
}

proof fn lemma_sequence_renders(v: Seq<OpV>, parts: Seq<Seq<char>>, t: Seq<char>)
    requires
        parts.len() == v.len(),
        forall|i: int| 0 <= i < v.len() ==> renders_as(v[i], #[trigger] parts[i]),
        t == join_spaced(parts),
    ensures
        renders_as(OpV::Sequence(v), t),
{
    let op = OpV::Sequence(v);
    assert(op->Sequence_0 == v);
}

/// The text of a derivation without `Optional` parts: terminals give their text, sequences
/// join their parts, repetitions and parentheses give their content, anything else nothing.
pub open spec fn render(op: OpV) -> Seq<char>
    decreases op,
{
    match op {
        OpV::Terminal(s) => s,
        OpV::Sequence(v) => join_spaced(rendered_parts(v)),
        OpV::ZeroOrMore(o) => render(*o),
        OpV::OneOrMore(o) => render(*o),
        OpV::Parentheses(o) => render(*o),
        _ => Seq::empty(),
    }
}


// ---------------------------------------------------------------------------
// What generation may give
// ---------------------------------------------------------------------------

pub open spec fn res_view(r: Result<Op, GenError>) -> Result<OpV, GenError> {
    match r {
        Ok(o) => Ok(o@),
        Err(e) => Err(e),
    }
}

/// The depth one level further down (it stays put at the largest depth).
pub open spec fn next_depth(depth: int) -> int {
    if depth < usize::MAX {
        depth + 1
    } else {
        depth
    }
}

pub open spec fn expression_name() -> Seq<char> {
    seq!['e', 'x', 'p', 'r', 'e', 's', 's', 'i', 'o', 'n']
}

pub open spec fn identifier_name() -> Seq<char> {
    seq!['I', 'D', 'E', 'N', 'T', 'I', 'F', 'I', 'E', 'R']
}

/// The atomic expressions that stand in for a whole `expression` now and then.
pub open spec fn simple_expression_spec(k: int) -> OpV {
    if k == 0 {
        OpV::Terminal("1"@)
    } else if k == 1 {
        OpV::Terminal("1321"@)
    } else if k == 2 {
        OpV::Terminal("0"@)
    } else if k == 3 {
        OpV::Terminal("192830"@)
    } else if k == 4 {
        OpV::Terminal("true"@)
    } else if k == 5 {
        OpV::Terminal("false"@)
    } else if k == 6 {
        OpV::RuleRef("CHAR_LITERAL"@)
    } else if k == 7 {
        OpV::RuleRef("STRING_LITERAL"@)
    } else {
        OpV::RuleRef("IDENTIFIER"@)
    }
}

/// A terminal of one scalar value in `lo..=hi`.
pub open spec fn one_char_in(x: OpV, lo: int, hi: int) -> bool {
    x is Terminal && x->Terminal_0.len() == 1 && lo <= x->Terminal_0[0] as int <= hi && !is_surrogate(
        x->Terminal_0[0] as int,
    )
}

/// A synthesized identifier: 1 to 29 scalar values from U+0080 to U+FFFE.
pub open spec fn identifier_text(x: OpV) -> bool {
    x is Terminal && 1 <= x->Terminal_0.len() < 30 && forall|i: int|
        0 <= i < x->Terminal_0.len() ==> 0x80 <= (#[trigger] x->Terminal_0[i]) as int <= 0xFFFE
            && !is_surrogate(x->Terminal_0[i] as int)
}

/// The text a set member's result contributes: a terminal's text, or nothing.
pub open spec fn member_text(x: OpV) -> Seq<char> {
    if x is Terminal {
        x->Terminal_0
    } else {
        Seq::empty()
    }
}

/// The members' texts joined.
pub open spec fn set_text(rs: Seq<OpV>) -> Seq<char>
    decreases rs.len(),
{
    if rs.len() == 0 {
        Seq::empty()
    } else {
        set_text(rs.drop_last()) + member_text(rs.last())
    }
}

/// The child after the ones whose results are `rs`: the one whose failure ends generation.
pub open spec fn next_child(v: Seq<OpV>, rs: Seq<OpV>) -> OpV {
    v[rs.len() as int]
}

/// How many repetitions succeeded before one failed.
pub open spec fn repeats_before(rs: Seq<OpV>) -> int {
    rs.len() as int
}

/// A member result that is neither text nor empty, which a set cannot hold.
pub open spec fn not_text(x: OpV) -> bool {
    !(x is Terminal || x is Empty)
}

/// A wrapper's result from its content's result: an error is passed on, `Empty` stays
/// `Empty`, anything else is wrapped again.
pub open spec fn rewrap(ri: Result<OpV, GenError>, w: OpV) -> Result<OpV, GenError> {
    match ri {
        Err(e) => Err(e),
        Ok(y) => if y == OpV::Empty {
            Ok(OpV::Empty)
        } else if w is Optional {
            Ok(OpV::Optional(Box::new(y)))
        } else if w is Not {
            Ok(OpV::Not(Box::new(y)))
        } else {
            Ok(OpV::Parentheses(Box::new(y)))
        },
    }
}

/// Whether generating `op` at `depth` from grammar `g`, with depth limit `max`, may give `r`,
/// for some outcome of the random draws: each draw ranges over all the values it may take.
/// (`rank` and `b` only bound the recursion at the depth limit, for the proof of termination.)
pub open spec fn outcome(
    g: Grammar,
    max: int,
    rank: spec_fn(Seq<char>) -> nat,
    op: OpV,
    depth: int,
    b: nat,
    r: Result<OpV, GenError>,
) -> bool
    decreases (if depth < max { max - depth } else { 0 }), b, op,
{
    let d1 = next_depth(depth);
    if depth >= max && !is_trivial(op) {
        r == Ok::<OpV, GenError>(OpV::Empty)
    } else {
        match op {
            OpV::Terminal(s) => r == Ok::<OpV, GenError>(if s.len() == 0 { OpV::Empty } else { op }),
            OpV::RuleRef(n) => {
                (n == expression_name() && depth < max && depth < usize::MAX && exists|k: int|
                    0 <= k < 9 && outcome(
                        g,
                        max,
                        rank,
                        #[trigger] simple_expression_spec(k),
                        d1,
                        bound_of(simple_expression_spec(k), rank),
                        r,
                    )) || (if n == identifier_name() {
                    r is Ok && identifier_text(r->Ok_0)
                } else if !g.rule_map().contains_key(n) {
                    r == Err::<OpV, GenError>(GenError::RuleNotFound)
                } else if (depth < max && depth < usize::MAX) || rank(n) < b {
                    outcome(g, max, rank, g.rule_map()[n].definition@, d1, if depth < max && depth < usize::MAX {
                        bound_of(g.rule_map()[n].definition@, rank)
                    } else {
                        rank(n)
                    }, r)
                } else {
                    false
                })
            },
            OpV::ZeroOrMore(x) => r == Ok::<OpV, GenError>(OpV::Empty) || (exists|rs: Seq<OpV>|
                #![trigger simplify_sequence(rs)]
                rs.len() < 30 && (forall|i: int| 0 <= i < rs.len() ==> outcome(g, max, rank, *x, depth, b, Ok(#[trigger] rs[i])))
                    && r == Ok::<OpV, GenError>(simplify_sequence(rs))) || (r is Err && exists|rs: Seq<OpV>|
                #![trigger repeats_before(rs)]
                repeats_before(rs) < 29 && (forall|i: int| 0 <= i < rs.len() ==> outcome(g, max, rank, *x, depth, b, Ok(#[trigger] rs[i])))
                    && outcome(g, max, rank, *x, depth, b, r)),
            OpV::OneOrMore(x) => (exists|rs: Seq<OpV>|
                #![trigger simplify_sequence(rs)]
                1 <= rs.len() < 30 && (forall|i: int| 0 <= i < rs.len() ==> outcome(g, max, rank, *x, depth, b, Ok(#[trigger] rs[i])))
                    && r == Ok::<OpV, GenError>(simplify_sequence(rs))) || (r is Err && exists|rs: Seq<OpV>|
                #![trigger repeats_before(rs)]
                repeats_before(rs) < 29 && (forall|i: int| 0 <= i < rs.len() ==> outcome(g, max, rank, *x, depth, b, Ok(#[trigger] rs[i])))
                    && outcome(g, max, rank, *x, depth, b, r)),
            OpV::Sequence(v) => (exists|rs: Seq<OpV>|
                #![trigger simplify_sequence(rs)]
                rs.len() == v.len() && (forall|i: int| 0 <= i < v.len() ==> outcome(g, max, rank, v[i], d1, child_bound(depth, max, b, v[i], rank), Ok(#[trigger] rs[i])))
                    && r == Ok::<OpV, GenError>(simplify_sequence(rs))) || (r is Err && exists|rs: Seq<OpV>|
                #![trigger next_child(v, rs)]
                rs.len() < v.len() && (forall|i: int| 0 <= i < rs.len() ==> outcome(g, max, rank, v[i], d1, child_bound(depth, max, b, v[i], rank), Ok(#[trigger] rs[i]))) && outcome(g, max, rank, next_child(v, rs), d1, child_bound(depth, max, b, next_child(v, rs), rank), r)),
            OpV::Alternative(v) => (exists|rs: Seq<OpV>|
                #![trigger survivors(rs)]
                rs.len() == v.len() && (forall|i: int| 0 <= i < v.len() ==> outcome(g, max, rank, v[i], d1, child_bound(depth, max, b, v[i], rank), Ok(#[trigger] rs[i])))
                    && (if survivors(rs).len() == 0 {
                    r == Ok::<OpV, GenError>(OpV::Empty)
                } else {
                    exists|k: int| 0 <= k < survivors(rs).len() && r == Ok::<OpV, GenError>(#[trigger] survivors(rs)[k])
                })) || (r is Err && exists|rs: Seq<OpV>|
                #![trigger next_child(v, rs)]
                rs.len() < v.len() && (forall|i: int| 0 <= i < rs.len() ==> outcome(g, max, rank, v[i], d1, child_bound(depth, max, b, v[i], rank), Ok(#[trigger] rs[i]))) && outcome(g, max, rank, next_child(v, rs), d1, child_bound(depth, max, b, next_child(v, rs), rank), r)),
            OpV::CharSet(v) => (exists|rs: Seq<OpV>|
                #![trigger set_text(rs)]
                rs.len() == v.len() && (forall|i: int| 0 <= i < v.len() ==> outcome(g, max, rank, v[i], d1, child_bound(depth, max, b, v[i], rank), Ok(#[trigger] rs[i])))
                    && (forall|i: int| 0 <= i < rs.len() ==> (#[trigger] rs[i]) is Terminal || rs[i] is Empty)
                    && r == Ok::<OpV, GenError>(OpV::Terminal(set_text(rs)))) || (r is Err && exists|rs: Seq<OpV>|
                #![trigger next_child(v, rs)]
                rs.len() < v.len() && (forall|i: int| 0 <= i < rs.len() ==> outcome(g, max, rank, v[i], d1, child_bound(depth, max, b, v[i], rank), Ok(#[trigger] rs[i]))) && (forall|i: int| 0 <= i < rs.len() ==> (#[trigger] rs[i]) is Terminal || rs[i] is Empty) && outcome(g, max, rank, next_child(v, rs), d1, child_bound(depth, max, b, next_child(v, rs), rank), r)) || (r == Err::<OpV, GenError>(
                GenError::UnsupportedInSet,
            ) && exists|rs: Seq<OpV>, x: OpV|
                #![trigger next_child(v, rs), not_text(x)]
                rs.len() < v.len() && (forall|i: int| 0 <= i < rs.len() ==> outcome(g, max, rank, v[i], d1, child_bound(depth, max, b, v[i], rank), Ok(#[trigger] rs[i]))) && (forall|i: int| 0 <= i < rs.len() ==> (#[trigger] rs[i]) is Terminal || rs[i] is Empty) && outcome(g, max, rank, next_child(v, rs), d1,
                    child_bound(depth, max, b, next_child(v, rs), rank), Ok::<OpV, GenError>(x)) && not_text(x)),
            OpV::Optional(x) => exists|ri: Result<OpV, GenError>| outcome(g, max, rank, *x, depth, b, ri) && r == #[trigger] rewrap(ri, op),
            OpV::Not(x) => exists|ri: Result<OpV, GenError>| outcome(g, max, rank, *x, depth, b, ri) && r == #[trigger] rewrap(ri, op),
            OpV::Parentheses(x) => exists|ri: Result<OpV, GenError>| outcome(g, max, rank, *x, depth, b, ri) && r == #[trigger] rewrap(ri, op),
            OpV::CharRange(lo, hi) => if lo > hi {
                r == Err::<OpV, GenError>(GenError::EmptyRange)
            } else {
                r is Ok && one_char_in(r->Ok_0, lo as int, hi as int)
            },
            OpV::AnyChar => r is Ok && one_char_in(r->Ok_0, 0, 0xFFFF),
            _ => r == Ok::<OpV, GenError>(op),
        }
    }
}

// ---------------------------------------------------------------------------
// The generator
// ---------------------------------------------------------------------------

/// Expands a grammar's rules into random concrete derivations, bounded by a depth limit.
pub struct Generator<'a> {
    grammar: &'a Grammar,
    rng: StdRng,
    max_depth: usize,
    /// Rule ranks under which each trivially named rule refers, through trivial operations,
    /// only to rules of lower rank;
    /// they bound the recursion at the depth limit.
    rank: Ghost<spec_fn(Seq<char>) -> nat>,
}

/// The depth one level further down.
fn deeper(depth: usize) -> (r: usize)
    ensures
        r == (if depth < usize::MAX { depth + 1 } else { depth as int }),
{
    if depth < usize::MAX {
        depth + 1
    } else {
        depth
    }
}

impl<'a> Generator<'a> {
    pub closed spec fn wf(&self) -> bool {
        &&& self.grammar.wf()
        &&& ranks_rules(*self.grammar, self.rank@)
    }

    /// The grammar being expanded.
    pub closed spec fn source(&self) -> Grammar {
        *self.grammar
    }

    /// The depth from which only trivial operations are expanded.
    pub closed spec fn depth_limit(&self) -> nat {
        self.max_depth as nat
    }

    /// The depth limit is a machine-sized number.
    pub proof fn lemma_depth_limit_fits(&self)
        ensures
            self.depth_limit() <= usize::MAX,
    {
    }

    /// The state of the random source.
    pub closed spec fn randomness(&self) -> StdRng {
        self.rng
    }

    /// The rank of each rule name that bounds the expansion.
    pub closed spec fn ranking(&self) -> spec_fn(Seq<char>) -> nat {
        self.rank@
    }

    /// A generator for `grammar`, or `None` where its trivial rules may refer back to
    /// themselves, so that generation might not end.
    pub fn try_new(grammar: &'a Grammar, rng: StdRng, max_depth: usize) -> (r: Option<Generator<'a>>)
        requires
            grammar.wf(),
        ensures
            r matches Some(g) ==> g.wf() && g.source() == *grammar && g.depth_limit() == max_depth,
            limited_ranking_exists(*grammar) ==> r is Some,
    {
        if grammar.has_bounded_generation() {
            Some(Generator::new(grammar, rng, max_depth))
        } else {
            None
        }
    }

    /// A generator for a grammar whose generation is bounded (`has_bounded_generation` decides
    /// that), drawing from `rng`.
    pub fn new(grammar: &'a Grammar, rng: StdRng, max_depth: usize) -> (r: Generator<'a>)
        requires
            grammar.wf(),
            generation_bounded(*grammar),
        ensures
            r.wf(),
            r.source() == *grammar,
            r.depth_limit() == max_depth,
    {
        Generator {
            grammar,
            rng,
            max_depth,
            rank: Ghost(choose|rank: spec_fn(Seq<char>) -> nat| ranks_rules(*grammar, rank)),
        }
    }

    /// Expands the first entry point's rule into a random derivation; the rule keeps its name,
    /// type and skip flag.
    pub fn generate_ast(&mut self) -> (r: Result<Rule, GenError>)
        requires
            old(self).wf(),
        ensures
            final(self).wf(),
            final(self).source() == old(self).source(),
            final(self).depth_limit() == old(self).depth_limit(),
            final(self).ranking() == old(self).ranking(),
            old(self).source().entry_points@.len() == 0 ==> r == Err::<Rule, GenError>(GenError::NoEntryPoint),
            old(self).source().entry_points@.len() > 0 && !old(self).source().rule_map().contains_key(
                old(self).source().entry_points@[0]@,
            ) ==> r == Err::<Rule, GenError>(GenError::RuleNotFound),
            r is Ok ==> is_derivation(r->Ok_0.definition@) && old(self).source().rule_map().contains_key(
                r->Ok_0.name@,
            ) && r->Ok_0.name@ == old(self).source().entry_points@[0]@,
            old(self).source().entry_points@.len() > 0 && old(self).source().rule_map().contains_key(
                old(self).source().entry_points@[0]@,
            ) ==> ({
                let entry = old(self).source().rule_map()[old(self).source().entry_points@[0]@];
                &&& (r is Ok ==> r->Ok_0.name@ == entry.name@ && r->Ok_0.rule_type == entry.rule_type
                    && r->Ok_0.skip == entry.skip)
                &&& outcome(old(self).source(), old(self).depth_limit() as int, old(self).ranking(),
                    entry.definition@, 0, bound_of(entry.definition@, old(self).ranking()),
                    match r { Ok(rule) => Ok::<OpV, GenError>(rule.definition@), Err(e) => Err::<OpV, GenError>(e) })
            }),
    {
        let grammar = self.grammar;
        if grammar.entry_points.len() == 0 {
            return Err(GenError::NoEntryPoint);
        }
        let name = &grammar.entry_points[0];
        match grammar.find_rule(name) {
            Some(i) => {
                proof {
                    assert(grammar.rule_map().contains_key(name@));
                    assert(grammar.rule_map()[name@] == grammar.rules@[i as int]);
                }
                let rule = &grammar.rules[i];
                proof {
                    lemma_refs_bound_exists(rule.definition@, self.rank@);
                }
                match self.gen(&rule.definition, 0, Ghost(bound_of(rule.definition@, self.rank@))) {
                    Ok(definition) => Ok(
                        Rule {
                            name: rule.name.clone(),
                            rule_type: rule.rule_type,
                            definition,
                            skip: rule.skip,
                        },
                    ),
                    Err(e) => Err(e),
                }
            },
            None => {
                proof {
                    assert(!grammar.rule_map().contains_key(name@));
                }
                Err(GenError::RuleNotFound)
            },
        }
    }

    /// Renders a derivation as program text. Each `Optional` part is kept or dropped by a fair
    /// coin flip; without such parts the text is exactly `render(op)`.
    pub fn stringify_op(&mut self, op: &Op) -> (r: String)
        ensures
            final(self).wf() == old(self).wf(),
            final(self).source() == old(self).source(),
            final(self).depth_limit() == old(self).depth_limit(),
            final(self).ranking() == old(self).ranking(),
            !has_optional(op@) ==> r@ == render(op@),
            op@ is Optional && !has_optional(*op@->Optional_0) ==> r@ == render(*op@->Optional_0)
                || r@.len() == 0,
            renders_as(op@, r@),
        decreases op,
    {
        match op {
            Op::Terminal(s) => s.clone(),
            Op::Sequence(ops) => {
                proof {
                    lemma_list_view(*ops);
                    lemma_ops_view_index(ops@);
                }
                let ghost parts = rendered_parts(ops_view(ops@));
                let ghost plain = !has_optional(op@);
                proof {
                    lemma_sequence_render(ops_view(ops@), op@);
                    assert forall|k: int| 0 <= k < ops@.len() implies #[trigger] parts[k] == render(ops@[k]@) by {
                        assert(ops_view(ops@)[k] == ops@[k]@);
                    }
                    if plain {
                        assert forall|k: int| 0 <= k < ops@.len() implies !has_optional(#[trigger] ops@[k]@) by {
                            assert(ops_view(ops@)[k] == ops@[k]@);
                        }
                    }
                    assert(parts.subrange(0, 0) =~= Seq::<Seq<char>>::empty());
                }
                let mut result = String::new();
                let mut i: usize = 0;
                let ghost mut got: Seq<Seq<char>> = Seq::empty();
                proof {
                    assert(got =~= got.subrange(0, 0));
                }
                while i < ops.len()
                    invariant
                        got.len() == i,
                        forall|k: int| 0 <= k < i ==> renders_as(ops@[k]@, #[trigger] got[k]),
                        result@ == join_spaced(got),
                        *op == Op::Sequence(*ops),
                        decreases_to!(*op => *ops),
                        self.wf() == old(self).wf(),
                        self.grammar == old(self).grammar,
                        self.max_depth == old(self).max_depth,
                        self.rank == old(self).rank,
                        i <= ops@.len(),
                        parts.len() == ops@.len(),
                        forall|k: int| 0 <= k < ops@.len() ==> #[trigger] parts[k] == render(ops@[k]@),
                        plain ==> forall|k: int| 0 <= k < ops@.len() ==> !has_optional(#[trigger] ops@[k]@),
                        plain ==> result@ == join_spaced(parts.subrange(0, i as int)),
                    decreases ops@.len() - i,
                {
                    proof {
                        vstd::std_specs::vec::axiom_vec_index_decreases(*ops, i as int);
                        assert(decreases_to!(*op => ops[i as int]));
                    }
                    let piece = self.stringify_op(&ops[i]);
                    result.append(piece.as_str());
                    if is_reserved(&piece) {
                        result.append(" ");
                        proof {
                            reveal_strlit(" ");
                        }
                    }
                    proof {
                        let old_got = got;
                        got = got.push(piece@);
                        assert(got.drop_last() =~= old_got);
                        assert forall|k: int| 0 <= k < i + 1 implies renders_as(ops@[k]@, #[trigger] got[k]) by {
                            if k < i {
                                assert(got[k] == old_got[k]);
                            }
                        }
                        let q = parts.subrange(0, i + 1);
                        assert(q.drop_last() =~= parts.subrange(0, i as int));
                        assert(q.last() == parts[i as int]);
                        if plain {
                            assert(piece@ == parts[i as int]);
                        }
                    }
                    i += 1;
                }
                proof {
                    assert(parts.subrange(0, ops@.len() as int) =~= parts);
                    let v = ops_view(ops@);
                    assert(op@ == OpV::Sequence(v));
                    assert forall|k: int| 0 <= k < v.len() implies renders_as(v[k], #[trigger] got[k]) by {
                        assert(v[k] == ops@[k]@);
                    }
                    lemma_sequence_renders(v, got, result@);
                }
                result
            },
            Op::ZeroOrMore(inner) => self.stringify_op(inner),
            Op::OneOrMore(inner) => self.stringify_op(inner),
            Op::Parentheses(inner) => self.stringify_op(inner),
            Op::Optional(inner) => {
                let text = self.stringify_op(inner);
                if random_in(&mut self.rng, 0, 2) == 0 {
                    text
                } else {
                    String::new()
                }
            },
            _ => String::new(),
        }
    }

    /// Expands `op` at `depth` into a random derivation.
    pub fn generate_op(&mut self, op: &Op, depth: usize) -> (r: Result<Op, GenError>)
        requires
            old(self).wf(),
        ensures
            outcome(old(self).source(), old(self).depth_limit() as int, old(self).ranking(), op@, depth as int,
                bound_of(op@, old(self).ranking()), res_view(r)),
            (depth >= old(self).depth_limit() && !is_trivial(op@)) || op@ is Terminal || op@ is Empty || op@ is Skip
                || op@ is EofDefinition ==> final(self).randomness() == old(self).randomness(),
            final(self).wf(),
            final(self).source() == old(self).source(),
            final(self).depth_limit() == old(self).depth_limit(),
            final(self).ranking() == old(self).ranking(),
            r is Ok ==> is_derivation(r->Ok_0@),
            depth >= old(self).depth_limit() && !is_trivial(op@) ==> r is Ok && r->Ok_0@ == OpV::Empty,
            op@ == OpV::Empty ==> r is Ok && r->Ok_0@ == OpV::Empty,
            op@ is CharRange && op@->CharRange_0 <= op@->CharRange_1 ==> r is Ok && r->Ok_0@ is Terminal
                && r->Ok_0@->Terminal_0.len() == 1 && op@->CharRange_0 <= r->Ok_0@->Terminal_0[0]
                <= op@->CharRange_1 && !is_surrogate(r->Ok_0@->Terminal_0[0] as int),
            op@ is CharRange && op@->CharRange_0 > op@->CharRange_1 ==> r == Err::<Op, GenError>(
                GenError::EmptyRange,
            ),
            depth < old(self).depth_limit() && op@ == OpV::Skip ==> r is Ok && r->Ok_0@ == OpV::Skip,
            depth < old(self).depth_limit() && op@ == OpV::EofDefinition ==> r is Ok && r->Ok_0@
                == OpV::EofDefinition,
    {
        proof {
            lemma_refs_bound_exists(op@, self.rank@);
        }
        let ghost b = bound_of(op@, self.rank@);
        self.gen(op, depth, Ghost(b))
    }

    fn gen(&mut self, op: &Op, depth: usize, Ghost(b): Ghost<nat>) -> (r: Result<Op, GenError>)
        requires
            old(self).wf(),
            depth >= old(self).max_depth ==> refs_below(op@, b, old(self).rank@),
        ensures
            final(self).wf(),
            final(self).grammar == old(self).grammar,
            final(self).max_depth == old(self).max_depth,
            final(self).rank == old(self).rank,
            r is Ok ==> is_derivation(r->Ok_0@),
            depth >= old(self).max_depth && !is_trivial(op@) ==> r is Ok && r->Ok_0@ == OpV::Empty,
            op@ == OpV::Empty ==> r is Ok && r->Ok_0@ == OpV::Empty,
            op@ is CharRange && op@->CharRange_0 <= op@->CharRange_1 ==> r is Ok && r->Ok_0@ is Terminal
                && r->Ok_0@->Terminal_0.len() == 1 && op@->CharRange_0 <= r->Ok_0@->Terminal_0[0]
                <= op@->CharRange_1 && !is_surrogate(r->Ok_0@->Terminal_0[0] as int),
            op@ is CharRange && op@->CharRange_0 > op@->CharRange_1 ==> r == Err::<Op, GenError>(
                GenError::EmptyRange,
            ),
            depth < old(self).max_depth && op@ == OpV::Skip ==> r is Ok && r->Ok_0@ == OpV::Skip,
            depth < old(self).max_depth && op@ == OpV::EofDefinition ==> r is Ok && r->Ok_0@
                == OpV::EofDefinition,
            outcome(*old(self).grammar, old(self).max_depth as int, old(self).rank@, op@, depth as int, b, res_view(r)),
            (depth >= old(self).max_depth && !is_trivial(op@)) || op@ is Terminal || op@ is Empty || op@ is Skip
                || op@ is EofDefinition ==> final(self).rng == old(self).rng,
        decreases (if depth < old(self).max_depth { old(self).max_depth - depth } else { 0 }), b, op, 3int,
    {
        if depth >= self.max_depth && !op.is_trivial_rule() {
            return Ok(Op::Empty);
        }
        match op {
            Op::Terminal(s) => {
                if s.as_str().is_empty() {
                    Ok(Op::Empty)
                } else {
                    Ok(Op::Terminal(s.clone()))
                }
            },
            Op::RuleRef(_) => self.generate_rule_ref(op, depth, Ghost(b)),
            Op::ZeroOrMore(_) => self.generate_zero_or_more(op, depth, Ghost(b)),
            Op::OneOrMore(_) => self.generate_one_or_more(op, depth, Ghost(b)),
            Op::Sequence(ops) => {
                proof {
                    lemma_list_view(*ops);
                    if depth >= self.max_depth {
                        lemma_children_below(*ops, b, self.rank@);
                    }
                }
                self.generate_sequence(ops, depth, Ghost(b))
            },
            Op::Alternative(ops) => {
                proof {
                    lemma_list_view(*ops);
                    if depth >= self.max_depth {
                        lemma_children_below(*ops, b, self.rank@);
                    }
                }
                self.generate_alternative(ops, depth, Ghost(b))
            },
            Op::CharRange(lo, hi) => {
                if *lo > *hi {
                    return Err(GenError::EmptyRange);
                }
                let c = self.generate_char_in_range(*lo, *hi);
                Ok(Op::Terminal(char_string(c)))
            },
            Op::CharSet(ops) => {
                proof {
                    lemma_list_view(*ops);
                    if depth >= self.max_depth {
                        lemma_children_below(*ops, b, self.rank@);
                    }
                }
                self.generate_set(ops, depth, Ghost(b))
            },
            Op::Optional(inner) => {
                let ri = self.gen(inner, depth, Ghost(b));
                let ghost riv = res_view(ri);
                let r = match ri {
                    Ok(g) => {
                        if is_empty_op(&g) {
                            Ok(Op::Empty)
                        } else {
                            Ok(Op::Optional(Box::new(g)))
                        }
                    },
                    Err(e) => Err(e),
                };
                proof {
                    assert(res_view(r) == rewrap(riv, op@));
                }
                r
            },
            Op::Not(inner) => {
                let ri = self.gen(inner, depth, Ghost(b));
                let ghost riv = res_view(ri);
                let r = match ri {
                    Ok(g) => {
                        if is_empty_op(&g) {
                            Ok(Op::Empty)
                        } else {
                            Ok(Op::Not(Box::new(g)))
                        }
                    },
                    Err(e) => Err(e),
                };
                proof {
                    assert(res_view(r) == rewrap(riv, op@));
                }
                r
            },
            Op::Parentheses(inner) => {
                let ri = self.gen(inner, depth, Ghost(b));
                let ghost riv = res_view(ri);
                let r = match ri {
                    Ok(g) => {
                        if is_empty_op(&g) {
                            Ok(Op::Empty)
                        } else {
                            Ok(Op::Parentheses(Box::new(g)))
                        }
                    },
                    Err(e) => Err(e),
                };
                proof {
                    assert(res_view(r) == rewrap(riv, op@));
                }
                r
            },
            Op::AnyChar => {
                let c = self.generate_char_in_range('\u{0000}', '\u{FFFF}');
                Ok(Op::Terminal(char_string(c)))
            },
            Op::Empty => Ok(Op::Empty),
            Op::Skip => Ok(Op::Skip),
            Op::EofDefinition => Ok(Op::EofDefinition),
        }
    }

    /// A character drawn uniformly from the scalar values of `lo..=hi`.
    fn generate_char_in_range(&mut self, lo: char, hi: char) -> (r: char)
        requires
            lo <= hi,
        ensures
            final(self).grammar == old(self).grammar,
            final(self).max_depth == old(self).max_depth,
            final(self).rank == old(self).rank,
            lo <= r <= hi,
            !is_surrogate(r as int),
    {
        let n = count_scalars(lo, hi);
        let k = random_in(&mut self.rng, 0, n as usize) as u32;
        char_at_offset(lo, hi, k)
    }

    /// A random identifier: 1 to 29 characters from U+0080 to U+FFFE, surrogates excluded.
    fn generate_identifier(&mut self) -> (r: String)
        ensures
            final(self).grammar == old(self).grammar,
            final(self).max_depth == old(self).max_depth,
            final(self).rank == old(self).rank,
            1 <= r@.len() < 30,
            forall|i: int| 0 <= i < r@.len() ==> 0x80 <= (#[trigger] r@[i]) as int <= 0xFFFE && !is_surrogate(
                r@[i] as int,
            ),
    {
        let len = random_in(&mut self.rng, 1, 30);
        let mut identifier = String::new();
        let mut i: usize = 0;
        while i < len
            invariant
                self.grammar == old(self).grammar,
                self.max_depth == old(self).max_depth,
                self.rank == old(self).rank,
                i <= len < 30,
                identifier@.len() == i,
                forall|k: int| 0 <= k < identifier@.len() ==> 0x80 <= (#[trigger] identifier@[k]) as int <= 0xFFFE
                    && !is_surrogate(identifier@[k] as int),
            decreases len - i,
        {
            let c = self.generate_char_in_range('\u{0080}', '\u{FFFE}');
            push_char(&mut identifier, c);
            i += 1;
        }
        identifier
    }

    /// A reference: `expression` and `IDENTIFIER` are generated specially; any other name is
    /// looked up and its rule's body expanded one level deeper.
    fn generate_rule_ref(&mut self, op: &Op, depth: usize, Ghost(b): Ghost<nat>) -> (r: Result<
        Op,
        GenError,
    >)
        requires
            old(self).wf(),
            op@ is RuleRef,
            depth >= old(self).max_depth ==> refs_below(op@, b, old(self).rank@),
            depth >= old(self).max_depth ==> is_trivial(op@),
        ensures
            final(self).wf(),
            final(self).grammar == old(self).grammar,
            final(self).max_depth == old(self).max_depth,
            final(self).rank == old(self).rank,
            r is Ok ==> is_derivation(r->Ok_0@),
            outcome(*old(self).grammar, old(self).max_depth as int, old(self).rank@, op@, depth as int, b, res_view(r)),
        decreases (if depth < old(self).max_depth { old(self).max_depth - depth } else { 0 }), b, op, 2int,
    {
        let ghost g = *self.grammar;
        let ghost max = self.max_depth as int;
        let ghost rank = self.rank@;
        let name = match op {
            Op::RuleRef(name) => name,
            _ => {
                return Err(GenError::RuleNotFound);
            },
        };
        let chars = chars_of(name.as_str());
        let len = chars.len();
        proof {
            assert(chars@.subrange(0, len as int) =~= chars@);
        }
        if slice_is(&chars, 0, len, &['e', 'x', 'p', 'r', 'e', 's', 's', 'i', 'o', 'n']) {
            proof {
                lemma_expression_not_trivial(name@);
                assert(name@ == expression_name());
            }
            if random_ratio(&mut self.rng, 1, 10) {
                let k = random_in(&mut self.rng, 0, 9);
                let simple = simple_expression(k);
                let ghost b2 = bound_of(simple@, self.rank@);
                proof {
                    lemma_refs_bound_exists(simple@, self.rank@);
                }
                let r = self.gen(&simple, deeper(depth), Ghost(b2));
                proof {
                    assert(outcome(g, max, rank, simple_expression_spec(k as int), next_depth(depth as int),
                        bound_of(simple_expression_spec(k as int), rank), res_view(r)));
                }
                return r;
            }
        }
        if slice_is(&chars, 0, len, &['I', 'D', 'E', 'N', 'T', 'I', 'F', 'I', 'E', 'R']) {
            let identifier = self.generate_identifier();
            let r = Op::Terminal(identifier);
            proof {
                assert(name@ == identifier_name());
                assert(identifier_text(r@));
            }
            return Ok(r);
        }
        proof {
            assert(name@ != identifier_name());
        }
        let grammar = self.grammar;
        match grammar.find_rule(name) {
            Some(i) => {
                proof {
                    assert(grammar.rule_map().contains_key(name@));
                    assert(grammar.rule_map()[name@] == grammar.rules@[i as int]);
                }
                let ghost def = grammar.rules@[i as int].definition@;
                let ghost b2 = if depth < self.max_depth {
                    bound_of(def, self.rank@)
                } else {
                    (self.rank@)(name@)
                };
                proof {
                    lemma_refs_bound_exists(def, self.rank@);
                }
                self.gen(&grammar.rules[i].definition, deeper(depth), Ghost(b2))
            },
            None => {
                proof {
                    assert(!grammar.rule_map().contains_key(name@));
                }
                Err(GenError::RuleNotFound)
            },
        }
    }

    /// Each child one level deeper; the parts that are not empty, as one sequence.
    fn generate_sequence(&mut self, ops: &Vec<Op>, depth: usize, Ghost(b): Ghost<nat>) -> (r: Result<
        Op,
        GenError,
    >)
        requires
            old(self).wf(),
            depth >= old(self).max_depth ==> forall|i: int| 0 <= i < ops@.len() ==> refs_below(#[trigger] ops@[i]@, b, old(self).rank@),
            depth < old(self).max_depth || is_trivial(OpV::Sequence(ops_view(ops@))),
        ensures
            final(self).wf(),
            final(self).grammar == old(self).grammar,
            final(self).max_depth == old(self).max_depth,
            final(self).rank == old(self).rank,
            r is Ok ==> is_derivation(r->Ok_0@),
            outcome(*old(self).grammar, old(self).max_depth as int, old(self).rank@, OpV::Sequence(ops_view(ops@)), depth as int, b, res_view(r)),
        decreases (if depth < old(self).max_depth { old(self).max_depth - depth } else { 0 }), b, ops, 2int,
    {
        let ghost g = *self.grammar;
        let ghost max = self.max_depth as int;
        let ghost rank = self.rank@;
        let ghost v = ops_view(ops@);
        match self.generate_children(ops, depth, Ghost(b)) {
            Ok(parts) => {
                let ghost rs = choose|rs: Seq<OpV>| #![trigger survivors(rs)] rs.len() == v.len() && (forall|i: int|
                    0 <= i < v.len() ==> outcome(g, max, rank, v[i], next_depth(depth as int), child_bound(depth as int, max, b, v[i], rank), Ok(#[trigger] rs[i])))
                    && ops_view(parts@) == survivors(rs) && derivation_parts(survivors(rs));
                let r = make_sequence(parts);
                proof {
                    lemma_simplify_derivation(ops_view(parts@));
                    lemma_simplify_idempotent(rs);
                    assert(res_view(Ok::<Op, GenError>(r)) == Ok::<OpV, GenError>(simplify_sequence(rs)));
                }
                Ok(r)
            },
            Err(e) => Err(e),
        }
    }

    /// Each child one level deeper; one of the parts that are not empty, picked at random.
    fn generate_alternative(&mut self, ops: &Vec<Op>, depth: usize, Ghost(b): Ghost<nat>) -> (r: Result<
        Op,
        GenError,
    >)
        requires
            old(self).wf(),
            depth >= old(self).max_depth ==> forall|i: int| 0 <= i < ops@.len() ==> refs_below(#[trigger] ops@[i]@, b, old(self).rank@),
            depth < old(self).max_depth,
        ensures
            final(self).wf(),
            final(self).grammar == old(self).grammar,
            final(self).max_depth == old(self).max_depth,
            final(self).rank == old(self).rank,
            r is Ok ==> is_derivation(r->Ok_0@),
            outcome(*old(self).grammar, old(self).max_depth as int, old(self).rank@, OpV::Alternative(ops_view(ops@)), depth as int, b, res_view(r)),
        decreases (if depth < old(self).max_depth { old(self).max_depth - depth } else { 0 }), b, ops, 2int,
    {
        let ghost g = *self.grammar;
        let ghost max = self.max_depth as int;
        let ghost rank = self.rank@;
        let ghost v = ops_view(ops@);
        let mut parts = match self.generate_children(ops, depth, Ghost(b)) {
            Ok(v) => v,
            Err(e) => {
                return Err(e);
            },
        };
        let ghost rs = choose|rs: Seq<OpV>| #![trigger survivors(rs)] rs.len() == v.len() && (forall|i: int|
            0 <= i < v.len() ==> outcome(g, max, rank, v[i], next_depth(depth as int), child_bound(depth as int, max, b, v[i], rank), Ok(#[trigger] rs[i])))
            && ops_view(parts@) == survivors(rs) && derivation_parts(survivors(rs));
        proof {
            lemma_ops_view_index(parts@);
            lemma_simplify_idempotent(rs);
        }
        if parts.len() == 0 {
            return Ok(Op::Empty);
        }
        let k = random_in(&mut self.rng, 0, parts.len());
        let picked = choose_alternative(parts, k);
        proof {
            assert(survivors(rs)[k as int] == picked@);
        }
        Ok(picked)
    }

    /// Each child generated one level deeper, with the empty results left out.
    fn generate_children(&mut self, ops: &Vec<Op>, depth: usize, Ghost(b): Ghost<nat>) -> (r: Result<
        Vec<Op>,
        GenError,
    >)
        requires
            old(self).wf(),
            depth >= old(self).max_depth ==> forall|i: int| 0 <= i < ops@.len() ==> refs_below(#[trigger] ops@[i]@, b, old(self).rank@),
        ensures
            final(self).wf(),
            final(self).grammar == old(self).grammar,
            final(self).max_depth == old(self).max_depth,
            final(self).rank == old(self).rank,
            r is Ok ==> exists|rs: Seq<OpV>| #![trigger survivors(rs)] rs.len() == ops_view(ops@).len() && (forall|i: int|
                0 <= i < ops_view(ops@).len() ==> outcome(*old(self).grammar, old(self).max_depth as int, old(self).rank@,
                    ops_view(ops@)[i], next_depth(depth as int), child_bound(depth as int, old(self).max_depth as int, b, ops_view(ops@)[i], old(self).rank@), Ok(#[trigger] rs[i])))
                && ops_view(r->Ok_0@) == survivors(rs) && derivation_parts(survivors(rs)),
            r is Err ==> exists|rs: Seq<OpV>| #![trigger next_child(ops_view(ops@), rs)] rs.len() < ops_view(ops@).len()
                && (forall|i: int| 0 <= i < rs.len() ==> outcome(*old(self).grammar, old(self).max_depth as int,
                    old(self).rank@, ops_view(ops@)[i], next_depth(depth as int), child_bound(depth as int,
                    old(self).max_depth as int, b, ops_view(ops@)[i], old(self).rank@), Ok(#[trigger] rs[i])))
                && outcome(*old(self).grammar, old(self).max_depth as int, old(self).rank@, next_child(ops_view(ops@), rs),
                    next_depth(depth as int), child_bound(depth as int, old(self).max_depth as int, b,
                    next_child(ops_view(ops@), rs), old(self).rank@), Err::<OpV, GenError>(r->Err_0)),
        decreases (if depth < old(self).max_depth { old(self).max_depth - depth } else { 0 }), b, ops, 1int,
    {
        let ghost g = *self.grammar;
        let ghost max = self.max_depth as int;
        let ghost rank = self.rank@;
        let ghost v = ops_view(ops@);
        let ghost mut rs: Seq<OpV> = Seq::empty();
        let mut parts: Vec<Op> = Vec::new();
        let next = deeper(depth);
        let mut i: usize = 0;
        proof {
            lemma_ops_view_empty();
            lemma_ops_view_index(ops@);
            reveal_with_fuel(Seq::filter, 1);
            assert(survivors(rs) =~= Seq::<OpV>::empty());
        }
        while i < ops.len()
            invariant
                self.wf(),
                self.grammar == old(self).grammar,
                self.max_depth == old(self).max_depth,
                self.rank == old(self).rank,
                g == *self.grammar,
                max == self.max_depth as int,
                rank == self.rank@,
                v == ops_view(ops@),
                v.len() == ops@.len(),
                forall|k: int| 0 <= k < ops@.len() ==> #[trigger] v[k] == ops@[k]@,
                next == next_depth(depth as int),
                i <= ops@.len(),
                rs.len() == i,
                forall|k: int| 0 <= k < i ==> outcome(g, max, rank, v[k], next as int, child_bound(depth as int, max, b, v[k], rank), Ok(#[trigger] rs[k])),
                depth >= max ==> forall|k: int| 0 <= k < ops@.len() ==> refs_below(#[trigger] ops@[k]@, b, self.rank@),
                ops_view(parts@) == survivors(rs),
                derivation_parts(ops_view(parts@)),
            decreases ops@.len() - i,
        {
            let ghost cb = child_bound(depth as int, max, b, ops@[i as int]@, rank);
            proof {
                lemma_refs_bound_exists(ops@[i as int]@, rank);
            }
            let got = self.gen(&ops[i], next, Ghost(cb));
            let gr = match got {
                Ok(gr) => gr,
                Err(e) => {
                    proof {
                        assert(outcome(g, max, rank, v[i as int], next as int, child_bound(depth as int, max, b, v[i as int], rank), Err::<OpV, GenError>(e)));
                        assert(next_child(v, rs) == v[i as int]);
                    }
                    return Err(e);
                },
            };
            proof {
                lemma_survivors_push(rs, gr@);
                rs = rs.push(gr@);
            }
            if !is_void_op(&gr) {
                proof {
                    lemma_ops_view_push(parts@, gr);
                    lemma_parts_push(ops_view(parts@), gr@);
                }
                parts.push(gr);
            }
            i += 1;
        }
        proof {
            assert(rs.len() == v.len());
        }
        Ok(parts)
    }

    /// Each member one level deeper, the texts joined into one terminal.
    fn generate_set(&mut self, ops: &Vec<Op>, depth: usize, Ghost(b): Ghost<nat>) -> (r: Result<
        Op,
        GenError,
    >)
        requires
            old(self).wf(),
            depth >= old(self).max_depth ==> forall|i: int| 0 <= i < ops@.len() ==> refs_below(#[trigger] ops@[i]@, b, old(self).rank@),
        ensures
            final(self).wf(),
            final(self).grammar == old(self).grammar,
            final(self).max_depth == old(self).max_depth,
            final(self).rank == old(self).rank,
            r is Ok ==> r->Ok_0@ is Terminal,
            outcome(*old(self).grammar, old(self).max_depth as int, old(self).rank@, OpV::CharSet(ops_view(ops@)), depth as int, b, res_view(r)),
        decreases (if depth < old(self).max_depth { old(self).max_depth - depth } else { 0 }), b, ops, 2int,
    {
        let ghost g = *self.grammar;
        let ghost max = self.max_depth as int;
        let ghost rank = self.rank@;
        let ghost v = ops_view(ops@);
        let ghost mut rs: Seq<OpV> = Seq::empty();
        let mut text = String::new();
        let next = deeper(depth);
        let mut i: usize = 0;
        proof {
            lemma_ops_view_index(ops@);
        }
        while i < ops.len()
            invariant
                self.wf(),
                self.grammar == old(self).grammar,
                self.max_depth == old(self).max_depth,
                self.rank == old(self).rank,
                g == *self.grammar,
                max == self.max_depth as int,
                rank == self.rank@,
                v == ops_view(ops@),
                v.len() == ops@.len(),
                forall|k: int| 0 <= k < ops@.len() ==> #[trigger] v[k] == ops@[k]@,
                next == next_depth(depth as int),
                i <= ops@.len(),
                rs.len() == i,
                forall|k: int| 0 <= k < i ==> outcome(g, max, rank, v[k], next as int, child_bound(depth as int, max, b, v[k], rank), Ok(#[trigger] rs[k])),
                forall|k: int| 0 <= k < i ==> (#[trigger] rs[k]) is Terminal || rs[k] is Empty,
                depth >= max ==> forall|k: int| 0 <= k < ops@.len() ==> refs_below(#[trigger] ops@[k]@, b, self.rank@),
                text@ == set_text(rs),
            decreases ops@.len() - i,
        {
            let ghost cb = child_bound(depth as int, max, b, ops@[i as int]@, rank);
            proof {
                lemma_refs_bound_exists(ops@[i as int]@, rank);
            }
            let got = self.gen(&ops[i], next, Ghost(cb));
            let gr = match got {
                Ok(gr) => gr,
                Err(e) => {
                    proof {
                        assert(outcome(g, max, rank, v[i as int], next as int, child_bound(depth as int, max, b, v[i as int], rank), Err::<OpV, GenError>(e)));
                        assert(next_child(v, rs) == v[i as int]);
                    }
                    return Err(e);
                },
            };
            let ghost x = gr@;
            match gr {
                Op::Terminal(t) => {
                    text.append(t.as_str());
                },
                Op::Empty => {},
                _ => {
                    proof {
                        assert(outcome(g, max, rank, v[i as int], next as int, child_bound(depth as int, max, b, v[i as int], rank), Ok::<OpV, GenError>(x)));
                        assert(!(x is Terminal || x is Empty));
                        assert(next_child(v, rs) == v[i as int]);
                        lemma_set_unsupported(g, max, rank, v, depth as int, b, rs, x);
                    }
                    return Err(GenError::UnsupportedInSet);
                },
            }
            proof {
                let old_rs = rs;
                rs = rs.push(x);
                assert(rs.drop_last() =~= old_rs);
                assert forall|k: int| 0 <= k < rs.len() implies (#[trigger] rs[k]) is Terminal || rs[k] is Empty by {
                    if k < old_rs.len() {
                        assert(rs[k] == old_rs[k]);
                    }
                }
                assert forall|k: int| 0 <= k < i + 1 implies outcome(g, max, rank, v[k], next as int, child_bound(depth as int, max, b, v[k], rank), Ok(#[trigger] rs[k])) by {
                    if k < old_rs.len() {
                        assert(rs[k] == old_rs[k]);
                    }
                }
            }
            i += 1;
        }
        let r = Op::Terminal(text);
        proof {
            assert(rs.len() == v.len());
            assert(res_view(Ok::<Op, GenError>(r)) == Ok::<OpV, GenError>(OpV::Terminal(set_text(rs))));
        }
        Ok(r)
    }

    /// With probability 1/10 nothing; otherwise 0 to 29 expansions of `op` at the same depth.
    fn generate_zero_or_more(&mut self, op: &Op, depth: usize, Ghost(b): Ghost<nat>) -> (r: Result<
        Op,
        GenError,
    >)
        requires
            old(self).wf(),
            op@ is ZeroOrMore,
            depth >= old(self).max_depth ==> refs_below(op@, b, old(self).rank@),
            depth < old(self).max_depth || is_trivial(op@),
        ensures
            final(self).wf(),
            final(self).grammar == old(self).grammar,
            final(self).max_depth == old(self).max_depth,
            final(self).rank == old(self).rank,
            r is Ok ==> is_derivation(r->Ok_0@),
            outcome(*old(self).grammar, old(self).max_depth as int, old(self).rank@, op@, depth as int, b, res_view(r)),
        decreases (if depth < old(self).max_depth { old(self).max_depth - depth } else { 0 }), b, op, 2int,
    {
        if random_ratio(&mut self.rng, 1, 10) {
            return Ok(Op::Empty);
        }
        let count = random_in(&mut self.rng, 0, 30);
        self.generate_repeated(op, depth, count, Ghost(b))
    }

    /// 1 to 29 expansions of `op` at the same depth.
    fn generate_one_or_more(&mut self, op: &Op, depth: usize, Ghost(b): Ghost<nat>) -> (r: Result<
        Op,
        GenError,
    >)
        requires
            old(self).wf(),
            op@ is OneOrMore,
            depth >= old(self).max_depth ==> refs_below(op@, b, old(self).rank@),
            depth < old(self).max_depth || is_trivial(op@),
        ensures
            final(self).wf(),
            final(self).grammar == old(self).grammar,
            final(self).max_depth == old(self).max_depth,
            final(self).rank == old(self).rank,
            r is Ok ==> is_derivation(r->Ok_0@),
            outcome(*old(self).grammar, old(self).max_depth as int, old(self).rank@, op@, depth as int, b, res_view(r)),
        decreases (if depth < old(self).max_depth { old(self).max_depth - depth } else { 0 }), b, op, 2int,
    {
        let count = random_in(&mut self.rng, 1, 30);
        self.generate_repeated(op, depth, count, Ghost(b))
    }

    /// `count` expansions, at the same depth, of what the repetition `op` repeats, the empty
    /// ones left out, as one sequence.
    fn generate_repeated(&mut self, op: &Op, depth: usize, count: usize, Ghost(b): Ghost<nat>) -> (r: Result<
        Op,
        GenError,
    >)
        requires
            old(self).wf(),
            op@ is ZeroOrMore || op@ is OneOrMore,
            depth >= old(self).max_depth ==> refs_below(op@, b, old(self).rank@),
        ensures
            final(self).wf(),
            final(self).grammar == old(self).grammar,
            final(self).max_depth == old(self).max_depth,
            final(self).rank == old(self).rank,
            r is Ok ==> is_derivation(r->Ok_0@),
            r is Ok ==> exists|rs: Seq<OpV>| #![trigger simplify_sequence(rs)] rs.len() == count && (forall|i: int|
                0 <= i < rs.len() ==> outcome(*old(self).grammar, old(self).max_depth as int, old(self).rank@,
                    repeated_part(op@), depth as int, b, Ok(#[trigger] rs[i]))) && r->Ok_0@ == simplify_sequence(rs),
            r is Err ==> exists|rs: Seq<OpV>| #![trigger repeats_before(rs)] repeats_before(rs) < count && (forall|i: int|
                0 <= i < rs.len() ==> outcome(*old(self).grammar, old(self).max_depth as int, old(self).rank@,
                    repeated_part(op@), depth as int, b, Ok(#[trigger] rs[i]))) && outcome(*old(self).grammar,
                old(self).max_depth as int, old(self).rank@, repeated_part(op@), depth as int, b, res_view(r)),
        decreases (if depth < old(self).max_depth { old(self).max_depth - depth } else { 0 }), b, op, 1int,
    {
        let ghost g = *self.grammar;
        let ghost max = self.max_depth as int;
        let ghost rank = self.rank@;
        let inner: &Op = match op {
            Op::ZeroOrMore(inner) => inner,
            Op::OneOrMore(inner) => inner,
            _ => {
                return Ok(Op::Empty);
            },
        };
        let ghost mut rs: Seq<OpV> = Seq::empty();
        let mut parts: Vec<Op> = Vec::new();
        let mut i: usize = 0;
        proof {
            lemma_ops_view_empty();
            reveal_with_fuel(Seq::filter, 1);
            assert(survivors(rs) =~= Seq::<OpV>::empty());
        }
        while i < count
            invariant
                self.wf(),
                self.grammar == old(self).grammar,
                self.max_depth == old(self).max_depth,
                self.rank == old(self).rank,
                g == *self.grammar,
                max == self.max_depth as int,
                rank == self.rank@,
                inner@ == repeated_part(op@),
                i <= count,
                rs.len() == i,
                forall|k: int| 0 <= k < i ==> outcome(g, max, rank, inner@, depth as int, b, Ok(#[trigger] rs[k])),
                decreases_to!(*op => *inner),
                depth >= max ==> refs_below(inner@, b, self.rank@),
                ops_view(parts@) == survivors(rs),
                derivation_parts(ops_view(parts@)),
            decreases count - i,
        {
            let got = self.gen(inner, depth, Ghost(b));
            let gr = match got {
                Ok(gr) => gr,
                Err(e) => {
                    proof {
                        assert(repeats_before(rs) < count);
                    }
                    return Err(e);
                },
            };
            proof {
                lemma_survivors_push(rs, gr@);
                let old_rs = rs;
                rs = rs.push(gr@);
                assert forall|k: int| 0 <= k < i + 1 implies outcome(g, max, rank, inner@, depth as int, b, Ok(#[trigger] rs[k])) by {
                    if k < old_rs.len() {
                        assert(rs[k] == old_rs[k]);
                    }
                }
            }
            if !is_empty_op(&gr) {
                proof {
                    lemma_derivation_not_void(gr@);
                    lemma_ops_view_push(parts@, gr);
                    lemma_parts_push(ops_view(parts@), gr@);
                }
                parts.push(gr);
            } else {
                proof {
                    assert(is_void(gr@));
                }
            }
            i += 1;
        }
        let ghost children = ops_view(parts@);
        let r = make_sequence(parts);
        proof {
            lemma_simplify_derivation(children);
            lemma_simplify_idempotent(rs);
        }
        Ok(r)
    }
}

proof fn lemma_set_unsupported(
    g: Grammar,
    max: int,
    rank: spec_fn(Seq<char>) -> nat,
    v: Seq<OpV>,
    depth: int,
    b: nat,
    rs: Seq<OpV>,
    x: OpV,
)
    requires
        rs.len() < v.len(),
        forall|i: int| 0 <= i < rs.len() ==> outcome(g, max, rank, v[i], next_depth(depth), child_bound(depth, max, b, v[i], rank), Ok(#[trigger] rs[i])),
        forall|i: int| 0 <= i < rs.len() ==> (#[trigger] rs[i]) is Terminal || rs[i] is Empty,
        outcome(g, max, rank, next_child(v, rs), next_depth(depth), child_bound(depth, max, b, next_child(v, rs), rank), Ok::<OpV, GenError>(x)),
        !(x is Terminal || x is Empty),
    ensures
        outcome(g, max, rank, OpV::CharSet(v), depth, b, Err::<OpV, GenError>(GenError::UnsupportedInSet)),
{
    let op = OpV::CharSet(v);
    assert(op->CharSet_0 == v);
    assert(is_trivial(op));
    assert(not_text(x));
}

/// How deep a derivation's nesting goes.
pub open spec fn height(op: OpV) -> nat
    decreases op,
{
    match op {
        OpV::Sequence(v) => 1 + seq_height(v),
        OpV::Optional(o) => 1 + height(*o),
        OpV::Not(o) => 1 + height(*o),
        OpV::Parentheses(o) => 1 + height(*o),
        _ => 0,
    }
}

/// A bound on the heights of the parts of `v`.
pub open spec fn seq_height(v: Seq<OpV>) -> nat
    decreases v,
{
    if v.len() == 0 {
        0
    } else {
        let h = height(v.last());
        let t = seq_height(v.drop_last());
        if h > t { h } else { t }
    }
}

/// No terminal of the derivation is empty.
pub open spec fn no_empty_text(op: OpV) -> bool
    decreases op,
{
    match op {
        OpV::Terminal(s) => s.len() > 0,
        OpV::Sequence(v) => forall|i: int| 0 <= i < v.len() ==> no_empty_text(#[trigger] v[i]),
        OpV::Optional(o) => no_empty_text(*o),
        OpV::Not(o) => no_empty_text(*o),
        OpV::Parentheses(o) => no_empty_text(*o),
        _ => true,
    }
}

proof fn lemma_seq_height(v: Seq<OpV>, i: int)
    requires
        0 <= i < v.len(),
    ensures
        height(v[i]) <= seq_height(v),
    decreases v.len(),
{
    if i < v.len() - 1 {
        lemma_seq_height(v.drop_last(), i);
        assert(v.drop_last()[i] == v[i]);
    }
}

/// Generating a derivation again gives it back unchanged, where no terminal of it is empty and
/// it stays above the depth limit: simplification has nothing left to do, and no draw is made
/// that could change it.
pub proof fn lemma_regenerate_derivation(
    g: Grammar,
    max: int,
    rank: spec_fn(Seq<char>) -> nat,
    d: OpV,
    depth: int,
    b: nat,
    r: Result<OpV, GenError>,
)
    requires
        is_derivation(d),
        no_empty_text(d),
        0 <= depth,
        depth + height(d) < max,
        max <= usize::MAX,
        outcome(g, max, rank, d, depth, b, r),
    ensures
        r == Ok::<OpV, GenError>(d),
    decreases d,
{
    match d {
        OpV::Sequence(v) => {
            let d1 = next_depth(depth);
            assert(d->Sequence_0 == v);
            if r is Err {
                let rs = choose|rs: Seq<OpV>| #![trigger next_child(v, rs)] rs.len() < v.len() && (forall|i: int|
                    0 <= i < rs.len() ==> outcome(g, max, rank, v[i], d1, child_bound(depth, max, b, v[i], rank), Ok(#[trigger] rs[i])))
                    && outcome(g, max, rank, next_child(v, rs), d1, child_bound(depth, max, b, next_child(v, rs), rank), r);
                let i = rs.len() as int;
                assert(next_child(v, rs) == v[i]);
                lemma_seq_height(v, i);
                lemma_regenerate_derivation(g, max, rank, v[i], d1, child_bound(depth, max, b, v[i], rank), r);
            } else {
                let rs = choose|rs: Seq<OpV>| #![trigger simplify_sequence(rs)] rs.len() == v.len() && (forall|i: int|
                    0 <= i < v.len() ==> outcome(g, max, rank, v[i], d1, child_bound(depth, max, b, v[i], rank), Ok(#[trigger] rs[i])))
                    && r == Ok::<OpV, GenError>(simplify_sequence(rs));
                assert forall|i: int| 0 <= i < v.len() implies #[trigger] rs[i] == v[i] by {
                    lemma_seq_height(v, i);
                    lemma_regenerate_derivation(g, max, rank, v[i], d1, child_bound(depth, max, b, v[i], rank), Ok(rs[i]));
                }
                assert(rs =~= v);
                lemma_survivors_all(v);
            }
        },
        OpV::Optional(x) => {
            let ri = choose|ri: Result<OpV, GenError>| outcome(g, max, rank, *x, depth, b, ri) && r == #[trigger] rewrap(ri, d);
            lemma_regenerate_derivation(g, max, rank, *x, depth, b, ri);
        },
        OpV::Not(x) => {
            let ri = choose|ri: Result<OpV, GenError>| outcome(g, max, rank, *x, depth, b, ri) && r == #[trigger] rewrap(ri, d);
            lemma_regenerate_derivation(g, max, rank, *x, depth, b, ri);
        },
        OpV::Parentheses(x) => {
            let ri = choose|ri: Result<OpV, GenError>| outcome(g, max, rank, *x, depth, b, ri) && r == #[trigger] rewrap(ri, d);
            lemma_regenerate_derivation(g, max, rank, *x, depth, b, ri);
        },
        _ => {},
    }
}

proof fn lemma_survivors_all(v: Seq<OpV>)
    requires
        forall|i: int| 0 <= i < v.len() ==> !is_void(#[trigger] v[i]),
    ensures
        survivors(v) == v,
    decreases v.len(),
{
    reveal(Seq::filter);
    if v.len() > 0 {
        lemma_survivors_all(v.drop_last());
        assert(v.drop_last().push(v.last()) =~= v);
    }
}

/// What a repetition repeats.
pub open spec fn repeated_part(op: OpV) -> OpV {
    if op is ZeroOrMore {
        *op->ZeroOrMore_0
    } else {
        *op->OneOrMore_0
    }
}

/// Appending one result to the generated parts appends it to the survivors unless it is
/// dropped.
proof fn lemma_survivors_push(rs: Seq<OpV>, x: OpV)
    ensures
        survivors(rs.push(x)) == (if is_void(x) { survivors(rs) } else { survivors(rs).push(x) }),
{
    reveal_with_fuel(Seq::filter, 1);
    assert(rs.push(x).drop_last() =~= rs);
}


proof fn lemma_children_below(ops: Vec<Op>, b: nat, rank: spec_fn(Seq<char>) -> nat)
    requires
        (is_trivial(OpV::Sequence(ops_view(ops@))) && refs_below(OpV::Sequence(ops_view(ops@)), b, rank))
            || refs_below(OpV::CharSet(ops_view(ops@)), b, rank),
    ensures
        forall|i: int| 0 <= i < ops@.len() ==> refs_below(#[trigger] ops@[i]@, b, rank),
{
    lemma_ops_view_index(ops@);
    let x = ops_view(ops@);
    let s = OpV::Sequence(x);
    let a = OpV::Alternative(x);
    let c = OpV::CharSet(x);
    assert(s->Sequence_0 == x);
    assert(a->Alternative_0 == x);
    assert(c->CharSet_0 == x);
    assert(forall|k: int| 0 <= k < x.len() ==> refs_below(#[trigger] x[k], b, rank));
    assert forall|i: int| 0 <= i < ops@.len() implies refs_below(#[trigger] ops@[i]@, b, rank) by {
        assert(x[i] == ops@[i]@);
    }
}

/// What the rendering of a sequence is made of.
proof fn lemma_sequence_render(v: Seq<OpV>, op: OpV)
    requires
        op == OpV::Sequence(v),
    ensures
        render(op) == join_spaced(rendered_parts(v)),
        rendered_parts(v).len() == v.len(),
        forall|k: int| 0 <= k < v.len() ==> #[trigger] rendered_parts(v)[k] == render(v[k]),
        !has_optional(op) ==> forall|k: int| 0 <= k < v.len() ==> !has_optional(#[trigger] v[k]),
{
    assert(op->Sequence_0 == v);
    if !has_optional(op) {
        assert(!(exists|k: int| 0 <= k < v.len() && has_optional(#[trigger] v[k])));
    }
}

/// Whether `s` is one of the words rendering puts a space after.
fn is_reserved(s: &String) -> (r: bool)
    ensures
        r == is_reserved_word(s@),
{
    let w = chars_of(s.as_str());
    let n = w.len();
    proof {
        assert(w@.subrange(0, n as int) =~= w@);
    }
    slice_is(&w, 0, n, &['c', 'd', 'e', 'c', 'l']) || slice_is(&w, 0, n, &['f', 'n']) || slice_is(
        &w,
        0,
        n,
        &['c', 'l', 'a', 's', 's'],
    ) || slice_is(&w, 0, n, &['v', 'a', 'r']) || slice_is(&w, 0, n, &['t', 'r', 'u', 'e']) || slice_is(
        &w,
        0,
        n,
        &['f', 'a', 'l', 's', 'e'],
    ) || slice_is(&w, 0, n, &['r', 'e', 't', 'u', 'r', 'n']) || slice_is(&w, 0, n, &['i', 'f'])
        || slice_is(&w, 0, n, &['e', 'l', 's', 'e']) || slice_is(&w, 0, n, &['f', 'o', 'r']) || slice_is(
        &w,
        0,
        n,
        &['m', 'a', 't', 'c', 'h'],
    ) || slice_is(&w, 0, n, &['d', 'e', 'f', 'a', 'u', 'l', 't']) || slice_is(
        &w,
        0,
        n,
        &['c', 'o', 'n', 's', 't', 'r', 'u', 'c', 't', 'o', 'r'],
    ) || slice_is(&w, 0, n, &['n', 'e', 'w']) || slice_is(&w, 0, n, &['f', 'r', 'e', 'e'])
}

// ---------------------------------------------------------------------------
// Deciding whether generation is bounded
// ---------------------------------------------------------------------------

/// A cap on the ranks the check below assigns.
pub const RANK_LIMIT: u64 = 0xFFFF_FFFF;

/// The rank function that a table of ranks, one per rule in order, stands for.
pub open spec fn rank_of(rules: Seq<Rule>, ranks: Seq<u64>) -> spec_fn(Seq<char>) -> nat {
    |n: Seq<char>|
        if rule_index(rules, n) is Some && rule_index(rules, n)->0 < ranks.len() {
            ranks[rule_index(rules, n)->0] as nat
        } else {
            0
        }
}

/// Some bound on the ranks of the rules that `op` refers to through trivial operations.
pub open spec fn bound_of(op: OpV, rank: spec_fn(Seq<char>) -> nat) -> nat {
    choose|b: nat| refs_below(op, b, rank)
}

pub open spec fn has_bound(op: OpV, rank: spec_fn(Seq<char>) -> nat) -> bool {
    exists|b: nat| refs_below(op, b, rank)
}

/// Every operation has some bound on the ranks it refers to.
pub proof fn lemma_refs_bound_exists(op: OpV, rank: spec_fn(Seq<char>) -> nat)
    ensures
        has_bound(op, rank),
        refs_below(op, bound_of(op, rank), rank),
    decreases op,
{
    if !is_trivial(op) {
        assert(refs_below(op, 0, rank));
    } else {
        match op {
            OpV::RuleRef(n) => {
                assert(refs_below(op, rank(n) + 1, rank));
            },
            OpV::ZeroOrMore(o) => {
                lemma_refs_bound_exists(*o, rank);
                assert(refs_below(op, bound_of(*o, rank), rank));
            },
            OpV::OneOrMore(o) => {
                lemma_refs_bound_exists(*o, rank);
                assert(refs_below(op, bound_of(*o, rank), rank));
            },
            OpV::Optional(o) => {
                lemma_refs_bound_exists(*o, rank);
                assert(refs_below(op, bound_of(*o, rank), rank));
            },
            OpV::Sequence(v) => {
                assert forall|i: int| 0 <= i < v.len() implies has_bound(#[trigger] v[i], rank) by {
                    lemma_refs_bound_exists(v[i], rank);
                }
                let b = lemma_bound_prefix(v, v.len() as int, rank);
                assert(refs_below(op, b, rank));
            },
            OpV::CharSet(v) => {
                assert forall|i: int| 0 <= i < v.len() implies has_bound(#[trigger] v[i], rank) by {
                    lemma_refs_bound_exists(v[i], rank);
                }
                let b = lemma_bound_prefix(v, v.len() as int, rank);
                assert(refs_below(op, b, rank));
            },
            _ => {
                assert(refs_below(op, 0, rank));
            },
        }
    }
}

/// One bound for the first `k` of `v`, each of which has some bound.
proof fn lemma_bound_prefix(v: Seq<OpV>, k: int, rank: spec_fn(Seq<char>) -> nat) -> (b: nat)
    requires
        0 <= k <= v.len(),
        forall|i: int| 0 <= i < v.len() ==> has_bound(#[trigger] v[i], rank),
    ensures
        forall|i: int| 0 <= i < k ==> refs_below(#[trigger] v[i], b, rank),
    decreases k,
{
    if k == 0 {
        0
    } else {
        let prev = lemma_bound_prefix(v, k - 1, rank);
        assert(has_bound(v[k - 1], rank));
        let c = bound_of(v[k - 1], rank);
        let b: nat = if c > prev { c } else { prev };
        assert forall|i: int| 0 <= i < k implies refs_below(#[trigger] v[i], b, rank) by {
            if i < k - 1 {
                lemma_refs_below_monotone(v[i], prev, b, rank);
            } else {
                lemma_refs_below_monotone(v[i], c, b, rank);
            }
        }
        b
    }
}

/// A larger bound bounds too.
pub proof fn lemma_refs_below_monotone(op: OpV, b: nat, c: nat, rank: spec_fn(Seq<char>) -> nat)
    requires
        refs_below(op, b, rank),
        b <= c,
    ensures
        refs_below(op, c, rank),
    decreases op,
{
    if is_trivial(op) {
        match op {
            OpV::ZeroOrMore(o) => lemma_refs_below_monotone(*o, b, c, rank),
            OpV::OneOrMore(o) => lemma_refs_below_monotone(*o, b, c, rank),
            OpV::Optional(o) => lemma_refs_below_monotone(*o, b, c, rank),
            OpV::Sequence(v) => {
                assert forall|i: int| 0 <= i < v.len() implies refs_below(#[trigger] v[i], c, rank) by {
                    lemma_refs_below_monotone(v[i], b, c, rank);
                }
            },
            OpV::CharSet(v) => {
                assert forall|i: int| 0 <= i < v.len() implies refs_below(#[trigger] v[i], c, rank) by {
                    lemma_refs_below_monotone(v[i], b, c, rank);
                }
            },
            _ => {},
        }
    }
}

/// A bound on the ranks of the rules that `op` refers to through trivial operations, under the table
/// `ranks`, all of whose entries are at most `limit`; no larger than any bound under `r2`.
fn ref_bound(g: &Grammar, op: &Op, ranks: &Vec<u64>, limit: u64, Ghost(r2): Ghost<spec_fn(Seq<char>) -> nat>) -> (r: u64)
    requires
        g.wf(),
        ranks@.len() == g.rules@.len(),
        forall|k: int| 0 <= k < ranks@.len() ==> #[trigger] ranks@[k] <= limit,
        limit <= RANK_LIMIT,
        ranks_at_most(g.rules@, ranks@, r2),
    ensures
        refs_below(op@, r as nat, rank_of(g.rules@, ranks@)),
        r <= limit + 1,
        forall|c: nat| #[trigger] refs_below(op@, c, r2) ==> r <= c,
    decreases op,
{
    let ghost rank = rank_of(g.rules@, ranks@);
    if !op.is_trivial_rule() {
        return 0;
    }
    match op {
        Op::RuleRef(name) => {
            match g.find_rule(name) {
                Some(i) => {
                    let res = ranks[i] + 1;
                    proof {
                        assert(rank(name@) == ranks@[i as int] as nat);
                        assert(is_trivial_name(name@));
                        assert(g.rules@[i as int].name@ == name@);
                        assert(rank_of(g.rules@, ranks@)(name@) <= r2(name@));
                        assert forall|c: nat| #[trigger] refs_below(op@, c, r2) implies res <= c by {
                            assert(r2(name@) < c);
                        }
                    }
                    res
                },
                None => {
                    proof {
                        assert(is_trivial_name(name@));
                        assert forall|c: nat| #[trigger] refs_below(op@, c, r2) implies 1 <= c by {
                            assert(r2(name@) < c);
                        }
                    }
                    1
                },
            }
        },
        Op::ZeroOrMore(o) => {
            let res = ref_bound(g, o, ranks, limit, Ghost(r2));
            proof {
                assert forall|c: nat| #[trigger] refs_below(op@, c, r2) implies res <= c by {
                    assert(refs_below(o@, c, r2));
                }
            }
            res
        },
        Op::OneOrMore(o) => {
            let res = ref_bound(g, o, ranks, limit, Ghost(r2));
            proof {
                assert forall|c: nat| #[trigger] refs_below(op@, c, r2) implies res <= c by {
                    assert(refs_below(o@, c, r2));
                }
            }
            res
        },
        Op::Optional(o) => {
            let res = ref_bound(g, o, ranks, limit, Ghost(r2));
            proof {
                assert forall|c: nat| #[trigger] refs_below(op@, c, r2) implies res <= c by {
                    assert(refs_below(o@, c, r2));
                }
            }
            res
        },
        Op::Sequence(v) => {
            proof {
                lemma_list_view(*v);
            }
            let b = ref_bound_all(g, v, ranks, limit, Ghost(r2));
            proof {
                lemma_bound_children(op@, ops_view(v@), b as nat, rank);
                lemma_children_least(op@, ops_view(v@), b as nat, r2);
            }
            b
        },
        Op::CharSet(v) => {
            proof {
                lemma_list_view(*v);
            }
            let b = ref_bound_all(g, v, ranks, limit, Ghost(r2));
            proof {
                lemma_bound_children(op@, ops_view(v@), b as nat, rank);
                lemma_children_least(op@, ops_view(v@), b as nat, r2);
            }
            b
        },
        _ => 0,
    }
}

/// One bound for all of `ops`.
fn ref_bound_all(g: &Grammar, ops: &Vec<Op>, ranks: &Vec<u64>, limit: u64, Ghost(r2): Ghost<spec_fn(Seq<char>) -> nat>) -> (r: u64)
    requires
        g.wf(),
        ranks@.len() == g.rules@.len(),
        forall|k: int| 0 <= k < ranks@.len() ==> #[trigger] ranks@[k] <= limit,
        limit <= RANK_LIMIT,
        ranks_at_most(g.rules@, ranks@, r2),
    ensures
        forall|c: nat| #[trigger] all_below(ops_view(ops@), c, r2) ==> r <= c,
        forall|i: int| 0 <= i < ops_view(ops@).len() ==> refs_below(
            #[trigger] ops_view(ops@)[i],
            r as nat,
            rank_of(g.rules@, ranks@),
        ),
        r <= limit + 1,
    decreases ops,
{
    let ghost rank = rank_of(g.rules@, ranks@);
    proof {
        lemma_ops_view_index(ops@);
    }
    let mut best: u64 = 0;
    let mut i: usize = 0;
    while i < ops.len()
        invariant
            g.wf(),
            ranks@.len() == g.rules@.len(),
            forall|k: int| 0 <= k < ranks@.len() ==> #[trigger] ranks@[k] <= limit,
        limit <= RANK_LIMIT,
            rank == rank_of(g.rules@, ranks@),
            decreases_to!(*ops => ops@),
            i <= ops@.len(),
            ops_view(ops@).len() == ops@.len(),
            forall|k: int| 0 <= k < ops@.len() ==> #[trigger] ops_view(ops@)[k] == ops@[k]@,
            best <= limit + 1,
            forall|k: int| 0 <= k < i ==> refs_below(#[trigger] ops_view(ops@)[k], best as nat, rank),
            ranks_at_most(g.rules@, ranks@, r2),
            forall|c: nat| #[trigger] all_below(ops_view(ops@), c, r2) ==> best <= c,
        decreases ops@.len() - i,
    {
        proof {
            vstd::std_specs::vec::axiom_vec_index_decreases(*ops, i as int);
        }
        let b = ref_bound(g, &ops[i], ranks, limit, Ghost(r2));
        proof {
            assert forall|c: nat| #[trigger] all_below(ops_view(ops@), c, r2) implies b <= c by {
                assert(refs_below(ops_view(ops@)[i as int], c, r2));
            }
        }
        if b > best {
            proof {
                assert forall|k: int| 0 <= k < i implies refs_below(#[trigger] ops_view(ops@)[k], b as nat, rank) by {
                    lemma_refs_below_monotone(ops_view(ops@)[k], best as nat, b as nat, rank);
                }
            }
            best = b;
        } else {
            proof {
                lemma_refs_below_monotone(ops@[i as int]@, b as nat, best as nat, rank);
            }
        }
        i += 1;
    }
    best
}

/// Some ranking of at most `rank_limit(g)` per rule bounds generation from `g`.
pub open spec fn limited_ranking_exists(g: Grammar) -> bool {
    exists|rank: spec_fn(Seq<char>) -> nat| ranks_rules(g, rank) && forall|m: Seq<char>| #[trigger] rank(m) <= rank_limit(g)
}

/// The largest rank the check assigns: one more than the number of rules (a chain of
/// references among distinct rules is never longer), capped at `RANK_LIMIT`.
pub open spec fn rank_limit(g: Grammar) -> nat {
    if g.rules@.len() < RANK_LIMIT {
        (g.rules@.len() + 1) as nat
    } else {
        RANK_LIMIT as nat
    }
}

/// The sum of a table of ranks.
pub open spec fn total(s: Seq<u64>) -> int
    decreases s.len(),
{
    if s.len() == 0 {
        0
    } else {
        total(s.drop_last()) + s.last()
    }
}

proof fn lemma_total_bound(s: Seq<u64>, limit: u64)
    requires
        forall|j: int| 0 <= j < s.len() ==> #[trigger] s[j] <= limit,
    ensures
        0 <= total(s) <= s.len() * limit,
    decreases s.len(),
{
    if s.len() > 0 {
        let t = s.drop_last();
        assert forall|j: int| 0 <= j < t.len() implies #[trigger] t[j] <= limit by {
            assert(t[j] == s[j]);
        }
        lemma_total_bound(t, limit);
        assert(s.len() * limit == t.len() * limit + limit) by (nonlinear_arith)
            requires
                s.len() == t.len() + 1,
        ;
    }
}

proof fn lemma_total_update(s: Seq<u64>, i: int, v: u64)
    requires
        0 <= i < s.len(),
    ensures
        total(s.update(i, v)) == total(s) - s[i] + v,
    decreases s.len(),
{
    let u = s.update(i, v);
    if i == s.len() - 1 {
        assert(u.drop_last() =~= s.drop_last());
    } else {
        assert(u.drop_last() =~= s.drop_last().update(i, v));
        lemma_total_update(s.drop_last(), i, v);
    }
}

/// Every part of `v` has all its expandable references below `c` under `r2`.
pub open spec fn all_below(v: Seq<OpV>, c: nat, r2: spec_fn(Seq<char>) -> nat) -> bool {
    forall|k: int| 0 <= k < v.len() ==> refs_below(#[trigger] v[k], c, r2)
}

/// The table `ranks` gives each trivially named rule a rank no larger than `r2` does.
pub open spec fn ranks_at_most(rules: Seq<Rule>, ranks: Seq<u64>, r2: spec_fn(Seq<char>) -> nat) -> bool {
    forall|n: Seq<char>| #[trigger] is_trivial_name(n) ==> rank_of(rules, ranks)(n) <= r2(n)
}

proof fn lemma_children_least(op: OpV, v: Seq<OpV>, b: nat, r2: spec_fn(Seq<char>) -> nat)
    requires
        op == OpV::Sequence(v) || op == OpV::Alternative(v) || op == OpV::CharSet(v),
        is_trivial(op),
        forall|c: nat| #[trigger] all_below(v, c, r2) ==> b <= c,
    ensures
        forall|c: nat| #[trigger] refs_below(op, c, r2) ==> b <= c,
{
    assert forall|c: nat| #[trigger] refs_below(op, c, r2) implies b <= c by {
        if op is Sequence {
            assert(op->Sequence_0 == v);
        } else if op is Alternative {
            assert(op->Alternative_0 == v);
        } else {
            assert(op->CharSet_0 == v);
        }
        assert(all_below(v, c, r2));
    }
}

proof fn lemma_bound_children(op: OpV, v: Seq<OpV>, b: nat, rank: spec_fn(Seq<char>) -> nat)
    requires
        op == OpV::Sequence(v) || op == OpV::Alternative(v) || op == OpV::CharSet(v),
        forall|i: int| 0 <= i < v.len() ==> refs_below(#[trigger] v[i], b, rank),
        is_trivial(op),
    ensures
        refs_below(op, b, rank),
{
    if op is Sequence {
        assert(op->Sequence_0 == v);
    } else if op is Alternative {
        assert(op->Alternative_0 == v);
    } else {
        assert(op->CharSet_0 == v);
    }
}

impl Grammar {
    /// Decides whether generation from this grammar is bounded: it searches, by raising ranks
    /// until nothing changes, for rule ranks of at most `rank_limit` under which every rule with
    /// a trivial name refers, through trivial operations, only to rules of lower rank.
    pub fn has_bounded_generation(&self) -> (r: bool)
        requires
            self.wf(),
        ensures
            r ==> generation_bounded(*self),
            limited_ranking_exists(*self) ==> r,
    {
        let n = self.rules.len();
        let limit: u64 = if (n as u64) < RANK_LIMIT { n as u64 + 1 } else { RANK_LIMIT };
        proof {
            assert(limit == rank_limit(*self));
        }
        let ghost has_star = limited_ranking_exists(*self);
        let ghost rstar = choose|rank: spec_fn(Seq<char>) -> nat| ranks_rules(*self, rank) && forall|m: Seq<char>|
            #[trigger] rank(m) <= rank_limit(*self);
        let mut ranks: Vec<u64> = Vec::new();
        let mut k: usize = 0;
        while k < n
            invariant
                k <= n,
                n == self.rules@.len(),
                ranks@.len() == k,
                forall|j: int| 0 <= j < k ==> #[trigger] ranks@[j] == 0,
            decreases n - k,
        {
            ranks.push(0);
            k += 1;
        }
        proof {
            lemma_total_bound(ranks@, limit);
        }
        loop
            invariant
                self.wf(),
                n == self.rules@.len(),
                ranks@.len() == n,
                forall|j: int| 0 <= j < n ==> #[trigger] ranks@[j] <= limit,
                limit == rank_limit(*self),
                has_star == limited_ranking_exists(*self),
                has_star ==> ranks_at_most(self.rules@, ranks@, rstar),
                has_star ==> ranks_rules(*self, rstar) && forall|m: Seq<char>| #[trigger] rstar(m) <= rank_limit(*self),
                0 <= total(ranks@) <= n * limit,
            decreases n * limit - total(ranks@),
        {
            let ghost start = ranks@;
            let mut changed = false;
            let mut i: usize = 0;
            while i < n
                invariant
                    self.wf(),
                    n == self.rules@.len(),
                    ranks@.len() == n,
                    i <= n,
                    start.len() == n,
                    forall|j: int| 0 <= j < n ==> #[trigger] ranks@[j] <= limit,
                limit == rank_limit(*self),
                    forall|j: int| 0 <= j < n ==> #[trigger] start[j] <= ranks@[j],
                    total(start) <= total(ranks@),
                    changed ==> total(start) < total(ranks@),
                    !changed ==> ranks@ == start,
                    !changed ==> forall|j: int|
                        0 <= j < i && is_trivial_name(self.rules@[j].name@) ==> refs_below(
                            #[trigger] self.rules@[j].definition@,
                            ranks@[j] as nat,
                            rank_of(self.rules@, ranks@),
                        ),
                    has_star == limited_ranking_exists(*self),
                    has_star ==> ranks_at_most(self.rules@, ranks@, rstar),
                    has_star ==> ranks_rules(*self, rstar) && forall|m: Seq<char>| #[trigger] rstar(m) <= rank_limit(*self),
                decreases n - i,
            {
                if trivial_name(&self.rules[i].name) {
                    let ghost r2 = if has_star { rstar } else { rank_of(self.rules@, ranks@) };
                    let b = ref_bound(self, &self.rules[i].definition, &ranks, limit, Ghost(r2));
                    proof {
                        assert(has_star ==> b <= rstar(self.rules@[i as int].name@) && rstar(self.rules@[i as int].name@) <= limit) by {
                        if has_star {
                            let nm = self.rules@[i as int].name@;
                            assert(self.rule_map().contains_key(nm)) by {
                                assert(crate::ast::rule_index(self.rules@, nm) is Some);
                            }
                            let j = crate::ast::rule_index(self.rules@, nm)->0;
                            assert(self.rules@[j].name@ == nm);
                            assert(j == i);
                            assert(refs_below(self.rules@[i as int].definition@, rstar(nm), rstar));
                            assert(b <= rstar(nm));
                            assert(rstar(nm) <= limit);
                        }
                        }
                    }
                    if b > limit {
                        return false;
                    }
                    if b > ranks[i] {
                        let ghost before = ranks@;
                        ranks.set(i, b);
                        proof {
                            lemma_total_update(before, i as int, b);
                            if has_star {
                                let nm = self.rules@[i as int].name@;
                                assert forall|m: Seq<char>| #[trigger] is_trivial_name(m) implies rank_of(self.rules@, ranks@)(m) <= rstar(m) by {
                                    assert(rank_of(self.rules@, before)(m) <= rstar(m));
                                    if crate::ast::rule_index(self.rules@, m) is Some {
                                        let j = crate::ast::rule_index(self.rules@, m)->0;
                                        if j == i {
                                            assert(self.rules@[j].name@ == m);
                                            let jj = crate::ast::rule_index(self.rules@, nm)->0;
                                            assert(crate::ast::rule_index(self.rules@, nm) is Some);
                                            assert(self.rules@[jj].name@ == nm);
                                            assert(b <= rstar(nm));
                                        }
                                    }
                                }
                            }
                        }
                        changed = true;
                    } else {
                        proof {
                            lemma_refs_below_monotone(
                                self.rules@[i as int].definition@,
                                b as nat,
                                ranks@[i as int] as nat,
                                rank_of(self.rules@, ranks@),
                            );
                        }
                    }
                }
                i += 1;
            }
            if !changed {
                proof {
                    let rank = rank_of(self.rules@, ranks@);
                    assert forall|name: Seq<char>| #[trigger] self.rule_map().contains_key(name) && is_trivial_name(name)
                        implies refs_below(self.rule_map()[name].definition@, rank(name), rank) by {
                        let j = rule_index(self.rules@, name)->0;
                        assert(self.rule_map()[name] == self.rules@[j]);
                        assert(rank(name) == ranks@[j] as nat);
                        assert(self.rules@[j].name@ == name);
                    }
                    assert(ranks_rules(*self, rank));
                }
                return true;
            }
            proof {
                lemma_total_bound(ranks@, limit);
            }
        }
    }
}

/// Parts that may stand in a derivation's sequence: derivations that are not empty.
pub open spec fn derivation_parts(v: Seq<OpV>) -> bool {
    forall|i: int| 0 <= i < v.len() ==> !is_void(#[trigger] v[i]) && is_derivation(v[i])
}

proof fn lemma_parts_push(v: Seq<OpV>, o: OpV)
    requires
        derivation_parts(v),
        !is_void(o),
        is_derivation(o),
    ensures
        derivation_parts(v.push(o)),
{
    assert forall|i: int| 0 <= i < v.push(o).len() implies !is_void(#[trigger] v.push(o)[i]) && is_derivation(
        v.push(o)[i],
    ) by {
        if i < v.len() {
            assert(v.push(o)[i] == v[i]);
        }
    }
}

/// A derivation other than `Empty` is never an empty sequence.
proof fn lemma_derivation_not_void(o: OpV)
    requires
        is_derivation(o),
        o != OpV::Empty,
    ensures
        !is_void(o),
{
    if o is Sequence {
        assert(o->Sequence_0.len() >= 2);
    }
}

/// Simplifying parts of derivations gives a derivation.
proof fn lemma_simplify_derivation(v: Seq<OpV>)
    requires
        derivation_parts(v),
    ensures
        is_derivation(simplify_sequence(v)),
{
    let f = survivors(v);
    let pred = |o: OpV| !is_void(o);
    assert forall|i: int| 0 <= i < f.len() implies !is_void(#[trigger] f[i]) && is_derivation(f[i]) by {
        v.lemma_filter_pred(pred, i);
        let x = f[i];
        assert(f.contains(x));
        v.lemma_filter_contains_rev(pred, x);
        let k = choose|k: int| 0 <= k < v.len() && v[k] == x;
        assert(is_derivation(v[k]));
    }
}

proof fn lemma_expression_not_trivial(n: Seq<char>)
    requires
        n == seq!['e', 'x', 'p', 'r', 'e', 's', 's', 'i', 'o', 'n'],
    ensures
        !is_trivial_name(n),
{
    assert(!crate::ast::upper_char(n[0]));
    assert(n.len() == 10);
}

/// Whether `o` is `Empty`.
fn is_empty_op(o: &Op) -> (r: bool)
    ensures
        r == (o@ == OpV::Empty),
{
    match o {
        Op::Empty => true,
        _ => false,
    }
}

/// A string of one character.
fn char_string(c: char) -> (r: String)
    ensures
        r@ == seq![c],
{
    let mut s = String::new();
    push_char(&mut s, c);
    proof {
        assert(s@ =~= seq![c]);
    }
    s
}

/// The atomic expressions that stand in for a whole `expression` now and then: numbers,
/// booleans, and references to character literals, string literals and identifiers.
fn simple_expression(k: usize) -> (r: Op)
    requires
        k < 9,
    ensures
        r@ == simple_expression_spec(k as int),
{
    if k == 0 {
        Op::Terminal(String::from_str("1"))
    } else if k == 1 {
        Op::Terminal(String::from_str("1321"))
    } else if k == 2 {
        Op::Terminal(String::from_str("0"))
    } else if k == 3 {
        Op::Terminal(String::from_str("192830"))
    } else if k == 4 {
        Op::Terminal(String::from_str("true"))
    } else if k == 5 {
        Op::Terminal(String::from_str("false"))
    } else if k == 6 {
        Op::RuleRef(String::from_str("CHAR_LITERAL"))
    } else if k == 7 {
        Op::RuleRef(String::from_str("STRING_LITERAL"))
    } else {
        Op::RuleRef(String::from_str("IDENTIFIER"))
    }
}

} // verus!
