use vstd::prelude::*;
use crate::ast::{lemma_list_view, lemma_ops_view_empty, lemma_ops_view_push, ops_view, Op, OpV};
use crate::text::{char_from_u32, chars_of, is_scalar_value};

verus! {


/// Why a character-set literal was rejected.
#[derive(Debug, Clone, Copy, PartialEq, Eq, Structural)]
pub enum SetError {
    /// The literal does not start with `[`.
    MissingOpenBracket,
    /// A `-` with no character before it.
    DanglingDash,
    /// A `-` with no character after it.
    MissingRangeEnd,
    /// A backslash at the end of the text.
    IncompleteEscape,
    /// A `\u` escape with a character that is no hex digit.
    InvalidHexDigit,
    /// A `\u` escape cut short by the end of the text.
    IncompleteUnicodeEscape,
    /// A `\u` escape that names a surrogate code point.
    InvalidCodePoint,
    /// Characters after the closing `]`.
    TrailingCharacters,
    /// The text ends before a closing `]`.
    Unterminated,
}

pub open spec fn is_hex_digit(c: char) -> bool {
    ('0' <= c && c <= '9') || ('a' <= c && c <= 'f') || ('A' <= c && c <= 'F')
}

pub open spec fn hex_value(c: char) -> int {
    if '0' <= c && c <= '9' {
        c as int - '0' as int
    } else if 'a' <= c && c <= 'f' {
        c as int - 'a' as int + 10
    } else {
        c as int - 'A' as int + 10
    }
}

/// The character whose code point is `u`.
pub open spec fn char_with_code(u: int) -> char {
    choose|c: char| #[trigger] code_of(c) == u
}

pub open spec fn code_of(c: char) -> int {
    c as int
}

/// Reading `n` hex digits from position `i`, with `acc` the value of those read before.
pub open spec fn hex_digits(s: Seq<char>, i: int, n: nat, acc: int) -> Result<int, SetError>
    decreases n,
{
    if n == 0 {
        Ok(acc)
    } else if i < 0 || i >= s.len() {
        Err(SetError::IncompleteUnicodeEscape)
    } else if !is_hex_digit(s[i]) {
        Err(SetError::InvalidHexDigit)
    } else {
        hex_digits(s, i + 1, (n - 1) as nat, acc * 16 + hex_value(s[i]))
    }
}

/// The character that an escape stands for, where `i` is just past the backslash, with the
/// position just past the escape.
#[verifier::opaque]
pub open spec fn escape_value(s: Seq<char>, i: int) -> Result<(char, int), SetError> {
    if i < 0 || i >= s.len() {
        Err(SetError::IncompleteEscape)
    } else if s[i] == 'n' {
        Ok(('\n', i + 1))
    } else if s[i] == 't' {
        Ok(('\t', i + 1))
    } else if s[i] == 'r' {
        Ok(('\r', i + 1))
    } else if s[i] == 'u' {
        match hex_digits(s, i + 1, 4, 0) {
            Err(e) => Err(e),
            Ok(u) => if is_scalar_value(u) {
                Ok((char_with_code(u), i + 5))
            } else {
                Err(SetError::InvalidCodePoint)
            },
        }
    } else {
        Ok((s[i], i + 1))
    }
}

/// One character of a set at `i`, escaped or not, with the position just past it; `missing`
/// where the text has ended.
pub open spec fn set_char(s: Seq<char>, i: int, missing: SetError) -> Result<(char, int), SetError> {
    if i < 0 || i >= s.len() {
        Err(missing)
    } else if s[i] == '\\' {
        escape_value(s, i + 1)
    } else {
        Ok((s[i], i + 1))
    }
}

/// The ranges so far, with a pending single character closed as a one-character range.
pub open spec fn flush(acc: Seq<OpV>, pending: Option<char>) -> Seq<OpV> {
    match pending {
        Some(c) => acc.push(OpV::CharRange(c, c)),
        None => acc,
    }
}

pub open spec fn pending_of(has: bool, c: char) -> Option<char> {
    if has {
        Some(c)
    } else {
        None
    }
}

/// Scanning the members of a set from `i`: the ranges closed so far are `acc`, and `pending`
/// is a single character that a following `-` may turn into a range start. Returns the
/// ranges, the pending character, and the position just past the closing `]`; an error where the text ends first.
#[verifier::opaque]
pub open spec fn set_scan(s: Seq<char>, i: int, pending: Option<char>, acc: Seq<OpV>) -> Result<
    (Seq<OpV>, Option<char>, int),
    SetError,
>
    decreases s.len() - i,
{
    if i < 0 || i >= s.len() {
        Err(SetError::Unterminated)
    } else if s[i] == ']' {
        Ok((acc, pending, i + 1))
    } else if s[i] == '-' {
        match pending {
            None => Err(SetError::DanglingDash),
            Some(lo) => match set_char(s, i + 1, SetError::MissingRangeEnd) {
                Err(e) => Err(e),
                Ok((hi, j)) => if i < j <= s.len() {
                    set_scan(s, j, None, acc.push(OpV::CharRange(lo, hi)))
                } else {
                    Err(SetError::MissingRangeEnd)
                },
            },
        }
    } else {
        match set_char(s, i, SetError::IncompleteEscape) {
            Err(e) => Err(e),
            Ok((c, j)) => if i < j <= s.len() {
                set_scan(s, j, Some(c), flush(acc, pending))
            } else {
                Err(SetError::IncompleteEscape)
            },
        }
    }
}

/// The meaning of a set literal such as `[a-zA-Z_]`: a `CharSet` of `CharRange` members.
pub open spec fn parse_set_spec(s: Seq<char>) -> Result<OpV, SetError> {
    if s.len() == 0 || s[0] != '[' {
        Err(SetError::MissingOpenBracket)
    } else {
        match set_scan(s, 1, None, seq![]) {
            Err(e) => Err(e),
            Ok((acc, pending, stop)) => if stop < s.len() {
                Err(SetError::TrailingCharacters)
            } else {
                Ok(OpV::CharSet(flush(acc, pending)))
            },
        }
    }
}

/// What reading one character of a set gave: the character and the position after it, or
/// why there is none.
pub enum Scanned {
    Char(char, usize),
    Failed(SetError),
}

impl Scanned {
    /// This outcome is the one that `expected` describes.
    pub open spec fn agrees(self, expected: Result<(char, int), SetError>) -> bool {
        match self {
            Scanned::Char(c, j) => expected == Ok::<(char, int), SetError>((c, j as int)),
            Scanned::Failed(e) => expected == Err::<(char, int), SetError>(e),
        }
    }
}

/// Parses bracketed character-set literals.
pub struct SetParser;

impl SetParser {
    pub fn new() -> (r: SetParser) {
        SetParser
    }

    /// Parses a set literal, brackets included, into a `CharSet` of `CharRange`s.
    pub fn parse_set(&self, set_str: &str) -> (r: Result<Op, SetError>)
        ensures
            parse_set_spec(set_str@) is Ok <==> r is Ok,
            r matches Ok(op) ==> parse_set_spec(set_str@) == Ok::<OpV, SetError>(op@),
            r matches Err(e) ==> parse_set_spec(set_str@) == Err::<OpV, SetError>(e),
    {
        let s = chars_of(set_str);
        let len = s.len();
        if !self.expect_char(&s, 0, '[') {
            return Err(SetError::MissingOpenBracket);
        }
        let mut i: usize = 1;
        let mut ranges: Vec<Op> = Vec::new();
        let mut has_pending = false;
        let mut pc: char = ' ';
        let mut closed = false;
        proof {
            lemma_ops_view_empty();
            if len <= 1 {
                lemma_scan_end(s@, 1, None, seq![]);
            }
        }
        while i < len && !closed
            invariant
                s@ == set_str@,
                len == s@.len(),
                1 <= i <= len,
                s@[0] == '[',
                set_scan(s@, 1, None, seq![]) == (if closed {
                    Ok((ops_view(ranges@), pending_of(has_pending, pc), i as int))
                } else {
                    set_scan(s@, i as int, pending_of(has_pending, pc), ops_view(ranges@))
                }),
            decreases len - i, (if closed { 0int } else { 1int }),
        {
            let c = s[i];
            if c == ']' {
                proof {
                    lemma_scan_close(s@, i as int, pending_of(has_pending, pc), ops_view(ranges@));
                }
                i += 1;
                closed = true;
                assert(set_scan(s@, 1, None, seq![]) == Ok::<(Seq<OpV>, Option<char>, int), SetError>((ops_view(ranges@), pending_of(has_pending, pc), i as int)));
            } else if c == '-' {
                if !has_pending {
                    proof {
                        lemma_scan_dash_alone(s@, i as int, ops_view(ranges@));
                    }
                    return Err(SetError::DanglingDash);
                }
                match self.parse_char_in_set(&s, i + 1, SetError::MissingRangeEnd) {
                    Scanned::Char(hi, j) => {
                        proof {
                            lemma_scan_range(s@, i as int, pc, ops_view(ranges@), hi, j as int);
                        }
                        ranges = with_range(ranges, pc, hi);
                        has_pending = false;
                        i = j;
                    },
                    Scanned::Failed(e) => {
                        proof {
                            lemma_scan_range_error(s@, i as int, pc, ops_view(ranges@), e);
                        }
                        return Err(e);
                    },
                }
            } else {
                match self.parse_char_in_set(&s, i, SetError::IncompleteEscape) {
                    Scanned::Char(ch, j) => {
                        proof {
                            lemma_scan_char(s@, i as int, pending_of(has_pending, pc), ops_view(ranges@), ch, j as int);
                        }
                        if has_pending {
                            ranges = with_range(ranges, pc, pc);
                        }
                        has_pending = true;
                        pc = ch;
                        i = j;
                    },
                    Scanned::Failed(e) => {
                        proof {
                            lemma_scan_char_error(s@, i as int, pending_of(has_pending, pc), ops_view(ranges@), e);
                        }
                        return Err(e);
                    },
                }
            }
        }
        if !closed {
            proof {
                lemma_scan_end(s@, i as int, pending_of(has_pending, pc), ops_view(ranges@));
            }
            return Err(SetError::Unterminated);
        }
        if has_pending {
            ranges = with_range(ranges, pc, pc);
        }
        if i < len {
            return Err(SetError::TrailingCharacters);
        }
        proof {
            lemma_list_view(ranges);
        }
        Ok(Op::CharSet(ranges))
    }

    /// One character of a set at `i`, escaped or not, and the position after it.
    fn parse_char_in_set(&self, s: &Vec<char>, i: usize, missing: SetError) -> (r: Scanned)
        requires
            i <= s@.len(),
        ensures
            r.agrees(set_char(s@, i as int, missing)),
            r is Char ==> i < r->Char_1 && r->Char_1 <= s@.len(),
    {
        if i >= s.len() {
            return Scanned::Failed(missing);
        }
        if s[i] == '\\' {
            self.parse_escaped_char(s, i + 1)
        } else {
            Scanned::Char(s[i], i + 1)
        }
    }

    /// The character an escape stands for, where `i` is just past the backslash, and the
    /// position after the escape.
    fn parse_escaped_char(&self, s: &Vec<char>, i: usize) -> (r: Scanned)
        requires
            i <= s@.len(),
        ensures
            r.agrees(escape_value(s@, i as int)),
            r is Char ==> i < r->Char_1 && r->Char_1 <= s@.len(),
    {
        reveal(escape_value);
        if i >= s.len() {
            return Scanned::Failed(SetError::IncompleteEscape);
        }
        let c = s[i];
        if c == 'n' {
            Scanned::Char('\n', i + 1)
        } else if c == 't' {
            Scanned::Char('\t', i + 1)
        } else if c == 'r' {
            Scanned::Char('\r', i + 1)
        } else if c == 'u' {
            self.parse_unicode_escape_sequence(s, i + 1)
        } else {
            Scanned::Char(c, i + 1)
        }
    }

    /// The character named by the four hex digits at `i`, and the position after them.
    fn parse_unicode_escape_sequence(&self, s: &Vec<char>, i: usize) -> (r: Scanned)
        requires
            1 <= i <= s@.len(),
            s@[i - 1] == 'u',
        ensures
            r.agrees(escape_value(s@, i - 1)),
            r is Char ==> i < r->Char_1 && r->Char_1 <= s@.len(),
    {
        reveal(escape_value);
        let len = s.len();
        let mut value: u32 = 0;
        let mut k: usize = 0;
        while k < 4
            invariant
                len == s@.len(),
                s@[i - 1] == 'u',
                k <= 4,
                1 <= i <= s@.len(),
                i + k <= s@.len(),
                value < pow16(k as nat),
                hex_digits(s@, i + k, (4 - k) as nat, value as int) == hex_digits(s@, i as int, 4, 0),
            decreases 4 - k,
        {
            if k >= len - i {
                proof {
                    reveal(escape_value);
                    assert(hex_digits(s@, i + k, (4 - k) as nat, value as int) == Err::<int, SetError>(
                        SetError::IncompleteUnicodeEscape,
                    ));
                }
                return Scanned::Failed(SetError::IncompleteUnicodeEscape);
            }
            let c = s[i + k];
            let d: u32 = if '0' <= c && c <= '9' {
                (c as u32) - ('0' as u32)
            } else if 'a' <= c && c <= 'f' {
                (c as u32) - ('a' as u32) + 10
            } else if 'A' <= c && c <= 'F' {
                (c as u32) - ('A' as u32) + 10
            } else {
                proof {
                    reveal(escape_value);
                    assert(hex_digits(s@, i + k, (4 - k) as nat, value as int) == Err::<int, SetError>(
                        SetError::InvalidHexDigit,
                    ));
                }
                return Scanned::Failed(SetError::InvalidHexDigit);
            };
            proof {
                lemma_pow16_small(k as nat);
                assert(pow16((k + 1) as nat) == 16 * pow16(k as nat));
                assert(value * 16 + d < pow16((k + 1) as nat)) by (nonlinear_arith)
                    requires
                        value < pow16(k as nat),
                        d < 16,
                        pow16((k + 1) as nat) == 16 * pow16(k as nat),
                ;
            }
            value = value * 16 + d;
            k += 1;
        }
        match char_from_u32(value) {
            Some(c) => {
                let c = c.clone();
                proof {
                    assert(code_of(c) == value as int);
                    assert(code_of(char_with_code(value as int)) == value as int);
                    lemma_char_code_injective(c, char_with_code(value as int));
                }
                Scanned::Char(c, i + 4)
            },
            None => Scanned::Failed(SetError::InvalidCodePoint),
        }
    }

    /// Whether `s[i]` is the character `expected`.
    fn expect_char(&self, s: &Vec<char>, i: usize, expected: char) -> (r: bool)
        ensures
            r == (i < s@.len() && s@[i as int] == expected),
    {
        i < s.len() && s[i] == expected
    }
}

/// `ranges` with the range `a-b` added at the end.
fn with_range(ranges: Vec<Op>, a: char, b: char) -> (r: Vec<Op>)
    ensures
        ops_view(r@) == ops_view(ranges@).push(OpV::CharRange(a, b)),
{
    let mut r = ranges;
    proof {
        lemma_ops_view_push(r@, Op::CharRange(a, b));
    }
    r.push(Op::CharRange(a, b));
    r
}

proof fn lemma_scan_end(s: Seq<char>, i: int, pending: Option<char>, acc: Seq<OpV>)
    requires
        i >= s.len(),
    ensures
        set_scan(s, i, pending, acc) == Err::<(Seq<OpV>, Option<char>, int), SetError>(SetError::Unterminated),
{
    reveal(set_scan);
}

proof fn lemma_scan_close(s: Seq<char>, i: int, pending: Option<char>, acc: Seq<OpV>)
    requires
        0 <= i < s.len(),
        s[i] == ']',
    ensures
        set_scan(s, i, pending, acc) == Ok::<(Seq<OpV>, Option<char>, int), SetError>((acc, pending, i + 1)),
{
    reveal(set_scan);
}

proof fn lemma_scan_dash_alone(s: Seq<char>, i: int, acc: Seq<OpV>)
    requires
        0 <= i < s.len(),
        s[i] == '-',
    ensures
        set_scan(s, i, None, acc) == Err::<(Seq<OpV>, Option<char>, int), SetError>(SetError::DanglingDash),
{
    reveal(set_scan);
}

/// The scan over a range `lo-hi` whose last character stops at `j`.
proof fn lemma_scan_range(s: Seq<char>, i: int, lo: char, acc: Seq<OpV>, hi: char, j: int)
    requires
        0 <= i < s.len(),
        s[i] == '-',
        set_char(s, i + 1, SetError::MissingRangeEnd) == Ok::<(char, int), SetError>((hi, j)),
        i < j <= s.len(),
    ensures
        set_scan(s, i, Some(lo), acc) == set_scan(s, j, None, acc.push(OpV::CharRange(lo, hi))),
{
    reveal(set_scan);
}

proof fn lemma_scan_range_error(s: Seq<char>, i: int, lo: char, acc: Seq<OpV>, e: SetError)
    requires
        0 <= i < s.len(),
        s[i] == '-',
        set_char(s, i + 1, SetError::MissingRangeEnd) == Err::<(char, int), SetError>(e),
    ensures
        set_scan(s, i, Some(lo), acc) == Err::<(Seq<OpV>, Option<char>, int), SetError>(e),
{
    reveal(set_scan);
}

/// The scan over a character `c` (other than `]` and `-`) that stops at `j`.
proof fn lemma_scan_char(s: Seq<char>, i: int, pending: Option<char>, acc: Seq<OpV>, c: char, j: int)
    requires
        0 <= i < s.len(),
        s[i] != ']',
        s[i] != '-',
        set_char(s, i, SetError::IncompleteEscape) == Ok::<(char, int), SetError>((c, j)),
        i < j <= s.len(),
    ensures
        set_scan(s, i, pending, acc) == set_scan(s, j, Some(c), flush(acc, pending)),
{
    reveal(set_scan);
}

proof fn lemma_scan_char_error(s: Seq<char>, i: int, pending: Option<char>, acc: Seq<OpV>, e: SetError)
    requires
        0 <= i < s.len(),
        s[i] != ']',
        s[i] != '-',
        set_char(s, i, SetError::IncompleteEscape) == Err::<(char, int), SetError>(e),
    ensures
        set_scan(s, i, pending, acc) == Err::<(Seq<OpV>, Option<char>, int), SetError>(e),
{
    reveal(set_scan);
}

pub open spec fn pow16(n: nat) -> int
    decreases n,
{
    if n == 0 {
        1
    } else {
        16 * pow16((n - 1) as nat)
    }
}

proof fn lemma_pow16_small(k: nat)
    requires
        k <= 3,
    ensures
        pow16(k) <= 4096,
{
    reveal_with_fuel(pow16, 4);
}

proof fn lemma_char_code_injective(a: char, b: char)
    requires
        code_of(a) == code_of(b),
    ensures
        a == b,
{
}

} // verus!
