use vstd::prelude::*;
use crate::text::{alphanumeric_of, chars_of, is_alphanumeric, is_white_space, slice_is, string_of, white_space};

verus! {

/// The kinds of tokens of the grammar language.
#[derive(Debug, Clone, Copy, PartialEq, Eq, Structural)]
pub enum TokenType {
    Identifier,
    Fragment,
    Skip,
    Lexer,
    Parser,
    Grammar,
    /// The `EOF` keyword.
    EOF,
    /// The end of the token stream.
    EndOfFile,
    Options,
    Colon,
    Plus,
    Star,
    Dot,
    QuestionMark,
    Or,
    Tilde,
    OpenParen,
    CloseParen,
    OpenCurly,
    CloseCurly,
    OpenAngle,
    CloseAngle,
    /// A bracketed character-set literal, kept verbatim.
    CharSet,
    SemiColon,
    Equal,
    /// A quoted string literal, kept without its quotes.
    String,
    Arrow,
}

#[derive(Debug, Clone, PartialEq)]
pub struct Token {
    pub token_type: TokenType,
    pub value: String,
}

/// The mathematical value of a token.
pub struct TokenV {
    pub kind: TokenType,
    pub text: Seq<char>,
}

impl Token {
    pub open spec fn view(&self) -> TokenV {
        TokenV { kind: self.token_type, text: self.value@ }
    }
}

pub open spec fn tokens_view(v: Seq<Token>) -> Seq<TokenV> {
    v.map_values(|t: Token| t@)
}

pub open spec fn end_of_file() -> TokenV {
    TokenV { kind: TokenType::EndOfFile, text: Seq::empty() }
}

// ---------------------------------------------------------------------------
// The token language, position by position
// ---------------------------------------------------------------------------

pub open spec fn is_ident_start(c: char) -> bool {
    ('a' <= c && c <= 'z') || ('A' <= c && c <= 'Z') || c == '_'
}

pub open spec fn is_ident_continue(c: char) -> bool {
    alphanumeric_of(c) || c == '_'
}

/// The first position at or after `p` that holds no whitespace.
pub open spec fn skip_ws(s: Seq<char>, p: int) -> int
    decreases s.len() - p,
{
    if 0 <= p < s.len() && is_white_space(s[p]) {
        skip_ws(s, p + 1)
    } else {
        p
    }
}

/// The first position at or after `p` that holds no identifier character.
pub open spec fn ident_end(s: Seq<char>, p: int) -> int
    decreases s.len() - p,
{
    if 0 <= p < s.len() && is_ident_continue(s[p]) {
        ident_end(s, p + 1)
    } else {
        p
    }
}

/// The first position at or after `p` that holds a newline (or, with `at_semi`, a `;`).
pub open spec fn line_end(s: Seq<char>, p: int, at_semi: bool) -> int
    decreases s.len() - p,
{
    if 0 <= p < s.len() && s[p] != '\n' && !(at_semi && s[p] == ';') {
        line_end(s, p + 1, at_semi)
    } else {
        p
    }
}

/// The position just past the first `*/` at or after `p`, or the end of the text.
pub open spec fn block_end(s: Seq<char>, p: int) -> int
    decreases s.len() - p,
{
    if p < 0 || p >= s.len() {
        p
    } else if s[p] == '*' && p + 1 < s.len() && s[p + 1] == '/' {
        p + 2
    } else {
        block_end(s, p + 1)
    }
}

/// Scanning the body of a delimited literal from `p`: the position of the first unescaped
/// `close`, or the end of the text. A backslash skips the character after it.
pub open spec fn delimited_end(s: Seq<char>, p: int, close: char) -> int
    decreases s.len() - p,
{
    if p < 0 || p >= s.len() {
        p
    } else if s[p] == close {
        p
    } else if s[p] == '\\' {
        delimited_end(s, if p + 2 <= s.len() { p + 2 } else { s.len() as int }, close)
    } else {
        delimited_end(s, p + 1, close)
    }
}

/// The kind of a one-character symbol.
pub open spec fn symbol_kind(c: char) -> Option<TokenType> {
    if c == ':' {
        Some(TokenType::Colon)
    } else if c == '+' {
        Some(TokenType::Plus)
    } else if c == '*' {
        Some(TokenType::Star)
    } else if c == '|' {
        Some(TokenType::Or)
    } else if c == '~' {
        Some(TokenType::Tilde)
    } else if c == '(' {
        Some(TokenType::OpenParen)
    } else if c == ')' {
        Some(TokenType::CloseParen)
    } else if c == '{' {
        Some(TokenType::OpenCurly)
    } else if c == '}' {
        Some(TokenType::CloseCurly)
    } else if c == '=' {
        Some(TokenType::Equal)
    } else if c == '<' {
        Some(TokenType::OpenAngle)
    } else if c == '>' {
        Some(TokenType::CloseAngle)
    } else if c == '.' {
        Some(TokenType::Dot)
    } else if c == ';' {
        Some(TokenType::SemiColon)
    } else if c == '?' {
        Some(TokenType::QuestionMark)
    } else {
        None
    }
}

/// A token's kind after keywords are recognised by their exact text.
pub open spec fn keyword_or(text: Seq<char>, k: TokenType) -> TokenType {
    if text == seq!['f', 'r', 'a', 'g', 'm', 'e', 'n', 't'] {
        TokenType::Fragment
    } else if text == seq!['s', 'k', 'i', 'p'] {
        TokenType::Skip
    } else if text == seq!['l', 'e', 'x', 'e', 'r'] {
        TokenType::Lexer
    } else if text == seq!['p', 'a', 'r', 's', 'e', 'r'] {
        TokenType::Parser
    } else if text == seq!['g', 'r', 'a', 'm', 'm', 'a', 'r'] {
        TokenType::Grammar
    } else if text == seq!['E', 'O', 'F'] {
        TokenType::EOF
    } else if text == seq!['o', 'p', 't', 'i', 'o', 'n', 's'] {
        TokenType::Options
    } else {
        k
    }
}

/// The token of kind `k` over `s[lo..hi]`; an identifier that spells a keyword takes the
/// keyword's kind.
pub open spec fn token_of(s: Seq<char>, k: TokenType, lo: int, hi: int) -> TokenV {
    TokenV {
        kind: if k == TokenType::Identifier { keyword_or(s.subrange(lo, hi), k) } else { k },
        text: s.subrange(lo, hi),
    }
}

/// The token that starts at or after `p`, once whitespace and comments are passed, with the
/// position just past it; `None` where the text ends or holds a character that starts no token.
pub open spec fn lex_step(s: Seq<char>, p: int) -> Option<(TokenV, int)>
    decreases s.len() - p,
{
    let q = skip_ws(s, p);
    if p < 0 || p >= s.len() || q >= s.len() {
        None
    } else {
        let c = s[q];
        if is_ident_start(c) {
            let e = ident_end(s, q + 1);
            Some((token_of(s, TokenType::Identifier, q, e), e))
        } else if c == '#' {
            let e = line_end(s, q + 1, true);
            if p < e <= s.len() { lex_step(s, e) } else { None }
        } else if c == '/' && q + 1 < s.len() && s[q + 1] == '/' {
            let e = line_end(s, q + 2, false);
            if p < e <= s.len() { lex_step(s, e) } else { None }
        } else if c == '/' && q + 1 < s.len() && s[q + 1] == '*' {
            let e = block_end(s, q + 2);
            if p < e <= s.len() { lex_step(s, e) } else { None }
        } else if symbol_kind(c) is Some {
            Some((token_of(s, symbol_kind(c)->0, q, q + 1), q + 1))
        } else if c == '[' {
            let b = delimited_end(s, q + 1, ']');
            let e = if b < s.len() { b + 1 } else { b };
            Some((token_of(s, TokenType::CharSet, q, e), e))
        } else if c == '\'' {
            let b = delimited_end(s, q + 1, '\'');
            let e = if b < s.len() { b + 1 } else { b };
            let hi = if e - 1 > q + 1 { e - 1 } else { q + 1 };
            Some((token_of(s, TokenType::String, q + 1, hi), e))
        } else if c == '-' && q + 1 < s.len() && s[q + 1] == '>' {
            Some((token_of(s, TokenType::Arrow, q, q + 2), q + 2))
        } else {
            None
        }
    }
}

/// The tokens of `s` from position `p`: every token up to the first place where no token
/// starts, then the end-of-file token.
pub open spec fn lex_from(s: Seq<char>, p: int) -> Seq<TokenV>
    decreases s.len() - p,
{
    match lex_step(s, p) {
        Some((t, e)) => if p < e && e <= s.len() {
            seq![t] + lex_from(s, e)
        } else {
            seq![end_of_file()]
        },
        None => seq![end_of_file()],
    }
}

/// The tokens of a whole text.
pub open spec fn lex_spec(s: Seq<char>) -> Seq<TokenV> {
    lex_from(s, 0)
}

/// Tokenizing always ends with exactly one end-of-file token: it is the last token, and no
/// other token is one.
pub proof fn lemma_lex_ends_with_one_end_of_file(s: Seq<char>, p: int)
    ensures
        lex_from(s, p).len() >= 1,
        lex_from(s, p).last() == end_of_file(),
        forall|i: int| 0 <= i < lex_from(s, p).len() - 1 ==> lex_from(s, p)[i].kind != TokenType::EndOfFile,
    decreases s.len() - p,
{
    match lex_step(s, p) {
        Some((t, e)) => {
            if p < e && e <= s.len() {
                lemma_lex_ends_with_one_end_of_file(s, e);
                lemma_lex_step_kind(s, p);
                let rest = lex_from(s, e);
                assert(lex_from(s, p) == seq![t] + rest);
                assert forall|i: int| 0 <= i < lex_from(s, p).len() - 1 implies lex_from(s, p)[i].kind
                    != TokenType::EndOfFile by {
                    if i > 0 {
                        assert(lex_from(s, p)[i] == rest[i - 1]);
                    }
                }
            }
        },
        None => {},
    }
}

/// Tokenizing again from where tokenizing stopped gives only the end-of-file token.
pub proof fn lemma_lex_again_gives_end_of_file(s: Seq<char>, p: int)
    requires
        lex_step(s, p) is None,
    ensures
        lex_from(s, p) == seq![end_of_file()],
{
}

/// A token found by `lex_step` is never the end-of-file token.
proof fn lemma_lex_step_kind(s: Seq<char>, p: int)
    ensures
        lex_step(s, p) matches Some((t, e)) ==> t.kind != TokenType::EndOfFile,
    decreases s.len() - p,
{
    let q = skip_ws(s, p);
    if !(p < 0 || p >= s.len() || q >= s.len()) {
        let c = s[q];
        if !is_ident_start(c) && c == '#' {
            let e = line_end(s, q + 1, true);
            if p < e <= s.len() {
                lemma_lex_step_kind(s, e);
            }
        } else if !is_ident_start(c) && c == '/' && q + 1 < s.len() && s[q + 1] == '/' {
            let e = line_end(s, q + 2, false);
            if p < e <= s.len() {
                lemma_lex_step_kind(s, e);
            }
        } else if !is_ident_start(c) && c == '/' && q + 1 < s.len() && s[q + 1] == '*' {
            let e = block_end(s, q + 2);
            if p < e <= s.len() {
                lemma_lex_step_kind(s, e);
            }
        }
    }
}

// ---------------------------------------------------------------------------
// The lexer
// ---------------------------------------------------------------------------

pub struct Lexer {
    src: Vec<char>,
    pos: usize,
}

impl Lexer {
    /// The text being tokenized.
    pub closed spec fn input(&self) -> Seq<char> {
        self.src@
    }

    /// The position the next token is sought from.
    pub closed spec fn position(&self) -> int {
        self.pos as int
    }

    pub closed spec fn wf(&self) -> bool {
        self.pos <= self.src@.len()
    }

    pub fn new(src: String) -> (r: Lexer)
        ensures
            r.wf(),
            r.input() == src@,
            r.position() == 0,
    {
        Lexer { src: chars_of(src.as_str()), pos: 0 }
    }

    /// Tokenizes the rest of the text; the result always ends with one end-of-file token.
    pub fn lex(&mut self) -> (r: Vec<Token>)
        requires
            old(self).wf(),
        ensures
            tokens_view(r@) == lex_from(old(self).input(), old(self).position()),
            final(self).wf(),
            final(self).input() == old(self).input(),
            lex_step(final(self).input(), final(self).position()) is None,
    {
        let ghost s = self.src@;
        let ghost p0 = self.pos as int;
        let mut tokens: Vec<Token> = Vec::new();
        loop
            invariant
                self.src@ == s,
                s == old(self).src@,
                p0 == old(self).pos,
                self.wf(),
                tokens_view(tokens@) + lex_from(s, self.pos as int) == lex_from(s, p0),
            decreases s.len() - self.pos,
        {
            let ghost before = self.pos as int;
            match self.next_token() {
                Some(t) => {
                    proof {
                        assert(lex_from(s, before) == seq![t@] + lex_from(s, self.pos as int));
                        assert(tokens_view(tokens@.push(t)) =~= tokens_view(tokens@).push(t@));
                        assert(tokens_view(tokens@.push(t)) + lex_from(s, self.pos as int)
                            =~= tokens_view(tokens@) + lex_from(s, before));
                    }
                    tokens.push(t);
                },
                None => {
                    let eof = Token { token_type: TokenType::EndOfFile, value: String::new() };
                    proof {
                        assert(lex_from(s, before) == seq![end_of_file()]);
                        assert(eof@ =~= end_of_file());
                        assert(tokens_view(tokens@.push(eof)) =~= tokens_view(tokens@).push(eof@));
                        assert(tokens_view(tokens@.push(eof)) =~= tokens_view(tokens@) + lex_from(s, before));
                    }
                    tokens.push(eof);
                    return tokens;
                },
            }
        }
    }

    fn next_token(&mut self) -> (r: Option<Token>)
        requires
            old(self).wf(),
        ensures
            final(self).wf(),
            final(self).src@ == old(self).src@,
            r is None ==> lex_step(final(self).src@, final(self).pos as int) is None,
            match lex_step(old(self).src@, old(self).pos as int) {
                None => r is None,
                Some((t, e)) => r matches Some(tok) && tok@ == t && final(self).pos == e
                    && old(self).pos < e,
            },
    {
        let ghost s = self.src@;
        let ghost p0 = self.pos as int;
        let len = self.src.len();
        loop
            invariant
                self.src@ == s,
                s == old(self).src@,
                p0 == old(self).pos,
                self.wf(),
                len == s.len(),
                p0 <= self.pos,
                lex_step(s, self.pos as int) == lex_step(s, p0),
            decreases s.len() - self.pos,
        {
            if self.pos >= len {
                return None;
            }
            let p = self.pos;
            let q = self.skip_ws_from(p);
            if q >= len {
                return None;
            }
            let c = self.src[q];
            let two = q + 1 < len;
            if ('a' <= c && c <= 'z') || ('A' <= c && c <= 'Z') || c == '_' {
                let e = self.ident_end_from(q + 1);
                self.pos = e;
                return Some(self.token(TokenType::Identifier, q, e));
            } else if c == '#' {
                self.pos = self.line_end_from(q + 1, true);
            } else if c == '/' && two && self.src[q + 1] == '/' {
                self.pos = self.line_end_from(q + 2, false);
            } else if c == '/' && two && self.src[q + 1] == '*' {
                self.pos = self.block_end_from(q + 2);
            } else if let Some(k) = symbol_kind_of(c) {
                self.pos = q + 1;
                return Some(self.token(k, q, q + 1));
            } else if c == '[' {
                let b = self.delimited_end_from(q + 1, ']');
                let e = if b < len { b + 1 } else { b };
                self.pos = e;
                return Some(self.token(TokenType::CharSet, q, e));
            } else if c == '\'' {
                let b = self.delimited_end_from(q + 1, '\'');
                let e = if b < len { b + 1 } else { b };
                let hi = if e - 1 > q + 1 { e - 1 } else { q + 1 };
                self.pos = e;
                return Some(self.token(TokenType::String, q + 1, hi));
            } else if c == '-' && two && self.src[q + 1] == '>' {
                self.pos = q + 2;
                return Some(self.token(TokenType::Arrow, q, q + 2));
            } else {
                return None;
            }
        }
    }

    /// The token of kind `k` over `src[lo..hi]`; an identifier spelling a keyword takes the
    /// keyword's kind.
    fn token(&self, k: TokenType, lo: usize, hi: usize) -> (r: Token)
        requires
            lo <= hi <= self.src@.len(),
        ensures
            r@ == token_of(self.src@, k, lo as int, hi as int),
    {
        let kind = if k != TokenType::Identifier {
            k
        } else if slice_is(&self.src, lo, hi, &['f', 'r', 'a', 'g', 'm', 'e', 'n', 't']) {
            TokenType::Fragment
        } else if slice_is(&self.src, lo, hi, &['s', 'k', 'i', 'p']) {
            TokenType::Skip
        } else if slice_is(&self.src, lo, hi, &['l', 'e', 'x', 'e', 'r']) {
            TokenType::Lexer
        } else if slice_is(&self.src, lo, hi, &['p', 'a', 'r', 's', 'e', 'r']) {
            TokenType::Parser
        } else if slice_is(&self.src, lo, hi, &['g', 'r', 'a', 'm', 'm', 'a', 'r']) {
            TokenType::Grammar
        } else if slice_is(&self.src, lo, hi, &['E', 'O', 'F']) {
            TokenType::EOF
        } else if slice_is(&self.src, lo, hi, &['o', 'p', 't', 'i', 'o', 'n', 's']) {
            TokenType::Options
        } else {
            k
        };
        Token { token_type: kind, value: string_of(&self.src, lo, hi) }
    }

    fn skip_ws_from(&self, p: usize) -> (r: usize)
        requires
            p <= self.src@.len(),
        ensures
            r == skip_ws(self.src@, p as int),
            p <= r <= self.src@.len(),
    {
        let mut i = p;
        while i < self.src.len() && white_space(self.src[i])
            invariant
                p <= i <= self.src@.len(),
                skip_ws(self.src@, i as int) == skip_ws(self.src@, p as int),
            decreases self.src@.len() - i,
        {
            i += 1;
        }
        i
    }

    fn ident_end_from(&self, p: usize) -> (r: usize)
        requires
            p <= self.src@.len(),
        ensures
            r == ident_end(self.src@, p as int),
            p <= r <= self.src@.len(),
    {
        let mut i = p;
        while i < self.src.len() && (is_alphanumeric(self.src[i]) || self.src[i] == '_')
            invariant
                p <= i <= self.src@.len(),
                ident_end(self.src@, i as int) == ident_end(self.src@, p as int),
            decreases self.src@.len() - i,
        {
            i += 1;
        }
        i
    }

    fn line_end_from(&self, p: usize, at_semi: bool) -> (r: usize)
        requires
            p <= self.src@.len(),
        ensures
            r == line_end(self.src@, p as int, at_semi),
            p <= r <= self.src@.len(),
    {
        let mut i = p;
        while i < self.src.len() && self.src[i] != '\n' && !(at_semi && self.src[i] == ';')
            invariant
                p <= i <= self.src@.len(),
                line_end(self.src@, i as int, at_semi) == line_end(self.src@, p as int, at_semi),
            decreases self.src@.len() - i,
        {
            i += 1;
        }
        i
    }

    fn block_end_from(&self, p: usize) -> (r: usize)
        requires
            p <= self.src@.len(),
        ensures
            r == block_end(self.src@, p as int),
            p <= r <= self.src@.len(),
    {
        let len = self.src.len();
        let mut i = p;
        while i < len
            invariant
                p <= i <= len,
                len == self.src@.len(),
                block_end(self.src@, i as int) == block_end(self.src@, p as int),
            decreases len - i,
        {
            if self.src[i] == '*' && i + 1 < len && self.src[i + 1] == '/' {
                return i + 2;
            }
            i += 1;
        }
        i
    }

    fn delimited_end_from(&self, p: usize, close: char) -> (r: usize)
        requires
            p <= self.src@.len(),
        ensures
            r == delimited_end(self.src@, p as int, close),
            p <= r <= self.src@.len(),
            r < self.src@.len() ==> self.src@[r as int] == close,
    {
        let len = self.src.len();
        let mut i = p;
        while i < len
            invariant
                p <= i <= len,
                len == self.src@.len(),
                delimited_end(self.src@, i as int, close) == delimited_end(self.src@, p as int, close),
            decreases len - i,
        {
            let c = self.src[i];
            if c == close {
                return i;
            } else if c == '\\' {
                i = if len - i >= 2 { i + 2 } else { len };
            } else {
                i += 1;
            }
        }
        i
    }
}

fn symbol_kind_of(c: char) -> (r: Option<TokenType>)
    ensures
        r == symbol_kind(c),
{
    match c {
        ':' => Some(TokenType::Colon),
        '+' => Some(TokenType::Plus),
        '*' => Some(TokenType::Star),
        '|' => Some(TokenType::Or),
        '~' => Some(TokenType::Tilde),
        '(' => Some(TokenType::OpenParen),
        ')' => Some(TokenType::CloseParen),
        '{' => Some(TokenType::OpenCurly),
        '}' => Some(TokenType::CloseCurly),
        '=' => Some(TokenType::Equal),
        '<' => Some(TokenType::OpenAngle),
        '>' => Some(TokenType::CloseAngle),
        '.' => Some(TokenType::Dot),
        ';' => Some(TokenType::SemiColon),
        '?' => Some(TokenType::QuestionMark),
        _ => None,
    }
}

} // verus!
