//! The tokenizer: a single left-to-right pass driven by the mode of the
//! lexeme being read.
use vstd::prelude::*;
use crate::errors::{ErrV, ReasonV, SyntaxErr, SyntaxErrReason};
use crate::tokens::{KindV, Span, Token, TokenKind, TokenV};
use vstd::string::*;

verus! {

/// Reads a document's characters into tokens.
pub struct Lexer<'a> {
    text: &'a str,
    chars: Vec<char>,
}

/// Which multi-character lexeme, if any, is being read.
#[derive(Debug, Clone, Copy, PartialEq, Eq, Structural)]
pub enum LexerState {
    InString,
    InNumber,
    InKeyword,
    Idle,
}

pub open spec fn is_digit(c: char) -> bool {
    '0' <= c && c <= '9'
}

pub open spec fn is_alpha(c: char) -> bool {
    ('a' <= c && c <= 'z') || ('A' <= c && c <= 'Z')
}

pub open spec fn is_space(c: char) -> bool {
    c == ' ' || c == '\t' || c == '\n' || c == '\r'
}

/// Whether `c` extends the lexeme that `st` has open.
pub open spec fn continues(st: LexerState, c: char) -> bool {
    match st {
        LexerState::InString => c != '"',
        LexerState::InNumber => is_digit(c),
        LexerState::InKeyword => is_alpha(c),
        LexerState::Idle => false,
    }
}

/// The number that a run of decimal digits denotes.
pub open spec fn digits_value(d: Seq<char>) -> int
    decreases d.len(),
{
    if d.len() == 0 {
        0
    } else {
        digits_value(d.drop_last()) * 10 + (d.last() as int - '0' as int)
    }
}

/// The token kind of a recognised keyword.
pub open spec fn keyword_kind(w: Seq<char>) -> Option<KindV> {
    if w == seq!['t', 'r', 'u', 'e'] {
        Some(KindV::Bool(true))
    } else if w == seq!['f', 'a', 'l', 's', 'e'] {
        Some(KindV::Bool(false))
    } else if w == seq!['n', 'u', 'l', 'l'] {
        Some(KindV::Null)
    } else {
        None
    }
}

/// The token that closing the lexeme `buf` of mode `st` gives, placed at `sp`;
/// `Ok(None)` when no lexeme is open.
pub open spec fn close_lexeme(st: LexerState, buf: Seq<char>, sp: Span) -> Result<
    Option<TokenV>,
    ErrV,
> {
    match st {
        LexerState::Idle => Ok(None),
        LexerState::InString => Ok(Some(TokenV { kind: KindV::Str(buf), span: sp })),
        LexerState::InNumber => if digits_value(buf) <= i32::MAX {
            Ok(Some(TokenV { kind: KindV::Num(digits_value(buf) as i32), span: sp }))
        } else {
            Err(ErrV { span: sp, reason: ReasonV::NumberOverflow })
        },
        LexerState::InKeyword => match keyword_kind(buf) {
            Some(k) => Ok(Some(TokenV { kind: k, span: sp })),
            None => Err(ErrV { span: sp, reason: ReasonV::UnknownKeyword(buf) }),
        },
    }
}

pub open spec fn single_span(i: int) -> Span {
    Span::Range { start: i as usize, end: (i + 1) as usize }
}

/// The kind of a one-character token.
pub open spec fn punct_kind(c: char) -> Option<KindV> {
    if c == '[' {
        Some(KindV::LBracket)
    } else if c == ']' {
        Some(KindV::RBracket)
    } else if c == '{' {
        Some(KindV::LBrace)
    } else if c == '}' {
        Some(KindV::RBrace)
    } else if c == ',' {
        Some(KindV::Comma)
    } else if c == ':' {
        Some(KindV::Semicolon)
    } else {
        None
    }
}

/// `acc` with the token of `t`, if any, appended.
pub open spec fn push_opt(acc: Seq<TokenV>, t: Option<TokenV>) -> Seq<TokenV> {
    match t {
        Some(t) => acc.push(t),
        None => acc,
    }
}

/// Tokenizing `s` from offset `i`, in mode `st` with the open lexeme `buf`,
/// having produced `acc` so far.
pub open spec fn lex_from(
    s: Seq<char>,
    i: int,
    st: LexerState,
    buf: Seq<char>,
    acc: Seq<TokenV>,
) -> Result<Seq<TokenV>, ErrV>
    decreases s.len() - i,
{
    if i < 0 || i >= s.len() {
        match close_lexeme(st, buf, Span::EndOfInput) {
            Ok(t) => Ok(push_opt(acc, t)),
            Err(e) => Err(e),
        }
    } else {
        let c = s[i];
        if continues(st, c) {
            lex_from(s, i + 1, st, buf.push(c), acc)
        } else {
            let sp = Span::Range { start: (i - buf.len()) as usize, end: i as usize };
            match close_lexeme(st, buf, sp) {
                Err(e) => Err(e),
                Ok(t) => {
                    let acc = push_opt(acc, t);
                    if st == LexerState::InString {
                        lex_from(s, i + 1, LexerState::Idle, Seq::empty(), acc)
                    } else if c == '"' {
                        lex_from(s, i + 1, LexerState::InString, Seq::empty(), acc)
                    } else if is_digit(c) {
                        lex_from(s, i + 1, LexerState::InNumber, seq![c], acc)
                    } else if is_alpha(c) {
                        lex_from(s, i + 1, LexerState::InKeyword, seq![c], acc)
                    } else if punct_kind(c) is Some {
                        lex_from(
                            s,
                            i + 1,
                            LexerState::Idle,
                            Seq::empty(),
                            acc.push(TokenV { kind: punct_kind(c)->0, span: single_span(i) }),
                        )
                    } else if is_space(c) {
                        lex_from(s, i + 1, LexerState::Idle, Seq::empty(), acc)
                    } else {
                        Err(ErrV { span: single_span(i), reason: ReasonV::UnexpectedChar(c) })
                    }
                },
            }
        }
    }
}

/// The tokens of the text `s`, or the first error in it.
pub open spec fn lex(s: Seq<char>) -> Result<Seq<TokenV>, ErrV> {
    lex_from(s, 0, LexerState::Idle, Seq::empty(), Seq::empty())
}

pub open spec fn tokens_view(v: Seq<Token>) -> Seq<TokenV> {
    v.map_values(|t: Token| t@)
}

/// Whether an executable tokenizer result is the mathematical one.
pub open spec fn lex_result_is(r: Result<Vec<Token>, SyntaxErr>, m: Result<Seq<TokenV>, ErrV>) -> bool {
    match r {
        Ok(v) => m == Ok::<Seq<TokenV>, ErrV>(tokens_view(v@)),
        Err(e) => m == Err::<Seq<TokenV>, ErrV>(e@),
    }
}

pub open spec fn opt_token_view(t: Option<Token>) -> Option<TokenV> {
    match t {
        Some(t) => Some(t@),
        None => None,
    }
}

pub open spec fn opt_kind_view(k: Option<TokenKind>) -> Option<KindV> {
    match k {
        Some(k) => Some(k@),
        None => None,
    }
}

fn is_digit_char(c: char) -> (r: bool)
    ensures
        r == is_digit(c),
{
    '0' <= c && c <= '9'
}

fn is_alpha_char(c: char) -> (r: bool)
    ensures
        r == is_alpha(c),
{
    ('a' <= c && c <= 'z') || ('A' <= c && c <= 'Z')
}

fn is_space_char(c: char) -> (r: bool)
    ensures
        r == is_space(c),
{
    c == ' ' || c == '\t' || c == '\n' || c == '\r'
}

/// The kind of the one-character token `c`, if it is one.
fn punct(c: char) -> (r: Option<TokenKind>)
    ensures
        opt_kind_view(r) == punct_kind(c),
{
    if c == '[' {
        Some(TokenKind::LBracket)
    } else if c == ']' {
        Some(TokenKind::RBracket)
    } else if c == '{' {
        Some(TokenKind::LBrace)
    } else if c == '}' {
        Some(TokenKind::RBrace)
    } else if c == ',' {
        Some(TokenKind::Comma)
    } else if c == ':' {
        Some(TokenKind::Semicolon)
    } else {
        None
    }
}

/// Relies on `str::chars`: the characters of `s` in order.
#[verifier::external_body]
fn chars_of(s: &str) -> (r: Vec<char>)
    ensures
        r@ == s@,
{
    s.chars().collect()
}

proof fn lemma_digits_value_prefix(d: Seq<char>, k: int)
    requires
        0 <= k <= d.len(),
        forall|j: int| 0 <= j < d.len() ==> is_digit(#[trigger] d[j]),
    ensures
        0 <= digits_value(d.subrange(0, k)) <= digits_value(d),
    decreases d.len(),
{
    if k < d.len() {
        lemma_digits_value_prefix(d.drop_last(), k);
        assert(d.drop_last().subrange(0, k) =~= d.subrange(0, k));
    } else {
        assert(d.subrange(0, k) =~= d);
        if d.len() > 0 {
            lemma_digits_value_prefix(d.drop_last(), k - 1);
            assert(d.drop_last().subrange(0, k - 1) =~= d.drop_last());
        }
    }
}

impl<'a> Lexer<'a> {
    /// The characters being tokenized.
    pub closed spec fn source(&self) -> Seq<char> {
        self.text@
    }

    pub closed spec fn wf(&self) -> bool {
        self.chars@ == self.text@
    }

    pub fn new(s: &'a str) -> (r: Lexer<'a>)
        ensures
            r.wf(),
            r.source() == s@,
    {
        Lexer { text: s, chars: chars_of(s) }
    }

    /// The integer that the digits at `start..end` denote, or `None` when it
    /// exceeds `i32::MAX`.
    fn number_at(&self, start: usize, end: usize) -> (r: Option<i32>)
        requires
            self.wf(),
            start <= end <= self.chars@.len(),
            forall|j: int| start <= j < end ==> is_digit(#[trigger] self.chars@[j]),
        ensures
            ({
                let d = self.chars@.subrange(start as int, end as int);
                r == if digits_value(d) <= i32::MAX {
                    Some(digits_value(d) as i32)
                } else {
                    None::<i32>
                }
            }),
    {
        let ghost d = self.chars@.subrange(start as int, end as int);
        let mut acc: i32 = 0;
        let mut k: usize = start;
        while k < end
            invariant
                start <= k <= end <= self.chars@.len(),
                d == self.chars@.subrange(start as int, end as int),
                forall|j: int| start <= j < end ==> is_digit(#[trigger] self.chars@[j]),
                acc as int == digits_value(d.subrange(0, k - start)),
                acc >= 0,
            decreases end - k,
        {
            let c = self.chars[k];
            let digit = (c as u32 - '0' as u32) as i32;
            proof {
                assert(d.subrange(0, k + 1 - start).drop_last() =~= d.subrange(0, k - start));
            }
            assert(0 <= digit <= 9);
            if acc > (i32::MAX - digit) / 10 {
                proof {
                    lemma_digits_value_prefix(d, k + 1 - start);
                    assert(acc * 10 + digit > i32::MAX) by (nonlinear_arith)
                        requires
                            acc > (i32::MAX - digit) / 10,
                            0 <= digit <= 9,
                    ;
                }
                return None;
            }
            assert(acc * 10 + digit <= i32::MAX) by (nonlinear_arith)
                requires
                    0 <= acc <= (i32::MAX - digit) / 10,
                    0 <= digit <= 9,
            ;
            acc = acc * 10 + digit;
            k = k + 1;
        }
        proof {
            assert(d.subrange(0, end - start) =~= d);
        }
        Some(acc)
    }

    /// The keyword token spelled by the characters at `start..end`, if any.
    fn keyword_at(&self, start: usize, end: usize) -> (r: Option<TokenKind>)
        requires
            start <= end <= self.chars@.len(),
        ensures
            opt_kind_view(r) == keyword_kind(self.chars@.subrange(start as int, end as int)),
    {
        if self.spells(start, end, &['t', 'r', 'u', 'e']) {
            Some(TokenKind::Bool(true))
        } else if self.spells(start, end, &['f', 'a', 'l', 's', 'e']) {
            Some(TokenKind::Bool(false))
        } else if self.spells(start, end, &['n', 'u', 'l', 'l']) {
            Some(TokenKind::Null)
        } else {
            None
        }
    }

    /// Whether the characters at `start..end` are exactly `word`.
    fn spells(&self, start: usize, end: usize, word: &[char]) -> (r: bool)
        requires
            start <= end <= self.chars@.len(),
        ensures
            r == (self.chars@.subrange(start as int, end as int) == word@),
    {
        let ghost w = self.chars@.subrange(start as int, end as int);
        if end - start != word.len() {
            return false;
        }
        let mut k: usize = 0;
        while k < word.len()
            invariant
                end - start == word@.len(),
                start <= end <= self.chars@.len(),
                w == self.chars@.subrange(start as int, end as int),
                k <= word@.len(),
                forall|j: int| 0 <= j < k ==> w[j] == word@[j],
            decreases word@.len() - k,
        {
            if self.chars[start + k] != word[k] {
                assert(w[k as int] != word@[k as int]);
                return false;
            }
            k = k + 1;
        }
        assert(w =~= word@);
        true
    }

    /// Closes the lexeme of mode `st` held at `start..i`, placing its token at `sp`.
    fn close(&self, st: LexerState, start: usize, i: usize, sp: Span) -> (r: Result<
        Option<Token>,
        SyntaxErr,
    >)
        requires
            self.wf(),
            start <= i <= self.chars@.len(),
            forall|j: int| start <= j < i ==> continues(st, #[trigger] self.chars@[j]),
        ensures
            ({
                let m = close_lexeme(st, self.chars@.subrange(start as int, i as int), sp);
                match r {
                    Ok(t) => m == Ok::<Option<TokenV>, ErrV>(opt_token_view(t)),
                    Err(e) => m == Err::<Option<TokenV>, ErrV>(e@),
                }
            }),
    {
        match st {
            LexerState::Idle => Ok(None),
            LexerState::InString => {
                let text = String::from_str(self.text.substring_char(start, i));
                Ok(Some(Token { kind: TokenKind::String(text), span: sp }))
            },
            LexerState::InNumber => match self.number_at(start, i) {
                Some(n) => Ok(Some(Token { kind: TokenKind::Num(n), span: sp })),
                None => Err(SyntaxErr { span: sp, reason: SyntaxErrReason::NumberOverflow }),
            },
            LexerState::InKeyword => match self.keyword_at(start, i) {
                Some(k) => Ok(Some(Token { kind: k, span: sp })),
                None => {
                    let text = String::from_str(self.text.substring_char(start, i));
                    Err(SyntaxErr { span: sp, reason: SyntaxErrReason::UnknownKeyword(text) })
                },
            },
        }
    }

    /// Splits the source into tokens, stopping at the first error.
    pub fn tokenize(self) -> (r: Result<Vec<Token>, SyntaxErr>)
        requires
            self.wf(),
        ensures
            lex_result_is(r, lex(self.source())),
    {
        let ghost s = self.chars@;
        let n = self.chars.len();
        let mut toks: Vec<Token> = Vec::new();
        let mut st = LexerState::Idle;
        let mut start: usize = 0;
        let mut i: usize = 0;
        assert(s.subrange(0, 0) =~= Seq::<char>::empty());
        assert(tokens_view(toks@) =~= Seq::<TokenV>::empty());
        while i < n
            invariant
                self.wf(),
                s == self.chars@,
                s == self.source(),
                n == s.len(),
                start <= i <= n,
                st == LexerState::Idle ==> start == i,
                forall|j: int| start <= j < i ==> continues(st, #[trigger] s[j]),
                lex(s) == lex_from(s, i as int, st, s.subrange(start as int, i as int), tokens_view(toks@)),
            decreases n - i,
        {
            let c = self.chars[i];
            let ghost buf = s.subrange(start as int, i as int);
            let ghost acc = tokens_view(toks@);
            let cont = match st {
                LexerState::InString => c != '"',
                LexerState::InNumber => is_digit_char(c),
                LexerState::InKeyword => is_alpha_char(c),
                LexerState::Idle => false,
            };
            if cont {
                assert(s.subrange(start as int, i + 1) =~= buf.push(c));
                i = i + 1;
                continue;
            }
            let sp = Span::Range { start: start, end: i };
            let closed = self.close(st, start, i, sp);
            match closed {
                Err(e) => {
                    return Err(e);
                },
                Ok(t) => {
                    if let Some(t) = t {
                        toks.push(t);
                        assert(tokens_view(toks@) =~= acc.push(t@));
                    } else {
                        assert(tokens_view(toks@) =~= acc);
                    }
                },
            }
            let ghost acc2 = tokens_view(toks@);
            assert(s.subrange(i + 1, i + 1) =~= Seq::<char>::empty());
            if st == LexerState::InString {
                st = LexerState::Idle;
            } else if c == '"' {
                st = LexerState::InString;
            } else if is_digit_char(c) {
                st = LexerState::InNumber;
                assert(s.subrange(i as int, i + 1) =~= seq![c]);
                start = i;
            } else if is_alpha_char(c) {
                st = LexerState::InKeyword;
                assert(s.subrange(i as int, i + 1) =~= seq![c]);
                start = i;
            } else {
                st = LexerState::Idle;
                match punct(c) {
                    Some(k) => {
                        let tok = Token { kind: k, span: Span::Range { start: i, end: i + 1 } };
                        toks.push(tok);
                        assert(tokens_view(toks@) =~= acc2.push(tok@));
                    },
                    None => {
                        if !is_space_char(c) {
                            return Err(
                                SyntaxErr {
                                    span: Span::Range { start: i, end: i + 1 },
                                    reason: SyntaxErrReason::UnexpectedChar(c),
                                },
                            );
                        }
                    },
                }
            }
            i = i + 1;
            if st == LexerState::Idle || st == LexerState::InString {
                start = i;
            }
        }
        let closed = self.close(st, start, n, Span::EndOfInput);
        match closed {
            Err(e) => Err(e),
            Ok(t) => {
                let ghost acc = tokens_view(toks@);
                if let Some(t) = t {
                    toks.push(t);
                    assert(tokens_view(toks@) =~= acc.push(t@));
                }
                Ok(toks)
            },
        }
    }
}

/// Splits `text` into tokens, stopping at the first error.
pub fn tokenize(text: &str) -> (r: Result<Vec<Token>, SyntaxErr>)
    ensures
        lex_result_is(r, lex(text@)),
{
    Lexer::new(text).tokenize()
}

} // verus!
