//! The tree builder: recursive descent over the tokens with one token of
//! lookahead.
use vstd::prelude::*;
use vstd::string::*;
use crate::ast::{values_view, pairs_view, Array, JsonV, Object, PairStringValue, Value};
use crate::errors::{ErrV, ReasonV, SyntaxErr, SyntaxErrReason};
use crate::lexer::tokens_view;
use crate::tokens::{KindV, Span, Token, TokenKind, TokenV};

verus! {

/// The span of the next token, or the end-of-input span when none is left.
pub open spec fn span_of_next(r: Seq<TokenV>) -> Span {
    if r.len() > 0 {
        r[0].span
    } else {
        Span::EndOfInput
    }
}

/// Whether the next token is of the (literal-free) kind `k`.
pub open spec fn starts(r: Seq<TokenV>, k: KindV) -> bool {
    r.len() > 0 && r[0].kind == k
}

/// The error for a token that does not fit here, or for running out of tokens.
pub open spec fn unexpected(r: Seq<TokenV>) -> ErrV {
    ErrV {
        span: span_of_next(r),
        reason: if r.len() > 0 {
            ReasonV::UnexpectedToken(r[0].kind)
        } else {
            ReasonV::UnexpectedEof
        },
    }
}

/// The error for a place where a value should start and none does.
pub open spec fn no_value(r: Seq<TokenV>) -> ErrV {
    ErrV {
        span: span_of_next(r),
        reason: if r.len() > 0 {
            ReasonV::Expected("a value"@)
        } else {
            ReasonV::UnexpectedEof
        },
    }
}

/// Parses one value from the front of `r`; gives the outcome and what is left.
/// Literals are tried first, then an array, then an object. When no object
/// starts where the tries left off, the error says that a value was expected
/// there; an error from inside an object that did start is passed on as it is.
pub open spec fn parse_value(r: Seq<TokenV>) -> (Result<JsonV, ErrV>, Seq<TokenV>)
    decreases r.len(), 2nat,
{
    if r.len() > 0 && r[0].kind is Str {
        (Ok(JsonV::Str(r[0].kind->Str_0)), r.drop_first())
    } else if r.len() > 0 && r[0].kind is Num {
        (Ok(JsonV::Number(r[0].kind->Num_0)), r.drop_first())
    } else if r.len() > 0 && r[0].kind is Bool {
        (Ok(JsonV::Bool(r[0].kind->Bool_0)), r.drop_first())
    } else if starts(r, KindV::Null) {
        (Ok(JsonV::Null), r.drop_first())
    } else {
        let (a, r2) = parse_array(r);
        match a {
            Some(v) => (Ok(v), r2),
            None => if r2.len() <= r.len() && starts(r2, KindV::LBrace) {
                parse_object(r2)
            } else {
                (Err(no_value(r2)), r2)
            },
        }
    }
}

/// Parses an array from the front of `r`. `None` when there is no opening
/// bracket, when an element after a comma is missing, or when the closing
/// bracket is missing; the tokens taken so far stay taken. When no first
/// element can be read the array is taken as empty.
pub open spec fn parse_array(r: Seq<TokenV>) -> (Option<JsonV>, Seq<TokenV>)
    decreases r.len(), 1nat,
{
    if !starts(r, KindV::LBracket) {
        (None, r)
    } else {
        let (first, r1) = parse_value(r.drop_first());
        match first {
            Err(_) => close_array(r1, Seq::empty()),
            Ok(v) => if r1.len() < r.len() {
                array_rest(r1, seq![v])
            } else {
                (None, r1)
            },
        }
    }
}

/// The elements after the first of an array that holds `acc` so far.
pub open spec fn array_rest(r: Seq<TokenV>, acc: Seq<JsonV>) -> (Option<JsonV>, Seq<TokenV>)
    decreases r.len(), 0nat,
{
    if starts(r, KindV::Comma) {
        let (x, r2) = parse_value(r.drop_first());
        match x {
            Ok(v) => if r2.len() < r.len() {
                array_rest(r2, acc.push(v))
            } else {
                (None, r2)
            },
            Err(_) => (None, r2),
        }
    } else {
        close_array(r, acc)
    }
}

pub open spec fn close_array(r: Seq<TokenV>, acc: Seq<JsonV>) -> (Option<JsonV>, Seq<TokenV>) {
    if starts(r, KindV::RBracket) {
        (Some(JsonV::Array(acc)), r.drop_first())
    } else {
        (None, r)
    }
}

/// Parses an object from the front of `r`. When no first member can be read
/// the object is taken as empty and its closing brace is required at once;
/// after a comma a member is required, so a trailing comma is an error.
pub open spec fn parse_object(r: Seq<TokenV>) -> (Result<JsonV, ErrV>, Seq<TokenV>)
    decreases r.len(), 1nat,
{
    if !starts(r, KindV::LBrace) {
        (Err(unexpected(r)), r)
    } else {
        let (first, r1) = parse_pair(r.drop_first());
        match first {
            Err(_) => close_object(r1, Seq::empty()),
            Ok(m) => if r1.len() < r.len() {
                object_rest(r1, seq![m])
            } else {
                (Err(unexpected(r1)), r1)
            },
        }
    }
}

/// The members after the first of an object that holds `acc` so far.
pub open spec fn object_rest(r: Seq<TokenV>, acc: Seq<(Seq<char>, JsonV)>) -> (
    Result<JsonV, ErrV>,
    Seq<TokenV>,
)
    decreases r.len(), 0nat,
{
    if starts(r, KindV::Comma) {
        let (x, r2) = parse_pair(r.drop_first());
        match x {
            Ok(m) => if r2.len() < r.len() {
                object_rest(r2, acc.push(m))
            } else {
                (Err(unexpected(r2)), r2)
            },
            Err(e) => (Err(e), r2),
        }
    } else {
        close_object(r, acc)
    }
}

pub open spec fn close_object(r: Seq<TokenV>, acc: Seq<(Seq<char>, JsonV)>) -> (
    Result<JsonV, ErrV>,
    Seq<TokenV>,
) {
    if starts(r, KindV::RBrace) {
        (Ok(JsonV::Object(acc)), r.drop_first())
    } else {
        (Err(unexpected(r)), r)
    }
}

/// Parses a `name : value` member from the front of `r`. A missing colon is
/// reported as "a semicolon", the name of the colon's token kind.
pub open spec fn parse_pair(r: Seq<TokenV>) -> (Result<(Seq<char>, JsonV), ErrV>, Seq<TokenV>)
    decreases r.len(), 1nat,
{
    if !(r.len() > 0 && r[0].kind is Str) {
        (Err(unexpected(r)), r)
    } else {
        let r1 = r.drop_first();
        if !starts(r1, KindV::Semicolon) {
            (Err(ErrV { span: span_of_next(r1), reason: ReasonV::Expected("a semicolon"@) }), r1)
        } else {
            let (x, r2) = parse_value(r1.drop_first());
            match x {
                Ok(v) => (Ok((r[0].kind->Str_0, v)), r2),
                Err(e) => (Err(e), r2),
            }
        }
    }
}

pub open spec fn value_result(r: Result<Value, SyntaxErr>) -> Result<JsonV, ErrV> {
    match r {
        Ok(v) => Ok(v@),
        Err(e) => Err(e@),
    }
}

pub open spec fn pair_result(r: Result<PairStringValue, SyntaxErr>) -> Result<
    (Seq<char>, JsonV),
    ErrV,
> {
    match r {
        Ok(p) => Ok((p.name@, p.value@)),
        Err(e) => Err(e@),
    }
}

pub open spec fn array_result(r: Option<Value>) -> Option<JsonV> {
    match r {
        Some(v) => Some(v@),
        None => None,
    }
}

/// A copy of a token kind.
fn copy_kind(k: &TokenKind) -> (r: TokenKind)
    ensures
        r@ == k@,
{
    match k {
        TokenKind::LBrace => TokenKind::LBrace,
        TokenKind::RBrace => TokenKind::RBrace,
        TokenKind::LBracket => TokenKind::LBracket,
        TokenKind::RBracket => TokenKind::RBracket,
        TokenKind::Comma => TokenKind::Comma,
        TokenKind::Semicolon => TokenKind::Semicolon,
        TokenKind::String(s) => TokenKind::String(s.clone()),
        TokenKind::Num(n) => TokenKind::Num(*n),
        TokenKind::Bool(b) => TokenKind::Bool(*b),
        TokenKind::Null => TokenKind::Null,
    }
}

/// Builds a value tree from tokens, one token of lookahead at a time.
pub struct Parser {
    /// The tokens not yet taken, the next one last.
    rest: Vec<Token>,
}

impl Parser {
    /// The tokens not yet taken, in order.
    pub closed spec fn remaining(&self) -> Seq<TokenV> {
        Seq::new(self.rest@.len(), |i: int| self.rest@[self.rest@.len() - 1 - i]@)
    }

    pub fn new(tokens: Vec<Token>) -> (r: Parser)
        ensures
            r.remaining() == tokens_view(tokens@),
    {
        let ghost t = tokens@;
        let mut tokens = tokens;
        let mut rest: Vec<Token> = Vec::new();
        while tokens.len() > 0
            invariant
                tokens@.len() + rest@.len() == t.len(),
                tokens@ == t.subrange(0, tokens@.len() as int),
                forall|j: int| 0 <= j < rest@.len() ==> #[trigger] rest@[j] == t[t.len() - 1 - j],
            decreases tokens@.len(),
        {
            let tok = tokens.pop().unwrap();
            rest.push(tok);
        }
        let r = Parser { rest };
        assert(r.remaining() =~= tokens_view(t));
        r
    }

    /// Parses one value from the tokens.
    pub fn json(self) -> (r: Result<Value, SyntaxErr>)
        ensures
            value_result(r) == parse_value(self.remaining()).0,
    {
        let mut p = self;
        p.value()
    }

    /// The next token, not taken.
    fn peek(&self) -> (r: Option<&Token>)
        ensures
            r is Some <==> self.remaining().len() > 0,
            r is Some ==> r->0@ == self.remaining()[0],
    {
        let n = self.rest.len();
        if n == 0 {
            None
        } else {
            Some(&self.rest[n - 1])
        }
    }

    /// Takes the next token.
    fn next(&mut self) -> (r: Option<Token>)
        ensures
            r is Some <==> old(self).remaining().len() > 0,
            r is Some ==> r->0@ == old(self).remaining()[0],
            r is Some ==> final(self).remaining() == old(self).remaining().drop_first(),
            r is None ==> final(self).remaining() == old(self).remaining(),
    {
        let r = self.rest.pop();
        proof {
            if old(self).rest@.len() > 0 {
                assert(self.remaining() =~= old(self).remaining().drop_first());
            } else {
                assert(self.remaining() =~= old(self).remaining());
            }
        }
        r
    }

    /// The span of the next token, or the end-of-input span.
    fn next_span(&self) -> (r: Span)
        ensures
            r == span_of_next(self.remaining()),
    {
        match self.peek() {
            Some(t) => t.span,
            None => Span::EndOfInput,
        }
    }

    /// Takes the next token if it is `k`, a kind without a literal.
    fn eat(&mut self, k: &TokenKind) -> (r: bool)
        requires
            !(k is String || k is Num || k is Bool),
        ensures
            r == starts(old(self).remaining(), k@),
            r ==> final(self).remaining() == old(self).remaining().drop_first(),
            !r ==> final(self).remaining() == old(self).remaining(),
    {
        if self.next_is(k) {
            self.next();
            true
        } else {
            false
        }
    }

    /// Whether the next token is `k`, a kind without a literal.
    fn next_is(&self, k: &TokenKind) -> (r: bool)
        requires
            !(k is String || k is Num || k is Bool),
        ensures
            r == starts(self.remaining(), k@),
    {
        match self.peek() {
            None => false,
            Some(t) => match (&t.kind, k) {
                (TokenKind::LBrace, TokenKind::LBrace) => true,
                (TokenKind::RBrace, TokenKind::RBrace) => true,
                (TokenKind::LBracket, TokenKind::LBracket) => true,
                (TokenKind::RBracket, TokenKind::RBracket) => true,
                (TokenKind::Comma, TokenKind::Comma) => true,
                (TokenKind::Semicolon, TokenKind::Semicolon) => true,
                (TokenKind::Null, TokenKind::Null) => true,
                _ => false,
            },
        }
    }

    /// The error for the next token, or for the end of the tokens.
    fn unexpected(&self) -> (e: SyntaxErr)
        ensures
            e@ == unexpected(self.remaining()),
    {
        let reason = match self.peek() {
            None => SyntaxErrReason::UnexpectedEof,
            Some(t) => SyntaxErrReason::UnexpectedToken(copy_kind(&t.kind)),
        };
        SyntaxErr { reason, span: self.next_span() }
    }

    /// The error for a missing value at the next token.
    fn no_value(&self) -> (e: SyntaxErr)
        ensures
            e@ == no_value(self.remaining()),
    {
        let reason = match self.peek() {
            None => SyntaxErrReason::UnexpectedEof,
            Some(_) => SyntaxErrReason::Expected(String::from_str("a value")),
        };
        SyntaxErr { reason, span: self.next_span() }
    }

    /// Takes the next token if it is a string, number, boolean or null literal,
    /// and gives its value.
    fn scalar(&mut self) -> (r: Option<Value>)
        ensures
            ({
                let t = old(self).remaining();
                let lit = t.len() > 0 && (t[0].kind is Str || t[0].kind is Num
                    || t[0].kind is Bool || t[0].kind is Null);
                &&& r is Some <==> lit
                &&& lit ==> final(self).remaining() == t.drop_first()
                &&& lit ==> (Ok::<JsonV, ErrV>(r->0@), t.drop_first()) == parse_value(t)
                &&& !lit ==> final(self).remaining() == t
            }),
    {
        let lit = match self.peek() {
            None => false,
            Some(t) => match &t.kind {
                TokenKind::String(_) => true,
                TokenKind::Num(_) => true,
                TokenKind::Bool(_) => true,
                TokenKind::Null => true,
                _ => false,
            },
        };
        if !lit {
            return None;
        }
        match self.next() {
            Some(Token { kind: TokenKind::String(s), .. }) => Some(Value::String(s)),
            Some(Token { kind: TokenKind::Num(n), .. }) => Some(Value::Number(n)),
            Some(Token { kind: TokenKind::Bool(b), .. }) => Some(Value::Bool(b)),
            _ => Some(Value::Null),
        }
    }

    fn value(&mut self) -> (r: Result<Value, SyntaxErr>)
        ensures
            (value_result(r), final(self).remaining()) == parse_value(old(self).remaining()),
            final(self).remaining().len() <= old(self).remaining().len(),
            r is Ok ==> final(self).remaining().len() < old(self).remaining().len(),
        decreases old(self).remaining().len(), 2nat,
    {
        if let Some(v) = self.scalar() {
            return Ok(v);
        }
        match self.array() {
            Some(v) => Ok(v),
            None => {
                if self.next_is(&TokenKind::LBrace) {
                    self.object()
                } else {
                    Err(self.no_value())
                }
            },
        }
    }

    fn array(&mut self) -> (r: Option<Value>)
        ensures
            (array_result(r), final(self).remaining()) == parse_array(old(self).remaining()),
            final(self).remaining().len() <= old(self).remaining().len(),
            r is Some ==> final(self).remaining().len() < old(self).remaining().len(),
        decreases old(self).remaining().len(), 1nat,
    {
        let ghost r0 = self.remaining();
        if !self.eat(&TokenKind::LBracket) {
            return None;
        }
        let mut values: Vec<Value> = Vec::new();
        match self.value() {
            Err(_) => {
                assert(values_view(values@) =~= Seq::<JsonV>::empty());
                return self.close_array(values);
            },
            Ok(v) => {
                values.push(v);
                assert(values@.drop_last() =~= Seq::<Value>::empty());
                assert(values_view(values@.drop_last()) =~= Seq::<JsonV>::empty());
                assert(values_view(values@) =~= seq![v@]);
            },
        }
        while self.next_is(&TokenKind::Comma)
            invariant
                r0 == old(self).remaining(),
                parse_array(r0) == array_rest(self.remaining(), values_view(values@)),
                self.remaining().len() < r0.len(),
            decreases self.remaining().len(),
        {
            let ghost before = values@;
            self.eat(&TokenKind::Comma);
            match self.value() {
                Ok(v) => {
                    values.push(v);
                    assert(values@.drop_last() =~= before);
                },
                Err(_) => {
                    return None;
                },
            }
        }
        self.close_array(values)
    }

    /// Takes the closing bracket of an array that holds `values`.
    fn close_array(&mut self, values: Vec<Value>) -> (r: Option<Value>)
        ensures
            (array_result(r), final(self).remaining()) == close_array(
                old(self).remaining(),
                values_view(values@),
            ),
    {
        if self.eat(&TokenKind::RBracket) {
            Some(Value::Array(Array { values }))
        } else {
            None
        }
    }

    /// Parses an object: `{`, members separated by commas, `}`.
    pub fn object(&mut self) -> (r: Result<Value, SyntaxErr>)
        ensures
            (value_result(r), final(self).remaining()) == parse_object(old(self).remaining()),
            final(self).remaining().len() <= old(self).remaining().len(),
            r is Ok ==> final(self).remaining().len() < old(self).remaining().len(),
        decreases old(self).remaining().len(), 1nat,
    {
        let ghost r0 = self.remaining();
        if !self.eat(&TokenKind::LBrace) {
            return Err(self.unexpected());
        }
        let mut pairs: Vec<PairStringValue> = Vec::new();
        match self.pair() {
            Err(_) => {
                assert(pairs_view(pairs@) =~= Seq::<(Seq<char>, JsonV)>::empty());
                return self.close_object(pairs);
            },
            Ok(p) => {
                pairs.push(p);
                assert(pairs@.drop_last() =~= Seq::<PairStringValue>::empty());
                assert(pairs_view(pairs@.drop_last()) =~= Seq::<(Seq<char>, JsonV)>::empty());
                assert(pairs_view(pairs@) =~= seq![(p.name@, p.value@)]);
            },
        }
        while self.next_is(&TokenKind::Comma)
            invariant
                r0 == old(self).remaining(),
                parse_object(r0) == object_rest(self.remaining(), pairs_view(pairs@)),
                self.remaining().len() < r0.len(),
            decreases self.remaining().len(),
        {
            let ghost before = pairs@;
            self.eat(&TokenKind::Comma);
            match self.pair() {
                Ok(p) => {
                    pairs.push(p);
                    assert(pairs@.drop_last() =~= before);
                },
                Err(e) => {
                    return Err(e);
                },
            }
        }
        self.close_object(pairs)
    }

    /// Takes the closing brace of an object that holds `pairs`.
    fn close_object(&mut self, pairs: Vec<PairStringValue>) -> (r: Result<Value, SyntaxErr>)
        ensures
            (value_result(r), final(self).remaining()) == close_object(
                old(self).remaining(),
                pairs_view(pairs@),
            ),
    {
        if self.eat(&TokenKind::RBrace) {
            Ok(Value::Object(Object { values: pairs }))
        } else {
            Err(self.unexpected())
        }
    }

    /// Parses an object member: a string, a colon, a value.
    pub fn pair(&mut self) -> (r: Result<PairStringValue, SyntaxErr>)
        ensures
            (pair_result(r), final(self).remaining()) == parse_pair(old(self).remaining()),
            final(self).remaining().len() <= old(self).remaining().len(),
            r is Ok ==> final(self).remaining().len() < old(self).remaining().len(),
        decreases old(self).remaining().len(), 1nat,
    {
        let is_name = match self.peek() {
            Some(t) => matches!(t.kind, TokenKind::String(_)),
            None => false,
        };
        if !is_name {
            return Err(self.unexpected());
        }
        let name = match self.next() {
            Some(Token { kind: TokenKind::String(s), .. }) => s,
            _ => String::new(),
        };
        if !self.eat(&TokenKind::Semicolon) {
            return Err(
                SyntaxErr {
                    reason: SyntaxErrReason::Expected(String::from_str("a semicolon")),
                    span: self.next_span(),
                },
            );
        }
        match self.value() {
            Ok(value) => Ok(PairStringValue { name, value }),
            Err(e) => Err(e),
        }
    }
}

/// Builds the value tree that the tokens begin with.
pub fn parse(tokens: Vec<Token>) -> (r: Result<Value, SyntaxErr>)
    ensures
        value_result(r) == parse_value(tokens_view(tokens@)).0,
{
    Parser::new(tokens).json()
}

} // verus!
