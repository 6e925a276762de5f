//! Value trees written as text, and the proof that tokenizing and then
//! parsing that text gives the tree back.
use vstd::prelude::*;
use crate::ast::JsonV;
use crate::grammar::{
    elements_kinds, kinds_of, lemma_parse_value, member_kinds, members_kinds,
    more_elements_kinds, more_members_kinds, spells,
};
use crate::lexer::{
    close_lexeme, continues, digits_value, is_alpha, is_digit, keyword_kind, lex, lex_from,
    punct_kind, single_span, LexerState,
};
use crate::parser::parse_value;
use crate::tokens::{KindV, Span, TokenV};

verus! {

/// The character of a decimal digit.
pub open spec fn digit_char(d: int) -> char {
    if d == 0 {
        '0'
    } else if d == 1 {
        '1'
    } else if d == 2 {
        '2'
    } else if d == 3 {
        '3'
    } else if d == 4 {
        '4'
    } else if d == 5 {
        '5'
    } else if d == 6 {
        '6'
    } else if d == 7 {
        '7'
    } else if d == 8 {
        '8'
    } else {
        '9'
    }
}

/// The decimal digits of `n`, without leading zeros.
pub open spec fn decimal(n: nat) -> Seq<char>
    decreases n,
{
    if n < 10 {
        seq![digit_char(n as int)]
    } else {
        decimal(n / 10).push(digit_char((n % 10) as int))
    }
}

pub open spec fn no_quote(s: Seq<char>) -> bool {
    forall|k: int| 0 <= k < s.len() ==> #[trigger] s[k] != '"'
}

/// Whether `v` can be written as text in the grammar: no negative number and
/// no quote inside a string or a name.
pub open spec fn writable(v: JsonV) -> bool
    decreases v, 1nat,
{
    match v {
        JsonV::Number(n) => n >= 0,
        JsonV::Str(s) => no_quote(s),
        JsonV::Array(xs) => all_writable(xs),
        JsonV::Object(ms) => all_members_writable(ms),
        _ => true,
    }
}

pub open spec fn all_writable(xs: Seq<JsonV>) -> bool
    decreases xs, 0nat,
{
    xs.len() > 0 ==> writable(xs[0]) && all_writable(xs.drop_first())
}

pub open spec fn all_members_writable(ms: Seq<(Seq<char>, JsonV)>) -> bool
    decreases ms, 0nat,
{
    ms.len() > 0 ==> no_quote(ms[0].0) && writable(ms[0].1) && all_members_writable(
        ms.drop_first(),
    )
}

/// `v` written as text with no white space: strings in quotes, numbers in
/// decimal, members and elements separated by single commas.
pub open spec fn text_of(v: JsonV) -> Seq<char>
    decreases v,
{
    match v {
        JsonV::Null => seq!['n', 'u', 'l', 'l'],
        JsonV::Bool(b) => if b {
            seq!['t', 'r', 'u', 'e']
        } else {
            seq!['f', 'a', 'l', 's', 'e']
        },
        JsonV::Number(n) => decimal(n as nat),
        JsonV::Str(s) => seq!['"'] + s + seq!['"'],
        JsonV::Array(xs) => seq!['['] + elements_text(xs) + seq![']'],
        JsonV::Object(ms) => seq!['{'] + members_text(ms) + seq!['}'],
    }
}

pub open spec fn elements_text(xs: Seq<JsonV>) -> Seq<char>
    decreases xs,
{
    if xs.len() == 0 {
        Seq::empty()
    } else if xs.len() == 1 {
        text_of(xs[0])
    } else {
        text_of(xs[0]) + seq![','] + elements_text(xs.drop_first())
    }
}

pub open spec fn member_text(m: (Seq<char>, JsonV)) -> Seq<char>
    decreases m,
{
    seq!['"'] + m.0 + seq!['"', ':'] + text_of(m.1)
}

pub open spec fn members_text(ms: Seq<(Seq<char>, JsonV)>) -> Seq<char>
    decreases ms,
{
    if ms.len() == 0 {
        Seq::empty()
    } else if ms.len() == 1 {
        member_text(ms[0])
    } else {
        member_text(ms[0]) + seq![','] + members_text(ms.drop_first())
    }
}

/// Whether `w` stands in `s` from offset `i`.
pub open spec fn at(s: Seq<char>, i: int, w: Seq<char>) -> bool {
    0 <= i && i + w.len() <= s.len() && forall|j: int| 0 <= j < w.len() ==> s[i + j] == #[trigger] w[j]
}

pub open spec fn spells_exact(t: Seq<TokenV>, k: Seq<KindV>) -> bool {
    t.len() == k.len() && spells(t, k)
}

/// Whether writing `v` leaves a number or keyword open, to be closed by what follows.
pub open spec fn ends_open(v: JsonV) -> bool {
    v is Number || v is Bool || v is Null
}

proof fn lemma_at_split(s: Seq<char>, i: int, a: Seq<char>, b: Seq<char>)
    requires
        at(s, i, a + b),
    ensures
        at(s, i, a),
        at(s, i + a.len(), b),
{
    assert forall|j: int| 0 <= j < a.len() implies s[i + j] == #[trigger] a[j] by {
        assert((a + b)[j] == a[j]);
    }
    assert forall|j: int| 0 <= j < b.len() implies s[i + a.len() + j] == #[trigger] b[j] by {
        assert((a + b)[a.len() + j] == b[j]);
    }
}

proof fn lemma_decimal(n: nat)
    ensures
        decimal(n).len() >= 1,
        forall|k: int| 0 <= k < decimal(n).len() ==> is_digit(#[trigger] decimal(n)[k]),
        digits_value(decimal(n)) == n,
    decreases n,
{
    if n >= 10 {
        lemma_decimal(n / 10);
        let d = decimal(n / 10);
        let c = digit_char((n % 10) as int);
        assert(d.push(c).drop_last() =~= d);
        assert(d.push(c).last() == c);
        assert(c as int - '0' as int == n % 10);
        assert(digits_value(d.push(c)) == digits_value(d) * 10 + (c as int - '0' as int));
        assert((n / 10) * 10 + n % 10 == n) by (nonlinear_arith);
        assert(decimal(n) == d.push(c));
    } else {
        let c = digit_char(n as int);
        assert(seq![c].drop_last() =~= Seq::<char>::empty());
        assert(digits_value(Seq::<char>::empty()) == 0);
        assert(c as int - '0' as int == n);
        assert(digits_value(seq![c]) == digits_value(Seq::<char>::empty()) * 10 + (c as int - '0' as int));
    }
}

/// A run of characters that the open lexeme takes grows its buffer.
proof fn lemma_run(
    s: Seq<char>,
    i: int,
    k: int,
    st: LexerState,
    b: Seq<char>,
    acc: Seq<TokenV>,
)
    requires
        0 <= i,
        0 <= k,
        i + k <= s.len(),
        forall|j: int| i <= j < i + k ==> continues(st, #[trigger] s[j]),
    ensures
        lex_from(s, i, st, b, acc) == lex_from(s, i + k, st, b + s.subrange(i, i + k), acc),
    decreases k,
{
    if k == 0 {
        assert(b + s.subrange(i, i) =~= b);
    } else {
        assert(continues(st, s[i]));
        lemma_run(s, i + 1, k - 1, st, b.push(s[i]), acc);
        assert(b.push(s[i]) + s.subrange(i + 1, i + k) =~= b + s.subrange(i, i + k));
    }
}

/// A one-character token read from the idle state.
proof fn lemma_punct_step(s: Seq<char>, i: int, acc: Seq<TokenV>)
    requires
        0 <= i < s.len(),
        punct_kind(s[i]) is Some,
    ensures
        lex_from(s, i, LexerState::Idle, Seq::empty(), acc) == lex_from(
            s,
            i + 1,
            LexerState::Idle,
            Seq::empty(),
            acc.push(TokenV { kind: punct_kind(s[i])->0, span: single_span(i) }),
        ),
{
    assert(!is_digit(s[i]) && !is_alpha(s[i]) && s[i] != '"');
}

/// A quoted string read from the idle state.
proof fn lemma_string(c: Seq<char>, s: Seq<char>, i: int, acc: Seq<TokenV>)
    requires
        no_quote(c),
        at(s, i, seq!['"'] + c + seq!['"']),
    ensures
        lex_from(s, i, LexerState::Idle, Seq::empty(), acc) == lex_from(
            s,
            i + c.len() + 2,
            LexerState::Idle,
            Seq::empty(),
            acc.push(
                TokenV {
                    kind: KindV::Str(c),
                    span: Span::Range { start: (i + 1) as usize, end: (i + 1 + c.len()) as usize },
                },
            ),
        ),
{
    lemma_at_split(s, i, seq!['"'] + c, seq!['"']);
    lemma_at_split(s, i, seq!['"'], c);
    assert(s[i] == seq!['"'][0]);
    assert(s[i + 1 + c.len()] == seq!['"'][0]);
    assert(lex_from(s, i, LexerState::Idle, Seq::empty(), acc) == lex_from(
        s,
        i + 1,
        LexerState::InString,
        Seq::empty(),
        acc,
    ));
    assert forall|j: int| i + 1 <= j < i + 1 + c.len() implies continues(
        LexerState::InString,
        #[trigger] s[j],
    ) by {
        assert(s[i + 1 + (j - i - 1)] == c[j - i - 1]);
    }
    lemma_run(s, i + 1, c.len() as int, LexerState::InString, Seq::empty(), acc);
    assert(Seq::<char>::empty() + s.subrange(i + 1, i + 1 + c.len()) =~= c) by {
        assert forall|j: int| 0 <= j < c.len() implies s.subrange(i + 1, i + 1 + c.len())[j]
            == c[j] by {
            assert(s[i + 1 + j] == c[j]);
        }
    }
}

/// The lexer mode in which a number or keyword is read.
pub open spec fn open_state(v: JsonV) -> LexerState {
    if v is Number {
        LexerState::InNumber
    } else {
        LexerState::InKeyword
    }
}

/// A number or keyword read from the idle state, left open; closing it gives its token.
proof fn lemma_open_word(v: JsonV, s: Seq<char>, i: int, acc: Seq<TokenV>)
    requires
        writable(v),
        ends_open(v),
        at(s, i, text_of(v)),
    ensures
        lex_from(s, i, LexerState::Idle, Seq::empty(), acc) == lex_from(
            s,
            i + text_of(v).len(),
            open_state(v),
            text_of(v),
            acc,
        ),
        forall|k: int| 0 <= k < text_of(v).len() ==> continues(open_state(v), #[trigger] text_of(v)[k]),
        forall|sp: Span| #[trigger] close_lexeme(open_state(v), text_of(v), sp)
            == Ok::<Option<TokenV>, crate::errors::ErrV>(Some(TokenV { kind: kinds_of(v)[0], span: sp })),
{
    let w = text_of(v);
    let n = w.len() as int;
    let st = open_state(v);
    if let JsonV::Number(m) = v {
        lemma_decimal(m as nat);
    } else {
        if v == JsonV::Null {
            assert(keyword_kind(w) == Some(KindV::Null)) by {
                assert(w[0] != seq!['t', 'r', 'u', 'e'][0]);
            }
        }
    }
    assert(forall|k: int| 0 <= k < w.len() ==> continues(st, #[trigger] w[k]));
    assert(s[i] == w[0]);
    assert(lex_from(s, i, LexerState::Idle, Seq::empty(), acc) == lex_from(
        s,
        i + 1,
        st,
        seq![s[i]],
        acc,
    ));
    assert forall|j: int| i + 1 <= j < i + n implies continues(st, #[trigger] s[j]) by {
        assert(s[i + (j - i)] == w[j - i]);
    }
    lemma_run(s, i + 1, n - 1, st, seq![s[i]], acc);
    assert(seq![s[i]] + s.subrange(i + 1, i + n) =~= w);
}

/// A value followed by a one-character token, read from the idle state.
proof fn lemma_value_then_punct(v: JsonV, s: Seq<char>, i: int, acc: Seq<TokenV>)
    requires
        writable(v),
        at(s, i, text_of(v)),
        i + text_of(v).len() < s.len(),
        punct_kind(s[i + text_of(v).len()]) is Some,
    ensures
        exists|toks: Seq<TokenV>|
            spells_exact(toks, kinds_of(v).push(punct_kind(s[i + text_of(v).len()])->0))
                && lex_from(s, i, LexerState::Idle, Seq::empty(), acc) == lex_from(
                s,
                i + text_of(v).len() + 1,
                LexerState::Idle,
                Seq::empty(),
                acc + toks,
            ),
    decreases v, 1nat,
{
    let w = text_of(v);
    let n = w.len() as int;
    let p = s[i + n];
    let pk = punct_kind(p)->0;
    let ptok = TokenV { kind: pk, span: single_span(i + n) };
    if ends_open(v) {
        let st = open_state(v);
        let kind = kinds_of(v)[0];
        lemma_open_word(v, s, i, acc);
        let tok = TokenV { kind, span: Span::Range { start: i as usize, end: (i + n) as usize } };
        assert(!continues(st, p));
        assert(!is_digit(p) && !is_alpha(p) && p != '"');
        let toks = seq![tok, ptok];
        assert(acc.push(tok).push(ptok) =~= acc + toks);
        assert(spells_exact(toks, kinds_of(v).push(pk)));
    } else {
        lemma_value_plain(v, s, i, acc);
        let toks = choose|toks: Seq<TokenV>|
            spells_exact(toks, kinds_of(v)) && lex_from(s, i, LexerState::Idle, Seq::empty(), acc)
                == lex_from(s, i + n, LexerState::Idle, Seq::empty(), acc + toks);
        lemma_punct_step(s, i + n, acc + toks);
        assert((acc + toks).push(ptok) =~= acc + toks.push(ptok));
        assert(spells_exact(toks.push(ptok), kinds_of(v).push(pk))) by {
            assert forall|j: int| 0 <= j < toks.len() + 1 implies #[trigger] toks.push(ptok)[j].kind
                == kinds_of(v).push(pk)[j] by {
                if j < toks.len() {
                    assert(toks[j].kind == kinds_of(v)[j]);
                }
            }
        }
    }
}

/// A string, array or object read from the idle state, ending idle.
proof fn lemma_value_plain(v: JsonV, s: Seq<char>, i: int, acc: Seq<TokenV>)
    requires
        writable(v),
        !ends_open(v),
        at(s, i, text_of(v)),
    ensures
        exists|toks: Seq<TokenV>|
            spells_exact(toks, kinds_of(v)) && lex_from(s, i, LexerState::Idle, Seq::empty(), acc)
                == lex_from(s, i + text_of(v).len(), LexerState::Idle, Seq::empty(), acc + toks),
    decreases v, 0nat,
{
    match v {
        JsonV::Str(c) => {
            lemma_string(c, s, i, acc);
            let tok = TokenV {
                kind: KindV::Str(c),
                span: Span::Range { start: (i + 1) as usize, end: (i + 1 + c.len()) as usize },
            };
            assert(acc.push(tok) =~= acc + seq![tok]);
            assert(spells_exact(seq![tok], kinds_of(v)));
        },
        JsonV::Array(xs) => {
            let inner = elements_text(xs) + seq![']'];
            assert(text_of(v) =~= seq!['['] + inner);
            lemma_at_split(s, i, seq!['['], inner);
            assert(s[i] == seq!['['][0]);
            let lb = TokenV { kind: KindV::LBracket, span: single_span(i) };
            lemma_punct_step(s, i, acc);
            lemma_elements(xs, s, i + 1, acc.push(lb));
            let toks2 = choose|toks: Seq<TokenV>|
                spells_exact(toks, elements_kinds(xs).push(KindV::RBracket)) && lex_from(
                    s,
                    i + 1,
                    LexerState::Idle,
                    Seq::empty(),
                    acc.push(lb),
                ) == lex_from(
                    s,
                    i + 1 + elements_text(xs).len() + 1,
                    LexerState::Idle,
                    Seq::empty(),
                    acc.push(lb) + toks,
                );
            let toks = seq![lb] + toks2;
            assert(acc.push(lb) + toks2 =~= acc + toks);
            assert(kinds_of(v) =~= seq![KindV::LBracket] + elements_kinds(xs).push(KindV::RBracket));
            assert(spells_exact(toks, kinds_of(v))) by {
                assert forall|j: int| 0 <= j < toks.len() implies #[trigger] toks[j].kind
                    == kinds_of(v)[j] by {
                    if j > 0 {
                        assert(toks2[j - 1].kind == elements_kinds(xs).push(KindV::RBracket)[j - 1]);
                    }
                }
            }
        },
        JsonV::Object(ms) => {
            let inner = members_text(ms) + seq!['}'];
            assert(text_of(v) =~= seq!['{'] + inner);
            lemma_at_split(s, i, seq!['{'], inner);
            assert(s[i] == seq!['{'][0]);
            let lb = TokenV { kind: KindV::LBrace, span: single_span(i) };
            lemma_punct_step(s, i, acc);
            lemma_members(ms, s, i + 1, acc.push(lb));
            let toks2 = choose|toks: Seq<TokenV>|
                spells_exact(toks, members_kinds(ms).push(KindV::RBrace)) && lex_from(
                    s,
                    i + 1,
                    LexerState::Idle,
                    Seq::empty(),
                    acc.push(lb),
                ) == lex_from(
                    s,
                    i + 1 + members_text(ms).len() + 1,
                    LexerState::Idle,
                    Seq::empty(),
                    acc.push(lb) + toks,
                );
            let toks = seq![lb] + toks2;
            assert(acc.push(lb) + toks2 =~= acc + toks);
            assert(kinds_of(v) =~= seq![KindV::LBrace] + members_kinds(ms).push(KindV::RBrace));
            assert(spells_exact(toks, kinds_of(v))) by {
                assert forall|j: int| 0 <= j < toks.len() implies #[trigger] toks[j].kind
                    == kinds_of(v)[j] by {
                    if j > 0 {
                        assert(toks2[j - 1].kind == members_kinds(ms).push(KindV::RBrace)[j - 1]);
                    }
                }
            }
        },
        _ => {},
    }
}

proof fn lemma_spells_concat(t1: Seq<TokenV>, k1: Seq<KindV>, t2: Seq<TokenV>, k2: Seq<KindV>)
    requires
        spells_exact(t1, k1),
        spells_exact(t2, k2),
    ensures
        spells_exact(t1 + t2, k1 + k2),
{
    assert forall|j: int| 0 <= j < k1.len() + k2.len() implies #[trigger] (t1 + t2)[j].kind == (k1
        + k2)[j] by {
        if j < k1.len() {
            assert(t1[j].kind == k1[j]);
        } else {
            assert(t2[j - k1.len()].kind == k2[j - k1.len()]);
        }
    }
}

/// Array elements after the first: each after a comma.
proof fn lemma_more_elements(ys: Seq<JsonV>)
    requires
        ys.len() > 0,
    ensures
        more_elements_kinds(ys) == seq![KindV::Comma] + elements_kinds(ys),
{
    assert(more_elements_kinds(ys) =~= seq![KindV::Comma] + elements_kinds(ys));
}

/// Object members after the first: each after a comma.
proof fn lemma_more_members(ms: Seq<(Seq<char>, JsonV)>)
    requires
        ms.len() > 0,
    ensures
        more_members_kinds(ms) == seq![KindV::Comma] + members_kinds(ms),
{
    assert(more_members_kinds(ms) =~= seq![KindV::Comma] + members_kinds(ms));
}

/// The elements of an array and its closing bracket, read from the idle state.
proof fn lemma_elements(xs: Seq<JsonV>, s: Seq<char>, j: int, acc: Seq<TokenV>)
    requires
        all_writable(xs),
        at(s, j, elements_text(xs) + seq![']']),
    ensures
        exists|toks: Seq<TokenV>|
            spells_exact(toks, elements_kinds(xs).push(KindV::RBracket)) && lex_from(
                s,
                j,
                LexerState::Idle,
                Seq::empty(),
                acc,
            ) == lex_from(
                s,
                j + elements_text(xs).len() + 1,
                LexerState::Idle,
                Seq::empty(),
                acc + toks,
            ),
    decreases xs, 0nat,
{
    let w = elements_text(xs);
    lemma_at_split(s, j, w, seq![']']);
    assert(s[j + w.len()] == seq![']'][0]);
    if xs.len() == 0 {
        lemma_punct_step(s, j, acc);
        let tok = TokenV { kind: KindV::RBracket, span: single_span(j) };
        assert(acc.push(tok) =~= acc + seq![tok]);
        assert(elements_kinds(xs).push(KindV::RBracket) =~= seq![KindV::RBracket]);
        assert(spells_exact(seq![tok], seq![KindV::RBracket]));
    } else if xs.len() == 1 {
        let x0 = xs[0];
        assert(xs.drop_first() =~= Seq::<JsonV>::empty());
        assert(elements_kinds(xs) =~= kinds_of(x0));
        lemma_value_then_punct(x0, s, j, acc);
    } else {
        let x0 = xs[0];
        let rest = xs.drop_first();
        let t0 = text_of(x0);
        lemma_at_split(s, j, t0 + seq![','], elements_text(rest));
        lemma_at_split(s, j, t0, seq![',']);
        assert(s[j + t0.len()] == seq![','][0]);
        lemma_value_then_punct(x0, s, j, acc);
        let toks0 = choose|toks: Seq<TokenV>|
            spells_exact(toks, kinds_of(x0).push(KindV::Comma)) && lex_from(
                s,
                j,
                LexerState::Idle,
                Seq::empty(),
                acc,
            ) == lex_from(s, j + t0.len() + 1, LexerState::Idle, Seq::empty(), acc + toks);
        assert(elements_text(rest) + seq![']'] =~= elements_text(rest) + seq![']']);
        assert(at(s, j + t0.len() + 1, elements_text(rest) + seq![']'])) by {
            assert forall|k: int| 0 <= k < elements_text(rest).len() + 1 implies s[j + t0.len() + 1
                + k] == #[trigger] (elements_text(rest) + seq![']'])[k] by {
                if k < elements_text(rest).len() {
                    assert(s[j + (t0.len() + 1) + k] == elements_text(rest)[k]);
                } else {
                    assert(s[j + w.len()] == seq![']'][0]);
                }
            }
        }
        lemma_elements(rest, s, j + t0.len() + 1, acc + toks0);
        let toks1 = choose|toks: Seq<TokenV>|
            spells_exact(toks, elements_kinds(rest).push(KindV::RBracket)) && lex_from(
                s,
                j + t0.len() + 1,
                LexerState::Idle,
                Seq::empty(),
                acc + toks0,
            ) == lex_from(
                s,
                j + t0.len() + 1 + elements_text(rest).len() + 1,
                LexerState::Idle,
                Seq::empty(),
                acc + toks0 + toks,
            );
        lemma_more_elements(rest);
        lemma_spells_concat(
            toks0,
            kinds_of(x0).push(KindV::Comma),
            toks1,
            elements_kinds(rest).push(KindV::RBracket),
        );
        assert(kinds_of(x0).push(KindV::Comma) + elements_kinds(rest).push(KindV::RBracket)
            =~= elements_kinds(xs).push(KindV::RBracket));
        assert(acc + toks0 + toks1 =~= acc + (toks0 + toks1));
    }
}

/// One object member followed by a one-character token, read from the idle state.
proof fn lemma_member_then_punct(m: (Seq<char>, JsonV), s: Seq<char>, i: int, acc: Seq<TokenV>)
    requires
        no_quote(m.0),
        writable(m.1),
        at(s, i, member_text(m)),
        i + member_text(m).len() < s.len(),
        punct_kind(s[i + member_text(m).len()]) is Some,
    ensures
        exists|toks: Seq<TokenV>|
            spells_exact(toks, member_kinds(m).push(punct_kind(s[i + member_text(m).len()])->0))
                && lex_from(s, i, LexerState::Idle, Seq::empty(), acc) == lex_from(
                s,
                i + member_text(m).len() + 1,
                LexerState::Idle,
                Seq::empty(),
                acc + toks,
            ),
    decreases m, 0nat,
{
    let name = m.0;
    let q = seq!['"'] + name + seq!['"'];
    let tv = text_of(m.1);
    assert(member_text(m) =~= q + seq![':'] + tv);
    lemma_at_split(s, i, q + seq![':'], tv);
    lemma_at_split(s, i, q, seq![':']);
    lemma_string(name, s, i, acc);
    let stok = TokenV {
        kind: KindV::Str(name),
        span: Span::Range { start: (i + 1) as usize, end: (i + 1 + name.len()) as usize },
    };
    assert(s[i + q.len()] == seq![':'][0]);
    lemma_punct_step(s, i + q.len(), acc.push(stok));
    let ctok = TokenV { kind: KindV::Semicolon, span: single_span(i + q.len()) };
    let j = i + q.len() + 1;
    lemma_value_then_punct(m.1, s, j, acc.push(stok).push(ctok));
    let p = s[i + member_text(m).len()];
    let pk = punct_kind(p)->0;
    let toks1 = choose|toks: Seq<TokenV>|
        spells_exact(toks, kinds_of(m.1).push(pk)) && lex_from(
            s,
            j,
            LexerState::Idle,
            Seq::empty(),
            acc.push(stok).push(ctok),
        ) == lex_from(
            s,
            j + tv.len() + 1,
            LexerState::Idle,
            Seq::empty(),
            acc.push(stok).push(ctok) + toks,
        );
    let head = seq![stok, ctok];
    assert(spells_exact(head, seq![KindV::Str(name), KindV::Semicolon]));
    lemma_spells_concat(head, seq![KindV::Str(name), KindV::Semicolon], toks1, kinds_of(m.1).push(pk));
    assert(seq![KindV::Str(name), KindV::Semicolon] + kinds_of(m.1).push(pk) =~= member_kinds(m).push(pk));
    assert(acc.push(stok).push(ctok) + toks1 =~= acc + (head + toks1));
}

/// The members of an object and its closing brace, read from the idle state.
proof fn lemma_members(ms: Seq<(Seq<char>, JsonV)>, s: Seq<char>, j: int, acc: Seq<TokenV>)
    requires
        all_members_writable(ms),
        at(s, j, members_text(ms) + seq!['}']),
    ensures
        exists|toks: Seq<TokenV>|
            spells_exact(toks, members_kinds(ms).push(KindV::RBrace)) && lex_from(
                s,
                j,
                LexerState::Idle,
                Seq::empty(),
                acc,
            ) == lex_from(
                s,
                j + members_text(ms).len() + 1,
                LexerState::Idle,
                Seq::empty(),
                acc + toks,
            ),
    decreases ms, 0nat,
{
    let w = members_text(ms);
    lemma_at_split(s, j, w, seq!['}']);
    assert(s[j + w.len()] == seq!['}'][0]);
    if ms.len() == 0 {
        lemma_punct_step(s, j, acc);
        let tok = TokenV { kind: KindV::RBrace, span: single_span(j) };
        assert(acc.push(tok) =~= acc + seq![tok]);
        assert(members_kinds(ms).push(KindV::RBrace) =~= seq![KindV::RBrace]);
        assert(spells_exact(seq![tok], seq![KindV::RBrace]));
    } else if ms.len() == 1 {
        let m0 = ms[0];
        assert(ms.drop_first() =~= Seq::<(Seq<char>, JsonV)>::empty());
        assert(members_kinds(ms) =~= member_kinds(m0));
        lemma_member_then_punct(m0, s, j, acc);
    } else {
        let m0 = ms[0];
        let rest = ms.drop_first();
        let t0 = member_text(m0);
        lemma_at_split(s, j, t0 + seq![','], members_text(rest));
        lemma_at_split(s, j, t0, seq![',']);
        assert(s[j + t0.len()] == seq![','][0]);
        lemma_member_then_punct(m0, s, j, acc);
        let toks0 = choose|toks: Seq<TokenV>|
            spells_exact(toks, member_kinds(m0).push(KindV::Comma)) && lex_from(
                s,
                j,
                LexerState::Idle,
                Seq::empty(),
                acc,
            ) == lex_from(s, j + t0.len() + 1, LexerState::Idle, Seq::empty(), acc + toks);
        assert(at(s, j + t0.len() + 1, members_text(rest) + seq!['}'])) by {
            assert forall|k: int| 0 <= k < members_text(rest).len() + 1 implies s[j + t0.len() + 1
                + k] == #[trigger] (members_text(rest) + seq!['}'])[k] by {
                if k < members_text(rest).len() {
                    assert(s[j + (t0.len() + 1) + k] == members_text(rest)[k]);
                } else {
                    assert(s[j + w.len()] == seq!['}'][0]);
                }
            }
        }
        lemma_members(rest, s, j + t0.len() + 1, acc + toks0);
        let toks1 = choose|toks: Seq<TokenV>|
            spells_exact(toks, members_kinds(rest).push(KindV::RBrace)) && lex_from(
                s,
                j + t0.len() + 1,
                LexerState::Idle,
                Seq::empty(),
                acc + toks0,
            ) == lex_from(
                s,
                j + t0.len() + 1 + members_text(rest).len() + 1,
                LexerState::Idle,
                Seq::empty(),
                acc + toks0 + toks,
            );
        lemma_more_members(rest);
        lemma_spells_concat(
            toks0,
            member_kinds(m0).push(KindV::Comma),
            toks1,
            members_kinds(rest).push(KindV::RBrace),
        );
        assert(member_kinds(m0).push(KindV::Comma) + members_kinds(rest).push(KindV::RBrace)
            =~= members_kinds(ms).push(KindV::RBrace));
        assert(acc + toks0 + toks1 =~= acc + (toks0 + toks1));
    }
}

/// Tokenizing the text of a writable value gives exactly the kinds that write it.
proof fn lemma_lex_text(v: JsonV)
    requires
        writable(v),
    ensures
        lex(text_of(v)) is Ok,
        spells_exact(lex(text_of(v))->Ok_0, kinds_of(v)),
{
    let s = text_of(v);
    let n = s.len() as int;
    let e = Seq::<TokenV>::empty();
    assert(at(s, 0, s));
    if ends_open(v) {
        lemma_open_word(v, s, 0, e);
        let tok = TokenV { kind: kinds_of(v)[0], span: Span::EndOfInput };
        assert(close_lexeme(open_state(v), s, Span::EndOfInput) == Ok::<
            Option<TokenV>,
            crate::errors::ErrV,
        >(Some(tok)));
        assert(lex(s) == Ok::<Seq<TokenV>, crate::errors::ErrV>(e.push(tok)));
        assert(spells_exact(e.push(tok), kinds_of(v)));
    } else {
        lemma_value_plain(v, s, 0, e);
        let toks = choose|toks: Seq<TokenV>|
            spells_exact(toks, kinds_of(v)) && lex_from(s, 0, LexerState::Idle, Seq::empty(), e)
                == lex_from(s, n, LexerState::Idle, Seq::empty(), e + toks);
        assert(e + toks =~= toks);
        assert(lex(s) == Ok::<Seq<TokenV>, crate::errors::ErrV>(toks));
    }
}

/// The text of any value without negative numbers and without quotes inside
/// strings and names tokenizes, and its tokens parse back to that value, with
/// members and elements in the order written.
pub proof fn lemma_round_trip(v: JsonV)
    requires
        writable(v),
    ensures
        lex(text_of(v)) is Ok,
        parse_value(lex(text_of(v))->Ok_0).0 == Ok::<JsonV, crate::errors::ErrV>(v),
{
    lemma_lex_text(v);
    lemma_parse_value(v, lex(text_of(v))->Ok_0);
}

} // verus!
