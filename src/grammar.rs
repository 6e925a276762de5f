//! The grammar written as a printer from value trees to token kinds, and the
//! proof that the parser reads back what the printer writes.
use vstd::prelude::*;
use crate::ast::JsonV;
use crate::parser::{
    array_rest, close_array, close_object, object_rest, parse_array, parse_object, parse_pair,
    parse_value,
};
use crate::tokens::{KindV, TokenV};

verus! {

/// The token kinds that write `v` in the grammar: elements and members
/// separated by single commas, with no leading or trailing comma.
pub open spec fn kinds_of(v: JsonV) -> Seq<KindV>
    decreases v,
{
    match v {
        JsonV::Null => seq![KindV::Null],
        JsonV::Bool(b) => seq![KindV::Bool(b)],
        JsonV::Number(n) => seq![KindV::Num(n)],
        JsonV::Str(s) => seq![KindV::Str(s)],
        JsonV::Array(xs) => seq![KindV::LBracket] + elements_kinds(xs) + seq![KindV::RBracket],
        JsonV::Object(ms) => seq![KindV::LBrace] + members_kinds(ms) + seq![KindV::RBrace],
    }
}

/// The token kinds of array elements, comma separated.
pub open spec fn elements_kinds(xs: Seq<JsonV>) -> Seq<KindV>
    decreases xs,
{
    if xs.len() == 0 {
        Seq::empty()
    } else {
        kinds_of(xs[0]) + more_elements_kinds(xs.drop_first())
    }
}

/// The token kinds of array elements that follow an earlier one: each after a comma.
pub open spec fn more_elements_kinds(xs: Seq<JsonV>) -> Seq<KindV>
    decreases xs,
{
    if xs.len() == 0 {
        Seq::empty()
    } else {
        seq![KindV::Comma] + kinds_of(xs[0]) + more_elements_kinds(xs.drop_first())
    }
}

/// The token kinds of one object member: name, colon, value.
pub open spec fn member_kinds(m: (Seq<char>, JsonV)) -> Seq<KindV>
    decreases m,
{
    seq![KindV::Str(m.0), KindV::Semicolon] + kinds_of(m.1)
}

/// The token kinds of object members, comma separated.
pub open spec fn members_kinds(ms: Seq<(Seq<char>, JsonV)>) -> Seq<KindV>
    decreases ms,
{
    if ms.len() == 0 {
        Seq::empty()
    } else {
        member_kinds(ms[0]) + more_members_kinds(ms.drop_first())
    }
}

/// The token kinds of object members that follow an earlier one: each after a comma.
pub open spec fn more_members_kinds(ms: Seq<(Seq<char>, JsonV)>) -> Seq<KindV>
    decreases ms,
{
    if ms.len() == 0 {
        Seq::empty()
    } else {
        seq![KindV::Comma] + member_kinds(ms[0]) + more_members_kinds(ms.drop_first())
    }
}

/// Whether the tokens `t` begin with the kinds `k`, whatever their spans.
pub open spec fn spells(t: Seq<TokenV>, k: Seq<KindV>) -> bool {
    k.len() <= t.len() && forall|i: int| 0 <= i < k.len() ==> #[trigger] t[i].kind == k[i]
}

proof fn lemma_spells_split(t: Seq<TokenV>, a: Seq<KindV>, b: Seq<KindV>)
    requires
        spells(t, a + b),
    ensures
        spells(t, a),
        spells(t.skip(a.len() as int), b),
{
    assert forall|i: int| 0 <= i < a.len() implies #[trigger] t[i].kind == a[i] by {
        assert((a + b)[i] == a[i]);
    }
    assert forall|i: int| 0 <= i < b.len() implies #[trigger] t.skip(a.len() as int)[i].kind
        == b[i] by {
        assert((a + b)[a.len() + i] == b[i]);
        assert(t[a.len() + i].kind == (a + b)[a.len() + i]);
    }
}

proof fn lemma_skip_skip(t: Seq<TokenV>, m: int, n: int)
    requires
        0 <= m,
        0 <= n,
        m + n <= t.len(),
    ensures
        t.skip(m).skip(n) == t.skip(m + n),
{
    assert(t.skip(m).skip(n) =~= t.skip(m + n));
}

/// Tokens that begin by writing a value `v` in the grammar parse back to `v`:
/// members and elements come out in the order written, whatever spans the
/// tokens carry and whatever follows them, and exactly the tokens of `v` are
/// taken.
pub proof fn lemma_parse_value(v: JsonV, t: Seq<TokenV>)
    requires
        spells(t, kinds_of(v)),
    ensures
        parse_value(t) == (Ok::<JsonV, crate::errors::ErrV>(v), t.skip(kinds_of(v).len() as int)),
    decreases v,
{
    assert(t.drop_first() =~= t.skip(1));
    match v {
        JsonV::Null => {
            assert(t[0].kind == kinds_of(v)[0]);
        },
        JsonV::Bool(b) => {
            assert(t[0].kind == kinds_of(v)[0]);
        },
        JsonV::Number(n) => {
            assert(t[0].kind == kinds_of(v)[0]);
        },
        JsonV::Str(s) => {
            assert(t[0].kind == kinds_of(v)[0]);
        },
        JsonV::Array(xs) => {
            let inner = elements_kinds(xs);
            assert(kinds_of(v) == seq![KindV::LBracket] + inner + seq![KindV::RBracket]);
            assert(t[0].kind == kinds_of(v)[0]);
            lemma_spells_split(t, seq![KindV::LBracket], inner + seq![KindV::RBracket]);
            assert(seq![KindV::LBracket] + inner + seq![KindV::RBracket] =~= seq![KindV::LBracket] + (inner + seq![KindV::RBracket]));
            let t1 = t.skip(1);
            lemma_parse_array_body(xs, t1);
            assert(parse_array(t) == (Some(v), t.skip(kinds_of(v).len() as int)));
        },
        JsonV::Object(ms) => {
            let inner = members_kinds(ms);
            assert(kinds_of(v) == seq![KindV::LBrace] + inner + seq![KindV::RBrace]);
            assert(t[0].kind == kinds_of(v)[0]);
            lemma_spells_split(t, seq![KindV::LBrace], inner + seq![KindV::RBrace]);
            assert(seq![KindV::LBrace] + inner + seq![KindV::RBrace] =~= seq![KindV::LBrace] + (inner + seq![KindV::RBrace]));
            let t1 = t.skip(1);
            lemma_parse_object_body(ms, t1);
            assert(parse_array(t) == (None::<JsonV>, t));
        },
    }
}

/// After an opening bracket: the elements `xs` and the closing bracket.
proof fn lemma_parse_array_body(xs: Seq<JsonV>, t1: Seq<TokenV>)
    requires
        spells(t1, elements_kinds(xs) + seq![KindV::RBracket]),
    ensures
        ({
            let (first, r1) = parse_value(t1);
            match first {
                Err(_) => close_array(r1, Seq::empty()),
                Ok(v) => if r1.len() < t1.len() + 1 {
                    array_rest(r1, seq![v])
                } else {
                    (None, r1)
                },
            }
        }) == (Some(JsonV::Array(xs)), t1.skip(elements_kinds(xs).len() + 1 as int)),
    decreases xs, 0nat,
{
    if xs.len() == 0 {
        assert(elements_kinds(xs) + seq![KindV::RBracket] =~= seq![KindV::RBracket]);
        assert(t1[0].kind == KindV::RBracket);
        assert(parse_array(t1) == (None::<JsonV>, t1));
        assert(xs =~= Seq::<JsonV>::empty());
        assert(t1.drop_first() =~= t1.skip(1));
    } else {
        let k0 = kinds_of(xs[0]);
        let rest = more_elements_kinds(xs.drop_first());
        assert(elements_kinds(xs) + seq![KindV::RBracket] =~= k0 + (rest + seq![KindV::RBracket]));
        lemma_spells_split(t1, k0, rest + seq![KindV::RBracket]);
        lemma_parse_value(xs[0], t1);
        let r1 = t1.skip(k0.len() as int);
        lemma_array_rest(xs.drop_first(), seq![xs[0]], r1);
        assert(seq![xs[0]] + xs.drop_first() =~= xs);
        lemma_skip_skip(t1, k0.len() as int, rest.len() + 1 as int);
    }
}

/// Commas with the elements `xs`, then the closing bracket, after the elements `acc`.
proof fn lemma_array_rest(xs: Seq<JsonV>, acc: Seq<JsonV>, r: Seq<TokenV>)
    requires
        spells(r, more_elements_kinds(xs) + seq![KindV::RBracket]),
    ensures
        array_rest(r, acc) == (Some(JsonV::Array(acc + xs)), r.skip(
            more_elements_kinds(xs).len() + 1 as int,
        )),
    decreases xs, 0nat,
{
    assert(r.drop_first() =~= r.skip(1));
    if xs.len() == 0 {
        assert(more_elements_kinds(xs) + seq![KindV::RBracket] =~= seq![KindV::RBracket]);
        assert(r[0].kind == KindV::RBracket);
        assert(acc + xs =~= acc);
    } else {
        let k0 = kinds_of(xs[0]);
        let rest = more_elements_kinds(xs.drop_first());
        assert(more_elements_kinds(xs) + seq![KindV::RBracket] =~= seq![KindV::Comma] + (k0 + (
        rest + seq![KindV::RBracket])));
        lemma_spells_split(r, seq![KindV::Comma], k0 + (rest + seq![KindV::RBracket]));
        assert(r[0].kind == KindV::Comma);
        let r1 = r.skip(1);
        lemma_spells_split(r1, k0, rest + seq![KindV::RBracket]);
        lemma_parse_value(xs[0], r1);
        let r2 = r1.skip(k0.len() as int);
        lemma_array_rest(xs.drop_first(), acc.push(xs[0]), r2);
        assert(acc.push(xs[0]) + xs.drop_first() =~= acc + xs);
        lemma_skip_skip(r, 1, k0.len() as int);
        lemma_skip_skip(r, 1 + k0.len() as int, rest.len() + 1 as int);
    }
}

/// A member's kinds parse to that member.
proof fn lemma_parse_pair(m: (Seq<char>, JsonV), t: Seq<TokenV>)
    requires
        spells(t, member_kinds(m)),
    ensures
        parse_pair(t) == (Ok::<(Seq<char>, JsonV), crate::errors::ErrV>(m), t.skip(
            member_kinds(m).len() as int,
        )),
    decreases m, 0nat,
{
    let kv = kinds_of(m.1);
    assert(member_kinds(m) == seq![KindV::Str(m.0), KindV::Semicolon] + kv);
    assert(t[0].kind == member_kinds(m)[0]);
    assert(t[1].kind == member_kinds(m)[1]);
    lemma_spells_split(t, seq![KindV::Str(m.0), KindV::Semicolon], kv);
    assert(t.drop_first().drop_first() =~= t.skip(2));
    lemma_parse_value(m.1, t.skip(2));
    lemma_skip_skip(t, 2, kv.len() as int);
}

/// After an opening brace: the members `ms` and the closing brace.
proof fn lemma_parse_object_body(ms: Seq<(Seq<char>, JsonV)>, t1: Seq<TokenV>)
    requires
        spells(t1, members_kinds(ms) + seq![KindV::RBrace]),
    ensures
        ({
            let (first, r1) = parse_pair(t1);
            match first {
                Err(_) => close_object(r1, Seq::empty()),
                Ok(m) => if r1.len() < t1.len() + 1 {
                    object_rest(r1, seq![m])
                } else {
                    (Err(crate::parser::unexpected(r1)), r1)
                },
            }
        }) == (Ok::<JsonV, crate::errors::ErrV>(JsonV::Object(ms)), t1.skip(
            members_kinds(ms).len() + 1 as int,
        )),
    decreases ms, 0nat,
{
    if ms.len() == 0 {
        assert(members_kinds(ms) + seq![KindV::RBrace] =~= seq![KindV::RBrace]);
        assert(t1[0].kind == KindV::RBrace);
        assert(ms =~= Seq::<(Seq<char>, JsonV)>::empty());
        assert(t1.drop_first() =~= t1.skip(1));
    } else {
        let k0 = member_kinds(ms[0]);
        let rest = more_members_kinds(ms.drop_first());
        assert(members_kinds(ms) + seq![KindV::RBrace] =~= k0 + (rest + seq![KindV::RBrace]));
        lemma_spells_split(t1, k0, rest + seq![KindV::RBrace]);
        lemma_parse_pair(ms[0], t1);
        let r1 = t1.skip(k0.len() as int);
        lemma_object_rest(ms.drop_first(), seq![ms[0]], r1);
        assert(seq![ms[0]] + ms.drop_first() =~= ms);
        lemma_skip_skip(t1, k0.len() as int, rest.len() + 1 as int);
    }
}

/// Commas with the members `ms`, then the closing brace, after the members `acc`.
proof fn lemma_object_rest(ms: Seq<(Seq<char>, JsonV)>, acc: Seq<(Seq<char>, JsonV)>, r: Seq<TokenV>)
    requires
        spells(r, more_members_kinds(ms) + seq![KindV::RBrace]),
    ensures
        object_rest(r, acc) == (Ok::<JsonV, crate::errors::ErrV>(JsonV::Object(acc + ms)), r.skip(
            more_members_kinds(ms).len() + 1 as int,
        )),
    decreases ms, 0nat,
{
    assert(r.drop_first() =~= r.skip(1));
    if ms.len() == 0 {
        assert(more_members_kinds(ms) + seq![KindV::RBrace] =~= seq![KindV::RBrace]);
        assert(r[0].kind == KindV::RBrace);
        assert(acc + ms =~= acc);
    } else {
        let k0 = member_kinds(ms[0]);
        let rest = more_members_kinds(ms.drop_first());
        assert(more_members_kinds(ms) + seq![KindV::RBrace] =~= seq![KindV::Comma] + (k0 + (
        rest + seq![KindV::RBrace])));
        lemma_spells_split(r, seq![KindV::Comma], k0 + (rest + seq![KindV::RBrace]));
        assert(r[0].kind == KindV::Comma);
        let r1 = r.skip(1);
        lemma_spells_split(r1, k0, rest + seq![KindV::RBrace]);
        lemma_parse_pair(ms[0], r1);
        let r2 = r1.skip(k0.len() as int);
        lemma_object_rest(ms.drop_first(), acc.push(ms[0]), r2);
        assert(acc.push(ms[0]) + ms.drop_first() =~= acc + ms);
        lemma_skip_skip(r, 1, k0.len() as int);
        lemma_skip_skip(r, 1 + k0.len() as int, rest.len() + 1 as int);
    }
}

} // verus!
