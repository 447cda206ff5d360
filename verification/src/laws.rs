//! Laws of the builder, stated and proved against the specification
//! functions that the executable functions are verified to implement.
use crate::parser::sb_arr;
use crate::parser::sb_obj;
use crate::parser::sb_top;
use crate::token::spec_number_value;
use crate::token::TokenV;
use crate::value::ValueV;
use vstd::prelude::*;

verus! {

/// The value a literal-bearing token carries, or `None` for a delimiter.
pub open spec fn literal_value(t: TokenV) -> Option<ValueV> {
    match t {
        TokenV::String(s) => Some(ValueV::String(s)),
        TokenV::Number(n) => Some(ValueV::Number(n)),
        TokenV::Boolean(b) => Some(ValueV::Boolean(b)),
        TokenV::Null => Some(ValueV::Null),
        _ => None,
    }
}

/// The value of the last literal-bearing token of `ts[i..]`, or `cur` when
/// there is none.
pub open spec fn last_literal(ts: Seq<TokenV>, i: int, cur: ValueV) -> ValueV
    decreases ts.len() - i,
    when 0 <= i
{
    if i >= ts.len() {
        cur
    } else {
        match literal_value(ts[i]) {
            Some(v) => last_literal(ts, i + 1, v),
            None => last_literal(ts, i + 1, cur),
        }
    }
}

/// Top-level trailing-token override: the top-level loop keeps overwriting
/// its candidate with every literal token it meets, so over tokens in which
/// no container opens, the result is the value of the last literal-bearing
/// token — whatever complete value stood earlier is silently overridden.
pub proof fn lemma_top_level_last_literal_wins(ts: Seq<TokenV>, i: int, cur: ValueV)
    requires
        0 <= i <= ts.len(),
        forall|x: int|
            i <= x < ts.len() ==> !((#[trigger] ts[x]) is CurlyOpen) && !(ts[x] is ArrayOpen),
    ensures
        sb_top(ts, i, cur) == last_literal(ts, i, cur),
    decreases ts.len() - i,
{
    if i < ts.len() {
        match ts[i] {
            TokenV::String(s) => lemma_top_level_last_literal_wins(ts, i + 1, ValueV::String(s)),
            TokenV::Number(n) => lemma_top_level_last_literal_wins(ts, i + 1, ValueV::Number(n)),
            TokenV::Boolean(b) => lemma_top_level_last_literal_wins(ts, i + 1, ValueV::Boolean(b)),
            TokenV::Null => lemma_top_level_last_literal_wins(ts, i + 1, ValueV::Null),
            _ => lemma_top_level_last_literal_wins(ts, i + 1, cur),
        }
    }
}

/// A scalar value: one that a run of literal tokens can carry.
pub open spec fn is_scalar_value(v: ValueV) -> bool {
    v is String || v is Number || v is Boolean || v is Null
}

/// The token text of one scalar value, as the tokenizer frames it: a string
/// between its quote markers, any other literal as its single token.
pub open spec fn scalar_tokens(v: ValueV) -> Seq<TokenV>
    recommends
        is_scalar_value(v),
{
    match v {
        ValueV::String(s) => seq![TokenV::Quotes, TokenV::String(s), TokenV::Quotes],
        ValueV::Number(n) => seq![TokenV::Number(n)],
        ValueV::Boolean(b) => seq![TokenV::Boolean(b)],
        _ => seq![TokenV::Null],
    }
}

/// The token text of an array body: each element followed by a comma.
pub open spec fn elements_tokens(vs: Seq<ValueV>) -> Seq<TokenV>
    decreases vs.len(),
{
    if vs.len() == 0 {
        Seq::empty()
    } else {
        scalar_tokens(vs[0]) + seq![TokenV::Comma] + elements_tokens(vs.skip(1))
    }
}

/// The array builder turns the token text of scalar elements, closed by `]`,
/// into exactly those elements appended in source order, and stops there.
proof fn lemma_arr_builds_elements(ts: Seq<TokenV>, i: int, vs: Seq<ValueV>, acc: Seq<ValueV>)
    requires
        0 <= i <= ts.len(),
        forall|x: int| 0 <= x < vs.len() ==> is_scalar_value(#[trigger] vs[x]),
        ts.subrange(i, ts.len() as int) == elements_tokens(vs) + seq![TokenV::ArrayClose],
    ensures
        sb_arr(ts, i, acc) == (acc + vs, ts.len() as int),
    decreases vs.len(),
{
    let suf = ts.subrange(i, ts.len() as int);
    if vs.len() == 0 {
        assert(ts[i] == suf[0]);
        assert(ts[i] == TokenV::ArrayClose);
        assert(i + 1 == ts.len());
        assert(acc + vs =~= acc);
    } else {
        let v0 = vs[0];
        let st = scalar_tokens(v0);
        let m = st.len() as int;
        let rest = elements_tokens(vs.skip(1));
        assert(suf =~= st + seq![TokenV::Comma] + rest + seq![TokenV::ArrayClose]);
        assert(i + m + 1 <= ts.len());
        assert(ts[i] == suf[0]);
        let acc2 = acc.push(v0);
        if v0 is String {
            assert(ts[i + 1] == suf[1]);
            assert(ts[i + 2] == suf[2]);
            assert(ts[i] == TokenV::Quotes);
            assert(ts[i + 1] == TokenV::String(v0->String_0));
            assert(ts[i + 2] == TokenV::Quotes);
            assert(sb_arr(ts, i, acc) == sb_arr(ts, i + 1, acc));
            assert(sb_arr(ts, i + 1, acc) == sb_arr(ts, i + 2, acc2));
            assert(sb_arr(ts, i + 2, acc2) == sb_arr(ts, i + 3, acc2));
        } else {
            assert(ts[i] == st[0]);
            assert(sb_arr(ts, i, acc) == sb_arr(ts, i + 1, acc2));
        }
        assert(ts[i + m] == suf[m]);
        assert(ts[i + m] == TokenV::Comma);
        assert(sb_arr(ts, i + m, acc2) == sb_arr(ts, i + m + 1, acc2));
        let tail = ts.subrange(i + m + 1, ts.len() as int);
        assert(tail =~= rest + seq![TokenV::ArrayClose]) by {
            assert(tail.len() == rest.len() + 1);
            assert forall|d: int| 0 <= d < tail.len() implies tail[d] == (rest + seq![
                TokenV::ArrayClose,
            ])[d] by {
                assert(suf[m + 1 + d] == (rest + seq![TokenV::ArrayClose])[d]);
                assert(tail[d] == ts[i + m + 1 + d]);
                assert(suf[m + 1 + d] == ts[i + (m + 1 + d)]);
            }
        }
        lemma_arr_builds_elements(ts, i + m + 1, vs.skip(1), acc2);
        assert(acc2 + vs.skip(1) =~= acc + vs);
    }
}

/// Element order in an array equals source order: the value built from the
/// token text of an array of scalar elements is exactly that array.
pub proof fn lemma_array_source_order(vs: Seq<ValueV>)
    requires
        forall|x: int| 0 <= x < vs.len() ==> is_scalar_value(#[trigger] vs[x]),
    ensures
        sb_top(seq![TokenV::ArrayOpen] + elements_tokens(vs) + seq![TokenV::ArrayClose], 0, ValueV::Null)
            == ValueV::Array(vs),
{
    let ts = seq![TokenV::ArrayOpen] + elements_tokens(vs) + seq![TokenV::ArrayClose];
    assert(ts[0] == TokenV::ArrayOpen);
    assert(ts.subrange(1, ts.len() as int) =~= elements_tokens(vs) + seq![TokenV::ArrayClose]);
    lemma_arr_builds_elements(ts, 1, vs, Seq::empty());
    assert(Seq::<ValueV>::empty() + vs =~= vs);
    assert(sb_arr(ts, 1, Seq::empty()).1 == ts.len());
    assert(sb_top(ts, ts.len() as int, ValueV::Array(vs)) == ValueV::Array(vs));
}

/// The token text of one key-value member of an object, comma-terminated.
pub open spec fn member_tokens(k: Seq<char>, v: ValueV) -> Seq<TokenV>
    recommends
        is_scalar_value(v),
{
    seq![TokenV::Quotes, TokenV::String(k), TokenV::Quotes, TokenV::Colon] + scalar_tokens(v)
        + seq![TokenV::Comma]
}

/// The token text of an object body from its members, in order.
pub open spec fn members_tokens(ps: Seq<(Seq<char>, ValueV)>) -> Seq<TokenV>
    decreases ps.len(),
{
    if ps.len() == 0 {
        Seq::empty()
    } else {
        member_tokens(ps[0].0, ps[0].1) + members_tokens(ps.skip(1))
    }
}

/// Members applied to a mapping in order, a later binding of a key
/// overwriting an earlier one.
pub open spec fn insert_all(
    acc: Map<Seq<char>, ValueV>,
    ps: Seq<(Seq<char>, ValueV)>,
) -> Map<Seq<char>, ValueV>
    decreases ps.len(),
{
    if ps.len() == 0 {
        acc
    } else {
        insert_all(acc.insert(ps[0].0, ps[0].1), ps.skip(1))
    }
}

/// Members that never bind a key leave its binding alone.
proof fn lemma_insert_all_absent(
    acc: Map<Seq<char>, ValueV>,
    ps: Seq<(Seq<char>, ValueV)>,
    k: Seq<char>,
)
    requires
        forall|x: int| 0 <= x < ps.len() ==> (#[trigger] ps[x]).0 != k,
    ensures
        insert_all(acc, ps).contains_key(k) == acc.contains_key(k),
        acc.contains_key(k) ==> insert_all(acc, ps)[k] == acc[k],
    decreases ps.len(),
{
    if ps.len() > 0 {
        assert(ps[0].0 != k);
        assert(forall|x: int|
            0 <= x < ps.skip(1).len() ==> (#[trigger] ps.skip(1)[x]).0 != k) by {
            assert(forall|x: int|
                0 <= x < ps.skip(1).len() ==> #[trigger] ps.skip(1)[x] == ps[x + 1]);
        }
        lemma_insert_all_absent(acc.insert(ps[0].0, ps[0].1), ps.skip(1), k);
    }
}

/// After applying all members, a key is bound to the value of its last
/// member.
proof fn lemma_insert_all_last(
    acc: Map<Seq<char>, ValueV>,
    ps: Seq<(Seq<char>, ValueV)>,
    j: int,
)
    requires
        0 <= j < ps.len(),
        forall|x: int| j < x < ps.len() ==> (#[trigger] ps[x]).0 != ps[j].0,
    ensures
        insert_all(acc, ps).contains_key(ps[j].0),
        insert_all(acc, ps)[ps[j].0] == ps[j].1,
    decreases ps.len(),
{
    let acc2 = acc.insert(ps[0].0, ps[0].1);
    assert(forall|x: int| 0 <= x < ps.skip(1).len() ==> #[trigger] ps.skip(1)[x] == ps[x + 1]);
    if j == 0 {
        lemma_insert_all_absent(acc2, ps.skip(1), ps[0].0);
    } else {
        lemma_insert_all_last(acc2, ps.skip(1), j - 1);
        assert(ps.skip(1)[j - 1] == ps[j]);
    }
}

/// The object builder turns the token text of scalar members, closed by `}`,
/// into exactly those members applied to the mapping in order, and stops
/// there.
proof fn lemma_obj_builds_members(
    ts: Seq<TokenV>,
    i: int,
    ps: Seq<(Seq<char>, ValueV)>,
    acc: Map<Seq<char>, ValueV>,
)
    requires
        0 <= i <= ts.len(),
        forall|x: int| 0 <= x < ps.len() ==> is_scalar_value((#[trigger] ps[x]).1),
        ts.subrange(i, ts.len() as int) == members_tokens(ps) + seq![TokenV::CurlyClose],
    ensures
        sb_obj(ts, i, true, None, acc) == (insert_all(acc, ps), ts.len() as int),
    decreases ps.len(),
{
    let suf = ts.subrange(i, ts.len() as int);
    if ps.len() == 0 {
        assert(ts[i] == suf[0]);
        assert(ts[i] == TokenV::CurlyClose);
        assert(i + 1 == ts.len());
    } else {
        let k0 = ps[0].0;
        let v0 = ps[0].1;
        let st = scalar_tokens(v0);
        let m = st.len() as int;
        let rest = members_tokens(ps.skip(1));
        assert(suf =~= seq![TokenV::Quotes, TokenV::String(k0), TokenV::Quotes, TokenV::Colon] + st
            + seq![TokenV::Comma] + rest + seq![TokenV::CurlyClose]);
        assert(i + m + 5 <= ts.len());
        assert(ts[i] == suf[0]);
        assert(ts[i + 1] == suf[1]);
        assert(ts[i + 2] == suf[2]);
        assert(ts[i + 3] == suf[3]);
        assert(ts[i] == TokenV::Quotes);
        assert(ts[i + 1] == TokenV::String(k0));
        assert(ts[i + 2] == TokenV::Quotes);
        assert(ts[i + 3] == TokenV::Colon);
        let acc2 = acc.insert(k0, v0);
        assert(sb_obj(ts, i, true, None, acc) == sb_obj(ts, i + 1, true, None, acc));
        assert(sb_obj(ts, i + 1, true, None, acc) == sb_obj(ts, i + 2, true, Some(k0), acc));
        assert(sb_obj(ts, i + 2, true, Some(k0), acc) == sb_obj(ts, i + 3, true, Some(k0), acc));
        assert(sb_obj(ts, i + 3, true, Some(k0), acc) == sb_obj(ts, i + 4, false, Some(k0), acc));
        if v0 is String {
            assert(ts[i + 4] == suf[4]);
            assert(ts[i + 5] == suf[5]);
            assert(ts[i + 6] == suf[6]);
            assert(ts[i + 4] == TokenV::Quotes);
            assert(ts[i + 5] == TokenV::String(v0->String_0));
            assert(ts[i + 6] == TokenV::Quotes);
            assert(sb_obj(ts, i + 4, false, Some(k0), acc) == sb_obj(
                ts,
                i + 5,
                false,
                Some(k0),
                acc,
            ));
            assert(sb_obj(ts, i + 5, false, Some(k0), acc) == sb_obj(ts, i + 6, false, None, acc2));
            assert(sb_obj(ts, i + 6, false, None, acc2) == sb_obj(ts, i + 7, false, None, acc2));
        } else {
            assert(ts[i + 4] == suf[4]);
            assert(ts[i + 4] == st[0]);
            assert(sb_obj(ts, i + 4, false, Some(k0), acc) == sb_obj(ts, i + 5, false, None, acc2));
        }
        assert(ts[i + 4 + m] == suf[4 + m]);
        assert(ts[i + 4 + m] == TokenV::Comma);
        assert(sb_obj(ts, i + 4 + m, false, None, acc2) == sb_obj(ts, i + 5 + m, true, None, acc2));
        let tail = ts.subrange(i + m + 5, ts.len() as int);
        assert(tail =~= rest + seq![TokenV::CurlyClose]) by {
            assert(tail.len() == rest.len() + 1);
            assert forall|d: int| 0 <= d < tail.len() implies tail[d] == (rest + seq![
                TokenV::CurlyClose,
            ])[d] by {
                assert(suf[m + 5 + d] == (rest + seq![TokenV::CurlyClose])[d]);
                assert(tail[d] == ts[i + m + 5 + d]);
                assert(suf[m + 5 + d] == ts[i + (m + 5 + d)]);
            }
        }
        assert(forall|x: int| 0 <= x < ps.skip(1).len() ==> #[trigger] ps.skip(1)[x] == ps[x + 1]);
        lemma_obj_builds_members(ts, i + m + 5, ps.skip(1), acc2);
        assert(sb_obj(ts, i + 5 + m, true, None, acc2) == (insert_all(acc2, ps.skip(1)),
        ts.len() as int));
    }
}

/// Duplicate keys resolve to the last occurrence's value: in the value built
/// from the token text of an object of scalar members, each key is bound to
/// the value of the last member that carries it.
pub proof fn lemma_duplicate_keys_last_wins(ps: Seq<(Seq<char>, ValueV)>, j: int)
    requires
        forall|x: int| 0 <= x < ps.len() ==> is_scalar_value((#[trigger] ps[x]).1),
        0 <= j < ps.len(),
        forall|x: int| j < x < ps.len() ==> (#[trigger] ps[x]).0 != ps[j].0,
    ensures
        ({
            let v = sb_top(
                seq![TokenV::CurlyOpen] + members_tokens(ps) + seq![TokenV::CurlyClose],
                0,
                ValueV::Null,
            );
            &&& v is Object
            &&& v->Object_0.contains_key(ps[j].0)
            &&& v->Object_0[ps[j].0] == ps[j].1
        }),
{
    let ts = seq![TokenV::CurlyOpen] + members_tokens(ps) + seq![TokenV::CurlyClose];
    assert(ts[0] == TokenV::CurlyOpen);
    assert(ts.subrange(1, ts.len() as int) =~= members_tokens(ps) + seq![TokenV::CurlyClose]);
    lemma_obj_builds_members(ts, 1, ps, Map::empty());
    lemma_insert_all_last(Map::empty(), ps, j);
    let m = insert_all(Map::empty(), ps);
    assert(sb_top(ts, ts.len() as int, ValueV::Object(m)) == ValueV::Object(m));
}

/// Number tagging is decided purely lexically: when a numeric token
/// finishes, a decimal point or an exponent marker seen during lexing forces
/// a floating-point value, and otherwise the value is an integer.
pub proof fn lemma_number_tagging(
    mant: Seq<char>,
    expo: Seq<char>,
    is_dec: bool,
    is_eps: bool,
)
    ensures
        spec_number_value(mant, expo, is_dec, is_eps) matches Ok(n) ==> ((n is Float <==> (is_dec
            || is_eps)) && (n is Integer <==> !(is_dec || is_eps))),
{
}

} // verus!
