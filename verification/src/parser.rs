//! The value builder: consumes the finished token sequence once, through a
//! single forward cursor shared by the recursive object and array builders,
//! and produces one value.
//!
//! The top level keeps replacing its candidate value with every literal or
//! completed container it meets and ignores stray delimiters, so trailing
//! tokens after a complete document silently override the result; that quirk
//! is part of the contract. The object builder alternates between expecting
//! a key and expecting a value, holds at most one pending key, and inserts a
//! binding (overwriting any prior one) whenever a value arrives while a key
//! is held. The array builder appends every literal and every completed
//! container in encounter order.
use crate::token::token_views;
use crate::token::JsonTokenizer;
use crate::token::spec_tokenize;
use crate::token::Token;
use crate::token::TokenV;
use crate::reader::read_stream;
use crate::value::entries_map;
use crate::value::object_insert;
use crate::value::Value;
use crate::value::ValueV;
use crate::JsonError;
use vstd::prelude::*;

verus! {

/// The view of an optional pending object key.
pub open spec fn key_view(h: Option<String>) -> Option<Seq<char>> {
    match h {
        Some(k) => Some(k@),
        None => None,
    }
}

/// The object builder, entered just past a `{`, with its state: `is_key`
/// tells whether a string would be read as a key, `held` is the pending key,
/// `acc` the mapping built so far. `:` switches to value mode, `,` back to
/// key mode; a string in key mode becomes the pending key; any value arriving
/// while a key is held is bound to it (a nested object leaves the key held, a
/// literal or nested array clears it); `}` ends the object; quote markers and
/// stray `]` are ignored; values arriving with no key held are dropped, and a
/// nested container with no key held is not even entered — its tokens run
/// through this same level. Returns the mapping and the cursor after it.
pub open spec fn sb_obj(
    ts: Seq<TokenV>,
    i: int,
    is_key: bool,
    held: Option<Seq<char>>,
    acc: Map<Seq<char>, ValueV>,
) -> (Map<Seq<char>, ValueV>, int)
    decreases ts.len() - i, 1int,
    when 0 <= i
{
    if i >= ts.len() {
        (acc, i)
    } else {
        match ts[i] {
            TokenV::CurlyClose => (acc, i + 1),
            TokenV::Colon => sb_obj(ts, i + 1, false, held, acc),
            TokenV::Comma => sb_obj(ts, i + 1, true, held, acc),
            TokenV::Quotes => sb_obj(ts, i + 1, is_key, held, acc),
            TokenV::ArrayClose => sb_obj(ts, i + 1, is_key, held, acc),
            TokenV::String(s) => if is_key {
                sb_obj(ts, i + 1, is_key, Some(s), acc)
            } else if held is Some {
                sb_obj(ts, i + 1, is_key, None, acc.insert(held->0, ValueV::String(s)))
            } else {
                sb_obj(ts, i + 1, is_key, held, acc)
            },
            TokenV::Number(n) => if held is Some {
                sb_obj(ts, i + 1, is_key, None, acc.insert(held->0, ValueV::Number(n)))
            } else {
                sb_obj(ts, i + 1, is_key, held, acc)
            },
            TokenV::Boolean(b) => if held is Some {
                sb_obj(ts, i + 1, is_key, None, acc.insert(held->0, ValueV::Boolean(b)))
            } else {
                sb_obj(ts, i + 1, is_key, held, acc)
            },
            TokenV::Null => if held is Some {
                sb_obj(ts, i + 1, is_key, None, acc.insert(held->0, ValueV::Null))
            } else {
                sb_obj(ts, i + 1, is_key, held, acc)
            },
            TokenV::CurlyOpen => if held is Some {
                let mj = sb_obj(ts, i + 1, true, None, Map::empty());
                let j = if i < mj.1 <= ts.len() {
                    mj.1
                } else {
                    i + 1
                };
                sb_obj(ts, j, is_key, held, acc.insert(held->0, ValueV::Object(mj.0)))
            } else {
                sb_obj(ts, i + 1, is_key, held, acc)
            },
            TokenV::ArrayOpen => if held is Some {
                let aj = sb_arr(ts, i + 1, Seq::empty());
                let j = if i < aj.1 <= ts.len() {
                    aj.1
                } else {
                    i + 1
                };
                sb_obj(ts, j, is_key, None, acc.insert(held->0, ValueV::Array(aj.0)))
            } else {
                sb_obj(ts, i + 1, is_key, held, acc)
            },
        }
    }
}

/// The array builder, entered just past a `[`, with the elements built so
/// far. Every literal and every completed nested container is appended in
/// encounter order; `]` ends the array; every other delimiter is ignored.
/// Returns the elements and the cursor after the array.
pub open spec fn sb_arr(ts: Seq<TokenV>, i: int, acc: Seq<ValueV>) -> (Seq<ValueV>, int)
    decreases ts.len() - i, 0int,
    when 0 <= i
{
    if i >= ts.len() {
        (acc, i)
    } else {
        match ts[i] {
            TokenV::ArrayClose => (acc, i + 1),
            TokenV::CurlyOpen => {
                let mj = sb_obj(ts, i + 1, true, None, Map::empty());
                let j = if i < mj.1 <= ts.len() {
                    mj.1
                } else {
                    i + 1
                };
                sb_arr(ts, j, acc.push(ValueV::Object(mj.0)))
            },
            TokenV::ArrayOpen => {
                let aj = sb_arr(ts, i + 1, Seq::empty());
                let j = if i < aj.1 <= ts.len() {
                    aj.1
                } else {
                    i + 1
                };
                sb_arr(ts, j, acc.push(ValueV::Array(aj.0)))
            },
            TokenV::String(s) => sb_arr(ts, i + 1, acc.push(ValueV::String(s))),
            TokenV::Number(n) => sb_arr(ts, i + 1, acc.push(ValueV::Number(n))),
            TokenV::Boolean(b) => sb_arr(ts, i + 1, acc.push(ValueV::Boolean(b))),
            TokenV::Null => sb_arr(ts, i + 1, acc.push(ValueV::Null)),
            TokenV::Comma => sb_arr(ts, i + 1, acc),
            TokenV::CurlyClose => sb_arr(ts, i + 1, acc),
            TokenV::Quotes => sb_arr(ts, i + 1, acc),
            TokenV::Colon => sb_arr(ts, i + 1, acc),
        }
    }
}

/// The top-level dispatch with the current candidate value: every literal
/// token and every completed container replaces the candidate, all other
/// tokens are ignored, and the candidate standing when the tokens run out is
/// the result. It does not stop at the first complete value: later top-level
/// tokens keep overriding it.
pub open spec fn sb_top(ts: Seq<TokenV>, i: int, cur: ValueV) -> ValueV
    decreases ts.len() - i, 2int,
    when 0 <= i
{
    if i >= ts.len() {
        cur
    } else {
        match ts[i] {
            TokenV::CurlyOpen => {
                let mj = sb_obj(ts, i + 1, true, None, Map::empty());
                let j = if i < mj.1 <= ts.len() {
                    mj.1
                } else {
                    i + 1
                };
                sb_top(ts, j, ValueV::Object(mj.0))
            },
            TokenV::ArrayOpen => {
                let aj = sb_arr(ts, i + 1, Seq::empty());
                let j = if i < aj.1 <= ts.len() {
                    aj.1
                } else {
                    i + 1
                };
                sb_top(ts, j, ValueV::Array(aj.0))
            },
            TokenV::String(s) => sb_top(ts, i + 1, ValueV::String(s)),
            TokenV::Number(n) => sb_top(ts, i + 1, ValueV::Number(n)),
            TokenV::Boolean(b) => sb_top(ts, i + 1, ValueV::Boolean(b)),
            TokenV::Null => sb_top(ts, i + 1, ValueV::Null),
            TokenV::Comma => sb_top(ts, i + 1, cur),
            TokenV::CurlyClose => sb_top(ts, i + 1, cur),
            TokenV::Quotes => sb_top(ts, i + 1, cur),
            TokenV::Colon => sb_top(ts, i + 1, cur),
            TokenV::ArrayClose => sb_top(ts, i + 1, cur),
        }
    }
}

/// What a whole parse returns for the given bytes: the token sequence of the
/// decoded characters, built into a value, or the first lexical error.
pub open spec fn spec_parse(bytes: Seq<u8>) -> Result<ValueV, JsonError> {
    match spec_tokenize(read_stream(bytes, 0), 0, Seq::empty()) {
        Ok(ts) => Ok(sb_top(ts, 0, ValueV::Null)),
        Err(e) => Err(e),
    }
}

/// Main parser: the entry point for parsing JSON.
pub struct JsonParser;

impl JsonParser {
    /// Parses a JSON document from bytes: the result is exactly
    /// `spec_parse(input@)`, and every returned value is well-formed.
    pub fn parse_from_bytes(input: &[u8]) -> (r: Result<Value, JsonError>)
        ensures
            match spec_parse(input@) {
                Ok(v) => r is Ok && r->Ok_0@ == v && r->Ok_0.wf(),
                Err(e) => r == Err::<Value, JsonError>(e),
            },
    {
        let mut tokenizer = JsonTokenizer::from_bytes(input);
        match tokenizer.tokenize_json() {
            Ok(tokens) => Ok(JsonParser::tokens_to_value(&tokens)),
            Err(e) => Err(e),
        }
    }

    /// Builds the value of a finished token sequence.
    fn tokens_to_value(tokens: &Vec<Token>) -> (v: Value)
        ensures
            v@ == sb_top(token_views(tokens@), 0, ValueV::Null),
            v.wf(),
    {
        let ghost ts = token_views(tokens@);
        let n = tokens.len();
        let mut cursor: usize = 0;
        let mut value = Value::Null;
        while cursor < n
            invariant
                ts == token_views(tokens@),
                n == tokens@.len(),
                cursor <= n,
                value.wf(),
                sb_top(ts, 0, ValueV::Null) == sb_top(ts, cursor as int, value@),
            decreases n - cursor,
        {
            let ghost i0 = cursor as int;
            proof {
                assert(ts[i0] == tokens@[i0]@);
            }
            let t = &tokens[cursor];
            cursor = cursor + 1;
            match t {
                Token::CurlyOpen => {
                    let entries = JsonParser::process_object(tokens, &mut cursor);
                    proof {
                        Value::lemma_object_view(entries);
                    }
                    value = Value::Object(entries);
                },
                Token::ArrayOpen => {
                    let els = JsonParser::process_array(tokens, &mut cursor);
                    proof {
                        Value::lemma_array_view(els);
                    }
                    value = Value::Array(els);
                },
                Token::String(s) => {
                    value = Value::String(s.clone());
                },
                Token::Number(num) => {
                    value = Value::Number(num.duplicate());
                },
                Token::Boolean(b) => {
                    value = Value::Boolean(*b);
                },
                Token::Null => {
                    value = Value::Null;
                },
                Token::Comma => {},
                Token::CurlyClose => {},
                Token::Quotes => {},
                Token::Colon => {},
                Token::ArrayClose => {},
            }
        }
        value
    }

    /// The object builder over the shared cursor; see `sb_obj` for the rules
    /// it follows.
    fn process_object(tokens: &Vec<Token>, cursor: &mut usize) -> (entries: Vec<(String, Value)>)
        requires
            *old(cursor) <= tokens@.len(),
        ensures
            Value::keys_unique(entries@),
            forall|i: int| 0 <= i < entries@.len() ==> (#[trigger] entries@[i]).1.wf(),
            (entries_map(Value::entry_views(entries@)), *final(cursor) as int) == sb_obj(
                token_views(tokens@),
                *old(cursor) as int,
                true,
                None,
                Map::empty(),
            ),
            *old(cursor) <= *final(cursor) <= tokens@.len(),
        decreases tokens@.len() - *cursor,
    {
        let ghost ts = token_views(tokens@);
        let n = tokens.len();
        let mut entries: Vec<(String, Value)> = Vec::new();
        let mut is_key = true;
        let mut held: Option<String> = None;
        proof {
            assert(Value::entry_views(entries@) =~= Seq::<(Seq<char>, ValueV)>::empty());
            assert(entries_map(Value::entry_views(entries@)) =~= Map::<Seq<char>, ValueV>::empty());
        }
        loop
            invariant_except_break
                sb_obj(ts, *old(cursor) as int, true, None, Map::empty()) == sb_obj(
                    ts,
                    *cursor as int,
                    is_key,
                    key_view(held),
                    entries_map(Value::entry_views(entries@)),
                ),
            invariant
                ts == token_views(tokens@),
                n == tokens@.len(),
                *old(cursor) <= *cursor <= n,
                Value::keys_unique(entries@),
                forall|i: int| 0 <= i < entries@.len() ==> (#[trigger] entries@[i]).1.wf(),
            ensures
                Value::keys_unique(entries@),
                forall|i: int| 0 <= i < entries@.len() ==> (#[trigger] entries@[i]).1.wf(),
                (entries_map(Value::entry_views(entries@)), *cursor as int) == sb_obj(
                    ts,
                    *old(cursor) as int,
                    true,
                    None,
                    Map::empty(),
                ),
                *old(cursor) <= *cursor <= n,
            decreases n - *cursor,
        {
            if *cursor >= n {
                break ;
            }
            let ghost i0 = *cursor as int;
            proof {
                assert(ts[i0] == tokens@[i0]@);
            }
            let t = &tokens[*cursor];
            *cursor = *cursor + 1;
            match t {
                Token::CurlyClose => {
                    break ;
                },
                Token::Colon => {
                    is_key = false;
                },
                Token::Comma => {
                    is_key = true;
                },
                Token::Quotes => {},
                Token::ArrayClose => {},
                Token::String(s) => {
                    if is_key {
                        held = Some(s.clone());
                    } else {
                        match &held {
                            Some(k) => {
                                let kc = k.clone();
                                object_insert(&mut entries, kc, Value::String(s.clone()));
                                held = None;
                            },
                            None => {},
                        }
                    }
                },
                Token::Number(num) => {
                    match &held {
                        Some(k) => {
                            let kc = k.clone();
                            object_insert(&mut entries, kc, Value::Number(num.duplicate()));
                            held = None;
                        },
                        None => {},
                    }
                },
                Token::Boolean(b) => {
                    match &held {
                        Some(k) => {
                            let kc = k.clone();
                            object_insert(&mut entries, kc, Value::Boolean(*b));
                            held = None;
                        },
                        None => {},
                    }
                },
                Token::Null => {
                    match &held {
                        Some(k) => {
                            let kc = k.clone();
                            object_insert(&mut entries, kc, Value::Null);
                            held = None;
                        },
                        None => {},
                    }
                },
                Token::CurlyOpen => {
                    match &held {
                        Some(k) => {
                            let kc = k.clone();
                            let sub = JsonParser::process_object(tokens, cursor);
                            proof {
                                Value::lemma_object_view(sub);
                            }
                            object_insert(&mut entries, kc, Value::Object(sub));
                        },
                        None => {},
                    }
                },
                Token::ArrayOpen => {
                    match &held {
                        Some(k) => {
                            let kc = k.clone();
                            let sub = JsonParser::process_array(tokens, cursor);
                            proof {
                                Value::lemma_array_view(sub);
                            }
                            object_insert(&mut entries, kc, Value::Array(sub));
                            held = None;
                        },
                        None => {},
                    }
                },
            }
        }
        entries
    }

    /// The array builder over the shared cursor; see `sb_arr` for the rules
    /// it follows.
    fn process_array(tokens: &Vec<Token>, cursor: &mut usize) -> (els: Vec<Value>)
        requires
            *old(cursor) <= tokens@.len(),
        ensures
            forall|i: int| 0 <= i < els@.len() ==> (#[trigger] els@[i]).wf(),
            (Value::element_views(els@), *final(cursor) as int) == sb_arr(
                token_views(tokens@),
                *old(cursor) as int,
                Seq::empty(),
            ),
            *old(cursor) <= *final(cursor) <= tokens@.len(),
        decreases tokens@.len() - *cursor,
    {
        let ghost ts = token_views(tokens@);
        let n = tokens.len();
        let mut els: Vec<Value> = Vec::new();
        proof {
            assert(Value::element_views(els@) =~= Seq::<ValueV>::empty());
        }
        loop
            invariant_except_break
                sb_arr(ts, *old(cursor) as int, Seq::empty()) == sb_arr(
                    ts,
                    *cursor as int,
                    Value::element_views(els@),
                ),
            invariant
                ts == token_views(tokens@),
                n == tokens@.len(),
                *old(cursor) <= *cursor <= n,
                forall|i: int| 0 <= i < els@.len() ==> (#[trigger] els@[i]).wf(),
            ensures
                forall|i: int| 0 <= i < els@.len() ==> (#[trigger] els@[i]).wf(),
                (Value::element_views(els@), *cursor as int) == sb_arr(
                    ts,
                    *old(cursor) as int,
                    Seq::empty(),
                ),
                *old(cursor) <= *cursor <= n,
            decreases n - *cursor,
        {
            if *cursor >= n {
                break ;
            }
            let ghost i0 = *cursor as int;
            let ghost evs = Value::element_views(els@);
            proof {
                assert(ts[i0] == tokens@[i0]@);
            }
            let t = &tokens[*cursor];
            *cursor = *cursor + 1;
            match t {
                Token::ArrayClose => {
                    break ;
                },
                Token::CurlyOpen => {
                    let sub = JsonParser::process_object(tokens, cursor);
                    proof {
                        Value::lemma_object_view(sub);
                    }
                    let v = Value::Object(sub);
                    let ghost vv = v@;
                    els.push(v);
                    proof {
                        assert(Value::element_views(els@) =~= evs.push(vv));
                    }
                },
                Token::ArrayOpen => {
                    let sub = JsonParser::process_array(tokens, cursor);
                    proof {
                        Value::lemma_array_view(sub);
                    }
                    let v = Value::Array(sub);
                    let ghost vv = v@;
                    els.push(v);
                    proof {
                        assert(Value::element_views(els@) =~= evs.push(vv));
                    }
                },
                Token::String(s) => {
                    let v = Value::String(s.clone());
                    let ghost vv = v@;
                    els.push(v);
                    proof {
                        assert(Value::element_views(els@) =~= evs.push(vv));
                    }
                },
                Token::Number(num) => {
                    let v = Value::Number(num.duplicate());
                    let ghost vv = v@;
                    els.push(v);
                    proof {
                        assert(Value::element_views(els@) =~= evs.push(vv));
                    }
                },
                Token::Boolean(b) => {
                    let v = Value::Boolean(*b);
                    let ghost vv = v@;
                    els.push(v);
                    proof {
                        assert(Value::element_views(els@) =~= evs.push(vv));
                    }
                },
                Token::Null => {
                    let v = Value::Null;
                    let ghost vv = v@;
                    els.push(v);
                    proof {
                        assert(Value::element_views(els@) =~= evs.push(vv));
                    }
                },
                Token::Comma => {},
                Token::CurlyClose => {},
                Token::Quotes => {},
                Token::Colon => {},
            }
        }
        els
    }
}

} // verus!
