//! The value tree a parse produces, with its mathematical model.
//!
//! A floating-point number is kept in the lexical form the tokenizer saw:
//! the mantissa text and, for scientific notation, the exponent text, both
//! guaranteed to parse as decimal floating-point literals. Verified code
//! carries no floating-point arithmetic; a caller who wants the numeric
//! value evaluates `mantissa × 10^exponent` itself.
use vstd::prelude::*;

verus! {

/// Mathematical model of a number: an unbounded integer, or the lexical
/// parts of a floating-point literal.
pub enum NumberV {
    Integer(int),
    Float { mantissa: Seq<char>, exponent: Option<Seq<char>> },
}

/// Mathematical model of a value tree. An object is a mapping in which a
/// later binding of a key has overwritten an earlier one.
pub enum ValueV {
    Null,
    Boolean(bool),
    Number(NumberV),
    String(Seq<char>),
    Array(Seq<ValueV>),
    Object(Map<Seq<char>, ValueV>),
}

/// A number, tagged purely lexically: a decimal point or an exponent marker
/// in the source makes it a `Float`, anything else an `Integer`.
#[derive(Debug, Clone, PartialEq)]
pub enum Number {
    /// A number written without decimal point or exponent.
    Integer(i64),
    /// A floating-point literal: `exponent` is `Some` when the source used
    /// scientific notation, and the value is `mantissa × 10^exponent`.
    Float { mantissa: String, exponent: Option<String> },
}

impl View for Number {
    type V = NumberV;

    open spec fn view(&self) -> NumberV {
        match self {
            Number::Integer(i) => NumberV::Integer(*i as int),
            Number::Float { mantissa, exponent } => NumberV::Float {
                mantissa: mantissa@,
                exponent: match exponent {
                    Some(e) => Some(e@),
                    None => None,
                },
            },
        }
    }
}

/// A parsed JSON value. An object is a list of key-value bindings whose keys
/// are unique by construction: inserting an existing key overwrites the
/// prior value, and no binding order is promised to callers.
#[derive(Debug, PartialEq)]
pub enum Value {
    Null,
    Boolean(bool),
    Number(Number),
    String(String),
    Array(Vec<Value>),
    Object(Vec<(String, Value)>),
}

/// The mapping described by a run of key-value bindings, applied in order,
/// so that the last binding of a key wins.
pub open spec fn entries_map(ps: Seq<(Seq<char>, ValueV)>) -> Map<Seq<char>, ValueV>
    decreases ps.len(),
{
    if ps.len() == 0 {
        Map::empty()
    } else {
        entries_map(ps.drop_last()).insert(ps.last().0, ps.last().1)
    }
}

impl Value {
    /// The mathematical value this tree stands for.
    pub open spec fn model(self) -> ValueV
        decreases self,
    {
        match self {
            Value::Null => ValueV::Null,
            Value::Boolean(b) => ValueV::Boolean(b),
            Value::Number(n) => ValueV::Number(n@),
            Value::String(s) => ValueV::String(s@),
            Value::Array(els) => ValueV::Array(Value::models_of(els@)),
            Value::Object(es) => ValueV::Object(entries_map(Value::entry_models(es@))),
        }
    }

    /// The models of a run of values, in order.
    pub open spec fn models_of(els: Seq<Value>) -> Seq<ValueV>
        decreases els,
    {
        Seq::new(
            els.len(),
            |i: int|
                if 0 <= i < els.len() {
                    els[i].model()
                } else {
                    ValueV::Null
                },
        )
    }

    /// The models of a run of key-value bindings, in binding order.
    pub open spec fn entry_models(es: Seq<(String, Value)>) -> Seq<(Seq<char>, ValueV)>
        decreases es,
    {
        Seq::new(
            es.len(),
            |i: int|
                if 0 <= i < es.len() {
                    (es[i].0@, es[i].1.model())
                } else {
                    (Seq::empty(), ValueV::Null)
                },
        )
    }
}

impl View for Value {
    type V = ValueV;

    open spec fn view(&self) -> ValueV {
        self.model()
    }
}

impl Value {
    /// The views of an object's bindings, in binding order.
    pub open spec fn entry_views(es: Seq<(String, Value)>) -> Seq<(Seq<char>, ValueV)> {
        Seq::new(es.len(), |i: int| (es[i].0@, es[i].1@))
    }

    /// The views of an array's elements, in order.
    pub open spec fn element_views(els: Seq<Value>) -> Seq<ValueV> {
        Seq::new(els.len(), |i: int| els[i]@)
    }

    /// What `view` says of an object, stated for callers of `Value::Object`.
    pub proof fn lemma_object_view(es: Vec<(String, Value)>)
        ensures
            Value::Object(es)@ == ValueV::Object(entries_map(Value::entry_views(es@))),
    {
        assert(Value::entry_models(es@) =~= Value::entry_views(es@)) by {
            assert forall|i: int| 0 <= i < es@.len() implies Value::entry_models(es@)[i]
                == Value::entry_views(es@)[i] by {
                assert(es@[i].1@ == es@[i].1.model());
            }
        }
    }

    /// What `view` says of an array, stated for callers of `Value::Array`.
    pub proof fn lemma_array_view(els: Vec<Value>)
        ensures
            Value::Array(els)@ == ValueV::Array(Value::element_views(els@)),
    {
        assert(Value::models_of(els@) =~= Value::element_views(els@)) by {
            assert forall|i: int| 0 <= i < els@.len() implies Value::models_of(els@)[i]
                == Value::element_views(els@)[i] by {
                assert(els@[i]@ == els@[i].model());
            }
        }
    }

    /// Keys of an object are pairwise distinct.
    pub open spec fn keys_unique(es: Seq<(String, Value)>) -> bool {
        forall|i: int, j: int|
            0 <= i < j < es.len() ==> (#[trigger] es[i].0@) != (#[trigger] es[j].0@)
    }

    /// Well-formedness of the tree: every object's keys are unique, at every
    /// depth. The builder establishes this for every value it returns.
    pub open spec fn wf(self) -> bool
        decreases self,
    {
        match self {
            Value::Array(els) => forall|i: int|
                0 <= i < els@.len() ==> (#[trigger] els@[i]).wf(),
            Value::Object(es) => Value::keys_unique(es@) && forall|i: int|
                0 <= i < es@.len() ==> (#[trigger] es@[i]).1.wf(),
            _ => true,
        }
    }
}

impl Number {
    /// An owned copy with the same model.
    pub fn duplicate(&self) -> (r: Number)
        ensures
            r@ == self@,
    {
        match self {
            Number::Integer(i) => Number::Integer(*i),
            Number::Float { mantissa, exponent } => Number::Float {
                mantissa: mantissa.clone(),
                exponent: match exponent {
                    Some(e) => Some(e.clone()),
                    None => None,
                },
            },
        }
    }
}

/// Overwriting the binding at position `i` of a run with unique keys changes
/// the described mapping exactly as one `insert` of that key does.
proof fn lemma_entries_map_update(ps: Seq<(Seq<char>, ValueV)>, i: int, v: ValueV)
    requires
        0 <= i < ps.len(),
        forall|a: int, b: int| 0 <= a < b < ps.len() ==> (#[trigger] ps[a].0) != (#[trigger] ps[b].0),
    ensures
        entries_map(ps.update(i, (ps[i].0, v))) == entries_map(ps).insert(ps[i].0, v),
    decreases ps.len(),
{
    let up = ps.update(i, (ps[i].0, v));
    if i == ps.len() - 1 {
        assert(up.drop_last() =~= ps.drop_last());
        assert(entries_map(up) =~= entries_map(ps).insert(ps[i].0, v));
    } else {
        assert(up.drop_last() =~= ps.drop_last().update(i, (ps[i].0, v)));
        assert(ps.drop_last()[i] == ps[i]);
        lemma_entries_map_update(ps.drop_last(), i, v);
        assert(up.last() == ps.last());
        assert(ps.last().0 != ps[i].0);
        assert(entries_map(up) == entries_map(ps.drop_last()).insert(ps[i].0, v).insert(
            ps.last().0,
            ps.last().1,
        ));
        assert(entries_map(ps.drop_last()).insert(ps[i].0, v).insert(ps.last().0, ps.last().1)
            =~= entries_map(ps.drop_last()).insert(ps.last().0, ps.last().1).insert(ps[i].0, v));
    }
}

/// Inserts a binding into an object's bindings: an existing key is
/// overwritten in place, a new key is appended. The described mapping gains
/// exactly the one binding, keys stay unique, and every binding present
/// afterwards is either the new one or one that was already there.
pub fn object_insert(entries: &mut Vec<(String, Value)>, key: String, val: Value)
    requires
        Value::keys_unique(old(entries)@),
    ensures
        Value::keys_unique(final(entries)@),
        entries_map(Value::entry_views(final(entries)@)) == entries_map(
            Value::entry_views(old(entries)@),
        ).insert(key@, val@),
        forall|i: int|
            0 <= i < final(entries)@.len() ==> (#[trigger] final(entries)@[i]).1 == val
                || exists|j: int| 0 <= j < old(entries)@.len() && final(entries)@[i].1 == (
            #[trigger] old(entries)@[j]).1,
{
    let n = entries.len();
    let mut i: usize = 0;
    while i < n
        invariant
            n == entries@.len(),
            i <= n,
            Value::keys_unique(entries@),
            entries@ == old(entries)@,
            forall|j: int| 0 <= j < i ==> (#[trigger] entries@[j].0@) != key@,
        decreases n - i,
    {
        let hit = {
            let pair = &entries[i];
            pair.0 == key
        };
        if hit {
            let ghost ps = Value::entry_views(entries@);
            entries.set(i, (key, val));
            proof {
                assert(Value::entry_views(entries@) =~= ps.update(i as int, (ps[i as int].0, val@)));
                lemma_entries_map_update(ps, i as int, val@);
                assert(Value::keys_unique(entries@));
            }
            return ;
        }
        i = i + 1;
    }
    let ghost ps = Value::entry_views(entries@);
    entries.push((key, val));
    proof {
        assert(Value::entry_views(entries@) =~= ps.push((key@, val@)));
        assert(Value::entry_views(entries@).drop_last() =~= ps);
        assert(entries_map(Value::entry_views(entries@)) == entries_map(ps).insert(key@, val@));
        assert(Value::keys_unique(entries@));
    }
}

} // verus!
