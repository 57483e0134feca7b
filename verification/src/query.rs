//! The evaluator: applies a parsed expression to a JSON value and yields an
//! ordered sequence of result values.

use vstd::prelude::*;
use crate::parser::{CompOp, ExprV, Expression};
use crate::value::{
    cmp_value, dup_list, eq_value, find_key, lemma_view_elems, lemma_view_pairs,
    lemma_wf_list_index, lemma_wf_obj_index, obj_lookup, unique_keys, view_elems, view_pairs,
    wf_list, wf_obj, wf_value, Cmp, Number, Value, ValueV,
};
use crate::parser::{lemma_view_expr_pairs, lemma_view_exprs, view_expr_pairs, view_exprs};

verus! {

broadcast use
    vstd::std_specs::vec::group_vec_axioms,
    vstd::seq::group_seq_axioms,
;

/// The operation a type fault names.
#[derive(Clone, Copy, Debug, PartialEq, Eq, Structural)]
pub enum QueryOp {
    Property,
    Index,
    Slice,
    Iterate,
    MapEach,
    Keys,
    Length,
}

/// The kind of a JSON value, for diagnostics.
#[derive(Clone, Copy, Debug, PartialEq, Eq, Structural)]
pub enum ValueKind {
    Null,
    Bool,
    Number,
    String,
    Array,
    Object,
}

/// A query evaluation fault: the named operation met a value of a kind it
/// cannot work on.
#[derive(Clone, Copy, Debug, PartialEq, Eq, Structural)]
pub enum QueryError {
    Type(QueryOp, ValueKind),
}

pub open spec fn kind_of(v: ValueV) -> ValueKind {
    match v {
        ValueV::Null => ValueKind::Null,
        ValueV::Bool(_) => ValueKind::Bool,
        ValueV::Number(_) => ValueKind::Number,
        ValueV::String(_) => ValueKind::String,
        ValueV::Array(_) => ValueKind::Array,
        ValueV::Object(_) => ValueKind::Object,
    }
}

/// The input itself and every value nested inside it, in document order.
pub open spec fn descend(v: ValueV) -> Seq<ValueV>
    decreases v,
{
    match v {
        ValueV::Array(a) => seq![v].add(descend_list(a)),
        ValueV::Object(kvs) => seq![v].add(descend_pairs(kvs)),
        _ => seq![v],
    }
}

pub open spec fn descend_list(s: Seq<ValueV>) -> Seq<ValueV>
    decreases s,
{
    if s.len() <= 0 {
        Seq::empty()
    } else {
        proof {
            assert(decreases_to!(s => s[0]));
        }
        descend(s.first()).add(descend_list(s.drop_first()))
    }
}

pub open spec fn descend_pairs(s: Seq<(Seq<char>, ValueV)>) -> Seq<ValueV>
    decreases s,
{
    if s.len() <= 0 {
        Seq::empty()
    } else {
        proof {
            assert(decreases_to!(s => s[0]));
            assert(decreases_to!(s[0] => s[0].1));
        }
        descend(s.first().1).add(descend_pairs(s.drop_first()))
    }
}

/// A slice bound: negative counts from the end; the result is clamped
/// to the interval `[0, len]`.
pub open spec fn clamp_bound(b: int, len: int) -> int {
    let shifted = if b < 0 {
        len + b
    } else {
        b
    };
    if shifted < 0 {
        0
    } else if shifted > len {
        len
    } else {
        shifted
    }
}

/// The sub-array a slice selects: a missing bound defaults to the start or
/// the end, and an inverted range gives the empty array.
pub open spec fn slice_of(a: Seq<ValueV>, s: Option<i64>, e: Option<i64>) -> Seq<ValueV> {
    let lo = match s {
        Option::Some(x) => clamp_bound(x as int, a.len() as int),
        Option::None => 0,
    };
    let hi = match e {
        Option::Some(x) => clamp_bound(x as int, a.len() as int),
        Option::None => a.len() as int,
    };
    if lo <= hi {
        a.subrange(lo, hi)
    } else {
        Seq::empty()
    }
}

/// The values of an object, in insertion order.
pub open spec fn values_of(kvs: Seq<(Seq<char>, ValueV)>) -> Seq<ValueV> {
    kvs.map_values(|p: (Seq<char>, ValueV)| p.1)
}

/// The keys of an object as strings, in insertion order.
pub open spec fn keys_of(kvs: Seq<(Seq<char>, ValueV)>) -> Seq<ValueV> {
    kvs.map_values(|p: (Seq<char>, ValueV)| ValueV::String(p.0))
}

/// The indices `0 .. n-1` of an array, as numbers.
pub open spec fn index_keys(n: nat) -> Seq<ValueV> {
    Seq::new(n, |i: int| ValueV::Number(Number { mantissa: i as i64, scale: 0 }))
}

/// A length as a JSON number.
pub open spec fn num_of_len(n: nat) -> ValueV {
    ValueV::Number(Number { mantissa: n as i64, scale: 0 })
}

/// Whether the comparison holds: `==` and `!=` use deep equality, the order
/// operators hold only when the order exists and agrees.
pub open spec fn apply_op(op: CompOp, a: ValueV, b: ValueV) -> bool {
    match op {
        CompOp::Eq => eq_value(a, b),
        CompOp::Ne => !eq_value(a, b),
        CompOp::Gt => cmp_value(a, b) == Option::Some(Cmp::Greater),
        CompOp::Lt => cmp_value(a, b) == Option::Some(Cmp::Less),
        CompOp::Ge => cmp_value(a, b) == Option::Some(Cmp::Greater) || cmp_value(a, b)
            == Option::Some(Cmp::Equal),
        CompOp::Le => cmp_value(a, b) == Option::Some(Cmp::Less) || cmp_value(a, b)
            == Option::Some(Cmp::Equal),
    }
}

/// Update the pair with the given key in place, or append a new pair.
pub open spec fn obj_upsert(
    acc: Seq<(Seq<char>, ValueV)>,
    k: Seq<char>,
    val: ValueV,
) -> Seq<(Seq<char>, ValueV)>
    decreases acc,
{
    if acc.len() <= 0 {
        seq![(k, val)]
    } else if acc.first().0 == k {
        seq![(k, val)].add(acc.drop_first())
    } else {
        seq![acc.first()].add(obj_upsert(acc.drop_first(), k, val))
    }
}

/// What a query expression yields on a JSON value: an ordered sequence of
/// values, or the first type fault met, in evaluation order.
pub open spec fn eval(e: ExprV, v: ValueV) -> Result<Seq<ValueV>, QueryError>
    decreases e, v,
{
    match e {
        ExprV::Identity => Result::Ok(seq![v]),
        ExprV::RecursiveDescent => Result::Ok(descend(v)),
        ExprV::Property(name) => match v {
            ValueV::Object(kvs) => Result::Ok(
                seq![
                    match obj_lookup(kvs, name) {
                        Option::Some(w) => w,
                        Option::None => ValueV::Null,
                    },
                ],
            ),
            _ => Result::Err(QueryError::Type(QueryOp::Property, kind_of(v))),
        },
        ExprV::Index(i) => match v {
            ValueV::Array(a) => {
                let idx = if i < 0 {
                    a.len() + i
                } else {
                    i as int
                };
                if 0 <= idx < a.len() {
                    Result::Ok(seq![a[idx]])
                } else {
                    Result::Ok(seq![ValueV::Null])
                }
            },
            _ => Result::Err(QueryError::Type(QueryOp::Index, kind_of(v))),
        },
        ExprV::Slice(s, e2) => match v {
            ValueV::Array(a) => Result::Ok(seq![ValueV::Array(slice_of(a, s, e2))]),
            _ => Result::Err(QueryError::Type(QueryOp::Slice, kind_of(v))),
        },
        ExprV::Iterate => match v {
            ValueV::Array(a) => Result::Ok(a),
            ValueV::Object(kvs) => Result::Ok(values_of(kvs)),
            _ => Result::Err(QueryError::Type(QueryOp::Iterate, kind_of(v))),
        },
        ExprV::ArrayConstruct(es) => match eval_each(es, v) {
            Result::Ok(s) => Result::Ok(seq![ValueV::Array(s)]),
            Result::Err(er) => Result::Err(er),
        },
        ExprV::ObjectConstruct(kvs) => match eval_object(kvs, v, Seq::empty()) {
            Result::Ok(ps) => Result::Ok(seq![ValueV::Object(ps)]),
            Result::Err(er) => Result::Err(er),
        },
        ExprV::Pipe(l, r) => match eval(*l, v) {
            Result::Ok(s) => eval_flat(*r, s),
            Result::Err(er) => Result::Err(er),
        },
        ExprV::Select(l, op, r) => match v {
            ValueV::Array(_) | ValueV::Object(_) => match eval(*l, v) {
                Result::Ok(ls) => match eval(*r, v) {
                    Result::Ok(rs) => if ls.len() == 1 && rs.len() == 1 && apply_op(
                        op,
                        ls[0],
                        rs[0],
                    ) {
                        Result::Ok(seq![v])
                    } else {
                        Result::Ok(Seq::empty())
                    },
                    Result::Err(er) => Result::Err(er),
                },
                Result::Err(er) => Result::Err(er),
            },
            _ => Result::Ok(Seq::empty()),
        },
        ExprV::MapEach(b) => match v {
            ValueV::Array(a) => match eval_flat(*b, a) {
                Result::Ok(s) => Result::Ok(seq![ValueV::Array(s)]),
                Result::Err(er) => Result::Err(er),
            },
            _ => Result::Err(QueryError::Type(QueryOp::MapEach, kind_of(v))),
        },
        ExprV::Keys => match v {
            ValueV::Object(kvs) => Result::Ok(seq![ValueV::Array(keys_of(kvs))]),
            ValueV::Array(a) => Result::Ok(seq![ValueV::Array(index_keys(a.len()))]),
            _ => Result::Err(QueryError::Type(QueryOp::Keys, kind_of(v))),
        },
        ExprV::Length => match v {
            ValueV::Array(a) => Result::Ok(seq![num_of_len(a.len())]),
            ValueV::Object(kvs) => Result::Ok(seq![num_of_len(kvs.len())]),
            ValueV::String(s) => Result::Ok(seq![num_of_len(s.len())]),
            _ => Result::Err(QueryError::Type(QueryOp::Length, kind_of(v))),
        },
        ExprV::Literal(s) => Result::Ok(seq![ValueV::String(s)]),
    }
}

/// Apply the expression to each value in order and concatenate the outputs;
/// the first fault wins.
pub open spec fn eval_flat(e: ExprV, vs: Seq<ValueV>) -> Result<Seq<ValueV>, QueryError>
    decreases e, vs,
{
    if vs.len() <= 0 {
        Result::Ok(Seq::empty())
    } else {
        proof {
            assert(decreases_to!(vs => vs[0]));
        }
        match eval(e, vs.first()) {
            Result::Ok(h) => match eval_flat(e, vs.drop_first()) {
                Result::Ok(t) => Result::Ok(h.add(t)),
                Result::Err(er) => Result::Err(er),
            },
            Result::Err(er) => Result::Err(er),
        }
    }
}

/// Apply each expression to the same value, in order, and concatenate the
/// outputs; the first fault wins.
pub open spec fn eval_each(es: Seq<ExprV>, v: ValueV) -> Result<Seq<ValueV>, QueryError>
    decreases es, v,
{
    if es.len() <= 0 {
        Result::Ok(Seq::empty())
    } else {
        proof {
            assert(decreases_to!(es => es[0]));
        }
        match eval(es.first(), v) {
            Result::Ok(h) => match eval_each(es.drop_first(), v) {
                Result::Ok(t) => Result::Ok(h.add(t)),
                Result::Err(er) => Result::Err(er),
            },
            Result::Err(er) => Result::Err(er),
        }
    }
}

/// Build an object from key/expression pairs, in declaration order: a pair
/// whose expression yields nothing is skipped, otherwise its first output is
/// written, and a later write to the same key replaces the value in place.
pub open spec fn eval_object(
    kvs: Seq<(Seq<char>, ExprV)>,
    v: ValueV,
    acc: Seq<(Seq<char>, ValueV)>,
) -> Result<Seq<(Seq<char>, ValueV)>, QueryError>
    decreases kvs, v,
{
    if kvs.len() <= 0 {
        Result::Ok(acc)
    } else {
        proof {
            assert(decreases_to!(kvs => kvs[0]));
            assert(decreases_to!(kvs[0] => kvs[0].1));
        }
        match eval(kvs.first().1, v) {
            Result::Ok(rs) => eval_object(
                kvs.drop_first(),
                v,
                if rs.len() == 0 {
                    acc
                } else {
                    obj_upsert(acc, kvs.first().0, rs[0])
                },
            ),
            Result::Err(er) => Result::Err(er),
        }
    }
}

/// Splitting one step off the front of an `eval_flat`.
proof fn lemma_eval_flat_skip(e: ExprV, vs: Seq<ValueV>, i: int)
    requires
        0 <= i < vs.len(),
    ensures
        eval_flat(e, vs.skip(i)) == match eval(e, vs[i]) {
            Result::Ok(h) => match eval_flat(e, vs.skip(i + 1)) {
                Result::Ok(t) => Result::Ok::<Seq<ValueV>, QueryError>(h.add(t)),
                Result::Err(er) => Result::Err::<Seq<ValueV>, QueryError>(er),
            },
            Result::Err(er) => Result::Err::<Seq<ValueV>, QueryError>(er),
        },
{
    assert(vs.skip(i).first() == vs[i]);
    assert(vs.skip(i).drop_first() =~= vs.skip(i + 1));
}

/// Splitting one step off the front of an `eval_each`.
proof fn lemma_eval_each_skip(es: Seq<ExprV>, v: ValueV, i: int)
    requires
        0 <= i < es.len(),
    ensures
        eval_each(es.skip(i), v) == match eval(es[i], v) {
            Result::Ok(h) => match eval_each(es.skip(i + 1), v) {
                Result::Ok(t) => Result::Ok::<Seq<ValueV>, QueryError>(h.add(t)),
                Result::Err(er) => Result::Err::<Seq<ValueV>, QueryError>(er),
            },
            Result::Err(er) => Result::Err::<Seq<ValueV>, QueryError>(er),
        },
{
    assert(es.skip(i).first() == es[i]);
    assert(es.skip(i).drop_first() =~= es.skip(i + 1));
}

/// Splitting one step off the front of an `eval_object`.
proof fn lemma_eval_object_skip(
    kvs: Seq<(Seq<char>, ExprV)>,
    v: ValueV,
    acc: Seq<(Seq<char>, ValueV)>,
    i: int,
)
    requires
        0 <= i < kvs.len(),
    ensures
        eval_object(kvs.skip(i), v, acc) == match eval(kvs[i].1, v) {
            Result::Ok(rs) => eval_object(
                kvs.skip(i + 1),
                v,
                if rs.len() == 0 {
                    acc
                } else {
                    obj_upsert(acc, kvs[i].0, rs[0])
                },
            ),
            Result::Err(er) => Result::Err::<Seq<(Seq<char>, ValueV)>, QueryError>(er),
        },
{
    assert(kvs.skip(i).first() == kvs[i]);
    assert(kvs.skip(i).drop_first() =~= kvs.skip(i + 1));
}

/// A descent over one more trailing element.
proof fn lemma_descend_list_push(s: Seq<ValueV>, x: ValueV)
    ensures
        descend_list(s.push(x)) == descend_list(s).add(descend(x)),
    decreases s,
{
    if s.len() == 0 {
        assert(s.push(x).len() == 1);
        assert(s.push(x).first() == x);
        assert(s.push(x).drop_first() =~= Seq::<ValueV>::empty());
        assert(descend_list(s.push(x)) == descend(x).add(descend_list(Seq::empty())));
        assert(descend(x).add(Seq::empty()) =~= descend(x));
        assert(descend_list(s).add(descend(x)) =~= descend(x));
    } else {
        assert(s.push(x).first() == s.first());
        assert(s.push(x).drop_first() =~= s.drop_first().push(x));
        lemma_descend_list_push(s.drop_first(), x);
        assert(descend_list(s.push(x)) == descend(s.first()).add(
            descend_list(s.drop_first().push(x)),
        ));
        assert(descend(s.first()).add(descend_list(s.drop_first()).add(descend(x)))
            =~= descend(s.first()).add(descend_list(s.drop_first())).add(descend(x)));
    }
}

/// A descent over one more trailing pair.
proof fn lemma_descend_pairs_push(s: Seq<(Seq<char>, ValueV)>, p: (Seq<char>, ValueV))
    ensures
        descend_pairs(s.push(p)) == descend_pairs(s).add(descend(p.1)),
    decreases s,
{
    if s.len() == 0 {
        assert(s.push(p).len() == 1);
        assert(s.push(p).first() == p);
        assert(s.push(p).drop_first() =~= Seq::<(Seq<char>, ValueV)>::empty());
        assert(descend_pairs(s.push(p)) == descend(p.1).add(descend_pairs(Seq::empty())));
        assert(descend(p.1).add(Seq::empty()) =~= descend(p.1));
        assert(descend_pairs(s).add(descend(p.1)) =~= descend(p.1));
    } else {
        assert(s.push(p).first() == s.first());
        assert(s.push(p).drop_first() =~= s.drop_first().push(p));
        lemma_descend_pairs_push(s.drop_first(), p);
        assert(descend_pairs(s.push(p)) == descend(s.first().1).add(
            descend_pairs(s.drop_first().push(p)),
        ));
        assert(descend(s.first().1).add(descend_pairs(s.drop_first()).add(descend(p.1)))
            =~= descend(s.first().1).add(descend_pairs(s.drop_first())).add(descend(p.1)));
    }
}

/// A single well-formed value is a well-formed list.
proof fn lemma_wf_list_singleton(v: ValueV)
    requires
        wf_value(v),
    ensures
        wf_list(seq![v]),
{
    assert(seq![v].len() == 1);
    assert(seq![v].last() == v);
    assert(seq![v].drop_last() =~= Seq::<ValueV>::empty());
    assert(wf_list(seq![v].drop_last()));
}

/// Well-formedness of a concatenation.
proof fn lemma_wf_list_concat(a: Seq<ValueV>, b: Seq<ValueV>)
    requires
        wf_list(a),
        wf_list(b),
    ensures
        wf_list(a.add(b)),
    decreases b,
{
    if b.len() == 0 {
        assert(a.add(b) =~= a);
    } else {
        lemma_wf_list_concat(a, b.drop_last());
        assert(a.add(b).drop_last() =~= a.add(b.drop_last()));
        assert(a.add(b).last() == b.last());
    }
}

/// The view mapping distributes over concatenation.
proof fn lemma_view_elems_concat(a: Seq<Value>, b: Seq<Value>)
    ensures
        view_elems(a.add(b)) == view_elems(a).add(view_elems(b)),
{
    crate::value::lemma_view_elems(a);
    crate::value::lemma_view_elems(b);
    crate::value::lemma_view_elems(a.add(b));
    assert(view_elems(a.add(b)) =~= view_elems(a).add(view_elems(b)));
}

/// Every value a descent yields is well formed when the input is.
proof fn lemma_descend_wf(v: ValueV)
    requires
        wf_value(v),
    ensures
        wf_list(descend(v)),
    decreases v,
{
    lemma_wf_list_singleton(v);
    match v {
        ValueV::Array(a) => {
            lemma_descend_wf_list(a);
            lemma_wf_list_concat(seq![v], descend_list(a));
        },
        ValueV::Object(kvs) => {
            lemma_descend_wf_pairs(kvs);
            lemma_wf_list_concat(seq![v], descend_pairs(kvs));
        },
        _ => {},
    }
}

proof fn lemma_descend_wf_list(s: Seq<ValueV>)
    requires
        wf_list(s),
    ensures
        wf_list(descend_list(s)),
    decreases s,
{
    if s.len() > 0 {
        crate::value::lemma_wf_list_index(s, 0);
        assert(decreases_to!(s => s[0]));
        lemma_descend_wf(s.first());
        assert(wf_list(s.drop_first())) by {
            lemma_wf_list_tail(s);
        }
        lemma_descend_wf_list(s.drop_first());
        lemma_wf_list_concat(descend(s.first()), descend_list(s.drop_first()));
    }
}

proof fn lemma_descend_wf_pairs(s: Seq<(Seq<char>, ValueV)>)
    requires
        wf_obj(s),
    ensures
        wf_list(descend_pairs(s)),
    decreases s,
{
    if s.len() > 0 {
        crate::value::lemma_wf_obj_index(s, 0);
        assert(decreases_to!(s => s[0]));
        assert(decreases_to!(s[0] => s[0].1));
        lemma_descend_wf(s.first().1);
        assert(wf_obj(s.drop_first())) by {
            lemma_wf_obj_tail(s);
        }
        lemma_descend_wf_pairs(s.drop_first());
        lemma_wf_list_concat(descend(s.first().1), descend_pairs(s.drop_first()));
    }
}

/// A well-formed list stays well formed without its first element.
proof fn lemma_wf_list_tail(s: Seq<ValueV>)
    requires
        wf_list(s),
        s.len() > 0,
    ensures
        wf_list(s.drop_first()),
{
    assert forall|i: int| 0 <= i < s.drop_first().len() implies wf_value(
        #[trigger] s.drop_first()[i],
    ) by {
        crate::value::lemma_wf_list_index(s, i + 1);
    }
    lemma_wf_list_from_index_local(s.drop_first());
}

proof fn lemma_wf_obj_tail(s: Seq<(Seq<char>, ValueV)>)
    requires
        wf_obj(s),
        s.len() > 0,
    ensures
        wf_obj(s.drop_first()),
{
    assert forall|i: int| 0 <= i < s.drop_first().len() implies wf_value(
        (#[trigger] s.drop_first()[i]).1,
    ) by {
        crate::value::lemma_wf_obj_index(s, i + 1);
    }
    lemma_wf_obj_from_index_local(s.drop_first());
}

proof fn lemma_wf_list_from_index_local(s: Seq<ValueV>)
    requires
        forall|i: int| 0 <= i < s.len() ==> wf_value(#[trigger] s[i]),
    ensures
        wf_list(s),
    decreases s,
{
    if s.len() > 0 {
        lemma_wf_list_from_index_local(s.drop_last());
    }
}

proof fn lemma_wf_obj_from_index_local(s: Seq<(Seq<char>, ValueV)>)
    requires
        forall|i: int| 0 <= i < s.len() ==> wf_value((#[trigger] s[i]).1),
    ensures
        wf_obj(s),
    decreases s,
{
    if s.len() > 0 {
        lemma_wf_obj_from_index_local(s.drop_last());
    }
}

/// The first pair a lookup finds.
proof fn lemma_obj_lookup_found(s: Seq<(Seq<char>, ValueV)>, key: Seq<char>)
    requires
        obj_lookup(s, key) is Some,
    ensures
        exists|i: int|
            0 <= i < s.len() && (#[trigger] s[i].0) == key && s[i].1 == obj_lookup(
                s,
                key,
            )->Some_0,
    decreases s,
{
    if s.len() > 0 {
        if s.first().0 == key {
            assert(s[0].0 == key && s[0].1 == obj_lookup(s, key)->Some_0);
        } else {
            lemma_obj_lookup_found(s.drop_first(), key);
            let i = choose|i: int|
                0 <= i < s.drop_first().len() && (#[trigger] s.drop_first()[i].0) == key
                    && s.drop_first()[i].1 == obj_lookup(s.drop_first(), key)->Some_0;
            assert(s[i + 1].0 == key && s[i + 1].1 == obj_lookup(s, key)->Some_0);
        }
    }
}

/// What an upsert does, position by position: an existing key is updated in
/// place, a new key is appended.
#[verifier::rlimit(50)]
proof fn lemma_obj_upsert_char(acc: Seq<(Seq<char>, ValueV)>, k: Seq<char>, val: ValueV)
    ensures
        (forall|j: int| 0 <= j < acc.len() ==> (#[trigger] acc[j].0) != k) ==> obj_upsert(
            acc,
            k,
            val,
        ) == acc.push((k, val)),
        forall|j: int|
            0 <= j < acc.len() && (#[trigger] acc[j].0) == k && (forall|m: int|
                0 <= m < j ==> (#[trigger] acc[m].0) != k) ==> obj_upsert(acc, k, val)
                == acc.update(j, (k, val)),
    decreases acc,
{
    if acc.len() > 0 {
        lemma_obj_upsert_char(acc.drop_first(), k, val);
        if acc.first().0 == k {
            assert(acc[0].0 == k);
            assert(seq![(k, val)].add(acc.drop_first()) =~= acc.update(0, (k, val)));
        } else {
            if forall|j: int| 0 <= j < acc.len() ==> (#[trigger] acc[j].0) != k {
                assert forall|j: int|
                    0 <= j < acc.drop_first().len() implies (#[trigger] acc.drop_first()[j].0)
                    != k by {
                    assert(acc.drop_first()[j] == acc[j + 1]);
                }
                assert(obj_upsert(acc.drop_first(), k, val) == acc.drop_first().push((k, val)));
                assert(seq![acc.first()].add(acc.drop_first().push((k, val))) =~= acc.push(
                    (k, val),
                ));
            }
            assert forall|j: int|
                0 <= j < acc.len() && (#[trigger] acc[j].0) == k && (forall|m: int|
                    0 <= m < j ==> (#[trigger] acc[m].0) != k) implies obj_upsert(acc, k, val)
                == acc.update(j, (k, val)) by {
                assert(acc[0].0 != k);
                assert(j > 0);
                assert(acc.drop_first()[j - 1].0 == k);
                assert forall|m: int| 0 <= m < j - 1 implies (#[trigger] acc.drop_first()[m].0)
                    != k by {
                    assert(acc.drop_first()[m] == acc[m + 1]);
                }
                assert(obj_upsert(acc.drop_first(), k, val) == acc.drop_first().update(
                    j - 1,
                    (k, val),
                ));
                assert(seq![acc.first()].add(acc.drop_first().update(j - 1, (k, val)))
                    =~= acc.update(j, (k, val)));
            }
        }
    }
}

/// An upsert keeps keys unique and values well formed.
proof fn lemma_obj_upsert_preserves(acc: Seq<(Seq<char>, ValueV)>, k: Seq<char>, val: ValueV)
    requires
        unique_keys(acc),
        wf_obj(acc),
        wf_value(val),
    ensures
        unique_keys(obj_upsert(acc, k, val)),
        wf_obj(obj_upsert(acc, k, val)),
{
    lemma_obj_upsert_char(acc, k, val);
    if exists|j: int| 0 <= j < acc.len() && (#[trigger] acc[j].0) == k {
        let j = choose|j: int| 0 <= j < acc.len() && (#[trigger] acc[j].0) == k;
        assert forall|m: int| 0 <= m < j implies (#[trigger] acc[m].0) != k by {}
        let res = acc.update(j, (k, val));
        assert(obj_upsert(acc, k, val) == res);
        assert forall|x: int, y: int| 0 <= x < y < res.len() implies (#[trigger] res[x].0) != (
        #[trigger] res[y].0) by {
            assert(res[x].0 == acc[x].0);
            assert(res[y].0 == acc[y].0);
        }
        assert forall|m: int| 0 <= m < res.len() implies wf_value((#[trigger] res[m]).1) by {
            if m != j {
                lemma_wf_obj_index(acc, m);
            }
        }
        lemma_wf_obj_from_index_local(res);
    } else {
        let res = acc.push((k, val));
        assert(obj_upsert(acc, k, val) == res);
        assert forall|x: int, y: int| 0 <= x < y < res.len() implies (#[trigger] res[x].0) != (
        #[trigger] res[y].0) by {
            if y < acc.len() {
            } else {
                assert(res[x].0 == acc[x].0);
                assert(res[y].0 == k);
            }
        }
        assert forall|m: int| 0 <= m < res.len() implies wf_value((#[trigger] res[m]).1) by {
            if m < acc.len() {
                lemma_wf_obj_index(acc, m);
            }
        }
        lemma_wf_obj_from_index_local(res);
    }
}

/// The executable outcome matches the specified one, and every value it
/// carries is well formed.
pub open spec fn execute_post(
    r: Result<Vec<Value>, QueryError>,
    g: Result<Seq<ValueV>, QueryError>,
) -> bool {
    match r {
        Result::Ok(vs) => g == Result::Ok::<Seq<ValueV>, QueryError>(view_elems(vs@)) && wf_list(
            view_elems(vs@),
        ),
        Result::Err(er) => g == Result::Err::<Seq<ValueV>, QueryError>(er),
    }
}

/// The kind of a value, for error reports.
fn kind_exec(v: &Value) -> (k: ValueKind)
    ensures
        k == kind_of(v@),
{
    match v {
        Value::Null => ValueKind::Null,
        Value::Bool(_) => ValueKind::Bool,
        Value::Number(_) => ValueKind::Number,
        Value::String(_) => ValueKind::String,
        Value::Array(_) => ValueKind::Array,
        Value::Object(_) => ValueKind::Object,
    }
}

/// Whether a `select` applies to the value at all.
fn is_container(v: &Value) -> (r: bool)
    ensures
        r == (v@ is Array || v@ is Object),
{
    match v {
        Value::Array(_) => true,
        Value::Object(_) => true,
        _ => false,
    }
}

/// A slice bound, clamped to the array.
fn clamp_exec(b: i64, len: usize) -> (r: usize)
    ensures
        r as int == clamp_bound(b as int, len as int),
        r <= len,
{
    let shifted: i128 = if b < 0 {
        len as i128 + b as i128
    } else {
        b as i128
    };
    if shifted < 0 {
        0
    } else if shifted > len as i128 {
        len
    } else {
        shifted as usize
    }
}

/// Whether the comparison holds of the two values.
fn apply_op_exec(op: CompOp, a: &Value, b: &Value) -> (r: bool)
    requires
        wf_value(a@),
        wf_value(b@),
    ensures
        r == apply_op(op, a@, b@),
{
    match op {
        CompOp::Eq => a.deep_eq(b),
        CompOp::Ne => !a.deep_eq(b),
        CompOp::Gt => match a.compare(b) {
            Option::Some(Cmp::Greater) => true,
            _ => false,
        },
        CompOp::Lt => match a.compare(b) {
            Option::Some(Cmp::Less) => true,
            _ => false,
        },
        CompOp::Ge => match a.compare(b) {
            Option::Some(Cmp::Greater) => true,
            Option::Some(Cmp::Equal) => true,
            _ => false,
        },
        CompOp::Le => match a.compare(b) {
            Option::Some(Cmp::Less) => true,
            Option::Some(Cmp::Equal) => true,
            _ => false,
        },
    }
}

/// Write the value under the key: in place when the key exists, appended
/// otherwise.
fn upsert_pair(acc: &mut Vec<(String, Value)>, key: &String, val: Value)
    ensures
        view_pairs(final(acc)@) == obj_upsert(view_pairs(old(acc)@), key@, val@),
{
    proof {
        lemma_view_pairs(old(acc)@);
        lemma_obj_upsert_char(view_pairs(old(acc)@), key@, val@);
    }
    let ghost orig = view_pairs(old(acc)@);
    let n = acc.len();
    let mut i: usize = 0;
    while i < n
        invariant
            0 <= i <= n,
            acc@ == old(acc)@,
            n == acc@.len(),
            orig == view_pairs(old(acc)@),
            forall|m: int| 0 <= m < i ==> (#[trigger] orig[m].0) != key@,
        decreases n - i,
    {
        proof {
            lemma_view_pairs(acc@);
        }
        if acc[i].0 == *key {
            let ghost pre = acc@;
            let _old_pair = acc.remove(i);
            acc.insert(i, (key.clone(), val));
            proof {
                lemma_obj_upsert_char(orig, key@, val@);
                assert(acc@ =~= pre.update(i as int, acc@[i as int]));
                lemma_view_pairs(acc@);
                lemma_view_pairs(pre);
                assert(view_pairs(acc@) =~= orig.update(i as int, (key@, val@)));
                assert(orig[i as int].0 == key@);
            }
            return ;
        }
        i = i + 1;
    }
    let ghost pre = acc@;
    acc.push((key.clone(), val));
    proof {
        lemma_obj_upsert_char(orig, key@, val@);
        lemma_view_pairs(acc@);
        lemma_view_pairs(pre);
        assert(view_pairs(acc@) =~= orig.push((key@, val@)));
    }
}

/// Executes a query expression against JSON data.
pub struct QueryEngine {}

impl QueryEngine {
    /// Create a new query engine.
    pub fn new() -> (r: QueryEngine) {
        QueryEngine {  }
    }

    /// Execute a query expression against a JSON value: the result is exactly
    /// what `eval` specifies, and every value it yields is well formed.
    pub fn execute(&self, expr: &Expression, data: &Value) -> (r: Result<Vec<Value>, QueryError>)
        requires
            wf_value(data@),
        ensures
            execute_post(r, eval(expr@, data@)),
        decreases expr, data,
    {
        match expr {
            Expression::Identity => {
                let mut out: Vec<Value> = Vec::new();
                let d = data.duplicate();
                out.push(d);
                proof {
                    lemma_view_elems(out@);
                    assert(view_elems(out@) =~= seq![data@]);
                    lemma_wf_list_singleton(data@);
                }
                Result::Ok(out)
            },
            Expression::RecursiveDescent => {
                let mut out: Vec<Value> = Vec::new();
                proof {
                    assert(view_elems(out@) =~= Seq::<ValueV>::empty());
                }
                self.collect_recursive(data, &mut out);
                proof {
                    assert(Seq::<ValueV>::empty().add(descend(data@)) =~= descend(data@));
                    lemma_descend_wf(data@);
                }
                Result::Ok(out)
            },
            Expression::Property(name) => match data {
                Value::Object(kvs) => {
                    let ghost vk = view_pairs(kvs@);
                    let mut out: Vec<Value> = Vec::new();
                    match find_key(kvs, name) {
                        Option::Some(w) => {
                            proof {
                                lemma_obj_lookup_found(vk, name@);
                                let i = choose|i: int|
                                    0 <= i < vk.len() && (#[trigger] vk[i].0) == name@ && vk[i].1
                                        == obj_lookup(vk, name@)->Some_0;
                                lemma_wf_obj_index(vk, i);
                            }
                            let d = w.duplicate();
                            out.push(d);
                        },
                        Option::None => {
                            out.push(Value::Null);
                        },
                    }
                    proof {
                        lemma_view_elems(out@);
                        assert(view_elems(out@) =~= seq![view_elems(out@)[0]]);
                        lemma_wf_list_singleton(view_elems(out@)[0]);
                    }
                    Result::Ok(out)
                },
                _ => Result::Err(QueryError::Type(QueryOp::Property, kind_exec(data))),
            },
            Expression::Index(i) => match data {
                Value::Array(a) => {
                    let ghost va = view_elems(a@);
                    proof {
                        lemma_view_elems(a@);
                    }
                    let n = a.len();
                    let idx: i128 = if *i < 0 {
                        n as i128 + *i as i128
                    } else {
                        *i as i128
                    };
                    let mut out: Vec<Value> = Vec::new();
                    if 0 <= idx && idx < n as i128 {
                        proof {
                            lemma_wf_list_index(va, idx as int);
                        }
                        let d = a[idx as usize].duplicate();
                        out.push(d);
                    } else {
                        out.push(Value::Null);
                    }
                    proof {
                        lemma_view_elems(out@);
                        assert(view_elems(out@) =~= seq![view_elems(out@)[0]]);
                        lemma_wf_list_singleton(view_elems(out@)[0]);
                    }
                    Result::Ok(out)
                },
                _ => Result::Err(QueryError::Type(QueryOp::Index, kind_exec(data))),
            },
            Expression::Slice(s, e2) => match data {
                Value::Array(a) => {
                    let ghost va = view_elems(a@);
                    proof {
                        lemma_view_elems(a@);
                    }
                    let n = a.len();
                    let lo: usize = match s {
                        Option::Some(x) => clamp_exec(*x, n),
                        Option::None => 0,
                    };
                    let hi: usize = match e2 {
                        Option::Some(x) => clamp_exec(*x, n),
                        Option::None => n,
                    };
                    let mut arr: Vec<Value> = Vec::new();
                    if lo <= hi {
                        let mut j: usize = lo;
                        while j < hi
                            invariant
                                lo <= j <= hi <= a@.len(),
                                va == view_elems(a@),
                                va.len() == a@.len(),
                                arr@.len() == j - lo,
                                forall|m: int|
                                    0 <= m < j - lo ==> (#[trigger] arr@[m])@ == va[lo + m],
                            decreases hi - j,
                        {
                            proof {
                                lemma_view_elems(a@);
                            }
                            let d = a[j].duplicate();
                            arr.push(d);
                            j = j + 1;
                        }
                    }
                    proof {
                        lemma_view_elems(arr@);
                        lemma_view_elems(a@);
                        assert(view_elems(arr@) =~= slice_of(va, *s, *e2));
                        assert forall|m: int|
                            0 <= m < view_elems(arr@).len() implies wf_value(
                            #[trigger] view_elems(arr@)[m],
                        ) by {
                            lemma_wf_list_index(va, lo + m);
                        }
                        lemma_wf_list_from_index_local(view_elems(arr@));
                    }
                    let mut out: Vec<Value> = Vec::new();
                    out.push(Value::Array(arr));
                    proof {
                        lemma_view_elems(out@);
                        assert(view_elems(out@) =~= seq![view_elems(out@)[0]]);
                        lemma_wf_list_singleton(view_elems(out@)[0]);
                    }
                    Result::Ok(out)
                },
                _ => Result::Err(QueryError::Type(QueryOp::Slice, kind_exec(data))),
            },
            Expression::Iterate => match data {
                Value::Array(a) => {
                    let out = dup_list(a);
                    proof {
                        lemma_view_elems(out@);
                    }
                    Result::Ok(out)
                },
                Value::Object(kvs) => {
                    let ghost vk = view_pairs(kvs@);
                    proof {
                        lemma_view_pairs(kvs@);
                    }
                    let mut out: Vec<Value> = Vec::new();
                    let mut m: usize = 0;
                    while m < kvs.len()
                        invariant
                            0 <= m <= kvs@.len(),
                            vk == view_pairs(kvs@),
                            vk.len() == kvs@.len(),
                            wf_obj(vk),
                            out@.len() == m,
                            forall|j: int| 0 <= j < m ==> (#[trigger] out@[j])@ == vk[j].1,
                        decreases kvs.len() - m,
                    {
                        proof {
                            lemma_view_pairs(kvs@);
                        }
                        let d = kvs[m].1.duplicate();
                        out.push(d);
                        m = m + 1;
                    }
                    proof {
                        lemma_view_elems(out@);
                        assert(view_elems(out@) =~= values_of(vk));
                        assert forall|j: int|
                            0 <= j < values_of(vk).len() implies wf_value(
                            #[trigger] values_of(vk)[j],
                        ) by {
                            lemma_wf_obj_index(vk, j);
                        }
                        lemma_wf_list_from_index_local(values_of(vk));
                    }
                    Result::Ok(out)
                },
                _ => Result::Err(QueryError::Type(QueryOp::Iterate, kind_exec(data))),
            },
            Expression::ArrayConstruct(es) => match self.exec_each(es, data) {
                Result::Ok(arr) => {
                    let mut out: Vec<Value> = Vec::new();
                    out.push(Value::Array(arr));
                    proof {
                        lemma_view_elems(out@);
                        assert(view_elems(out@) =~= seq![view_elems(out@)[0]]);
                        lemma_wf_list_singleton(view_elems(out@)[0]);
                    }
                    Result::Ok(out)
                },
                Result::Err(er) => Result::Err(er),
            },
            Expression::ObjectConstruct(kvs) => match self.exec_object(kvs, data) {
                Result::Ok(ps) => {
                    let mut out: Vec<Value> = Vec::new();
                    out.push(Value::Object(ps));
                    proof {
                        lemma_view_elems(out@);
                        assert(view_elems(out@) =~= seq![view_elems(out@)[0]]);
                        lemma_wf_list_singleton(view_elems(out@)[0]);
                    }
                    Result::Ok(out)
                },
                Result::Err(er) => Result::Err(er),
            },
            Expression::Pipe(l, r) => match self.execute(&**l, data) {
                Result::Ok(ls) => self.exec_flat(&**r, &ls),
                Result::Err(er) => Result::Err(er),
            },
            Expression::Select(l, op, r) => {
                if is_container(data) {
                    match self.execute(&**l, data) {
                        Result::Err(er) => Result::Err(er),
                        Result::Ok(ls) => match self.execute(&**r, data) {
                            Result::Err(er) => Result::Err(er),
                            Result::Ok(rs) => {
                                if ls.len() == 1 && rs.len() == 1 {
                                    proof {
                                        lemma_view_elems(ls@);
                                        lemma_view_elems(rs@);
                                        lemma_wf_list_index(view_elems(ls@), 0);
                                        lemma_wf_list_index(view_elems(rs@), 0);
                                    }
                                    let holds = apply_op_exec(*op, &ls[0], &rs[0]);
                                    if holds {
                                        let mut out: Vec<Value> = Vec::new();
                                        let d = data.duplicate();
                                        out.push(d);
                                        proof {
                                            lemma_view_elems(out@);
                                            assert(view_elems(out@) =~= seq![data@]);
                                            lemma_wf_list_singleton(data@);
                                        }
                                        Result::Ok(out)
                                    } else {
                                        let out: Vec<Value> = Vec::new();
                                        proof {
                                            assert(view_elems(out@) =~= Seq::<ValueV>::empty());
                                        }
                                        Result::Ok(out)
                                    }
                                } else {
                                    let out: Vec<Value> = Vec::new();
                                    proof {
                                        lemma_view_elems(ls@);
                                        lemma_view_elems(rs@);
                                        assert(view_elems(out@) =~= Seq::<ValueV>::empty());
                                    }
                                    Result::Ok(out)
                                }
                            },
                        },
                    }
                } else {
                    let out: Vec<Value> = Vec::new();
                    proof {
                        assert(view_elems(out@) =~= Seq::<ValueV>::empty());
                    }
                    Result::Ok(out)
                }
            },
            Expression::MapEach(b) => match data {
                Value::Array(a) => match self.exec_flat(&**b, a) {
                    Result::Ok(arr) => {
                        let mut out: Vec<Value> = Vec::new();
                        out.push(Value::Array(arr));
                        proof {
                            lemma_view_elems(out@);
                            assert(view_elems(out@) =~= seq![view_elems(out@)[0]]);
                            lemma_wf_list_singleton(view_elems(out@)[0]);
                        }
                        Result::Ok(out)
                    },
                    Result::Err(er) => Result::Err(er),
                },
                _ => Result::Err(QueryError::Type(QueryOp::MapEach, kind_exec(data))),
            },
            Expression::Keys => match data {
                Value::Object(kvs) => {
                    let ghost vk = view_pairs(kvs@);
                    proof {
                        lemma_view_pairs(kvs@);
                    }
                    let mut arr: Vec<Value> = Vec::new();
                    let mut m: usize = 0;
                    while m < kvs.len()
                        invariant
                            0 <= m <= kvs@.len(),
                            vk == view_pairs(kvs@),
                            vk.len() == kvs@.len(),
                            arr@.len() == m,
                            forall|j: int|
                                0 <= j < m ==> (#[trigger] arr@[j])@ == ValueV::String(vk[j].0),
                        decreases kvs.len() - m,
                    {
                        proof {
                            lemma_view_pairs(kvs@);
                        }
                        let k = kvs[m].0.clone();
                        arr.push(Value::String(k));
                        m = m + 1;
                    }
                    proof {
                        lemma_view_elems(arr@);
                        assert(view_elems(arr@) =~= keys_of(vk));
                        assert forall|j: int|
                            0 <= j < keys_of(vk).len() implies wf_value(
                            #[trigger] keys_of(vk)[j],
                        ) by {}
                        lemma_wf_list_from_index_local(keys_of(vk));
                    }
                    let mut out: Vec<Value> = Vec::new();
                    out.push(Value::Array(arr));
                    proof {
                        lemma_view_elems(out@);
                        assert(view_elems(out@) =~= seq![view_elems(out@)[0]]);
                        lemma_wf_list_singleton(view_elems(out@)[0]);
                    }
                    Result::Ok(out)
                },
                Value::Array(a) => {
                    let mut arr: Vec<Value> = Vec::new();
                    let mut m: usize = 0;
                    while m < a.len()
                        invariant
                            0 <= m <= a@.len(),
                            arr@.len() == m,
                            forall|j: int|
                                0 <= j < m ==> (#[trigger] arr@[j])@ == index_keys(a@.len())[j],
                        decreases a.len() - m,
                    {
                        let mi = #[verifier::truncate] (m as i64);
                        arr.push(Value::Number(Number { mantissa: mi, scale: 0 }));
                        m = m + 1;
                    }
                    proof {
                        lemma_view_elems(arr@);
                        lemma_view_elems(a@);
                        assert(view_elems(arr@) =~= index_keys(view_elems(a@).len()));
                        assert forall|j: int|
                            0 <= j < index_keys(view_elems(a@).len()).len() implies wf_value(
                            #[trigger] index_keys(view_elems(a@).len())[j],
                        ) by {}
                        lemma_wf_list_from_index_local(index_keys(view_elems(a@).len()));
                    }
                    let mut out: Vec<Value> = Vec::new();
                    out.push(Value::Array(arr));
                    proof {
                        lemma_view_elems(out@);
                        assert(view_elems(out@) =~= seq![view_elems(out@)[0]]);
                        lemma_wf_list_singleton(view_elems(out@)[0]);
                    }
                    Result::Ok(out)
                },
                _ => Result::Err(QueryError::Type(QueryOp::Keys, kind_exec(data))),
            },
            Expression::Length => match data {
                Value::Array(a) => {
                    proof {
                        lemma_view_elems(a@);
                    }
                    let n = a.len();
                    let mi = #[verifier::truncate] (n as i64);
                    let mut out: Vec<Value> = Vec::new();
                    out.push(Value::Number(Number { mantissa: mi, scale: 0 }));
                    proof {
                        lemma_view_elems(out@);
                        assert(view_elems(out@) =~= seq![num_of_len(view_elems(a@).len())]);
                        lemma_wf_list_singleton(num_of_len(view_elems(a@).len()));
                    }
                    Result::Ok(out)
                },
                Value::Object(kvs) => {
                    proof {
                        lemma_view_pairs(kvs@);
                    }
                    let n = kvs.len();
                    let mi = #[verifier::truncate] (n as i64);
                    let mut out: Vec<Value> = Vec::new();
                    out.push(Value::Number(Number { mantissa: mi, scale: 0 }));
                    proof {
                        lemma_view_elems(out@);
                        assert(view_elems(out@) =~= seq![num_of_len(view_pairs(kvs@).len())]);
                        lemma_wf_list_singleton(num_of_len(view_pairs(kvs@).len()));
                    }
                    Result::Ok(out)
                },
                Value::String(st) => {
                    let n = st.as_str().unicode_len();
                    let mi = #[verifier::truncate] (n as i64);
                    let mut out: Vec<Value> = Vec::new();
                    out.push(Value::Number(Number { mantissa: mi, scale: 0 }));
                    proof {
                        lemma_view_elems(out@);
                        assert(view_elems(out@) =~= seq![num_of_len(st@.len())]);
                        lemma_wf_list_singleton(num_of_len(st@.len()));
                    }
                    Result::Ok(out)
                },
                _ => Result::Err(QueryError::Type(QueryOp::Length, kind_exec(data))),
            },
            Expression::Literal(st) => {
                let mut out: Vec<Value> = Vec::new();
                let k = st.clone();
                out.push(Value::String(k));
                proof {
                    lemma_view_elems(out@);
                    assert(view_elems(out@) =~= seq![ValueV::String(st@)]);
                    lemma_wf_list_singleton(ValueV::String(st@));
                }
                Result::Ok(out)
            },
        }
    }

    /// Apply the expression to each value in order, concatenating the outputs.
    fn exec_flat(&self, e: &Expression, vs: &Vec<Value>) -> (r: Result<Vec<Value>, QueryError>)
        requires
            wf_list(view_elems(vs@)),
        ensures
            execute_post(r, eval_flat(e@, view_elems(vs@))),
        decreases e, vs,
    {
        let ghost vsv = view_elems(vs@);
        proof {
            lemma_view_elems(vs@);
            assert(vsv.skip(0) =~= vsv);
        }
        let mut out: Vec<Value> = Vec::new();
        proof {
            assert(view_elems(out@) =~= Seq::<ValueV>::empty());
        }
        let mut i: usize = 0;
        while i < vs.len()
            invariant
                0 <= i <= vs@.len(),
                vsv == view_elems(vs@),
                vsv.len() == vs@.len(),
                wf_list(vsv),
                wf_list(view_elems(out@)),
                match eval_flat(e@, vsv.skip(i as int)) {
                    Result::Ok(t) => eval_flat(e@, vsv) == Result::Ok::<Seq<ValueV>, QueryError>(
                        view_elems(out@).add(t),
                    ),
                    Result::Err(er) => eval_flat(e@, vsv) == Result::Err::<
                        Seq<ValueV>,
                        QueryError,
                    >(er),
                },
            decreases vs@.len() - i,
        {
            proof {
                lemma_view_elems(vs@);
                assert(decreases_to!(vs => vs@));
                assert(decreases_to!(vs@ => vs@[i as int]));
                assert(decreases_to!(vs => vs@[i as int]));
                lemma_wf_list_index(vsv, i as int);
                lemma_eval_flat_skip(e@, vsv, i as int);
            }
            match self.execute(e, &vs[i]) {
                Result::Err(er) => {
                    return Result::Err(er);
                },
                Result::Ok(mut chunk) => {
                    let ghost pre = out@;
                    let ghost ckv = chunk@;
                    out.append(&mut chunk);
                    proof {
                        lemma_view_elems_concat(pre, ckv);
                        lemma_wf_list_concat(view_elems(pre), view_elems(ckv));
                        let g = eval_flat(e@, vsv.skip(i as int + 1));
                        match g {
                            Result::Ok(t) => {
                                assert((view_elems(pre).add(view_elems(ckv))).add(t)
                                    =~= view_elems(pre).add(view_elems(ckv).add(t)));
                            },
                            Result::Err(_) => {},
                        }
                    }
                    i = i + 1;
                },
            }
        }
        proof {
            assert(vsv.skip(i as int).len() == 0);
            assert(view_elems(out@).add(Seq::<ValueV>::empty()) =~= view_elems(out@));
        }
        Result::Ok(out)
    }

    /// Apply each expression to the same value, concatenating the outputs.
    fn exec_each(&self, es: &Vec<Expression>, v: &Value) -> (r: Result<Vec<Value>, QueryError>)
        requires
            wf_value(v@),
        ensures
            execute_post(r, eval_each(view_exprs(es@), v@)),
        decreases es, v,
    {
        let ghost esv = view_exprs(es@);
        proof {
            lemma_view_exprs(es@);
            assert(esv.skip(0) =~= esv);
        }
        let mut out: Vec<Value> = Vec::new();
        proof {
            assert(view_elems(out@) =~= Seq::<ValueV>::empty());
        }
        let mut i: usize = 0;
        while i < es.len()
            invariant
                0 <= i <= es@.len(),
                esv == view_exprs(es@),
                esv.len() == es@.len(),
                wf_value(v@),
                wf_list(view_elems(out@)),
                match eval_each(esv.skip(i as int), v@) {
                    Result::Ok(t) => eval_each(esv, v@) == Result::Ok::<Seq<ValueV>, QueryError>(
                        view_elems(out@).add(t),
                    ),
                    Result::Err(er) => eval_each(esv, v@) == Result::Err::<
                        Seq<ValueV>,
                        QueryError,
                    >(er),
                },
            decreases es@.len() - i,
        {
            proof {
                lemma_view_exprs(es@);
                assert(decreases_to!(es => es@));
                assert(decreases_to!(es@ => es@[i as int]));
                assert(decreases_to!(es => es@[i as int]));
                lemma_eval_each_skip(esv, v@, i as int);
            }
            match self.execute(&es[i], v) {
                Result::Err(er) => {
                    return Result::Err(er);
                },
                Result::Ok(mut chunk) => {
                    let ghost pre = out@;
                    let ghost ckv = chunk@;
                    out.append(&mut chunk);
                    proof {
                        lemma_view_elems_concat(pre, ckv);
                        lemma_wf_list_concat(view_elems(pre), view_elems(ckv));
                        let g = eval_each(esv.skip(i as int + 1), v@);
                        match g {
                            Result::Ok(t) => {
                                assert((view_elems(pre).add(view_elems(ckv))).add(t)
                                    =~= view_elems(pre).add(view_elems(ckv).add(t)));
                            },
                            Result::Err(_) => {},
                        }
                    }
                    i = i + 1;
                },
            }
        }
        proof {
            assert(esv.skip(i as int).len() == 0);
            assert(view_elems(out@).add(Seq::<ValueV>::empty()) =~= view_elems(out@));
        }
        Result::Ok(out)
    }

    /// Build the pairs of an object template, in declaration order.
    fn exec_object(&self, kvs: &Vec<(String, Expression)>, v: &Value) -> (r: Result<
        Vec<(String, Value)>,
        QueryError,
    >)
        requires
            wf_value(v@),
        ensures
            match r {
                Result::Ok(ps) => eval_object(view_expr_pairs(kvs@), v@, Seq::empty())
                    == Result::Ok::<Seq<(Seq<char>, ValueV)>, QueryError>(view_pairs(ps@))
                    && unique_keys(view_pairs(ps@)) && wf_obj(view_pairs(ps@)),
                Result::Err(er) => eval_object(view_expr_pairs(kvs@), v@, Seq::empty())
                    == Result::Err::<Seq<(Seq<char>, ValueV)>, QueryError>(er),
            },
        decreases kvs, v,
    {
        let ghost kp = view_expr_pairs(kvs@);
        proof {
            lemma_view_expr_pairs(kvs@);
            assert(kp.skip(0) =~= kp);
        }
        let mut acc: Vec<(String, Value)> = Vec::new();
        proof {
            assert(view_pairs(acc@) =~= Seq::<(Seq<char>, ValueV)>::empty());
        }
        let mut i: usize = 0;
        while i < kvs.len()
            invariant
                0 <= i <= kvs@.len(),
                kp == view_expr_pairs(kvs@),
                kp.len() == kvs@.len(),
                wf_value(v@),
                unique_keys(view_pairs(acc@)),
                wf_obj(view_pairs(acc@)),
                eval_object(kp, v@, Seq::empty()) == eval_object(
                    kp.skip(i as int),
                    v@,
                    view_pairs(acc@),
                ),
            decreases kvs@.len() - i,
        {
            proof {
                lemma_view_expr_pairs(kvs@);
                assert(decreases_to!(kvs => kvs@));
                assert(decreases_to!(kvs@ => kvs@[i as int]));
                assert(decreases_to!(kvs@[i as int] => kvs@[i as int].1));
                assert(decreases_to!(kvs => kvs@[i as int].1));
                lemma_eval_object_skip(kp, v@, view_pairs(acc@), i as int);
            }
            match self.execute(&kvs[i].1, v) {
                Result::Err(er) => {
                    return Result::Err(er);
                },
                Result::Ok(rs) => {
                    if rs.len() > 0 {
                        proof {
                            lemma_view_elems(rs@);
                            lemma_wf_list_index(view_elems(rs@), 0);
                            lemma_obj_upsert_preserves(
                                view_pairs(acc@),
                                kvs@[i as int].0@,
                                view_elems(rs@)[0],
                            );
                        }
                        let val = rs[0].duplicate();
                        upsert_pair(&mut acc, &kvs[i].0, val);
                    }
                    i = i + 1;
                },
            }
        }
        proof {
            assert(kp.skip(i as int).len() == 0);
        }
        Result::Ok(acc)
    }

    /// Append the value and everything nested inside it, in document order.
    fn collect_recursive(&self, value: &Value, results: &mut Vec<Value>)
        ensures
            view_elems(final(results)@) == view_elems(old(results)@).add(descend(value@)),
        decreases value,
    {
        let d = value.duplicate();
        let ghost entry = results@;
        results.push(d);
        proof {
            lemma_view_elems(results@);
            lemma_view_elems(entry);
            assert(view_elems(results@) =~= view_elems(entry).push(value@));
        }
        match value {
            Value::Array(a) => {
                self.collect_list(a, results);
                proof {
                    assert(view_elems(entry).push(value@).add(descend_list(view_elems(a@)))
                        =~= view_elems(entry).add(
                        seq![value@].add(descend_list(view_elems(a@))),
                    ));
                }
            },
            Value::Object(kvs) => {
                self.collect_pairs(kvs, results);
                proof {
                    assert(view_elems(entry).push(value@).add(descend_pairs(view_pairs(kvs@)))
                        =~= view_elems(entry).add(
                        seq![value@].add(descend_pairs(view_pairs(kvs@))),
                    ));
                }
            },
            _ => {
                proof {
                    assert(view_elems(entry).push(value@) =~= view_elems(entry).add(
                        seq![value@],
                    ));
                }
            },
        }
    }

    /// Append the descents of the array's elements, in order.
    fn collect_list(&self, a: &Vec<Value>, results: &mut Vec<Value>)
        ensures
            view_elems(final(results)@) == view_elems(old(results)@).add(
                descend_list(view_elems(a@)),
            ),
        decreases a,
    {
        let ghost va = view_elems(a@);
        let ghost entry = view_elems(old(results)@);
        proof {
            lemma_view_elems(a@);
            assert(va.take(0) =~= Seq::<ValueV>::empty());
            assert(entry.add(descend_list(va.take(0))) =~= entry);
        }
        let mut j: usize = 0;
        while j < a.len()
            invariant
                0 <= j <= a@.len(),
                va == view_elems(a@),
                va.len() == a@.len(),
                entry == view_elems(old(results)@),
                view_elems(results@) == entry.add(descend_list(va.take(j as int))),
            decreases a@.len() - j,
        {
            proof {
                lemma_view_elems(a@);
                assert(decreases_to!(a => a@));
                assert(decreases_to!(a@ => a@[j as int]));
                assert(decreases_to!(a => a@[j as int]));
            }
            self.collect_recursive(&a[j], results);
            proof {
                assert(va.take(j as int + 1) =~= va.take(j as int).push(va[j as int]));
                lemma_descend_list_push(va.take(j as int), va[j as int]);
                assert(entry.add(descend_list(va.take(j as int))).add(descend(va[j as int]))
                    =~= entry.add(descend_list(va.take(j as int)).add(descend(va[j as int]))));
            }
            j = j + 1;
        }
        proof {
            assert(va.take(j as int) =~= va);
        }
    }

    /// Append the descents of the object's values, in order.
    fn collect_pairs(&self, kvs: &Vec<(String, Value)>, results: &mut Vec<Value>)
        ensures
            view_elems(final(results)@) == view_elems(old(results)@).add(
                descend_pairs(view_pairs(kvs@)),
            ),
        decreases kvs,
    {
        let ghost vk = view_pairs(kvs@);
        let ghost entry = view_elems(old(results)@);
        proof {
            lemma_view_pairs(kvs@);
            assert(vk.take(0) =~= Seq::<(Seq<char>, ValueV)>::empty());
            assert(entry.add(descend_pairs(vk.take(0))) =~= entry);
        }
        let mut j: usize = 0;
        while j < kvs.len()
            invariant
                0 <= j <= kvs@.len(),
                vk == view_pairs(kvs@),
                vk.len() == kvs@.len(),
                entry == view_elems(old(results)@),
                view_elems(results@) == entry.add(descend_pairs(vk.take(j as int))),
            decreases kvs@.len() - j,
        {
            proof {
                lemma_view_pairs(kvs@);
                assert(decreases_to!(kvs => kvs@));
                assert(decreases_to!(kvs@ => kvs@[j as int]));
                assert(decreases_to!(kvs@[j as int] => kvs@[j as int].1));
                assert(decreases_to!(kvs => kvs@[j as int].1));
            }
            self.collect_recursive(&kvs[j].1, results);
            proof {
                assert(vk.take(j as int + 1) =~= vk.take(j as int).push(vk[j as int]));
                lemma_descend_pairs_push(vk.take(j as int), vk[j as int]);
                assert(entry.add(descend_pairs(vk.take(j as int))).add(descend(vk[j as int].1))
                    =~= entry.add(
                    descend_pairs(vk.take(j as int)).add(descend(vk[j as int].1)),
                ));
            }
            j = j + 1;
        }
        proof {
            assert(vk.take(j as int) =~= vk);
        }
    }
}

} // verus!
