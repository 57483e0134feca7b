//! The JSON value model the evaluator works on.
//!
//! Numbers are exact decimals: a value is `mantissa / 10^scale`.  Objects keep
//! their keys in insertion order, as a sequence of key/value pairs with
//! pairwise-distinct keys.

use vstd::prelude::*;

verus! {

broadcast use
    vstd::std_specs::vec::group_vec_axioms,
    vstd::seq::group_seq_axioms,
;

/// A JSON number as an exact decimal: the value is `mantissa / 10^scale`.
#[derive(Clone, Copy, Debug, PartialEq, Eq, Structural)]
pub struct Number {
    pub mantissa: i64,
    pub scale: u32,
}

/// A JSON value: null, boolean, number, string, array, or an object whose
/// keys keep insertion order.
#[derive(Debug, PartialEq)]
pub enum Value {
    Null,
    Bool(bool),
    Number(Number),
    String(String),
    Array(Vec<Value>),
    Object(Vec<(String, Value)>),
}

/// The mathematical model of a `Value`.
#[verifier::ext_equal]
pub enum ValueV {
    Null,
    Bool(bool),
    Number(Number),
    String(Seq<char>),
    Array(Seq<ValueV>),
    Object(Seq<(Seq<char>, ValueV)>),
}

impl View for Value {
    type V = ValueV;

    open spec fn view(&self) -> ValueV
        decreases self,
    {
        match self {
            Value::Null => ValueV::Null,
            Value::Bool(b) => ValueV::Bool(*b),
            Value::Number(n) => ValueV::Number(*n),
            Value::String(s) => ValueV::String(s@),
            Value::Array(a) => {
                proof {
                    assert(decreases_to!(a => a@));
                }
                ValueV::Array(view_elems(a@))
            },
            Value::Object(kvs) => {
                proof {
                    assert(decreases_to!(kvs => kvs@));
                }
                ValueV::Object(view_pairs(kvs@))
            },
        }
    }
}

/// The models of the elements of an array, in order.
pub open spec fn view_elems(s: Seq<Value>) -> Seq<ValueV>
    decreases s,
{
    if s.len() <= 0 {
        Seq::empty()
    } else {
        view_elems(s.drop_last()).push(s.last()@)
    }
}

/// The models of the key/value pairs of an object, in order.
pub open spec fn view_pairs(s: Seq<(String, Value)>) -> Seq<(Seq<char>, ValueV)>
    decreases s,
{
    if s.len() <= 0 {
        Seq::empty()
    } else {
        view_pairs(s.drop_last()).push((s.last().0@, s.last().1@))
    }
}

pub proof fn lemma_view_elems(s: Seq<Value>)
    ensures
        view_elems(s).len() == s.len(),
        forall|i: int| 0 <= i < s.len() ==> #[trigger] view_elems(s)[i] == s[i]@,
    decreases s,
{
    if s.len() > 0 {
        lemma_view_elems(s.drop_last());
        assert(view_elems(s) == view_elems(s.drop_last()).push(s.last()@));
        assert forall|i: int| 0 <= i < s.len() implies #[trigger] view_elems(s)[i] == s[i]@ by {
            if i < s.len() - 1 {
                assert(s.drop_last()[i] == s[i]);
                assert(view_elems(s.drop_last()).push(s.last()@)[i] == view_elems(
                    s.drop_last(),
                )[i]);
            }
        }
    }
}

pub proof fn lemma_view_pairs(s: Seq<(String, Value)>)
    ensures
        view_pairs(s).len() == s.len(),
        forall|i: int|
            0 <= i < s.len() ==> #[trigger] view_pairs(s)[i] == (s[i].0@, s[i].1@),
    decreases s,
{
    if s.len() > 0 {
        lemma_view_pairs(s.drop_last());
        assert(view_pairs(s) == view_pairs(s.drop_last()).push((s.last().0@, s.last().1@)));
        assert forall|i: int|
            0 <= i < s.len() implies #[trigger] view_pairs(s)[i] == (s[i].0@, s[i].1@) by {
            if i < s.len() - 1 {
                assert(s.drop_last()[i] == s[i]);
                assert(view_pairs(s.drop_last()).push((s.last().0@, s.last().1@))[i]
                    == view_pairs(s.drop_last())[i]);
            }
        }
    }
}

/// A number the comparator can handle: the scale is small enough that the
/// cross products of a comparison fit in `i128`.
pub open spec fn wf_number(n: Number) -> bool {
    n.scale <= 18
}

/// The keys of an object are pairwise distinct.
pub open spec fn unique_keys(s: Seq<(Seq<char>, ValueV)>) -> bool {
    forall|i: int, j: int| 0 <= i < j < s.len() ==> (#[trigger] s[i].0) != (#[trigger] s[j].0)
}

/// Well-formedness of a JSON value: every number is comparable, and every
/// object's keys are pairwise distinct.
pub open spec fn wf_value(v: ValueV) -> bool
    decreases v,
{
    match v {
        ValueV::Null => true,
        ValueV::Bool(_) => true,
        ValueV::Number(n) => wf_number(n),
        ValueV::String(_) => true,
        ValueV::Array(a) => wf_list(a),
        ValueV::Object(kvs) => unique_keys(kvs) && wf_obj(kvs),
    }
}

pub open spec fn wf_list(s: Seq<ValueV>) -> bool
    decreases s,
{
    if s.len() <= 0 {
        true
    } else {
        wf_list(s.drop_last()) && wf_value(s.last())
    }
}

pub open spec fn wf_obj(s: Seq<(Seq<char>, ValueV)>) -> bool
    decreases s,
{
    if s.len() <= 0 {
        true
    } else {
        wf_obj(s.drop_last()) && wf_value(s.last().1)
    }
}

pub proof fn lemma_wf_list_index(s: Seq<ValueV>, i: int)
    requires
        wf_list(s),
        0 <= i < s.len(),
    ensures
        wf_value(#[trigger] s[i]),
    decreases s,
{
    if i < s.len() - 1 {
        lemma_wf_list_index(s.drop_last(), i);
    }
}

pub proof fn lemma_wf_obj_index(s: Seq<(Seq<char>, ValueV)>, i: int)
    requires
        wf_obj(s),
        0 <= i < s.len(),
    ensures
        wf_value((#[trigger] s[i]).1),
    decreases s,
{
    if i < s.len() - 1 {
        lemma_wf_obj_index(s.drop_last(), i);
    }
}

proof fn lemma_wf_list_from_index(s: Seq<ValueV>)
    requires
        forall|i: int| 0 <= i < s.len() ==> wf_value(#[trigger] s[i]),
    ensures
        wf_list(s),
    decreases s,
{
    if s.len() > 0 {
        lemma_wf_list_from_index(s.drop_last());
    }
}

proof fn lemma_wf_obj_from_index(s: Seq<(Seq<char>, ValueV)>)
    requires
        forall|i: int| 0 <= i < s.len() ==> wf_value((#[trigger] s[i]).1),
    ensures
        wf_obj(s),
    decreases s,
{
    if s.len() > 0 {
        lemma_wf_obj_from_index(s.drop_last());
    }
}

/// The value the first pair with the given key holds, if any.
pub open spec fn obj_lookup(s: Seq<(Seq<char>, ValueV)>, key: Seq<char>) -> Option<ValueV>
    decreases s,
{
    if s.len() <= 0 {
        Option::None
    } else if s.first().0 == key {
        Option::Some(s.first().1)
    } else {
        obj_lookup(s.drop_first(), key)
    }
}

/// Whether the object carries the key at all.
pub open spec fn has_key(s: Seq<(Seq<char>, ValueV)>, key: Seq<char>) -> bool {
    obj_lookup(s, key) is Some
}

/// Deep equality of two JSON values: arrays are compared element by element in
/// order; objects are equal when they carry the same keys and, key by key,
/// equal values — their insertion order does not matter; numbers compare by
/// their exact decimal representation.
pub open spec fn eq_value(a: ValueV, b: ValueV) -> bool
    decreases a,
{
    match (a, b) {
        (ValueV::Null, ValueV::Null) => true,
        (ValueV::Bool(x), ValueV::Bool(y)) => x == y,
        (ValueV::Number(x), ValueV::Number(y)) => x == y,
        (ValueV::String(x), ValueV::String(y)) => x == y,
        (ValueV::Array(x), ValueV::Array(y)) => x.len() == y.len() && eq_list(x, y),
        (ValueV::Object(x), ValueV::Object(y)) => {
            &&& forall|k: Seq<char>| #[trigger] has_key(x, k) <==> has_key(y, k)
            &&& pairs_match(x, y)
        },
        _ => false,
    }
}

/// Element-by-element equality of two sequences of the same length.
pub open spec fn eq_list(x: Seq<ValueV>, y: Seq<ValueV>) -> bool
    decreases x,
{
    if x.len() <= 0 || y.len() <= 0 {
        true
    } else {
        eq_list(x.drop_last(), y.drop_last()) && eq_value(x.last(), y.last())
    }
}

/// Every pair of `x` finds its key in `y`, bound to a deeply equal value.
pub open spec fn pairs_match(x: Seq<(Seq<char>, ValueV)>, y: Seq<(Seq<char>, ValueV)>) -> bool
    decreases x,
{
    if x.len() <= 0 {
        true
    } else {
        pairs_match(x.drop_last(), y) && match obj_lookup(y, x.last().0) {
            Option::Some(w) => eq_value(x.last().1, w),
            Option::None => false,
        }
    }
}

pub proof fn lemma_eq_list_iff(x: Seq<ValueV>, y: Seq<ValueV>)
    requires
        x.len() == y.len(),
    ensures
        eq_list(x, y) <==> forall|i: int|
            0 <= i < x.len() ==> eq_value(#[trigger] x[i], y[i]),
    decreases x,
{
    if x.len() > 0 {
        lemma_eq_list_iff(x.drop_last(), y.drop_last());
        if eq_list(x, y) {
            assert forall|i: int| 0 <= i < x.len() implies eq_value(#[trigger] x[i], y[i]) by {
                if i < x.len() - 1 {
                    assert(x.drop_last()[i] == x[i]);
                    assert(y.drop_last()[i] == y[i]);
                }
            }
        }
        if forall|i: int| 0 <= i < x.len() ==> eq_value(#[trigger] x[i], y[i]) {
            assert forall|i: int|
                0 <= i < x.drop_last().len() implies eq_value(
                #[trigger] x.drop_last()[i],
                y.drop_last()[i],
            ) by {
                assert(x.drop_last()[i] == x[i]);
                assert(y.drop_last()[i] == y[i]);
            }
            assert(eq_value(x.last(), y.last()));
        }
    }
}

pub proof fn lemma_pairs_match_iff(x: Seq<(Seq<char>, ValueV)>, y: Seq<(Seq<char>, ValueV)>)
    ensures
        pairs_match(x, y) <==> forall|i: int|
            0 <= i < x.len() ==> match obj_lookup(y, (#[trigger] x[i]).0) {
                Option::Some(w) => eq_value(x[i].1, w),
                Option::None => false,
            },
    decreases x,
{
    if x.len() > 0 {
        lemma_pairs_match_iff(x.drop_last(), y);
        if pairs_match(x, y) {
            assert forall|i: int|
                0 <= i < x.len() implies match obj_lookup(y, (#[trigger] x[i]).0) {
                Option::Some(w) => eq_value(x[i].1, w),
                Option::None => false,
            } by {
                if i < x.len() - 1 {
                    assert(x.drop_last()[i] == x[i]);
                }
            }
        }
        if forall|i: int|
            0 <= i < x.len() ==> match obj_lookup(y, (#[trigger] x[i]).0) {
                Option::Some(w) => eq_value(x[i].1, w),
                Option::None => false,
            } {
            assert forall|i: int|
                0 <= i < x.drop_last().len() implies match obj_lookup(
                y,
                (#[trigger] x.drop_last()[i]).0,
            ) {
                Option::Some(w) => eq_value(x.drop_last()[i].1, w),
                Option::None => false,
            } by {
                assert(x.drop_last()[i] == x[i]);
            }
            assert(x[x.len() - 1] == x.last());
        }
    }
}

/// The outcome of an order comparison.
#[derive(Clone, Copy, Debug, PartialEq, Eq, Structural)]
pub enum Cmp {
    Less,
    Equal,
    Greater,
}

pub open spec fn pow10(n: nat) -> int
    decreases n,
{
    if n <= 0 {
        1
    } else {
        10 * pow10((n - 1) as nat)
    }
}

pub proof fn lemma_pow10_pos(n: nat)
    ensures
        pow10(n) >= 1,
    decreases n,
{
    if n > 0 {
        lemma_pow10_pos((n - 1) as nat);
    }
}

pub proof fn lemma_pow10_increases(a: nat, b: nat)
    requires
        a <= b,
    ensures
        pow10(a) <= pow10(b),
    decreases b,
{
    if a < b {
        lemma_pow10_increases(a, (b - 1) as nat);
        lemma_pow10_pos((b - 1) as nat);
    }
}

/// Order of two numbers by their exact value: `a` is `mantissa / 10^scale`,
/// so `a <= b` exactly when `a.mantissa * 10^b.scale <= b.mantissa * 10^a.scale`.
pub open spec fn cmp_number(a: Number, b: Number) -> Cmp {
    let l = a.mantissa * pow10(b.scale as nat);
    let r = b.mantissa * pow10(a.scale as nat);
    if l < r {
        Cmp::Less
    } else if l == r {
        Cmp::Equal
    } else {
        Cmp::Greater
    }
}

/// Lexicographic order of two strings by code point; a proper prefix orders first.
pub open spec fn cmp_str(x: Seq<char>, y: Seq<char>) -> Cmp
    decreases x.len(),
{
    if x.len() <= 0 && y.len() <= 0 {
        Cmp::Equal
    } else if x.len() <= 0 {
        Cmp::Less
    } else if y.len() <= 0 {
        Cmp::Greater
    } else if x.first() == y.first() {
        cmp_str(x.drop_first(), y.drop_first())
    } else if (x.first() as int) < (y.first() as int) {
        Cmp::Less
    } else {
        Cmp::Greater
    }
}

/// Order of two JSON values, where one exists: numbers by magnitude, strings
/// lexicographically by code point, booleans with false before true, arrays of
/// equal length element by element.  Any other pairing has no order.
pub open spec fn cmp_value(a: ValueV, b: ValueV) -> Option<Cmp>
    decreases a,
{
    match (a, b) {
        (ValueV::Number(x), ValueV::Number(y)) => Option::Some(cmp_number(x, y)),
        (ValueV::String(x), ValueV::String(y)) => Option::Some(cmp_str(x, y)),
        (ValueV::Bool(x), ValueV::Bool(y)) => Option::Some(
            if x == y {
                Cmp::Equal
            } else if y {
                Cmp::Less
            } else {
                Cmp::Greater
            },
        ),
        (ValueV::Array(x), ValueV::Array(y)) => if x.len() != y.len() {
            Option::None
        } else {
            cmp_list(x, y)
        },
        _ => Option::None,
    }
}

/// First deciding element-by-element comparison, front to back.
pub open spec fn cmp_list(x: Seq<ValueV>, y: Seq<ValueV>) -> Option<Cmp>
    decreases x,
{
    if x.len() <= 0 || y.len() <= 0 {
        Option::Some(Cmp::Equal)
    } else {
        match cmp_value(x.first(), y.first()) {
            Option::Some(Cmp::Equal) => cmp_list(x.drop_first(), y.drop_first()),
            c => c,
        }
    }
}

/// Stepping an `obj_lookup` over the pair at position `i`.
pub proof fn lemma_obj_lookup_skip(s: Seq<(Seq<char>, ValueV)>, key: Seq<char>, i: int)
    requires
        0 <= i < s.len(),
    ensures
        s[i].0 == key ==> obj_lookup(s.skip(i), key) == Option::Some(s[i].1),
        s[i].0 != key ==> obj_lookup(s.skip(i), key) == obj_lookup(s.skip(i + 1), key),
{
    assert(s.skip(i).len() > 0);
    assert(s.skip(i).first() == s[i]);
    assert(s.skip(i).drop_first() =~= s.skip(i + 1));
}

/// Stepping a `cmp_list` over the elements at position `i`.
pub proof fn lemma_cmp_list_skip(x: Seq<ValueV>, y: Seq<ValueV>, i: int)
    requires
        0 <= i < x.len(),
        0 <= i < y.len(),
    ensures
        cmp_value(x[i], y[i]) == Option::Some(Cmp::Equal) ==> cmp_list(x.skip(i), y.skip(i))
            == cmp_list(x.skip(i + 1), y.skip(i + 1)),
        cmp_value(x[i], y[i]) != Option::Some(Cmp::Equal) ==> cmp_list(x.skip(i), y.skip(i))
            == cmp_value(x[i], y[i]),
{
    assert(x.skip(i).first() == x[i]);
    assert(y.skip(i).first() == y[i]);
    assert(x.skip(i).drop_first() =~= x.skip(i + 1));
    assert(y.skip(i).drop_first() =~= y.skip(i + 1));
}

/// Stepping a `cmp_str` over the characters at position `i`.
pub proof fn lemma_cmp_str_skip(x: Seq<char>, y: Seq<char>, i: int)
    requires
        0 <= i < x.len(),
        0 <= i < y.len(),
    ensures
        x[i] == y[i] ==> cmp_str(x.skip(i), y.skip(i)) == cmp_str(x.skip(i + 1), y.skip(i + 1)),
        x[i] != y[i] && (x[i] as int) < (y[i] as int) ==> cmp_str(x.skip(i), y.skip(i))
            == Cmp::Less,
        x[i] != y[i] && (x[i] as int) > (y[i] as int) ==> cmp_str(x.skip(i), y.skip(i))
            == Cmp::Greater,
{
    assert(x.skip(i).first() == x[i]);
    assert(y.skip(i).first() == y[i]);
    assert(x.skip(i).drop_first() =~= x.skip(i + 1));
    assert(y.skip(i).drop_first() =~= y.skip(i + 1));
}

/// The cross products of a comparison stay inside `i128`.
proof fn lemma_mul_in_i128(m: int, p: int)
    requires
        i64::MIN <= m <= i64::MAX,
        1 <= p <= 0x0de0_b6b3_a764_0000,
    ensures
        i128::MIN <= m * p <= i128::MAX,
{
    assert(m * p <= 0x7fff_ffff_ffff_ffff * 0x0de0_b6b3_a764_0000 && m * p
        >= -0x8000_0000_0000_0000 * 0x0de0_b6b3_a764_0000) by (nonlinear_arith)
        requires
            -0x8000_0000_0000_0000 <= m <= 0x7fff_ffff_ffff_ffff,
            1 <= p <= 0x0de0_b6b3_a764_0000,
    ;
}

/// `10^scale` as a machine integer; the scale bound keeps it inside `i64`.
pub fn pow10_i64(scale: u32) -> (r: i64)
    requires
        scale <= 18,
    ensures
        r == pow10(scale as nat),
        1 <= r <= 0x0de0_b6b3_a764_0000,
{
    proof {
        lemma_pow10_increases(scale as nat, 18);
        lemma_pow10_pos(scale as nat);
        assert(pow10(18) == 0x0de0_b6b3_a764_0000) by {
            reveal_with_fuel(pow10, 20);
        }
    }
    let mut r: i64 = 1;
    let mut i: u32 = 0;
    while i < scale
        invariant
            i <= scale <= 18,
            r == pow10(i as nat),
        decreases scale - i,
    {
        proof {
            lemma_pow10_increases((i + 1) as nat, 18);
            lemma_pow10_pos(i as nat);
            assert(pow10((i + 1) as nat) == 10 * pow10(i as nat));
            assert(pow10(18) == 0x0de0_b6b3_a764_0000) by {
                reveal_with_fuel(pow10, 20);
            }
        }
        r = r * 10;
        i = i + 1;
    }
    r
}

impl Number {
    /// Order of two numbers by exact decimal value.
    pub fn compare(&self, other: &Number) -> (r: Cmp)
        requires
            wf_number(*self),
            wf_number(*other),
        ensures
            r == cmp_number(*self, *other),
    {
        let pl = pow10_i64(other.scale);
        let pr = pow10_i64(self.scale);
        proof {
            lemma_mul_in_i128(self.mantissa as int, pl as int);
            lemma_mul_in_i128(other.mantissa as int, pr as int);
        }
        let l: i128 = (self.mantissa as i128) * (pl as i128);
        let r: i128 = (other.mantissa as i128) * (pr as i128);
        if l < r {
            Cmp::Less
        } else if l == r {
            Cmp::Equal
        } else {
            Cmp::Greater
        }
    }
}

/// Lexicographic order of two strings by code point.
fn cmp_str_exec(x: &str, y: &str) -> (r: Cmp)
    ensures
        r == cmp_str(x@, y@),
{
    let xl = x.unicode_len();
    let yl = y.unicode_len();
    proof {
        assert(x@.skip(0) =~= x@);
        assert(y@.skip(0) =~= y@);
    }
    let mut i: usize = 0;
    loop
        invariant
            0 <= i <= xl,
            i <= yl,
            xl == x@.len(),
            yl == y@.len(),
            cmp_str(x@, y@) == cmp_str(x@.skip(i as int), y@.skip(i as int)),
        decreases xl - i,
    {
        if i >= xl && i >= yl {
            proof {
                assert(x@.skip(i as int).len() == 0 && y@.skip(i as int).len() == 0);
            }
            return Cmp::Equal;
        }
        if i >= xl {
            proof {
                assert(x@.skip(i as int).len() == 0 && y@.skip(i as int).len() > 0);
            }
            return Cmp::Less;
        }
        if i >= yl {
            proof {
                assert(x@.skip(i as int).len() > 0 && y@.skip(i as int).len() == 0);
            }
            return Cmp::Greater;
        }
        let cx = x.get_char(i);
        let cy = y.get_char(i);
        proof {
            lemma_cmp_str_skip(x@, y@, i as int);
        }
        if cx != cy {
            if (cx as u32) < (cy as u32) {
                return Cmp::Less;
            } else {
                return Cmp::Greater;
            }
        }
        i = i + 1;
    }
}

/// The value bound to the first pair with the given key, if any.
pub fn find_key<'a>(kvs: &'a Vec<(String, Value)>, key: &String) -> (r: Option<&'a Value>)
    ensures
        match r {
            Option::Some(v) => obj_lookup(view_pairs(kvs@), key@) == Option::Some(v@),
            Option::None => obj_lookup(view_pairs(kvs@), key@) is None,
        },
{
    let ghost s = view_pairs(kvs@);
    proof {
        lemma_view_pairs(kvs@);
        assert(s.skip(0) =~= s);
    }
    let mut i: usize = 0;
    while i < kvs.len()
        invariant
            0 <= i <= kvs.len(),
            s == view_pairs(kvs@),
            s.len() == kvs.len(),
            obj_lookup(s, key@) == obj_lookup(s.skip(i as int), key@),
        decreases kvs.len() - i,
    {
        proof {
            lemma_view_pairs(kvs@);
            lemma_obj_lookup_skip(s, key@, i as int);
        }
        if kvs[i].0 == *key {
            return Option::Some(&kvs[i].1);
        }
        i = i + 1;
    }
    proof {
        assert(s.skip(i as int).len() == 0);
    }
    Option::None
}


/// Deep equality of two arrays, element by element.
fn eq_arrays(x: &Vec<Value>, y: &Vec<Value>) -> (r: bool)
    ensures
        r == eq_value(ValueV::Array(view_elems(x@)), ValueV::Array(view_elems(y@))),
    decreases x,
{
    let ghost vx = view_elems(x@);
    let ghost vy = view_elems(y@);
    proof {
        lemma_view_elems(x@);
        lemma_view_elems(y@);
    }
    if x.len() != y.len() {
        return false;
    }
    let mut i: usize = 0;
    while i < x.len()
        invariant
            0 <= i <= x.len(),
            x.len() == y.len(),
            vx == view_elems(x@),
            vy == view_elems(y@),
            vx.len() == x.len(),
            vy.len() == y.len(),
            forall|j: int| 0 <= j < i ==> eq_value(#[trigger] vx[j], vy[j]),
        decreases x.len() - i,
    {
        proof {
            lemma_view_elems(x@);
            lemma_view_elems(y@);
            assert(decreases_to!(x => x@));
            assert(decreases_to!(x@ => x@[i as int]));
            assert(decreases_to!(x => x@[i as int]));
        }
        if !x[i].deep_eq(&y[i]) {
            proof {
                assert(vx[i as int] == x@[i as int]@);
                assert(vy[i as int] == y@[i as int]@);
                assert(!eq_value(vx[i as int], vy[i as int]));
                lemma_eq_list_iff(vx, vy);
            }
            return false;
        }
        i = i + 1;
    }
    proof {
        lemma_eq_list_iff(vx, vy);
    }
    true
}

/// Deep equality of two objects: same keys, and a deeply equal value for
/// each key, whatever the insertion order.
fn eq_objects(x: &Vec<(String, Value)>, y: &Vec<(String, Value)>) -> (r: bool)
    ensures
        r == eq_value(ValueV::Object(view_pairs(x@)), ValueV::Object(view_pairs(y@))),
    decreases x,
{
    let ghost vx = view_pairs(x@);
    let ghost vy = view_pairs(y@);
    proof {
        lemma_view_pairs(x@);
        lemma_view_pairs(y@);
    }
    let mut i: usize = 0;
    while i < x.len()
        invariant
            0 <= i <= x.len(),
            vx == view_pairs(x@),
            vy == view_pairs(y@),
            vx.len() == x.len(),
            vy.len() == y.len(),
            forall|j: int|
                0 <= j < i ==> match obj_lookup(vy, (#[trigger] vx[j]).0) {
                    Option::Some(w) => eq_value(vx[j].1, w),
                    Option::None => false,
                },
        decreases x.len() - i,
    {
        let ghost k = vx[i as int].0;
        proof {
            lemma_view_pairs(x@);
            lemma_view_pairs(y@);
        }
        match find_key(y, &x[i].0) {
            Option::None => {
                proof {
                    lemma_obj_lookup_exists(vx, k);
                    assert(vx[i as int].0 == k);
                    assert(has_key(vx, k));
                    assert(!has_key(vy, k));
                }
                return false;
            },
            Option::Some(w) => {
                proof {
                    assert(decreases_to!(x => x@));
                    assert(decreases_to!(x@ => x@[i as int]));
                    assert(decreases_to!(x@[i as int] => x@[i as int].1));
                    assert(decreases_to!(x => x@[i as int].1));
                }
                if !x[i].1.deep_eq(w) {
                    proof {
                        lemma_pairs_match_iff(vx, vy);
                    }
                    return false;
                }
            },
        }
        i = i + 1;
    }
    let mut j: usize = 0;
    while j < y.len()
        invariant
            0 <= j <= y.len(),
            vx == view_pairs(x@),
            vy == view_pairs(y@),
            vx.len() == x.len(),
            vy.len() == y.len(),
            forall|l: int|
                0 <= l < vx.len() ==> match obj_lookup(vy, (#[trigger] vx[l]).0) {
                    Option::Some(w) => eq_value(vx[l].1, w),
                    Option::None => false,
                },
            forall|l: int| 0 <= l < j ==> has_key(vx, (#[trigger] vy[l]).0),
        decreases y.len() - j,
    {
        let ghost k = vy[j as int].0;
        proof {
            lemma_view_pairs(x@);
            lemma_view_pairs(y@);
        }
        match find_key(x, &y[j].0) {
            Option::None => {
                proof {
                    lemma_obj_lookup_exists(vy, k);
                    assert(vy[j as int].0 == k);
                    assert(has_key(vy, k));
                    assert(!has_key(vx, k));
                }
                return false;
            },
            Option::Some(_) => {},
        }
        j = j + 1;
    }
    proof {
        assert forall|k: Seq<char>| #[trigger] has_key(vx, k) implies has_key(vy, k) by {
            lemma_obj_lookup_exists(vx, k);
            let l = choose|l: int| 0 <= l < vx.len() && (#[trigger] vx[l].0) == k;
            assert(obj_lookup(vy, vx[l].0) is Some);
        }
        assert forall|k: Seq<char>| #[trigger] has_key(vy, k) implies has_key(vx, k) by {
            lemma_obj_lookup_exists(vy, k);
            let l = choose|l: int| 0 <= l < vy.len() && (#[trigger] vy[l].0) == k;
            assert(has_key(vx, vy[l].0));
        }
        lemma_pairs_match_iff(vx, vy);
    }
    true
}

/// Order of two arrays of equal length, element by element.
fn cmp_arrays(x: &Vec<Value>, y: &Vec<Value>) -> (r: Option<Cmp>)
    requires
        wf_value(ValueV::Array(view_elems(x@))),
        wf_value(ValueV::Array(view_elems(y@))),
    ensures
        r == cmp_value(ValueV::Array(view_elems(x@)), ValueV::Array(view_elems(y@))),
    decreases x,
{
    let ghost vx = view_elems(x@);
    let ghost vy = view_elems(y@);
    proof {
        lemma_view_elems(x@);
        lemma_view_elems(y@);
    }
    if x.len() != y.len() {
        return Option::None;
    }
    proof {
        assert(vx.skip(0) =~= vx);
        assert(vy.skip(0) =~= vy);
    }
    let mut i: usize = 0;
    while i < x.len()
        invariant
            0 <= i <= x.len(),
            x.len() == y.len(),
            vx == view_elems(x@),
            vy == view_elems(y@),
            vx.len() == x.len(),
            vy.len() == y.len(),
            wf_list(vx),
            wf_list(vy),
            cmp_list(vx, vy) == cmp_list(vx.skip(i as int), vy.skip(i as int)),
        decreases x.len() - i,
    {
        proof {
            lemma_view_elems(x@);
            lemma_view_elems(y@);
            assert(decreases_to!(x => x@));
            assert(decreases_to!(x@ => x@[i as int]));
            assert(decreases_to!(x => x@[i as int]));
            lemma_wf_list_index(vx, i as int);
            lemma_wf_list_index(vy, i as int);
            lemma_cmp_list_skip(vx, vy, i as int);
        }
        let c = x[i].compare(&y[i]);
        match c {
            Option::Some(Cmp::Equal) => {},
            other_c => {
                return other_c;
            },
        }
        i = i + 1;
    }
    proof {
        assert(vx.skip(i as int).len() == 0);
    }
    Option::Some(Cmp::Equal)
}

/// A deep copy of an array's elements.
pub(crate) fn dup_list(a: &Vec<Value>) -> (r: Vec<Value>)
    ensures
        view_elems(r@) == view_elems(a@),
    decreases a,
{
    let mut out: Vec<Value> = Vec::new();
    let mut i: usize = 0;
    while i < a.len()
        invariant
            0 <= i <= a.len(),
            out@.len() == i,
            forall|j: int| 0 <= j < i ==> (#[trigger] out@[j])@ == a@[j]@,
        decreases a.len() - i,
    {
        proof {
            assert(decreases_to!(a => a@));
            assert(decreases_to!(a@ => a@[i as int]));
            assert(decreases_to!(a => a@[i as int]));
        }
        let d = a[i].duplicate();
        out.push(d);
        i = i + 1;
    }
    proof {
        lemma_view_elems(out@);
        lemma_view_elems(a@);
        assert forall|j: int| 0 <= j < view_elems(out@).len() implies view_elems(out@)[j]
            == view_elems(a@)[j] by {
            assert(out@[j]@ == a@[j]@);
        }
        assert(view_elems(out@) =~= view_elems(a@));
    }
    out
}

/// A deep copy of an object's pairs.
pub(crate) fn dup_pairs(kvs: &Vec<(String, Value)>) -> (r: Vec<(String, Value)>)
    ensures
        view_pairs(r@) == view_pairs(kvs@),
    decreases kvs,
{
    let mut out: Vec<(String, Value)> = Vec::new();
    let mut i: usize = 0;
    while i < kvs.len()
        invariant
            0 <= i <= kvs.len(),
            out@.len() == i,
            forall|j: int|
                0 <= j < i ==> (#[trigger] out@[j]).0@ == kvs@[j].0@ && out@[j].1@
                    == kvs@[j].1@,
        decreases kvs.len() - i,
    {
        proof {
            assert(decreases_to!(kvs => kvs@));
            assert(decreases_to!(kvs@ => kvs@[i as int]));
            assert(decreases_to!(kvs@[i as int] => kvs@[i as int].1));
            assert(decreases_to!(kvs => kvs@[i as int].1));
        }
        let k = kvs[i].0.clone();
        let d = kvs[i].1.duplicate();
        out.push((k, d));
        i = i + 1;
    }
    proof {
        lemma_view_pairs(out@);
        lemma_view_pairs(kvs@);
        assert forall|j: int| 0 <= j < view_pairs(out@).len() implies view_pairs(out@)[j]
            == view_pairs(kvs@)[j] by {
            assert(out@[j].0@ == kvs@[j].0@);
            assert(out@[j].1@ == kvs@[j].1@);
        }
        assert(view_pairs(out@) =~= view_pairs(kvs@));
    }
    out
}

/// Whether an array is well formed.
fn wf_list_exec(a: &Vec<Value>) -> (r: bool)
    ensures
        r == wf_value(ValueV::Array(view_elems(a@))),
    decreases a,
{
    let ghost va = view_elems(a@);
    proof {
        lemma_view_elems(a@);
    }
    let mut i: usize = 0;
    while i < a.len()
        invariant
            0 <= i <= a.len(),
            va == view_elems(a@),
            va.len() == a.len(),
            forall|j: int| 0 <= j < i ==> wf_value(#[trigger] va[j]),
        decreases a.len() - i,
    {
        proof {
            lemma_view_elems(a@);
            assert(decreases_to!(a => a@));
            assert(decreases_to!(a@ => a@[i as int]));
            assert(decreases_to!(a => a@[i as int]));
        }
        if !a[i].well_formed() {
            proof {
                if wf_list(va) {
                    lemma_wf_list_index(va, i as int);
                }
            }
            return false;
        }
        i = i + 1;
    }
    proof {
        lemma_wf_list_from_index(va);
    }
    true
}

/// Whether an object is well formed, its key uniqueness included.
fn wf_obj_exec(kvs: &Vec<(String, Value)>) -> (r: bool)
    ensures
        r == wf_value(ValueV::Object(view_pairs(kvs@))),
    decreases kvs,
{
    let ghost vk = view_pairs(kvs@);
    proof {
        lemma_view_pairs(kvs@);
    }
    let mut i: usize = 0;
    while i < kvs.len()
        invariant
            0 <= i <= kvs.len(),
            vk == view_pairs(kvs@),
            vk.len() == kvs.len(),
            forall|j: int| 0 <= j < i ==> wf_value((#[trigger] vk[j]).1),
            forall|l: int, j: int|
                0 <= l < j < i ==> (#[trigger] vk[l].0) != (#[trigger] vk[j].0),
        decreases kvs.len() - i,
    {
        proof {
            lemma_view_pairs(kvs@);
            assert(decreases_to!(kvs => kvs@));
            assert(decreases_to!(kvs@ => kvs@[i as int]));
            assert(decreases_to!(kvs@[i as int] => kvs@[i as int].1));
            assert(decreases_to!(kvs => kvs@[i as int].1));
        }
        let mut l: usize = 0;
        while l < i
            invariant
                0 <= l <= i < kvs.len(),
                vk == view_pairs(kvs@),
                vk.len() == kvs.len(),
                forall|m: int| 0 <= m < l ==> (#[trigger] vk[m].0) != vk[i as int].0,
            decreases i - l,
        {
            proof {
                lemma_view_pairs(kvs@);
            }
            if kvs[l].0 == kvs[i].0 {
                proof {
                    assert(vk[l as int].0 == vk[i as int].0);
                    assert(!unique_keys(vk));
                }
                return false;
            }
            l = l + 1;
        }
        if !kvs[i].1.well_formed() {
            proof {
                if wf_obj(vk) {
                    lemma_wf_obj_index(vk, i as int);
                }
            }
            return false;
        }
        i = i + 1;
    }
    proof {
        lemma_wf_obj_from_index(vk);
    }
    true
}

impl Value {
    /// Deep equality: arrays element by element in order, objects key by key
    /// regardless of order, numbers by exact decimal representation.
    pub fn deep_eq(&self, other: &Value) -> (r: bool)
        ensures
            r == eq_value(self@, other@),
        decreases self,
    {
        match self {
            Value::Null => match other {
                Value::Null => true,
                _ => false,
            },
            Value::Bool(x) => match other {
                Value::Bool(y) => *x == *y,
                _ => false,
            },
            Value::Number(x) => match other {
                Value::Number(y) => *x == *y,
                _ => false,
            },
            Value::String(x) => match other {
                Value::String(y) => x.eq(y),
                _ => false,
            },
            Value::Array(x) => match other {
                Value::Array(y) => eq_arrays(x, y),
                _ => false,
            },
            Value::Object(x) => match other {
                Value::Object(y) => eq_objects(x, y),
                _ => false,
            },
        }
    }

    /// Order of two values, where one exists.
    pub fn compare(&self, other: &Value) -> (r: Option<Cmp>)
        requires
            wf_value(self@),
            wf_value(other@),
        ensures
            r == cmp_value(self@, other@),
        decreases self,
    {
        match self {
            Value::Number(x) => match other {
                Value::Number(y) => Option::Some(x.compare(y)),
                _ => Option::None,
            },
            Value::String(x) => match other {
                Value::String(y) => Option::Some(cmp_str_exec(x.as_str(), y.as_str())),
                _ => Option::None,
            },
            Value::Bool(x) => match other {
                Value::Bool(y) => Option::Some(
                    if *x == *y {
                        Cmp::Equal
                    } else if *y {
                        Cmp::Less
                    } else {
                        Cmp::Greater
                    },
                ),
                _ => Option::None,
            },
            Value::Array(x) => match other {
                Value::Array(y) => cmp_arrays(x, y),
                _ => Option::None,
            },
            _ => Option::None,
        }
    }

    /// A deep copy with the same model.
    pub fn duplicate(&self) -> (r: Value)
        ensures
            r@ == self@,
        decreases self,
    {
        match self {
            Value::Null => Value::Null,
            Value::Bool(b) => Value::Bool(*b),
            Value::Number(n) => Value::Number(*n),
            Value::String(s) => Value::String(s.clone()),
            Value::Array(a) => Value::Array(dup_list(a)),
            Value::Object(kvs) => Value::Object(dup_pairs(kvs)),
        }
    }

    /// Whether the value is well formed: a caller can test this before
    /// handing a document to the evaluator.
    pub fn well_formed(&self) -> (r: bool)
        ensures
            r == wf_value(self@),
        decreases self,
    {
        match self {
            Value::Null => true,
            Value::Bool(_) => true,
            Value::Number(n) => n.scale <= 18,
            Value::String(_) => true,
            Value::Array(a) => wf_list_exec(a),
            Value::Object(kvs) => wf_obj_exec(kvs),
        }
    }
}


/// An object has the key exactly when some pair carries it.
pub proof fn lemma_obj_lookup_exists(s: Seq<(Seq<char>, ValueV)>, key: Seq<char>)
    ensures
        obj_lookup(s, key) is Some <==> exists|i: int|
            0 <= i < s.len() && (#[trigger] s[i].0) == key,
    decreases s,
{
    if s.len() > 0 {
        lemma_obj_lookup_exists(s.drop_first(), key);
        if s.first().0 == key {
            assert(s[0].0 == key);
        } else if obj_lookup(s.drop_first(), key) is Some {
            let i = choose|i: int|
                0 <= i < s.drop_first().len() && (#[trigger] s.drop_first()[i].0) == key;
            assert(s[i + 1].0 == key);
        } else {
            assert forall|i: int| 0 <= i < s.len() implies (#[trigger] s[i].0) != key by {
                if i > 0 {
                    assert(s.drop_first()[i - 1] == s[i]);
                }
            }
        }
    }
}

} // verus!
