//! The values that pipelines exchange.

use crate::strmap::{ascending, lemma_map_lookup, listing, lookup, map_values, put, StrMap};
use crate::text::same_text;
use vstd::prelude::*;

verus! {

/// A floating-point number, held as the decimal text that the standard library displays for it:
/// the shortest that reads back as the same number, or `NaN`, `inf` or `-inf`.
#[derive(Debug)]
pub struct Float {
    pub text: String,
}

/// A value that flows through a pipeline.
#[derive(Debug)]
pub enum Value {
    Null,
    Bool(bool),
    Int(i64),
    Float(Float),
    String(String),
    Bytes(Vec<u8>),
    List(Vec<Value>),
    Table(Vec<Value>),
    Dict(StrMap<Value>),
    Object(StrMap<Value>),
}

/// What a [`Value`] stands for.
pub enum Val {
    Null,
    Bool(bool),
    Int(i64),
    Float(Seq<char>),
    Text(Seq<char>),
    Bytes(Seq<u8>),
    List(Seq<Val>),
    Table(Seq<Val>),
    Dict(Seq<(Seq<char>, Val)>),
    Object(Seq<(Seq<char>, Val)>),
}

impl Value {
    pub open spec fn view(&self) -> Val
        decreases self,
    {
        match self {
            Value::Null => Val::Null,
            Value::Bool(b) => Val::Bool(*b),
            Value::Int(i) => Val::Int(*i),
            Value::Float(f) => Val::Float(f.text@),
            Value::String(s) => Val::Text(s@),
            Value::Bytes(b) => Val::Bytes(b@),
            Value::List(v) => Val::List(list_view(*v)),
            Value::Table(v) => Val::Table(list_view(*v)),
            Value::Dict(m) => Val::Dict(dict_view(*m)),
            Value::Object(m) => Val::Object(dict_view(*m)),
        }
    }
}

/// What each value of a list stands for.
pub open spec fn list_view(v: Vec<Value>) -> Seq<Val>
    decreases v,
{
    Seq::new(
        v@.len(),
        |i: int|
            if 0 <= i < v@.len() {
                v@[i].view()
            } else {
                Val::Null
            },
    )
}

/// What the entries of a map stand for.
pub closed spec fn dict_view(m: StrMap<Value>) -> Seq<(Seq<char>, Val)>
    decreases m,
{
    Seq::new(
        m.entries@.len(),
        |i: int|
            if 0 <= i < m.entries@.len() {
                (m.entries@[i].0@, m.entries@[i].1.view())
            } else {
                (Seq::empty(), Val::Null)
            },
    )
}

/// What each value of a sequence stands for.
pub open spec fn vals(s: Seq<Value>) -> Seq<Val> {
    Seq::new(s.len(), |i: int| s[i].view())
}

/// What each entry of a sequence stands for.
pub open spec fn pair_vals(s: Seq<(Seq<char>, Value)>) -> Seq<(Seq<char>, Val)> {
    Seq::new(s.len(), |i: int| (s[i].0, s[i].1.view()))
}

/// The entries of a map stand for its keys and what its values stand for.
pub proof fn lemma_dict_view(m: StrMap<Value>)
    ensures
        dict_view(m) == pair_vals(m.pairs()),
{
    m.lemma_pairs();
    assert(dict_view(m) =~= pair_vals(m.pairs()));
}

/// Binding a key and taking what the values stand for can be done in either order.
pub proof fn lemma_pair_vals_put(s: Seq<(Seq<char>, Value)>, key: Seq<char>, value: Value)
    ensures
        pair_vals(put(s, key, value)) == put(pair_vals(s), key, value.view()),
    decreases s.len(),
{
    let p = pair_vals(s);
    if s.len() > 0 {
        assert(p.drop_first() =~= pair_vals(s.drop_first()));
        lemma_pair_vals_put(s.drop_first(), key, value);
    }
    assert(pair_vals(put(s, key, value)) =~= put(p, key, value.view()));
}

/// What is found among what values stand for is what the value found stands for.
pub proof fn lemma_pair_vals_lookup(s: Seq<(Seq<char>, Value)>, key: Seq<char>)
    ensures
        lookup(pair_vals(s), key) == match lookup(s, key) {
            Some(v) => Some(v.view()),
            None => None,
        },
{
    let f = |v: Value| v.view();
    lemma_map_lookup(s, f, key);
    assert(map_values(s, f) =~= pair_vals(s));
}

/// Binds a key to a value.
pub fn bind(map: &mut StrMap<Value>, key: &str, value: Value)
    ensures
        pair_vals(final(map).pairs()) == put(pair_vals(old(map).pairs()), key@, value@),
{
    proof {
        lemma_pair_vals_put(map.pairs(), key@, value);
    }
    map.insert(key.to_owned(), value);
}

/// Whether two numbers are equal: both zero, whatever their signs, or the same number. No number
/// equals one that is not a number.
pub open spec fn float_eq(a: Seq<char>, b: Seq<char>) -> bool {
    (a == b && a != "NaN"@) || (zero_text(a) && zero_text(b))
}

/// Whether the text is that of a zero.
pub open spec fn zero_text(a: Seq<char>) -> bool {
    a == "0"@ || a == "-0"@
}

/// Whether two values are equal.
pub open spec fn val_eq(a: Val, b: Val) -> bool
    decreases a,
{
    match (a, b) {
        (Val::Null, Val::Null) => true,
        (Val::Bool(x), Val::Bool(y)) => x == y,
        (Val::Int(x), Val::Int(y)) => x == y,
        (Val::Float(x), Val::Float(y)) => float_eq(x, y),
        (Val::Text(x), Val::Text(y)) => x == y,
        (Val::Bytes(x), Val::Bytes(y)) => x == y,
        (Val::List(x), Val::List(y)) => x.len() == y.len() && forall|i: int|
            0 <= i < x.len() ==> val_eq(#[trigger] x[i], y[i]),
        (Val::Table(x), Val::Table(y)) => x.len() == y.len() && forall|i: int|
            0 <= i < x.len() ==> val_eq(#[trigger] x[i], y[i]),
        (Val::Dict(x), Val::Dict(y)) => x.len() == y.len() && forall|i: int|
            0 <= i < x.len() ==> (#[trigger] x[i]).0 == y[i].0 && val_eq(x[i].1, y[i].1),
        (Val::Object(x), Val::Object(y)) => x.len() == y.len() && forall|i: int|
            0 <= i < x.len() ==> (#[trigger] x[i]).0 == y[i].0 && val_eq(x[i].1, y[i].1),
        _ => false,
    }
}

fn same_float(a: &Float, b: &Float) -> (r: bool)
    ensures
        r == float_eq(a.text@, b.text@),
{
    let a_zero = same_text(a.text.as_str(), "0") || same_text(a.text.as_str(), "-0");
    let b_zero = same_text(b.text.as_str(), "0") || same_text(b.text.as_str(), "-0");
    (a_zero && b_zero) || (same_text(a.text.as_str(), b.text.as_str()) && !same_text(
        a.text.as_str(),
        "NaN",
    ))
}

fn same_bytes(a: &Vec<u8>, b: &Vec<u8>) -> (r: bool)
    ensures
        r == (a@ == b@),
{
    if a.len() != b.len() {
        return false;
    }
    let mut i: usize = 0;
    while i < a.len()
        invariant
            i <= a@.len(),
            a@.len() == b@.len(),
            forall|j: int| 0 <= j < i ==> a@[j] == b@[j],
        decreases a.len() - i,
    {
        if a[i] != b[i] {
            return false;
        }
        i += 1;
    }
    assert(a@ =~= b@);
    true
}

fn same_list(a: &Vec<Value>, b: &Vec<Value>) -> (r: bool)
    ensures
        r == (list_view(*a).len() == list_view(*b).len() && forall|i: int|
            0 <= i < list_view(*a).len() ==> val_eq(#[trigger] list_view(*a)[i], list_view(*b)[i])),
    decreases a,
{
    if a.len() != b.len() {
        return false;
    }
    let mut k: usize = 0;
    while k < a.len()
        invariant
            k <= a@.len(),
            a@.len() == b@.len(),
            forall|i: int|
                0 <= i < k ==> val_eq(#[trigger] list_view(*a)[i], list_view(*b)[i]),
        decreases a.len() - k,
    {
        let same = same_value(&a[k], &b[k]);
        assert(list_view(*a)[k as int] == a@[k as int].view());
        assert(list_view(*b)[k as int] == b@[k as int].view());
        if !same {
            assert(!val_eq(list_view(*a)[k as int], list_view(*b)[k as int]));
            return false;
        }
        k += 1;
    }
    true
}

fn same_dict(a: &StrMap<Value>, b: &StrMap<Value>) -> (r: bool)
    ensures
        r == (dict_view(*a).len() == dict_view(*b).len() && forall|i: int|
            0 <= i < dict_view(*a).len() ==> (#[trigger] dict_view(*a)[i]).0 == dict_view(*b)[i].0
                && val_eq(dict_view(*a)[i].1, dict_view(*b)[i].1)),
    decreases a,
{
    if a.entries.len() != b.entries.len() {
        return false;
    }
    let mut k: usize = 0;
    while k < a.entries.len()
        invariant
            k <= a.entries@.len(),
            a.entries@.len() == b.entries@.len(),
            forall|i: int|
                0 <= i < k ==> (#[trigger] dict_view(*a)[i]).0 == dict_view(*b)[i].0 && val_eq(
                    dict_view(*a)[i].1,
                    dict_view(*b)[i].1,
                ),
        decreases a.entries.len() - k,
    {
        let (ka, va) = &a.entries[k];
        let (kb, vb) = &b.entries[k];
        let same_key = same_text(ka.as_str(), kb.as_str());
        let same = same_value(va, vb);
        assert(dict_view(*a)[k as int] == (ka@, va.view()));
        assert(dict_view(*b)[k as int] == (kb@, vb.view()));
        if !same_key || !same {
            return false;
        }
        k += 1;
    }
    true
}

/// Whether two values are equal.
pub fn same_value(a: &Value, b: &Value) -> (r: bool)
    ensures
        r == val_eq(a@, b@),
    decreases a,
{
    match (a, b) {
        (Value::Null, Value::Null) => true,
        (Value::Bool(x), Value::Bool(y)) => *x == *y,
        (Value::Int(x), Value::Int(y)) => *x == *y,
        (Value::Float(x), Value::Float(y)) => same_float(x, y),
        (Value::String(x), Value::String(y)) => same_text(x.as_str(), y.as_str()),
        (Value::Bytes(x), Value::Bytes(y)) => same_bytes(x, y),
        (Value::List(x), Value::List(y)) => same_list(x, y),
        (Value::Table(x), Value::Table(y)) => same_list(x, y),
        (Value::Dict(x), Value::Dict(y)) => same_dict(x, y),
        (Value::Object(x), Value::Object(y)) => same_dict(x, y),
        _ => false,
    }
}

impl PartialEq for Value {
    fn eq(&self, other: &Self) -> (r: bool) {
        same_value(self, other)
    }
}

impl vstd::std_specs::cmp::PartialEqSpecImpl for Value {
    open spec fn obeys_eq_spec() -> bool {
        true
    }

    open spec fn eq_spec(&self, other: &Self) -> bool {
        val_eq(self.view(), other.view())
    }
}

impl Default for Value {
    fn default() -> (r: Self)
        ensures
            r@ == Val::Null,
    {
        Value::Null
    }
}

/// A copy of a list of values.
pub fn copy_list(v: &Vec<Value>) -> (r: Vec<Value>)
    ensures
        list_view(r) == list_view(*v),
    decreases v,
{
    let mut r: Vec<Value> = Vec::new();
    let mut k: usize = 0;
    while k < v.len()
        invariant
            k <= v@.len(),
            r@.len() == k,
            forall|i: int| 0 <= i < k ==> (#[trigger] r@[i]).view() == v@[i].view(),
        decreases v.len() - k,
    {
        r.push(copy_value(&v[k]));
        k += 1;
    }
    assert(list_view(r) =~= list_view(*v));
    r
}

/// A copy of a map of values.
pub fn copy_dict(m: &StrMap<Value>) -> (r: StrMap<Value>)
    ensures
        dict_view(r) == dict_view(*m),
    decreases m,
{
    let mut entries: Vec<(String, Value)> = Vec::new();
    let mut k: usize = 0;
    m.check_order();
    proof {
        m.lemma_pairs();
    }
    while k < m.entries.len()
        invariant
            k <= m.entries@.len(),
            entries@.len() == k,
            forall|i: int|
                0 <= i < k ==> (#[trigger] entries@[i]).0@ == m.entries@[i].0@
                    && entries@[i].1.view() == m.entries@[i].1.view(),
        decreases m.entries.len() - k,
    {
        let (key, value) = &m.entries[k];
        entries.push((key.clone(), copy_value(value)));
        k += 1;
    }
    let ghost s = listing(entries@);
    assert(ascending(s)) by {
        assert forall|i: int, j: int| 0 <= i < j < s.len() implies crate::text::text_lt(
            #[trigger] s[i].0,
            #[trigger] s[j].0,
        ) by {
            assert(s[i].0 == m.pairs()[i].0 && s[j].0 == m.pairs()[j].0);
        }
    }
    let r = StrMap::from_entries(entries);
    proof {
        lemma_dict_view(r);
        lemma_dict_view(*m);
        assert(dict_view(r) =~= dict_view(*m));
    }
    r
}

/// A copy of a value.
pub fn copy_value(v: &Value) -> (r: Value)
    ensures
        r@ == v@,
    decreases v,
{
    match v {
        Value::Null => Value::Null,
        Value::Bool(b) => Value::Bool(*b),
        Value::Int(i) => Value::Int(*i),
        Value::Float(f) => Value::Float(Float { text: f.text.clone() }),
        Value::String(s) => Value::String(s.clone()),
        Value::Bytes(b) => {
            let c: Vec<u8> = b.clone();
            assert(c@ =~= b@);
            Value::Bytes(c)
        },
        Value::List(l) => Value::List(copy_list(l)),
        Value::Table(l) => Value::Table(copy_list(l)),
        Value::Dict(m) => Value::Dict(copy_dict(m)),
        Value::Object(m) => Value::Object(copy_dict(m)),
    }
}

impl Clone for Value {
    fn clone(&self) -> (r: Self)
        ensures
            r@ == self@,
    {
        copy_value(self)
    }
}

impl Value {
    pub fn as_bool(&self) -> (r: Option<bool>)
        ensures
            r == match self@ {
                Val::Bool(b) => Some(b),
                _ => None,
            },
    {
        match self {
            Value::Bool(v) => Some(*v),
            _ => None,
        }
    }

    pub fn as_i64(&self) -> (r: Option<i64>)
        ensures
            r == match self@ {
                Val::Int(i) => Some(i),
                _ => None,
            },
    {
        match self {
            Value::Int(v) => Some(*v),
            _ => None,
        }
    }

    /// The number, if the value is a floating-point one.
    pub fn as_f64(&self) -> (r: Option<&Float>)
        ensures
            match r {
                Some(f) => self@ == Val::Float(f.text@),
                None => !(self@ is Float),
            },
    {
        match self {
            Value::Float(v) => Some(v),
            _ => None,
        }
    }

    pub fn as_str(&self) -> (r: Option<&str>)
        ensures
            match r {
                Some(s) => self@ == Val::Text(s@),
                None => !(self@ is Text),
            },
    {
        match self {
            Value::String(v) => Some(v.as_str()),
            _ => None,
        }
    }

    /// The bytes, or the UTF-8 bytes of a text.
    pub fn as_bytes(&self) -> (r: Option<&[u8]>)
        ensures
            match r {
                Some(b) => match self@ {
                    Val::Bytes(s) => b@ == s,
                    Val::Text(s) => b@ == vstd::utf8::encode_utf8(s),
                    _ => false,
                },
                None => !(self@ is Bytes) && !(self@ is Text),
            },
    {
        match self {
            Value::Bytes(v) => Some(v.as_slice()),
            Value::String(v) => Some(v.as_str().as_bytes()),
            _ => None,
        }
    }

    /// The items of a list or a table.
    pub fn as_list(&self) -> (r: Option<&[Value]>)
        ensures
            match r {
                Some(s) => self@ == Val::List(vals(s@)) || self@ == Val::Table(vals(s@)),
                None => !(self@ is List) && !(self@ is Table),
            },
    {
        match self {
            Value::List(v) => {
                assert(vals(v@) =~= list_view(*v));
                Some(v.as_slice())
            },
            Value::Table(v) => {
                assert(vals(v@) =~= list_view(*v));
                Some(v.as_slice())
            },
            _ => None,
        }
    }

    pub fn as_table(&self) -> (r: Option<&[Value]>)
        ensures
            match r {
                Some(s) => self@ == Val::Table(vals(s@)),
                None => !(self@ is Table),
            },
    {
        match self {
            Value::Table(v) => {
                assert(vals(v@) =~= list_view(*v));
                Some(v.as_slice())
            },
            _ => None,
        }
    }

    /// The entries of a map or an object.
    pub fn as_map(&self) -> (r: Option<&StrMap<Value>>)
        ensures
            match r {
                Some(m) => self@ == Val::Dict(pair_vals(m.pairs())) || self@ == Val::Object(
                    pair_vals(m.pairs()),
                ),
                None => !(self@ is Dict) && !(self@ is Object),
            },
    {
        match self {
            Value::Dict(m) => {
                proof {
                    lemma_dict_view(*m);
                }
                Some(m)
            },
            Value::Object(m) => {
                proof {
                    lemma_dict_view(*m);
                }
                Some(m)
            },
            _ => None,
        }
    }

    /// The entries of an object or a map.
    pub fn as_object(&self) -> (r: Option<&StrMap<Value>>)
        ensures
            match r {
                Some(m) => self@ == Val::Dict(pair_vals(m.pairs())) || self@ == Val::Object(
                    pair_vals(m.pairs()),
                ),
                None => !(self@ is Dict) && !(self@ is Object),
            },
    {
        self.as_map()
    }
}

/// Whether a value holds no floating-point number.
pub open spec fn floatless(v: Val) -> bool
    decreases v,
{
    match v {
        Val::Float(_) => false,
        Val::List(s) => forall|i: int| 0 <= i < s.len() ==> floatless(#[trigger] s[i]),
        Val::Table(s) => forall|i: int| 0 <= i < s.len() ==> floatless(#[trigger] s[i]),
        Val::Dict(s) => forall|i: int| 0 <= i < s.len() ==> floatless((#[trigger] s[i]).1),
        Val::Object(s) => forall|i: int| 0 <= i < s.len() ==> floatless((#[trigger] s[i]).1),
        _ => true,
    }
}

/// Values without floating-point numbers are equal if and only if they are the same.
pub proof fn lemma_equal_values(a: Val, b: Val)
    requires
        floatless(a),
    ensures
        val_eq(a, b) <==> a == b,
    decreases a,
{
    match (a, b) {
        (Val::List(x), Val::List(y)) => {
            assert forall|i: int| 0 <= i < x.len() implies (val_eq(#[trigger] x[i], y[i]) <==> x[i]
                == y[i]) by {
                lemma_equal_values(x[i], y[i]);
            }
            if val_eq(a, b) {
                assert(x =~= y);
            }
        },
        (Val::Table(x), Val::Table(y)) => {
            assert forall|i: int| 0 <= i < x.len() implies (val_eq(#[trigger] x[i], y[i]) <==> x[i]
                == y[i]) by {
                lemma_equal_values(x[i], y[i]);
            }
            if val_eq(a, b) {
                assert(x =~= y);
            }
        },
        (Val::Dict(x), Val::Dict(y)) => {
            assert forall|i: int| 0 <= i < x.len() implies (val_eq((#[trigger] x[i]).1, y[i].1)
                <==> x[i].1 == y[i].1) by {
                lemma_equal_values(x[i].1, y[i].1);
            }
            if val_eq(a, b) {
                assert forall|i: int| 0 <= i < x.len() implies x[i] == y[i] by {
                    assert(x[i].0 == y[i].0 && val_eq(x[i].1, y[i].1));
                }
                assert(x =~= y);
            }
        },
        (Val::Object(x), Val::Object(y)) => {
            assert forall|i: int| 0 <= i < x.len() implies (val_eq((#[trigger] x[i]).1, y[i].1)
                <==> x[i].1 == y[i].1) by {
                lemma_equal_values(x[i].1, y[i].1);
            }
            if val_eq(a, b) {
                assert forall|i: int| 0 <= i < x.len() implies x[i] == y[i] by {
                    assert(x[i].0 == y[i].0 && val_eq(x[i].1, y[i].1));
                }
                assert(x =~= y);
            }
        },
        _ => {},
    }
}

/// Floating-point numbers are equal if they have the same text, and both zeros are equal; but what is
/// no number is not even equal to itself.
pub proof fn lemma_equal_floats(a: Seq<char>, b: Seq<char>)
    ensures
        val_eq(Val::Float(a), Val::Float(b)) == val_eq(Val::Float(b), Val::Float(a)),
        a == b && a != "NaN"@ ==> val_eq(Val::Float(a), Val::Float(b)),
        a == "NaN"@ ==> !val_eq(Val::Float(a), Val::Float(b)),
        (a == "0"@ || a == "-0"@) && (b == "0"@ || b == "-0"@) ==> val_eq(
            Val::Float(a),
            Val::Float(b),
        ),
        a != b && a != "0"@ && a != "-0"@ ==> !val_eq(Val::Float(a), Val::Float(b)),
{
    reveal_strlit("NaN");
    reveal_strlit("0");
    reveal_strlit("-0");
    assert("NaN"@.len() == 3 && "0"@.len() == 1 && "-0"@.len() == 2);
}

} // verus!
