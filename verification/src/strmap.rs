//! A map from text to values, kept as entries in ascending key order.

use crate::text::{order_text, Order};
use crate::text::{lemma_text_lt_irreflexive, lemma_text_lt_total, lemma_text_lt_transitive, text_lt};
use vstd::prelude::*;

verus! {

/// Whether the keys ascend strictly, so that no key occurs twice.
pub open spec fn ascending<V>(s: Seq<(Seq<char>, V)>) -> bool {
    forall|i: int, j: int|
        0 <= i < j < s.len() ==> text_lt(#[trigger] s[i].0, #[trigger] s[j].0)
}

/// The value under a key, if the key occurs.
pub open spec fn lookup<V>(s: Seq<(Seq<char>, V)>, key: Seq<char>) -> Option<V>
    decreases s.len(),
{
    if s.len() == 0 {
        None
    } else if s[0].0 == key {
        Some(s[0].1)
    } else {
        lookup(s.drop_first(), key)
    }
}

/// The entries with `key` bound to `value`, in key order.
pub open spec fn put<V>(s: Seq<(Seq<char>, V)>, key: Seq<char>, value: V) -> Seq<(Seq<char>, V)>
    decreases s.len(),
{
    if s.len() == 0 || text_lt(key, s[0].0) {
        seq![(key, value)] + s
    } else if s[0].0 == key {
        seq![(key, value)] + s.drop_first()
    } else {
        seq![s[0]] + put(s.drop_first(), key, value)
    }
}

/// The entries without `key`.
pub open spec fn without<V>(s: Seq<(Seq<char>, V)>, key: Seq<char>) -> Seq<(Seq<char>, V)>
    decreases s.len(),
{
    if s.len() == 0 {
        s
    } else if s[0].0 == key {
        s.drop_first()
    } else {
        seq![s[0]] + without(s.drop_first(), key)
    }
}

/// A key that occurs at position `i` is found there.
pub proof fn lemma_lookup_at<V>(s: Seq<(Seq<char>, V)>, i: int)
    requires
        ascending(s),
        0 <= i < s.len(),
    ensures
        lookup(s, s[i].0) == Some(s[i].1),
    decreases s.len(),
{
    if i > 0 {
        lemma_text_lt_irreflexive(s[i].0);
        assert(text_lt(s[0].0, s[i].0));
        let t = s.drop_first();
        assert forall|a: int, b: int| 0 <= a < b < t.len() implies text_lt(
            #[trigger] t[a].0,
            #[trigger] t[b].0,
        ) by {
            assert(t[a] == s[a + 1] && t[b] == s[b + 1]);
        }
        lemma_lookup_at(t, i - 1);
    }
}

/// A key that is found occurs at some position.
pub proof fn lemma_lookup_found<V>(s: Seq<(Seq<char>, V)>, key: Seq<char>) -> (i: int)
    requires
        lookup(s, key) is Some,
    ensures
        0 <= i < s.len(),
        s[i].0 == key,
        lookup(s, key) == Some(s[i].1),
    decreases s.len(),
{
    if s[0].0 == key {
        0
    } else {
        lemma_lookup_found(s.drop_first(), key) + 1
    }
}

/// A key that occurs nowhere is not found.
pub proof fn lemma_lookup_absent<V>(s: Seq<(Seq<char>, V)>, key: Seq<char>)
    requires
        forall|i: int| 0 <= i < s.len() ==> (#[trigger] s[i]).0 != key,
    ensures
        lookup(s, key) is None,
{
    if lookup(s, key) is Some {
        let i = lemma_lookup_found(s, key);
    }
}

proof fn lemma_put_at<V>(s: Seq<(Seq<char>, V)>, key: Seq<char>, value: V, p: int)
    requires
        0 <= p <= s.len(),
        forall|i: int| 0 <= i < p ==> text_lt((#[trigger] s[i]).0, key),
        p < s.len() ==> !text_lt(s[p].0, key),
    ensures
        put(s, key, value) == if p < s.len() && s[p].0 == key {
            s.update(p, (key, value))
        } else {
            s.insert(p, (key, value))
        },
    decreases p,
{
    if p == 0 {
        if s.len() > 0 {
            lemma_text_lt_total(s[0].0, key);
            lemma_text_lt_irreflexive(key);
        }
        if s.len() > 0 && s[0].0 == key {
            assert(put(s, key, value) =~= s.update(0, (key, value)));
        } else {
            assert(put(s, key, value) =~= s.insert(0, (key, value)));
        }
    } else {
        assert(text_lt(s[0].0, key));
        lemma_text_lt_irreflexive(key);
        if text_lt(key, s[0].0) {
            lemma_text_lt_transitive(key, s[0].0, key);
        }
        let t = s.drop_first();
        assert forall|i: int| 0 <= i < p - 1 implies text_lt((#[trigger] t[i]).0, key) by {
            assert(t[i] == s[i + 1]);
        }
        lemma_put_at(t, key, value, p - 1);
        if p < s.len() && s[p].0 == key {
            assert(put(s, key, value) =~= s.update(p, (key, value)));
        } else {
            assert(put(s, key, value) =~= s.insert(p, (key, value)));
        }
    }
}

/// A key after all others goes to the end.
pub proof fn lemma_put_last<V>(s: Seq<(Seq<char>, V)>, key: Seq<char>, value: V)
    requires
        forall|i: int| 0 <= i < s.len() ==> text_lt((#[trigger] s[i]).0, key),
    ensures
        put(s, key, value) == s.push((key, value)),
{
    lemma_put_at(s, key, value, s.len() as int);
    assert(s.insert(s.len() as int, (key, value)) =~= s.push((key, value)));
}

proof fn lemma_without_at<V>(s: Seq<(Seq<char>, V)>, key: Seq<char>, p: int)
    requires
        0 <= p <= s.len(),
        forall|i: int| 0 <= i < p ==> (#[trigger] s[i]).0 != key,
        p < s.len() ==> s[p].0 == key,
    ensures
        without(s, key) == if p < s.len() {
            s.remove(p)
        } else {
            s
        },
    decreases s.len(),
{
    if s.len() > 0 {
        if p == 0 {
            assert(without(s, key) =~= s.remove(0));
        } else {
            let t = s.drop_first();
            lemma_without_at(t, key, p - 1);
            if p < s.len() {
                assert(without(s, key) =~= s.remove(p));
            } else {
                assert(without(s, key) =~= s);
            }
        }
    }
}

proof fn lemma_position<V>(s: Seq<(Seq<char>, V)>, key: Seq<char>) -> (p: int)
    requires
        ascending(s),
    ensures
        0 <= p <= s.len(),
        forall|i: int| 0 <= i < p ==> text_lt((#[trigger] s[i]).0, key),
        p < s.len() ==> !text_lt(s[p].0, key),
    decreases s.len(),
{
    if s.len() == 0 || !text_lt(s[0].0, key) {
        0
    } else {
        let t = s.drop_first();
        assert forall|a: int, b: int| 0 <= a < b < t.len() implies text_lt(
            #[trigger] t[a].0,
            #[trigger] t[b].0,
        ) by {
            assert(t[a] == s[a + 1] && t[b] == s[b + 1]);
        }
        let p = lemma_position(t, key) + 1;
        assert forall|i: int| 0 <= i < p implies text_lt((#[trigger] s[i]).0, key) by {
            if i > 0 {
                assert(t[i - 1] == s[i]);
            }
        }
        p
    }
}

/// Binding a key keeps the keys in order.
pub proof fn lemma_put_ascending<V>(s: Seq<(Seq<char>, V)>, key: Seq<char>, value: V)
    requires
        ascending(s),
    ensures
        ascending(put(s, key, value)),
{
    let p = lemma_position(s, key);
    lemma_put_at(s, key, value, p);
    let r = put(s, key, value);
    if p < s.len() {
        lemma_text_lt_total(s[p].0, key);
    }
    assert forall|i: int, j: int| 0 <= i < j < r.len() implies text_lt(
        #[trigger] r[i].0,
        #[trigger] r[j].0,
    ) by {
        if p < s.len() && s[p].0 == key {
            assert(r[i].0 == s[i].0 && r[j].0 == s[j].0);
        } else if i < p && j > p {
            assert(r[i] == s[i] && r[j] == s[j - 1]);
        } else if i < p && j < p {
            assert(r[i] == s[i] && r[j] == s[j]);
        } else if i < p {
            assert(r[i] == s[i]);
        } else if i > p {
            assert(r[i] == s[i - 1] && r[j] == s[j - 1]);
        } else {
            assert(r[j] == s[j - 1]);
            if j - 1 > p {
                assert(text_lt(s[p].0, s[j - 1].0));
                lemma_text_lt_transitive(key, s[p].0, s[j - 1].0);
            }
        }
    }
}

/// What is found after a key was bound.
pub proof fn lemma_put_lookup<V>(
    s: Seq<(Seq<char>, V)>,
    key: Seq<char>,
    value: V,
    other: Seq<char>,
)
    ensures
        lookup(put(s, key, value), other) == if other == key {
            Some(value)
        } else {
            lookup(s, other)
        },
    decreases s.len(),
{
    let r = put(s, key, value);
    if s.len() == 0 || text_lt(key, s[0].0) {
        assert(r.drop_first() =~= s);
    } else if s[0].0 == key {
        assert(r.drop_first() =~= s.drop_first());
    } else {
        assert(r.drop_first() =~= put(s.drop_first(), key, value));
        lemma_put_lookup(s.drop_first(), key, value, other);
    }
}

/// Removing a key keeps the keys in order.
pub proof fn lemma_without_ascending<V>(s: Seq<(Seq<char>, V)>, key: Seq<char>)
    requires
        ascending(s),
    ensures
        ascending(without(s, key)),
{
    if lookup(s, key) is Some {
        let p = lemma_lookup_found(s, key);
        lemma_distinct(s, p);
        lemma_without_at(s, key, p);
        let r = without(s, key);
        assert forall|i: int, j: int| 0 <= i < j < r.len() implies text_lt(
            #[trigger] r[i].0,
            #[trigger] r[j].0,
        ) by {
            let a = if i < p {
                i
            } else {
                i + 1
            };
            let b = if j < p {
                j
            } else {
                j + 1
            };
            assert(r[i] == s[a] && r[j] == s[b]);
        }
    } else {
        assert forall|i: int| 0 <= i < s.len() implies (#[trigger] s[i]).0 != key by {
            lemma_lookup_at(s, i);
        }
        lemma_without_at(s, key, s.len() as int);
    }
}

proof fn lemma_distinct<V>(s: Seq<(Seq<char>, V)>, p: int)
    requires
        ascending(s),
        0 <= p < s.len(),
    ensures
        forall|i: int| 0 <= i < s.len() && i != p ==> (#[trigger] s[i]).0 != s[p].0,
{
    lemma_text_lt_irreflexive(s[p].0);
    assert forall|i: int| 0 <= i < s.len() && i != p implies (#[trigger] s[i]).0 != s[p].0 by {
        if i < p {
            assert(text_lt(s[i].0, s[p].0));
        } else {
            assert(text_lt(s[p].0, s[i].0));
        }
    }
}

/// What is found after a key was removed.
pub proof fn lemma_without_lookup<V>(s: Seq<(Seq<char>, V)>, key: Seq<char>, other: Seq<char>)
    requires
        ascending(s),
    ensures
        lookup(without(s, key), other) == if other == key {
            None
        } else {
            lookup(s, other)
        },
    decreases s.len(),
{
    if s.len() > 0 {
        let t = s.drop_first();
        assert(ascending(t)) by {
            assert forall|a: int, b: int| 0 <= a < b < t.len() implies text_lt(
                #[trigger] t[a].0,
                #[trigger] t[b].0,
            ) by {
                assert(t[a] == s[a + 1] && t[b] == s[b + 1]);
            }
        }
        if s[0].0 == key {
            if other == key {
                lemma_distinct(s, 0);
                assert forall|i: int| 0 <= i < t.len() implies (#[trigger] t[i]).0 != key by {
                    assert(t[i] == s[i + 1]);
                }
                lemma_lookup_absent(t, key);
            }
        } else {
            lemma_without_lookup(t, key, other);
            assert(without(s, key).drop_first() =~= without(t, key));
        }
    }
}

/// Two listings in key order that bind the same keys to the same values are the same listing.
pub proof fn lemma_same_bindings<V>(s: Seq<(Seq<char>, V)>, t: Seq<(Seq<char>, V)>)
    requires
        ascending(s),
        ascending(t),
        forall|k: Seq<char>| #[trigger] lookup(s, k) == lookup(t, k),
    ensures
        s == t,
    decreases s.len(),
{
    if s.len() == 0 {
        if t.len() > 0 {
            assert(lookup(s, t[0].0) == lookup(t, t[0].0));
        }
        assert(s =~= t);
    } else {
        assert(lookup(s, s[0].0) == lookup(t, s[0].0));
        let j = lemma_lookup_found(t, s[0].0);
        if j > 0 {
            assert(lookup(s, t[0].0) == lookup(t, t[0].0));
            let i = lemma_lookup_found(s, t[0].0);
            assert(text_lt(t[0].0, t[j].0));
            lemma_text_lt_irreflexive(t[0].0);
            if i > 0 {
                assert(text_lt(s[0].0, s[i].0));
                lemma_text_lt_transitive(t[0].0, s[0].0, t[0].0);
            }
        }
        let a = s.drop_first();
        let b = t.drop_first();
        lemma_tail_ascending(s);
        lemma_tail_ascending(t);
        lemma_distinct(s, 0);
        lemma_distinct(t, 0);
        assert forall|k: Seq<char>| #[trigger] lookup(a, k) == lookup(b, k) by {
            assert(lookup(s, k) == lookup(t, k));
            if k == s[0].0 {
                assert forall|i: int| 0 <= i < a.len() implies (#[trigger] a[i]).0 != k by {
                    assert(a[i] == s[i + 1]);
                }
                assert forall|i: int| 0 <= i < b.len() implies (#[trigger] b[i]).0 != k by {
                    assert(b[i] == t[i + 1]);
                }
                lemma_lookup_absent(a, k);
                lemma_lookup_absent(b, k);
            }
        }
        lemma_same_bindings(a, b);
        assert(s =~= seq![s[0]] + a);
        assert(t =~= seq![t[0]] + b);
    }
}

/// The entries after the first are in order as well.
pub proof fn lemma_tail_ascending<V>(s: Seq<(Seq<char>, V)>)
    requires
        ascending(s),
        s.len() > 0,
    ensures
        ascending(s.drop_first()),
{
    let t = s.drop_first();
    assert forall|a: int, b: int| 0 <= a < b < t.len() implies text_lt(
        #[trigger] t[a].0,
        #[trigger] t[b].0,
    ) by {
        assert(t[a] == s[a + 1] && t[b] == s[b + 1]);
    }
}

/// The same keys with the values that `f` gives.
pub open spec fn map_values<V, W>(
    s: Seq<(Seq<char>, V)>,
    f: spec_fn(V) -> W,
) -> Seq<(Seq<char>, W)> {
    Seq::new(s.len(), |i: int| (s[i].0, f(s[i].1)))
}

/// Binding a key and mapping the values can be done in either order.
pub proof fn lemma_map_put<V, W>(
    s: Seq<(Seq<char>, V)>,
    f: spec_fn(V) -> W,
    key: Seq<char>,
    value: V,
)
    ensures
        map_values(put(s, key, value), f) == put(map_values(s, f), key, f(value)),
    decreases s.len(),
{
    let m = map_values(s, f);
    if s.len() > 0 {
        assert(m.drop_first() =~= map_values(s.drop_first(), f));
        lemma_map_put(s.drop_first(), f, key, value);
    }
    assert(map_values(put(s, key, value), f) =~= put(m, key, f(value)));
}

/// Removing a key and mapping the values can be done in either order.
pub proof fn lemma_map_without<V, W>(s: Seq<(Seq<char>, V)>, f: spec_fn(V) -> W, key: Seq<char>)
    ensures
        map_values(without(s, key), f) == without(map_values(s, f), key),
    decreases s.len(),
{
    let m = map_values(s, f);
    if s.len() > 0 {
        assert(m.drop_first() =~= map_values(s.drop_first(), f));
        lemma_map_without(s.drop_first(), f, key);
    }
    assert(map_values(without(s, key), f) =~= without(m, key));
}

/// What is found among mapped values is what is found, mapped.
pub proof fn lemma_map_lookup<V, W>(s: Seq<(Seq<char>, V)>, f: spec_fn(V) -> W, key: Seq<char>)
    ensures
        lookup(map_values(s, f), key) == match lookup(s, key) {
            Some(v) => Some(f(v)),
            None => None,
        },
    decreases s.len(),
{
    if s.len() > 0 {
        assert(map_values(s, f).drop_first() =~= map_values(s.drop_first(), f));
        lemma_map_lookup(s.drop_first(), f, key);
    }
}

/// Mapping the values keeps the keys in order.
pub proof fn lemma_map_ascending<V, W>(s: Seq<(Seq<char>, V)>, f: spec_fn(V) -> W)
    requires
        ascending(s),
    ensures
        ascending(map_values(s, f)),
{
    let m = map_values(s, f);
    assert forall|i: int, j: int| 0 <= i < j < m.len() implies text_lt(
        #[trigger] m[i].0,
        #[trigger] m[j].0,
    ) by {
        assert(text_lt(s[i].0, s[j].0));
    }
}

/// An ordered map from text to `V`.
#[derive(Debug)]
pub struct StrMap<V> {
    pub(crate) entries: Vec<(String, V)>,
}

impl<V> StrMap<V> {
    /// The entries in key order.
    pub closed spec fn pairs(&self) -> Seq<(Seq<char>, V)> {
        listing(self.entries@)
    }

    #[verifier::type_invariant]
    pub closed spec fn keys_ascend(&self) -> bool {
        ascending(self.pairs())
    }

    /// The entries listed are those that are held.
    pub(crate) proof fn lemma_pairs(&self)
        ensures
            self.pairs() == listing(self.entries@),
    {
    }

    pub fn new() -> (r: StrMap<V>)
        ensures
            r.pairs() == Seq::<(Seq<char>, V)>::empty(),
    {
        let r = StrMap { entries: Vec::new() };
        assert(r.pairs() =~= Seq::<(Seq<char>, V)>::empty());
        r
    }

    /// The map with exactly these entries.
    pub fn from_entries(entries: Vec<(String, V)>) -> (r: StrMap<V>)
        requires
            ascending(listing(entries@)),
        ensures
            r.pairs() == listing(entries@),
    {
        StrMap { entries }
    }

    pub fn len(&self) -> (r: usize)
        ensures
            r == self.pairs().len(),
    {
        self.entries.len()
    }

    pub fn is_empty(&self) -> (r: bool)
        ensures
            r == (self.pairs().len() == 0),
    {
        self.entries.len() == 0
    }

    pub fn key_at(&self, i: usize) -> (r: &str)
        requires
            i < self.pairs().len(),
        ensures
            r@ == self.pairs()[i as int].0,
            ascending(self.pairs()),
    {
        proof {
            use_type_invariant(self);
        }
        self.entries[i].0.as_str()
    }

    pub fn value_at(&self, i: usize) -> (r: &V)
        requires
            i < self.pairs().len(),
        ensures
            *r == self.pairs()[i as int].1,
    {
        &self.entries[i].1
    }

    /// The keys are in ascending order.
    pub(crate) fn check_order(&self)
        ensures
            ascending(self.pairs()),
    {
        proof {
            use_type_invariant(self);
        }
    }

    /// The number of keys before `key`.
    fn rank(&self, key: &str) -> (p: usize)
        ensures
            p <= self.pairs().len(),
            ascending(self.pairs()),
            forall|i: int| 0 <= i < p ==> text_lt((#[trigger] self.pairs()[i]).0, key@),
            p < self.pairs().len() ==> !text_lt(self.pairs()[p as int].0, key@),
            p < self.pairs().len() && self.pairs()[p as int].0 != key@ ==> lookup(
                self.pairs(),
                key@,
            ) is None,
            p == self.pairs().len() ==> lookup(self.pairs(), key@) is None,
    {
        proof {
            use_type_invariant(self);
        }
        let mut p: usize = 0;
        while p < self.entries.len()
            invariant
                p <= self.entries@.len(),
                ascending(self.pairs()),
                forall|i: int| 0 <= i < p ==> text_lt((#[trigger] self.pairs()[i]).0, key@),
            ensures
                p <= self.entries@.len(),
                p < self.entries@.len() ==> !text_lt(self.pairs()[p as int].0, key@),
            decreases self.entries.len() - p,
        {
            match order_text(self.entries[p].0.as_str(), key) {
                Order::Less => {
                    assert(text_lt(self.pairs()[p as int].0, key@));
                },
                _ => {
                    break ;
                },
            }
            p += 1;
        }
        proof {
            let s = self.pairs();
            if p == s.len() || s[p as int].0 != key@ {
                assert forall|i: int| 0 <= i < s.len() implies (#[trigger] s[i]).0 != key@ by {
                    lemma_text_lt_irreflexive(key@);
                    if i > p {
                        assert(text_lt(s[p as int].0, s[i].0));
                    }
                }
                lemma_lookup_absent(s, key@);
            }
        }
        p
    }

    pub fn get(&self, key: &str) -> (r: Option<&V>)
        ensures
            match r {
                Some(v) => lookup(self.pairs(), key@) == Some(*v),
                None => lookup(self.pairs(), key@) is None,
            },
    {
        let p: usize = self.rank(key);
        if p < self.entries.len() {
            match order_text(self.entries[p].0.as_str(), key) {
                Order::Equal => {
                    proof {
                        lemma_lookup_at(self.pairs(), p as int);
                    }
                    return Some(&self.entries[p].1);
                },
                _ => {},
            }
        }
        None
    }

    pub fn contains_key(&self, key: &str) -> (r: bool)
        ensures
            r == (lookup(self.pairs(), key@) is Some),
    {
        match self.get(key) {
            Some(_) => true,
            None => false,
        }
    }

    /// Binds `key` to `value`.
    pub fn insert(&mut self, key: String, value: V)
        ensures
            final(self).pairs() == put(old(self).pairs(), key@, value),
    {
        let p: usize = self.rank(key.as_str());
        proof {
            lemma_put_at(self.pairs(), key@, value, p as int);
            lemma_put_ascending(self.pairs(), key@, value);
        }
        let mut entries: Vec<(String, V)> = Vec::new();
        std::mem::swap(&mut entries, &mut self.entries);
        let ghost s = listing(entries@);
        let ghost k = key@;
        let mut present: bool = false;
        if p < entries.len() {
            match order_text(entries[p].0.as_str(), key.as_str()) {
                Order::Equal => {
                    present = true;
                },
                _ => {},
            }
        }
        if present {
            entries.set(p, (key, value));
            assert(listing(entries@) =~= s.update(p as int, (k, value)));
        } else {
            entries.insert(p, (key, value));
            assert(listing(entries@) =~= s.insert(p as int, (k, value)));
        }
        self.entries = entries;
    }

    /// Removes `key` and gives the value it was bound to.
    pub fn remove(&mut self, key: &str) -> (r: Option<V>)
        ensures
            final(self).pairs() == without(old(self).pairs(), key@),
            r == lookup(old(self).pairs(), key@),
    {
        let p: usize = self.rank(key);
        let mut entries: Vec<(String, V)> = Vec::new();
        std::mem::swap(&mut entries, &mut self.entries);
        let ghost s = listing(entries@);
        let mut present: bool = false;
        if p < entries.len() {
            match order_text(entries[p].0.as_str(), key) {
                Order::Equal => {
                    present = true;
                },
                _ => {},
            }
        }
        proof {
            lemma_without_ascending(s, key@);
            if present {
                lemma_lookup_at(s, p as int);
                lemma_distinct(s, p as int);
                lemma_without_at(s, key@, p as int);
            } else {
                assert forall|i: int| 0 <= i < s.len() implies (#[trigger] s[i]).0 != key@ by {
                    lemma_lookup_at(s, i);
                }
                lemma_without_at(s, key@, s.len() as int);
            }
        }
        if present {
            let entry = entries.remove(p);
            assert(listing(entries@) =~= s.remove(p as int));
            self.entries = entries;
            Some(entry.1)
        } else {
            self.entries = entries;
            None
        }
    }
}

/// The keys, as text, and values of a vector of entries.
pub open spec fn listing<V>(entries: Seq<(String, V)>) -> Seq<(Seq<char>, V)> {
    Seq::new(entries.len(), |i: int| (entries[i].0@, entries[i].1))
}

} // verus!
