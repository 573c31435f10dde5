use vstd::prelude::*;
use crate::exact::{Exact, Ranked};

verus! {

/// The least of the values registered under `key`, if there is one.
pub open spec fn least_under<K, V: Ranked>(entries: Seq<(K, V)>, key: K) -> Option<V>
    decreases entries.len(),
{
    if entries.len() == 0 {
        None
    } else {
        let before = least_under(entries.drop_last(), key);
        let last = entries.last();
        if last.0 != key {
            before
        } else if before is Some && before->0.rank() <= last.1.rank() {
            before
        } else {
            Some(last.1)
        }
    }
}

/// The registrations that remain once `value` is withdrawn under every key.
pub open spec fn without<K, V>(entries: Seq<(K, V)>, value: V) -> Seq<(K, V)> {
    entries.filter(|e: (K, V)| e.1 != value)
}

/// The registrations after `(key, value)` is registered: a pair that is
/// already present is not registered a second time.
pub open spec fn with_entry<K, V>(entries: Seq<(K, V)>, key: K, value: V) -> Seq<(K, V)> {
    if entries.contains((key, value)) {
        entries
    } else {
        entries.push((key, value))
    }
}

/// What the least value under a key is: nothing where no registration is
/// under the key; else a value that is registered under the key and comes
/// after no other value registered under it.
pub proof fn lemma_least_under<K, V: Ranked>(entries: Seq<(K, V)>, key: K)
    ensures
        match least_under(entries, key) {
            None => forall|j: int| 0 <= j < entries.len() ==> (#[trigger] entries[j]).0 != key,
            Some(v) => entries.contains((key, v)) && forall|j: int|
                0 <= j < entries.len() && (#[trigger] entries[j]).0 == key ==> v.rank()
                    <= entries[j].1.rank(),
        },
    decreases entries.len(),
{
    if entries.len() > 0 {
        let front = entries.drop_last();
        let last = entries.len() - 1;
        lemma_least_under(front, key);
        assert(forall|j: int| 0 <= j < last ==> front[j] == entries[j]);
        match least_under(entries, key) {
            None => {},
            Some(v) => {
                if least_under(front, key) == Some(v) {
                    let at = front.index_of((key, v));
                    assert(entries[at] == (key, v));
                } else {
                    assert(entries[last] == (key, v));
                }
            },
        }
    }
}

/// Nothing is found under `key` exactly when no registration is under it.
pub proof fn lemma_least_under_none<K, V: Ranked>(entries: Seq<(K, V)>, key: K)
    ensures
        least_under(entries, key) is None <==> forall|j: int|
            0 <= j < entries.len() ==> (#[trigger] entries[j]).0 != key,
{
    lemma_least_under(entries, key);
    if least_under(entries, key) is Some {
        let at = entries.index_of((key, least_under(entries, key)->0));
        assert(entries[at].0 == key);
    }
}

/// What is found under a key is registered under that key.
pub proof fn lemma_least_under_is_registered<K, V: Ranked>(entries: Seq<(K, V)>, key: K)
    requires
        least_under(entries, key) is Some,
    ensures
        entries.contains((key, least_under(entries, key)->0)),
{
    lemma_least_under(entries, key);
}

/// The least value under a key is the only value that is registered under
/// the key and comes after no other value registered under it.
pub proof fn lemma_least_under_is_unique<K, V: Ranked>(entries: Seq<(K, V)>, key: K, value: V)
    requires
        entries.contains((key, value)),
        forall|j: int|
            0 <= j < entries.len() && (#[trigger] entries[j]).0 == key ==> value.rank()
                <= entries[j].1.rank(),
    ensures
        least_under(entries, key) == Some(value),
{
    lemma_least_under(entries, key);
    let at = entries.index_of((key, value));
    assert(entries[at].0 == key);
    let least = least_under(entries, key)->0;
    let there = entries.index_of((key, least));
    assert(entries[there].0 == key);
    V::lemma_rank_is_exact(&least, &value);
}

/// Withdrawing a value that is registered leaves fewer registrations.
pub proof fn lemma_without_is_shorter<K, V>(entries: Seq<(K, V)>, value: V, i: int)
    requires
        0 <= i < entries.len(),
        entries[i].1 == value,
    ensures
        without(entries, value).len() < entries.len(),
    decreases entries.len(),
{
    reveal(Seq::filter);
    let front = entries.drop_last();
    if i == entries.len() - 1 {
        assert(without(entries, value) == without(front, value));
        front.lemma_filter_len(|e: (K, V)| e.1 != value);
    } else {
        assert(front[i] == entries[i]);
        lemma_without_is_shorter(front, value, i);
    }
}

/// Whatever remains after a withdrawal was registered before it, and does
/// not hold the withdrawn value.
pub proof fn lemma_without_keeps_others<K, V>(entries: Seq<(K, V)>, value: V)
    ensures
        forall|j: int|
            0 <= j < without(entries, value).len() ==> entries.contains(
                #[trigger] without(entries, value)[j],
            ) && without(entries, value)[j].1 != value,
{
    let keep = |e: (K, V)| e.1 != value;
    assert forall|j: int| 0 <= j < without(entries, value).len() implies entries.contains(
        #[trigger] without(entries, value)[j],
    ) && without(entries, value)[j].1 != value by {
        let e = entries.filter(keep)[j];
        entries.lemma_filter_pred(keep, j);
        assert(entries.filter(keep).contains(e));
        entries.lemma_filter_contains_rev(keep, e);
    }
}

/// What remains after a withdrawal is exactly what was registered with
/// another value.
pub proof fn lemma_without_members<K, V>(entries: Seq<(K, V)>, value: V, e: (K, V))
    ensures
        without(entries, value).contains(e) <==> entries.contains(e) && e.1 != value,
{
    let keep = |e: (K, V)| e.1 != value;
    if without(entries, value).contains(e) {
        let j = without(entries, value).index_of(e);
        entries.lemma_filter_pred(keep, j);
        entries.lemma_filter_contains_rev(keep, e);
    }
    if entries.contains(e) && e.1 != value {
        let i = entries.index_of(e);
        entries.lemma_filter_contains(keep, i);
    }
}

/// A value that was withdrawn is found under no key any more, whichever
/// keys it was registered under.
pub proof fn lemma_withdrawn_is_gone<K, V: Ranked>(entries: Seq<(K, V)>, value: V, key: K)
    ensures
        least_under(without(entries, value), key) != Some(value),
{
    let rest = without(entries, value);
    if least_under(rest, key) == Some(value) {
        lemma_least_under_is_registered(rest, key);
        lemma_without_members(entries, value, (key, value));
    }
}

/// A value that was not withdrawn is still found under its keys, unless an
/// earlier registration under the same key takes its place.
pub proof fn lemma_others_stay<K, V: Ranked>(entries: Seq<(K, V)>, value: V, key: K, other: V)
    requires
        entries.contains((key, other)),
        other != value,
    ensures
        least_under(without(entries, value), key) is Some,
{
    let rest = without(entries, value);
    lemma_without_members(entries, value, (key, other));
    lemma_least_under_none(rest, key);
    let at = rest.index_of((key, other));
    assert(rest[at].0 == key);
}

/// Withdrawing from registrations laid end to end withdraws from each part.
pub proof fn lemma_without_concat<K, V>(a: Seq<(K, V)>, b: Seq<(K, V)>, value: V)
    ensures
        without(a + b, value) == without(a, value) + without(b, value),
{
    Seq::filter_distributes_over_add(a, b, |e: (K, V)| e.1 != value);
}

/// Withdrawing from no registrations leaves none.
pub proof fn lemma_without_empty<K, V>(value: V)
    ensures
        without(Seq::<(K, V)>::empty(), value) == Seq::<(K, V)>::empty(),
{
    Seq::<(K, V)>::empty().lemma_filter_len(|e: (K, V)| e.1 != value);
    assert(without(Seq::<(K, V)>::empty(), value) =~= Seq::<(K, V)>::empty());
}

/// Withdrawing from a single registration leaves it if it holds another
/// value, and nothing if it holds the withdrawn one.
pub proof fn lemma_without_single<K, V>(e: (K, V), value: V)
    ensures
        without(seq![e], value) == if e.1 != value {
            seq![e]
        } else {
            Seq::<(K, V)>::empty()
        },
{
    lemma_filter_single(e, |e: (K, V)| e.1 != value);
}

/// Filtering a sequence of one element keeps it or leaves nothing.
pub proof fn lemma_filter_single<A>(a: A, pred: spec_fn(A) -> bool)
    ensures
        seq![a].filter(pred) == if pred(a) {
            seq![a]
        } else {
            Seq::<A>::empty()
        },
{
    reveal_with_fuel(Seq::filter, 2);
    assert(seq![a].drop_last() =~= Seq::<A>::empty());
    assert(Seq::<A>::empty().push(a) =~= seq![a]);
}

/// A multi-key-multi-value map: a key may lead to several values and a value
/// may be registered under several keys.
///
/// Its model is the sequence of registrations, oldest first. Of the values
/// under one key the least is found first.
#[derive(Debug)]
pub struct MultiMap<K, V> {
    entries: Vec<(K, V)>,
}

impl<K, V> View for MultiMap<K, V> {
    type V = Seq<(K, V)>;

    closed spec fn view(&self) -> Seq<(K, V)> {
        self.entries@
    }
}

impl<K, V> MultiMap<K, V> {
    /// A map without registrations.
    pub fn new() -> (m: Self)
        ensures
            m@ == Seq::<(K, V)>::empty(),
    {
        MultiMap { entries: Vec::new() }
    }
}

impl<K, V> Default for MultiMap<K, V> {
    fn default() -> (m: Self)
        ensures
            m@ == Seq::<(K, V)>::empty(),
    {
        MultiMap { entries: Vec::new() }
    }
}

impl<K: Exact, V: Ranked + Copy> MultiMap<K, V> {
    /// Whether every registered value has been consumed.
    pub fn is_empty(&self) -> (r: bool)
        ensures
            r == (self@.len() == 0),
    {
        self.entries.len() == 0
    }

    /// Registers `value` under `key`.
    pub fn insert(&mut self, key: K, value: V)
        ensures
            final(self)@ == with_entry(old(self)@, key, value),
    {
        let mut i: usize = 0;
        while i < self.entries.len()
            invariant
                i <= self.entries.len(),
                self.entries@ == old(self).entries@,
                forall|j: int| 0 <= j < i ==> self.entries@[j] != (key, value),
            decreases self.entries.len() - i,
        {
            if self.entries[i].0.same(&key) && self.entries[i].1.same(&value) {
                assert(self.entries@[i as int] == (key, value));
                return ;
            }
            i += 1;
        }
        self.entries.push((key, value));
    }

    /// The least value registered under `key`.
    pub fn get(&self, key: &K) -> (r: Option<&V>)
        ensures
            match r {
                Some(v) => least_under(self@, *key) == Some(*v),
                None => least_under(self@, *key) is None,
            },
    {
        let mut best: Option<usize> = None;
        let mut i: usize = 0;
        assert(self.entries@.take(0).len() == 0);
        while i < self.entries.len()
            invariant
                i <= self.entries.len(),
                match best {
                    Some(at) => at < i && least_under(self.entries@.take(i as int), *key) == Some(
                        self.entries@[at as int].1,
                    ),
                    None => least_under(self.entries@.take(i as int), *key) is None,
                },
            decreases self.entries.len() - i,
        {
            let ghost upto = self.entries@.take(i as int + 1);
            assert(upto.drop_last() =~= self.entries@.take(i as int));
            assert(upto.last() == self.entries@[i as int]);
            if self.entries[i].0.same(key) {
                match best {
                    Some(at) => {
                        if self.entries[i].1.precedes(&self.entries[at].1) {
                            best = Some(i);
                        }
                    },
                    None => {
                        best = Some(i);
                    },
                }
            }
            i += 1;
        }
        assert(self.entries@.take(i as int) =~= self.entries@);
        match best {
            Some(at) => Some(&self.entries[at].1),
            None => None,
        }
    }

    /// Takes the least value registered under `key` out of the map:
    /// afterwards it is registered under no key at all.
    pub fn consume_one(&mut self, key: &K) -> (r: Option<V>)
        ensures
            r == least_under(old(self)@, *key),
            final(self)@ == match r {
                Some(x) => without(old(self)@, x),
                None => old(self)@,
            },
    {
        let x = match self.get(key) {
            Some(v) => *v,
            None => {
                return None;
            },
        };
        let ghost before = self.entries@;
        let ghost keep = |e: (K, V)| e.1 != x;
        let mut i: usize = self.entries.len();
        assert(before.take(i as int) == before);
        assert(before.skip(i as int).filter(keep) == Seq::<(K, V)>::empty());
        while i > 0
            invariant
                i <= self.entries.len(),
                i <= before.len(),
                keep == |e: (K, V)| e.1 != x,
                self.entries@ == before.take(i as int) + before.skip(i as int).filter(keep),
            decreases i,
        {
            i -= 1;
            let ghost head = before.take(i as int);
            let ghost tail = before.skip(i as int + 1).filter(keep);
            let ghost here = before[i as int];
            proof {
                assert(before.skip(i as int) == seq![here] + before.skip(i as int + 1));
                Seq::filter_distributes_over_add(seq![here], before.skip(i as int + 1), keep);
                lemma_filter_single(here, keep);
                assert(before.take(i as int + 1) == head.push(here));
                assert(self.entries@ == head.push(here) + tail);
                assert(self.entries@[i as int] == here);
            }
            if self.entries[i].1.same(&x) {
                self.entries.remove(i);
                assert(self.entries@ =~= head + tail);
            } else {
                assert(self.entries@ =~= head + (seq![here] + tail));
            }
        }
        assert(before.take(0) == Seq::<(K, V)>::empty());
        assert(before.skip(0) == before);
        Some(x)
    }
}

} // verus!
