//! A map from strings to values that keeps its entries in the order of their keys.
use crate::text::{text_standing, Standing};
use vstd::prelude::*;

verus! {

/// A map from strings to values. Its entries stand in the order of their keys, and no key occurs
/// twice.
#[derive(Debug)]
pub struct StringMap<V> {
    pub entries: Vec<(String, V)>,
}

/// Whether entries stand in the order of their keys, no key twice.
pub open spec fn ordered<V>(pairs: Seq<(Seq<char>, V)>) -> bool {
    forall|i: int, j: int|
        0 <= i < j < pairs.len() ==> crate::text::text_less(
            (#[trigger] pairs[i]).0,
            (#[trigger] pairs[j]).0,
        )
}

/// The entries with a key set to a value: the value of the entry that has the key is replaced, or a
/// new entry is put in its place in the order.
pub open spec fn with_entry<V>(pairs: Seq<(Seq<char>, V)>, key: Seq<char>, value: V) -> Seq<
    (Seq<char>, V),
>
    decreases pairs.len(),
{
    if pairs.len() == 0 {
        seq![(key, value)]
    } else if key == pairs[0].0 {
        seq![(key, value)] + pairs.skip(1)
    } else if crate::text::text_less(key, pairs[0].0) {
        seq![(key, value)] + pairs
    } else {
        seq![pairs[0]] + with_entry(pairs.skip(1), key, value)
    }
}

/// The value of the first entry that has the key.
pub open spec fn lookup<V>(pairs: Seq<(Seq<char>, V)>, key: Seq<char>) -> Option<V>
    decreases pairs.len(),
{
    if pairs.len() == 0 {
        None
    } else if pairs[0].0 == key {
        Some(pairs[0].1)
    } else {
        lookup(pairs.skip(1), key)
    }
}

/// Setting a key keeps the entries in order.
pub proof fn with_entry_ordered<V>(pairs: Seq<(Seq<char>, V)>, key: Seq<char>, value: V)
    requires
        ordered(pairs),
    ensures
        ordered(with_entry(pairs, key, value)),
    decreases pairs.len(),
{
    let r = with_entry(pairs, key, value);
    if pairs.len() > 0 {
        let tail = pairs.skip(1);
        assert forall|i: int, j: int| 0 <= i < j < tail.len() implies crate::text::text_less(
            (#[trigger] tail[i]).0,
            (#[trigger] tail[j]).0,
        ) by {
            assert(tail[i] == pairs[i + 1] && tail[j] == pairs[j + 1]);
        }
        if key == pairs[0].0 {
            assert forall|i: int, j: int| 0 <= i < j < r.len() implies crate::text::text_less(
                (#[trigger] r[i]).0,
                (#[trigger] r[j]).0,
            ) by {
                assert(r[i].0 == pairs[i].0 && r[j].0 == pairs[j].0);
            }
        } else if crate::text::text_less(key, pairs[0].0) {
            assert forall|i: int, j: int| 0 <= i < j < r.len() implies crate::text::text_less(
                (#[trigger] r[i]).0,
                (#[trigger] r[j]).0,
            ) by {
                assert(r[j] == pairs[j - 1]);
                if i > 0 {
                    assert(r[i] == pairs[i - 1]);
                } else if j > 1 {
                    crate::text::text_less_transitive(key, pairs[0].0, pairs[j - 1].0);
                }
            }
        } else {
            crate::text::text_less_total(key, pairs[0].0);
            with_entry_ordered(tail, key, value);
            let t = with_entry(tail, key, value);
            with_entry_keys(tail, key, value);
            assert forall|i: int, j: int| 0 <= i < j < r.len() implies crate::text::text_less(
                (#[trigger] r[i]).0,
                (#[trigger] r[j]).0,
            ) by {
                assert(r[j] == t[j - 1]);
                if i > 0 {
                    assert(r[i] == t[i - 1]);
                } else if t[j - 1].0 != key {
                    let k = choose|k: int| 0 <= k < tail.len() && t[j - 1] == #[trigger] tail[k];
                    assert(tail[k] == pairs[k + 1]);
                }
            }
        }
    }
}

/// Every entry is the new one or one that was there.
pub proof fn with_entry_keys<V>(pairs: Seq<(Seq<char>, V)>, key: Seq<char>, value: V)
    ensures
        forall|i: int|
            0 <= i < with_entry(pairs, key, value).len() ==> {
                ||| (#[trigger] with_entry(pairs, key, value)[i]) == (key, value)
                ||| exists|k: int|
                    0 <= k < pairs.len() && with_entry(pairs, key, value)[i] == #[trigger] pairs[k]
            },
    decreases pairs.len(),
{
    let r = with_entry(pairs, key, value);
    if pairs.len() > 0 {
        let tail = pairs.skip(1);
        with_entry_keys(tail, key, value);
        assert forall|i: int| 0 <= i < r.len() && (#[trigger] r[i]) != (key, value) implies exists|
            k: int,
        |
            0 <= k < pairs.len() && r[i] == #[trigger] pairs[k] by {
            if key == pairs[0].0 {
                assert(r[i] == pairs[i]);
            } else if crate::text::text_less(key, pairs[0].0) {
                assert(r[i] == pairs[i - 1]);
            } else if i == 0 {
                assert(r[0] == pairs[0]);
            } else {
                let t = with_entry(tail, key, value);
                assert(r[i] == t[i - 1]);
                let k = choose|k: int| 0 <= k < tail.len() && t[i - 1] == #[trigger] tail[k];
                assert(tail[k] == pairs[k + 1]);
            }
        }
    }
}

/// After a key is set it has the value, and every other key has what it had.
pub proof fn lookup_with_entry<V>(
    pairs: Seq<(Seq<char>, V)>,
    key: Seq<char>,
    value: V,
    other: Seq<char>,
)
    ensures
        lookup(with_entry(pairs, key, value), other) == if other == key {
            Some(value)
        } else {
            lookup(pairs, other)
        },
    decreases pairs.len(),
{
    let r = with_entry(pairs, key, value);
    if pairs.len() == 0 {
        assert(r.skip(1) =~= Seq::empty());
        assert(lookup(r.skip(1), other) is None);
    } else {
        let tail = pairs.skip(1);
        if key == pairs[0].0 {
            assert(r.skip(1) =~= tail);
        } else if crate::text::text_less(key, pairs[0].0) {
            assert(r.skip(1) =~= pairs);
        } else {
            lookup_with_entry(tail, key, value, other);
            assert(r.skip(1) =~= with_entry(tail, key, value));
        }
    }
}

/// A value that is found is the value of an entry.
pub proof fn lookup_is_an_entry<V>(pairs: Seq<(Seq<char>, V)>, key: Seq<char>)
    ensures
        lookup(pairs, key) matches Some(v) ==> exists|k: int|
            0 <= k < pairs.len() && (#[trigger] pairs[k]).1 == v,
    decreases pairs.len(),
{
    if pairs.len() > 0 && pairs[0].0 != key {
        let tail = pairs.skip(1);
        lookup_is_an_entry(tail, key);
        if let Some(v) = lookup(tail, key) {
            let k = choose|k: int| 0 <= k < tail.len() && (#[trigger] tail[k]).1 == v;
            assert(pairs[k + 1] == tail[k]);
        }
    }
}

/// In ordered entries the value of a key is found at the only place where the key can stand.
pub proof fn lookup_at<V>(pairs: Seq<(Seq<char>, V)>, key: Seq<char>, at: int)
    requires
        ordered(pairs),
        0 <= at < pairs.len(),
        pairs[at].0 == key,
    ensures
        lookup(pairs, key) == Some(pairs[at].1),
    decreases pairs.len(),
{
    if at > 0 {
        crate::text::text_less_irreflexive(key);
        let tail = pairs.skip(1);
        assert forall|i: int, j: int| 0 <= i < j < tail.len() implies crate::text::text_less(
            (#[trigger] tail[i]).0,
            (#[trigger] tail[j]).0,
        ) by {
            assert(tail[i] == pairs[i + 1] && tail[j] == pairs[j + 1]);
        }
        assert(crate::text::text_less(pairs[0].0, pairs[at].0));
        lookup_at(tail, key, at - 1);
    }
}

/// A key that stands nowhere has no value.
pub proof fn lookup_absent<V>(pairs: Seq<(Seq<char>, V)>, key: Seq<char>)
    requires
        forall|i: int| 0 <= i < pairs.len() ==> (#[trigger] pairs[i]).0 != key,
    ensures
        lookup(pairs, key) is None,
    decreases pairs.len(),
{
    if pairs.len() > 0 {
        assert(pairs[0].0 != key);
        assert forall|i: int| 0 <= i < pairs.skip(1).len() implies (#[trigger] pairs.skip(
            1,
        )[i]).0 != key by {
            assert(pairs.skip(1)[i] == pairs[i + 1]);
        }
        lookup_absent(pairs.skip(1), key);
    }
}

/// Setting a key by position: the entries before `at` stand before the key.
proof fn with_entry_by_position<V>(
    pairs: Seq<(Seq<char>, V)>,
    key: Seq<char>,
    value: V,
    at: int,
)
    requires
        0 <= at <= pairs.len(),
        forall|i: int|
            0 <= i < at ==> crate::text::text_less((#[trigger] pairs[i]).0, key),
        at < pairs.len() ==> pairs[at].0 == key || crate::text::text_less(key, pairs[at].0),
    ensures
        with_entry(pairs, key, value) == if at < pairs.len() && pairs[at].0 == key {
            pairs.update(at, (key, value))
        } else {
            pairs.insert(at, (key, value))
        },
    decreases at,
{
    if at == 0 {
        if pairs.len() > 0 && pairs[0].0 == key {
            assert(pairs.update(0, (key, value)) =~= seq![(key, value)] + pairs.skip(1));
        } else {
            assert(pairs.insert(0, (key, value)) =~= seq![(key, value)] + pairs);
        }
    } else {
        let tail = pairs.skip(1);
        crate::text::text_less_irreflexive(key);
        assert(crate::text::text_less(pairs[0].0, key));
        if crate::text::text_less(key, pairs[0].0) {
            crate::text::text_less_transitive(key, pairs[0].0, key);
        }
        assert forall|i: int| 0 <= i < at - 1 implies crate::text::text_less(
            (#[trigger] tail[i]).0,
            key,
        ) by {
            assert(tail[i] == pairs[i + 1]);
        }
        assert(at < pairs.len() ==> tail[at - 1] == pairs[at]);
        with_entry_by_position(tail, key, value, at - 1);
        if at < pairs.len() && pairs[at].0 == key {
            assert(pairs.update(at, (key, value)) =~= seq![pairs[0]] + tail.update(
                at - 1,
                (key, value),
            ));
        } else {
            assert(pairs.insert(at, (key, value)) =~= seq![pairs[0]] + tail.insert(
                at - 1,
                (key, value),
            ));
        }
    }
}

impl<V> StringMap<V> {
    /// The entries, in order.
    pub open spec fn pairs(&self) -> Seq<(Seq<char>, V)> {
        Seq::new(self.entries@.len(), |i: int| (self.entries@[i].0@, self.entries@[i].1))
    }

    /// The entries stand in the order of their keys, no key twice.
    pub open spec fn wf(&self) -> bool {
        ordered(self.pairs())
    }

    /// A map without entries.
    pub fn new() -> (r: StringMap<V>)
        ensures
            r.wf(),
            r.pairs() == Seq::<(Seq<char>, V)>::empty(),
    {
        let r = StringMap { entries: Vec::new() };
        assert(r.pairs() =~= Seq::<(Seq<char>, V)>::empty());
        r
    }

    /// Where the key stands or would stand, and whether it stands there.
    fn position(&self, key: &str) -> (r: (usize, bool))
        requires
            self.wf(),
        ensures
            r.0 <= self.entries@.len(),
            forall|i: int|
                0 <= i < r.0 ==> crate::text::text_less((#[trigger] self.pairs()[i]).0, key@),
            r.1 ==> r.0 < self.entries@.len() && self.pairs()[r.0 as int].0 == key@,
            !r.1 ==> forall|i: int|
                r.0 <= i < self.entries@.len() ==> crate::text::text_less(
                    key@,
                    (#[trigger] self.pairs()[i]).0,
                ),
    {
        let ghost p = self.pairs();
        let mut lo: usize = 0;
        let mut hi: usize = self.entries.len();
        while lo < hi
            invariant
                ordered(p),
                p == self.pairs(),
                lo <= hi <= p.len(),
                forall|i: int| 0 <= i < lo ==> crate::text::text_less((#[trigger] p[i]).0, key@),
                forall|i: int|
                    hi <= i < p.len() ==> crate::text::text_less(key@, (#[trigger] p[i]).0),
            decreases hi - lo,
        {
            let mid: usize = lo + (hi - lo) / 2;
            assert(p[mid as int].0 == self.entries@[mid as int].0@);
            match text_standing(self.entries[mid].0.as_str(), key) {
                Standing::Same => {
                    return (mid, true);
                },
                Standing::Before => {
                    proof {
                        assert forall|i: int| 0 <= i < mid + 1 implies crate::text::text_less(
                            (#[trigger] p[i]).0,
                            key@,
                        ) by {
                            if i < mid {
                                crate::text::text_less_transitive(p[i].0, p[mid as int].0, key@);
                            }
                        }
                    }
                    lo = mid + 1;
                },
                Standing::After => {
                    proof {
                        crate::text::text_less_total(p[mid as int].0, key@);
                        assert forall|i: int| mid <= i < p.len() implies crate::text::text_less(
                            key@,
                            (#[trigger] p[i]).0,
                        ) by {
                            if i > mid {
                                crate::text::text_less_transitive(key@, p[mid as int].0, p[i].0);
                            }
                        }
                    }
                    hi = mid;
                },
            }
        }
        (lo, false)
    }

    /// The value of a key.
    pub fn get(&self, key: &str) -> (r: Option<&V>)
        requires
            self.wf(),
        ensures
            match lookup(self.pairs(), key@) {
                Some(v) => r matches Some(w) && *w == v,
                None => r is None,
            },
    {
        let (at, found) = self.position(key);
        if found {
            proof {
                lookup_at(self.pairs(), key@, at as int);
            }
            Some(&self.entries[at].1)
        } else {
            proof {
                crate::text::text_less_irreflexive(key@);
                assert forall|i: int| 0 <= i < self.pairs().len() implies (#[trigger] self.pairs()[i]).0
                    != key@ by {}
                lookup_absent(self.pairs(), key@);
            }
            None
        }
    }

    /// The values, in the order of their keys.
    pub fn values(&self) -> (r: Vec<&V>)
        ensures
            r@.len() == self.pairs().len(),
            forall|i: int| 0 <= i < r@.len() ==> *(#[trigger] r@[i]) == self.pairs()[i].1,
    {
        let mut r: Vec<&V> = Vec::new();
        let n: usize = self.entries.len();
        let mut i: usize = 0;
        while i < n
            invariant
                i <= n == self.entries@.len(),
                r@.len() == i,
                forall|k: int| 0 <= k < i ==> *(#[trigger] r@[k]) == self.pairs()[k].1,
            decreases n - i,
        {
            r.push(&self.entries[i].1);
            i += 1;
        }
        r
    }

    /// Sets a key to a value.
    pub fn insert(&mut self, key: String, value: V)
        requires
            old(self).wf(),
        ensures
            final(self).wf(),
            final(self).pairs() == with_entry(old(self).pairs(), key@, value),
    {
        let ghost p = self.pairs();
        let (at, found) = self.position(key.as_str());
        proof {
            with_entry_ordered(p, key@, value);
            with_entry_by_position(p, key@, value, at as int);
        }
        if found {
            let (k, _) = self.entries.remove(at);
            self.entries.insert(at, (k, value));
            assert(self.pairs() =~= p.update(at as int, (key@, value)));
        } else {
            proof {
                crate::text::text_less_irreflexive(key@);
            }
            self.entries.insert(at, (key, value));
            assert(self.pairs() =~= p.insert(at as int, (key@, value)));
        }
    }
}

/// The entries of a map are its keys and values, one for one.
pub proof fn pairs_are_the_entries<V>(map: StringMap<V>, i: int)
    requires
        0 <= i < map.entries@.len(),
    ensures
        map.pairs().len() == map.entries@.len(),
        map.pairs()[i] == (map.entries@[i].0@, map.entries@[i].1),
{
}

} // verus!
