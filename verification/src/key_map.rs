//! Values by keys of bytes, in the order of the keys.
use crate::order::{
    below, lemma_below_irreflexive, lemma_below_transitive, side_of, Side,
};
use vstd::prelude::*;
use vstd::slice::slice_to_vec;

verus! {

/// A key and its value.
pub struct Keyed<V> {
    pub key: Vec<u8>,
    pub value: V,
}

/// Values by key.
pub struct KeyMap<V> {
    entries: Vec<Keyed<V>>,
}

impl<V> View for KeyMap<V> {
    type V = Map<Seq<u8>, V>;

    closed spec fn view(&self) -> Map<Seq<u8>, V> {
        values_of(self.entries@)
    }
}

spec fn has_key<V>(e: Seq<Keyed<V>>, k: Seq<u8>) -> bool {
    exists|i: int| 0 <= i < e.len() && (#[trigger] e[i]).key@ == k
}

spec fn values_of<V>(e: Seq<Keyed<V>>) -> Map<Seq<u8>, V> {
    Map::new(
        |k: Seq<u8>| has_key(e, k),
        |k: Seq<u8>| e[choose|i: int| 0 <= i < e.len() && (#[trigger] e[i]).key@ == k].value,
    )
}

spec fn ascending<V>(e: Seq<Keyed<V>>) -> bool {
    forall|i: int, j: int|
        0 <= i < j < e.len() ==> below((#[trigger] e[i]).key@, (#[trigger] e[j]).key@)
}

/// Keys in ascending order, none twice.
pub open spec fn keys_ascend(l: Seq<Seq<u8>>) -> bool {
    forall|i: int, j: int|
        0 <= i < j < l.len() ==> below(#[trigger] l[i], #[trigger] l[j])
}

proof fn lemma_value_at<V>(e: Seq<Keyed<V>>, i: int)
    requires
        ascending(e),
        0 <= i < e.len(),
    ensures
        values_of(e).dom().contains(e[i].key@),
        values_of(e)[e[i].key@] == e[i].value,
{
    let k = e[i].key@;
    assert(has_key(e, k));
    let j = choose|j: int| 0 <= j < e.len() && (#[trigger] e[j]).key@ == k;
    lemma_below_irreflexive(k);
    if i < j {
        assert(below(e[i].key@, e[j].key@));
    } else if j < i {
        assert(below(e[j].key@, e[i].key@));
    }
}

impl<V> KeyMap<V> {
    /// No key comes twice: they stand in ascending order.
    pub closed spec fn wf(&self) -> bool {
        ascending(self.entries@)
    }

    /// The keys in order.
    pub closed spec fn keys(&self) -> Seq<Seq<u8>> {
        Seq::new(self.entries@.len(), |i: int| self.entries@[i].key@)
    }

    /// The order is ascending and holds just the keys of the map.
    pub proof fn lemma_keys(&self)
        requires
            self.wf(),
        ensures
            keys_ascend(self.keys()),
            forall|k: Seq<u8>| #[trigger]
                self@.dom().contains(k) <==> self.keys().contains(k),
    {
        let l = self.keys();
        assert forall|k: Seq<u8>| #[trigger] self@.dom().contains(k) <==> l.contains(k) by {
            if has_key(self.entries@, k) {
                let i = choose|i: int|
                    0 <= i < self.entries@.len() && (#[trigger] self.entries@[i]).key@ == k;
                assert(l[i] == k);
            }
            if l.contains(k) {
                let i = choose|i: int| 0 <= i < l.len() && l[i] == k;
                assert(self.entries@[i].key@ == k);
            }
        }
    }

    pub fn new() -> (r: KeyMap<V>)
        ensures
            r.wf(),
            r@ == Map::<Seq<u8>, V>::empty(),
            r.keys() == Seq::<Seq<u8>>::empty(),
    {
        let r = KeyMap { entries: Vec::new() };
        proof {
            assert(r@ =~= Map::empty());
            assert(r.keys() =~= Seq::empty());
        }
        r
    }

    /// How many keys there are.
    pub fn len(&self) -> (r: usize)
        ensures
            r == self.keys().len(),
    {
        self.entries.len()
    }

    /// The key at position `i`.
    pub fn key(&self, i: usize) -> (r: &[u8])
        requires
            i < self.keys().len(),
        ensures
            r@ == self.keys()[i as int],
    {
        self.entries[i].key.as_slice()
    }

    /// The value at position `i`.
    pub fn value(&self, i: usize) -> (r: &V)
        requires
            self.wf(),
            i < self.keys().len(),
        ensures
            self@.dom().contains(self.keys()[i as int]),
            *r == self@[self.keys()[i as int]],
    {
        proof {
            lemma_value_at(self.entries@, i as int);
        }
        &self.entries[i].value
    }

    /// Where `key` stands, or would stand.
    pub fn find(&self, key: &[u8]) -> (r: (bool, usize))
        requires
            self.wf(),
        ensures
            r.0 == self@.dom().contains(key@),
            r.1 <= self.keys().len(),
            r.0 ==> r.1 < self.keys().len() && self.keys()[r.1 as int] == key@,
            forall|i: int| 0 <= i < r.1 ==> below(#[trigger] self.keys()[i], key@),
            forall|i: int|
                r.1 <= i < self.keys().len() ==> !below(#[trigger] self.keys()[i], key@),
            !r.0 ==> forall|i: int|
                r.1 <= i < self.keys().len() ==> below(key@, #[trigger] self.keys()[i]),
    {
        let ghost e = self.entries@;
        let mut lo: usize = 0;
        let mut hi: usize = self.entries.len();
        while lo < hi
            invariant
                e == self.entries@,
                ascending(e),
                lo <= hi <= e.len(),
                forall|i: int| 0 <= i < lo ==> below((#[trigger] e[i]).key@, key@),
                forall|i: int| hi <= i < e.len() ==> below(key@, (#[trigger] e[i]).key@),
            decreases hi - lo,
        {
            let mid: usize = lo + (hi - lo) / 2;
            match side_of(self.entries[mid].key.as_slice(), key) {
                Side::Before => {
                    proof {
                        assert forall|i: int| 0 <= i < mid + 1 implies below(
                            (#[trigger] e[i]).key@,
                            key@,
                        ) by {
                            if i < mid {
                                lemma_below_transitive(e[i].key@, e[mid as int].key@, key@);
                            }
                        }
                    }
                    lo = mid + 1;
                },
                Side::Same => {
                    proof {
                        assert(has_key(e, key@)) by {
                            assert(e[mid as int].key@ == key@);
                        }
                        assert forall|i: int| mid <= i < self.keys().len() implies !below(
                            #[trigger] self.keys()[i],
                            key@,
                        ) by {
                            lemma_below_irreflexive(key@);
                            if i > mid {
                                assert(below(e[mid as int].key@, e[i].key@));
                                crate::order::lemma_below_asymmetric(key@, e[i].key@);
                            }
                        }
                        assert forall|i: int| 0 <= i < mid implies below(
                            #[trigger] self.keys()[i],
                            key@,
                        ) by {
                            assert(below(e[i].key@, e[mid as int].key@));
                        }
                    }
                    return (true, mid);
                },
                Side::After => {
                    proof {
                        assert forall|i: int| mid <= i < e.len() implies below(
                            key@,
                            (#[trigger] e[i]).key@,
                        ) by {
                            if i > mid {
                                lemma_below_transitive(key@, e[mid as int].key@, e[i].key@);
                            }
                        }
                    }
                    hi = mid;
                },
            }
        }
        proof {
            if has_key(e, key@) {
                let i = choose|i: int| 0 <= i < e.len() && (#[trigger] e[i]).key@ == key@;
                lemma_below_irreflexive(key@);
                assert(below(e[i].key@, key@) || below(key@, e[i].key@));
            }
            assert forall|i: int| lo <= i < self.keys().len() implies !below(
                #[trigger] self.keys()[i],
                key@,
            ) && below(key@, self.keys()[i]) by {
                assert(below(key@, e[i].key@));
                crate::order::lemma_below_asymmetric(key@, e[i].key@);
            }
        }
        (false, lo)
    }

    /// The value of `key`, if it has one.
    pub fn get(&self, key: &[u8]) -> (r: Option<&V>)
        requires
            self.wf(),
        ensures
            match r {
                Some(v) => self@.dom().contains(key@) && *v == self@[key@],
                None => !self@.dom().contains(key@),
            },
    {
        let (found, i) = self.find(key);
        if found {
            proof {
                lemma_value_at(self.entries@, i as int);
            }
            Some(&self.entries[i].value)
        } else {
            None
        }
    }

    /// Gives `key` a value. `false`, and nothing changes, where it has one.
    pub fn insert(&mut self, key: Vec<u8>, value: V) -> (r: bool)
        requires
            old(self).wf(),
        ensures
            final(self).wf(),
            r == !old(self)@.dom().contains(key@),
            final(self)@ == (if r {
                old(self)@.insert(key@, value)
            } else {
                old(self)@
            }),
            final(self).keys().len() == old(self).keys().len() + (if r {
                1int
            } else {
                0
            }),
    {
        let ghost e = self.entries@;
        let (found, p) = self.find(key.as_slice());
        if found {
            return false;
        }
        let ghost k = key@;
        proof {
            assert forall|i: int| 0 <= i < p implies below((#[trigger] e[i]).key@, k) by {
                assert(self.keys()[i] == e[i].key@);
            }
            assert forall|i: int| p <= i < e.len() implies below(k, (#[trigger] e[i]).key@) by {
                assert(self.keys()[i] == e[i].key@);
            }
        }
        self.entries.insert(p, Keyed { key, value });
        proof {
            let now = self.entries@;
            assert forall|i: int, j: int| 0 <= i < j < now.len() implies below(
                (#[trigger] now[i]).key@,
                (#[trigger] now[j]).key@,
            ) by {
                let pi = if i < p {
                    i
                } else {
                    i - 1
                };
                let pj = if j < p {
                    j
                } else {
                    j - 1
                };
                if i != p {
                    assert(now[i] == e[pi]);
                }
                if j != p {
                    assert(now[j] == e[pj]);
                }
            }
            lemma_inserted(e, now, p as int);
        }
        true
    }

    /// Takes the value of `key` away, if it has one.
    pub fn take(&mut self, key: &[u8]) -> (r: Option<V>)
        requires
            old(self).wf(),
        ensures
            final(self).wf(),
            final(self)@ == old(self)@.remove(key@),
            match r {
                Some(v) => old(self)@.dom().contains(key@) && v == old(self)@[key@],
                None => !old(self)@.dom().contains(key@),
            },
    {
        let ghost e = self.entries@;
        let (found, p) = self.find(key);
        if !found {
            proof {
                assert(self@.remove(key@) =~= self@);
            }
            return None;
        }
        let x = self.entries.remove(p);
        proof {
            let now = self.entries@;
            assert forall|i: int, j: int| 0 <= i < j < now.len() implies below(
                (#[trigger] now[i]).key@,
                (#[trigger] now[j]).key@,
            ) by {
                let pi = if i < p {
                    i
                } else {
                    i + 1
                };
                let pj = if j < p {
                    j
                } else {
                    j + 1
                };
                assert(now[i] == e[pi] && now[j] == e[pj]);
            }
            assert(e =~= now.insert(p as int, x));
            lemma_inserted(now, e, p as int);
            lemma_value_at(e, p as int);
            assert(!values_of(now).dom().contains(key@)) by {
                if has_key(now, key@) {
                    let i = choose|i: int| 0 <= i < now.len() && (#[trigger] now[i]).key@ == key@;
                    let q = if i < p {
                        i
                    } else {
                        i + 1
                    };
                    assert(e[q] == now[i]);
                    lemma_below_irreflexive(key@);
                    if q < p {
                        assert(below(e[q].key@, e[p as int].key@));
                    } else {
                        assert(below(e[p as int].key@, e[q].key@));
                    }
                }
            }
            assert(values_of(e).remove(key@) =~= values_of(now));
        }
        Some(x.value)
    }

    /// Takes the last key and its value away.
    pub fn pop(&mut self) -> (r: Option<(Vec<u8>, V)>)
        requires
            old(self).wf(),
        ensures
            final(self).wf(),
            match r {
                Some((k, v)) => {
                    &&& old(self)@.dom().contains(k@)
                    &&& v == old(self)@[k@]
                    &&& final(self)@ == old(self)@.remove(k@)
                    &&& final(self).keys().len() + 1 == old(self).keys().len()
                },
                None => old(self)@ == Map::<Seq<u8>, V>::empty() && final(self)@ == old(self)@,
            },
    {
        let n: usize = self.entries.len();
        if n == 0 {
            proof {
                assert(self@ =~= Map::empty());
            }
            return None;
        }
        let key = slice_to_vec(self.entries[n - 1].key.as_slice());
        proof {
            lemma_value_at(self.entries@, n - 1);
        }
        let ghost len = self.keys().len();
        let ghost e = self.entries@;
        match self.entries.pop() {
            Some(x) => {
                proof {
                    let now = self.entries@;
                    assert forall|i: int, j: int| 0 <= i < j < now.len() implies below(
                        (#[trigger] now[i]).key@,
                        (#[trigger] now[j]).key@,
                    ) by {
                        assert(now[i] == e[i] && now[j] == e[j]);
                    }
                    assert(e =~= now.insert(n - 1, x));
                    lemma_inserted(now, e, n - 1);
                    assert(!values_of(now).dom().contains(key@)) by {
                        if has_key(now, key@) {
                            let i = choose|i: int|
                                0 <= i < now.len() && (#[trigger] now[i]).key@ == key@;
                            lemma_below_irreflexive(key@);
                            assert(below(e[i].key@, e[n - 1].key@));
                        }
                    }
                    assert(values_of(e).remove(key@) =~= values_of(now));
                }
                Some((key, x.value))
            },
            None => None,
        }
    }

    /// Gives `key` a value, whether it had one or not.
    pub fn set(&mut self, key: Vec<u8>, value: V)
        requires
            old(self).wf(),
        ensures
            final(self).wf(),
            final(self)@ == old(self)@.insert(key@, value),
    {
        let ghost before = self@;
        let _old = self.take(key.as_slice());
        let _new = self.insert(key, value);
        proof {
            assert(before.remove(key@).insert(key@, value) =~= before.insert(key@, value));
        }
    }
}

proof fn lemma_inserted<V>(e: Seq<Keyed<V>>, now: Seq<Keyed<V>>, p: int)
    requires
        0 <= p < now.len(),
        ascending(e),
        ascending(now),
        now.len() == e.len() + 1,
        now == e.insert(p, now[p]),
    ensures
        values_of(now) == values_of(e).insert(now[p].key@, now[p].value),
{
    let m = values_of(now);
    let want = values_of(e).insert(now[p].key@, now[p].value);
    assert forall|x: Seq<u8>|
        #![trigger m.dom().contains(x)]
        #![trigger want.dom().contains(x)]
        #![trigger m[x]]
        m.dom().contains(x) == want.dom().contains(x) && (m.dom().contains(x) ==> m[x]
            == want[x]) by {
        if has_key(e, x) {
            let i = choose|i: int| 0 <= i < e.len() && (#[trigger] e[i]).key@ == x;
            let q = if i < p {
                i
            } else {
                i + 1
            };
            assert(now[q] == e[i]);
            lemma_value_at(now, q);
            lemma_value_at(e, i);
            lemma_below_irreflexive(x);
            if q < p {
                assert(below(now[q].key@, now[p].key@));
            } else {
                assert(below(now[p].key@, now[q].key@));
            }
        }
        if x == now[p].key@ {
            lemma_value_at(now, p);
        }
        if has_key(now, x) {
            let i = choose|i: int| 0 <= i < now.len() && (#[trigger] now[i]).key@ == x;
            if i < p {
                assert(now[i] == e[i]);
            } else if i > p {
                assert(now[i] == e[i - 1]);
            }
        }
    }
    assert(m.dom() =~= want.dom());
    assert(m =~= want);
}

} // verus!
