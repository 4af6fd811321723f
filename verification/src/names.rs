//! Sets of names, in order.
use crate::http::strings_view;
use crate::order::{below, lemma_below_irreflexive, lemma_below_transitive, side_of, Side};
use vstd::prelude::*;
use vstd::utf8::{encode_utf8, encode_utf8_decode_utf8};

verus! {

/// Names in ascending byte order, none twice.
pub open spec fn ascending_names(l: Seq<Seq<char>>) -> bool {
    forall|i: int, j: int|
        0 <= i < j < l.len() ==> below(encode_utf8(#[trigger] l[i]), encode_utf8(#[trigger] l[j]))
}

/// A set of names.
pub struct Names {
    list: Vec<String>,
}

impl View for Names {
    type V = Set<Seq<char>>;

    closed spec fn view(&self) -> Set<Seq<char>> {
        strings_view(self.list@).to_set()
    }
}

proof fn lemma_same_name(a: Seq<char>, b: Seq<char>)
    requires
        encode_utf8(a) == encode_utf8(b),
    ensures
        a == b,
{
    encode_utf8_decode_utf8(a);
    encode_utf8_decode_utf8(b);
}

impl Names {
    pub closed spec fn wf(&self) -> bool {
        ascending_names(strings_view(self.list@))
    }

    /// The names in order.
    pub closed spec fn listed(&self) -> Seq<Seq<char>> {
        strings_view(self.list@)
    }

    /// The order is ascending and holds just the names of the set.
    pub proof fn lemma_listed(&self)
        requires
            self.wf(),
        ensures
            ascending_names(self.listed()),
            self@ == self.listed().to_set(),
    {
    }

    pub fn new() -> (r: Names)
        ensures
            r.wf(),
            r@ == Set::<Seq<char>>::empty(),
            r.listed() == Seq::<Seq<char>>::empty(),
    {
        let r = Names { list: Vec::new() };
        proof {
            assert(r.listed() =~= Seq::empty());
            assert(r@ =~= Set::empty());
        }
        r
    }

    pub fn len(&self) -> (r: usize)
        ensures
            r == self.listed().len(),
    {
        self.list.len()
    }

    /// The name at position `i`.
    pub fn at(&self, i: usize) -> (r: &str)
        requires
            i < self.listed().len(),
        ensures
            r@ == self.listed()[i as int],
    {
        self.list[i].as_str()
    }

    /// Where `name` stands, or would stand.
    fn find(&self, name: &str) -> (r: (bool, usize))
        requires
            self.wf(),
        ensures
            r.0 == self@.contains(name@),
            r.1 <= self.list@.len(),
            r.0 ==> r.1 < self.list@.len() && self.list@[r.1 as int]@ == name@,
            forall|i: int|
                0 <= i < r.1 ==> below(
                    encode_utf8(#[trigger] self.listed()[i]),
                    encode_utf8(name@),
                ),
            !r.0 ==> forall|i: int|
                r.1 <= i < self.list@.len() ==> below(
                    encode_utf8(name@),
                    encode_utf8(#[trigger] self.listed()[i]),
                ),
    {
        let ghost l = self.listed();
        let mut lo: usize = 0;
        let mut hi: usize = self.list.len();
        while lo < hi
            invariant
                self.wf(),
                l == self.listed(),
                lo <= hi <= self.list@.len(),
                forall|i: int|
                    0 <= i < lo ==> below(encode_utf8(#[trigger] l[i]), encode_utf8(name@)),
                forall|i: int|
                    hi <= i < l.len() ==> below(encode_utf8(name@), encode_utf8(#[trigger] l[i])),
            decreases hi - lo,
        {
            let mid: usize = lo + (hi - lo) / 2;
            let ghost m = encode_utf8(l[mid as int]);
            let ghost n = encode_utf8(name@);
            proof {
                assert(l[mid as int] == self.list@[mid as int]@);
            }
            match side_of(self.list[mid].as_str().as_bytes(), name.as_bytes()) {
                Side::Same => {
                    proof {
                        lemma_same_name(l[mid as int], name@);
                        assert(l.to_set().contains(l[mid as int])) by {
                            assert(l.contains(l[mid as int]));
                        }
                        assert forall|i: int| 0 <= i < mid implies below(
                            encode_utf8(#[trigger] l[i]),
                            n,
                        ) by {
                            assert(below(encode_utf8(l[i]), encode_utf8(l[mid as int])));
                        }
                    }
                    return (true, mid);
                },
                Side::Before => {
                    proof {
                        assert forall|i: int| 0 <= i < mid + 1 implies below(
                            encode_utf8(#[trigger] l[i]),
                            n,
                        ) by {
                            if i < mid {
                                assert(below(encode_utf8(l[i]), encode_utf8(l[mid as int])));
                                lemma_below_transitive(encode_utf8(l[i]), m, n);
                            }
                        }
                    }
                    lo = mid + 1;
                },
                Side::After => {
                    proof {
                        assert forall|i: int| mid <= i < l.len() implies below(
                            n,
                            encode_utf8(#[trigger] l[i]),
                        ) by {
                            if i > mid {
                                assert(below(encode_utf8(l[mid as int]), encode_utf8(l[i])));
                                lemma_below_transitive(n, m, encode_utf8(l[i]));
                            }
                        }
                    }
                    hi = mid;
                },
            }
        }
        proof {
            if l.to_set().contains(name@) {
                let i = choose|i: int| 0 <= i < l.len() && l[i] == name@;
                lemma_below_irreflexive(encode_utf8(name@));
                if i < lo {
                    assert(below(encode_utf8(l[i]), encode_utf8(name@)));
                } else {
                    assert(below(encode_utf8(name@), encode_utf8(l[i])));
                }
            }
        }
        (false, lo)
    }

    pub fn contains(&self, name: &str) -> (r: bool)
        requires
            self.wf(),
        ensures
            r == self@.contains(name@),
    {
        let (found, _i) = self.find(name);
        found
    }

    /// Adds a name. `true` where it was not there.
    pub fn insert(&mut self, name: String) -> (r: bool)
        requires
            old(self).wf(),
        ensures
            final(self).wf(),
            final(self)@ == old(self)@.insert(name@),
            r == !old(self)@.contains(name@),
            final(self).listed().len() == old(self).listed().len() + (if r {
                1int
            } else {
                0
            }),
    {
        let ghost before = self.listed();
        let (found, p) = self.find(name.as_str());
        let ghost n = name@;
        if found {
            proof {
                assert(self@ =~= old(self)@.insert(n));
            }
            return false;
        }
        self.list.insert(p, name);
        proof {
            let now = self.listed();
            assert(now =~= before.insert(p as int, n));
            assert forall|i: int, j: int| 0 <= i < j < now.len() implies below(
                encode_utf8(#[trigger] now[i]),
                encode_utf8(#[trigger] now[j]),
            ) by {
                let pi = if i < p {
                    i
                } else {
                    i - 1
                };
                let pj = if j < p {
                    j
                } else {
                    j - 1
                };
                if i != p {
                    assert(now[i] == before[pi]);
                }
                if j != p {
                    assert(now[j] == before[pj]);
                }
            }
            assert forall|s: Seq<char>| #[trigger]
                now.to_set().contains(s) == before.to_set().insert(n).contains(s) by {
                if before.contains(s) {
                    let i = choose|i: int| 0 <= i < before.len() && before[i] == s;
                    if i < p {
                        assert(now[i] == s);
                    } else {
                        assert(now[i + 1] == s);
                    }
                }
                if s == n {
                    assert(now[p as int] == s);
                }
                if now.contains(s) {
                    let i = choose|i: int| 0 <= i < now.len() && now[i] == s;
                    if i < p {
                        assert(before[i] == s);
                    } else if i > p {
                        assert(before[i - 1] == s);
                    }
                }
            }
            assert(self@ =~= old(self)@.insert(n));
        }
        true
    }

    /// Adds every name of `other`.
    pub fn extend(&mut self, other: &Names)
        requires
            old(self).wf(),
            other.wf(),
        ensures
            final(self).wf(),
            final(self)@ == old(self)@.union(other@),
    {
        let ghost first = self@;
        let ghost l = other.listed();
        let mut i: usize = 0;
        proof {
            assert(l.take(0).to_set() =~= Set::empty());
            assert(self@ =~= first.union(l.take(0).to_set()));
        }
        while i < other.list.len()
            invariant
                self.wf(),
                l == other.listed(),
                i <= other.list@.len(),
                self@ == first.union(l.take(i as int).to_set()),
            decreases other.list@.len() - i,
        {
            self.insert(other.list[i].clone());
            proof {
                assert(other.list@[i as int]@ == l[i as int]);
                assert(l.take(i + 1) =~= l.take(i as int).push(l[i as int]));
                lemma_push_set(l.take(i as int), l[i as int]);
                assert(self@ =~= first.union(l.take(i + 1).to_set()));
            }
            i += 1;
        }
        proof {
            assert(l.take(l.len() as int) =~= l);
        }
    }

    /// The names that `other` does not hold, in order.
    pub fn difference(&self, other: &Names) -> (r: Vec<String>)
        requires
            self.wf(),
            other.wf(),
        ensures
            strings_view(r@) == self.listed().filter(|s: Seq<char>| !other@.contains(s)),
    {
        let ghost l = self.listed();
        let ghost keep = |s: Seq<char>| !other@.contains(s);
        let mut r: Vec<String> = Vec::new();
        let mut i: usize = 0;
        proof {
            reveal(Seq::filter);
            assert(l.take(0) =~= Seq::empty());
            assert(strings_view(r@) =~= Seq::empty());
        }
        while i < self.list.len()
            invariant
                other.wf(),
                l == self.listed(),
                keep == (|s: Seq<char>| !other@.contains(s)),
                i <= self.list@.len(),
                strings_view(r@) == l.take(i as int).filter(keep),
            decreases self.list@.len() - i,
        {
            let ghost was = strings_view(r@);
            proof {
                reveal(Seq::filter);
                assert(l.take(i + 1).drop_last() =~= l.take(i as int));
                assert(l.take(i + 1).last() == self.list@[i as int]@);
            }
            if !other.contains(self.list[i].as_str()) {
                r.push(self.list[i].clone());
                proof {
                    assert(strings_view(r@) =~= was.push(l[i as int]));
                }
            }
            i += 1;
        }
        proof {
            assert(l.take(l.len() as int) =~= l);
        }
        r
    }
}

proof fn lemma_push_set(s: Seq<Seq<char>>, x: Seq<char>)
    ensures
        s.push(x).to_set() == s.to_set().insert(x),
{
    assert forall|y: Seq<char>| #[trigger]
        s.push(x).to_set().contains(y) == s.to_set().insert(x).contains(y) by {
        if s.contains(y) {
            let i = choose|i: int| 0 <= i < s.len() && s[i] == y;
            assert(s.push(x)[i] == y);
        }
        if y == x {
            assert(s.push(x)[s.len() as int] == y);
        }
        if s.push(x).contains(y) {
            let i = choose|i: int| 0 <= i < s.push(x).len() && s.push(x)[i] == y;
            if i < s.len() {
                assert(s[i] == y);
            }
        }
    }
    assert(s.push(x).to_set() =~= s.to_set().insert(x));
}

} // verus!
