//! Byte strings in the order a sorted store keeps them.
use vstd::prelude::*;

verus! {

/// Where one value stands relative to another.
#[derive(Clone, Copy, Debug, PartialEq, Eq, Structural)]
pub enum Side {
    Before,
    Same,
    After,
}

/// `a` sorts before `b`: byte by byte, a proper prefix first.
pub open spec fn below(a: Seq<u8>, b: Seq<u8>) -> bool
    decreases a.len(),
{
    if b.len() == 0 {
        false
    } else if a.len() == 0 {
        true
    } else if a[0] != b[0] {
        a[0] < b[0]
    } else {
        below(a.skip(1), b.skip(1))
    }
}

/// `a` sorts before `b` or equals it.
pub open spec fn at_most(a: Seq<u8>, b: Seq<u8>) -> bool {
    !below(b, a)
}

/// Nothing sorts before itself.
pub proof fn lemma_below_irreflexive(a: Seq<u8>)
    ensures
        !below(a, a),
    decreases a.len(),
{
    if a.len() > 0 {
        lemma_below_irreflexive(a.skip(1));
    }
}

/// What sorts before something sorts before all that this sorts before.
pub proof fn lemma_below_transitive(a: Seq<u8>, b: Seq<u8>, c: Seq<u8>)
    requires
        below(a, b),
        below(b, c),
    ensures
        below(a, c),
    decreases a.len(),
{
    if a.len() > 0 && a[0] == b[0] && b[0] == c[0] {
        lemma_below_transitive(a.skip(1), b.skip(1), c.skip(1));
    }
}

/// Of two strings at most one sorts before the other.
pub proof fn lemma_below_asymmetric(a: Seq<u8>, b: Seq<u8>)
    requires
        below(a, b),
    ensures
        !below(b, a),
        a != b,
{
    lemma_below_irreflexive(a);
    if below(b, a) {
        lemma_below_transitive(a, b, a);
    }
}

/// Of two different strings one sorts before the other.
pub proof fn lemma_below_total(a: Seq<u8>, b: Seq<u8>)
    ensures
        below(a, b) || below(b, a) || a == b,
    decreases a.len(),
{
    if a.len() == 0 || b.len() == 0 {
        if a.len() == 0 && b.len() == 0 {
            assert(a =~= b);
        }
    } else if a[0] == b[0] {
        lemma_below_total(a.skip(1), b.skip(1));
        if a.skip(1) == b.skip(1) {
            assert(a =~= seq![a[0]] + a.skip(1));
            assert(b =~= seq![b[0]] + b.skip(1));
        }
    }
}

/// What does not sort after something sorts before all that this sorts before.
pub proof fn lemma_at_most_below(a: Seq<u8>, b: Seq<u8>, c: Seq<u8>)
    requires
        at_most(a, b),
        below(b, c),
    ensures
        below(a, c),
{
    lemma_below_total(a, b);
    if a != b {
        lemma_below_transitive(a, b, c);
    }
}

/// What sorts before something sorts before all that does not sort before this.
pub proof fn lemma_below_at_most(a: Seq<u8>, b: Seq<u8>, c: Seq<u8>)
    requires
        below(a, b),
        at_most(b, c),
    ensures
        below(a, c),
{
    lemma_below_total(b, c);
    if b != c {
        lemma_below_transitive(a, b, c);
    }
}

/// The order of two strings with a common head is the order of their tails.
pub proof fn lemma_below_common_head(head: Seq<u8>, a: Seq<u8>, b: Seq<u8>)
    ensures
        below(head + a, head + b) == below(a, b),
    decreases head.len(),
{
    if head.len() == 0 {
        assert(head + a =~= a);
        assert(head + b =~= b);
    } else {
        lemma_below_common_head(head.skip(1), a, b);
        assert((head + a).skip(1) =~= head.skip(1) + a);
        assert((head + b).skip(1) =~= head.skip(1) + b);
    }
}

/// Compares two byte strings.
pub fn side_of(a: &[u8], b: &[u8]) -> (r: Side)
    ensures
        r is Before <==> below(a@, b@),
        r is Same <==> a@ == b@,
        r is After <==> below(b@, a@),
{
    let mut i: usize = 0;
    while i < a.len() && i < b.len() && a[i] == b[i]
        invariant
            i <= a@.len(),
            i <= b@.len(),
            a@.take(i as int) == b@.take(i as int),
        decreases a@.len() - i,
    {
        proof {
            assert(a@.take(i + 1) =~= a@.take(i as int).push(a@[i as int]));
            assert(b@.take(i + 1) =~= b@.take(i as int).push(b@[i as int]));
        }
        i += 1;
    }
    proof {
        let head = a@.take(i as int);
        let ta = a@.skip(i as int);
        let tb = b@.skip(i as int);
        assert(a@ =~= head + ta);
        assert(b@ =~= head + tb);
        lemma_below_common_head(head, ta, tb);
        lemma_below_common_head(head, tb, ta);
        if i == a@.len() && i == b@.len() {
            assert(a@ =~= b@);
        }
        if i < a@.len() {
            assert(ta[0] == a@[i as int]);
        }
        if i < b@.len() {
            assert(tb[0] == b@[i as int]);
        }
    }
    if i == a.len() {
        if i == b.len() {
            Side::Same
        } else {
            Side::Before
        }
    } else if i == b.len() {
        Side::After
    } else if a[i] < b[i] {
        Side::Before
    } else {
        Side::After
    }
}

pub fn is_below(a: &[u8], b: &[u8]) -> (r: bool)
    ensures
        r == below(a@, b@),
{
    match side_of(a, b) {
        Side::Before => true,
        _ => false,
    }
}

pub fn same_bytes(a: &[u8], b: &[u8]) -> (r: bool)
    ensures
        r == (a@ == b@),
{
    match side_of(a, b) {
        Side::Same => true,
        _ => false,
    }
}

/// `s` begins with `prefix`.
pub open spec fn begins_with(s: Seq<u8>, prefix: Seq<u8>) -> bool {
    prefix.len() <= s.len() && s.take(prefix.len() as int) == prefix
}

pub fn starts_with(s: &[u8], prefix: &[u8]) -> (r: bool)
    ensures
        r == begins_with(s@, prefix@),
{
    if prefix.len() > s.len() {
        return false;
    }
    let mut i: usize = 0;
    while i < prefix.len()
        invariant
            i <= prefix@.len() <= s@.len(),
            forall|j: int| 0 <= j < i ==> s@[j] == prefix@[j],
        decreases prefix@.len() - i,
    {
        if s[i] != prefix[i] {
            proof {
                assert(s@.take(prefix@.len() as int)[i as int] != prefix@[i as int]);
            }
            return false;
        }
        i += 1;
    }
    proof {
        assert(s@.take(prefix@.len() as int) =~= prefix@);
    }
    true
}

/// Strings that begin with `prefix` stand together, after everything below it.
pub proof fn lemma_prefix_not_below(s: Seq<u8>, prefix: Seq<u8>)
    requires
        begins_with(s, prefix),
    ensures
        !below(s, prefix),
    decreases prefix.len(),
{
    if prefix.len() > 0 {
        assert(s[0] == s.take(prefix.len() as int)[0]);
        assert(s.skip(1).take(prefix.len() - 1) =~= s.take(prefix.len() as int).skip(1));
        lemma_prefix_not_below(s.skip(1), prefix.skip(1));
    }
}

/// What sorts between two strings with a common prefix has the prefix too.
pub proof fn lemma_prefix_convex(a: Seq<u8>, m: Seq<u8>, prefix: Seq<u8>)
    requires
        begins_with(a, prefix),
        !below(m, prefix),
        at_most(m, a),
    ensures
        begins_with(m, prefix),
    decreases prefix.len(),
{
    if prefix.len() > 0 {
        assert(a[0] == a.take(prefix.len() as int)[0]);
        assert(a.skip(1).take(prefix.len() - 1) =~= a.take(prefix.len() as int).skip(1));
        lemma_prefix_convex(a.skip(1), m.skip(1), prefix.skip(1));
        assert(m.take(prefix.len() as int) =~= seq![m[0]] + m.skip(1).take(prefix.len() - 1));
        assert(prefix =~= seq![prefix[0]] + prefix.skip(1));
    } else {
        assert(m.take(0) =~= prefix);
    }
}

} // verus!
