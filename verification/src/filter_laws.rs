//! Laws of the filters of a run: a bit is set where it stands for one of the keys, and nowhere else.
use crate::bloom::{admits, bit, filter_len, filter_of, mark, mark_all, mark_key, probe, PROBES};
use vstd::prelude::*;

verus! {

/// Bit `q` of a filter of `m` bits stands for `key`.
pub open spec fn stands_for(key: Seq<u8>, q: nat, m: nat) -> bool {
    exists|i: nat| i < PROBES && #[trigger] probe(key, i, m) == q
}

/// Setting a bit sets that bit and no other.
proof fn lemma_one_bit(bits: Seq<u8>, p: nat, q: nat)
    requires
        p < 8 * bits.len(),
        q < 8 * bits.len(),
    ensures
        mark(bits, p).len() == bits.len(),
        bit(mark(bits, p), q) <==> p == q || bit(bits, q),
{
    let b = bits[(p / 8) as int];
    let s = (p % 8) as u8;
    let t = (q % 8) as u8;
    assert(((b | (1u8 << s)) & (1u8 << t) != 0) <==> (s == t || b & (1u8 << t) != 0))
        by (bit_vector)
        requires
            s < 8,
            t < 8,
    ;
    if p / 8 == q / 8 {
        assert(p == q <==> s == t);
    }
}

/// A bit that stands for a key is a bit of the filter.
proof fn lemma_probe_within(key: Seq<u8>, i: nat, m: nat)
    requires
        m > 0,
    ensures
        probe(key, i, m) < m,
{
    let x = crate::bloom::hash(key) % 0x1_0000_0000 + i * (crate::bloom::hash(key)
        / 0x1_0000_0000 + 1);
    vstd::arithmetic::div_mod::lemma_mod_bound(x, m as int);
}

proof fn lemma_bits_of_key(bits: Seq<u8>, key: Seq<u8>, n: nat, q: nat)
    requires
        q < 8 * bits.len(),
    ensures
        mark_key(bits, key, n).len() == bits.len(),
        bit(mark_key(bits, key, n), q) <==> bit(bits, q) || exists|i: nat|
            i < n && #[trigger] probe(key, i, 8 * bits.len()) == q,
    decreases n,
{
    if n > 0 {
        let m = 8 * bits.len();
        let was = mark_key(bits, key, (n - 1) as nat);
        let p = probe(key, (n - 1) as nat, m);
        lemma_bits_of_key(bits, key, (n - 1) as nat, q);
        lemma_probe_within(key, (n - 1) as nat, m);
        lemma_one_bit(was, p, q);
        if exists|i: nat| i < n && #[trigger] probe(key, i, m) == q {
            let i = choose|i: nat| i < n && #[trigger] probe(key, i, m) == q;
            assert(i == n - 1 || i < n - 1);
        }
    }
}

proof fn lemma_bits_of_keys(bits: Seq<u8>, keys: Seq<Seq<u8>>, q: nat)
    requires
        q < 8 * bits.len(),
    ensures
        mark_all(bits, keys).len() == bits.len(),
        bit(mark_all(bits, keys), q) <==> bit(bits, q) || exists|j: int|
            0 <= j < keys.len() && stands_for(#[trigger] keys[j], q, 8 * bits.len()),
    decreases keys.len(),
{
    if keys.len() > 0 {
        let m = 8 * bits.len();
        let head = keys.drop_last();
        lemma_bits_of_keys(bits, head, q);
        lemma_bits_of_key(mark_all(bits, head), keys.last(), PROBES as nat, q);
        assert(keys[keys.len() - 1] == keys.last());
        if exists|j: int| 0 <= j < head.len() && stands_for(#[trigger] head[j], q, m) {
            let j = choose|j: int| 0 <= j < head.len() && stands_for(#[trigger] head[j], q, m);
            assert(keys[j] == head[j]);
        }
        if exists|j: int| 0 <= j < keys.len() && stands_for(#[trigger] keys[j], q, m) {
            let j = choose|j: int| 0 <= j < keys.len() && stands_for(#[trigger] keys[j], q, m);
            if j < head.len() {
                assert(head[j] == keys[j]);
            }
        }
    }
}

/// A bit of a filter is set exactly where it stands for one of the keys.
pub proof fn lemma_filter_has_no_other_bits(keys: Seq<Seq<u8>>, q: nat)
    requires
        q < 8 * filter_len(keys.len()),
    ensures
        bit(filter_of(keys), q) <==> exists|j: int|
            0 <= j < keys.len() && stands_for(#[trigger] keys[j], q, 8 * filter_len(keys.len())),
{
    let zeros = Seq::new(filter_len(keys.len()), |i: int| 0u8);
    lemma_bits_of_keys(zeros, keys, q);
    let t = (q % 8) as u8;
    assert(0u8 & (1u8 << t) == 0) by (bit_vector);
}

/// A filter denies each key of which some bit stands for none of the keys it is over.
pub proof fn lemma_filter_denies(keys: Seq<Seq<u8>>, key: Seq<u8>, i: nat)
    requires
        i < PROBES,
        forall|j: int|
            0 <= j < keys.len() ==> !stands_for(
                #[trigger] keys[j],
                probe(key, i, 8 * filter_len(keys.len())),
                8 * filter_len(keys.len()),
            ),
    ensures
        !admits(filter_of(keys), key),
{
    let m = 8 * filter_len(keys.len());
    lemma_probe_within(key, i, m);
    lemma_filter_has_no_other_bits(keys, probe(key, i, m));
    crate::bloom::lemma_filter_len(keys);
    assert(!bit(filter_of(keys), probe(key, i, 8 * filter_of(keys).len())));
}

/// A filter over no keys denies every key.
pub proof fn lemma_empty_filter_denies(key: Seq<u8>)
    ensures
        !admits(filter_of(Seq::empty()), key),
{
    lemma_filter_denies(Seq::empty(), key, 0);
}

} // verus!
