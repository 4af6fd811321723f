//! A Bloom filter over row keys: it never denies a key that was put in.
use vstd::prelude::*;

verus! {

/// How many bits a key sets.
pub const PROBES: usize = 7;

const FNV_OFFSET: u64 = 0xcbf2_9ce4_8422_2325;

const FNV_PRIME: u64 = 0x100_0000_01b3;

/// The most keys a filter is sized for; its length is stored in four bytes.
const MAX_SIZED: usize = 0x1000_0000;

/// FNV-1a over the bytes of `key`.
pub open spec fn hash(key: Seq<u8>) -> u64
    decreases key.len(),
{
    if key.len() == 0 {
        0xcbf2_9ce4_8422_2325
    } else {
        (hash(key.drop_last()) ^ (key.last() as u64)).wrapping_mul(0x100_0000_01b3)
    }
}

/// The `i`-th bit of a filter of `m` bits that stands for `key`.
pub open spec fn probe(key: Seq<u8>, i: nat, m: nat) -> nat {
    ((hash(key) % 0x1_0000_0000 + i * (hash(key) / 0x1_0000_0000 + 1)) % m as int) as nat
}

/// The length in bytes of a filter over `n` keys: ten bits for each, and eight bytes.
pub open spec fn filter_len(n: nat) -> nat {
    let k = if n < 0x1000_0000 { n } else { 0x1000_0000 };
    k + k / 4 + 8
}

pub open spec fn bit(bits: Seq<u8>, p: nat) -> bool {
    bits[(p / 8) as int] & (1u8 << ((p % 8) as u8)) != 0
}

pub open spec fn mark(bits: Seq<u8>, p: nat) -> Seq<u8> {
    bits.update((p / 8) as int, bits[(p / 8) as int] | (1u8 << ((p % 8) as u8)))
}

/// `bits` with the first `n` bits of `key` set.
pub open spec fn mark_key(bits: Seq<u8>, key: Seq<u8>, n: nat) -> Seq<u8>
    decreases n,
{
    if n == 0 {
        bits
    } else {
        mark(mark_key(bits, key, (n - 1) as nat), probe(key, (n - 1) as nat, 8 * bits.len()))
    }
}

/// `bits` with the bits of every key set.
pub open spec fn mark_all(bits: Seq<u8>, keys: Seq<Seq<u8>>) -> Seq<u8>
    decreases keys.len(),
{
    if keys.len() == 0 {
        bits
    } else {
        mark_key(mark_all(bits, keys.drop_last()), keys.last(), PROBES as nat)
    }
}

/// The filter over `keys`.
pub open spec fn filter_of(keys: Seq<Seq<u8>>) -> Seq<u8> {
    mark_all(Seq::new(filter_len(keys.len()), |i: int| 0u8), keys)
}

/// What the filter `bits` says of `key`. A filter without bits denies nothing.
pub open spec fn admits(bits: Seq<u8>, key: Seq<u8>) -> bool {
    bits.len() == 0 || forall|i: nat| i < PROBES ==> bit(bits, #[trigger] probe(key, i, 8 * bits.len()))
}

proof fn lemma_mark(bits: Seq<u8>, p: nat, q: nat)
    requires
        p < 8 * bits.len(),
        q < 8 * bits.len(),
    ensures
        mark(bits, p).len() == bits.len(),
        bit(mark(bits, p), p),
        bit(bits, q) ==> bit(mark(bits, p), q),
{
    let b = bits[(p / 8) as int];
    let s = (p % 8) as u8;
    let c = bits[(q / 8) as int];
    let t = (q % 8) as u8;
    assert((b | (1u8 << s)) & (1u8 << s) != 0) by (bit_vector)
        requires
            s < 8,
    ;
    assert(c & (1u8 << t) != 0 ==> (c | (1u8 << s)) & (1u8 << t) != 0) by (bit_vector);
}

proof fn lemma_mark_key(bits: Seq<u8>, key: Seq<u8>, n: nat)
    requires
        bits.len() > 0,
    ensures
        mark_key(bits, key, n).len() == bits.len(),
        forall|i: nat| i < n ==> bit(mark_key(bits, key, n), #[trigger] probe(key, i, 8 * bits.len())),
        forall|q: nat| q < 8 * bits.len() && bit(bits, q) ==> #[trigger] bit(mark_key(bits, key, n), q),
    decreases n,
{
    if n > 0 {
        lemma_mark_key(bits, key, (n - 1) as nat);
        let was = mark_key(bits, key, (n - 1) as nat);
        let p = probe(key, (n - 1) as nat, 8 * bits.len());
        assert forall|i: nat| i < n implies bit(
            mark_key(bits, key, n),
            #[trigger] probe(key, i, 8 * bits.len()),
        ) by {
            lemma_mark(was, p, probe(key, i, 8 * bits.len()));
        }
        assert forall|q: nat| q < 8 * bits.len() && bit(bits, q) implies #[trigger] bit(
            mark_key(bits, key, n),
            q,
        ) by {
            lemma_mark(was, p, q);
        }
        lemma_mark(was, p, p);
    }
}

proof fn lemma_mark_all(bits: Seq<u8>, keys: Seq<Seq<u8>>)
    requires
        bits.len() > 0,
    ensures
        mark_all(bits, keys).len() == bits.len(),
        forall|j: int| 0 <= j < keys.len() ==> admits(mark_all(bits, keys), #[trigger] keys[j]),
    decreases keys.len(),
{
    if keys.len() > 0 {
        let head = keys.drop_last();
        let was = mark_all(bits, head);
        lemma_mark_all(bits, head);
        lemma_mark_key(was, keys.last(), PROBES as nat);
        assert forall|j: int| 0 <= j < keys.len() implies admits(
            mark_all(bits, keys),
            #[trigger] keys[j],
        ) by {
            if j < keys.len() - 1 {
                assert(admits(was, head[j]));
            }
        }
    }
}

/// The filter over a set of keys admits each of them.
pub proof fn lemma_filter_admits(keys: Seq<Seq<u8>>, j: int)
    requires
        0 <= j < keys.len(),
    ensures
        admits(filter_of(keys), keys[j]),
{
    lemma_mark_all(Seq::new(filter_len(keys.len()), |i: int| 0u8), keys);
}

/// How many bytes a filter has goes by how many keys there are.
pub proof fn lemma_filter_len(keys: Seq<Seq<u8>>)
    ensures
        filter_of(keys).len() == filter_len(keys.len()),
        filter_len(keys.len()) <= 0x1400_0008,
{
    lemma_mark_all(Seq::new(filter_len(keys.len()), |i: int| 0u8), keys);
}

fn hash_of(key: &[u8]) -> (h: u64)
    ensures
        h == hash(key@),
{
    let mut h: u64 = FNV_OFFSET;
    let mut i: usize = 0;
    proof {
        assert(key@.take(0) =~= Seq::<u8>::empty());
    }
    while i < key.len()
        invariant
            i <= key@.len(),
            h == hash(key@.take(i as int)),
        decreases key@.len() - i,
    {
        proof {
            let next = key@.take(i + 1);
            assert(next.drop_last() =~= key@.take(i as int));
            assert(next.last() == key@[i as int]);
        }
        h = (h ^ (key[i] as u64)).wrapping_mul(FNV_PRIME);
        i += 1;
    }
    proof {
        assert(key@.take(key@.len() as int) =~= key@);
    }
    h
}

fn probe_of(h: u64, i: usize, bytes: usize) -> (r: (usize, u8))
    requires
        i < PROBES,
        0 < bytes,
    ensures
        ({
            let m = 8 * (bytes as nat);
            let p = ((h % 0x1_0000_0000 + i * (h / 0x1_0000_0000 + 1)) % m as int) as nat;
            r.0 == p / 8 && r.1 == p % 8 && r.0 < bytes
        }),
{
    let m: u128 = 8 * (bytes as u128);
    let step: u128 = (h / 0x1_0000_0000) as u128 + 1;
    proof {
        assert(i * step <= 7 * 0x1_0000_0000) by (nonlinear_arith)
            requires
                i <= 7,
                step <= 0x1_0000_0000,
        ;
    }
    let p: u128 = ((h % 0x1_0000_0000) as u128 + i as u128 * step) % m;
    ((p / 8) as usize, (p % 8) as u8)
}

/// A filter, as the bytes it is stored in.
pub struct Bloom {
    bits: Vec<u8>,
}

impl View for Bloom {
    type V = Seq<u8>;

    closed spec fn view(&self) -> Seq<u8> {
        self.bits@
    }
}

impl Bloom {
    /// The filter over `keys`.
    pub fn build(keys: &[Vec<u8>]) -> (r: Bloom)
        ensures
            r@ == filter_of(Seq::new(keys@.len(), |i: int| keys@[i]@)),
    {
        let n: usize = keys.len();
        let k: usize = if n < MAX_SIZED {
            n
        } else {
            MAX_SIZED
        };
        let len: usize = k + k / 4 + 8;
        let mut bits: Vec<u8> = vec![0u8; len];
        let ghost all = Seq::new(keys@.len(), |i: int| keys@[i]@);
        let ghost zeros = Seq::new(filter_len(keys@.len()), |i: int| 0u8);
        proof {
            assert(bits@ =~= zeros);
            assert(all.take(0) =~= Seq::<Seq<u8>>::empty());
        }
        let mut j: usize = 0;
        while j < keys.len()
            invariant
                j <= keys@.len(),
                all == Seq::new(keys@.len(), |i: int| keys@[i]@),
                bits@ == mark_all(zeros, all.take(j as int)),
                bits@.len() == len == zeros.len(),
                len > 0,
            decreases keys@.len() - j,
        {
            let h: u64 = hash_of(keys[j].as_slice());
            let ghost was = bits@;
            let ghost key = keys@[j as int]@;
            let mut i: usize = 0;
            while i < PROBES
                invariant
                    i <= PROBES,
                    h == hash(key),
                    was.len() == len,
                    bits@ == mark_key(was, key, i as nat),
                    bits@.len() == len,
                    len > 0,
                decreases PROBES - i,
            {
                let (at, shift) = probe_of(h, i, len);
                proof {
                    assert(8 * was.len() == 8 * (len as nat));
                }
                bits[at] = bits[at] | (1u8 << shift);
                proof {
                    assert(bits@ =~= mark_key(was, key, (i + 1) as nat));
                }
                i += 1;
            }
            proof {
                assert(all.take(j + 1).drop_last() =~= all.take(j as int));
                assert(all.take(j + 1).last() == key);
            }
            j += 1;
        }
        proof {
            assert(all.take(all.len() as int) =~= all);
        }
        Bloom { bits }
    }

    pub fn as_bytes(&self) -> (r: &[u8])
        ensures
            r@ == self@,
    {
        self.bits.as_slice()
    }

    pub fn from_bytes(bits: Vec<u8>) -> (r: Bloom)
        ensures
            r@ == bits@,
    {
        Bloom { bits }
    }

    /// `false` only for a key that was not put in.
    pub fn may_contain(&self, key: &[u8]) -> (r: bool)
        ensures
            r == admits(self@, key@),
    {
        let len: usize = self.bits.len();
        if len == 0 {
            return true;
        }
        let h: u64 = hash_of(key);
        let mut i: usize = 0;
        while i < PROBES
            invariant
                i <= PROBES,
                h == hash(key@),
                0 < len == self@.len(),
                forall|j: nat| j < i ==> bit(self@, #[trigger] probe(key@, j, 8 * self@.len())),
            decreases PROBES - i,
        {
            let (at, shift) = probe_of(h, i, len);
            let b: u8 = self.bits[at];
            let ghost p = probe(key@, i as nat, 8 * self@.len());
            proof {
                assert(at == p / 8 && shift == p % 8);
            }
            if b & (1u8 << shift) == 0 {
                proof {
                    assert(!bit(self@, p));
                }
                return false;
            }
            i += 1;
        }
        true
    }
}

} // verus!
