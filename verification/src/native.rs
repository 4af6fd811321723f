//! Words as the machine that runs this lays them out in memory.
use crate::codec::{from_le, le, lemma_from_le_le, lemma_le_from_le, lemma_le_len, span_of};
use vstd::endian::{endianness, Endian};
use vstd::prelude::*;

verus! {

/// The low `w` bytes of `x` in the machine's order.
pub open spec fn native(x: nat, w: nat) -> Seq<u8> {
    match endianness() {
        Endian::Little => le(x, w),
        Endian::Big => le(x, w).reverse(),
    }
}

/// The number that `s` spells in the machine's order.
pub open spec fn from_native(s: Seq<u8>) -> nat {
    match endianness() {
        Endian::Little => from_le(s),
        Endian::Big => from_le(s.reverse()),
    }
}

/// The number in `w` bytes of `s` at `at`, in the machine's order.
pub open spec fn native_at(s: Seq<u8>, at: int, w: int) -> nat {
    from_native(s.subrange(at, at + w))
}

/// Reading back what was written gives the number, as long as it fits the width.
pub proof fn lemma_native_reads_back(x: nat, w: nat)
    requires
        x < span_of(w),
    ensures
        native(x, w).len() == w,
        from_native(native(x, w)) == x,
{
    lemma_le_len(x, w);
    lemma_from_le_le(x, w);
    assert(le(x, w).reverse().reverse() =~= le(x, w));
}

/// Writing what was read gives the bytes back.
pub proof fn lemma_native_writes_back(s: Seq<u8>)
    ensures
        native(from_native(s), s.len()) == s,
        from_native(s) < span_of(s.len()),
{
    lemma_le_from_le(s);
    lemma_le_from_le(s.reverse());
    assert(s.reverse().reverse() =~= s);
}

/// `u32::to_ne_bytes`: the four bytes of a number in the machine's order.
#[verifier::external_body]
fn to_bytes(v: u32) -> (r: [u8; 4])
    ensures
        r@ == native(v as nat, 4),
{
    v.to_ne_bytes()
}

/// `u32::from_ne_bytes`: the number that four bytes spell in the machine's order.
#[verifier::external_body]
fn from_four(b: [u8; 4]) -> (r: u32)
    ensures
        r as nat == from_native(b@),
{
    u32::from_ne_bytes(b)
}

/// `u64::from_ne_bytes`: the number that eight bytes spell in the machine's order.
#[verifier::external_body]
fn from_eight(b: [u8; 8]) -> (r: u64)
    ensures
        r as nat == from_native(b@),
{
    u64::from_ne_bytes(b)
}

/// Appends `v` as four bytes.
pub fn put_word(out: &mut Vec<u8>, v: u32)
    ensures
        final(out)@ == old(out)@ + native(v as nat, 4),
{
    let ghost before = out@;
    let b = to_bytes(v);
    out.push(b[0]);
    out.push(b[1]);
    out.push(b[2]);
    out.push(b[3]);
    proof {
        assert(out@ =~= before + b@);
    }
}

/// The four bytes of `b` at `at`, read as a number.
pub fn word_at(b: &[u8], at: usize) -> (v: u32)
    requires
        at + 4 <= b@.len(),
    ensures
        v as nat == native_at(b@, at as int, 4),
{
    assert(at + 4 <= b.len());
    let w = [b[at], b[at + 1], b[at + 2], b[at + 3]];
    proof {
        assert(w@ =~= b@.subrange(at as int, at + 4));
    }
    from_four(w)
}

/// The eight bytes of `b` at `at`, read as a number.
pub fn long_word_at(b: &[u8], at: usize) -> (v: u64)
    requires
        at + 8 <= b@.len(),
    ensures
        v as nat == native_at(b@, at as int, 8),
{
    assert(at + 8 <= b.len());
    let w = [
        b[at],
        b[at + 1],
        b[at + 2],
        b[at + 3],
        b[at + 4],
        b[at + 5],
        b[at + 6],
        b[at + 7],
    ];
    proof {
        assert(w@ =~= b@.subrange(at as int, at + 8));
    }
    from_eight(w)
}

} // verus!
