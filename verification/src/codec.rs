//! Fixed-width integers as bytes.
use vstd::prelude::*;

verus! {

/// 256 to the power of `w`: how many values fit in `w` bytes.
pub open spec fn span_of(w: nat) -> nat
    decreases w,
{
    if w == 0 {
        1
    } else {
        256 * span_of((w - 1) as nat)
    }
}

/// The low `w` bytes of `x`, least significant first.
#[verifier::opaque]
pub open spec fn le(x: nat, w: nat) -> Seq<u8>
    decreases w,
{
    if w == 0 {
        Seq::empty()
    } else {
        seq![(x % 256) as u8] + le(x / 256, (w - 1) as nat)
    }
}

/// The number that `s` spells, least significant byte first.
#[verifier::opaque]
pub open spec fn from_le(s: Seq<u8>) -> nat
    decreases s.len(),
{
    if s.len() == 0 {
        0
    } else {
        s[0] as nat + 256 * from_le(s.skip(1))
    }
}

/// A number is written in as many bytes as its width.
pub proof fn lemma_le_len(x: nat, w: nat)
    ensures
        le(x, w).len() == w,
    decreases w,
{
    reveal(le);
    if w > 0 {
        lemma_le_len(x / 256, (w - 1) as nat);
    }
}

/// Reading back what was written gives the number, as long as it fits the width.
pub proof fn lemma_from_le_le(x: nat, w: nat)
    requires
        x < span_of(w),
    ensures
        from_le(le(x, w)) == x,
    decreases w,
{
    reveal(le);
    reveal(from_le);
    if w > 0 {
        lemma_from_le_le(x / 256, (w - 1) as nat);
        let s = le(x, w);
        assert(s.skip(1) =~= le(x / 256, (w - 1) as nat));
        assert(s[0] == (x % 256) as u8);
    }
}

/// Writing what was read gives the bytes back.
pub proof fn lemma_le_from_le(s: Seq<u8>)
    ensures
        le(from_le(s), s.len()) == s,
        from_le(s) < span_of(s.len()),
    decreases s.len(),
{
    if s.len() == 0 {
        reveal(le);
        reveal(from_le);
        assert(s =~= Seq::empty());
    } else {
        let t = s.skip(1);
        let n = from_le(s);
        lemma_le_from_le(t);
        assert(n == s[0] as nat + 256 * from_le(t)) by {
            reveal(from_le);
        }
        assert(n % 256 == s[0] as nat);
        assert(n / 256 == from_le(t));
        assert(le(n, s.len()) == seq![(n % 256) as u8] + le(n / 256, t.len())) by {
            reveal(le);
        }
        assert(seq![s[0]] + t =~= s);
    }
}

/// How many values a width of bytes can hold.
pub proof fn lemma_span()
    ensures
        span_of(1) == 0x100,
        span_of(2) == 0x1_0000,
        span_of(4) == 0x1_0000_0000,
        span_of(8) == 0x1_0000_0000_0000_0000,
{
    reveal_with_fuel(span_of, 9);
}

/// Appends `v` as four bytes, least significant first.
pub fn put_u32(out: &mut Vec<u8>, v: u32)
    ensures
        final(out)@ == old(out)@ + le(v as nat, 4),
{
    let ghost before = out@;
    out.push((v % 256) as u8);
    out.push((v / 256 % 256) as u8);
    out.push((v / 65536 % 256) as u8);
    out.push((v / 16777216) as u8);
    proof {
        reveal_with_fuel(le, 5);
        assert(out@ =~= before + le(v as nat, 4));
    }
}

/// Appends `v` as eight bytes, least significant first.
pub fn put_u64(out: &mut Vec<u8>, v: u64)
    ensures
        final(out)@ == old(out)@ + le(v as nat, 8),
{
    let ghost before = out@;
    put_u32(out, (v % 0x1_0000_0000) as u32);
    put_u32(out, (v / 0x1_0000_0000) as u32);
    proof {
        lemma_le_8(v as nat);
        assert(out@ =~= before + le(v as nat, 8));
    }
}

proof fn lemma_quotients(x: nat)
    ensures
        x / 256 / 256 == x / 65536,
        x / 256 / 256 / 256 == x / 16777216,
        x / 256 / 256 / 256 / 256 == x / 0x1_0000_0000,
{
    vstd::arithmetic::div_mod::lemma_div_denominator(x as int, 256, 256);
    vstd::arithmetic::div_mod::lemma_div_denominator(x as int, 65536, 256);
    vstd::arithmetic::div_mod::lemma_div_denominator(x as int, 16777216, 256);
}

/// Eight bytes are the low four and the high four.
#[verifier::spinoff_prover]
#[verifier::rlimit(50)]
proof fn lemma_le_8(x: nat)
    ensures
        le(x, 8) == le(x % 0x1_0000_0000, 4) + le(x / 0x1_0000_0000, 4),
{
    let lo = x % 0x1_0000_0000;
    lemma_quotients(x);
    lemma_quotients(lo);
    assert(le(x, 8) =~= seq![
        (x % 256) as u8,
        (x / 256 % 256) as u8,
        (x / 65536 % 256) as u8,
        (x / 16777216 % 256) as u8,
    ] + le(x / 0x1_0000_0000, 4)) by {
        reveal_with_fuel(le, 5);
    }
    assert(le(lo, 4) =~= seq![
        (x % 256) as u8,
        (x / 256 % 256) as u8,
        (x / 65536 % 256) as u8,
        (x / 16777216 % 256) as u8,
    ]) by {
        reveal_with_fuel(le, 5);
    }
}

/// The four bytes of `b` at `at`, read as a number.
pub fn get_u32(b: &[u8], at: usize) -> (v: u32)
    requires
        at + 4 <= b@.len(),
    ensures
        v as nat == from_le(b@.subrange(at as int, at + 4)),
        b@.subrange(at as int, at + 4) == le(v as nat, 4),
{
    let v: u32 = b[at] as u32 + 256 * (b[at + 1] as u32) + 65536 * (b[at + 2] as u32) + 16777216 * (
    b[at + 3] as u32);
    proof {
        let s = b@.subrange(at as int, at + 4);
        reveal_with_fuel(from_le, 5);
        assert(s.skip(1).skip(1) =~= s.skip(2));
        assert(s.skip(2).skip(1) =~= s.skip(3));
        assert(s.skip(3).skip(1) =~= Seq::<u8>::empty());
        lemma_le_from_le(s);
    }
    v
}

/// The four bytes of `b` at `at`, or nothing where `b` ends before them.
pub fn get_u32_checked(b: &[u8], at: usize) -> (v: Option<u32>)
    ensures
        v is Some <==> at + 4 <= b@.len(),
        v matches Some(n) ==> n as nat == from_le(b@.subrange(at as int, at + 4)),
{
    if b.len() >= 4 && at <= b.len() - 4 {
        Some(get_u32(b, at))
    } else {
        None
    }
}

/// The eight bytes of `b` at `at`, read as a number.
pub fn get_u64(b: &[u8], at: usize) -> (v: u64)
    requires
        at + 8 <= b@.len(),
    ensures
        v as nat == from_le(b@.subrange(at as int, at + 8)),
{
    assert(at + 8 <= b.len());
    let lo: u32 = get_u32(b, at);
    let hi: u32 = get_u32(b, at + 4);
    proof {
        let s = b@.subrange(at as int, at + 8);
        let t = b@.subrange(at + 4, at + 8);
        let l = b@.subrange(at as int, at + 4);
        reveal_with_fuel(from_le, 5);
        assert(s.skip(1).skip(1) =~= s.skip(2));
        assert(s.skip(2).skip(1) =~= s.skip(3));
        assert(s.skip(3).skip(1) =~= t);
        assert(l.skip(1).skip(1) =~= l.skip(2));
        assert(l.skip(2).skip(1) =~= l.skip(3));
        assert(l.skip(3).skip(1) =~= Seq::<u8>::empty());
    }
    lo as u64 + 0x1_0000_0000 * (hi as u64)
}

} // verus!
