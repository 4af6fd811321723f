//! Laws of the retained log: what it keeps, what it lets go, and what it refuses.

use vstd::prelude::*;

use crate::memory_wal::{
    contents, good_seed, held_through, in_order, key_below, lemma_contents_at, lemma_next_pos,
    lemma_pos_in_segment, SegKey, Segment, WalError, WalView,
};

verus! {

/// A log without the segments that a cutoff lets go.
pub open spec fn reaped(w: WalView, cutoff: u64) -> WalView {
    WalView {
        segments: w.segments.restrict(
            w.segments.dom().filter(|k: SegKey| !w.reapable(cutoff, k)),
        ),
        ..w
    }
}

/// A byte goes only where its segment is both at or before the cutoff and archived; every other
/// byte reads as before.
pub proof fn lemma_reaping_keeps_what_is_not_archived(w: WalView, cutoff: u64, tli: u32, pos: u64)
    requires
        w.segment_bytes > 0,
    ensures
        ({
            let n = pos as nat / w.segment_bytes;
            let now = reaped(w, cutoff).byte_at(tli, pos as nat);
            &&& n > cutoff || n >= w.archive_floor ==> now == w.byte_at(tli, pos as nat)
            &&& n <= cutoff && n < w.archive_floor ==> now is None
        }),
{
    let n = pos as nat / w.segment_bytes;
    lemma_pos_in_segment(pos as nat, w.segment_bytes);
    assert(n <= pos) by (nonlinear_arith)
        requires
            n * w.segment_bytes <= pos,
            w.segment_bytes >= 1,
            n >= 0,
    ;
}

/// Bytes are taken into a segment that ends at a position there is, on a timeline there is, where
/// the segment is held already or one more fits in the limit; and nowhere else.
pub proof fn lemma_what_is_taken(w: WalView, k: SegKey)
    requires
        w.segment_bytes > 0,
    ensures
        w.refusal(k) is None <==> k.0 > 0 && k.1 * w.segment_bytes + w.segment_bytes
            <= 0xffff_ffff_ffff_ffff && (w.segments.dom().contains(k) || (w.count + 1)
            * w.segment_bytes <= w.limit),
        w.refusal(k) == Some(WalError::InvalidPosition) <==> k.0 == 0 || k.1 * w.segment_bytes
            + w.segment_bytes > 0xffff_ffff_ffff_ffff,
        w.refusal(k) is Some ==> w.refusal(k) == Some(WalError::InvalidPosition) || w.refusal(k)
            == Some(WalError::Capacity),
{
    let size = w.segment_bytes;
    assert((k.1 + 1) * size == k.1 * size + size) by (nonlinear_arith);
    lemma_room(w.count, w.limit, size);
}

/// One more fits in a limit where the count is less than the quotient.
proof fn lemma_room(count: nat, limit: nat, size: nat)
    requires
        size > 0,
    ensures
        count < limit / size <==> (count + 1) * size <= limit,
{
    lemma_pos_in_segment(limit, size);
    let q = limit / size;
    assert(count < q ==> (count + 1) * size <= q * size) by (nonlinear_arith)
        requires
            size > 0,
    ;
    assert(count >= q ==> (count + 1) * size >= (q + 1) * size) by (nonlinear_arith)
        requires
            size > 0,
    ;
}

/// A log that takes a segment stays within its limit.
pub proof fn lemma_limit_is_kept(w: WalView, k: SegKey)
    requires
        w.segment_bytes > 0,
        w.count * w.segment_bytes <= w.limit,
        w.refusal(k) is None,
    ensures
        w.touched(k).count * w.segment_bytes <= w.limit,
        w.touched(k).segments.dom().contains(k),
        w.segments.dom().contains(k) ==> w.touched(k) == w,
        !w.segments.dom().contains(k) ==> forall|i: int|
            0 <= i < w.segment_bytes ==> #[trigger] w.touched(k).segments[k][i] == 0u8,
        forall|o: SegKey|
            o != k && #[trigger] w.segments.dom().contains(o) ==> w.touched(k).segments.dom().contains(o)
                && w.touched(k).segments[o] == w.segments[o],
{
    lemma_room(w.count, w.limit, w.segment_bytes);
}

/// A seed can be installed where it has a segment, each is full, on a timeline there is and ends at
/// a position there is, and all of them fit in the limit; and no other seed can.
pub proof fn lemma_which_seeds_fit(ss: Seq<Segment>, limit: nat, size: nat)
    ensures
        good_seed(ss, limit, size) <==> {
            &&& size > 0
            &&& ss.len() > 0
            &&& ss.len() * size <= limit
            &&& forall|i: int|
                0 <= i < ss.len() ==> (#[trigger] ss[i]).tli > 0 && ss[i].bytes@.len() == size
                    && ss[i].seg * size + size <= 0xffff_ffff_ffff_ffff
        },
{
    if size > 0 {
        if ss.len() > 0 {
            lemma_room((ss.len() - 1) as nat, limit, size);
            assert(ss.len() - 1 + 1 == ss.len());
            assert(ss.len() * size >= size) by (nonlinear_arith)
                requires
                    ss.len() >= 1,
                    size >= 0,
            ;
        }
        assert forall|i: int| 0 <= i < ss.len() implies (#[trigger] ss[i]).seg * size + size == (
        ss[i].seg + 1) * size by {
            let n = ss[i].seg;
            assert(n * size + size == (n + 1) * size) by (nonlinear_arith);
        }
    }
}

/// The bytes of a seed are read at the positions of its segments.
pub proof fn lemma_seed_is_read(ss: Seq<Segment>, w: WalView, i: int, o: nat)
    requires
        in_order(ss),
        0 <= i < ss.len(),
        o < w.segment_bytes,
        w.segments == contents(ss),
        ss[i].seg * w.segment_bytes + o <= u64::MAX,
    ensures
        w.byte_at(ss[i].tli, ss[i].seg as nat * w.segment_bytes + o) == Some(ss[i].bytes@[o as int]),
{
    lemma_contents_at(ss, i);
    lemma_next_pos(ss[i].seg as nat, o, w.segment_bytes);
}

/// A byte is read where it and all before it are retained, and a hole ends what is read.
pub proof fn lemma_a_hole_ends_a_read(w: WalView, tli: u32, pos: u64, i: int, j: int)
    requires
        0 <= j <= i,
    ensures
        held_through(w, tli, pos, i) ==> w.byte_at(tli, (pos + j) as nat) is Some && held_through(
            w,
            tli,
            pos,
            j,
        ),
        w.byte_at(tli, (pos + j) as nat) is None ==> !held_through(w, tli, pos, i),
        held_through(w, tli, pos, i) && w.byte_at(tli, (pos + i + 1) as nat) is Some
            ==> held_through(w, tli, pos, i + 1),
{
    if held_through(w, tli, pos, i) {
        assert(w.byte_at(tli, (pos + j) as nat) is Some);
    }
}

/// Segments stand timeline by timeline, each by its numbers.
pub proof fn lemma_order_of_segments(a: SegKey, b: SegKey)
    ensures
        a.0 < b.0 ==> key_below(a, b),
        a.0 == b.0 ==> (key_below(a, b) <==> a.1 < b.1),
        a.0 > b.0 ==> !key_below(a, b),
{
}

} // verus!
