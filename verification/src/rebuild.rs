//! Segments of a log put together again from the chunks of its archive.
use crate::archive::{num, num_of};
use crate::json::{Json, JsonView};
use crate::memory_wal::{
    contents, even, has_key, in_order, lemma_contents_at, lemma_next_pos, lemma_patched_bytes,
    lemma_pos_in_segment, RetainedWal, SegKey, Segment, WalView,
};
use crate::refusal::{refuse, seen, Refusal};
use vstd::prelude::*;
use vstd::slice::{slice_subrange, slice_to_vec};

verus! {

/// Checks that a chunk is as long as its descriptor says.
pub fn check_chunk(d: &Json, body: &[u8]) -> (r: Result<u64, Refusal>)
    ensures
        seen(r) == chunk_start(d@, body@.len()),
{
    let start: u64 = match num(d, "start") {
        Ok(n) => n,
        Err(e) => return Err(e),
    };
    let end: u64 = match num(d, "end") {
        Ok(n) => n,
        Err(e) => return Err(e),
    };
    if end < start || body.len() as u64 != end - start {
        return Err(refuse("WAL chunk length mismatch"));
    }
    Ok(start)
}

/// Where a chunk of `len` bytes begins, if it is as long as its descriptor says.
pub open spec fn chunk_start(d: JsonView, len: nat) -> Result<u64, Seq<char>> {
    match (num_of(d, "start"@), num_of(d, "end"@)) {
        (Err(e), _) => Err(e),
        (_, Err(e)) => Err(e),
        (Ok(start), Ok(end)) => if start + len != end {
            Err("WAL chunk length mismatch"@)
        } else {
            Ok(start)
        },
    }
}

/// How many of `len` bytes from `pos` on go into the segment of `pos`.
pub open spec fn piece_len(size: nat, pos: nat, len: nat) -> nat {
    let room = (size - pos % size) as nat;
    if room < len {
        room
    } else {
        len
    }
}

/// The log `w` with `body` at `pos`: each segment it touches is allotted where it is not held.
/// Nothing where there is no room.
pub open spec fn poured(w: WalView, t: u32, pos: nat, body: Seq<u8>) -> Option<WalView>
    decreases body.len(),
{
    if body.len() == 0 || w.segment_bytes == 0 {
        Some(w)
    } else {
        let k = w.key_at(t, pos as u64);
        let n = piece_len(w.segment_bytes, pos, body.len());
        if !w.segments.dom().contains(k) && w.full() {
            None
        } else if n == 0 {
            None
        } else {
            poured(
                w.touched(k).patched(k, (pos % w.segment_bytes) as int, body.take(n as int)),
                t,
                pos + n,
                body.skip(n as int),
            )
        }
    }
}

/// Segments put together so far.
pub struct Rebuilt {
    log: RetainedWal,
}

impl View for Rebuilt {
    type V = WalView;

    closed spec fn view(&self) -> WalView {
        self.log@
    }
}

impl Rebuilt {
    pub closed spec fn wf(&self) -> bool {
        self.log.whole() && self.log@.count <= self.log@.limit / self.log@.segment_bytes
    }

    pub fn new(segment_bytes: usize, limit: usize) -> (r: Rebuilt)
        requires
            segment_bytes > 0,
        ensures
            r.wf(),
            r@ == (WalView {
                segments: Map::empty(),
                count: 0,
                segment_bytes: segment_bytes as nat,
                limit: limit as nat,
                archive_floor: 0,
            }),
    {
        Rebuilt { log: RetainedWal::new(segment_bytes, limit, 0) }
    }

    /// Begins timeline `t` at `fork` with what its parent has of that segment before it.
    pub fn fork_prefix(&mut self, parent: u32, fork: u64, t: u32) -> (r: Result<(), Refusal>)
        requires
            old(self).wf(),
        ensures
            final(self).wf(),
            ({
                let was = old(self)@;
                let p = was.key_at(parent, fork);
                let k = was.key_at(t, fork);
                let off = fork as nat % was.segment_bytes;
                if off == 0 {
                    r is Ok && final(self)@ == was
                } else if !was.segments.dom().contains(p) {
                    seen(r) == Err::<(), Seq<char>>("missing parent segment"@) && final(self)@ == was
                } else if !was.segments.dom().contains(k) && was.full() {
                    seen(r) == Err::<(), Seq<char>>("memory WAL recovery capacity exhausted"@)
                        && final(self)@ == was
                } else {
                    r is Ok && final(self)@ == was.touched(k).patched(
                        k,
                        0,
                        was.segments[p].take(off as int),
                    )
                }
            }),
    {
        proof {
            self.log.lemma_whole();
        }
        let size: usize = self.log.segment_size();
        proof {
            lemma_pos_in_segment(fork as nat, size as nat);
            assert(fork % (size as u64) == fork as nat % (size as nat));
            assert(fork / (size as u64) == fork as nat / (size as nat));
        }
        let off: usize = (fork % size as u64) as usize;
        let seg: u64 = fork / size as u64;
        if off == 0 {
            return Ok(());
        }
        let prefix: Vec<u8> = match self.log.bytes_of(parent, seg) {
            Some(b) => slice_to_vec(slice_subrange(b.as_slice(), 0, off)),
            None => return Err(refuse("missing parent segment")),
        };
        proof {
            let p = self@.key_at(parent, fork);
            assert(prefix@ =~= self@.segments[p].take(off as int));
        }
        match self.log.touch(t, seg) {
            None => Err(refuse("memory WAL recovery capacity exhausted")),
            Some(i) => {
                self.log.patch(i, 0, prefix.as_slice());
                Ok(())
            },
        }
    }

    /// Puts `body` at `start`.
    pub fn pour(&mut self, t: u32, start: u64, body: &[u8]) -> (r: Result<(), Refusal>)
        requires
            old(self).wf(),
            start + body@.len() <= u64::MAX,
        ensures
            final(self).wf(),
            final(self)@.segment_bytes == old(self)@.segment_bytes,
            final(self)@.limit == old(self)@.limit,
            match poured(old(self)@, t, start as nat, body@) {
                Some(w) => r is Ok && final(self)@ == w,
                None => seen(r) == Err::<(), Seq<char>>("memory WAL recovery capacity exhausted"@),
            },
    {
        let ghost first = self@;
        let mut done: usize = 0;
        let total: usize = body.len();
        proof {
            assert(body@.skip(0) =~= body@);
        }
        while done < total
            invariant
                self.wf(),
                self@.segment_bytes == first.segment_bytes,
                self@.limit == first.limit,
                first == old(self)@,
                total == body@.len(),
                done <= total,
                start + total <= u64::MAX,
                poured(first, t, start as nat, body@) == poured(
                    self@,
                    t,
                    (start + done) as nat,
                    body@.skip(done as int),
                ),
            decreases total - done,
        {
            let pos: u64 = start + done as u64;
            proof {
                self.log.lemma_whole();
            }
            let size: usize = self.log.segment_size();
            proof {
                lemma_pos_in_segment(pos as nat, size as nat);
                assert(pos % (size as u64) == pos as nat % (size as nat));
                assert(pos / (size as u64) == pos as nat / (size as nat));
            }
            let off: usize = (pos % size as u64) as usize;
            let left: usize = total - done;
            let count: usize = if size - off < left {
                size - off
            } else {
                left
            };
            let part = slice_subrange(body, done, done + count);
            let ghost rest = body@.skip(done as int);
            proof {
                assert(part@ =~= rest.take(count as int));
                assert(rest.skip(count as int) =~= body@.skip(done + count));
                assert(count == piece_len(size as nat, pos as nat, rest.len()));
            }
            match self.log.touch(t, pos / size as u64) {
                None => return Err(refuse("memory WAL recovery capacity exhausted")),
                Some(i) => {
                    self.log.patch(i, off, part);
                },
            }
            done += count;
        }
        proof {
            assert(body@.skip(total as int) =~= Seq::empty());
        }
        Ok(())
    }

    /// The segments put together so far, in key order.
    pub fn segments(&self) -> (r: &Vec<Segment>)
        requires
            self.wf(),
        ensures
            in_order(r@),
            contents(r@) == self@.segments,
            forall|i: int|
                0 <= i < r@.len() ==> (#[trigger] r@[i]).bytes@.len() == self@.segment_bytes,
    {
        self.log.list()
    }

    /// Hands over the segments, in key order.
    pub fn into_segments(self) -> (r: Vec<Segment>)
        requires
            self.wf(),
        ensures
            in_order(r@),
            contents(r@) == self@.segments,
            r@.len() == self@.count,
            r@.len() <= self@.limit / self@.segment_bytes,
            forall|i: int|
                0 <= i < r@.len() ==> (#[trigger] r@[i]).bytes@.len() == self@.segment_bytes,
    {
        self.log.into_segments()
    }
}

/// What of the log is read to check a timeline: from the beginning of the segment where the
/// timeline starts, up to its end. Nothing for a timeline that adds no log.
pub open spec fn check_window(head: JsonView, node: JsonView, parent: Option<JsonView>, size: nat) -> Result<
    Option<(u64, u64, u64)>,
    Seq<char>,
> {
    let base = match parent {
        Some(p) => num_of(p, "end"@),
        None => num_of(head, "start"@),
    };
    match base {
        Err(e) => Err(e),
        Ok(base) => match num_of(node, "end"@) {
            Err(e) => Err(e),
            Ok(end) => if end > base {
                Ok(Some(((base - base as nat % size) as u64, end, base)))
            } else {
                Ok(None)
            },
        },
    }
}

/// What of the log is read to check a timeline: where reading begins, where it ends, and where
/// the first record is looked for.
pub fn window(head: &Json, node: &Json, parent: Option<&Json>, size: usize) -> (r: Result<
    Option<(u64, u64, u64)>,
    Refusal,
>)
    requires
        size > 0,
    ensures
        seen(r) == check_window(
            head@,
            node@,
            match parent {
                Some(p) => Some(p@),
                None => None,
            },
            size as nat,
        ),
{
    let base = match parent {
        Some(p) => num(p, "end"),
        None => num(head, "start"),
    };
    let base: u64 = match base {
        Ok(n) => n,
        Err(e) => return Err(e),
    };
    let end: u64 = match num(node, "end") {
        Ok(n) => n,
        Err(e) => return Err(e),
    };
    proof {
        lemma_pos_in_segment(base as nat, size as nat);
        assert(base % (size as u64) == base as nat % (size as nat));
    }
    if end > base {
        Ok(Some((base - base % size as u64, end, base)))
    } else {
        Ok(None)
    }
}

/// Checks the last record that was found on a timeline against what its head says.
pub fn check_boundary(last: (u64, u64), node: &Json) -> (r: Result<(), Refusal>)
    ensures
        seen(r) == (match (num_of(node@, "record_start"@), num_of(node@, "end"@)) {
            (Err(e), _) => Err(e),
            (_, Err(e)) => Err(e),
            (Ok(rec), Ok(end)) => if last == (rec, end) {
                Ok(())
            } else {
                Err("native WAL validation disagrees with archive boundary"@)
            },
        }),
{
    let rec: u64 = match num(node, "record_start") {
        Ok(n) => n,
        Err(e) => return Err(e),
    };
    let end: u64 = match num(node, "end") {
        Ok(n) => n,
        Err(e) => return Err(e),
    };
    if last.0 != rec || last.1 != end {
        return Err(refuse("native WAL validation disagrees with archive boundary"));
    }
    Ok(())
}

/// The byte at position `p` of timeline `t`, if its segment is held.
pub open spec fn segment_byte(m: Map<SegKey, Seq<u8>>, size: nat, t: u32, p: nat) -> Option<u8> {
    let k = (t, (p / size) as u64);
    if m.dom().contains(k) {
        Some(m[k][(p % size) as int])
    } else {
        None
    }
}

fn find_segment(s: &Vec<Segment>, t: u32, seg: u64) -> (r: Option<usize>)
    ensures
        match r {
            Some(i) => i < s@.len() && s@[i as int].key() == (t, seg),
            None => !has_key(s@, (t, seg)),
        },
{
    let mut i: usize = 0;
    while i < s.len()
        invariant
            i <= s@.len(),
            forall|j: int| 0 <= j < i ==> (#[trigger] s@[j]).key() != (t, seg),
        decreases s@.len() - i,
    {
        if s[i].tli == t && s[i].seg == seg {
            return Some(i);
        }
        i += 1;
    }
    None
}

/// The log of timeline `t` from `start` to `end`, out of segments of `size` bytes.
pub fn span(s: &Vec<Segment>, t: u32, start: u64, end: u64, size: usize, limit: usize) -> (r:
    Result<Vec<u8>, Refusal>)
    requires
        size > 0,
        in_order(s@),
        forall|i: int| 0 <= i < s@.len() ==> (#[trigger] s@[i]).bytes@.len() == size,
    ensures
        match r {
            Ok(out) => {
                &&& start <= end
                &&& end - start <= limit
                &&& out@.len() == end - start
                &&& forall|i: int|
                    0 <= i < out@.len() ==> segment_byte(
                        contents(s@),
                        size as nat,
                        t,
                        (start + i) as nat,
                    ) == Some(#[trigger] out@[i])
            },
            Err(e) => if end < start || end - start > limit {
                e@ == "WAL read capacity exceeded"@
            } else {
                e@ == "missing WAL segment"@ && exists|p: nat|
                    start <= p < end && (#[trigger] segment_byte(contents(s@), size as nat, t, p))
                        is None
            },
        },
{
    if end < start || end - start > limit as u64 {
        return Err(refuse("WAL read capacity exceeded"));
    }
    let mut out: Vec<u8> = Vec::new();
    let mut pos: u64 = start;
    let ghost m = contents(s@);
    while pos < end
        invariant
            size > 0,
            m == contents(s@),
            in_order(s@),
            forall|i: int| 0 <= i < s@.len() ==> (#[trigger] s@[i]).bytes@.len() == size,
            start <= pos <= end,
            end - start <= limit,
            out@.len() == pos - start,
            forall|i: int|
                0 <= i < out@.len() ==> segment_byte(m, size as nat, t, (start + i) as nat)
                    == Some(#[trigger] out@[i]),
        decreases end - pos,
    {
        proof {
            lemma_pos_in_segment(pos as nat, size as nat);
            assert(pos % (size as u64) == pos as nat % (size as nat));
            assert(pos / (size as u64) == pos as nat / (size as nat));
        }
        let i: usize = match find_segment(s, t, pos / size as u64) {
            Some(i) => i,
            None => {
                proof {
                    assert(segment_byte(m, size as nat, t, pos as nat) is None);
                }
                return Err(refuse("missing WAL segment"));
            },
        };
        let off: usize = (pos % size as u64) as usize;
        let left: usize = (end - pos) as usize;
        let count: usize = if size - off < left {
            size - off
        } else {
            left
        };
        let part = slice_subrange(s[i].bytes.as_slice(), off, off + count);
        let ghost before = out@;
        out.extend_from_slice(part);
        proof {
            lemma_contents_at(s@, i as int);
            assert(out@ =~= before + part@);
            let q = pos as nat / size as nat;
            assert forall|j: int| 0 <= j < out@.len() implies segment_byte(
                m,
                size as nat,
                t,
                (start + j) as nat,
            ) == Some(#[trigger] out@[j]) by {
                if j >= before.len() {
                    let d = j - before.len();
                    lemma_next_pos(q, (off + d) as nat, size as nat);
                    assert((start + j) as nat == q * size as nat + (off + d) as nat);
                    assert(out@[j] == part@[d]);
                }
            }
        }
        pos = pos + count as u64;
    }
    Ok(out)
}

/// A chunk reads back from the segments it was poured into, and what was held elsewhere stays.
pub proof fn lemma_poured_bytes(
    w: WalView,
    now: WalView,
    t: u32,
    pos: nat,
    body: Seq<u8>,
    u: u32,
    p: nat,
)
    requires
        even(w),
        pos + body.len() <= u64::MAX,
        poured(w, t, pos, body) == Some(now),
    ensures
        even(now),
        u == t && pos <= p < pos + body.len() ==> now.byte_at(u, p) == Some(body[p - pos]),
        !(u == t && pos <= p < pos + body.len()) && w.byte_at(u, p) is Some ==> now.byte_at(u, p)
            == w.byte_at(u, p),
    decreases body.len(),
{
    if body.len() > 0 {
        let k = w.key_at(t, pos as u64);
        let n = piece_len(w.segment_bytes, pos, body.len());
        let mid = w.touched(k).patched(k, (pos % w.segment_bytes) as int, body.take(n as int));
        lemma_pos_in_segment(pos, w.segment_bytes);
        lemma_patched_bytes(w, t, pos as u64, body.take(n as int), u, p);
        lemma_poured_bytes(mid, now, t, pos + n, body.skip(n as int), u, p);
    }
}

} // verus!
