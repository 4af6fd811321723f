//! Bounded, process-owned write-ahead log bytes for disposable compute.
//!
//! No network publication, record grammar or durable state lives here. A retained byte is
//! readable, not remotely durable.
use vstd::prelude::*;
use vstd::slice::{slice_subrange, slice_to_vec};

verus! {

/// One segment of the log on one timeline.
pub struct Segment {
    pub tli: u32,
    pub seg: u64,
    pub bytes: Vec<u8>,
}

/// A timeline and the number of a segment on it.
pub type SegKey = (u32, u64);

impl Segment {
    pub open spec fn key(self) -> SegKey {
        (self.tli, self.seg)
    }
}

/// Timelines first, then segments.
pub open spec fn key_below(a: SegKey, b: SegKey) -> bool {
    a.0 < b.0 || (a.0 == b.0 && a.1 < b.1)
}

/// Segments in key order, no key twice.
pub open spec fn in_order(ss: Seq<Segment>) -> bool {
    forall|i: int, j: int|
        0 <= i < j < ss.len() ==> key_below((#[trigger] ss[i]).key(), (#[trigger] ss[j]).key())
}

pub open spec fn has_key(ss: Seq<Segment>, k: SegKey) -> bool {
    exists|i: int| 0 <= i < ss.len() && (#[trigger] ss[i]).key() == k
}

/// What is held under each key.
pub open spec fn contents(ss: Seq<Segment>) -> Map<SegKey, Seq<u8>> {
    Map::new(
        |k: SegKey| has_key(ss, k),
        |k: SegKey| ss[choose|i: int| 0 <= i < ss.len() && (#[trigger] ss[i]).key() == k].bytes@,
    )
}

/// The contents have each segment under its key.
pub proof fn lemma_contents_at(ss: Seq<Segment>, i: int)
    requires
        in_order(ss),
        0 <= i < ss.len(),
    ensures
        contents(ss).dom().contains(ss[i].key()),
        contents(ss)[ss[i].key()] == ss[i].bytes@,
{
    let k = ss[i].key();
    let j = choose|j: int| 0 <= j < ss.len() && (#[trigger] ss[j]).key() == k;
    assert(j == i);
}

/// Why the retained log refused.
#[derive(Clone, Copy, Debug, PartialEq, Eq, Structural)]
pub enum WalError {
    InvalidPosition,
    Capacity,
    CrossesSegment,
    InvalidSeed,
    AlreadyInitialized,
    Uninitialized,
    ChildExists,
    MissingParent,
    MissingBytes,
}

impl WalError {
    pub open spec fn text(self) -> Seq<char> {
        match self {
            WalError::InvalidPosition => "memory WAL: invalid retained WAL position"@,
            WalError::Capacity => "memory WAL: memory WAL capacity exhausted; snapshot renewal or a WAL consumer has fallen behind"@,
            WalError::CrossesSegment => "memory WAL: retained WAL write crosses a segment"@,
            WalError::InvalidSeed => "memory WAL: invalid recovery seed or capacity"@,
            WalError::AlreadyInitialized => "memory WAL: memory WAL already initialized"@,
            WalError::Uninitialized => "memory WAL: uninitialized store"@,
            WalError::ChildExists => "memory WAL: child timeline already exists"@,
            WalError::MissingParent => "memory WAL: missing parent prefix"@,
            WalError::MissingBytes => "memory WAL: required WAL bytes are absent from retained memory"@,
        }
    }

    /// The refusal in words.
    pub fn message(&self) -> (r: String)
        ensures
            r@ == self.text(),
    {
        match self {
            WalError::InvalidPosition => "memory WAL: invalid retained WAL position".to_owned(),
            WalError::Capacity => "memory WAL: memory WAL capacity exhausted; snapshot renewal or a WAL consumer has fallen behind".to_owned(),
            WalError::CrossesSegment => "memory WAL: retained WAL write crosses a segment".to_owned(),
            WalError::InvalidSeed => "memory WAL: invalid recovery seed or capacity".to_owned(),
            WalError::AlreadyInitialized => "memory WAL: memory WAL already initialized".to_owned(),
            WalError::Uninitialized => "memory WAL: uninitialized store".to_owned(),
            WalError::ChildExists => "memory WAL: child timeline already exists".to_owned(),
            WalError::MissingParent => "memory WAL: missing parent prefix".to_owned(),
            WalError::MissingBytes => "memory WAL: required WAL bytes are absent from retained memory".to_owned(),
        }
    }
}

/// The retained log as a mathematical value.
#[verifier::ext_equal]
pub struct WalView {
    pub segments: Map<SegKey, Seq<u8>>,
    pub count: nat,
    pub segment_bytes: nat,
    pub limit: nat,
    pub archive_floor: u64,
}

impl WalView {
    /// A position no log has: no timeline, or a segment that ends past the last position.
    pub open spec fn bad_position(self, k: SegKey) -> bool {
        k.0 == 0 || (k.1 + 1) * self.segment_bytes > u64::MAX
    }

    pub open spec fn full(self) -> bool {
        self.count >= self.limit / self.segment_bytes
    }

    /// Why no bytes can be put under `k`, if they cannot.
    pub open spec fn refusal(self, k: SegKey) -> Option<WalError> {
        if self.bad_position(k) {
            Some(WalError::InvalidPosition)
        } else if !self.segments.dom().contains(k) && self.full() {
            Some(WalError::Capacity)
        } else {
            None
        }
    }

    /// The log with a segment of zeros under `k`, unless one is there.
    pub open spec fn touched(self, k: SegKey) -> WalView {
        if self.segments.dom().contains(k) {
            self
        } else {
            WalView {
                segments: self.segments.insert(k, Seq::new(self.segment_bytes, |i: int| 0u8)),
                count: self.count + 1,
                ..self
            }
        }
    }

    /// The log with `bytes` in the segment `k` from `offset` on.
    pub open spec fn patched(self, k: SegKey, offset: int, bytes: Seq<u8>) -> WalView {
        WalView {
            segments: self.segments.insert(k, overlaid(self.segments[k], offset, bytes)),
            ..self
        }
    }

    /// The key of the segment that holds position `pos`.
    pub open spec fn key_at(self, tli: u32, pos: u64) -> SegKey {
        (tli, (pos as nat / self.segment_bytes) as u64)
    }

    /// The retained byte at position `pos`, if there is one.
    pub open spec fn byte_at(self, tli: u32, pos: nat) -> Option<u8> {
        let k = (tli, (pos / self.segment_bytes) as u64);
        if pos <= u64::MAX && self.segments.dom().contains(k) {
            Some(self.segments[k][(pos % self.segment_bytes) as int])
        } else {
            None
        }
    }

    /// A segment that both cutoff and archive floor allow to go.
    pub open spec fn reapable(self, cutoff: u64, k: SegKey) -> bool {
        k.1 <= cutoff && k.1 < self.archive_floor
    }
}

/// `base` with `bytes` over it from `offset` on.
pub open spec fn overlaid(base: Seq<u8>, offset: int, bytes: Seq<u8>) -> Seq<u8> {
    Seq::new(
        base.len(),
        |i: int|
            if offset <= i < offset + bytes.len() {
                bytes[i - offset]
            } else {
                base[i]
            },
    )
}

/// Segments of the log, kept in memory up to a limit.
pub struct RetainedWal {
    segments: Vec<Segment>,
    segment_bytes: usize,
    limit: usize,
    archive_floor: u64,
}

impl View for RetainedWal {
    type V = WalView;

    closed spec fn view(&self) -> WalView {
        WalView {
            segments: contents(self.segments@),
            count: self.segments@.len(),
            segment_bytes: self.segment_bytes as nat,
            limit: self.limit as nat,
            archive_floor: self.archive_floor,
        }
    }
}

/// A position lies in the segment of its quotient, at its remainder.
pub proof fn lemma_pos_in_segment(pos: nat, size: nat)
    requires
        size > 0,
    ensures
        pos % size < size,
        (pos / size) * size <= pos < (pos / size + 1) * size,
        pos == (pos / size) * size + pos % size,
{
    vstd::arithmetic::div_mod::lemma_fundamental_div_mod(pos as int, size as int);
    vstd::arithmetic::div_mod::lemma_mod_bound(pos as int, size as int);
    assert((pos / size + 1) * size == (pos / size) * size + size) by (nonlinear_arith);
    assert(size * (pos / size) == (pos / size) * size) by (nonlinear_arith);
}

/// A segment and an offset in it are the quotient and the remainder of their position.
pub proof fn lemma_next_pos(q: nat, o: nat, size: nat)
    requires
        size > 0,
        o < size,
    ensures
        (q * size + o) / size == q,
        (q * size + o) % size == o,
{
    vstd::arithmetic::div_mod::lemma_fundamental_div_mod_converse(
        (q * size + o) as int,
        size as int,
        q as int,
        o as int,
    );
}

impl RetainedWal {
    /// Segments stand in key order, each of full length.
    pub closed spec fn whole(&self) -> bool {
        &&& self.segment_bytes > 0
        &&& in_order(self.segments@)
        &&& forall|i: int|
            0 <= i < self.segments@.len() ==> (#[trigger] self.segments@[i]).bytes@.len()
                == self.segment_bytes
    }

    /// Segments stand in key order, each of full length, at a position that a log has.
    pub closed spec fn wf(&self) -> bool {
        &&& self.whole()
        &&& forall|i: int|
            0 <= i < self.segments@.len() ==> !self@.bad_position(
                (#[trigger] self.segments@[i]).key(),
            )
    }

    /// What every retained log keeps: full segments, at positions that a log has.
    pub proof fn lemma_wf(&self)
        requires
            self.wf(),
        ensures
            sound(self@),
    {
        assert forall|k: SegKey| #[trigger]
            self@.segments.dom().contains(k) implies self@.segments[k].len() == self@.segment_bytes
            && !self@.bad_position(k) by {
            let i = choose|i: int|
                0 <= i < self.segments@.len() && (#[trigger] self.segments@[i]).key() == k;
            lemma_contents_at(self.segments@, i);
        }
    }

    /// An empty log of segments of `segment_bytes` bytes, `limit` bytes in all at most.
    pub fn new(segment_bytes: usize, limit: usize, archive_floor: u64) -> (r: RetainedWal)
        requires
            segment_bytes > 0,
        ensures
            r.wf(),
            r.whole(),
            r@ == (WalView {
                segments: Map::empty(),
                count: 0,
                segment_bytes: segment_bytes as nat,
                limit: limit as nat,
                archive_floor,
            }),
    {
        let r = RetainedWal { segments: Vec::new(), segment_bytes, limit, archive_floor };
        proof {
            assert(r@.segments =~= Map::empty());
        }
        r
    }

    /// The position of segment `k`, or where it would stand.
    fn find(&self, tli: u32, seg: u64) -> (r: (bool, usize))
        requires
            self.whole(),
        ensures
            r.0 == self@.segments.dom().contains((tli, seg)),
            r.1 <= self.segments@.len(),
            r.0 ==> r.1 < self.segments@.len() && self.segments@[r.1 as int].key() == (tli, seg),
            forall|i: int|
                0 <= i < r.1 ==> key_below((#[trigger] self.segments@[i]).key(), (tli, seg)),
            !r.0 ==> forall|i: int|
                r.1 <= i < self.segments@.len() ==> key_below(
                    (tli, seg),
                    (#[trigger] self.segments@[i]).key(),
                ),
    {
        let mut i: usize = 0;
        while i < self.segments.len() && (self.segments[i].tli < tli || (self.segments[i].tli == tli
            && self.segments[i].seg < seg))
            invariant
                self.whole(),
                i <= self.segments@.len(),
                forall|j: int|
                    0 <= j < i ==> key_below((#[trigger] self.segments@[j]).key(), (tli, seg)),
            decreases self.segments@.len() - i,
        {
            i += 1;
        }
        let found: bool = i < self.segments.len() && self.segments[i].tli == tli
            && self.segments[i].seg == seg;
        proof {
            if found {
                lemma_contents_at(self.segments@, i as int);
            } else {
                assert forall|j: int| i <= j < self.segments@.len() implies key_below(
                    (tli, seg),
                    (#[trigger] self.segments@[j]).key(),
                ) by {
                    if j > i {
                        assert(key_below(self.segments@[i as int].key(), self.segments@[j].key()));
                    }
                }
            }
        }
        (found, i)
    }

    /// Drops the segments that are at or before `cutoff` and before the archive floor. Gives
    /// the largest segment number among them.
    pub fn reap(&mut self, cutoff: u64) -> (removed: Option<u64>)
        requires
            old(self).wf(),
        ensures
            final(self).wf(),
            final(self)@.segment_bytes == old(self)@.segment_bytes,
            final(self)@.limit == old(self)@.limit,
            final(self)@.archive_floor == old(self)@.archive_floor,
            final(self)@.segments == old(self)@.segments.restrict(
                old(self)@.segments.dom().filter(|k: SegKey| !old(self)@.reapable(cutoff, k)),
            ),
            match removed {
                Some(m) => {
                    &&& exists|k: SegKey| #[trigger]
                        old(self)@.segments.dom().contains(k) && old(self)@.reapable(cutoff, k)
                            && k.1 == m
                    &&& forall|k: SegKey| #[trigger]
                        old(self)@.segments.dom().contains(k) && old(self)@.reapable(cutoff, k)
                            ==> k.1 <= m
                },
                None => forall|k: SegKey| #[trigger]
                    old(self)@.segments.dom().contains(k) ==> !old(self)@.reapable(cutoff, k),
            },
    {
        let floor: u64 = self.archive_floor;
        let mut removed: Option<u64> = None;
        let ghost all = self.segments@;
        let ghost was = self@;
        let mut i: usize = 0;
        while i < self.segments.len()
            invariant
                self.wf(),
                was == old(self)@,
                all == old(self).segments@,
                in_order(all),
                floor == was.archive_floor == self.archive_floor,
                self.segment_bytes == old(self).segment_bytes,
                self.limit == old(self).limit,
                i <= self.segments@.len() <= all.len(),
                forall|j: int|
                    0 <= j < i ==> !was.reapable(cutoff, (#[trigger] self.segments@[j]).key()),
                forall|j: int|
                    0 <= j < self.segments@.len() ==> all.contains(#[trigger] self.segments@[j]),
                forall|m: int|
                    0 <= m < all.len() ==> (has_key(self.segments@, (#[trigger] all[m]).key()) || (
                    was.reapable(cutoff, all[m].key()) && (removed matches Some(x)
                        && all[m].key().1 <= x))),
                removed matches Some(x) ==> exists|m: int|
                    0 <= m < all.len() && was.reapable(cutoff, (#[trigger] all[m]).key())
                        && all[m].key().1 == x,
            decreases self.segments@.len() - i,
        {
            let seg: u64 = self.segments[i].seg;
            let ghost before = self.segments@;
            if seg <= cutoff && seg < floor {
                let s = self.segments.remove(i);
                let ghost gone = s.key();
                removed = match removed {
                    Some(old_max) => if old_max < seg {
                        Some(seg)
                    } else {
                        Some(old_max)
                    },
                    None => Some(seg),
                };
                proof {
                    assert(before[i as int].key() == gone);
                    assert forall|j: int| 0 <= j < self.segments@.len() implies all.contains(#[trigger] self.segments@[j]) by {
                        if j < i {
                            assert(self.segments@[j] == before[j]);
                        } else {
                            assert(self.segments@[j] == before[j + 1]);
                        }
                    }
                    assert forall|m: int| 0 <= m < all.len() implies (has_key(
                        self.segments@,
                        (#[trigger] all[m]).key(),
                    ) || (was.reapable(cutoff, all[m].key()) && (removed matches Some(x)
                        && all[m].key().1 <= x))) by {
                        if has_key(before, all[m].key()) {
                            let j = choose|j: int|
                                0 <= j < before.len() && (#[trigger] before[j]).key()
                                    == all[m].key();
                            if j < i {
                                assert(self.segments@[j].key() == all[m].key());
                            } else if j > i {
                                assert(self.segments@[j - 1].key() == all[m].key());
                            }
                        }
                    }
                    assert(all.contains(before[i as int]));
                    let w = choose|m: int| 0 <= m < all.len() && #[trigger] all[m] == before[i as int];
                    assert(was.reapable(cutoff, all[w].key()));
                }
            } else {
                i += 1;
            }
        }
        proof {
            lemma_reaped(all, self.segments@, was, cutoff);
            assert(self@.segments =~= was.segments.restrict(
                was.segments.dom().filter(|k: SegKey| !was.reapable(cutoff, k)),
            ));
            assert forall|k: SegKey| #[trigger]
                was.segments.dom().contains(k) && was.reapable(cutoff, k) implies (
            removed matches Some(x) && k.1 <= x) by {
                let m = choose|m: int| 0 <= m < all.len() && (#[trigger] all[m]).key() == k;
                if has_key(self.segments@, k) {
                    let j = choose|j: int|
                        0 <= j < self.segments@.len() && (#[trigger] self.segments@[j]).key() == k;
                    assert(!was.reapable(cutoff, self.segments@[j].key()));
                }
            }
            if let Some(x) = removed {
                let m = choose|m: int|
                    0 <= m < all.len() && was.reapable(cutoff, (#[trigger] all[m]).key())
                        && all[m].key().1 == x;
                lemma_contents_at(all, m);
                assert(was.segments.dom().contains(all[m].key()));
            }
        }
        removed
    }

    /// The position of segment `k`, allotted first where it is not held. Nothing where there
    /// is no room for it.
    pub(crate) fn touch(&mut self, tli: u32, seg: u64) -> (r: Option<usize>)
        requires
            old(self).whole(),
        ensures
            final(self).whole(),
            old(self).wf() && !old(self)@.bad_position((tli, seg)) ==> final(self).wf(),
            match r {
                Some(i) => {
                    &&& old(self)@.segments.dom().contains((tli, seg)) || !old(self)@.full()
                    &&& final(self)@ == old(self)@.touched((tli, seg))
                    &&& i < final(self)@.count
                    &&& final(self).key_of(i as int) == (tli, seg)
                },
                None => {
                    &&& !old(self)@.segments.dom().contains((tli, seg))
                    &&& old(self)@.full()
                    &&& *final(self) == *old(self)
                },
            },
    {
        let (found, i) = self.find(tli, seg);
        if !found {
            if self.segments.len() >= self.limit / self.segment_bytes {
                return None;
            }
            let ghost before = self.segments@;
            let ghost was = self@;
            let zeros: Vec<u8> = vec![0u8; self.segment_bytes];
            let ghost fresh = Segment { tli, seg, bytes: zeros };
            self.segments.insert(i, Segment { tli, seg, bytes: zeros });
            proof {
                let now = self.segments@;
                assert(now =~= before.insert(i as int, fresh));
                lemma_inserted(before, now, i as int, fresh);
                assert(zeros@ =~= Seq::new(was.segment_bytes, |i: int| 0u8));
                assert(self@.segments =~= was.touched((tli, seg)).segments);
            }
        }
        Some(i)
    }

    /// The key of the `i`-th segment.
    pub closed spec fn key_of(&self, i: int) -> SegKey {
        self.segments@[i].key()
    }

    /// As `touch`, at a position that a log has.
    fn segment(&mut self, tli: u32, seg: u64) -> (r: Result<usize, WalError>)
        requires
            old(self).wf(),
        ensures
            final(self).wf(),
            match r {
                Ok(i) => {
                    &&& old(self)@.refusal((tli, seg)) is None
                    &&& final(self)@ == old(self)@.touched((tli, seg))
                    &&& i < final(self).segments@.len()
                    &&& final(self).segments@[i as int].key() == (tli, seg)
                },
                Err(e) => old(self)@.refusal((tli, seg)) == Some(e) && final(self)@ == old(self)@,
            },
    {
        let end: Option<u64> = match seg.checked_add(1) {
            Some(n) => n.checked_mul(self.segment_bytes as u64),
            None => None,
        };
        proof {
            if seg == u64::MAX {
                assert((seg + 1) * self.segment_bytes > u64::MAX) by (nonlinear_arith)
                    requires
                        seg == u64::MAX,
                        self.segment_bytes >= 1,
                ;
            }
        }
        if tli == 0 || end.is_none() {
            return Err(WalError::InvalidPosition);
        }
        match self.touch(tli, seg) {
            Some(i) => Ok(i),
            None => Err(WalError::Capacity),
        }
    }

    /// Puts `bytes` into segment `i` from `offset` on.
    pub(crate) fn patch(&mut self, i: usize, offset: usize, bytes: &[u8])
        requires
            old(self).whole(),
            i < old(self)@.count,
            offset + bytes@.len() <= old(self)@.segment_bytes,
        ensures
            final(self).whole(),
            old(self).wf() ==> final(self).wf(),
            final(self)@ == old(self)@.patched(
                old(self).key_of(i as int),
                offset as int,
                bytes@,
            ),
    {
        let ghost before = self.segments@;
        let ghost was = self@;
        let tli: u32 = self.segments[i].tli;
        let seg: u64 = self.segments[i].seg;
        let mut buf: Vec<u8> = slice_to_vec(self.segments[i].bytes.as_slice());
        let ghost base = buf@;
        let mut n: usize = 0;
        while n < bytes.len()
            invariant
                n <= bytes@.len(),
                offset + bytes@.len() <= base.len() == buf@.len(),
                buf@ == overlaid(base, offset as int, bytes@.take(n as int)),
            decreases bytes@.len() - n,
        {
            assert(offset + n < buf.len());
            buf[offset + n] = bytes[n];
            n += 1;
            proof {
                assert(buf@ =~= overlaid(base, offset as int, bytes@.take(n as int)));
            }
        }
        proof {
            assert(bytes@.take(bytes@.len() as int) =~= bytes@);
        }
        let ghost now_bytes = buf@;
        let ghost now_seg = Segment { tli, seg, bytes: buf };
        self.segments[i] = Segment { tli, seg, bytes: buf };
        proof {
            let now = self.segments@;
            assert(now =~= before.update(i as int, now_seg));
            lemma_updated(before, now, i as int, now_seg);
            assert(self@.segments =~= was.segments.insert(now_seg.key(), now_bytes));
        }
    }

    /// Writes `bytes` at `pos`, which may not cross the end of a segment. A write that is
    /// refused changes nothing.
    pub fn write(&mut self, tli: u32, pos: u64, bytes: &[u8]) -> (r: Result<(), WalError>)
        requires
            old(self).wf(),
        ensures
            final(self).wf(),
            ({
                let was = old(self)@;
                let k = was.key_at(tli, pos);
                let offset = pos as nat % was.segment_bytes;
                if offset + bytes@.len() > was.segment_bytes {
                    r == Err::<(), WalError>(WalError::CrossesSegment) && final(self)@ == was
                } else {
                    match was.refusal(k) {
                        Some(e) => r == Err::<(), WalError>(e) && final(self)@ == was,
                        None => r is Ok && final(self)@ == was.touched(k).patched(
                            k,
                            offset as int,
                            bytes@,
                        ),
                    }
                }
            }),
    {
        let size: usize = self.segment_bytes;
        proof {
            lemma_pos_in_segment(pos as nat, size as nat);
            assert(pos % (size as u64) == pos as nat % (size as nat));
            assert(pos / (size as u64) == pos as nat / (size as nat));
        }
        let offset: usize = (pos % size as u64) as usize;
        if bytes.len() > size - offset {
            return Err(WalError::CrossesSegment);
        }
        match self.segment(tli, pos / size as u64) {
            Ok(i) => {
                self.patch(i, offset, bytes);
                Ok(())
            },
            Err(e) => Err(e),
        }
    }

    /// Fills `output` from `pos` on. `false` where a byte is not retained; what comes before
    /// that byte has been filled in.
    pub fn read(&self, tli: u32, pos: u64, output: &mut [u8]) -> (r: bool)
        requires
            self.wf(),
        ensures
            final(output)@.len() == old(output)@.len(),
            r == (forall|i: int|
                0 <= i < old(output)@.len() ==> (#[trigger] self@.byte_at(tli, (pos + i) as nat))
                    is Some),
            forall|i: int|
                #![trigger final(output)@[i]]
                0 <= i < old(output)@.len() ==> final(output)@[i] == if held_through(
                    self@,
                    tli,
                    pos,
                    i,
                ) {
                    self@.byte_at(tli, (pos + i) as nat).unwrap()
                } else {
                    old(output)@[i]
                },
    {
        let size: usize = self.segment_bytes;
        let total: usize = output.len();
        let ghost start = output@;
        let mut done: usize = 0;
        while done < total
            invariant
                self.wf(),
                size == self.segment_bytes,
                total == output@.len() == start.len() == old(output)@.len(),
                start == old(output)@,
                done <= total,
                pos + done <= u64::MAX,
                forall|i: int|
                    0 <= i < done ==> (#[trigger] self@.byte_at(tli, (pos + i) as nat)) is Some,
                forall|i: int|
                    0 <= i < done ==> #[trigger] output@[i] == self@.byte_at(
                        tli,
                        (pos + i) as nat,
                    ).unwrap(),
                forall|i: int| done <= i < total ==> #[trigger] output@[i] == start[i],
            decreases total - done,
        {
            let at: u64 = pos + done as u64;
            proof {
                lemma_pos_in_segment(at as nat, size as nat);
                assert(at % (size as u64) == at as nat % (size as nat));
                assert(at / (size as u64) == at as nat / (size as nat));
            }
            let (found, idx) = self.find(tli, at / size as u64);
            if !found {
                proof {
                    assert(self@.byte_at(tli, (pos + done) as nat) is None);
                    assert forall|i: int| 0 <= i < total implies #[trigger] output@[i] == if held_through(
                        self@,
                        tli,
                        pos,
                        i,
                    ) {
                        self@.byte_at(tli, (pos + i) as nat).unwrap()
                    } else {
                        start[i]
                    } by {
                        if i >= done {
                            assert(!held_through(self@, tli, pos, i));
                        }
                    }
                }
                return false;
            }
            let offset: usize = (at % size as u64) as usize;
            let left: usize = total - done;
            let count: usize = if left < size - offset {
                left
            } else {
                size - offset
            };
            let ghost k = (tli, (at / size as u64) as u64);
            proof {
                lemma_contents_at(self.segments@, idx as int);
                self.lemma_wf();
                let q = at as nat / size as nat;
                assert((q + 1) * size <= u64::MAX);
                assert(at + count <= (q + 1) * size) by (nonlinear_arith)
                    requires
                        at == q * size + offset,
                        offset + count <= size,
                ;
            }
            let mut n: usize = 0;
            while n < count
                invariant
                    self.wf(),
                    size == self.segment_bytes,
                    total == output@.len() == start.len(),
                    done + count <= total,
                    n <= count,
                    offset + count <= size,
                    at == pos + done,
                    at == (at as nat / size as nat) * size + offset,
                    at + count <= u64::MAX,
                    size > 0,
                    idx < self.segments@.len(),
                    self.segments@[idx as int].bytes@.len() == size,
                    k == (tli, (at as nat / size as nat) as u64),
                    self@.segments.dom().contains(k),
                    self@.segments[k] == self.segments@[idx as int].bytes@,
                    forall|i: int|
                        0 <= i < done + n ==> (#[trigger] self@.byte_at(tli, (pos + i) as nat))
                            is Some,
                    forall|i: int|
                        0 <= i < done + n ==> #[trigger] output@[i] == self@.byte_at(
                            tli,
                            (pos + i) as nat,
                        ).unwrap(),
                    forall|i: int| done + n <= i < total ==> #[trigger] output@[i] == start[i],
                decreases count - n,
            {
                proof {
                    lemma_next_pos(at as nat / size as nat, (offset + n) as nat, size as nat);
                    assert((pos + (done + n)) as nat == (at as nat / size as nat) * size as nat + (
                    offset + n) as nat);
                    assert(self@.byte_at(tli, (pos + (done + n)) as nat) == Some(
                        self.segments@[idx as int].bytes@[offset + n],
                    ));
                }
                output[done + n] = self.segments[idx].bytes[offset + n];
                n += 1;
            }
            done += count;
        }
        proof {
            assert forall|i: int| 0 <= i < total implies held_through(self@, tli, pos, i) by {}
        }
        true
    }

    /// The lowest segment retained on a timeline, 0 where there is none.
    pub fn oldest_segment(&self, tli: u32) -> (r: u64)
        requires
            self.wf(),
        ensures
            if exists|seg: u64| #[trigger] self@.segments.dom().contains((tli, seg)) {
                self@.segments.dom().contains((tli, r)) && forall|seg: u64| #[trigger]
                    self@.segments.dom().contains((tli, seg)) ==> r <= seg
            } else {
                r == 0
            },
    {
        let (found, i) = self.find(tli, 0);
        if i < self.segments.len() && self.segments[i].tli == tli {
            proof {
                lemma_contents_at(self.segments@, i as int);
                assert forall|seg: u64| #[trigger]
                    self@.segments.dom().contains((tli, seg)) implies self.segments@[i as int].seg
                    <= seg by {
                    let j = choose|j: int|
                        0 <= j < self.segments@.len() && (#[trigger] self.segments@[j]).key() == (
                            tli,
                            seg,
                        );
                    if j < i {
                        assert(key_below(self.segments@[j].key(), (tli, 0)));
                    }
                }
            }
            self.segments[i].seg
        } else {
            proof {
                assert forall|seg: u64| #[trigger]
                    self@.segments.dom().contains((tli, seg)) implies false by {
                    let j = choose|j: int|
                        0 <= j < self.segments@.len() && (#[trigger] self.segments@[j]).key() == (
                            tli,
                            seg,
                        );
                    if j < i {
                        assert(key_below(self.segments@[j].key(), (tli, 0)));
                    } else if j > i {
                        assert(key_below(self.segments@[i as int].key(), self.segments@[j].key()));
                        assert(key_below((tli, 0), self.segments@[i as int].key()));
                    }
                }
            }
            0
        }
    }

    pub fn contains(&self, tli: u32, seg: u64) -> (r: bool)
        requires
            self.wf(),
        ensures
            r == self@.segments.dom().contains((tli, seg)),
    {
        let (found, _i) = self.find(tli, seg);
        found
    }

    /// What is known of the segments of a log with whole segments.
    pub proof fn lemma_whole(&self)
        requires
            self.whole(),
        ensures
            self@.segment_bytes > 0,
            forall|k: SegKey| #[trigger]
                self@.segments.dom().contains(k) ==> self@.segments[k].len() == self@.segment_bytes,
    {
        assert forall|k: SegKey| #[trigger]
            self@.segments.dom().contains(k) implies self@.segments[k].len()
            == self@.segment_bytes by {
            let i = choose|i: int|
                0 <= i < self.segments@.len() && (#[trigger] self.segments@[i]).key() == k;
            lemma_contents_at(self.segments@, i);
        }
    }

    /// The bytes of a segment, if it is retained.
    pub(crate) fn bytes_of(&self, tli: u32, seg: u64) -> (r: Option<&Vec<u8>>)
        requires
            self.whole(),
        ensures
            match r {
                Some(b) => self@.segments.dom().contains((tli, seg)) && b@ == self@.segments[(
                    tli,
                    seg,
                )],
                None => !self@.segments.dom().contains((tli, seg)),
            },
    {
        let (found, i) = self.find(tli, seg);
        if found {
            proof {
                lemma_contents_at(self.segments@, i as int);
            }
            Some(&self.segments[i].bytes)
        } else {
            None
        }
    }

    /// The segments, in key order.
    pub(crate) fn list(&self) -> (r: &Vec<Segment>)
        requires
            self.whole(),
        ensures
            in_order(r@),
            contents(r@) == self@.segments,
            forall|i: int|
                0 <= i < r@.len() ==> (#[trigger] r@[i]).bytes@.len() == self@.segment_bytes,
    {
        &self.segments
    }

    /// The segments, in key order.
    pub(crate) fn into_segments(self) -> (r: Vec<Segment>)
        requires
            self.whole(),
        ensures
            in_order(r@),
            contents(r@) == self@.segments,
            r@.len() == self@.count,
            forall|i: int|
                0 <= i < r@.len() ==> (#[trigger] r@[i]).bytes@.len() == self@.segment_bytes,
    {
        self.segments
    }

    /// How many bytes a segment has.
    pub fn segment_size(&self) -> (r: usize)
        ensures
            r == self@.segment_bytes,
    {
        self.segment_bytes
    }

    /// How many segments are retained.
    pub fn count(&self) -> (r: usize)
        ensures
            r == self@.count,
    {
        self.segments.len()
    }

    /// Raises the archive floor to the segment of `lsn`; it never falls.
    pub fn advance_archive_floor(&mut self, lsn: u64)
        requires
            old(self).wf(),
        ensures
            final(self).wf(),
            final(self)@ == (WalView {
                archive_floor: if old(self)@.archive_floor < old(self)@.key_at(0, lsn).1 {
                    old(self)@.key_at(0, lsn).1
                } else {
                    old(self)@.archive_floor
                },
                ..old(self)@
            }),
    {
        let floor: u64 = lsn / self.segment_bytes as u64;
        if self.archive_floor < floor {
            self.archive_floor = floor;
        }
    }

    /// Starts timeline `child` at `end`: its segment begins with what `parent` has of the
    /// segment before `end`. The child's segment is allotted first, so a refusal for want of
    /// room leaves the parent as it was; it stays allotted where the parent's bytes are
    /// missing.
    pub fn fork(&mut self, parent: u32, child: u32, end: u64) -> (r: Result<(), WalError>)
        requires
            old(self).wf(),
        ensures
            final(self).wf(),
            ({
                let was = old(self)@;
                let k = was.key_at(child, end);
                let p = was.key_at(parent, end);
                let offset = end as nat % was.segment_bytes;
                let now = was.touched(k);
                if was.segments.dom().contains(k) {
                    r == Err::<(), WalError>(WalError::ChildExists) && final(self)@ == was
                } else if was.refusal(k) is Some {
                    r == Err::<(), WalError>(was.refusal(k).unwrap()) && final(self)@ == was
                } else if offset == 0 {
                    r is Ok && final(self)@ == now
                } else if now.segments.dom().contains(p) {
                    r is Ok && final(self)@ == now.patched(
                        k,
                        0,
                        now.segments[p].take(offset as int),
                    )
                } else {
                    r == Err::<(), WalError>(WalError::MissingParent) && final(self)@ == now
                }
            }),
    {
        let size: usize = self.segment_bytes;
        proof {
            lemma_pos_in_segment(end as nat, size as nat);
            assert(end % (size as u64) == end as nat % (size as nat));
            assert(end / (size as u64) == end as nat / (size as nat));
        }
        let seg: u64 = end / size as u64;
        let offset: usize = (end % size as u64) as usize;
        let (exists_child, _at) = self.find(child, seg);
        if exists_child {
            return Err(WalError::ChildExists);
        }
        let i: usize = match self.segment(child, seg) {
            Ok(i) => i,
            Err(e) => {
                return Err(e);
            },
        };
        if offset != 0 {
            let (found, p) = self.find(parent, seg);
            if !found {
                return Err(WalError::MissingParent);
            }
            proof {
                lemma_contents_at(self.segments@, p as int);
            }
            let prefix: Vec<u8> = slice_to_vec(
                slice_subrange(self.segments[p].bytes.as_slice(), 0, offset),
            );
            proof {
                assert(prefix@ =~= self.segments@[p as int].bytes@.take(offset as int));
            }
            self.patch(i, 0, prefix.as_slice());
        }
        Ok(())
    }
}

/// Every byte from `pos` through the `i`-th after it is retained.
pub open spec fn held_through(w: WalView, tli: u32, pos: u64, i: int) -> bool {
    forall|j: int| 0 <= j <= i ==> (#[trigger] w.byte_at(tli, (pos + j) as nat)) is Some
}

proof fn lemma_inserted(before: Seq<Segment>, now: Seq<Segment>, i: int, s: Segment)
    requires
        in_order(before),
        0 <= i <= before.len(),
        now == before.insert(i, s),
        forall|j: int| 0 <= j < i ==> key_below((#[trigger] before[j]).key(), s.key()),
        forall|j: int| i <= j < before.len() ==> key_below(s.key(), (#[trigger] before[j]).key()),
    ensures
        in_order(now),
        contents(now) == contents(before).insert(s.key(), s.bytes@),
        forall|j: int| 0 <= j < now.len() ==> #[trigger] now[j] == s || before.contains(now[j]),
{
    assert forall|a: int, b: int| 0 <= a < b < now.len() implies key_below(
        (#[trigger] now[a]).key(),
        (#[trigger] now[b]).key(),
    ) by {
        let pa = if a < i {
            a
        } else {
            a - 1
        };
        let pb = if b < i {
            b
        } else {
            b - 1
        };
        if a != i {
            assert(now[a] == before[pa]);
        }
        if b != i {
            assert(now[b] == before[pb]);
        }
    }
    assert forall|j: int| 0 <= j < now.len() implies #[trigger] now[j] == s || before.contains(
        now[j],
    ) by {
        if j < i {
            assert(now[j] == before[j]);
        } else if j > i {
            assert(now[j] == before[j - 1]);
        }
    }
    assert forall|k: SegKey| #[trigger]
        contents(now).dom().contains(k) == contents(before).insert(s.key(), s.bytes@).dom().contains(
            k,
        ) by {
        if has_key(before, k) {
            let j = choose|j: int| 0 <= j < before.len() && (#[trigger] before[j]).key() == k;
            if j < i {
                assert(now[j].key() == k);
            } else {
                assert(now[j + 1].key() == k);
            }
        }
        if k == s.key() {
            assert(now[i].key() == k);
        }
        if has_key(now, k) && k != s.key() {
            let j = choose|j: int| 0 <= j < now.len() && (#[trigger] now[j]).key() == k;
            if j < i {
                assert(before[j].key() == k);
            } else {
                assert(before[j - 1].key() == k);
            }
        }
    }
    assert forall|k: SegKey| #[trigger] contents(now).dom().contains(k) implies contents(now)[k]
        == contents(before).insert(s.key(), s.bytes@)[k] by {
        let j = choose|j: int| 0 <= j < now.len() && (#[trigger] now[j]).key() == k;
        lemma_contents_at(now, j);
        if j < i {
            assert(before[j] == now[j]);
            lemma_contents_at(before, j);
        } else if j > i {
            assert(before[j - 1] == now[j]);
            lemma_contents_at(before, j - 1);
        }
    }
    assert(contents(now) =~= contents(before).insert(s.key(), s.bytes@));
}

proof fn lemma_updated(before: Seq<Segment>, now: Seq<Segment>, i: int, s: Segment)
    requires
        in_order(before),
        0 <= i < before.len(),
        now == before.update(i, s),
        s.key() == before[i].key(),
    ensures
        in_order(now),
        contents(now) == contents(before).insert(s.key(), s.bytes@),
{
    assert forall|a: int| 0 <= a < now.len() implies (#[trigger] now[a]).key() == before[a].key() by {}
    assert(in_order(now)) by {
        assert forall|a: int, b: int| 0 <= a < b < now.len() implies key_below(
            (#[trigger] now[a]).key(),
            (#[trigger] now[b]).key(),
        ) by {
            assert(key_below(before[a].key(), before[b].key()));
        }
    }
    assert forall|k: SegKey| #[trigger]
        contents(now).dom().contains(k) == contents(before).dom().contains(k) by {
        if has_key(before, k) {
            let j = choose|j: int| 0 <= j < before.len() && (#[trigger] before[j]).key() == k;
            assert(now[j].key() == k);
        }
        if has_key(now, k) {
            let j = choose|j: int| 0 <= j < now.len() && (#[trigger] now[j]).key() == k;
            assert(before[j].key() == k);
        }
    }
    lemma_contents_at(before, i);
    assert forall|k: SegKey| #[trigger] contents(now).dom().contains(k) implies contents(now)[k]
        == contents(before).insert(s.key(), s.bytes@)[k] by {
        let j = choose|j: int| 0 <= j < now.len() && (#[trigger] now[j]).key() == k;
        lemma_contents_at(now, j);
        lemma_contents_at(before, j);
    }
    assert(contents(now) =~= contents(before).insert(s.key(), s.bytes@));
}

proof fn lemma_reaped(all: Seq<Segment>, kept: Seq<Segment>, was: WalView, cutoff: u64)
    requires
        in_order(all),
        in_order(kept),
        was.segments == contents(all),
        forall|j: int|
            0 <= j < kept.len() ==> !was.reapable(cutoff, (#[trigger] kept[j]).key()),
        forall|j: int|
            0 <= j < kept.len() ==> all.contains(#[trigger] kept[j]),
        forall|m: int|
            0 <= m < all.len() ==> has_key(kept, (#[trigger] all[m]).key()) || was.reapable(
                cutoff,
                all[m].key(),
            ),
    ensures
        contents(kept) == was.segments.restrict(
            was.segments.dom().filter(|k: SegKey| !was.reapable(cutoff, k)),
        ),
{
    let rest = was.segments.restrict(
        was.segments.dom().filter(|k: SegKey| !was.reapable(cutoff, k)),
    );
    assert forall|k: SegKey| #[trigger] contents(kept).dom().contains(k) == rest.dom().contains(
        k,
    ) by {
        if has_key(kept, k) {
            let j = choose|j: int| 0 <= j < kept.len() && (#[trigger] kept[j]).key() == k;
            let m = choose|m: int| 0 <= m < all.len() && #[trigger] all[m] == kept[j];
            lemma_contents_at(all, m);
        }
        if rest.dom().contains(k) {
            let m = choose|m: int| 0 <= m < all.len() && (#[trigger] all[m]).key() == k;
            assert(has_key(kept, all[m].key()));
        }
    }
    assert forall|k: SegKey| #[trigger] contents(kept).dom().contains(k) implies contents(kept)[k]
        == rest[k] by {
        let j = choose|j: int| 0 <= j < kept.len() && (#[trigger] kept[j]).key() == k;
        let m = choose|m: int| 0 <= m < all.len() && #[trigger] all[m] == kept[j];
        lemma_contents_at(kept, j);
        lemma_contents_at(all, m);
    }
    assert(contents(kept) =~= rest);
}

/// A recovery seed that a log of this size can start from.
pub open spec fn good_seed(ss: Seq<Segment>, limit: nat, segment_bytes: nat) -> bool {
    &&& segment_bytes > 0
    &&& limit >= segment_bytes
    &&& ss.len() > 0
    &&& ss.len() <= limit / segment_bytes
    &&& forall|i: int| 0 <= i < ss.len() ==> good_segment(#[trigger] ss[i], segment_bytes)
}

pub open spec fn good_segment(s: Segment, segment_bytes: nat) -> bool {
    s.tli != 0 && s.bytes@.len() == segment_bytes && (s.seg + 1) * segment_bytes <= u64::MAX
}

/// The log of a process: nothing until it is initialized.
pub struct MemoryWal {
    pub store: Option<RetainedWal>,
}

impl MemoryWal {
    pub open spec fn wf(&self) -> bool {
        self.store matches Some(s) ==> s.wf()
    }

    pub fn new() -> (r: MemoryWal)
        ensures
            r.wf(),
            r.store is None,
    {
        MemoryWal { store: None }
    }

    /// Installs a verified recovery seed before any backend threads start. The segments stand
    /// in key order.
    pub fn initialize(&mut self, segments: Vec<Segment>, limit: usize, segment_bytes: usize) -> (r:
        Result<(), WalError>)
        requires
            old(self).wf(),
            in_order(segments@),
        ensures
            final(self).wf(),
            if !good_seed(segments@, limit as nat, segment_bytes as nat) {
                r == Err::<(), WalError>(WalError::InvalidSeed) && *final(self) == *old(self)
            } else if old(self).store is Some {
                r == Err::<(), WalError>(WalError::AlreadyInitialized) && *final(self) == *old(self)
            } else {
                &&& r is Ok
                &&& final(self).store matches Some(s)
                &&& s@.segments == contents(segments@)
                &&& s@.count == segments@.len()
                &&& s@.segment_bytes == segment_bytes
                &&& s@.limit == limit
                &&& exists|i: int|
                    0 <= i < segments@.len() && (#[trigger] segments@[i]).seg == s@.archive_floor
                &&& forall|i: int|
                    0 <= i < segments@.len() ==> s@.archive_floor <= (#[trigger] segments@[i]).seg
            },
    {
        if segment_bytes == 0 || limit < segment_bytes || segments.len() == 0 || segments.len()
            > limit / segment_bytes {
            return Err(WalError::InvalidSeed);
        }
        let mut floor: u64 = segments[0].seg;
        let mut i: usize = 0;
        while i < segments.len()
            invariant
                i <= segments@.len(),
                segments@.len() > 0,
                0 < segment_bytes <= limit,
                segments@.len() <= limit / segment_bytes,
                forall|j: int|
                    0 <= j < i ==> good_segment(#[trigger] segments@[j], segment_bytes as nat),
                forall|j: int| 0 <= j < i ==> floor <= (#[trigger] segments@[j]).seg,
                exists|j: int| 0 <= j < segments@.len() && (#[trigger] segments@[j]).seg == floor,
                *self == *old(self),
                self.wf(),
            decreases segments@.len() - i,
        {
            let seg: u64 = segments[i].seg;
            let end: Option<u64> = match seg.checked_add(1) {
                Some(n) => n.checked_mul(segment_bytes as u64),
                None => None,
            };
            proof {
                if seg == u64::MAX {
                    assert((seg + 1) * segment_bytes > u64::MAX) by (nonlinear_arith)
                        requires
                            seg == u64::MAX,
                            segment_bytes >= 1,
                    ;
                }
            }
            if segments[i].tli == 0 || segments[i].bytes.len() != segment_bytes || end.is_none() {
                proof {
                    assert(!good_segment(segments@[i as int], segment_bytes as nat));
                }
                return Err(WalError::InvalidSeed);
            }
            if seg < floor {
                floor = seg;
            }
            i += 1;
        }
        if self.store.is_some() {
            return Err(WalError::AlreadyInitialized);
        }
        let s = RetainedWal { segments, segment_bytes, limit, archive_floor: floor };
        proof {
            assert(s.wf()) by {
                assert forall|j: int| 0 <= j < s.segments@.len() implies !s@.bad_position(
                    (#[trigger] s.segments@[j]).key(),
                ) && s.segments@[j].bytes@.len() == s.segment_bytes by {
                    assert(good_segment(segments@[j], segment_bytes as nat));
                }
            }
        }
        self.store = Some(s);
        Ok(())
    }

    /// Called only after the checkpoint's retention checks.
    pub fn retire_through(&mut self, segment: u64) -> (r: Option<u64>)
        requires
            old(self).wf(),
        ensures
            final(self).wf(),
            match old(self).store {
                None => r is None && final(self).store is None,
                Some(was) => {
                    &&& final(self).store matches Some(now)
                    &&& now@.segment_bytes == was@.segment_bytes
                    &&& now@.limit == was@.limit
                    &&& now@.archive_floor == was@.archive_floor
                    &&& now@.segments == was@.segments.restrict(
                        was@.segments.dom().filter(|k: SegKey| !was@.reapable(segment, k)),
                    )
                    &&& match r {
                        Some(m) => {
                            &&& exists|k: SegKey| #[trigger]
                                was@.segments.dom().contains(k) && was@.reapable(segment, k) && k.1
                                    == m
                            &&& forall|k: SegKey| #[trigger]
                                was@.segments.dom().contains(k) && was@.reapable(segment, k)
                                    ==> k.1 <= m
                        },
                        None => forall|k: SegKey| #[trigger]
                            was@.segments.dom().contains(k) ==> !was@.reapable(segment, k),
                    }
                },
            },
    {
        match &mut self.store {
            Some(s) => s.reap(segment),
            None => None,
        }
    }

    /// The publisher advances this only after selecting a recoverable snapshot.
    pub fn advance_archive_floor(&mut self, lsn: u64)
        requires
            old(self).wf(),
        ensures
            final(self).wf(),
            match old(self).store {
                None => final(self).store is None,
                Some(was) => final(self).store matches Some(now) && now@ == (WalView {
                    archive_floor: if was@.archive_floor < was@.key_at(0, lsn).1 {
                        was@.key_at(0, lsn).1
                    } else {
                        was@.archive_floor
                    },
                    ..was@
                }),
            },
    {
        match &mut self.store {
            Some(s) => s.advance_archive_floor(lsn),
            None => {},
        }
    }

    pub fn initialized(&self) -> (r: bool)
        ensures
            r == (self.store is Some),
    {
        self.store.is_some()
    }

    /// The lowest segment retained on a timeline, 0 where there is none.
    pub fn oldest_segment(&self, tli: u32) -> (r: u64)
        requires
            self.wf(),
        ensures
            match self.store {
                None => r == 0,
                Some(s) => if exists|seg: u64| #[trigger] s@.segments.dom().contains((tli, seg)) {
                    s@.segments.dom().contains((tli, r)) && forall|seg: u64| #[trigger]
                        s@.segments.dom().contains((tli, seg)) ==> r <= seg
                } else {
                    r == 0
                },
            },
    {
        match &self.store {
            Some(s) => s.oldest_segment(tli),
            None => 0,
        }
    }

    pub fn contains(&self, tli: u32, seg: u64) -> (r: bool)
        requires
            self.wf(),
        ensures
            r == (self.store matches Some(s) && s@.segments.dom().contains((tli, seg))),
    {
        match &self.store {
            Some(s) => s.contains(tli, seg),
            None => false,
        }
    }

    /// The failure of a reader whose bytes are not retained.
    pub fn missing_bytes() -> (r: Result<(), WalError>)
        ensures
            r == Err::<(), WalError>(WalError::MissingBytes),
    {
        Err(WalError::MissingBytes)
    }

    /// As `RetainedWal::read`; nothing is read before the log is initialized.
    pub fn read(&self, tli: u32, pos: u64, output: &mut [u8]) -> (r: bool)
        requires
            self.wf(),
        ensures
            final(output)@.len() == old(output)@.len(),
            match self.store {
                None => !r && final(output)@ == old(output)@,
                Some(s) => {
                    &&& r == (forall|i: int|
                        0 <= i < old(output)@.len() ==> (#[trigger] s@.byte_at(
                            tli,
                            (pos + i) as nat,
                        )) is Some)
                    &&& forall|i: int|
                        #![trigger final(output)@[i]]
                        0 <= i < old(output)@.len() ==> final(output)@[i] == if held_through(
                            s@,
                            tli,
                            pos,
                            i,
                        ) {
                            s@.byte_at(tli, (pos + i) as nat).unwrap()
                        } else {
                            old(output)@[i]
                        }
                },
            },
    {
        match &self.store {
            Some(s) => s.read(tli, pos, output),
            None => false,
        }
    }

    /// As `RetainedWal::write`; refused before the log is initialized.
    pub fn write(&mut self, tli: u32, pos: u64, bytes: &[u8]) -> (r: Result<(), WalError>)
        requires
            old(self).wf(),
        ensures
            final(self).wf(),
            match old(self).store {
                None => r == Err::<(), WalError>(WalError::Uninitialized) && final(self).store
                    is None,
                Some(s) => final(self).store matches Some(t) && ({
                    let was = s@;
                    let k = was.key_at(tli, pos);
                    let offset = pos as nat % was.segment_bytes;
                    if offset + bytes@.len() > was.segment_bytes {
                        r == Err::<(), WalError>(WalError::CrossesSegment) && t@ == was
                    } else {
                        match was.refusal(k) {
                            Some(e) => r == Err::<(), WalError>(e) && t@ == was,
                            None => r is Ok && t@ == was.touched(k).patched(
                                k,
                                offset as int,
                                bytes@,
                            ),
                        }
                    }
                }),
            },
    {
        match &mut self.store {
            Some(s) => s.write(tli, pos, bytes),
            None => Err(WalError::Uninitialized),
        }
    }

    /// As `RetainedWal::fork`; refused before the log is initialized.
    pub fn fork(&mut self, parent: u32, child: u32, end: u64) -> (r: Result<(), WalError>)
        requires
            old(self).wf(),
        ensures
            final(self).wf(),
            match old(self).store {
                None => r == Err::<(), WalError>(WalError::Uninitialized) && final(self).store
                    is None,
                Some(s) => final(self).store matches Some(t) && ({
                    let was = s@;
                    let k = was.key_at(child, end);
                    let p = was.key_at(parent, end);
                    let offset = end as nat % was.segment_bytes;
                    let now = was.touched(k);
                    if was.segments.dom().contains(k) {
                        r == Err::<(), WalError>(WalError::ChildExists) && t@ == was
                    } else if was.refusal(k) is Some {
                        r == Err::<(), WalError>(was.refusal(k).unwrap()) && t@ == was
                    } else if offset == 0 {
                        r is Ok && t@ == now
                    } else if now.segments.dom().contains(p) {
                        r is Ok && t@ == now.patched(k, 0, now.segments[p].take(offset as int))
                    } else {
                        r == Err::<(), WalError>(WalError::MissingParent) && t@ == now
                    }
                }),
            },
    {
        match &mut self.store {
            Some(s) => s.fork(parent, child, end),
            None => Err(WalError::Uninitialized),
        }
    }
}

/// What every retained log keeps, over its mathematical value.
pub open spec fn sound(w: WalView) -> bool {
    &&& w.segment_bytes > 0
    &&& forall|k: SegKey| #[trigger]
        w.segments.dom().contains(k) ==> w.segments[k].len() == w.segment_bytes
            && !w.bad_position(k)
}

/// Every segment has full length.
pub open spec fn even(w: WalView) -> bool {
    &&& w.segment_bytes > 0
    &&& forall|k: SegKey| #[trigger]
        w.segments.dom().contains(k) ==> w.segments[k].len() == w.segment_bytes
}

/// Bytes put into one segment read back, and every other byte that was held stays.
pub proof fn lemma_patched_bytes(w: WalView, tli: u32, pos: u64, bytes: Seq<u8>, t: u32, p: nat)
    requires
        even(w),
        pos as nat % w.segment_bytes + bytes.len() <= w.segment_bytes,
    ensures
        ({
            let k = w.key_at(tli, pos);
            let offset = pos as nat % w.segment_bytes;
            let now = w.touched(k).patched(k, offset as int, bytes);
            &&& even(now)
            &&& t == tli && pos <= p < pos + bytes.len() && p <= u64::MAX ==> now.byte_at(t, p)
                == Some(bytes[p - pos])
            &&& !(t == tli && pos <= p < pos + bytes.len()) && w.byte_at(t, p) is Some
                ==> now.byte_at(t, p) == w.byte_at(t, p)
        }),
{
    let size = w.segment_bytes;
    let q = pos as nat / size;
    let offset = pos as nat % size;
    lemma_pos_in_segment(pos as nat, size);
    lemma_pos_in_segment(p, size);
    assert(q <= pos) by (nonlinear_arith)
        requires
            q * size <= pos,
            size > 0,
    ;
    let pq = p / size;
    let po = p % size;
    assert(pq <= p) by (nonlinear_arith)
        requires
            pq * size <= p,
            size > 0,
    ;
    if t == tli && pos <= p < pos + bytes.len() {
        let d = (p - pos) as nat;
        lemma_next_pos(q, offset + d, size);
        assert(p == q * size + (offset + d));
    } else if t == tli && w.byte_at(t, p) is Some && pq == q {
        assert(p == q * size + po);
    }
}

/// A byte that was written reads back, and a write leaves every other retained byte alone.
pub proof fn lemma_read_after_write(w: WalView, tli: u32, pos: u64, bytes: Seq<u8>, t: u32, p: nat)
    requires
        sound(w),
        pos as nat % w.segment_bytes + bytes.len() <= w.segment_bytes,
        w.refusal(w.key_at(tli, pos)) is None,
    ensures
        ({
            let k = w.key_at(tli, pos);
            let offset = pos as nat % w.segment_bytes;
            let now = w.touched(k).patched(k, offset as int, bytes);
            &&& sound(now)
            &&& t == tli && pos <= p < pos + bytes.len() ==> now.byte_at(t, p) == Some(
                bytes[p - pos],
            )
            &&& !(t == tli && pos <= p < pos + bytes.len()) && w.byte_at(t, p) is Some
                ==> now.byte_at(t, p) == w.byte_at(t, p)
        }),
{
    let size = w.segment_bytes;
    let q = pos as nat / size;
    lemma_patched_bytes(w, tli, pos, bytes, t, p);
    lemma_pos_in_segment(pos as nat, size);
    assert(q <= pos) by (nonlinear_arith)
        requires
            q * size <= pos,
            size > 0,
    ;
    assert(w.key_at(tli, pos).1 == q);
    assert((q + 1) * size == q * size + size) by (nonlinear_arith);
}

/// A timeline that was forked off reads as its parent up to where it was forked.
pub proof fn lemma_fork_reads_parent(w: WalView, parent: u32, child: u32, end: u64, p: nat)
    requires
        sound(w),
        !w.segments.dom().contains(w.key_at(child, end)),
        w.refusal(w.key_at(child, end)) is None,
        (end as nat / w.segment_bytes) * w.segment_bytes <= p < end,
        w.byte_at(parent, p) is Some,
    ensures
        ({
            let k = w.key_at(child, end);
            let now = w.touched(k);
            let offset = end as nat % w.segment_bytes;
            now.patched(
                k,
                0,
                now.segments[w.key_at(parent, end)].take(offset as int),
            ).byte_at(child, p) == w.byte_at(parent, p)
        }),
{
    let size = w.segment_bytes;
    let q = end as nat / size;
    lemma_pos_in_segment(end as nat, size);
    lemma_pos_in_segment(p, size);
    lemma_next_pos(q, (p - q * size) as nat, size);
    assert(q <= end) by (nonlinear_arith)
        requires
            q * size <= end,
            size > 0,
    ;
}

} // verus!
