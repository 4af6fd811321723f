//! Finding where the complete records of a stretch of log end.
use crate::refusal::{refuse, refuse_naming, seen, Refusal};
use vstd::prelude::*;

verus! {

/// A stretch of log in memory: the bytes from `base` to `end`.
pub struct Input<'a> {
    pub bytes: &'a [u8],
    pub base: u64,
    pub end: u64,
    pub timeline: u32,
}

impl<'a> Input<'a> {
    /// The bytes are those from `base` to `end`.
    pub open spec fn wf(&self) -> bool {
        self.base + self.bytes@.len() == self.end
    }

    /// Hands the record reader a page: as much of `buffer` as there is log from `page` on, and
    /// how much that was. -1 where the page, or what is required of it, lies outside.
    pub fn page_read(&self, page: u64, required: i32, buffer: &mut [u8]) -> (r: i32)
        requires
            self.wf(),
            old(buffer)@.len() <= i32::MAX,
        ensures
            final(buffer)@.len() == old(buffer)@.len(),
            if required < 0 || page < self.base || page >= self.end || page + required > self.end {
                r == -1 && final(buffer)@ == old(buffer)@
            } else {
                let left = self.end - page;
                &&& r == (if old(buffer)@.len() < left {
                    old(buffer)@.len() as int
                } else {
                    left
                })
                &&& forall|i: int|
                    0 <= i < final(buffer)@.len() ==> #[trigger] final(buffer)@[i] == if i < r {
                        self.bytes@[page - self.base + i]
                    } else {
                        old(buffer)@[i]
                    }
            },
    {
        if required < 0 || page < self.base || page >= self.end {
            return -1;
        }
        match page.checked_add(required as u64) {
            None => return -1,
            Some(p) => if p > self.end {
                return -1;
            },
        }
        let n: usize = buffer.len();
        let left: u64 = self.end - page;
        let count: usize = if (n as u64) < left {
            n
        } else {
            left as usize
        };
        assert(page - self.base < self.bytes.len());
        let offset: usize = (page - self.base) as usize;
        let ghost before = buffer@;
        let mut i: usize = 0;
        while i < count
            invariant
                self.wf(),
                i <= count <= n == buffer@.len() == before.len(),
                offset == page - self.base,
                offset + count <= self.bytes@.len(),
                forall|j: int|
                    0 <= j < n ==> #[trigger] buffer@[j] == if j < i {
                        self.bytes@[offset + j]
                    } else {
                        before[j]
                    },
            decreases count - i,
        {
            assert(offset + i < self.bytes.len());
            buffer[i] = self.bytes[offset + i];
            i += 1;
        }
        count as i32
    }
}

/// What is wrong with a stretch of log to read records from.
pub open spec fn bounds_fault(len: nat, base: u64, end: u64, start: u64, segment: nat) -> bool {
    base + len != end || base > start || start > end || base as nat % segment != 0
}

/// Checks a stretch of log before its records are read.
pub fn check_bounds(bytes: &[u8], base: u64, end: u64, start: u64, segment: usize) -> (r: Result<
    (),
    Refusal,
>)
    requires
        segment > 0,
    ensures
        seen(r) == (if bounds_fault(bytes@.len(), base, end, start, segment as nat) {
            Err("invalid native WAL input bounds"@)
        } else {
            Ok(())
        }),
{
    proof {
        assert(base % (segment as u64) == base as nat % (segment as nat));
    }
    if end < base || end - base != bytes.len() as u64 || base > start || start > end || base
        % segment as u64 != 0 {
        return Err(refuse("invalid native WAL input bounds"));
    }
    Ok(())
}

/// The records that a walk over `records` keeps: those that end at or before `end`, up to the
/// first that does not, and no more than one where only the first is wanted.
pub open spec fn kept(records: Seq<(u64, u64)>, end: u64, first_only: bool) -> nat
    decreases records.len(),
{
    if records.len() == 0 || records[0].1 > end {
        0
    } else if first_only {
        1
    } else {
        1 + kept(records.skip(1), end, first_only)
    }
}

/// The last record kept, and (0, 0) where there is none.
pub open spec fn last_kept(records: Seq<(u64, u64)>, end: u64, first_only: bool) -> (u64, u64) {
    let n = kept(records, end, first_only);
    if n == 0 {
        (0, 0)
    } else {
        records[n - 1]
    }
}

/// What a record reader gave: the records it read one after another, and the error it ended
/// with, if any.
pub struct Reading {
    /// The reader found a place to begin.
    pub positioned: bool,
    /// Where each record begins and ends.
    pub records: Vec<(u64, u64)>,
    pub error: Option<String>,
}

/// The outcome of reading records from a stretch of log.
pub open spec fn records_read(
    len: nat,
    base: u64,
    end: u64,
    start: u64,
    segment: nat,
    reading: Reading,
    first_only: bool,
) -> Result<(u64, u64), Seq<char>> {
    if bounds_fault(len, base, end, start, segment) {
        Err("invalid native WAL input bounds"@)
    } else {
        match reading.error {
            Some(e) => Err("native WAL validation failed: "@ + e@),
            None => if reading.positioned {
                Ok(last_kept(reading.records@, end, first_only))
            } else {
                Ok((0, 0))
            },
        }
    }
}

/// A walk over the records of a stretch of log, as the reader hands them over.
pub struct RecordWalk {
    last: (u64, u64),
    end: u64,
    first_only: bool,
    over: bool,
}

#[verifier::ext_equal]
pub struct WalkView {
    pub last: (u64, u64),
    pub end: u64,
    pub first_only: bool,
    pub over: bool,
}

impl View for RecordWalk {
    type V = WalkView;

    closed spec fn view(&self) -> WalkView {
        WalkView {
            last: self.last,
            end: self.end,
            first_only: self.first_only,
            over: self.over,
        }
    }
}

impl RecordWalk {
    pub fn new(end: u64, first_only: bool) -> (r: RecordWalk)
        ensures
            r@ == (WalkView { last: (0, 0), end, first_only, over: false }),
    {
        RecordWalk { last: (0, 0), end, first_only, over: false }
    }

    /// Another record is to be read.
    pub fn wants(&self) -> (r: bool)
        ensures
            r == !self@.over,
    {
        !self.over
    }

    /// Takes a record that begins at `at` and ends at `next`. One that ends past the stretch
    /// is not taken and ends the walk.
    pub fn take(&mut self, at: u64, next: u64)
        requires
            !old(self)@.over,
        ensures
            final(self)@ == (if next > old(self)@.end {
                WalkView { over: true, ..old(self)@ }
            } else {
                WalkView { last: (at, next), over: old(self)@.first_only, ..old(self)@ }
            }),
    {
        if next > self.end {
            self.over = true;
        } else {
            self.last = (at, next);
            if self.first_only {
                self.over = true;
            }
        }
    }

    pub fn last(&self) -> (r: (u64, u64))
        ensures
            r == self@.last,
    {
        self.last
    }
}

fn read_records(
    bytes: &[u8],
    base: u64,
    end: u64,
    start: u64,
    segment: usize,
    reading: &Reading,
    first_only: bool,
) -> (r: Result<(u64, u64), Refusal>)
    requires
        segment > 0,
    ensures
        seen(r) == records_read(
            bytes@.len(),
            base,
            end,
            start,
            segment as nat,
            *reading,
            first_only,
        ),
{
    match check_bounds(bytes, base, end, start, segment) {
        Ok(_) => {},
        Err(e) => return Err(e),
    }
    match &reading.error {
        Some(e) => return Err(refuse_naming("native WAL validation failed: ", e.as_str())),
        None => {},
    }
    let mut walk = RecordWalk::new(end, first_only);
    if reading.positioned {
        let ghost all = reading.records@;
        let mut i: usize = 0;
        proof {
            assert(all.skip(0) =~= all);
        }
        while i < reading.records.len() && walk.wants()
            invariant
                all == reading.records@,
                i <= all.len(),
                walk@.end == end,
                walk@.first_only == first_only,
                !walk@.over ==> kept(all, end, first_only) == i + kept(
                    all.skip(i as int),
                    end,
                    first_only,
                ),
                !walk@.over ==> walk@.last == (if i == 0 {
                    (0u64, 0u64)
                } else {
                    all[i - 1]
                }),
                walk@.over ==> walk@.last == last_kept(all, end, first_only),
            decreases all.len() - i,
        {
            proof {
                assert(all.skip(i as int)[0] == all[i as int]);
                assert(all.skip(i as int).skip(1) =~= all.skip(i + 1));
            }
            walk.take(reading.records[i].0, reading.records[i].1);
            i += 1;
        }
    }
    Ok(walk.last())
}

/// The last complete record of the log in `bytes`, which runs from `base` to `end`: where it
/// begins and where it ends. (0, 0) where no record is complete. `reading` is what a record
/// reader that began at `start` gave.
pub fn last_record(
    bytes: &[u8],
    base: u64,
    end: u64,
    start: u64,
    segment: usize,
    reading: &Reading,
) -> (r: Result<(u64, u64), Refusal>)
    requires
        segment > 0,
    ensures
        seen(r) == records_read(bytes@.len(), base, end, start, segment as nat, *reading, false),
{
    read_records(bytes, base, end, start, segment, reading, false)
}

/// The first complete record of the log in `bytes`, which begins at `base`.
pub fn first_record(
    bytes: &[u8],
    base: u64,
    start: u64,
    segment: usize,
    reading: &Reading,
) -> (r: Result<(u64, u64), Refusal>)
    requires
        segment > 0,
        base + bytes@.len() <= u64::MAX,
    ensures
        seen(r) == records_read(
            bytes@.len(),
            base,
            (base + bytes@.len()) as u64,
            start,
            segment as nat,
            *reading,
            true,
        ),
{
    read_records(bytes, base, base + bytes.len() as u64, start, segment, reading, true)
}

/// A partial flush does not advance past a complete record: whatever comes after the records
/// that end within the stretch, the frontier is the end of one of them or nothing.
pub proof fn lemma_frontier_is_complete(records: Seq<(u64, u64)>, end: u64, first_only: bool)
    ensures
        kept(records, end, first_only) <= records.len(),
        forall|i: int| 0 <= i < kept(records, end, first_only) ==> (#[trigger] records[i]).1 <= end,
        last_kept(records, end, first_only).1 <= end,
        !first_only && kept(records, end, first_only) < records.len() ==> records[kept(
            records,
            end,
            first_only,
        ) as int].1 > end,
    decreases records.len(),
{
    if records.len() > 0 && records[0].1 <= end && !first_only {
        let rest = records.skip(1);
        lemma_frontier_is_complete(rest, end, first_only);
        let n = kept(rest, end, first_only);
        assert forall|i: int| 0 <= i < n + 1 implies (#[trigger] records[i]).1 <= end by {
            if i > 0 {
                assert(rest[i - 1] == records[i]);
            }
        }
        if n < rest.len() {
            assert(rest[n as int] == records[n as int + 1]);
        }
    }
}

} // verus!
