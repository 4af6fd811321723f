//! What a publication holds: the log, all of it up to the last complete record, and nothing else.
use crate::archive::MAX_CHUNKS;
use crate::archive_laws::{lemma_advanced_fields, lemma_descriptor_fields};
use crate::decode::{kept, lemma_frontier_is_complete, records_read, Reading};
use crate::json::JsonView;
use crate::manifest_text::body_of;
use crate::publish::{fork_fault, publication_end};
use crate::publisher::{
    batch_outcome, next_window, recovered_fault, renewal_threshold, Flushed, PublisherView,
};
use crate::renewal::is_key;
use crate::select::{
    batch_end, batch_step, segment_start, selection_fault, Selection, SelectionView,
};
use crate::wire::digest_of;
use vstd::prelude::*;

verus! {

/// `base` is where the segment begins that holds `pos`.
pub open spec fn begins_segment(base: u64, pos: u64, segment: nat) -> bool {
    base as nat % segment == 0 && base <= pos < base + segment
}

/// A segment begins at a multiple of its size, and not more than its size before what it holds.
pub proof fn lemma_segment_start(pos: u64, segment: nat)
    requires
        segment > 0,
    ensures
        begins_segment(segment_start(pos, segment), pos, segment),
{
    let d = segment as int;
    let q = pos as int / d;
    let m = pos as int % d;
    vstd::arithmetic::div_mod::lemma_fundamental_div_mod(pos as int, d);
    vstd::arithmetic::div_mod::lemma_mod_bound(pos as int, d);
    vstd::arithmetic::div_mod::lemma_mod_multiples_basic(q, d);
    vstd::arithmetic::mul::lemma_mul_is_commutative(d, q);
    vstd::arithmetic::mul::lemma_mul_nonnegative(d, q);
}

/// The first `n` records, and no more, are complete at `end`.
pub open spec fn complete_records(records: Seq<(u64, u64)>, end: u64, n: int) -> bool {
    &&& 0 <= n <= records.len()
    &&& forall|i: int| 0 <= i < n ==> (#[trigger] records[i]).1 <= end
    &&& n < records.len() ==> records[n].1 > end
}

proof fn lemma_kept(records: Seq<(u64, u64)>, end: u64, n: int)
    requires
        complete_records(records, end, n),
    ensures
        kept(records, end, false) == n,
        kept(records, end, true) == (if n > 0 {
            1nat
        } else {
            0nat
        }),
    decreases records.len(),
{
    if n > 0 {
        let rest = records.skip(1);
        assert(records[0].1 <= end);
        assert forall|i: int| 0 <= i < n - 1 implies (#[trigger] rest[i]).1 <= end by {
            assert(records[i + 1].1 <= end);
        }
        if n < records.len() {
            assert(rest[n - 1] == records[n]);
        }
        lemma_kept(rest, end, n - 1);
    } else if records.len() > 0 {
        assert(records[0].1 > end);
    }
}

/// What is read of a stretch of log: the last record that is complete within it, or the first where
/// only that is wanted; nothing where none is complete or the reader found no place to begin.
pub proof fn lemma_last_complete_record(
    len: nat,
    base: u64,
    end: u64,
    start: u64,
    segment: nat,
    reading: Reading,
    n: int,
)
    requires
        base + len == end,
        base <= start <= end,
        base as nat % segment == 0,
        reading.error is None,
        complete_records(reading.records@, end, n),
    ensures
        records_read(len, base, end, start, segment, reading, false) == Ok::<(u64, u64), Seq<char>>(
            if reading.positioned && n > 0 {
                reading.records@[n - 1]
            } else {
                (0, 0)
            },
        ),
        records_read(len, base, end, start, segment, reading, true) == Ok::<(u64, u64), Seq<char>>(
            if reading.positioned && n > 0 {
                reading.records@[0]
            } else {
                (0, 0)
            },
        ),
{
    lemma_kept(reading.records@, end, n);
}

/// Log is read only where it is all there, and a reader's error is never passed over.
pub proof fn lemma_reading_is_refused(
    len: nat,
    base: u64,
    end: u64,
    start: u64,
    segment: nat,
    reading: Reading,
    first_only: bool,
)
    requires
        base + len != end || base > start || start > end || base as nat % segment != 0
            || reading.error is Some,
    ensures
        records_read(len, base, end, start, segment, reading, first_only) is Err,
{
}

/// A chunk can be published exactly where it is not empty and no longer than a chunk may be, its
/// last record begins in it, and the log goes on from where the head ends to the chunk's length
/// behind that.
pub proof fn lemma_publication_bounds(head: JsonView, len: nat, record: u64, start: u64, end: u64)
    ensures
        publication_end(head, len, record) == Ok::<(u64, u64), Seq<char>>((start, end)) <==> {
            &&& head.at("end"@) == JsonView::Number(start)
            &&& start + len == end
            &&& 0 < len <= 67108864
            &&& start <= record < end
        },
{
}

/// A timeline may be forked off only where it is later than the parent's.
pub proof fn lemma_fork_is_later(parent: JsonView, t: u32, history: Seq<u8>, root: Seq<u8>)
    requires
        fork_fault(parent, t, history, root) is None,
    ensures
        parent.at("timeline"@) matches JsonView::Number(p) && p < t,
        crate::archive::history_fault(history, parent, root) is None,
{
}

/// A recovered server is accepted exactly where it is the one that was archived and has all of the
/// log that was.
pub proof fn lemma_recovered_has_the_log(system: u64, expected: u64, flushed: u64, head: JsonView)
    ensures
        recovered_fault(system, expected, flushed, head) is None <==> {
            &&& system == expected
            &&& head.at("end"@) matches JsonView::Number(end) && end <= flushed
        },
{
}

/// The threshold is a quarter of the memory, and four segments at the least.
pub proof fn lemma_threshold(memory_mb: u32, segment: nat)
    ensures
        ({
            let t = renewal_threshold(memory_mb, segment);
            &&& t >= 4 * segment
            &&& 4 * t >= memory_mb * 1048576
            &&& t == 4 * segment || 4 * t == memory_mb * 1048576
        }),
{
}

/// What a publisher reads next. It stops where the server is on another timeline, has less log
/// than the archive, or has more of it and the archive is full. It reads nothing where the
/// archive has all of it. Otherwise it reads from the segment that holds the head's end up to
/// what was flushed, or as much of that as a chunk may have.
pub proof fn lemma_window(p: PublisherView, flushed: Flushed, start: u64)
    requires
        p.head.at("end"@) == JsonView::Number(start),
        p.segment > 0,
    ensures
        next_window(p, flushed) is Err <==> flushed.timeline != p.timeline || flushed.end < start || (
        start < flushed.end && p.chunks >= 10000),
        next_window(p, flushed) matches Ok(None) ==> flushed.end == start,
        next_window(p, flushed) matches Ok(Some((base, limit))) ==> {
            &&& begins_segment(base, start, p.segment)
            &&& start < limit <= flushed.end
            &&& limit <= start + 67108864
            &&& limit < flushed.end ==> limit == start + 67108864
        },
{
    lemma_segment_start(start, p.segment);
    assert(MAX_CHUNKS == 10000);
}

/// A publication holds the log: its chunk is, byte for byte, the log from where the head ends up to
/// where the last complete record of the batch ends. Its descriptor names the chunk by its digest,
/// and the descriptor before it; the new head names the descriptor by its digest, and differs from
/// the old one in nothing but its end, its last record, its tail and its revision.
pub proof fn lemma_publication_is_the_log(
    p: PublisherView,
    bytes: Seq<u8>,
    available: u64,
    reading: Reading,
    revision: Seq<char>,
    start: u64,
    n: int,
)
    requires
        p.head is Object,
        p.segment > 0,
        p.head.at("end"@) == JsonView::Number(start),
        start <= available,
        complete_records(reading.records@, batch_end(start, available), n),
        batch_outcome(p, bytes, available, reading, revision) matches Ok(Some(_)),
    ensures
        ({
            let (chunk, d, head, complete) = batch_outcome(
                p,
                bytes,
                available,
                reading,
                revision,
            )->Ok_0->0;
            let base = segment_start(start, p.segment);
            &&& n > 0
            &&& complete == reading.records@[n - 1].1
            &&& start < complete <= available
            &&& complete - start <= 67108864
            &&& chunk.len() == complete - start
            &&& base <= start
            &&& base + bytes.len() == batch_end(start, available)
            &&& forall|i: int|
                0 <= i < chunk.len() ==> #[trigger] chunk[i] == bytes[start - base + i]
            &&& d.at("start"@) == JsonView::Number(start)
            &&& d.at("end"@) == JsonView::Number(complete)
            &&& d.at("record_start"@) == JsonView::Number(reading.records@[n - 1].0)
            &&& d.at("chunk"@) == JsonView::Text(digest_of(chunk))
            &&& d.at("previous"@) == p.head.at("tail"@)
            &&& d.at("cluster"@) == p.head.at("cluster"@)
            &&& d.at("timeline"@) == p.head.at("timeline"@)
            &&& head.at("end"@) == JsonView::Number(complete)
            &&& head.at("record_start"@) == JsonView::Number(reading.records@[n - 1].0)
            &&& head.at("tail"@) == JsonView::Text(digest_of(body_of(d)))
            &&& head.at("revision"@) == JsonView::Text(revision)
            &&& head.at("start"@) == p.head.at("start"@)
            &&& head.at("timeline"@) == p.head.at("timeline"@)
            &&& head.at("cluster"@) == p.head.at("cluster"@)
            &&& head.at("backup"@) == p.head.at("backup"@)
            &&& head.at("epoch"@) == p.head.at("epoch"@)
            &&& head.at("transition"@) == p.head.at("transition"@)
        }),
{
    let base = segment_start(start, p.segment);
    let limit = batch_end(start, available);
    lemma_segment_start(start, p.segment);
    let (chunk, d, head, complete) = batch_outcome(p, bytes, available, reading, revision)->Ok_0->0;
    lemma_last_complete_record(bytes.len(), base, limit, start, p.segment, reading, n);
    let record = reading.records@[n - 1].0;
    lemma_frontier_is_complete(reading.records@, limit, false);
    lemma_kept(reading.records@, limit, n);
    assert(complete <= limit);
    assert(chunk =~= bytes.subrange(start - base, complete - base));
    lemma_publication_bounds(p.head, chunk.len(), record, start, complete);
    lemma_descriptor_fields(
        p.head.at("cluster"@),
        p.head.at("timeline"@),
        start,
        complete,
        record,
        p.head.at("tail"@),
        digest_of(chunk),
    );
    lemma_advanced_fields(p.head, complete, record, digest_of(body_of(d)), revision);
}

/// A batch is published as soon as it has a complete record behind the head's end, and not before:
/// the publisher waits where none is complete and all of the flushed log was in the batch.
pub proof fn lemma_complete_batch_is_published(
    p: PublisherView,
    bytes: Seq<u8>,
    available: u64,
    reading: Reading,
    revision: Seq<char>,
    start: u64,
    n: int,
)
    requires
        p.segment > 0,
        p.head.at("end"@) == JsonView::Number(start),
        start <= available,
        segment_start(start, p.segment) + bytes.len() == batch_end(start, available),
        reading.error is None,
        reading.positioned,
        complete_records(reading.records@, batch_end(start, available), n),
    ensures
        n > 0 && start < reading.records@[n - 1].1 && start <= reading.records@[n - 1].0
            < reading.records@[n - 1].1 ==> batch_outcome(
            p,
            bytes,
            available,
            reading,
            revision,
        ) matches Ok(Some(_)),
        (n == 0 || reading.records@[n - 1].1 <= start) && available <= start + 67108864
            ==> batch_outcome(p, bytes, available, reading, revision) matches Ok(None),
        (n == 0 || reading.records@[n - 1].1 <= start) && available > start + 67108864
            ==> batch_outcome(p, bytes, available, reading, revision) is Err,
{
    let base = segment_start(start, p.segment);
    let limit = batch_end(start, available);
    lemma_segment_start(start, p.segment);
    lemma_last_complete_record(bytes.len(), base, limit, start, p.segment, reading, n);
    if n > 0 && start < reading.records@[n - 1].1 && start <= reading.records@[n - 1].0
        < reading.records@[n - 1].1 {
        let complete = reading.records@[n - 1].1;
        assert(complete <= limit);
        let chunk = bytes.subrange(start - base, complete - base);
        lemma_publication_bounds(
            p.head,
            chunk.len(),
            reading.records@[n - 1].0,
            start,
            complete,
        );
    }
}

/// A snapshot may be selected exactly where it is of the head's timeline, began behind where the
/// archive starts, and ended in log that is published.
pub proof fn lemma_selectable(head: JsonView, timeline: u32, start: u64, end: u64)
    ensures
        selection_fault(head, timeline, start, end) is None <==> {
            &&& head.at("timeline"@) == JsonView::Number(timeline as u64)
            &&& head.at("end"@) matches JsonView::Number(e) && end <= e
            &&& head.at("start"@) matches JsonView::Number(s) && s < start
        },
{
}

/// A batch of a selection holds the log from where the selection stands up to where the last
/// complete record ends, and the selection goes on there; what it will need grows by the chunk
/// and the descriptor, and by nothing else.
pub proof fn lemma_selected_batch_is_the_log(
    head: JsonView,
    s: SelectionView,
    segment: nat,
    bytes: Seq<u8>,
    last: u64,
    complete: u64,
)
    requires
        segment > 0,
        complete - segment_start(s.pos, segment) <= bytes.len(),
    ensures
        complete <= s.pos ==> batch_step(head, s, segment, bytes, Ok((last, complete))) is Err,
        complete > s.pos ==> {
            &&& batch_step(head, s, segment, bytes, Ok((last, complete))) matches Ok(
                (chunk, d, next),
            )
            &&& chunk.len() == complete - s.pos
            &&& forall|i: int|
                0 <= i < chunk.len() ==> #[trigger] chunk[i] == bytes[s.pos - segment_start(
                    s.pos,
                    segment,
                ) + i]
            &&& d.at("start"@) == JsonView::Number(s.pos)
            &&& d.at("end"@) == JsonView::Number(complete)
            &&& d.at("record_start"@) == JsonView::Number(last)
            &&& d.at("chunk"@) == JsonView::Text(digest_of(chunk))
            &&& d.at("previous"@) == s.tail
            &&& d.at("cluster"@) == head.at("cluster"@)
            &&& d.at("timeline"@) == head.at("timeline"@)
            &&& next.pos == complete
            &&& next.record == last
            &&& next.tail == JsonView::Text(digest_of(body_of(d)))
            &&& next.count == s.count + 1
            &&& forall|k: Seq<char>| #[trigger]
                next.live.contains(k) <==> s.live.contains(k) || k == "chunks"@ + "/"@ + digest_of(
                    chunk,
                ) || k == "descriptors"@ + "/"@ + digest_of(body_of(d))
        },
{
    lemma_segment_start(s.pos, segment);
    if complete > s.pos {
        let base = segment_start(s.pos, segment);
        let chunk = bytes.subrange(s.pos - base, complete - base);
        lemma_descriptor_fields(
            head.at("cluster"@),
            head.at("timeline"@),
            s.pos,
            complete,
            last,
            s.tail,
            digest_of(chunk),
        );
    }
}

/// What a selected archive needs is what its selection gathered, the backup it starts from, and its
/// root's history where it has one.
pub proof fn lemma_selection_needs(s: Selection, head: JsonView, root: JsonView, k: Seq<char>)
    ensures
        s.needed(head, root).contains(k) <==> s.live@.contains(k) || is_key(k, "histories"@, root)
            || k == "backups"@ + "/"@ + digest_of(body_of(s.info(head, root))),
{
}

} // verus!
