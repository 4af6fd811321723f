//! The publisher: what it does next about the log that was flushed and not published yet.
use crate::archive::{num, num_of, MAX_CHUNKS};
use crate::decode::{last_record, lemma_frontier_is_complete, records_read, Reading};
use crate::http::{immutable_key, Object};
use crate::json::{field, Json, JsonView};
use crate::manifest_text::{body, body_of};
use crate::names::Names;
use crate::publish::{
    advanced, advanced_head, descriptor, descriptor_of, publication, publication_end,
};
use crate::refusal::{refuse, seen, Refusal};
use crate::renewal::key_of;
use crate::select::{batch_end, batch_limit, segment_base, segment_start};
use crate::wire::digest_of;
use vstd::prelude::*;
use vstd::slice::{slice_subrange, slice_to_vec};

verus! {

/// How long a recovered server waits for the publisher, in milliseconds.
pub const STARTUP_WAIT: u64 = 90000;

/// How often the publisher makes sure that the head is still its own, in milliseconds.
pub const OWNERSHIP_CHECK: u64 = 1000;

/// How much log an archive may have before its backup is replaced: a quarter of the memory, and
/// at least four segments.
pub open spec fn renewal_threshold(memory_mb: u32, segment: nat) -> nat {
    let quarter = memory_mb as nat * 1048576 / 4;
    if quarter < 4 * segment {
        4 * segment
    } else {
        quarter
    }
}

/// How much log an archive may have before its backup is replaced.
pub fn threshold(memory_mb: u32, segment: u32) -> (r: u64)
    ensures
        r == renewal_threshold(memory_mb, segment as nat),
{
    let quarter: u64 = memory_mb as u64 * 1048576 / 4;
    let four: u64 = 4 * segment as u64;
    if quarter < four {
        four
    } else {
        quarter
    }
}

/// What is wrong with a recovered server for the archive it was restored from.
pub open spec fn recovered_fault(
    system: u64,
    expected: u64,
    flushed: u64,
    head: JsonView,
) -> Option<Seq<char>> {
    if system != expected {
        Some("native recovery identity/bounds mismatch"@)
    } else {
        match num_of(head, "end"@) {
            Err(e) => Some(e),
            Ok(end) => if flushed < end {
                Some("native recovery identity/bounds mismatch"@)
            } else {
                None
            },
        }
    }
}

/// Checks that a recovered server is the one that was archived, and that it has all of the log.
pub fn check_recovered(system: u64, expected: u64, flushed: u64, head: &Json) -> (r: Result<
    (),
    Refusal,
>)
    ensures
        match r {
            Ok(_) => recovered_fault(system, expected, flushed, head@) is None,
            Err(e) => recovered_fault(system, expected, flushed, head@) == Some(e@),
        },
{
    if system != expected {
        return Err(refuse("native recovery identity/bounds mismatch"));
    }
    let end: u64 = match num(head, "end") {
        Ok(n) => n,
        Err(e) => return Err(e),
    };
    if flushed < end {
        return Err(refuse("native recovery identity/bounds mismatch"));
    }
    Ok(())
}

/// A new archive must reach to where the log stood at startup. Up to where it reaches.
pub fn check_founded(head: &Json, startup_end: u64) -> (r: Result<u64, Refusal>)
    ensures
        seen(r) == (match num_of(head@, "end"@) {
            Err(e) => Err(e),
            Ok(end) => if end < startup_end {
                Err("initial archive precedes startup WAL"@)
            } else {
                Ok(end)
            },
        }),
{
    let end: u64 = match num(head, "end") {
        Ok(n) => n,
        Err(e) => return Err(e),
    };
    if end < startup_end {
        return Err(refuse("initial archive precedes startup WAL"));
    }
    Ok(end)
}

/// Checks how long a recovered server has waited for the publisher.
pub fn check_deadline(began: u64, now: u64) -> (r: Result<(), Refusal>)
    ensures
        seen(r) == (if now > began + STARTUP_WAIT {
            Err("publisher did not authorize recovered startup within 90 seconds"@)
        } else {
            Ok(())
        }),
{
    if now > began && now - began > STARTUP_WAIT {
        return Err(refuse("publisher did not authorize recovered startup within 90 seconds"));
    }
    Ok(())
}

/// The name of a worker, by its argument.
pub fn worker_name(argument: u64) -> (r: &'static str)
    ensures
        r@ == (if argument == 0 {
            "object WAL publisher"@
        } else {
            "object snapshot renewal"@
        }),
{
    if argument == 0 {
        "object WAL publisher"
    } else {
        "object snapshot renewal"
    }
}

/// Why a worker stopped: it never should.
pub fn stop_reason(result: Result<(), Refusal>) -> (r: String)
    ensures
        r@ == (match result {
            Ok(_) => "worker exited unexpectedly"@,
            Err(e) => e@,
        }),
{
    match result {
        Ok(_) => "worker exited unexpectedly".to_owned(),
        Err(e) => e.message(),
    }
}

/// What the log of the server reports: which timeline it is on, and how far it was flushed.
#[derive(Clone, Copy)]
pub struct Flushed {
    pub timeline: u32,
    pub end: u64,
}

/// The state of a publisher.
pub struct Publisher {
    pub head: Json,
    pub timeline: u32,
    pub segment: usize,
    pub threshold: u64,
    /// How far the log reached when the server started.
    pub startup_end: u64,
    /// How many chunks the log in the archive has.
    pub chunks: usize,
    /// The snapshot worker is busy.
    pub renewing: bool,
    /// What was published since the worker listed what the archive needs.
    pub published: Names,
}

#[verifier::ext_equal]
pub struct PublisherView {
    pub head: JsonView,
    pub timeline: u32,
    pub segment: nat,
    pub threshold: u64,
    pub startup_end: u64,
    pub chunks: nat,
    pub renewing: bool,
    pub published: Set<Seq<char>>,
}

impl View for Publisher {
    type V = PublisherView;

    open spec fn view(&self) -> PublisherView {
        PublisherView {
            head: self.head@,
            timeline: self.timeline,
            segment: self.segment as nat,
            threshold: self.threshold,
            startup_end: self.startup_end,
            chunks: self.chunks as nat,
            renewing: self.renewing,
            published: self.published@,
        }
    }
}

/// A batch of log to be published: the chunk and the descriptor are stored first, then the
/// head is moved.
pub struct Publication {
    pub chunk: Vec<u8>,
    pub descriptor: Vec<u8>,
    pub head: Json,
    /// Up to where the log is durable once the head is moved.
    pub complete: u64,
    pub chunk_key: String,
    pub descriptor_key: String,
}

/// What a publisher makes of the log from the segment that holds the head's end to the limit
/// of a batch: a chunk and the new head, or nothing where no record is complete.
pub open spec fn batch_outcome(
    p: PublisherView,
    bytes: Seq<u8>,
    available: u64,
    reading: Reading,
    revision: Seq<char>,
) -> Result<Option<(Seq<u8>, JsonView, JsonView, u64)>, Seq<char>> {
    match num_of(p.head, "end"@) {
        Err(e) => Err(e),
        Ok(start) => {
            let base = segment_start(start, p.segment);
            let limit = batch_end(start, available);
            match records_read(bytes.len(), base, limit, start, p.segment, reading, false) {
                Err(e) => Err(e),
                Ok((record, complete)) => if complete <= start {
                    if limit < available {
                        Err("WAL record exceeds bounded publication batch"@)
                    } else {
                        Ok(None)
                    }
                } else {
                    let chunk = bytes.subrange(start - base, complete - base);
                    match publication_end(p.head, chunk.len(), record) {
                        Err(e) => Err(e),
                        Ok(_) => {
                            let d = batch_descriptor(p.head, start, complete, record, chunk);
                            Ok(
                                Some(
                                    (
                                        chunk,
                                        d,
                                        advanced_head(
                                            p.head,
                                            complete,
                                            record,
                                            digest_of(body_of(d)),
                                            revision,
                                        ),
                                        complete,
                                    ),
                                ),
                            )
                        },
                    }
                },
            }
        },
    }
}

/// The descriptor of a chunk that is published behind `head`.
pub open spec fn batch_descriptor(
    head: JsonView,
    start: u64,
    end: u64,
    record: u64,
    chunk: Seq<u8>,
) -> JsonView {
    descriptor_of(
        head.at("cluster"@),
        head.at("timeline"@),
        start,
        end,
        record,
        head.at("tail"@),
        digest_of(chunk),
    )
}

impl Publisher {
    pub open spec fn wf(&self) -> bool {
        &&& self.segment > 0
        &&& self.head@ is Object
        &&& self.published.wf()
    }

    /// A publisher that has sent the snapshot worker to clean up.
    pub fn new(
        head: Json,
        timeline: u32,
        segment: usize,
        threshold: u64,
        startup_end: u64,
        chunks: usize,
    ) -> (r: Publisher)
        requires
            segment > 0,
            head@ is Object,
        ensures
            r.wf(),
            r@ == (PublisherView {
                head: head@,
                timeline,
                segment: segment as nat,
                threshold,
                startup_end,
                chunks: chunks as nat,
                renewing: true,
                published: Set::empty(),
            }),
    {
        Publisher {
            head,
            timeline,
            segment,
            threshold,
            startup_end,
            chunks,
            renewing: true,
            published: Names::new(),
        }
    }

    /// A snapshot was selected: the head has moved over to it, with `chunks` chunks behind it.
    pub fn selected(&mut self, head: Json, chunks: usize)
        requires
            old(self).wf(),
            head@ is Object,
        ensures
            final(self).wf(),
            final(self)@ == (PublisherView {
                head: head@,
                chunks: chunks as nat,
                published: Set::empty(),
                ..old(self)@
            }),
    {
        self.head = head;
        self.chunks = chunks;
        self.published = Names::new();
    }

    /// The snapshot worker has cleaned up.
    pub fn cleaned(&mut self)
        requires
            old(self).wf(),
        ensures
            final(self).wf(),
            final(self)@ == (PublisherView { renewing: false, ..old(self)@ }),
    {
        self.renewing = false;
    }

    /// Whether the backup is to be replaced. The worker is busy from then on.
    pub fn renew(&mut self) -> (r: Result<bool, Refusal>)
        requires
            old(self).wf(),
        ensures
            final(self).wf(),
            match renewal_due(old(self)@) {
                Err(e) => r matches Err(x) && x@ == e && final(self)@ == old(self)@,
                Ok(due) => r == Ok::<bool, Refusal>(due) && final(self)@ == (if due {
                    PublisherView { renewing: true, published: Set::empty(), ..old(self)@ }
                } else {
                    old(self)@
                }),
            },
            r == Ok::<bool, Refusal>(true) ==> !old(self).renewing && final(self).renewing
                && final(self).published@ == Set::<Seq<char>>::empty(),
            r == Ok::<bool, Refusal>(true) <==> over_threshold(old(self)@),
    {
        let end: u64 = match num(&self.head, "end") {
            Ok(n) => n,
            Err(e) => return Err(e),
        };
        if self.renewing {
            return Ok(false);
        }
        let start: u64 = match num(&self.head, "start") {
            Ok(n) => n,
            Err(e) => return Err(e),
        };
        let log: u64 = if end > start {
            end - start
        } else {
            0
        };
        if log >= self.threshold || self.chunks >= MAX_CHUNKS / 2 {
            self.renewing = true;
            self.published = Names::new();
            return Ok(true);
        }
        Ok(false)
    }

    /// Which log is to be read next: from where, and up to where. Nothing where all of it is
    /// published.
    pub fn window(&self, flushed: Flushed) -> (r: Result<Option<(u64, u64)>, Refusal>)
        requires
            self.wf(),
        ensures
            seen(r) == next_window(self@, flushed),
    {
        let start: u64 = match num(&self.head, "end") {
            Ok(n) => n,
            Err(e) => return Err(e),
        };
        if flushed.timeline != self.timeline || flushed.end < start {
            return Err(refuse("publisher WAL position changed unexpectedly"));
        }
        if flushed.end == start {
            return Ok(None);
        }
        if self.chunks >= MAX_CHUNKS {
            return Err(refuse("WAL history capacity exhausted"));
        }
        Ok(Some((segment_base(start, self.segment), batch_limit(start, flushed.end))))
    }

    /// Makes a publication of the log in the window. Background flushing can stop inside a
    /// record: the durable frontier stays until the complete record can be read.
    pub fn batch(&self, bytes: &[u8], available: u64, reading: &Reading, revision: &str) -> (r:
        Result<Option<Publication>, Refusal>)
        requires
            self.wf(),
            num_of(self.head@, "end"@) matches Ok(start) ==> start <= available,
        ensures
            match batch_outcome(self@, bytes@, available, *reading, revision@) {
                Err(e) => r matches Err(x) && x@ == e,
                Ok(None) => r matches Ok(None),
                Ok(Some((chunk, d, head, complete))) => {
                    &&& r matches Ok(Some(p))
                    &&& p.chunk@ == chunk
                    &&& p.descriptor@ == body_of(d)
                    &&& p.head@ == head
                    &&& p.head@ is Object
                    &&& p.complete == complete
                    &&& p.chunk_key@ == key_of("chunks"@, digest_of(chunk))
                    &&& p.descriptor_key@ == key_of("descriptors"@, digest_of(body_of(d)))
                },
            },
    {
        let start: u64 = match num(&self.head, "end") {
            Ok(n) => n,
            Err(e) => return Err(e),
        };
        let base: u64 = segment_base(start, self.segment);
        let limit: u64 = batch_limit(start, available);
        let (record, complete) = match last_record(
            bytes,
            base,
            limit,
            start,
            self.segment,
            reading,
        ) {
            Ok(p) => p,
            Err(e) => return Err(e),
        };
        if complete <= start {
            if limit < available {
                return Err(refuse("WAL record exceeds bounded publication batch"));
            }
            return Ok(None);
        }
        proof {
            lemma_frontier_is_complete(reading.records@, limit, false);
            assert(limit - base == bytes@.len());
        }
        assert(complete - base <= bytes.len());
        let chunk = slice_subrange(bytes, (start - base) as usize, (complete - base) as usize);
        let (from, to) = match publication(&self.head, chunk, record) {
            Ok(p) => p,
            Err(e) => return Err(e),
        };
        assert(from == start && to == complete);
        let (address, chunk_key) = immutable_key("chunks", chunk);
        let d = descriptor(
            field(&self.head, "cluster"),
            field(&self.head, "timeline"),
            from,
            to,
            record,
            field(&self.head, "tail"),
            address.as_str(),
        );
        let stored = body(&d);
        let (tail, descriptor_key) = immutable_key("descriptors", stored.as_slice());
        let head = advanced(&self.head, to, record, tail.as_str(), revision);
        proof {
            lemma_advanced_object(self.head@, to, record, tail@, revision@);
        }
        Ok(
            Some(
                Publication {
                    chunk: slice_to_vec(chunk),
                    descriptor: stored,
                    head,
                    complete,
                    chunk_key,
                    descriptor_key,
                },
            ),
        )
    }

    /// The head has moved: the publication is durable. Whether the log that the server started
    /// with is.
    pub fn confirm(&mut self, p: Publication) -> (ready: bool)
        requires
            old(self).wf(),
            old(self).chunks < MAX_CHUNKS,
            p.head@ is Object,
        ensures
            final(self).wf(),
            ready == (p.complete >= old(self).startup_end),
            final(self)@ == (PublisherView {
                head: p.head@,
                chunks: old(self)@.chunks + 1,
                published: old(self)@.published.insert(p.chunk_key@).insert(p.descriptor_key@),
                ..old(self)@
            }),
    {
        self.head = p.head;
        self.published.insert(p.chunk_key);
        self.published.insert(p.descriptor_key);
        self.chunks += 1;
        p.complete >= self.startup_end
    }
}

proof fn lemma_advanced_object(
    head: JsonView,
    end: u64,
    record: u64,
    tail: Seq<char>,
    revision: Seq<char>,
)
    requires
        head is Object,
    ensures
        advanced_head(head, end, record, tail, revision) is Object,
{
}

/// Whether the backup is to be replaced: the worker is free, and there is much log or there are
/// many chunks.
pub open spec fn renewal_due(p: PublisherView) -> Result<bool, Seq<char>> {
    match num_of(p.head, "end"@) {
        Err(e) => Err(e),
        Ok(end) => if p.renewing {
            Ok(false)
        } else {
            match num_of(p.head, "start"@) {
                Err(e) => Err(e),
                Ok(start) => {
                    let log = if end > start {
                        end - start
                    } else {
                        0
                    };
                    Ok(log >= p.threshold || p.chunks >= MAX_CHUNKS / 2)
                },
            }
        },
    }
}

/// The worker is free, and the log has reached the threshold or has many chunks.
pub open spec fn over_threshold(p: PublisherView) -> bool {
    &&& p.head.at("start"@) matches JsonView::Number(start) && p.head.at(
        "end"@,
    ) matches JsonView::Number(end) && (start + p.threshold <= end || p.threshold == 0 || 5000
        <= p.chunks)
    &&& !p.renewing
}

/// The log that a publisher reads next.
pub open spec fn next_window(p: PublisherView, flushed: Flushed) -> Result<
    Option<(u64, u64)>,
    Seq<char>,
> {
    match num_of(p.head, "end"@) {
        Err(e) => Err(e),
        Ok(start) => if flushed.timeline != p.timeline || flushed.end < start {
            Err("publisher WAL position changed unexpectedly"@)
        } else if flushed.end == start {
            Ok(None)
        } else if p.chunks >= MAX_CHUNKS {
            Err("WAL history capacity exhausted"@)
        } else {
            Ok(Some((segment_start(start, p.segment), batch_end(start, flushed.end))))
        },
    }
}

/// It is time to make sure that the head is still the publisher's own.
pub fn ownership_due(last_checked: u64, now: u64) -> (r: bool)
    ensures
        r == (now >= last_checked + OWNERSHIP_CHECK),
{
    now >= last_checked && now - last_checked >= OWNERSHIP_CHECK
}

/// Checks that the head is still the publisher's own.
pub fn check_ownership(current: &Object, snapshot: &Object) -> (r: Result<(), Refusal>)
    ensures
        seen(r) == (if current@ == snapshot@ {
            Ok(())
        } else {
            Err("publisher lost bucket ownership"@)
        }),
{
    if !current.same(snapshot) {
        return Err(refuse("publisher lost bucket ownership"));
    }
    Ok(())
}

/// When the backup is replaced. A busy worker is left alone. A free one is sent as soon as the log
/// between the head's start and its end has reached the threshold, or the log has half as many
/// chunks as an archive may have, and not before.
pub proof fn lemma_renewal_goes_by_the_threshold(p: PublisherView, start: u64, end: u64)
    requires
        p.head.at("start"@) == JsonView::Number(start),
        p.head.at("end"@) == JsonView::Number(end),
    ensures
        p.renewing ==> renewal_due(p) == Ok::<bool, Seq<char>>(false),
        !p.renewing && end - start >= p.threshold ==> renewal_due(p) == Ok::<bool, Seq<char>>(true),
        !p.renewing && 2 * p.chunks >= MAX_CHUNKS ==> renewal_due(p) == Ok::<bool, Seq<char>>(true),
        !p.renewing && end - start < p.threshold && 0 < p.threshold && 2 * p.chunks < MAX_CHUNKS
            ==> renewal_due(p) == Ok::<bool, Seq<char>>(false),
{
}

/// More log never calls a renewal off: with the same start, threshold and chunks, a publisher whose
/// head ends later is due wherever one whose head ends earlier is.
pub proof fn lemma_renewal_stays_due(p: PublisherView, q: PublisherView)
    requires
        renewal_due(p) == Ok::<bool, Seq<char>>(true),
        q.head.at("start"@) == p.head.at("start"@),
        q.head.at("end"@) matches JsonView::Number(e) && p.head.at("end"@)->Number_0 <= e,
        q.threshold == p.threshold,
        q.chunks >= p.chunks,
        !q.renewing,
    ensures
        renewal_due(q) == Ok::<bool, Seq<char>>(true),
{
}

/// The durable frontier moves forward and stays within what was flushed: a publication ends
/// behind the head's end and not behind the end of the flushed log, and the head it leads to
/// ends where it does.
pub proof fn lemma_frontier_moves(
    p: PublisherView,
    bytes: Seq<u8>,
    available: u64,
    reading: Reading,
    revision: Seq<char>,
)
    requires
        p.head is Object,
        batch_outcome(p, bytes, available, reading, revision) matches Ok(Some(_)),
        num_of(p.head, "end"@)->Ok_0 <= available,
    ensures
        ({
            let start = num_of(p.head, "end"@)->Ok_0;
            let (chunk, d, head, complete) = batch_outcome(
                p,
                bytes,
                available,
                reading,
                revision,
            )->Ok_0->0;
            &&& start < complete <= available
            &&& num_of(head, "end"@) == Ok::<u64, Seq<char>>(complete)
        }),
{
    let start = num_of(p.head, "end"@)->Ok_0;
    let limit = batch_end(start, available);
    lemma_frontier_is_complete(reading.records@, limit, false);
    let (chunk, d, head, complete) = batch_outcome(p, bytes, available, reading, revision)->Ok_0->0;
    let record = records_read(
        bytes.len(),
        segment_start(start, p.segment),
        limit,
        start,
        p.segment,
        reading,
        false,
    )->Ok_0.0;
    reveal_strlit("end");
    reveal_strlit("record_start");
    reveal_strlit("tail");
    reveal_strlit("revision");
    assert("end"@.len() == 3 && "record_start"@.len() == 12 && "tail"@.len() == 4
        && "revision"@.len() == 8);
    let a = p.head.with("end"@, JsonView::Number(complete));
    let b = a.with("record_start"@, JsonView::Number(record));
    let c = b.with("tail"@, JsonView::Text(digest_of(body_of(d))));
    crate::json::lemma_set_then_get(p.head, "end"@, JsonView::Number(complete), "end"@);
    crate::json::lemma_set_then_get(a, "record_start"@, JsonView::Number(record), "end"@);
    crate::json::lemma_set_then_get(b, "tail"@, JsonView::Text(digest_of(body_of(d))), "end"@);
    crate::json::lemma_set_then_get(c, "revision"@, JsonView::Text(revision), "end"@);
    assert(head == c.with("revision"@, JsonView::Text(revision)));
}

} // verus!
