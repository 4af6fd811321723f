//! What each step of a restore does: what is asked for, what is refused, and where the bytes go.
use crate::archive::history_fault;
use crate::decode::Reading;
use crate::json::JsonView;
use crate::memory_wal::{even, lemma_next_pos, lemma_patched_bytes, lemma_pos_in_segment, WalView};
use crate::publish_laws::{begins_segment, complete_records, lemma_last_complete_record};
use crate::rebuild::{check_window, chunk_start, lemma_poured_bytes, segment_byte};
use crate::restoring::{
    advanced, fork_log, node_done, parent_at, span_of, with_chunk, with_history, with_records,
    NeedView, Phase, RestoringView,
};
use vstd::prelude::*;

verus! {

/// A timeline begins with its parent's log: whatever the parent holds of the segment that the fork
/// lies in, before the fork, the child holds too, and nothing else that was held changes.
pub proof fn lemma_fork_carries_the_prefix(
    w: WalView,
    now: WalView,
    pt: u32,
    fork: u64,
    t: u32,
    u: u32,
    p: nat,
)
    requires
        even(w),
        fork_log(w, pt, fork, t) == Ok::<WalView, Seq<char>>(now),
    ensures
        even(now),
        ({
            let base = (fork as nat / w.segment_bytes) * w.segment_bytes;
            &&& base <= p < fork ==> w.byte_at(pt, p) is Some && now.byte_at(t, p) == w.byte_at(
                pt,
                p,
            )
            &&& !(u == t && base <= p < fork) && w.byte_at(u, p) is Some ==> now.byte_at(u, p)
                == w.byte_at(u, p)
        }),
{
    let size = w.segment_bytes;
    let q = fork as nat / size;
    let off = fork as nat % size;
    let base = q * size;
    lemma_pos_in_segment(fork as nat, size);
    if off != 0 {
        let key = w.key_at(pt, fork);
        let prefix = w.segments[key].take(off as int);
        assert(q <= fork) by (nonlinear_arith)
            requires
                q * size <= fork,
                size > 0,
        ;
        lemma_next_pos(q, 0, size);
        assert(base as u64 == base);
        lemma_patched_bytes(w, t, base as u64, prefix, t, p);
        lemma_patched_bytes(w, t, base as u64, prefix, u, p);
        if base <= p < fork {
            lemma_next_pos(q, (p - base) as nat, size);
        }
    }
}

/// A timeline is begun only where its parent holds the segment that the fork lies in.
pub proof fn lemma_fork_needs_the_parent(w: WalView, pt: u32, fork: u64, t: u32)
    requires
        w.segment_bytes > 0,
        fork as nat % w.segment_bytes != 0,
        !w.segments.dom().contains((pt, (fork as nat / w.segment_bytes) as u64)),
    ensures
        fork_log(w, pt, fork, t) is Err,
{
}

/// A chunk is as long as its descriptor says, or it is refused.
pub proof fn lemma_chunk_has_its_length(d: JsonView, len: nat, start: u64)
    ensures
        chunk_start(d, len) == Ok::<u64, Seq<char>>(start) <==> d.at("start"@) == JsonView::Number(
            start,
        ) && d.at("end"@) is Number && d.at("end"@)->Number_0 == start + len,
{
}

/// A chunk that was read goes where its descriptor says, on the timeline that is put together, byte
/// for byte; nothing else that was held changes, and the next older descriptor stays to be looked
/// at.
pub proof fn lemma_chunk_goes_in_place(
    v: RestoringView,
    bytes: Seq<u8>,
    next: RestoringView,
    t: u64,
    start: u64,
    u: u32,
    p: nat,
)
    requires
        even(v.log),
        v.left > 0,
        v.nodes[v.node as int].at("timeline"@) == JsonView::Number(t),
        t <= u32::MAX,
        v.walk.chain[v.left - 1].at("start"@) == JsonView::Number(start),
        with_chunk(v, bytes) == Ok::<RestoringView, Seq<char>>(next),
    ensures
        v.walk.chain[v.left - 1].at("end"@) is Number,
        v.walk.chain[v.left - 1].at("end"@)->Number_0 == start + bytes.len(),
        even(next.log),
        u == t && start <= p < start + bytes.len() ==> next.log.byte_at(u, p) == Some(
            bytes[p - start],
        ),
        !(u == t && start <= p < start + bytes.len()) && v.log.byte_at(u, p) is Some
            ==> next.log.byte_at(u, p) == v.log.byte_at(u, p),
        next == (RestoringView { log: next.log, left: (v.left - 1) as nat, ..v }),
{
    lemma_chunk_has_its_length(v.walk.chain[v.left - 1], bytes.len(), start);
    lemma_poured_bytes(v.log, next.log, t as u32, start as nat, bytes, u, p);
}

/// Which chunks are asked for: of the descriptors, oldest first, every one of the timeline that is
/// put together, by the address that it names; and only one of another timeline is passed over.
pub proof fn lemma_every_chunk_is_asked_for(v: RestoringView)
    requires
        v.phase == Phase::Chunks,
        v.left > 0,
        v.walk.chain[v.left - 1].at("chunk"@) is Text,
    ensures
        ({
            let d = v.walk.chain[v.left - 1];
            &&& d.at("timeline"@) == v.nodes[v.node as int].at("timeline"@) ==> advanced(v) == Ok::<
                (RestoringView, NeedView),
                Seq<char>,
            >((v, NeedView::Chunk(d.at("chunk"@)->Text_0)))
            &&& d.at("timeline"@) != v.nodes[v.node as int].at("timeline"@) ==> advanced(v)
                == Ok::<(RestoringView, NeedView), Seq<char>>(
                ((RestoringView { left: (v.left - 1) as nat, ..v }), NeedView::Nothing),
            )
        }),
{
}

/// The timelines are put together from the oldest to the newest, each from all of the descriptors,
/// and the restore is done with the newest and not before.
pub proof fn lemma_oldest_timeline_first(v: RestoringView)
    requires
        v.nodes.len() > 0,
    ensures
        v.phase == Phase::Chain ==> (advanced(v) matches Ok((w, NeedView::Nothing)) ==> w.phase
            == Phase::Fork && w.node == v.nodes.len() - 1 && v.walk.tail == JsonView::Null
            && v.walk.anchored),
        v.node > 0 ==> node_done(v).node == v.node - 1 && node_done(v).phase == Phase::Fork,
        v.node == 0 ==> node_done(v).phase == Phase::Done,
        node_done(v).log == v.log,
        v.phase == Phase::Fork ==> (advanced(v) matches Ok((w, _)) ==> w.phase == Phase::Chunks
            && w.left == v.walk.chain.len() && w.node == v.node),
        v.phase == Phase::Chunks && v.left == 0 ==> (advanced(v) matches Ok((w, _)) && w.phase
            == Phase::Check && w.log == v.log && w.node == v.node),
        (advanced(v) matches Ok((w, NeedView::Done))) ==> v.phase == Phase::Done,
{
}

/// The history of every timeline but the oldest is asked for, newest first, by the address that its
/// head names.
pub proof fn lemma_every_history_is_asked_for(v: RestoringView)
    requires
        v.phase == Phase::Histories,
        v.nodes.len() > 0,
    ensures
        ({
            let i = v.histories.len() as int;
            &&& i + 1 < v.nodes.len() && v.nodes[i].at("transition"@).at("history"@) is Text
                ==> advanced(v) == Ok::<(RestoringView, NeedView), Seq<char>>(
                (v, NeedView::History(v.nodes[i].at("transition"@).at("history"@)->Text_0)),
            )
            &&& i + 1 < v.nodes.len() && !(v.nodes[i].at("transition"@).at("history"@) is Text)
                ==> advanced(v) is Err
            &&& i + 1 >= v.nodes.len() ==> (advanced(v) matches Ok((w, NeedView::Nothing)) && w.phase
                == Phase::Chain)
        }),
{
}

/// A history that was read is kept for its timeline exactly where it stands up to the head that the
/// timeline was forked off.
pub proof fn lemma_history_is_kept(v: RestoringView, bytes: Seq<u8>, t: u64)
    requires
        v.nodes[v.histories.len() as int].at("timeline"@) == JsonView::Number(t),
        t <= u32::MAX,
    ensures
        ({
            let i = v.histories.len() as int;
            &&& with_history(v, bytes) is Ok <==> history_fault(bytes, v.nodes[i + 1], v.root) is None
            &&& with_history(v, bytes) matches Ok(w) ==> {
                &&& w.histories.len() == i + 1
                &&& w.histories[i].0 == t
                &&& w.histories[i].1 == bytes
                &&& forall|j: int| 0 <= j < i ==> #[trigger] w.histories[j] == v.histories[j]
                &&& w.log == v.log
            }
        }),
{
}

/// What of a timeline's log is checked: from the segment where it begins, the fork or the start of
/// the archive, up to where its head ends; nothing where it has no log of its own.
pub proof fn lemma_checked_stretch(
    head: JsonView,
    node: JsonView,
    parent: Option<JsonView>,
    size: nat,
    first: u64,
    end: u64,
)
    requires
        size > 0,
        node.at("end"@) == JsonView::Number(end),
        match parent {
            Some(p) => p.at("end"@) == JsonView::Number(first),
            None => head.at("start"@) == JsonView::Number(first),
        },
    ensures
        end <= first ==> check_window(head, node, parent, size) == Ok::<
            Option<(u64, u64, u64)>,
            Seq<char>,
        >(None),
        first < end ==> (check_window(head, node, parent, size) matches Ok(Some((b, e, f)))
            && begins_segment(b, first, size) && e == end && f == first),
{
    crate::publish_laws::lemma_segment_start(first, size);
}

/// The bytes that are handed over to be checked are those of the log that was put together, all of
/// them and in order.
pub proof fn lemma_checked_bytes_are_the_log(
    w: WalView,
    t: u32,
    start: u64,
    end: u64,
    limit: nat,
    i: int,
)
    requires
        even(w),
        span_of(w.segments, w.segment_bytes, t, start, end, limit) is Ok,
    ensures
        ({
            let b = span_of(w.segments, w.segment_bytes, t, start, end, limit)->Ok_0;
            &&& b.len() == end - start
            &&& 0 <= i < b.len() ==> w.byte_at(t, (start + i) as nat) == Some(b[i])
        }),
{
    if 0 <= i < end - start {
        let p = (start + i) as nat;
        assert(segment_byte(w.segments, w.segment_bytes, t, p) is Some);
    }
}

/// A log with a hole in it is not handed over.
pub proof fn lemma_hole_is_refused(w: WalView, t: u32, start: u64, end: u64, limit: nat, p: u64)
    requires
        even(w),
        start <= p < end,
        w.byte_at(t, p as nat) is None,
    ensures
        span_of(w.segments, w.segment_bytes, t, start, end, limit) is Err,
{
    assert(segment_byte(w.segments, w.segment_bytes, t, p as nat) is None);
}

/// A timeline stands up to its check exactly where the last complete record of its log begins and
/// ends where its head says.
pub proof fn lemma_checked_timeline_ends_right(
    v: RestoringView,
    len: nat,
    reading: Reading,
    base: u64,
    end: u64,
    first: u64,
    n: int,
)
    requires
        check_window(v.nodes[0], v.nodes[v.node as int], parent_at(v), v.log.segment_bytes) == Ok::<
            Option<(u64, u64, u64)>,
            Seq<char>,
        >(Some((base, end, first))),
        base + len == end,
        base <= first <= end,
        base as nat % v.log.segment_bytes == 0,
        reading.error is None,
        reading.positioned,
        complete_records(reading.records@, end, n),
        0 < n,
    ensures
        with_records(v, len, reading) is Ok <==> {
            &&& v.nodes[v.node as int].at("record_start"@) == JsonView::Number(
                reading.records@[n - 1].0,
            )
            &&& v.nodes[v.node as int].at("end"@) == JsonView::Number(reading.records@[n - 1].1)
        },
        with_records(v, len, reading) matches Ok(w) ==> w == node_done(v),
{
    lemma_last_complete_record(len, base, end, first, v.log.segment_bytes, reading, n);
}

} // verus!
