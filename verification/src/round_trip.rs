//! What was published is what is restored: the walk back from a head meets the descriptors of all
//! that was published, and the log put together from their chunks has the bytes that were
//! published.
use crate::archive::{heads_of, lemma_heads_fields, num_of, parent_fault, MAX_CHUNKS};
use crate::archive_laws::{
    lemma_advanced_fields, lemma_descriptor_fields, lemma_publishing_keeps_heads,
};
use crate::json::JsonView;
use crate::manifest_text::body_of;
use crate::memory_wal::{even, WalView};
use crate::publish::{advanced_head, descriptor_of, publication_end};
use crate::rebuild::{lemma_poured_bytes, poured};
use crate::restore::{chain_request, chain_step, discontinuous, misplaced, settled, ChainView};
use crate::wire::digest_of;
use vstd::prelude::*;

verus! {

/// A chunk of log, the record that it ends in, and what the head was stamped with.
pub struct Published {
    pub chunk: Seq<u8>,
    pub record: u64,
    pub revision: Seq<char>,
}

/// Where a publication begins and ends.
pub open spec fn bounds(head: JsonView, p: Published) -> (u64, u64) {
    publication_end(head, p.chunk.len(), p.record)->Ok_0
}

/// The descriptor that a chunk is published with.
pub open spec fn descriptor_for(head: JsonView, p: Published) -> JsonView {
    let (start, end) = bounds(head, p);
    descriptor_of(
        head.at("cluster"@),
        head.at("timeline"@),
        start,
        end,
        p.record,
        head.at("tail"@),
        digest_of(p.chunk),
    )
}

/// The address of that descriptor.
pub open spec fn address_for(head: JsonView, p: Published) -> Seq<char> {
    digest_of(body_of(descriptor_for(head, p)))
}

/// The head after some chunks were published, one after the other.
pub open spec fn head_after(head: JsonView, ps: Seq<Published>) -> JsonView
    decreases ps.len(),
{
    if ps.len() == 0 {
        head
    } else {
        let h = head_after(head, ps.drop_last());
        let p = ps.last();
        advanced_head(h, bounds(h, p).1, p.record, address_for(h, p), p.revision)
    }
}

/// Each of the chunks can be published where the one before ended.
pub open spec fn publishable(head: JsonView, ps: Seq<Published>) -> bool
    decreases ps.len(),
{
    ps.len() == 0 || (publishable(head, ps.drop_last()) && publication_end(
        head_after(head, ps.drop_last()),
        ps.last().chunk.len(),
        ps.last().record,
    ) is Ok)
}

/// Where the log of a head ends.
pub open spec fn end_of(head: JsonView) -> u64 {
    num_of(head, "end"@)->Ok_0
}

/// A head that chunks were published after is one of the same history that ends where they do.
pub proof fn lemma_head_after(head: JsonView, ps: Seq<Published>)
    requires
        head is Object,
        heads_of(head) is Ok,
        publishable(head, ps),
    ensures
        ({
            let h = head_after(head, ps);
            &&& h is Object
            &&& heads_of(h) == Ok::<Seq<JsonView>, Seq<char>>(heads_of(head)->Ok_0.update(0, h))
            &&& h.at("cluster"@) == head.at("cluster"@)
            &&& h.at("timeline"@) == head.at("timeline"@)
            &&& h.at("start"@) == head.at("start"@)
            &&& num_of(h, "end"@) == Ok::<u64, Seq<char>>(end_of(h))
            &&& end_of(h) >= end_of(head) + ps.len()
            &&& ps.len() > 0 ==> {
                let before = head_after(head, ps.drop_last());
                &&& end_of(h) == end_of(before) + ps.last().chunk.len()
                &&& bounds(before, ps.last()) == (end_of(before), end_of(h))
                &&& h.at("tail"@) == JsonView::Text(address_for(before, ps.last()))
                &&& h.at("record_start"@) == JsonView::Number(ps.last().record)
            }
        }),
    decreases ps.len(),
{
    let all = heads_of(head)->Ok_0;
    lemma_heads_fields(head, 0, 0);
    if ps.len() == 0 {
        assert(all.update(0, head) =~= all);
    } else {
        let before = head_after(head, ps.drop_last());
        let p = ps.last();
        lemma_head_after(head, ps.drop_last());
        let tail = address_for(before, p);
        lemma_publishing_keeps_heads(before, p.chunk.len(), p.record, tail, p.revision);
        lemma_advanced_fields(before, bounds(before, p).1, p.record, tail, p.revision);
        let h = head_after(head, ps);
        assert(all.update(0, before).update(0, h) =~= all.update(0, h));
    }
}

/// The descriptors from publication `m` on, newest first.
pub open spec fn chain_back(head: JsonView, ps: Seq<Published>, m: nat) -> Seq<JsonView> {
    Seq::new(
        (ps.len() - m) as nat,
        |i: int|
            descriptor_for(
                head_after(head, ps.take(ps.len() - 1 - i)),
                ps[ps.len() - 1 - i],
            ),
    )
}

/// Where the walk back from the last head stands after it has met all publications from `m` on.
pub open spec fn walk_at(head: JsonView, ps: Seq<Published>, m: nat) -> ChainView {
    let h = head_after(head, ps.take(m as int));
    ChainView {
        tail: h.at("tail"@),
        end: end_of(h),
        owner: 0,
        anchored: false,
        chain: chain_back(head, ps, m),
    }
}

proof fn lemma_publishable_take(head: JsonView, ps: Seq<Published>, m: int)
    requires
        publishable(head, ps),
        0 <= m <= ps.len(),
    ensures
        publishable(head, ps.take(m)),
    decreases ps.len(),
{
    if m < ps.len() {
        assert(ps.drop_last().take(m) =~= ps.take(m));
        lemma_publishable_take(head, ps.drop_last(), m);
    } else {
        assert(ps.take(m) =~= ps);
    }
}

proof fn lemma_ends_rise(head: JsonView, ps: Seq<Published>, m: int)
    requires
        head is Object,
        heads_of(head) is Ok,
        publishable(head, ps),
        0 <= m <= ps.len(),
    ensures
        end_of(head_after(head, ps.take(m))) <= end_of(head_after(head, ps)),
        m < ps.len() ==> end_of(head_after(head, ps.take(m))) < end_of(head_after(head, ps)),
    decreases ps.len(),
{
    if m < ps.len() {
        assert(ps.drop_last().take(m) =~= ps.take(m));
        lemma_head_after(head, ps);
        lemma_ends_rise(head, ps.drop_last(), m);
    } else {
        assert(ps.take(m) =~= ps);
    }
}

/// Walking back from the last head, a restore asks for the descriptor of the last chunk that was
/// published and takes it, then for that of the one before, and so on to the first: `m` chunks
/// are left before each step.
pub proof fn lemma_walk_reads_back(
    head: JsonView,
    info: JsonView,
    ps: Seq<Published>,
    m: nat,
)
    requires
        head is Object,
        heads_of(head) is Ok,
        publishable(head, ps),
        0 < m <= ps.len() <= MAX_CHUNKS,
        info.at("anchor"@) != head_after(head, ps.take(m as int)).at("tail"@),
    ensures
        ({
            let nodes = heads_of(head_after(head, ps))->Ok_0;
            let before = head_after(head, ps.take(m - 1));
            let walk = walk_at(head, ps, m);
            &&& chain_request(nodes, walk) == Ok::<Option<(int, Seq<char>)>, Seq<char>>(
                Some((0int, address_for(before, ps[m - 1]))),
            )
            &&& chain_step(nodes, info, walk, descriptor_for(before, ps[m - 1])) == Ok::<
                ChainView,
                Seq<char>,
            >(walk_at(head, ps, (m - 1) as nat))
        }),
{
    let last = head_after(head, ps);
    let nodes = heads_of(last)->Ok_0;
    let old_nodes = heads_of(head)->Ok_0;
    let some = ps.take(m as int);
    let h = head_after(head, some);
    let before = head_after(head, ps.take(m - 1));
    let p = ps[m - 1];
    let walk = walk_at(head, ps, m);
    let d = descriptor_for(before, p);
    assert(some.drop_last() =~= ps.take(m - 1));
    assert(some.last() == p);
    lemma_publishable_take(head, ps, m as int);
    lemma_publishable_take(head, ps, m - 1);
    lemma_head_after(head, ps);
    lemma_head_after(head, some);
    lemma_head_after(head, ps.take(m - 1));
    lemma_ends_rise(head, ps, m as int);
    let (start, end) = bounds(before, p);
    lemma_descriptor_fields(
        before.at("cluster"@),
        before.at("timeline"@),
        start,
        end,
        p.record,
        before.at("tail"@),
        digest_of(p.chunk),
    );
    lemma_heads_fields(head, 0, 0);
    assert(nodes[0] == last);
    assert(publication_end(before, p.chunk.len(), p.record) is Ok);
    if nodes.len() > 1 {
        assert(nodes[1] == old_nodes[1]);
        assert(parent_fault(nodes[1], head) is None);
    }
    assert(walk.chain.len() == ps.len() - m);
    assert(settled(nodes, walk.tail, walk.end, 0) == Ok::<int, Seq<char>>(0));
    if m == ps.len() {
        assert(some =~= ps);
    }
    assert(misplaced(nodes, walk, d, start) == Ok::<bool, Seq<char>>(false));
    assert(discontinuous(nodes, walk, d, start, p.record) == Ok::<bool, Seq<char>>(false));
    assert(walk.chain.push(d) =~= chain_back(head, ps, (m - 1) as nat));
}

/// The log of timeline `t` put together from chunks that were published, oldest first. Nothing
/// where there is no room.
pub open spec fn log_after(w: WalView, t: u32, head: JsonView, ps: Seq<Published>) -> Option<
    WalView,
>
    decreases ps.len(),
{
    if ps.len() == 0 {
        Some(w)
    } else {
        match log_after(w, t, head, ps.drop_last()) {
            None => None,
            Some(x) => poured(
                x,
                t,
                end_of(head_after(head, ps.drop_last())) as nat,
                ps.last().chunk,
            ),
        }
    }
}

/// Every byte that was published is in the log that is put together from the chunks, at the
/// position where it was published; and what the log held before the first of them stays.
pub proof fn lemma_restored_is_published(
    w: WalView,
    now: WalView,
    t: u32,
    head: JsonView,
    ps: Seq<Published>,
    m: nat,
    i: nat,
    p: nat,
)
    requires
        head is Object,
        heads_of(head) is Ok,
        publishable(head, ps),
        even(w),
        log_after(w, t, head, ps) == Some(now),
    ensures
        even(now),
        m < ps.len() && i < ps[m as int].chunk.len() ==> now.byte_at(
            t,
            (end_of(head_after(head, ps.take(m as int))) + i) as nat,
        ) == Some(ps[m as int].chunk[i as int]),
        p < end_of(head) && w.byte_at(t, p) is Some ==> now.byte_at(t, p) == w.byte_at(t, p),
    decreases ps.len(),
{
    lemma_head_after(head, ps);
    if ps.len() > 0 {
        let rest = ps.drop_last();
        let x = log_after(w, t, head, rest)->0;
        lemma_restored_is_published(w, x, t, head, rest, m, i, p);
        lemma_head_after(head, rest);
        let start = end_of(head_after(head, rest));
        let c = ps.last().chunk;
        lemma_poured_bytes(x, now, t, start as nat, c, t, p);
        if m < ps.len() && i < ps[m as int].chunk.len() {
            let at = (end_of(head_after(head, ps.take(m as int))) + i) as nat;
            lemma_poured_bytes(x, now, t, start as nat, c, t, at);
            if m + 1 == ps.len() {
                assert(ps.take(m as int) =~= rest);
            } else {
                assert(rest.take(m as int) =~= ps.take(m as int));
                assert(rest[m as int] == ps[m as int]);
                let next = m as int + 1;
                let upto = ps.take(next);
                assert(upto.drop_last() =~= ps.take(m as int));
                assert(rest.take(next) =~= upto);
                lemma_publishable_take(head, ps, next);
                lemma_head_after(head, upto);
                lemma_ends_rise(head, rest, next);
            }
        }
    }
}

} // verus!
