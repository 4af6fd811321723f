//! What scans of a run answer, stated over the entries it was built from.
use crate::commit::EntryView;
use crate::key::{is_version_of, is_versioned, row_part, seq_part};
use crate::order::{
    at_most, begins_with, below, lemma_at_most_below, lemma_below_asymmetric, lemma_below_at_most,
    lemma_below_irreflexive, lemma_below_transitive, lemma_prefix_convex, lemma_prefix_not_below,
};
use crate::run::{
    ascending, blocks_read, last_below, lemma_steps_add, lemma_steps_keep, lemma_steps_over,
    scan_outcome, scanned, seek_pos, walked, Query, RangeSource, Read, Run, Walk,
};
use crate::run_answers::{
    faithful, honest, lemma_blocks_read, sorted, true_read, true_reads,
};
use crate::run_format::{index_from, run_bytes, IndexView, RunError};
use crate::run_laws::{
    block_entries, block_start, built_meta, fits, lemma_block_of_built, lemma_blocks_cover,
};
use vstd::prelude::*;

verus! {

/// `run` was built from `es`, is read from a source that hands out what was written, and
/// its cache holds only blocks of it.
pub open spec fn holds<S: RangeSource>(run: &Run<S>, es: Seq<EntryView>, horizon: u64) -> bool {
    &&& fits(es)
    &&& sorted(es)
    &&& faithful(&run.src, run_bytes(es, horizon))
    &&& run.meta() == built_meta(es, horizon)
    &&& honest(run.cache@, es)
}

/// A key sorts at or after the row it belongs to.
proof fn lemma_row_at_most(k: Seq<u8>)
    ensures
        at_most(row_part(k), k),
{
    if is_versioned(k) {
        assert(k.take(row_part(k).len() as int) =~= row_part(k));
        lemma_prefix_not_below(k, row_part(k));
    } else {
        lemma_below_irreflexive(k);
    }
}

/// Where block `k` starts and what it holds.
pub proof fn lemma_starts(es: Seq<EntryView>, k: int)
    requires
        fits(es),
        0 <= k <= index_from(es, 0, 0).len(),
    ensures
        0 <= block_start(es, 0, k as nat) <= es.len(),
        k < index_from(es, 0, 0).len() ==> block_start(es, 0, k as nat) < block_start(
            es,
            0,
            (k + 1) as nat,
        ) <= es.len(),
        k < index_from(es, 0, 0).len() ==> index_from(es, 0, 0)[k].0 == es[block_start(
            es,
            0,
            k as nat,
        )].0,
        k < index_from(es, 0, 0).len() ==> block_entries(es, k) == es.subrange(
            block_start(es, 0, k as nat),
            block_start(es, 0, (k + 1) as nat),
        ),
        k == index_from(es, 0, 0).len() ==> block_start(es, 0, k as nat) == es.len(),
{
    lemma_blocks_cover(es, 0, 0);
    if k < index_from(es, 0, 0).len() {
        lemma_block_of_built(es, 0, k);
    }
}

/// Blocks start one after another.
pub proof fn lemma_starts_mono(es: Seq<EntryView>, j: int, k: int)
    requires
        fits(es),
        0 <= j <= k <= index_from(es, 0, 0).len(),
    ensures
        block_start(es, 0, j as nat) <= block_start(es, 0, k as nat),
    decreases k,
{
    if j < k {
        lemma_starts_mono(es, j, k - 1);
        lemma_starts(es, k - 1);
    }
}

/// The first keys in the index of a sorted run ascend.
pub proof fn lemma_index_ascends(es: Seq<EntryView>)
    requires
        fits(es),
        sorted(es),
    ensures
        ascending(index_from(es, 0, 0)),
{
    let ix = index_from(es, 0, 0);
    assert forall|i: int, j: int| 0 <= i <= j < ix.len() implies at_most(
        (#[trigger] ix[i]).0,
        (#[trigger] ix[j]).0,
    ) by {
        lemma_starts(es, i);
        lemma_starts(es, j);
        lemma_starts_mono(es, i, j);
        let a = block_start(es, 0, i as nat);
        let b = block_start(es, 0, j as nat);
        if a < b {
            lemma_below_asymmetric(es[a].0, es[b].0);
        } else {
            lemma_below_irreflexive(es[a].0);
        }
    }
}

/// Entry `e` adds nothing to a scan for `q`, whatever was met before.
pub open spec fn idle(q: Query, e: EntryView) -> bool {
    match q {
        Query::Prefix { prefix } => !begins_with(e.0, prefix),
        Query::Range { lo, hi, .. } => below(row_part(e.0), lo) || !below(e.0, hi),
        Query::Back { lo, hi, .. } => below(row_part(e.0), lo) || !below(e.0, hi),
    }
}

/// Entry `e` is passed over by a scan for `q`, which goes on.
pub open spec fn skipped(q: Query, e: EntryView) -> bool {
    match q {
        Query::Prefix { prefix } => below(e.0, prefix),
        Query::Range { lo, .. } => below(row_part(e.0), lo),
        Query::Back { lo, hi, .. } => !below(e.0, hi) || below(row_part(e.0), lo),
    }
}

proof fn lemma_idle(w: Walk, q: Query, es: Seq<EntryView>)
    requires
        forall|i: int| 0 <= i < es.len() ==> idle(q, #[trigger] es[i]),
    ensures
        w.steps(q, es).out == w.out,
    decreases es.len(),
{
    if es.len() > 0 {
        assert forall|i: int| 0 <= i < es.drop_last().len() implies idle(
            q,
            #[trigger] es.drop_last()[i],
        ) by {
            assert(idle(q, es[i]));
        }
        lemma_idle(w, q, es.drop_last());
        assert(idle(q, es[es.len() - 1]));
    }
}

proof fn lemma_skipped(w: Walk, q: Query, es: Seq<EntryView>)
    requires
        forall|i: int| 0 <= i < es.len() ==> skipped(q, #[trigger] es[i]),
    ensures
        w.steps(q, es) == w,
    decreases es.len(),
{
    if es.len() > 0 {
        assert forall|i: int| 0 <= i < es.drop_last().len() implies skipped(
            q,
            #[trigger] es.drop_last()[i],
        ) by {
            assert(skipped(q, es[i]));
        }
        lemma_skipped(w, q, es.drop_last());
        assert(skipped(q, es[es.len() - 1]));
    }
}

/// Two walks that differ only in where they stand step alike.
proof fn lemma_steps_at(w: Walk, at: int, q: Query, es: Seq<EntryView>)
    ensures
        (Walk { at, ..w }).steps(q, es) == (Walk { at, ..w.steps(q, es) }),
    decreases es.len(),
{
    if es.len() > 0 {
        lemma_steps_at(w, at, q, es.drop_last());
    }
}

/// A walk upwards over true blocks has met just the entries of these blocks.
proof fn lemma_walked_up(es: Seq<EntryView>, q: Query, start: int, reads: Seq<Read>, w: Walk)
    requires
        fits(es),
        !(q is Back),
        0 <= start < index_from(es, 0, 0).len(),
        true_reads(es, reads),
        walked(index_from(es, 0, 0), q, start, reads) == Some(w),
    ensures
        start + reads.len() <= index_from(es, 0, 0).len(),
        w == (Walk {
            at: start + reads.len(),
            ..Walk::begin(start).steps(
                q,
                es.subrange(
                    block_start(es, 0, start as nat),
                    block_start(es, 0, (start + reads.len()) as nat),
                ),
            )
        }),
        w.failed is None,
    decreases reads.len(),
{
    let ix = index_from(es, 0, 0);
    let a = block_start(es, 0, start as nat);
    reveal(walked);
    lemma_starts(es, start);
    if reads.len() == 0 {
        assert(es.subrange(a, a) =~= Seq::empty());
    } else {
        let head = reads.drop_last();
        assert(true_reads(es, head)) by {
            assert forall|i: int| 0 <= i < head.len() implies true_read(es, #[trigger] head[i]) by {
                assert(true_read(es, reads[i]));
            }
        }
        let v = walked(ix, q, start, head).unwrap();
        lemma_walked_up(es, q, start, head, v);
        assert(true_read(es, reads[reads.len() - 1]));
        let k = v.at;
        lemma_starts(es, k);
        lemma_starts_mono(es, start, k);
        lemma_block_of_built(es, 0, k);
        let b = block_start(es, 0, k as nat);
        let c = block_start(es, 0, (k + 1) as nat);
        lemma_steps_add(Walk::begin(start), q, es.subrange(a, b), es.subrange(b, c));
        assert(es.subrange(a, b) + es.subrange(b, c) =~= es.subrange(a, c));
        lemma_steps_at(Walk::begin(start).steps(q, es.subrange(a, b)), k, q, es.subrange(b, c));
        lemma_steps_keep(Walk::begin(start), q, es.subrange(a, c));
    }
}

/// An upward scan finds what walking over every entry would find.
proof fn lemma_scan_up(
    es: Seq<EntryView>,
    q: Query,
    bound: Seq<u8>,
    start: int,
    reads: Seq<Read>,
    r: Result<Seq<EntryView>, RunError>,
)
    requires
        fits(es),
        sorted(es),
        match q {
            Query::Prefix { prefix } => bound == prefix,
            Query::Range { lo, .. } => bound == lo,
            Query::Back { .. } => false,
        },
        seek_pos(index_from(es, 0, 0), bound, start),
        true_reads(es, reads),
        scanned(index_from(es, 0, 0), q, start, reads, r),
    ensures
        r == Ok::<Seq<EntryView>, RunError>(Walk::begin(0).steps(q, es).out),
{
    let ix = index_from(es, 0, 0);
    let w = walked(ix, q, start, reads).unwrap();
    lemma_walked_up(es, q, start, reads, w);
    lemma_index_ascends(es);
    lemma_starts(es, start);
    lemma_starts(es, w.at);
    lemma_starts_mono(es, start, w.at);
    let a = block_start(es, 0, start as nat);
    let c = block_start(es, 0, w.at as nat);
    let before = es.take(a);
    let mid = es.subrange(a, c);
    let after = es.skip(c);
    let begin = Walk::begin(0);
    assert(es =~= before + (mid + after));
    lemma_steps_add(begin, q, before, mid + after);
    lemma_steps_add(begin, q, mid, after);
    assert forall|i: int| 0 <= i < before.len() implies skipped(q, #[trigger] before[i]) by {
        let k = before[i].0;
        assert(below(es[i].0, es[a].0));
        if start > 0 {
            lemma_below_at_most(k, es[a].0, bound);
        } else {
            assert(block_start(es, 0, 0) == 0);
        }
        lemma_row_at_most(k);
        lemma_at_most_below(row_part(k), k, bound);
    }
    lemma_skipped(begin, q, before);
    lemma_steps_at(begin, start, q, mid);
    let m = begin.steps(q, mid);
    assert(w.out == m.out && w.over == m.over);
    if m.over {
        lemma_steps_over(m, q, after);
    } else if w.at < ix.len() {
        assert forall|i: int| 0 <= i < after.len() implies idle(q, #[trigger] after[i]) by {
            let k = after[i].0;
            let first = es[c].0;
            assert(after[i] == es[c + i]);
            if i > 0 {
                assert(below(first, es[c + i].0));
                lemma_below_asymmetric(first, k);
            } else {
                lemma_below_irreflexive(k);
            }
            match q {
                Query::Prefix { prefix } => {
                    if begins_with(k, prefix) {
                        lemma_below_asymmetric(prefix, first);
                        lemma_prefix_convex(k, first, prefix);
                    }
                },
                Query::Range { hi, .. } => {
                    if below(k, hi) {
                        lemma_at_most_below(first, k, hi);
                    }
                },
                Query::Back { .. } => {},
            }
        }
        lemma_idle(m, q, after);
    } else {
        assert(after =~= Seq::empty());
    }
}

proof fn lemma_prefix_steps(es: Seq<EntryView>, prefix: Seq<u8>)
    requires
        sorted(es),
    ensures
        ({
            let w = Walk::begin(0).steps(Query::Prefix { prefix }, es);
            &&& w.out == es.filter(|e: EntryView| begins_with(e.0, prefix))
            &&& w.over ==> exists|j: int|
                0 <= j < es.len() && !below((#[trigger] es[j]).0, prefix) && !begins_with(
                    es[j].0,
                    prefix,
                )
        }),
    decreases es.len(),
{
    let q = Query::Prefix { prefix };
    let keep = |e: EntryView| begins_with(e.0, prefix);
    reveal(Seq::filter);
    if es.len() > 0 {
        let head = es.drop_last();
        assert(sorted(head)) by {
            assert forall|i: int, j: int| 0 <= i < j < head.len() implies below(
                (#[trigger] head[i]).0,
                (#[trigger] head[j]).0,
            ) by {
                assert(below(es[i].0, es[j].0));
            }
        }
        lemma_prefix_steps(head, prefix);
        let v = Walk::begin(0).steps(q, head);
        let e = es.last();
        if v.over {
            let j = choose|j: int|
                0 <= j < head.len() && !below((#[trigger] head[j]).0, prefix) && !begins_with(
                    head[j].0,
                    prefix,
                );
            assert(es[j] == head[j]);
            assert(below(es[j].0, es[es.len() - 1].0));
            if begins_with(e.0, prefix) {
                lemma_below_asymmetric(es[j].0, e.0);
                lemma_prefix_convex(e.0, es[j].0, prefix);
            }
        } else {
            if begins_with(e.0, prefix) {
                lemma_prefix_not_below(e.0, prefix);
            }
            assert(es[es.len() - 1] == e);
        }
    }
}

/// A prefix scan gives exactly the entries whose key begins with the prefix, in key order.
pub proof fn lemma_scan_prefix<S: RangeSource>(
    before: &Run<S>,
    after: &Run<S>,
    es: Seq<EntryView>,
    horizon: u64,
    prefix: Seq<u8>,
    start: int,
    r: Result<Seq<EntryView>, RunError>,
)
    requires
        holds(before, es, horizon),
        seek_pos(before.meta().index, prefix, start),
        scan_outcome(before, after, Query::Prefix { prefix }, start, r),
    ensures
        r == Ok::<Seq<EntryView>, RunError>(es.filter(|e: EntryView| begins_with(e.0, prefix))),
        honest(after.cache@, es),
{
    let ix = before.meta().index;
    let q = Query::Prefix { prefix };
    let reads = choose|reads: Seq<Read>| #[trigger]
        blocks_read(&before.src, ix, before.cache@, reads, after.cache@) && scanned(
            ix,
            q,
            start,
            reads,
            r,
        );
    lemma_blocks_read(&before.src, es, horizon, before.cache@, reads, after.cache@);
    lemma_scan_up(es, q, prefix, start, reads, r);
    lemma_prefix_steps(es, prefix);
}

/// The rows that the entries of `es` belong to.
pub open spec fn row_set(es: Seq<EntryView>) -> Set<Seq<u8>>
    decreases es.len(),
{
    if es.len() == 0 {
        Set::empty()
    } else if is_versioned(es.last().0) {
        row_set(es.drop_last()).insert(row_part(es.last().0))
    } else {
        row_set(es.drop_last())
    }
}

/// How many rows the entries of `es` belong to.
pub open spec fn rows_in(es: Seq<EntryView>) -> nat {
    row_set(es).len()
}

/// A row counts once, however many versions it has and wherever they stand.
pub proof fn lemma_row_set(es: Seq<EntryView>)
    ensures
        row_set(es).finite(),
        forall|r: Seq<u8>| #[trigger]
            row_set(es).contains(r) <==> exists|i: int|
                0 <= i < es.len() && is_version_of((#[trigger] es[i]).0, r),
    decreases es.len(),
{
    if es.len() > 0 {
        let head = es.drop_last();
        let last = es.len() - 1;
        lemma_row_set(head);
        assert forall|r: Seq<u8>| #[trigger] row_set(es).contains(r) <==> exists|i: int|
            0 <= i < es.len() && is_version_of((#[trigger] es[i]).0, r) by {
            if row_set(es).contains(r) {
                if is_version_of(es[last].0, r) {
                } else {
                    let i = choose|i: int|
                        0 <= i < head.len() && is_version_of((#[trigger] head[i]).0, r);
                    assert(is_version_of(es[i].0, r));
                }
            }
            if exists|i: int| 0 <= i < es.len() && is_version_of((#[trigger] es[i]).0, r) {
                let i = choose|i: int|
                    0 <= i < es.len() && is_version_of((#[trigger] es[i]).0, r);
                if i < last {
                    assert(is_version_of(head[i].0, r));
                }
            }
        }
    }
}

/// As many of the first entries of `es` as belong to at most `limit` rows.
pub open spec fn page(es: Seq<EntryView>, limit: nat) -> Seq<EntryView>
    decreases es.len(),
{
    if rows_in(es) <= limit {
        es
    } else {
        page(es.drop_last(), limit)
    }
}

/// `e` is in the range `[lo, hi)` and visible at `snapshot`.
pub open spec fn wanted(lo: Seq<u8>, hi: Seq<u8>, snapshot: u64, e: EntryView) -> bool {
    &&& !below(row_part(e.0), lo)
    &&& below(e.0, hi)
    &&& seq_part(e.0) matches Some(s) ==> s <= snapshot
}

proof fn lemma_page_push(es: Seq<EntryView>, e: EntryView, limit: nat)
    ensures
        es.push(e).drop_last() == es,
        es.push(e).last() == e,
        rows_in(es) <= rows_in(es.push(e)),
        rows_in(es.push(e)) > limit ==> page(es.push(e), limit) == page(es, limit),
        rows_in(es.push(e)) <= limit ==> page(es.push(e), limit) == es.push(e),
{
    assert(es.push(e).drop_last() =~= es);
    lemma_row_set(es);
}

/// How a walk for a page over `es` ends, as far as the order in which entries are met does
/// not matter. `past` says of an entry that a walk that meets it goes no further.
proof fn lemma_page_steps(es: Seq<EntryView>, q: Query, lo: Seq<u8>, hi: Seq<u8>, snapshot: u64, limit: nat)
    requires
        match q {
            Query::Prefix { .. } => false,
            Query::Range { lo: l, hi: h, snapshot: s, limit: m } => l == lo && h == hi && s
                == snapshot && m == limit && forall|i: int, j: int|
                0 <= i < j < es.len() && !below((#[trigger] es[i]).0, hi) ==> !wanted(
                    lo,
                    hi,
                    snapshot,
                    #[trigger] es[j],
                ),
            Query::Back { lo: l, hi: h, snapshot: s, limit: m } => l == lo && h == hi && s
                == snapshot && m == limit,
        },
    ensures
        ({
            let w = Walk::begin(0).steps(q, es);
            let f = es.filter(|e: EntryView| wanted(lo, hi, snapshot, e));
            &&& w.out == page(f, limit)
            &&& !w.over ==> rows_in(f) <= limit && w.rows == row_set(f)
            &&& w.over ==> rows_in(f) > limit || (q is Range && exists|i: int|
                0 <= i < es.len() && !below((#[trigger] es[i]).0, hi))
        }),
    decreases es.len(),
{
    let keep = |e: EntryView| wanted(lo, hi, snapshot, e);
    reveal(Seq::filter);
    if es.len() > 0 {
        let head = es.drop_last();
        let e = es.last();
        assert forall|i: int, j: int| 0 <= i < j < head.len() && !below(
            (#[trigger] head[i]).0,
            hi,
        ) && q is Range implies !wanted(lo, hi, snapshot, #[trigger] head[j]) by {
            assert(es[i] == head[i] && es[j] == head[j]);
        }
        lemma_page_steps(head, q, lo, hi, snapshot, limit);
        let v = Walk::begin(0).steps(q, head);
        let f = head.filter(keep);
        assert(es[es.len() - 1] == e);
        lemma_page_push(f, e, limit);
        lemma_row_set(f);
        if v.over {
            if rows_in(f) > limit {
            } else {
                let i = choose|i: int|
                    0 <= i < head.len() && !below((#[trigger] head[i]).0, hi);
                assert(es[i] == head[i]);
                assert(!wanted(lo, hi, snapshot, es[es.len() - 1]));
            }
        }
    }
}

/// A page of a range scan holds the visible versions of the first rows in the range, in key
/// order.
pub proof fn lemma_scan_range<S: RangeSource>(
    before: &Run<S>,
    after: &Run<S>,
    es: Seq<EntryView>,
    horizon: u64,
    lo: Seq<u8>,
    hi: Seq<u8>,
    snapshot: u64,
    limit: nat,
    start: int,
    r: Result<Seq<EntryView>, RunError>,
)
    requires
        holds(before, es, horizon),
        seek_pos(before.meta().index, lo, start),
        scan_outcome(before, after, Query::Range { lo, hi, snapshot, limit }, start, r),
    ensures
        r == Ok::<Seq<EntryView>, RunError>(
            page(es.filter(|e: EntryView| wanted(lo, hi, snapshot, e)), limit),
        ),
        honest(after.cache@, es),
{
    let ix = before.meta().index;
    let q = Query::Range { lo, hi, snapshot, limit };
    let reads = choose|reads: Seq<Read>| #[trigger]
        blocks_read(&before.src, ix, before.cache@, reads, after.cache@) && scanned(
            ix,
            q,
            start,
            reads,
            r,
        );
    lemma_blocks_read(&before.src, es, horizon, before.cache@, reads, after.cache@);
    lemma_scan_up(es, q, lo, start, reads, r);
    assert forall|i: int, j: int| 0 <= i < j < es.len() && !below(
        (#[trigger] es[i]).0,
        hi,
    ) implies !wanted(lo, hi, snapshot, #[trigger] es[j]) by {
        if below(es[j].0, hi) {
            lemma_below_transitive(es[i].0, es[j].0, hi);
        }
    }
    lemma_page_steps(es, q, lo, hi, snapshot, limit);
}

/// A walk downwards over true blocks has met just the entries of these blocks, last first.
proof fn lemma_walked_down(
    es: Seq<EntryView>,
    lo: Seq<u8>,
    hi: Seq<u8>,
    snapshot: u64,
    limit: nat,
    start: int,
    reads: Seq<Read>,
    w: Walk,
)
    requires
        fits(es),
        sorted(es),
        -1 <= start < index_from(es, 0, 0).len(),
        start >= 0 ==> below(index_from(es, 0, 0)[start].0, hi),
        true_reads(es, reads),
        walked(index_from(es, 0, 0), Query::Back { lo, hi, snapshot, limit }, start, reads) == Some(
            w,
        ),
    ensures
        w.at == start - reads.len(),
        -1 <= w.at,
        w.failed is None,
        ({
            let met = es.subrange(
                block_start(es, 0, (w.at + 1) as nat),
                block_start(es, 0, (start + 1) as nat),
            ).reverse();
            let v = Walk::begin(0).steps(Query::Back { lo, hi, snapshot, limit }, met);
            &&& w.out == v.out
            &&& w.rows == v.rows
            &&& w.over == (v.over || (reads.len() > 0 && at_most(
                index_from(es, 0, 0)[w.at + 1].0,
                lo,
            )))
        }),
    decreases reads.len(),
{
    let ix = index_from(es, 0, 0);
    let q = Query::Back { lo, hi, snapshot, limit };
    let c = block_start(es, 0, (start + 1) as nat);
    reveal(walked);
    lemma_starts(es, start + 1);
    if reads.len() == 0 {
        assert(es.subrange(c, c).reverse() =~= Seq::empty());
    } else {
        let head = reads.drop_last();
        assert(true_reads(es, head)) by {
            assert forall|i: int| 0 <= i < head.len() implies true_read(es, #[trigger] head[i]) by {
                assert(true_read(es, reads[i]));
            }
        }
        let v = walked(ix, q, start, head).unwrap();
        lemma_walked_down(es, lo, hi, snapshot, limit, start, head, v);
        assert(true_read(es, reads[reads.len() - 1]));
        let k = v.at;
        lemma_starts(es, k);
        lemma_starts_mono(es, k + 1, start + 1);
        lemma_block_of_built(es, 0, k);
        lemma_index_ascends(es);
        let a = block_start(es, 0, k as nat);
        let b = block_start(es, 0, (k + 1) as nat);
        let upper = es.subrange(b, c).reverse();
        let part = es.subrange(a, b).reverse();
        assert(upper + part =~= es.subrange(a, c).reverse());
        lemma_steps_add(Walk::begin(0), q, upper, part);
        let u = Walk::begin(0).steps(q, upper);
        lemma_steps_keep(Walk::begin(0), q, upper);
        assert(v == (Walk { at: k, ..u }));
        lemma_steps_at(u, k, q, part);
        lemma_steps_keep(u, q, part);
        if k >= 1 {
            assert(at_most(ix[k - 1].0, ix[start].0));
            lemma_at_most_below(ix[k - 1].0, ix[start].0, hi);
        }
        assert(last_below(ix, hi, k - 1) == k - 1);
    }
}

proof fn lemma_last_below(ix: Seq<IndexView>, hi: Seq<u8>, i: int)
    requires
        -1 <= i < ix.len(),
    ensures
        -1 <= last_below(ix, hi, i) <= i,
        last_below(ix, hi, i) >= 0 ==> below(ix[last_below(ix, hi, i)].0, hi),
        forall|k: int| last_below(ix, hi, i) < k <= i ==> !below((#[trigger] ix[k]).0, hi),
    decreases i + 1,
{
    if i >= 0 && !below(ix[i].0, hi) {
        lemma_last_below(ix, hi, i - 1);
    }
}

proof fn lemma_filter_reverse(es: Seq<EntryView>, keep: spec_fn(EntryView) -> bool)
    ensures
        es.reverse().filter(keep) == es.filter(keep).reverse(),
    decreases es.len(),
{
    reveal(Seq::filter);
    if es.len() == 0 {
        assert(es.reverse() =~= Seq::empty());
        assert(es.filter(keep).reverse() =~= Seq::empty());
    } else {
        let head = es.drop_last();
        let one = seq![es.last()];
        lemma_filter_reverse(head, keep);
        assert(es.reverse() =~= one + head.reverse());
        Seq::filter_distributes_over_add(one, head.reverse(), keep);
        assert(one.drop_last() =~= Seq::empty());
        assert(one.drop_last().filter(keep) =~= Seq::empty());
        if keep(es.last()) {
            assert(one.filter(keep) =~= one);
            assert(es.filter(keep).reverse() =~= one + head.filter(keep).reverse());
        } else {
            assert(one.filter(keep) =~= Seq::empty());
            assert(es.filter(keep).reverse() =~= one.filter(keep) + head.filter(keep).reverse());
        }
    }
}

/// As many of the last entries of `es` as belong to at most `limit` rows.
pub open spec fn last_page(es: Seq<EntryView>, limit: nat) -> Seq<EntryView> {
    page(es.reverse(), limit).reverse()
}

/// A page of a backward range scan holds the visible versions of the last rows in the range,
/// in ascending order.
#[verifier::rlimit(50)]
#[verifier::spinoff_prover]
pub proof fn lemma_scan_back<S: RangeSource>(
    before: &Run<S>,
    after: &Run<S>,
    es: Seq<EntryView>,
    horizon: u64,
    lo: Seq<u8>,
    hi: Seq<u8>,
    snapshot: u64,
    limit: nat,
    r: Result<Seq<EntryView>, RunError>,
)
    requires
        holds(before, es, horizon),
        scan_outcome(
            before,
            after,
            Query::Back { lo, hi, snapshot, limit },
            last_below(before.meta().index, hi, before.meta().index.len() - 1),
            r,
        ),
    ensures
        r == Ok::<Seq<EntryView>, RunError>(
            last_page(es.filter(|e: EntryView| wanted(lo, hi, snapshot, e)), limit),
        ),
        honest(after.cache@, es),
{
    let ix = before.meta().index;
    let q = Query::Back { lo, hi, snapshot, limit };
    let start = last_below(ix, hi, ix.len() - 1);
    let reads = choose|reads: Seq<Read>| #[trigger]
        blocks_read(&before.src, ix, before.cache@, reads, after.cache@) && scanned(
            ix,
            q,
            start,
            reads,
            r,
        );
    lemma_blocks_read(&before.src, es, horizon, before.cache@, reads, after.cache@);
    lemma_last_below(ix, hi, ix.len() - 1);
    lemma_index_ascends(es);
    let w = walked(ix, q, start, reads).unwrap();
    lemma_walked_down(es, lo, hi, snapshot, limit, start, reads, w);
    lemma_starts(es, start + 1);
    lemma_starts(es, w.at + 1);
    lemma_starts_mono(es, w.at + 1, start + 1);
    let a = block_start(es, 0, (w.at + 1) as nat);
    let c = block_start(es, 0, (start + 1) as nat);
    let top = es.skip(c).reverse();
    let mid = es.subrange(a, c).reverse();
    let bottom = es.take(a).reverse();
    let begin = Walk::begin(0);
    assert(es.reverse() =~= top + (mid + bottom));
    lemma_steps_add(begin, q, top, mid + bottom);
    lemma_steps_add(begin, q, mid, bottom);
    assert forall|i: int| 0 <= i < top.len() implies skipped(q, #[trigger] top[i]) by {
        let j = es.len() - 1 - i;
        assert(top[i] == es[j]);
        assert(!below(ix[start + 1].0, hi));
        if below(es[j].0, hi) && j > c {
            lemma_below_transitive(es[c].0, es[j].0, hi);
        }
    }
    lemma_skipped(begin, q, top);
    let m = begin.steps(q, mid);
    if m.over {
        lemma_steps_over(m, q, bottom);
    } else if w.at >= 0 {
        assert forall|i: int| 0 <= i < bottom.len() implies idle(q, #[trigger] bottom[i]) by {
            let j = a - 1 - i;
            let k = es[j].0;
            assert(bottom[i] == es[j]);
            assert(below(es[j].0, es[a].0));
            lemma_below_at_most(k, es[a].0, lo);
            lemma_row_at_most(k);
            lemma_at_most_below(row_part(k), k, lo);
        }
        lemma_idle(m, q, bottom);
    } else {
        assert(block_start(es, 0, 0) == 0);
        assert(bottom =~= Seq::empty());
    }
    let back = es.reverse();
    lemma_page_steps(back, q, lo, hi, snapshot, limit);
    lemma_filter_reverse(es, |e: EntryView| wanted(lo, hi, snapshot, e));
}

} // verus!
