//! Which log an incremental backup goes by: all of it since the previous backup, once.
use crate::incremental::{
    covered, increment_path, largest, last_slash, misfit, needed_ranges, origin_of, positions_of,
    smallest, stretch, stretches, timeline_at, HistoryEntry,
};
use crate::incremental_manifest::WalRange;
use vstd::prelude::*;

verus! {

/// A history of timelines, newest first: each begins where the one before it ended, and none but
/// the newest goes on.
pub open spec fn chronological(history: Seq<HistoryEntry>) -> bool {
    &&& forall|i: int|
        0 <= i < history.len() - 1 ==> (#[trigger] history[i]).begin == history[i + 1].end
    &&& forall|i: int, j: int|
        0 <= i < j < history.len() ==> (#[trigger] history[i]).tli != (#[trigger] history[j]).tli
    &&& forall|i: int|
        0 < i < history.len() ==> (#[trigger] history[i]).begin <= history[i].end && history[i].end
            > 0
}

/// Timeline `t` stands at the place where it is first in the history, and nowhere where it is not
/// in it.
pub proof fn lemma_timeline_is_found(history: Seq<HistoryEntry>, t: u32)
    ensures
        match timeline_at(history, t) {
            Some(i) => 0 <= i < history.len() && history[i].tli == t && forall|j: int|
                0 <= j < i ==> (#[trigger] history[j]).tli != t,
            None => forall|j: int| 0 <= j < history.len() ==> (#[trigger] history[j]).tli != t,
        },
    decreases history.len(),
{
    if history.len() > 0 {
        let h = history.drop_last();
        lemma_timeline_is_found(h, t);
        assert(forall|j: int| 0 <= j < h.len() ==> #[trigger] history[j] == h[j]);
        match timeline_at(h, t) {
            Some(i) => {
                assert(h[i] == history[i]);
            },
            None => {},
        }
    }
}

proof fn lemma_positions(prior: Seq<WalRange>, history: Seq<HistoryEntry>, k: int)
    requires
        positions_of(prior, history) is Some,
    ensures
        positions_of(prior, history)->0.len() == prior.len(),
        0 <= k < prior.len() ==> timeline_at(history, prior[k].tli) == Some(
            positions_of(prior, history)->0[k],
        ),
    decreases prior.len(),
{
    if prior.len() > 0 {
        lemma_positions(prior.drop_last(), history, k);
        if 0 <= k < prior.len() - 1 {
            assert(prior.drop_last()[k] == prior[k]);
        }
    }
}

proof fn lemma_bounds(s: Seq<int>, k: int)
    ensures
        0 <= k < s.len() ==> smallest(s) <= s[k] <= largest(s),
        s.len() > 0 ==> exists|i: int| 0 <= i < s.len() && s[i] == largest(s),
        s.len() > 0 ==> exists|i: int| 0 <= i < s.len() && s[i] == smallest(s),
    decreases s.len(),
{
    if s.len() > 0 {
        let t = s.drop_last();
        lemma_bounds(t, k);
        if 0 <= k < t.len() {
            assert(t[k] == s[k]);
        }
        assert(s[s.len() - 1] == s.last());
        if s.len() > 1 {
            let i = choose|i: int| 0 <= i < t.len() && t[i] == largest(t);
            assert(s[i] == t[i]);
            let j = choose|j: int| 0 <= j < t.len() && t[j] == smallest(t);
            assert(s[j] == t[j]);
        }
    }
}

/// Stretches of log lie one behind the other, from one position to another, and none is empty.
pub open spec fn connects(ranges: Seq<WalRange>, from: u64, to: u64) -> bool
    decreases ranges.len(),
{
    if ranges.len() == 0 {
        from == to
    } else {
        &&& ranges.last().start < ranges.last().end
        &&& ranges.last().end == to
        &&& connects(ranges.drop_last(), from, ranges.last().start)
    }
}

proof fn lemma_stretches(
    history: Seq<HistoryEntry>,
    first: int,
    origin: u64,
    start: u64,
    i: int,
)
    requires
        chronological(history),
        0 <= i <= first < history.len(),
        first > 0 ==> origin <= history[first].end,
        i == 0 ==> (if first == 0 {
            origin
        } else {
            history[0].begin
        }) <= start,
    ensures
        connects(
            stretches(history, first, origin, start, i),
            origin,
            if i == 0 {
                start
            } else {
                history[i].end
            },
        ),
        forall|k: int|
            0 <= k < stretches(history, first, origin, start, i).len() ==> exists|j: int|
                i <= j <= first && (#[trigger] stretches(history, first, origin, start, i)[k]).tli
                    == (#[trigger] history[j]).tli,
    decreases first - i,
{
    let s = stretch(history, first, origin, start, i);
    let all = stretches(history, first, origin, start, i);
    let before = stretches(history, first, origin, start, i + 1);
    if i == first {
        assert(before =~= Seq::empty());
    } else {
        lemma_stretches(history, first, origin, start, i + 1);
        assert(history[i].begin == history[i + 1].end);
        if i > 0 {
            assert(history[i].begin <= history[i].end);
        }
    }
    assert(connects(before, origin, s.start));
    if s.start < s.end {
        assert(all.drop_last() =~= before);
        assert(all.last() == s);
    } else {
        assert(all == before);
    }
    assert forall|k: int| 0 <= k < all.len() implies exists|j: int|
        i <= j <= first && (#[trigger] all[k]).tli == (#[trigger] history[j]).tli by {
        if k < before.len() {
            assert(all[k] == before[k]);
            let j = choose|j: int|
                i + 1 <= j <= first && before[k].tli == (#[trigger] history[j]).tli;
            assert(all[k].tli == history[j].tli);
        } else {
            assert(all[k].tli == history[i].tli);
        }
    }
}

/// What an incremental backup goes by is all of the log since the previous backup began, up to where
/// it begins itself: stretches one behind the other, oldest first, each of a timeline of the server,
/// without a gap and without an overlap.
pub proof fn lemma_needed_log_is_connected(
    prior: Seq<WalRange>,
    history: Seq<HistoryEntry>,
    start: u64,
)
    requires
        chronological(history),
        history.len() > 0,
        history[0].begin <= start,
        forall|k: int| 0 <= k < prior.len() ==> (#[trigger] prior[k]).start < prior[k].end,
        needed_ranges(prior, history, start) is Ok,
    ensures
        ({
            let ranges = needed_ranges(prior, history, start)->Ok_0;
            let first = largest(positions_of(prior, history)->0);
            let origin = origin_of(prior, history[first].tli);
            &&& ranges.len() > 0
            &&& connects(ranges, origin, start)
            &&& origin < start
            &&& exists|k: int| 0 <= k < prior.len() && (#[trigger] prior[k]).start == origin
            &&& forall|k: int|
                0 <= k < prior.len() ==> (#[trigger] prior[k]).end <= start
        }),
{
    let at = positions_of(prior, history)->0;
    let first = largest(at);
    let last = smallest(at);
    let origin = origin_of(prior, history[first].tli);
    lemma_positions(prior, history, 0);
    lemma_bounds(at, 0);
    let m = choose|m: int| 0 <= m < at.len() && at[m] == first;
    lemma_positions(prior, history, m);
    lemma_timeline_is_found(history, prior[m].tli);
    lemma_origin(prior, history[first].tli, m);
    let k = choose|k: int|
        0 <= k < prior.len() && (#[trigger] prior[k]).tli == history[first].tli && prior[k].start
            == origin;
    lemma_positions(prior, history, k);
    assert(at[k] == first);
    assert(!misfit(prior[k], history[at[k]], at[k], first, last, start));
    if first > 0 {
        assert(history[first].end > 0);
    }
    lemma_stretches(history, first, origin, start, 0);
    let ranges = stretches(history, first, origin, start, 0);
    assert(ranges.len() > 0);
    assert forall|j: int| 0 <= j < prior.len() implies (#[trigger] prior[j]).end <= start by {
        assert(!misfit(prior[j], history[at[j]], at[j], first, last, start));
    }
}

/// Each position from where connected stretches begin to where they end lies in one of them.
pub proof fn lemma_connected_covers(ranges: Seq<WalRange>, from: u64, to: u64, p: u64)
    requires
        connects(ranges, from, to),
    ensures
        from <= to,
        from <= p < to <==> exists|i: int|
            0 <= i < ranges.len() && (#[trigger] ranges[i]).start <= p < ranges[i].end,
    decreases ranges.len(),
{
    if ranges.len() > 0 {
        let t = ranges.drop_last();
        let last = ranges[ranges.len() - 1];
        lemma_connected_covers(t, from, last.start, p);
        if from <= p < to {
            if p < last.start {
                let i = choose|i: int| 0 <= i < t.len() && (#[trigger] t[i]).start <= p < t[i].end;
                assert(ranges[i] == t[i]);
            } else {
                assert(ranges[ranges.len() - 1].start <= p);
            }
        }
        if exists|i: int|
            0 <= i < ranges.len() && (#[trigger] ranges[i]).start <= p < ranges[i].end {
            let i = choose|i: int|
                0 <= i < ranges.len() && (#[trigger] ranges[i]).start <= p < ranges[i].end;
            if i < t.len() {
                assert(t[i] == ranges[i]);
            }
        }
    }
}

proof fn lemma_origin(prior: Seq<WalRange>, t: u32, m: int)
    requires
        0 <= m < prior.len(),
        prior[m].tli == t,
    ensures
        exists|k: int|
            0 <= k < prior.len() && (#[trigger] prior[k]).tli == t && prior[k].start == origin_of(
                prior,
                t,
            ),
    decreases prior.len(),
{
    if prior[0].tli != t {
        let rest = prior.skip(1);
        assert(rest[m - 1] == prior[m]);
        lemma_origin(rest, t, m - 1);
        let k = choose|k: int|
            0 <= k < rest.len() && (#[trigger] rest[k]).tli == t && rest[k].start == origin_of(
                rest,
                t,
            );
        assert(prior[k + 1] == rest[k]);
    } else {
        assert(prior[0].start == origin_of(prior, t));
    }
}

/// Summaries that leave a gap are refused, and the gap is named: the position that is given is not
/// reached by any of the summaries before it, and all before it is covered.
pub proof fn lemma_gap_is_found(cursor: u64, summaries: Seq<(u64, u64)>, end: u64)
    requires
        forall|i: int, j: int|
            0 <= i < j < summaries.len() ==> (#[trigger] summaries[i]).0 <= (
            #[trigger] summaries[j]).0,
        cursor < end,
    ensures
        covered(cursor, summaries, end) matches Err(at) ==> {
            &&& cursor <= at < end
            &&& forall|i: int|
                0 <= i < summaries.len() ==> !((#[trigger] summaries[i]).0 <= at < summaries[i].1)
        },
    decreases summaries.len(),
{
    if summaries.len() > 0 && summaries[0].0 <= cursor {
        let next = if summaries[0].1 > cursor {
            summaries[0].1
        } else {
            cursor
        };
        if next < end {
            let rest = summaries.skip(1);
            assert forall|i: int, j: int| 0 <= i < j < rest.len() implies (#[trigger] rest[i]).0
                <= (#[trigger] rest[j]).0 by {
                assert(summaries[i + 1].0 <= summaries[j + 1].0);
            }
            lemma_gap_is_found(next, rest, end);
            match covered(cursor, summaries, end) {
                Err(at) => {
                    assert forall|i: int| 0 <= i < summaries.len() implies !((
                    #[trigger] summaries[i]).0 <= at < summaries[i].1) by {
                        if i > 0 {
                            assert(rest[i - 1] == summaries[i]);
                        }
                    }
                },
                Ok(_) => {},
            }
        }
    } else if summaries.len() > 0 {
        assert forall|i: int| 0 <= i < summaries.len() implies !((#[trigger] summaries[i]).0
            <= cursor < summaries[i].1) by {
            if i > 0 {
                assert(summaries[0].0 <= summaries[i].0);
            }
        }
    }
}

/// The name of an increment is that of its file, in the same directory, with a mark before it.
pub proof fn lemma_increment_name(dir: Seq<char>, name: Seq<char>)
    requires
        !name.contains('/'),
    ensures
        last_slash(dir + seq!['/'] + name) == Some(dir.len() as int),
        increment_path(dir + seq!['/'] + name, dir.len() as int) == dir + "/INCREMENTAL."@ + name,
    decreases name.len(),
{
    let s = dir + seq!['/'] + name;
    if name.len() == 0 {
        assert(s.last() == '/');
    } else {
        let t = name.drop_last();
        assert(name[name.len() - 1] != '/');
        assert forall|i: int| 0 <= i < t.len() implies t[i] != '/' by {
            assert(t[i] == name[i]);
        }
        lemma_increment_name(dir, t);
        assert(s.drop_last() =~= dir + seq!['/'] + t);
        assert(s.last() == name.last());
    }
    assert(s.take(dir.len() as int) =~= dir);
    assert(s.skip(dir.len() as int + 1) =~= name);
}

/// What the previous backup needed is taken only where it agrees with the server's own history: each
/// stretch lies on its timeline, each but the oldest begins where its timeline begins, and each but
/// the newest ends where its timeline ends.
pub proof fn lemma_previous_log_is_the_servers(
    prior: Seq<WalRange>,
    history: Seq<HistoryEntry>,
    start: u64,
    k: int,
    j: int,
)
    requires
        needed_ranges(prior, history, start) is Ok,
        0 <= k < prior.len(),
        0 <= j < prior.len(),
    ensures
        ({
            let a = timeline_at(history, prior[k].tli);
            let b = timeline_at(history, prior[j].tli);
            &&& a is Some && b is Some
            &&& history[a->0].begin <= prior[k].start
            &&& history[a->0].end == 0 || prior[k].end <= history[a->0].end
            &&& a->0 < b->0 ==> prior[k].start == history[a->0].begin
            &&& b->0 < a->0 ==> prior[k].end == history[a->0].end
        }),
{
    let at = positions_of(prior, history)->0;
    lemma_positions(prior, history, k);
    lemma_positions(prior, history, j);
    lemma_bounds(at, k);
    lemma_bounds(at, j);
    assert(!misfit(prior[k], history[at[k]], at[k], largest(at), smallest(at), start));
}

/// A previous backup that needed log of the server's present timeline alone, no older than the
/// timeline and no newer than the checkpoint, is taken: what is needed is the log from where it began
/// to the checkpoint.
pub proof fn lemma_plain_predecessor_is_taken(
    r: WalRange,
    history: Seq<HistoryEntry>,
    start: u64,
)
    requires
        history.len() > 0,
        history[0].tli == r.tli,
        history[0].end == 0,
        history[0].begin <= r.start < r.end <= start,
    ensures
        needed_ranges(seq![r], history, start) == Ok::<Seq<WalRange>, Seq<char>>(
            seq![WalRange { tli: r.tli, start: r.start, end: start }],
        ),
{
    let prior = seq![r];
    lemma_timeline_is_found(history, r.tli);
    assert(timeline_at(history, r.tli) == Some(0int));
    assert(prior.drop_last() =~= Seq::empty());
    assert(positions_of(prior.drop_last(), history) == Some(Seq::<int>::empty()));
    let at = Seq::<int>::empty().push(0);
    assert(positions_of(prior, history) == Some(at));
    assert(largest(at) == 0 && smallest(at) == 0);
    assert(origin_of(prior, history[0].tli) == r.start);
    assert forall|k: int| 0 <= k < prior.len() implies !misfit(
        #[trigger] prior[k],
        history[at[k]],
        at[k],
        0,
        0,
        start,
    ) by {}
    assert(stretches(history, 0, r.start, start, 1) =~= Seq::empty());
    assert(stretches(history, 0, r.start, start, 0) =~= seq![
        WalRange { tli: r.tli, start: r.start, end: start },
    ]);
}

} // verus!
