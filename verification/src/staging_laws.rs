//! What holds of the writes of a transaction whatever it does: what its commands see, what
//! savepoints keep and what they bring back.
use crate::order::begins_with;
use crate::precommit::wrote_nothing;
use crate::row_key::{key_of, lemma_tables_are_apart, marker_of, prefix_of};
use crate::staging::{
    covered_by, covers, empty_frame, flat_at, flattened, frame_sees, framed, has_write, is_covered,
    last_seen, mark_of, merged, overlaid, range_seen, released, rolled_back, sees, stack_sees,
    stack_stamp, stack_value, staged_in, still_emptied, with_write, within, Emptied, FrameView,
    PendingView, StagedView, VersionView, SEEN_BY_ALL,
};
use vstd::prelude::*;

verus! {

proof fn lemma_last_seen_of(a: Seq<VersionView>, b: Seq<VersionView>, curcid: u32)
    ensures
        last_seen(a + b, curcid) == (match last_seen(b, curcid) {
            Some(v) => Some(v),
            None => last_seen(a, curcid),
        }),
    decreases b.len(),
{
    if b.len() == 0 {
        assert(a + b =~= a);
    } else {
        assert((a + b).last() == b.last());
        assert((a + b).drop_last() =~= a + b.drop_last());
        lemma_last_seen_of(a, b.drop_last(), curcid);
    }
}

/// A write in place of an older one shows a command its own versions first, and where it shows
/// none, what the older one showed.
pub proof fn lemma_seen_over(w: StagedView, older: StagedView, curcid: u32)
    ensures
        w.over(older).seen_at(curcid) == (match w.seen_at(curcid) {
            Some(v) => Some(v),
            None => older.seen_at(curcid),
        }),
{
    let first = if older.newest.cid != w.newest.cid {
        older.earlier.push(older.newest)
    } else {
        older.earlier
    };
    lemma_last_seen_of(first, w.earlier, curcid);
    if older.newest.cid != w.newest.cid {
        assert(first.last() == older.newest);
        assert(first.drop_last() =~= older.earlier);
    }
}

/// What a stack shows of a key goes by its top frame and by the stack below it.
proof fn lemma_framed_sees(stack: Seq<FrameView>, subid: u32, key: Seq<u8>, curcid: u32)
    ensures
        stack_sees(framed(stack, subid), key, curcid) == stack_sees(stack, key, curcid),
{
    if !(stack.len() > 0 && stack.last().subid == subid) {
        let s = framed(stack, subid);
        assert(s.last() == empty_frame(subid));
        assert(s.drop_last() =~= stack);
    }
}

/// A command does not see its own writes, nor those of a later command: what it sees of a key
/// is the same before and after such a write.
pub proof fn lemma_own_writes_are_unseen(
    p: PendingView,
    subid: u32,
    key: Seq<u8>,
    op: Option<Seq<u8>>,
    cid: u32,
    curcid: u32,
    k: Seq<u8>,
)
    requires
        cid != SEEN_BY_ALL,
        curcid <= cid,
    ensures
        stack_sees(staged_in(p, subid, key, op, cid).stack, k, curcid) == stack_sees(
            p.stack,
            k,
            curcid,
        ),
{
    let s = framed(p.stack, subid);
    lemma_framed_sees(p.stack, subid, k, curcid);
    let w = StagedView {
        newest: VersionView { ord: (p.ord + 1) as u64, cid, op },
        earlier: Seq::empty(),
    };
    let t = staged_in(p, subid, key, op, cid).stack;
    assert(t.last() == with_write(s.last(), key, w));
    assert(t.drop_last() =~= s.drop_last());
    assert(w.seen_at(curcid) is None);
    if s.last().writes.dom().contains(key) {
        lemma_seen_over(w, s.last().writes[key], curcid);
    }
    assert(frame_sees(t.last(), k, curcid) == frame_sees(s.last(), k, curcid));
}

/// A later command sees a write, and so does every command where the write is stamped so.
pub proof fn lemma_later_commands_see(
    p: PendingView,
    subid: u32,
    key: Seq<u8>,
    op: Option<Seq<u8>>,
    cid: u32,
    curcid: u32,
)
    requires
        sees(cid, curcid),
    ensures
        stack_sees(staged_in(p, subid, key, op, cid).stack, key, curcid) == Some(
            ((p.ord + 1) as u64, op),
        ),
{
    let s = framed(p.stack, subid);
    let t = staged_in(p, subid, key, op, cid).stack;
    assert(t.last().writes.dom().contains(key));
}

/// A write to one key changes nothing that a command sees of another.
pub proof fn lemma_other_keys_stay(
    p: PendingView,
    subid: u32,
    key: Seq<u8>,
    op: Option<Seq<u8>>,
    cid: u32,
    curcid: u32,
    k: Seq<u8>,
)
    requires
        k != key,
    ensures
        stack_sees(staged_in(p, subid, key, op, cid).stack, k, curcid) == stack_sees(
            p.stack,
            k,
            curcid,
        ),
{
    let s = framed(p.stack, subid);
    lemma_framed_sees(p.stack, subid, k, curcid);
    let t = staged_in(p, subid, key, op, cid).stack;
    assert(t.drop_last() =~= s.drop_last());
    assert(frame_sees(t.last(), k, curcid) == frame_sees(s.last(), k, curcid));
}

/// The release of a savepoint changes nothing that any command sees.
pub proof fn lemma_release_keeps_versions(
    stack: Seq<FrameView>,
    my: u32,
    parent: u32,
    key: Seq<u8>,
    curcid: u32,
)
    ensures
        stack_sees(released(stack, my, parent), key, curcid) == stack_sees(stack, key, curcid),
{
    reveal_with_fuel(stack_sees, 3);
    if stack.len() > 0 && stack.last().subid == my {
        let f = stack.last();
        let rest = stack.drop_last();
        let t = released(stack, my, parent);
        if rest.len() > 0 && rest.last().subid == parent {
            assert(t.last() == merged(rest.last(), f));
            assert(t.drop_last() =~= rest.drop_last());
            if f.writes.dom().contains(key) && rest.last().writes.dom().contains(key) {
                lemma_seen_over(f.writes[key], rest.last().writes[key], curcid);
            }
        } else {
            assert(t.drop_last() =~= rest);
        }
    }
}

/// Where the frames from `n` up belong to the savepoint or are inside it, and those below do
/// not, a rollback to the savepoint leaves exactly the frames below.
pub proof fn lemma_rollback_restores(stack: Seq<FrameView>, my: u32, n: nat)
    requires
        n <= stack.len(),
        n > 0 ==> stack[n - 1].subid < my,
        forall|i: int| n <= i < stack.len() ==> (#[trigger] stack[i]).subid >= my,
    ensures
        rolled_back(stack, my) == stack.take(n as int),
    decreases stack.len(),
{
    if stack.len() > n {
        let rest = stack.drop_last();
        assert(stack.last() == stack[stack.len() - 1]);
        lemma_rollback_restores(rest, my, n);
        assert(rest.take(n as int) =~= stack.take(n as int));
    } else {
        assert(stack.take(n as int) =~= stack);
    }
}

/// What a savepoint writes lies above the frames that were there before it, which stay as they
/// are: so a rollback to it restores them.
pub proof fn lemma_savepoint_writes_lie_above(
    p: PendingView,
    my: u32,
    n: nat,
    subid: u32,
    key: Seq<u8>,
    op: Option<Seq<u8>>,
    cid: u32,
)
    requires
        n <= p.stack.len(),
        n > 0 ==> p.stack[n - 1].subid < my,
        forall|i: int| n <= i < p.stack.len() ==> (#[trigger] p.stack[i]).subid >= my,
        subid >= my,
    ensures
        ({
            let t = staged_in(p, subid, key, op, cid).stack;
            &&& n <= t.len()
            &&& t.take(n as int) == p.stack.take(n as int)
            &&& forall|i: int| n <= i < t.len() ==> (#[trigger] t[i]).subid >= my
            &&& rolled_back(t, my) == p.stack.take(n as int)
        }),
{
    let s = framed(p.stack, subid);
    let t = staged_in(p, subid, key, op, cid).stack;
    assert(s.len() > n);
    assert forall|i: int| n <= i < t.len() implies (#[trigger] t[i]).subid >= my by {
        if i < p.stack.len() {
            assert(p.stack[i].subid >= my);
        }
    }
    assert(t.take(n as int) =~= p.stack.take(n as int));
    if n > 0 {
        assert(t[n - 1] == p.stack[n - 1]);
    }
    lemma_rollback_restores(t, my, n);
}

/// Writes lie in the order in which they happened: an inner frame's write to a key happened
/// after an outer frame's, and none after the last.
pub open spec fn timely(p: PendingView) -> bool {
    &&& forall|i: int, k: Seq<u8>| #![trigger p.stack[i].writes.dom().contains(k)]
        0 <= i < p.stack.len() && p.stack[i].writes.dom().contains(k)
            ==> p.stack[i].writes[k].newest.ord <= p.ord
    &&& forall|i: int, j: int, k: Seq<u8>|
        #![trigger p.stack[i].writes.dom().contains(k), p.stack[j].writes.dom().contains(k)]
        0 <= i < j < p.stack.len() && p.stack[i].writes.dom().contains(k)
            && p.stack[j].writes.dom().contains(k) ==> p.stack[i].writes[k].newest.ord
            < p.stack[j].writes[k].newest.ord
}

/// A write keeps the writes in the order in which they happened.
pub proof fn lemma_writes_stay_timely(
    p: PendingView,
    subid: u32,
    key: Seq<u8>,
    op: Option<Seq<u8>>,
    cid: u32,
)
    requires
        timely(p),
        p.ord < u64::MAX,
    ensures
        timely(staged_in(p, subid, key, op, cid)),
{
    let s = framed(p.stack, subid);
    let q = staged_in(p, subid, key, op, cid);
    let top = s.len() - 1;
    assert forall|i: int, k: Seq<u8>|
        0 <= i < q.stack.len() && #[trigger] q.stack[i].writes.dom().contains(k) implies
        q.stack[i].writes[k].newest.ord <= q.ord by {
        if !(i == top && k == key) {
            assert(s[i].writes.dom().contains(k));
            assert(p.stack[i].writes.dom().contains(k));
        }
    }
    assert forall|i: int, j: int, k: Seq<u8>|
        #![trigger q.stack[i].writes.dom().contains(k), q.stack[j].writes.dom().contains(k)]
        0 <= i < j < q.stack.len() && q.stack[i].writes.dom().contains(k)
            && q.stack[j].writes.dom().contains(k) implies q.stack[i].writes[k].newest.ord
        < q.stack[j].writes[k].newest.ord by {
        assert(q.stack[i] == p.stack[i]);
        assert(p.stack[i].writes.dom().contains(k));
        if !(j == top && k == key) {
            assert(s[j].writes.dom().contains(k));
            assert(p.stack[j].writes.dom().contains(k));
        }
    }
}

proof fn lemma_not_covered_later(emptied: Seq<Emptied>, key: Seq<u8>, a: u64, b: u64)
    requires
        a < b,
        is_covered(emptied, key, b),
    ensures
        is_covered(emptied, key, a),
{
    let i = choose|i: int| 0 <= i < emptied.len() && covers(#[trigger] emptied[i], key, b);
    assert(covers(emptied[i], key, a));
}

/// The release of a savepoint changes nothing of what commits.
pub proof fn lemma_release_keeps_the_commit(p: PendingView, my: u32, parent: u32, key: Seq<u8>)
    requires
        timely(p),
    ensures
        flat_at(released(p.stack, my, parent), p.emptied, key) == flat_at(
            p.stack,
            p.emptied,
            key,
        ),
{
    reveal_with_fuel(flat_at, 3);
    let stack = p.stack;
    if stack.len() > 0 && stack.last().subid == my {
        let f = stack.last();
        let rest = stack.drop_last();
        let t = released(stack, my, parent);
        if rest.len() > 0 && rest.last().subid == parent {
            let o = rest.last();
            assert(t.last() == merged(o, f));
            assert(t.drop_last() =~= rest.drop_last());
            if f.writes.dom().contains(key) && o.writes.dom().contains(key) {
                assert(stack[stack.len() - 1].writes.dom().contains(key));
                assert(stack[stack.len() - 2].writes.dom().contains(key));
                if is_covered(p.emptied, key, f.writes[key].newest.ord) {
                    lemma_not_covered_later(
                        p.emptied,
                        key,
                        o.writes[key].newest.ord,
                        f.writes[key].newest.ord,
                    );
                }
            }
        } else {
            assert(t.drop_last() =~= rest);
        }
    }
}

/// What was written before a table was emptied does not commit, whatever frame it is in.
pub proof fn lemma_emptied_rows_do_not_commit(
    stack: Seq<FrameView>,
    emptied: Seq<Emptied>,
    key: Seq<u8>,
    e: int,
)
    requires
        0 <= e < emptied.len(),
        forall|i: int| 0 <= i < stack.len() && stack[i].writes.dom().contains(key) ==> covers(
            emptied[e],
            key,
            (#[trigger] stack[i]).writes[key].newest.ord,
        ),
    ensures
        flat_at(stack, emptied, key) is None,
    decreases stack.len(),
{
    if stack.len() > 0 {
        let rest = stack.drop_last();
        assert(stack.last() == stack[stack.len() - 1]);
        assert forall|i: int| 0 <= i < rest.len() && rest[i].writes.dom().contains(key) implies
            covers(emptied[e], key, (#[trigger] rest[i]).writes[key].newest.ord) by {
            assert(rest[i] == stack[i]);
        }
        lemma_emptied_rows_do_not_commit(rest, emptied, key, e);
    }
}

/// Which writes a command sees: those of the commands before it, and those that are stamped for
/// all; never its own.
pub proof fn lemma_which_writes_are_seen(cid: u32, curcid: u32)
    ensures
        cid < curcid ==> sees(cid, curcid),
        curcid <= cid && cid != 0xffff_ffff ==> !sees(cid, curcid),
        sees(0xffff_ffff, curcid),
{
}

/// The last write to a key is what commits, a value or a deletion, and what commits of every other
/// key stays the same.
pub proof fn lemma_last_write_commits(
    p: PendingView,
    subid: u32,
    key: Seq<u8>,
    op: Option<Seq<u8>>,
    cid: u32,
    other: Seq<u8>,
)
    requires
        p.ord < u64::MAX,
        forall|i: int| 0 <= i < p.emptied.len() ==> (#[trigger] p.emptied[i]).since <= p.ord,
    ensures
        ({
            let q = staged_in(p, subid, key, op, cid);
            let now = flattened(q.stack, q.emptied);
            let was = flattened(p.stack, p.emptied);
            &&& now.dom().contains(key) && now[key] == op
            &&& other != key ==> now.dom().contains(other) == was.dom().contains(other) && (
            was.dom().contains(other) ==> now[other] == was[other])
        }),
{
    let s = framed(p.stack, subid);
    let q = staged_in(p, subid, key, op, cid);
    assert(q.stack.drop_last() =~= s.drop_last());
    assert(q.stack.last().writes[key].newest.ord == p.ord + 1);
    if is_covered(p.emptied, key, (p.ord + 1) as u64) {
        let i = choose|i: int|
            0 <= i < p.emptied.len() && covers(#[trigger] p.emptied[i], key, (p.ord + 1) as u64);
        assert(p.emptied[i].since <= p.ord);
    }
    if other != key {
        assert(flat_at(s, p.emptied, other) == flat_at(p.stack, p.emptied, other)) by {
            if !(p.stack.len() > 0 && p.stack.last().subid == subid) {
                assert(s.last() == empty_frame(subid));
                assert(s.drop_last() =~= p.stack);
            }
        }
        assert(flat_at(q.stack, p.emptied, other) == flat_at(s, p.emptied, other));
    }
}

/// A transaction that wrote nothing commits nothing.
pub proof fn lemma_nothing_commits_of_nothing(emptied: Seq<Emptied>, key: Seq<u8>)
    ensures
        !flattened(Seq::empty(), emptied).dom().contains(key),
{
}

/// Frame `i` has a write to the key that no emptied table covers, and no frame inside it has one.
pub open spec fn decides(stack: Seq<FrameView>, emptied: Seq<Emptied>, key: Seq<u8>, i: int) -> bool {
    &&& 0 <= i < stack.len()
    &&& stack[i].writes.dom().contains(key)
    &&& !is_covered(emptied, key, stack[i].writes[key].newest.ord)
    &&& forall|j: int|
        i < j < stack.len() && (#[trigger] stack[j]).writes.dom().contains(key) ==> is_covered(
            emptied,
            key,
            stack[j].writes[key].newest.ord,
        )
}

/// Each write that commits was made: the innermost frame that has a write to the key which no emptied
/// table covers holds it as its newest.
pub proof fn lemma_commits_were_made(stack: Seq<FrameView>, emptied: Seq<Emptied>, key: Seq<u8>)
    requires
        flattened(stack, emptied).dom().contains(key),
    ensures
        exists|i: int| #[trigger]
            decides(stack, emptied, key, i) && stack[i].writes[key].newest.op == flattened(
                stack,
                emptied,
            )[key],
    decreases stack.len(),
{
    let f = stack[stack.len() - 1];
    assert(f == stack.last());
    if f.writes.dom().contains(key) && !is_covered(emptied, key, f.writes[key].newest.ord) {
        assert(decides(stack, emptied, key, stack.len() - 1));
    } else {
        let t = stack.drop_last();
        assert(flattened(t, emptied).dom().contains(key));
        assert(flattened(t, emptied)[key] == flattened(stack, emptied)[key]);
        lemma_commits_were_made(t, emptied, key);
        let i = choose|i: int| #[trigger]
            decides(t, emptied, key, i) && t[i].writes[key].newest.op == flattened(t, emptied)[key];
        assert(stack[i] == t[i]);
        assert forall|j: int|
            i < j < stack.len() && (#[trigger] stack[j]).writes.dom().contains(
                key,
            ) implies is_covered(emptied, key, stack[j].writes[key].newest.ord) by {
            if j < t.len() {
                assert(t[j] == stack[j]);
            }
        }
        assert(decides(stack, emptied, key, i));
    }
}

/// The newest value and the stamp of a key are those of the last write to it; a deletion leaves the
/// value that was there before, and other keys keep theirs.
pub proof fn lemma_newest_write(
    p: PendingView,
    subid: u32,
    key: Seq<u8>,
    op: Option<Seq<u8>>,
    cid: u32,
    other: Seq<u8>,
)
    ensures
        ({
            let q = staged_in(p, subid, key, op, cid);
            &&& stack_stamp(q.stack, key) == Some(cid)
            &&& op is Some ==> stack_value(q.stack, key) == op
            &&& other != key ==> stack_stamp(q.stack, other) == stack_stamp(p.stack, other)
                && stack_value(q.stack, other) == stack_value(p.stack, other)
        }),
{
    let s = framed(p.stack, subid);
    let q = staged_in(p, subid, key, op, cid);
    assert(q.stack.drop_last() =~= s.drop_last());
    if !(p.stack.len() > 0 && p.stack.last().subid == subid) {
        assert(s.last() == empty_frame(subid));
        assert(s.drop_last() =~= p.stack);
    }
    assert(stack_stamp(s, other) == stack_stamp(p.stack, other));
    assert(stack_value(s, other) == stack_value(p.stack, other));
}

/// What a read of a range shows of a transaction's own write: the value that it put, or that the row
/// is gone; and a write that the command does not see, or to another key, changes nothing of what
/// it shows.
pub proof fn lemma_read_shows_own_writes(
    p: PendingView,
    subid: u32,
    key: Seq<u8>,
    op: Option<Seq<u8>>,
    cid: u32,
    rows: Map<Seq<u8>, Seq<u8>>,
    lo: Seq<u8>,
    hi: Seq<u8>,
    since: u64,
    curcid: u32,
    other: Seq<u8>,
)
    requires
        p.ord < u64::MAX,
        since <= p.ord,
        within(key, lo, hi),
    ensures
        ({
            let q = staged_in(p, subid, key, op, cid);
            let now = overlaid(rows, range_seen(q.stack, lo, hi, curcid), since);
            let was = overlaid(rows, range_seen(p.stack, lo, hi, curcid), since);
            &&& cid < curcid || cid == 0xffff_ffff ==> match op {
                Some(v) => now.dom().contains(key) && now[key] == v,
                None => !now.dom().contains(key),
            }
            &&& other != key || (curcid <= cid && cid != 0xffff_ffff) ==> now.dom().contains(other)
                == was.dom().contains(other) && (was.dom().contains(other) ==> now[other]
                == was[other])
        }),
{
    lemma_which_writes_are_seen(cid, curcid);
    if cid < curcid || cid == 0xffff_ffff {
        lemma_later_commands_see(p, subid, key, op, cid, curcid);
    }
    if other != key {
        lemma_other_keys_stay(p, subid, key, op, cid, curcid, other);
    }
    if curcid <= cid && cid != 0xffff_ffff {
        lemma_own_writes_are_unseen(p, subid, key, op, cid, curcid, other);
    }
}

/// Where in the transaction the write happened that a command sees of a key.
pub open spec fn seen_at(stack: Seq<FrameView>, key: Seq<u8>, curcid: u32) -> u64 {
    let (ord, op) = stack_sees(stack, key, curcid)->0;
    ord
}

/// A row that the transaction did not touch is read as it is in the store; and a row that it wrote
/// before it emptied the table is not read.
pub proof fn lemma_untouched_rows_are_read(
    stack: Seq<FrameView>,
    rows: Map<Seq<u8>, Seq<u8>>,
    lo: Seq<u8>,
    hi: Seq<u8>,
    since: u64,
    curcid: u32,
    key: Seq<u8>,
)
    ensures
        ({
            let now = overlaid(rows, range_seen(stack, lo, hi, curcid), since);
            &&& stack_sees(stack, key, curcid) is None || !within(key, lo, hi) ==> now.dom().contains(
                key,
            ) == rows.dom().contains(key) && (rows.dom().contains(key) ==> now[key] == rows[key])
            &&& within(key, lo, hi) && stack_sees(stack, key, curcid) is Some && seen_at(
                stack,
                key,
                curcid,
            ) <= since ==> !now.dom().contains(key)
        }),
{
}

/// Emptying a table covers the rows of that table that were written by then, and no row of another
/// table.
pub proof fn lemma_emptying_covers_its_rows(e: Emptied, row: u64, ord: u64, db: u32, oid: u32)
    ensures
        ord <= e.since ==> covers(e, key_of(e.db, e.oid, row), ord),
        ord > e.since ==> !covers(e, key_of(db, oid, row), ord),
        (db, oid) != (e.db, e.oid) ==> !begins_with(
            key_of(db, oid, row),
            covered_by(e.db, e.oid)[0],
        ),
{
    let k = key_of(e.db, e.oid, row);
    let c = covered_by(e.db, e.oid);
    assert(c[0] =~= prefix_of(e.db, e.oid));
    assert(k.take(prefix_of(e.db, e.oid).len() as int) =~= prefix_of(e.db, e.oid));
    assert(begins_with(k, c[0]));
    if (db, oid) != (e.db, e.oid) {
        lemma_tables_are_apart(db, oid, row, e.db, e.oid);
    }
}

/// A table counts as emptied as from when it last was, and one that was not as from the beginning.
pub proof fn lemma_last_emptying_counts(emptied: Seq<Emptied>, e: Emptied, db: u32, oid: u32)
    ensures
        mark_of(emptied.push(e), e.db, e.oid) == e.since,
        (db, oid) != (e.db, e.oid) ==> mark_of(emptied.push(e), db, oid) == mark_of(
            emptied,
            db,
            oid,
        ),
        mark_of(Seq::empty(), db, oid) == 0,
{
    assert(emptied.push(e).drop_last() =~= emptied);
}

/// After a rollback those tables count as emptied whose marker is still among the writes, and no
/// others.
pub proof fn lemma_rollback_brings_tables_back(
    emptied: Seq<Emptied>,
    stack: Seq<FrameView>,
    e: Emptied,
)
    ensures
        still_emptied(emptied, stack).contains(e) <==> emptied.contains(e) && has_write(
            stack,
            marker_of(e.db, e.oid),
        ),
    decreases emptied.len(),
{
    if emptied.len() > 0 {
        let t = emptied.drop_last();
        lemma_rollback_brings_tables_back(t, stack, e);
        let head = still_emptied(t, stack);
        let now = still_emptied(emptied, stack);
        assert(emptied[emptied.len() - 1] == emptied.last());
        if t.contains(e) {
            let i = choose|i: int| 0 <= i < t.len() && t[i] == e;
            assert(emptied[i] == e);
        }
        if emptied.contains(e) {
            let i = choose|i: int| 0 <= i < emptied.len() && emptied[i] == e;
            if i < t.len() {
                assert(t[i] == e);
            }
        }
        if has_write(stack, marker_of(emptied.last().db, emptied.last().oid)) {
            assert(now[now.len() - 1] == emptied.last());
            if head.contains(e) {
                let i = choose|i: int| 0 <= i < head.len() && head[i] == e;
                assert(now[i] == e);
            }
            if now.contains(e) {
                let i = choose|i: int| 0 <= i < now.len() && now[i] == e;
                if i < head.len() {
                    assert(head[i] == e);
                }
            }
        }
    } else {
        assert(!emptied.contains(e));
    }
}

/// A transaction that can be prepared has nothing to commit, and one that has staged a write cannot.
pub proof fn lemma_prepared_has_nothing(p: PendingView, subid: u32, op: Option<Seq<u8>>, cid: u32)
    ensures
        wrote_nothing(p) ==> forall|key: Seq<u8>|
            !(#[trigger] flattened(p.stack, p.emptied).dom().contains(key)),
        forall|key: Seq<u8>| !wrote_nothing(#[trigger] staged_in(p, subid, key, op, cid)),
{
    if wrote_nothing(p) {
        assert forall|key: Seq<u8>| !(#[trigger] flattened(p.stack, p.emptied).dom().contains(
            key,
        )) by {
            if flattened(p.stack, p.emptied).dom().contains(key) {
                lemma_commits_were_made(p.stack, p.emptied, key);
                let i = choose|i: int| #[trigger]
                    decides(p.stack, p.emptied, key, i) && p.stack[i].writes[key].newest.op
                        == flattened(p.stack, p.emptied)[key];
                assert(p.stack[i].writes.dom() =~= Set::empty());
            }
        }
    }
    assert forall|key: Seq<u8>| !wrote_nothing(#[trigger] staged_in(p, subid, key, op, cid)) by {
        let q = staged_in(p, subid, key, op, cid);
        let n = q.stack.len() - 1;
        assert(q.stack[n].writes.dom().contains(key));
    }
}

} // verus!
