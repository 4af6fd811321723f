//! What a session reads at, what may be thrown away, and what is counted of a table.
use crate::history_laws::lemma_upper_hex_of;
use crate::precommit::{conflict_report, index_of, Point, Session};
use crate::session::{command_of, forced_seq, horizon_of, Snapshot, NO_COMMAND};
use crate::tables::{after_all, bytes_in, moved, TablesView};
use crate::text::decimal;
use crate::wire::upper_hex;
use vstd::prelude::*;

verus! {

/// Where a read is. A past commit that the session was set to goes before all; else a snapshot is
/// read where it was stamped, takes its view now where it was not, and without one the latest is
/// read.
pub proof fn lemma_where_a_read_is(s: Snapshot, setting: i32)
    ensures
        Session::point_of(None, setting) == Point::Latest,
        setting > 0 ==> Session::point_of(Some(s), setting) == Point::At(setting as u64),
        setting <= 0 && s.seq != 0 ==> Session::point_of(Some(s), setting) == Point::At(s.seq),
        setting <= 0 && s.seq == 0 ==> Session::point_of(Some(s), setting) == Point::TakeView,
        setting <= 0 ==> forced_seq(setting) is None,
        s.mvcc ==> command_of(Some(s)) == s.curcid,
        !s.mvcc ==> command_of(Some(s)) == NO_COMMAND,
        command_of(None) == NO_COMMAND,
{
}

/// How far back history is thrown away: never past what is being read, never into the commits that
/// are to be kept, as far as both allow, and not at all without a number of commits to keep.
pub proof fn lemma_horizon(retain: i32, now: u64, oldest: u64, seq: u64)
    ensures
        retain <= 0 ==> horizon_of(retain, now, oldest) == 0,
        horizon_of(retain, now, oldest) <= oldest,
        retain > 0 && now >= retain ==> horizon_of(retain, now, oldest) + retain <= now,
        retain > 0 && seq <= oldest && seq + retain <= now ==> seq <= horizon_of(
            retain,
            now,
            oldest,
        ),
        retain > now ==> horizon_of(retain, now, oldest) == 0,
{
}

/// An entry's key names the index it belongs to.
pub proof fn lemma_entry_names_its_index(oid: u32, rest: Seq<char>)
    ensures
        index_of("u/"@ + upper_hex(oid as nat) + seq!['/'] + rest) == Some(oid as nat),
        index_of("i/"@ + upper_hex(oid as nat) + seq!['/'] + rest) == Some(oid as nat),
{
    reveal_strlit("u/");
    reveal_strlit("i/");
    let h = upper_hex(oid as nat);
    let tail = h + seq!['/'] + rest;
    lemma_upper_hex_of(oid as nat);
    lemma_first_separator(h, rest);
    let a = "u/"@ + h + seq!['/'] + rest;
    let b = "i/"@ + h + seq!['/'] + rest;
    assert(a.skip(2) =~= tail && b.skip(2) =~= tail);
    assert(a.take(2) =~= "u/"@ && b.take(2) =~= "i/"@);
    assert(tail.take(h.len() as int) =~= h);
}

proof fn lemma_first_separator(h: Seq<char>, rest: Seq<char>)
    requires
        forall|i: int| 0 <= i < h.len() ==> #[trigger] h[i] != '/',
    ensures
        crate::lines::first_of(h + seq!['/'] + rest, '/') == Some(h.len() as int),
    decreases rest.len(),
{
    let s = h + seq!['/'] + rest;
    if rest.len() > 0 {
        assert(s.drop_last() =~= h + seq!['/'] + rest.drop_last());
        lemma_first_separator(h, rest.drop_last());
    } else {
        assert(s.drop_last() =~= h);
        lemma_no_separator(h);
        assert(s.last() == '/');
    }
}

proof fn lemma_no_separator(s: Seq<char>)
    requires
        forall|i: int| 0 <= i < s.len() ==> #[trigger] s[i] != '/',
    ensures
        crate::lines::first_of(s, '/') is None,
    decreases s.len(),
{
    if s.len() > 0 {
        let t = s.drop_last();
        assert forall|i: int| 0 <= i < t.len() implies #[trigger] t[i] != '/' by {
            assert(t[i] == s[i]);
        }
        lemma_no_separator(t);
        assert(s[s.len() - 1] != '/');
    }
}

/// A conflict is reported as one that a retry may clear, and says which commit it was with.
pub proof fn lemma_conflict_says_retry(key: Seq<char>, by: u64)
    ensures
        conflict_report(key, by).state == "40001"@,
        conflict_report(key, by).hint == "Retry the transaction."@,
        index_of(key) is None ==> conflict_report(key, by).detail
            == "The row was changed by commit "@ + decimal(by as nat) + "."@,
        index_of(key) is None ==> conflict_report(key, by).message
            == "could not serialize access due to concurrent update of "@ + ("objkv row "@ + key),
{
}

/// Counts move by what they are moved by, as long as they stay between zero and the most that fits,
/// and moving back takes them back.
pub proof fn lemma_counts_move(cur: u64, delta: int)
    ensures
        0 <= cur + delta <= u64::MAX ==> moved(cur, delta) == cur + delta && moved(
            moved(cur, delta),
            -delta,
        ) == cur,
        cur + delta < 0 ==> moved(cur, delta) == 0,
        cur + delta > u64::MAX ==> moved(cur, delta) == u64::MAX,
{
}

/// A row that is inserted and deleted leaves the size of its table as it was, and that of every
/// other.
pub proof fn lemma_delete_undoes_insert(t: TablesView, table: Seq<u8>, len: nat, other: Seq<u8>)
    requires
        t.size(table).bytes + len <= u64::MAX,
        t.size(table).rows < u64::MAX,
    ensures
        ({
            let grown = t.resized(table, len as int, 1);
            let back = grown.resized(table, 0 - len as int, -1);
            &&& grown.size(table).bytes == t.size(table).bytes + len
            &&& grown.size(table).rows == t.size(table).rows + 1
            &&& back.size(table) == t.size(table)
            &&& other != table ==> grown.size(other) == t.size(other) && back.size(other) == t.size(
                other,
            )
            &&& grown.next == t.next
        }),
{
}

/// The first free row lies behind every row, and is no later than that needs.
pub proof fn lemma_first_free_is_tight(rows: Seq<(u64, Seq<u8>)>, i: int)
    ensures
        0 <= i < rows.len() ==> rows[i].0 < after_all(rows),
        rows.len() == 0 ==> after_all(rows) == 0,
        rows.len() > 0 ==> exists|j: int|
            0 <= j < rows.len() && (#[trigger] rows[j]).0 + 1 == after_all(rows),
    decreases rows.len(),
{
    if rows.len() > 0 {
        let t = rows.drop_last();
        lemma_first_free_is_tight(t, i);
        assert(rows[rows.len() - 1] == rows.last());
        if 0 <= i < t.len() {
            assert(t[i] == rows[i]);
        }
        if t.len() > 0 {
            let j = choose|j: int| 0 <= j < t.len() && (#[trigger] t[j]).0 + 1 == after_all(t);
            assert(rows[j] == t[j]);
        }
    }
}

/// The size of rows is that of one part and of the other.
pub proof fn lemma_bytes_add(a: Seq<(u64, Seq<u8>)>, b: Seq<(u64, Seq<u8>)>)
    ensures
        bytes_in(a + b) == bytes_in(a) + bytes_in(b),
        a.len() == 1 ==> bytes_in(a) == a[0].1.len(),
    decreases b.len(),
{
    if b.len() > 0 {
        lemma_bytes_add(a, b.drop_last());
        assert((a + b).drop_last() =~= a + b.drop_last());
        assert((a + b).last() == b.last());
    } else {
        assert(a + b =~= a);
    }
    if a.len() == 1 {
        assert(a.drop_last() =~= Seq::empty());
        assert(bytes_in(a.drop_last()) == 0);
    }
}

} // verus!
