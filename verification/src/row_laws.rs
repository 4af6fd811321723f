//! What a scan of a table gives, stated row by row.
use crate::codec::span_of;
use crate::native::{lemma_native_reads_back, native};
use crate::order::below;
use crate::row_key::{
    header_len, key_of, lemma_key_gives_row, lemma_rows_in_order, lemma_rows_within, out_of_line,
    prefix_of, value_len,
};
use crate::rows::{
    are_rows_of, is_listing, line_of, row_seen, rows_along, standing, visible, StoredView,
};
use crate::staging::{mark_of, stack_sees, within, PendingView};
use vstd::prelude::*;

verus! {

/// A key is a row's of this table.
pub open spec fn is_row_of(k: Seq<u8>, db: u32, relid: u32) -> bool {
    exists|n: u64| k == #[trigger] key_of(db, relid, n)
}

/// Every key of a map is a row's of this table.
pub open spec fn only_rows<V>(m: Map<Seq<u8>, V>, db: u32, relid: u32) -> bool {
    forall|k: Seq<u8>| #[trigger] m.dom().contains(k) ==> is_row_of(k, db, relid)
}

proof fn lemma_along(keys: Seq<Seq<u8>>, m: Map<Seq<u8>, Seq<u8>>, db: u32, relid: u32)
    requires
        forall|i: int|
            0 <= i < keys.len() ==> is_row_of(#[trigger] keys[i], db, relid),
    ensures
        rows_along(keys, m).len() == keys.len(),
        forall|i: int|
            0 <= i < keys.len() ==> {
                let row = #[trigger] rows_along(keys, m)[i];
                keys[i] == key_of(db, relid, row.0) && row.1 == m[keys[i]]
            },
    decreases keys.len(),
{
    if keys.len() > 0 {
        let head = keys.drop_last();
        assert forall|i: int| 0 <= i < head.len() implies is_row_of(
            #[trigger] head[i],
            db,
            relid,
        ) by {
            assert(head[i] == keys[i]);
        }
        lemma_along(head, m, db, relid);
        let last = keys.len() - 1;
        let n = choose|n: u64| keys[last] == #[trigger] key_of(db, relid, n);
        lemma_key_gives_row(db, relid, n);
        assert(rows_along(keys, m) == rows_along(head, m).push((n, m[keys.last()])));
        assert forall|i: int| 0 <= i < keys.len() implies {
            let row = #[trigger] rows_along(keys, m)[i];
            keys[i] == key_of(db, relid, row.0) && row.1 == m[keys[i]]
        } by {
            if i < last {
                assert(rows_along(keys, m)[i] == rows_along(head, m)[i]);
                assert(head[i] == keys[i]);
            }
        }
    }
}

/// The rows of a table come in the order of their numbers, none twice, and each with its value:
/// a row is listed with a value exactly where its key has that value.
pub proof fn lemma_rows_ascend(
    rows: Seq<(u64, Seq<u8>)>,
    m: Map<Seq<u8>, Seq<u8>>,
    db: u32,
    relid: u32,
)
    requires
        are_rows_of(rows, m),
        only_rows(m, db, relid),
    ensures
        forall|i: int, j: int| 0 <= i < j < rows.len() ==> (#[trigger] rows[i]).0 < (#[trigger] rows[j]).0,
        forall|n: u64, v: Seq<u8>| #[trigger]
            rows.contains((n, v)) <==> m.dom().contains(key_of(db, relid, n)) && m[key_of(
                db,
                relid,
                n,
            )] == v,
{
    let keys = choose|keys: Seq<Seq<u8>>| #[trigger] is_listing(keys, m) && rows == rows_along(
        keys,
        m,
    );
    assert forall|i: int| 0 <= i < keys.len() implies is_row_of(
        #[trigger] keys[i],
        db,
        relid,
    ) by {
        assert(keys.contains(keys[i]));
        assert(m.dom().contains(keys[i]));
    }
    lemma_along(keys, m, db, relid);
    assert forall|i: int, j: int| 0 <= i < j < rows.len() implies (#[trigger] rows[i]).0 < (
    #[trigger] rows[j]).0 by {
        assert(below(keys[i], keys[j]));
        lemma_rows_in_order(db, relid, rows[i].0, rows[j].0);
    }
    assert forall|n: u64, v: Seq<u8>| #[trigger]
        rows.contains((n, v)) <==> m.dom().contains(key_of(db, relid, n)) && m[key_of(
            db,
            relid,
            n,
        )] == v by {
        let k = key_of(db, relid, n);
        if rows.contains((n, v)) {
            let i = choose|i: int| 0 <= i < rows.len() && rows[i] == (n, v);
            assert(keys[i] == k);
            assert(keys.contains(k));
        }
        if m.dom().contains(k) && m[k] == v {
            assert(keys.contains(k));
            let i = choose|i: int| 0 <= i < keys.len() && keys[i] == k;
            lemma_key_gives_row(db, relid, n);
            lemma_key_gives_row(db, relid, rows[i].0);
            assert(rows[i] == (n, v));
        }
    }
}

/// What the store has under a key, of all that it has in a range.
pub open spec fn found_at(s: Seq<StoredView>, key: Seq<u8>) -> Option<(Seq<u8>, u64)>
    decreases s.len(),
{
    if s.len() == 0 {
        None
    } else if s.last().0 == key {
        Some((s.last().1, s.last().2))
    } else {
        found_at(s.drop_last(), key)
    }
}

/// No key comes twice.
pub open spec fn apart(s: Seq<StoredView>) -> bool {
    forall|i: int, j: int| 0 <= i < j < s.len() ==> (#[trigger] s[i]).0 != (#[trigger] s[j]).0
}

proof fn lemma_found_among(s: Seq<StoredView>, key: Seq<u8>)
    ensures
        found_at(s, key) is Some ==> exists|i: int| 0 <= i < s.len() && (#[trigger] s[i]).0 == key,
    decreases s.len(),
{
    if s.len() > 0 && s.last().0 != key {
        let head = s.drop_last();
        lemma_found_among(head, key);
        if found_at(head, key) is Some {
            let i = choose|i: int| 0 <= i < head.len() && (#[trigger] head[i]).0 == key;
            assert(s[i].0 == key);
        }
    }
}

proof fn lemma_standing(s: Seq<StoredView>, line: u64, key: Seq<u8>)
    requires
        apart(s),
    ensures
        standing(s, line).dom().contains(key) <==> (found_at(s, key) matches Some((_, seq)) && seq
            >= line),
        standing(s, line).dom().contains(key) ==> (found_at(s, key) matches Some((v, _)) && v
            == standing(s, line)[key]),
    decreases s.len(),
{
    if s.len() > 0 {
        let head = s.drop_last();
        assert(apart(head)) by {
            assert forall|i: int, j: int| 0 <= i < j < head.len() implies (#[trigger] head[i]).0 != (
            #[trigger] head[j]).0 by {
                assert(s[i].0 != s[j].0);
            }
        }
        lemma_standing(head, line, key);
        lemma_found_among(head, key);
        if s.last().0 == key && found_at(head, key) is Some {
            let i = choose|i: int| 0 <= i < head.len() && (#[trigger] head[i]).0 == key;
            assert(s[i].0 != s[s.len() - 1].0);
        }
    }
}

/// A scan of a whole table and a fetch of one row agree: the scan shows a row with exactly the
/// value that a fetch of it gives, and the rows that it does not show are those that a fetch
/// does not find.
pub proof fn lemma_scan_agrees_with_fetch(
    p: PendingView,
    db: u32,
    relid: u32,
    durable: Seq<StoredView>,
    emptied_at: Option<u64>,
    past: bool,
    curcid: u32,
    rowid: u64,
)
    requires
        apart(durable),
    ensures
        ({
            let key = key_of(db, relid, rowid);
            let m = visible(
                p,
                db,
                relid,
                prefix_of(db, relid),
                prefix_of(db, relid).push(255u8),
                durable,
                emptied_at,
                past,
                curcid,
            );
            row_seen(p, db, relid, rowid, past, curcid, emptied_at, found_at(durable, key)) == (
            if m.dom().contains(key) {
                Some(m[key])
            } else {
                None
            })
        }),
{
    let key = key_of(db, relid, rowid);
    let since = mark_of(p.emptied, db, relid);
    lemma_rows_within(db, relid, rowid);
    lemma_standing(durable, line_of(since, emptied_at), key);
    assert(within(key, prefix_of(db, relid), prefix_of(db, relid).push(255u8)));
    match stack_sees(p.stack, key, curcid) {
        Some(_) => {},
        None => {},
    }
}

/// Every key that a transaction wrote between two others is a row's of this table.
pub open spec fn stages_only_rows(
    p: PendingView,
    lo: Seq<u8>,
    hi: Seq<u8>,
    curcid: u32,
    db: u32,
    relid: u32,
) -> bool {
    forall|k: Seq<u8>|
        within(k, lo, hi) && #[trigger] stack_sees(p.stack, k, curcid) is Some ==> is_row_of(
            k,
            db,
            relid,
        )
}

/// The rows that a scan of a whole table lists: their numbers strictly ascend, and a row is listed
/// with a value exactly where a fetch of it gives that value. This holds where every key under
/// the table's prefix is a row's, in the store and in what the transaction wrote.
pub proof fn lemma_listed_rows_are_fetched(
    rows: Seq<(u64, Seq<u8>)>,
    p: PendingView,
    db: u32,
    relid: u32,
    durable: Seq<StoredView>,
    emptied_at: Option<u64>,
    past: bool,
    curcid: u32,
)
    requires
        apart(durable),
        forall|i: int| 0 <= i < durable.len() ==> is_row_of((#[trigger] durable[i]).0, db, relid),
        stages_only_rows(
            p,
            prefix_of(db, relid),
            prefix_of(db, relid).push(255u8),
            curcid,
            db,
            relid,
        ),
        are_rows_of(
            rows,
            visible(
                p,
                db,
                relid,
                prefix_of(db, relid),
                prefix_of(db, relid).push(255u8),
                durable,
                emptied_at,
                past,
                curcid,
            ),
        ),
    ensures
        forall|i: int, j: int|
            0 <= i < j < rows.len() ==> (#[trigger] rows[i]).0 < (#[trigger] rows[j]).0,
        forall|n: u64, v: Seq<u8>| #[trigger]
            rows.contains((n, v)) <==> row_seen(
                p,
                db,
                relid,
                n,
                past,
                curcid,
                emptied_at,
                found_at(durable, key_of(db, relid, n)),
            ) == Some(v),
{
    let lo = prefix_of(db, relid);
    let hi = lo.push(255u8);
    let m = visible(p, db, relid, lo, hi, durable, emptied_at, past, curcid);
    let line = line_of(mark_of(p.emptied, db, relid), emptied_at);
    assert forall|k: Seq<u8>| #[trigger] m.dom().contains(k) implies is_row_of(k, db, relid) by {
        if past || !(within(k, lo, hi) && stack_sees(p.stack, k, curcid) is Some) {
            lemma_standing(durable, line, k);
            lemma_found_among(durable, k);
        }
    }
    lemma_rows_ascend(rows, m, db, relid);
    assert forall|n: u64, v: Seq<u8>| #[trigger] rows.contains((n, v)) <==> row_seen(
        p,
        db,
        relid,
        n,
        past,
        curcid,
        emptied_at,
        found_at(durable, key_of(db, relid, n)),
    ) == Some(v) by {
        lemma_scan_agrees_with_fetch(p, db, relid, durable, emptied_at, past, curcid, n);
    }
}

/// A row that the transaction did not write is as the store has it, unless its table was emptied
/// since: by a commit behind that of the row, or by the transaction itself.
pub proof fn lemma_row_of_the_store(
    p: PendingView,
    db: u32,
    relid: u32,
    rowid: u64,
    past: bool,
    curcid: u32,
    v: Seq<u8>,
    seq: u64,
    emptied_at: u64,
)
    requires
        past || stack_sees(p.stack, key_of(db, relid, rowid), curcid) is None,
        seq < u64::MAX,
    ensures
        mark_of(p.emptied, db, relid) == 0 ==> {
            &&& row_seen(p, db, relid, rowid, past, curcid, None, Some((v, seq))) == Some(v)
            &&& row_seen(p, db, relid, rowid, past, curcid, Some(emptied_at), Some((v, seq))) == (
            if emptied_at <= seq {
                Some(v)
            } else {
                None
            })
        },
        mark_of(p.emptied, db, relid) > 0 ==> row_seen(
            p,
            db,
            relid,
            rowid,
            past,
            curcid,
            None,
            Some((v, seq)),
        ) is None,
        row_seen(p, db, relid, rowid, past, curcid, None, None) is None,
{
}

/// A row that the transaction wrote is as it wrote it last, whatever the store has: gone where it
/// deleted it, or where it emptied the table after it wrote it.
pub proof fn lemma_row_of_the_transaction(
    p: PendingView,
    db: u32,
    relid: u32,
    rowid: u64,
    curcid: u32,
    ord: u64,
    op: Option<Seq<u8>>,
    found: Option<(Seq<u8>, u64)>,
    emptied_at: Option<u64>,
)
    requires
        stack_sees(p.stack, key_of(db, relid, rowid), curcid) == Some((ord, op)),
    ensures
        row_seen(p, db, relid, rowid, false, curcid, emptied_at, found) == (if mark_of(
            p.emptied,
            db,
            relid,
        ) < ord {
            op
        } else {
            None
        }),
{
}

/// How long a value is reads back from the header that it was given: one byte for a short value,
/// four for a long one; and of a value that is out of line the header alone has a length, by its
/// kind.
pub proof fn lemma_length_reads_back(n: nat, rest: Seq<u8>)
    ensures
        1 <= n < 128 ==> {
            let head = seq![(2 * n + 1) as u8] + rest;
            header_len(head[0]) == 1 && value_len(head) == Some(n) && !out_of_line(head[0])
        },
        n < 0x4000_0000 && native(4 * n, 4)[0] % 2 == 0 ==> {
            let head = native(4 * n, 4) + rest;
            header_len(head[0]) == 4 && value_len(head) == Some(n)
        },
        value_len(seq![1u8, 18u8] + rest) == Some(18nat),
        value_len(seq![1u8, 1u8] + rest) == Some(10nat),
        out_of_line(1) && header_len(1) == 2,
{
    if 1 <= n < 128 {
        let head = seq![(2 * n + 1) as u8] + rest;
        assert(head[0] == 2 * n + 1);
    }
    if n < 0x4000_0000 {
        lemma_width_of_four();
        lemma_native_reads_back(4 * n, 4);
        let head = native(4 * n, 4) + rest;
        assert(head.subrange(0, 4) =~= native(4 * n, 4));
        assert(head[0] == native(4 * n, 4)[0]);
    }
    assert((seq![1u8, 18u8] + rest)[0] == 1 && (seq![1u8, 18u8] + rest)[1] == 18);
    assert((seq![1u8, 1u8] + rest)[0] == 1 && (seq![1u8, 1u8] + rest)[1] == 1);
}

proof fn lemma_width_of_four()
    ensures
        span_of(4) == 0x1_0000_0000,
{
    reveal_with_fuel(span_of, 5);
}

} // verus!
