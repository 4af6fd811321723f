//! The rows of a table as a transaction reads and writes them: what the store holds, with the
//! transaction's own writes over it.
use crate::commit::Op;
use crate::key_map::{keys_ascend, KeyMap};
use crate::order::{below, lemma_below_irreflexive, lemma_below_transitive};
use crate::row_key::{
    hi_of, key_of, prefix_of, row_key, rowid_from_key, rowid_in, table_prefix,
};
use crate::staging::{
    bytes_view, mark_of, overlaid, range_seen, stack_sees, stack_value, staged_empty_mark_for, within,
    Pending, PendingView, SEEN_BY_ALL,
};
use vstd::prelude::*;
use vstd::slice::slice_to_vec;

verus! {

/// A row as the store has it, with the number of the commit that wrote it.
pub struct Stored {
    pub key: Vec<u8>,
    pub value: Vec<u8>,
    pub seq: u64,
}

/// A key, its value and the number of the commit that wrote it.
pub type StoredView = (Seq<u8>, Seq<u8>, u64);

impl View for Stored {
    type V = StoredView;

    open spec fn view(&self) -> StoredView {
        (self.key@, self.value@, self.seq)
    }
}

pub open spec fn stored_view(s: Seq<Stored>) -> Seq<StoredView> {
    Seq::new(s.len(), |i: int| s[i]@)
}

/// What commit a row must be from to be in its table still. A table that the transaction itself
/// emptied has no row in the store.
pub open spec fn line_of(since: u64, emptied_at: Option<u64>) -> u64 {
    if since > 0 {
        u64::MAX
    } else {
        match emptied_at {
            Some(n) => n,
            None => 0,
        }
    }
}

/// The commit that a row must be from, or a later one, to be in its table.
pub fn emptied_line(since: u64, emptied_at: Option<u64>) -> (r: u64)
    ensures
        r == line_of(since, emptied_at),
{
    if since > 0 {
        0xffff_ffff_ffff_ffff
    } else {
        match emptied_at {
            Some(n) => n,
            None => 0,
        }
    }
}

/// The rows that a table still has of those in the store.
pub open spec fn standing(s: Seq<StoredView>, line: u64) -> Map<Seq<u8>, Seq<u8>>
    decreases s.len(),
{
    if s.len() == 0 {
        Map::empty()
    } else {
        let head = standing(s.drop_last(), line);
        if s.last().2 >= line {
            head.insert(s.last().0, s.last().1)
        } else {
            head
        }
    }
}

/// `keys` lists the keys of a map in order.
pub open spec fn is_listing<V>(keys: Seq<Seq<u8>>, m: Map<Seq<u8>, V>) -> bool {
    &&& keys_ascend(keys)
    &&& forall|k: Seq<u8>| #[trigger] m.dom().contains(k) <==> keys.contains(k)
}

/// The rows along some keys: each key that is a row's, with its value.
pub open spec fn rows_along(keys: Seq<Seq<u8>>, m: Map<Seq<u8>, Seq<u8>>) -> Seq<(u64, Seq<u8>)>
    decreases keys.len(),
{
    if keys.len() == 0 {
        Seq::empty()
    } else {
        let head = rows_along(keys.drop_last(), m);
        match rowid_in(keys.last()) {
            Some(n) => head.push((n as u64, m[keys.last()])),
            None => head,
        }
    }
}

/// `rows` are the rows of a map in the order of their keys.
pub open spec fn are_rows_of(rows: Seq<(u64, Seq<u8>)>, m: Map<Seq<u8>, Seq<u8>>) -> bool {
    exists|keys: Seq<Seq<u8>>| #[trigger] is_listing(keys, m) && rows == rows_along(keys, m)
}

pub open spec fn rows_view(rows: Seq<(u64, Vec<u8>)>) -> Seq<(u64, Seq<u8>)> {
    Seq::new(rows.len(), |i: int| (rows[i].0, rows[i].1@))
}

/// What a command sees in a range of a table: the rows that stand in the store, with the
/// transaction's writes over them, unless it reads the past, which they are not part of.
pub open spec fn visible(
    p: PendingView,
    db: u32,
    relid: u32,
    lo: Seq<u8>,
    hi: Seq<u8>,
    durable: Seq<StoredView>,
    emptied_at: Option<u64>,
    past: bool,
    curcid: u32,
) -> Map<Seq<u8>, Seq<u8>> {
    let since = mark_of(p.emptied, db, relid);
    let rows = standing(durable, line_of(since, emptied_at));
    if past {
        rows
    } else {
        overlaid(rows, range_seen(p.stack, lo, hi, curcid), since)
    }
}

fn stand(durable: Vec<Stored>, line: u64) -> (r: KeyMap<Vec<u8>>)
    ensures
        r.wf(),
        bytes_view(r@) == standing(stored_view(durable@), line),
{
    let ghost all = stored_view(durable@);
    let mut out: KeyMap<Vec<u8>> = KeyMap::new();
    let mut i: usize = 0;
    proof {
        assert(all.take(0) =~= Seq::empty());
        assert(bytes_view(out@) =~= standing(all.take(0), line));
    }
    while i < durable.len()
        invariant
            out.wf(),
            all == stored_view(durable@),
            i <= durable@.len(),
            bytes_view(out@) == standing(all.take(i as int), line),
        decreases durable@.len() - i,
    {
        let ghost was = out@;
        proof {
            assert(all.take(i + 1).drop_last() =~= all.take(i as int));
            assert(all.take(i + 1).last() == durable@[i as int]@);
        }
        let s = &durable[i];
        if s.seq >= line {
            let value = slice_to_vec(s.value.as_slice());
            let ghost v = value@;
            out.set(slice_to_vec(s.key.as_slice()), value);
            proof {
                assert(bytes_view(out@) =~= bytes_view(was).insert(s.key@, v));
            }
        }
        i += 1;
    }
    proof {
        assert(all.take(all.len() as int) =~= all);
    }
    out
}

fn list_rows(merged: KeyMap<Vec<u8>>) -> (r: Vec<(u64, Vec<u8>)>)
    requires
        merged.wf(),
    ensures
        rows_view(r@) == rows_along(merged.keys(), bytes_view(merged@)),
{
    let ghost keys = merged.keys();
    let ghost m = bytes_view(merged@);
    let mut out: Vec<(u64, Vec<u8>)> = Vec::new();
    let mut i: usize = 0;
    proof {
        assert(keys.take(0) =~= Seq::empty());
        assert(rows_view(out@) =~= Seq::empty());
    }
    while i < merged.len()
        invariant
            merged.wf(),
            keys == merged.keys(),
            m == bytes_view(merged@),
            i <= keys.len(),
            rows_view(out@) == rows_along(keys.take(i as int), m),
        decreases keys.len() - i,
    {
        let ghost was = rows_view(out@);
        proof {
            assert(keys.take(i + 1).drop_last() =~= keys.take(i as int));
            assert(keys.take(i + 1).last() == keys[i as int]);
        }
        match rowid_from_key(merged.key(i)) {
            Some(n) => {
                let v = slice_to_vec(merged.value(i).as_slice());
                let ghost vv = v@;
                out.push((n, v));
                proof {
                    merged.lemma_keys();
                    assert(keys.contains(keys[i as int]));
                    assert(m.dom().contains(keys[i as int]));
                    assert(rows_view(out@) =~= was.push((n, vv)));
                }
            },
            None => {},
        }
        i += 1;
    }
    proof {
        assert(keys.take(keys.len() as int) =~= keys);
    }
    out
}

/// The range of the keys that a table's rows have.
pub fn table_range(db: u32, relid: u32) -> (r: (Vec<u8>, Vec<u8>))
    ensures
        r.0@ == prefix_of(db, relid),
        r.1@ == prefix_of(db, relid).push(255u8),
{
    let lo = table_prefix(db, relid);
    let hi = hi_of(lo.as_slice());
    (lo, hi)
}

/// The rows of a table between two keys as a command that reads at `curcid` sees them.
/// `durable` is what the store has in the range, and `emptied_at` the commit that last emptied
/// the table.
pub fn scan_rows_between(
    pending: &Pending,
    db: u32,
    relid: u32,
    lo: &[u8],
    hi: &[u8],
    durable: Vec<Stored>,
    emptied_at: Option<u64>,
    past: bool,
    curcid: u32,
) -> (r: Vec<(u64, Vec<u8>)>)
    requires
        pending.wf(),
    ensures
        are_rows_of(
            rows_view(r@),
            visible(
                pending@,
                db,
                relid,
                lo@,
                hi@,
                stored_view(durable@),
                emptied_at,
                past,
                curcid,
            ),
        ),
{
    let since: u64 = staged_empty_mark_for(pending, db, relid);
    let line: u64 = emptied_line(since, emptied_at);
    let mut merged = stand(durable, line);
    if !past {
        pending.overlay_staged(&mut merged, lo, hi, since, curcid);
    }
    proof {
        merged.lemma_keys();
        let m = bytes_view(merged@);
        assert(is_listing(merged.keys(), m)) by {
            assert forall|k: Seq<u8>| #[trigger] m.dom().contains(k) <==> merged.keys().contains(
                k,
            ) by {
                assert(m.dom().contains(k) == merged@.dom().contains(k));
            }
        }
    }
    list_rows(merged)
}

/// What is known of a row before the store is asked.
pub enum Lookup {
    /// The row has this value, or is not there.
    Known(Option<Vec<u8>>),
    /// Only the store can say.
    Ask,
}

pub enum LookupView {
    Known(Option<Seq<u8>>),
    Ask,
}

pub open spec fn bytes_of(v: Option<Vec<u8>>) -> Option<Seq<u8>> {
    match v {
        Some(b) => Some(b@),
        None => None,
    }
}

impl View for Lookup {
    type V = LookupView;

    open spec fn view(&self) -> LookupView {
        match self {
            Lookup::Known(v) => LookupView::Known(bytes_of(*v)),
            Lookup::Ask => LookupView::Ask,
        }
    }
}

/// What a transaction's own writes say of a row. A write from before the table was emptied is
/// covered by that.
pub open spec fn staged_row(
    p: PendingView,
    db: u32,
    relid: u32,
    rowid: u64,
    past: bool,
    curcid: u32,
) -> LookupView {
    if past {
        LookupView::Ask
    } else {
        match stack_sees(p.stack, key_of(db, relid, rowid), curcid) {
            None => LookupView::Ask,
            Some((ord, op)) => if ord <= mark_of(p.emptied, db, relid) {
                LookupView::Known(None)
            } else {
                LookupView::Known(op)
            },
        }
    }
}

/// What a transaction's own writes say of a row, to a command that reads at `curcid`.
pub fn look_up(pending: &Pending, db: u32, relid: u32, rowid: u64, past: bool, curcid: u32) -> (r:
    Lookup)
    requires
        pending.wf(),
    ensures
        r@ == staged_row(pending@, db, relid, rowid, past, curcid),
{
    if past {
        return Lookup::Ask;
    }
    let key = row_key(db, relid, rowid);
    let since: u64 = staged_empty_mark_for(pending, db, relid);
    match pending.staged_seen_by(key.as_slice(), curcid) {
        Some(s) => {
            if s.ord <= since {
                return Lookup::Known(None);
            }
            match s.op {
                Op::Put(v) => Lookup::Known(Some(v)),
                Op::Delete => Lookup::Known(None),
            }
        },
        None => Lookup::Ask,
    }
}

/// What the store found, with the number of the commit that wrote it.
pub open spec fn found_view(found: Option<(Vec<u8>, u64)>) -> Option<(Seq<u8>, u64)> {
    match found {
        Some((v, seq)) => Some((v@, seq)),
        None => None,
    }
}

/// A row that the store found, where the table still has it.
pub open spec fn stored_row(found: Option<(Seq<u8>, u64)>, line: u64) -> Option<Seq<u8>> {
    match found {
        Some((v, seq)) => if seq >= line {
            Some(v)
        } else {
            None
        },
        None => None,
    }
}

/// A row as a command sees it: as the transaction's own writes say, or else as the store has it.
pub open spec fn row_seen(
    p: PendingView,
    db: u32,
    relid: u32,
    rowid: u64,
    past: bool,
    curcid: u32,
    emptied_at: Option<u64>,
    found: Option<(Seq<u8>, u64)>,
) -> Option<Seq<u8>> {
    match staged_row(p, db, relid, rowid, past, curcid) {
        LookupView::Known(v) => v,
        LookupView::Ask => stored_row(found, line_of(mark_of(p.emptied, db, relid), emptied_at)),
    }
}

/// A row as a command that reads at `curcid` sees it. `found` is what the store has of it, and
/// `emptied_at` the commit that last emptied the table: both count only where the transaction's
/// own writes do not decide.
pub fn fetch_row(
    pending: &Pending,
    db: u32,
    relid: u32,
    rowid: u64,
    past: bool,
    curcid: u32,
    emptied_at: Option<u64>,
    found: Option<(Vec<u8>, u64)>,
) -> (r: Option<Vec<u8>>)
    requires
        pending.wf(),
    ensures
        bytes_of(r) == row_seen(
            pending@,
            db,
            relid,
            rowid,
            past,
            curcid,
            emptied_at,
            found_view(found),
        ),
{
    match look_up(pending, db, relid, rowid, past, curcid) {
        Lookup::Known(v) => v,
        Lookup::Ask => {
            let line: u64 = emptied_line(staged_empty_mark_for(pending, db, relid), emptied_at);
            match found {
                Some((v, seq)) => {
                    if seq >= line {
                        Some(v)
                    } else {
                        None
                    }
                },
                None => None,
            }
        },
    }
}

/// The newest value that a row ever had, deletions aside: the newest that the transaction put
/// there, though a later command deleted it, or else `found`, the newest in the store.
pub fn fetch_row_any(
    pending: &Pending,
    db: u32,
    relid: u32,
    rowid: u64,
    found: Option<Vec<u8>>,
) -> (r: Option<Vec<u8>>)
    requires
        pending.wf(),
    ensures
        bytes_of(r) == (match stack_value(pending@.stack, key_of(db, relid, rowid)) {
            Some(v) => Some(v),
            None => bytes_of(found),
        }),
{
    let key = row_key(db, relid, rowid);
    match pending.staged_value(key.as_slice()) {
        Some(v) => Some(v),
        None => found,
    }
}

/// Whether a key has a value; `found` says whether the store has one.
pub fn key_exists(pending: &Pending, key: &[u8], found: bool) -> (r: bool)
    requires
        pending.wf(),
    ensures
        r == (match stack_sees(pending@.stack, key@, SEEN_BY_ALL) {
            Some((_, op)) => op is Some,
            None => found,
        }),
{
    match pending.staged_op(key) {
        Some(op) => match op {
            Op::Put(_) => true,
            Op::Delete => false,
        },
        None => found,
    }
}

proof fn lemma_first_is_least(a: Seq<Seq<u8>>, k: Seq<u8>)
    requires
        keys_ascend(a),
        a.contains(k),
        a.len() > 0,
    ensures
        k == a[0] || below(a[0], k),
{
    let i = choose|i: int| 0 <= i < a.len() && a[i] == k;
    if i > 0 {
        assert(below(a[0], a[i]));
    }
}

/// A map's keys can be listed in order in one way only.
pub proof fn lemma_listing_is_unique<V>(a: Seq<Seq<u8>>, b: Seq<Seq<u8>>, m: Map<Seq<u8>, V>)
    requires
        is_listing(a, m),
        is_listing(b, m),
    ensures
        a == b,
    decreases a.len(),
{
    if a.len() == 0 {
        if b.len() > 0 {
            assert(b.contains(b[0]));
            assert(m.dom().contains(b[0]));
        }
        assert(a =~= b);
    } else {
        assert(a.contains(a[0]));
        assert(m.dom().contains(a[0]));
        assert(b.contains(a[0]));
        assert(b.contains(b[0]));
        assert(m.dom().contains(b[0]));
        assert(a.contains(b[0]));
        lemma_first_is_least(a, b[0]);
        lemma_first_is_least(b, a[0]);
        if a[0] != b[0] {
            lemma_below_transitive(a[0], b[0], a[0]);
            lemma_below_irreflexive(a[0]);
        }
        let rest = m.remove(a[0]);
        let x = a.skip(1);
        let y = b.skip(1);
        lemma_rest_is_listing(a, m);
        lemma_rest_is_listing(b, m);
        lemma_listing_is_unique(x, y, rest);
        assert(a =~= seq![a[0]] + x);
        assert(b =~= seq![b[0]] + y);
    }
}

proof fn lemma_rest_is_listing<V>(a: Seq<Seq<u8>>, m: Map<Seq<u8>, V>)
    requires
        is_listing(a, m),
        a.len() > 0,
    ensures
        is_listing(a.skip(1), m.remove(a[0])),
{
    let rest = m.remove(a[0]);
    let x = a.skip(1);
    lemma_below_irreflexive(a[0]);
    assert forall|i: int, j: int| 0 <= i < j < x.len() implies below(
        #[trigger] x[i],
        #[trigger] x[j],
    ) by {
        assert(below(a[i + 1], a[j + 1]));
    }
    assert forall|k: Seq<u8>| #[trigger] rest.dom().contains(k) <==> x.contains(k) by {
        if rest.dom().contains(k) {
            assert(m.dom().contains(k));
            let i = choose|i: int| 0 <= i < a.len() && a[i] == k;
            assert(x[i - 1] == k);
        }
        if x.contains(k) {
            let i = choose|i: int| 0 <= i < x.len() && x[i] == k;
            assert(a[i + 1] == k);
            assert(a.contains(k));
            assert(m.dom().contains(k));
            assert(below(a[0], a[i + 1]));
        }
    }
}

/// The store's answer for one key is the entry that its answer for a range has for the key.
pub open spec fn answers_agree(
    durable: Seq<StoredView>,
    key: Seq<u8>,
    found: Option<(Seq<u8>, u64)>,
) -> bool {
    match found {
        Some((v, seq)) => exists|i: int|
            0 <= i < durable.len() && #[trigger] durable[i] == (key, v, seq),
        None => forall|i: int| 0 <= i < durable.len() ==> (#[trigger] durable[i]).0 != key,
    }
}

/// No key comes twice in what the store answers.
pub open spec fn keys_differ(durable: Seq<StoredView>) -> bool {
    forall|i: int, j: int|
        0 <= i < j < durable.len() ==> (#[trigger] durable[i]).0 != (#[trigger] durable[j]).0
}

proof fn lemma_standing_at(
    durable: Seq<StoredView>,
    key: Seq<u8>,
    found: Option<(Seq<u8>, u64)>,
    line: u64,
)
    requires
        keys_differ(durable),
        answers_agree(durable, key, found),
    ensures
        standing(durable, line).dom().contains(key) == (stored_row(found, line) is Some),
        stored_row(found, line) is Some ==> standing(durable, line)[key] == stored_row(
            found,
            line,
        )->0,
    decreases durable.len(),
{
    if durable.len() > 0 {
        let rest = durable.drop_last();
        let n = durable.len() - 1;
        assert(keys_differ(rest)) by {
            assert forall|i: int, j: int| 0 <= i < j < rest.len() implies (#[trigger] rest[i]).0
                != (#[trigger] rest[j]).0 by {
                assert(durable[i].0 != durable[j].0);
            }
        }
        if durable.last().0 == key {
            assert forall|i: int| 0 <= i < rest.len() implies (#[trigger] rest[i]).0 != key by {
                assert(durable[i].0 != durable[n].0);
            }
            lemma_standing_at(rest, key, None, line);
            assert(found is Some) by {
                if found is None {
                    assert(durable[n].0 != key);
                }
            }
            let (v, seq) = found->0;
            let i = choose|i: int|
                0 <= i < durable.len() && #[trigger] durable[i] == (key, v, seq);
            if i != n {
                assert(durable[i].0 != durable[n].0);
            }
        } else {
            assert(answers_agree(rest, key, found)) by {
                match found {
                    Some((v, seq)) => {
                        let i = choose|i: int|
                            0 <= i < durable.len() && #[trigger] durable[i] == (key, v, seq);
                        assert(rest[i] == (key, v, seq));
                    },
                    None => {
                        assert forall|i: int| 0 <= i < rest.len() implies (#[trigger] rest[i]).0
                            != key by {
                            assert(durable[i].0 != key);
                        }
                    },
                }
            }
            lemma_standing_at(rest, key, found, line);
        }
    }
}

/// A scan and a fetch tell the same of a row: where the store's two answers agree, the scan has
/// the row just where the fetch finds it, with the same value.
pub proof fn lemma_scan_agrees_with_fetch(
    p: PendingView,
    db: u32,
    relid: u32,
    rowid: u64,
    lo: Seq<u8>,
    hi: Seq<u8>,
    durable: Seq<StoredView>,
    emptied_at: Option<u64>,
    past: bool,
    curcid: u32,
    found: Option<(Seq<u8>, u64)>,
)
    requires
        within(key_of(db, relid, rowid), lo, hi),
        keys_differ(durable),
        answers_agree(durable, key_of(db, relid, rowid), found),
    ensures
        ({
            let k = key_of(db, relid, rowid);
            let m = visible(p, db, relid, lo, hi, durable, emptied_at, past, curcid);
            let line = line_of(mark_of(p.emptied, db, relid), emptied_at);
            let fetched = match staged_row(p, db, relid, rowid, past, curcid) {
                LookupView::Known(v) => v,
                LookupView::Ask => stored_row(found, line),
            };
            &&& m.dom().contains(k) == (fetched is Some)
            &&& fetched is Some ==> m[k] == fetched->0
        }),
{
    let k = key_of(db, relid, rowid);
    lemma_standing_at(durable, k, found, line_of(mark_of(p.emptied, db, relid), emptied_at));
}

} // verus!
