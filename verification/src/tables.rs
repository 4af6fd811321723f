//! What a server keeps of its tables between transactions: the next row of each, and its size
//! for the planner; and the writes to rows that go by them.
use crate::commit::Op;
use crate::key_map::KeyMap;
use crate::report::Report;
use crate::row_key::{key_of, prefix_of, row_key, table_prefix};
use crate::rows::rows_view;
use crate::session::{forced_seq, refuse_writes_into_the_past, write_into_the_past};
use crate::staging::{stack_stamp, staged_in, Pending, SEEN_BY_ALL};
use vstd::prelude::*;

verus! {

/// The bytes and rows of a table, as far as they are known.
#[derive(Clone, Copy, Debug, PartialEq, Eq, Structural)]
pub struct Size {
    pub bytes: u64,
    pub rows: u64,
}

/// A count moved by some amount, which stops at zero and at the most that fits.
pub open spec fn moved(cur: u64, delta: int) -> u64 {
    if cur + delta > u64::MAX {
        u64::MAX
    } else if cur + delta < 0 {
        0
    } else {
        (cur + delta) as u64
    }
}

fn apply(cur: u64, delta: i64) -> (r: u64)
    ensures
        r == moved(cur, delta as int),
{
    if delta >= 0 {
        cur.saturating_add(delta as u64)
    } else {
        let less: u64 = (0 - (delta as i128)) as u64;
        cur.saturating_sub(less)
    }
}

/// The sum of the lengths of some rows.
pub open spec fn bytes_in(rows: Seq<(u64, Seq<u8>)>) -> nat
    decreases rows.len(),
{
    if rows.len() == 0 {
        0
    } else {
        bytes_in(rows.drop_last()) + rows.last().1.len()
    }
}

proof fn lemma_bytes_grow(rows: Seq<(u64, Seq<u8>)>, i: int)
    requires
        0 <= i <= rows.len(),
    ensures
        bytes_in(rows.take(i)) <= bytes_in(rows),
    decreases rows.len(),
{
    if i < rows.len() {
        assert(rows.drop_last().take(i) =~= rows.take(i));
        lemma_bytes_grow(rows.drop_last(), i);
    } else {
        assert(rows.take(i) =~= rows);
    }
}

/// The first row number after all that are taken.
pub open spec fn after_all(rows: Seq<(u64, Seq<u8>)>) -> nat
    decreases rows.len(),
{
    if rows.len() == 0 {
        0
    } else {
        let before = after_all(rows.drop_last());
        if rows.last().0 + 1 > before {
            (rows.last().0 + 1) as nat
        } else {
            before
        }
    }
}

proof fn lemma_after_all(rows: Seq<(u64, Seq<u8>)>, i: int)
    requires
        0 <= i < rows.len(),
    ensures
        rows[i].0 < after_all(rows),
    decreases rows.len(),
{
    if i < rows.len() - 1 {
        lemma_after_all(rows.drop_last(), i);
    }
}

/// The first row number after those of some rows: none of them is it or beyond.
pub fn first_free(rows: &Vec<(u64, Vec<u8>)>) -> (r: u64)
    requires
        after_all(rows_view(rows@)) <= u64::MAX,
    ensures
        r == after_all(rows_view(rows@)),
        forall|i: int| 0 <= i < rows@.len() ==> (#[trigger] rows@[i]).0 < r,
{
    let ghost all = rows_view(rows@);
    let mut m: u64 = 0;
    let mut i: usize = 0;
    proof {
        assert(all.take(0) =~= Seq::empty());
    }
    while i < rows.len()
        invariant
            all == rows_view(rows@),
            after_all(all) <= u64::MAX,
            i <= rows@.len(),
            m == after_all(all.take(i as int)),
        decreases rows@.len() - i,
    {
        proof {
            assert(all.take(i + 1).drop_last() =~= all.take(i as int));
            assert(all.take(i + 1).last() == all[i as int]);
            lemma_after_all(all, i as int);
        }
        let next: u64 = rows[i].0 + 1;
        if next > m {
            m = next;
        }
        i += 1;
    }
    proof {
        assert(all.take(all.len() as int) =~= all);
        assert forall|j: int| 0 <= j < rows@.len() implies (#[trigger] rows@[j]).0 < m by {
            lemma_after_all(all, j);
        }
    }
    m
}

/// What is kept of the tables, each under what the keys of its rows begin with.
pub struct Tables {
    pub next: KeyMap<u64>,
    pub sizes: KeyMap<Size>,
}

#[verifier::ext_equal]
pub struct TablesView {
    pub next: Map<Seq<u8>, u64>,
    pub sizes: Map<Seq<u8>, Size>,
}

impl View for Tables {
    type V = TablesView;

    open spec fn view(&self) -> TablesView {
        TablesView { next: self.next@, sizes: self.sizes@ }
    }
}

impl TablesView {
    /// The size of a table; one that nothing is known of counts as empty.
    pub open spec fn size(self, table: Seq<u8>) -> Size {
        if self.sizes.dom().contains(table) {
            self.sizes[table]
        } else {
            Size { bytes: 0, rows: 0 }
        }
    }

    /// The row that a table's next insert gets: `scanned` is the first free one, which counts
    /// only where the table is not known yet.
    pub open spec fn next_row(self, table: Seq<u8>, scanned: Option<u64>) -> u64 {
        if self.next.dom().contains(table) {
            self.next[table]
        } else {
            match scanned {
                Some(n) => n,
                None => 0,
            }
        }
    }

    /// After a table's size has moved.
    pub open spec fn resized(self, table: Seq<u8>, bytes: int, rows: int) -> TablesView {
        TablesView {
            sizes: self.sizes.insert(
                table,
                Size {
                    bytes: moved(self.size(table).bytes, bytes),
                    rows: moved(self.size(table).rows, rows),
                },
            ),
            ..self
        }
    }
}

impl Tables {
    pub open spec fn wf(&self) -> bool {
        self.next.wf() && self.sizes.wf()
    }

    pub fn new() -> (r: Tables)
        ensures
            r.wf(),
            r@ == (TablesView { next: Map::empty(), sizes: Map::empty() }),
    {
        Tables { next: KeyMap::new(), sizes: KeyMap::new() }
    }

    /// Whether the next row of a table is known, so that its rows need not be read for it.
    pub fn is_seeded(&self, db: u32, relid: u32) -> (r: bool)
        requires
            self.wf(),
        ensures
            r == self@.next.dom().contains(prefix_of(db, relid)),
    {
        self.next.get(table_prefix(db, relid).as_slice()).is_some()
    }

    /// Takes the next row of a table: no other insert gets it.
    pub fn take_row(&mut self, db: u32, relid: u32, scanned: Option<u64>) -> (r: u64)
        requires
            old(self).wf(),
            old(self)@.next_row(prefix_of(db, relid), scanned) < u64::MAX,
        ensures
            final(self).wf(),
            r == old(self)@.next_row(prefix_of(db, relid), scanned),
            final(self)@ == (TablesView {
                next: old(self)@.next.insert(prefix_of(db, relid), (r + 1) as u64),
                ..old(self)@
            }),
    {
        let table = table_prefix(db, relid);
        let id: u64 = match self.next.get(table.as_slice()) {
            Some(n) => *n,
            None => match scanned {
                Some(n) => n,
                None => 0,
            },
        };
        self.next.set(table, id + 1);
        id
    }

    /// A table grew or shrank.
    pub fn add_stats(&mut self, db: u32, relid: u32, bytes: i64, rows: i64)
        requires
            old(self).wf(),
        ensures
            final(self).wf(),
            final(self)@ == old(self)@.resized(prefix_of(db, relid), bytes as int, rows as int),
    {
        let table = table_prefix(db, relid);
        let cur: Size = match self.sizes.get(table.as_slice()) {
            Some(s) => *s,
            None => Size { bytes: 0, rows: 0 },
        };
        self.sizes.set(
            table,
            Size { bytes: apply(cur.bytes, bytes), rows: apply(cur.rows, rows) },
        );
    }

    /// The size of a table, where it is known.
    pub fn known_stats(&self, db: u32, relid: u32) -> (r: Option<Size>)
        requires
            self.wf(),
        ensures
            match r {
                Some(s) => self@.sizes.dom().contains(prefix_of(db, relid))
                    && s == self@.sizes[prefix_of(db, relid)],
                None => !self@.sizes.dom().contains(prefix_of(db, relid)),
            },
    {
        match self.sizes.get(table_prefix(db, relid).as_slice()) {
            Some(s) => Some(*s),
            None => None,
        }
    }

    /// The size of a table: as known, or that of `rows`, which are all that it has.
    pub fn relation_stats(&mut self, db: u32, relid: u32, rows: &Vec<(u64, Vec<u8>)>) -> (r: Size)
        requires
            old(self).wf(),
            bytes_in(rows_view(rows@)) <= u64::MAX,
        ensures
            final(self).wf(),
            ({
                let table = prefix_of(db, relid);
                if old(self)@.sizes.dom().contains(table) {
                    r == old(self)@.sizes[table] && final(self)@ == old(self)@
                } else {
                    &&& r.bytes == bytes_in(rows_view(rows@))
                    &&& r.rows == rows@.len()
                    &&& final(self)@ == (TablesView {
                        sizes: old(self)@.sizes.insert(table, r),
                        ..old(self)@
                    })
                }
            }),
    {
        match self.known_stats(db, relid) {
            Some(s) => return s,
            None => {},
        }
        let ghost all = rows_view(rows@);
        let mut bytes: u64 = 0;
        let mut i: usize = 0;
        proof {
            assert(all.take(0) =~= Seq::empty());
        }
        while i < rows.len()
            invariant
                all == rows_view(rows@),
                bytes_in(all) <= u64::MAX,
                i <= rows@.len(),
                bytes == bytes_in(all.take(i as int)),
            decreases rows@.len() - i,
        {
            proof {
                assert(all.take(i + 1).drop_last() =~= all.take(i as int));
                assert(all.take(i + 1).last() == all[i as int]);
                lemma_bytes_grow(all, i + 1);
            }
            bytes += rows[i].1.len() as u64;
            i += 1;
        }
        proof {
            assert(all.take(all.len() as int) =~= all);
        }
        let s = Size { bytes, rows: rows.len() as u64 };
        self.sizes.set(table_prefix(db, relid), s);
        s
    }

    /// Inserts a row on behalf of a subtransaction and a command. A refused insert leaves
    /// nothing behind.
    pub fn insert_row(
        &mut self,
        pending: &mut Pending,
        setting: i32,
        subid: u32,
        cid: u32,
        db: u32,
        relid: u32,
        image: Vec<u8>,
        scanned: Option<u64>,
    ) -> (r: Result<u64, Report>)
        requires
            old(self).wf(),
            old(pending).wf(),
            old(pending).ord < u64::MAX,
            old(self)@.next_row(prefix_of(db, relid), scanned) < u64::MAX,
            image@.len() <= i64::MAX,
        ensures
            final(self).wf(),
            final(pending).wf(),
            ({
                let table = prefix_of(db, relid);
                match r {
                    Err(e) => {
                        &&& forced_seq(setting) matches Some(seq) && e@ == write_into_the_past(seq)
                        &&& final(self)@ == old(self)@
                        &&& final(pending)@ == old(pending)@
                    },
                    Ok(id) => {
                        &&& forced_seq(setting) is None
                        &&& id == old(self)@.next_row(table, scanned)
                        &&& final(self)@ == (TablesView {
                            next: old(self)@.next.insert(table, (id + 1) as u64),
                            ..old(self)@
                        }).resized(table, image@.len() as int, 1)
                        &&& final(pending)@ == staged_in(
                            old(pending)@,
                            subid,
                            key_of(db, relid, id),
                            Some(image@),
                            cid,
                        )
                    },
                }
            }),
    {
        match refuse_writes_into_the_past(setting) {
            Ok(_) => {},
            Err(e) => return Err(e),
        }
        let id: u64 = self.take_row(db, relid, scanned);
        self.add_stats(db, relid, image.len() as i64, 1);
        pending.stage_in(subid, row_key(db, relid, id), Op::Put(image), cid);
        Ok(id)
    }

    /// Deletes a row on behalf of a subtransaction and a command. `found` is the value that the
    /// row has now.
    pub fn delete_row(
        &mut self,
        pending: &mut Pending,
        setting: i32,
        subid: u32,
        cid: u32,
        db: u32,
        relid: u32,
        rowid: u64,
        found: &Option<Vec<u8>>,
    ) -> (r: Result<(), Report>)
        requires
            old(self).wf(),
            old(pending).wf(),
            old(pending).ord < u64::MAX,
            found is Some ==> found->0@.len() <= i64::MAX,
        ensures
            final(self).wf(),
            final(pending).wf(),
            match r {
                Err(e) => {
                    &&& forced_seq(setting) matches Some(seq) && e@ == write_into_the_past(seq)
                    &&& final(self)@ == old(self)@
                    &&& final(pending)@ == old(pending)@
                },
                Ok(_) => {
                    &&& forced_seq(setting) is None
                    &&& final(self)@ == (match *found {
                        Some(v) => old(self)@.resized(
                            prefix_of(db, relid),
                            0 - v@.len() as int,
                            -1,
                        ),
                        None => old(self)@,
                    })
                    &&& final(pending)@ == staged_in(
                        old(pending)@,
                        subid,
                        key_of(db, relid, rowid),
                        None,
                        cid,
                    )
                },
            },
    {
        match refuse_writes_into_the_past(setting) {
            Ok(_) => {},
            Err(e) => return Err(e),
        }
        match found {
            Some(v) => {
                self.add_stats(db, relid, 0 - (v.len() as i64), -1);
            },
            None => {},
        }
        pending.stage_in(subid, row_key(db, relid, rowid), Op::Delete, cid);
        Ok(())
    }
}

/// Replaces a row where it stands. Commands see it as they see the version that it rewrites: the
/// transaction's own as from the command that made it, one in the store all of them.
pub fn update_row_in_place(
    pending: &mut Pending,
    setting: i32,
    subid: u32,
    db: u32,
    relid: u32,
    rowid: u64,
    image: Vec<u8>,
) -> (r: Result<(), Report>)
    requires
        old(pending).wf(),
        old(pending).ord < u64::MAX,
    ensures
        final(pending).wf(),
        match r {
            Err(e) => {
                &&& forced_seq(setting) matches Some(seq) && e@ == write_into_the_past(seq)
                &&& final(pending)@ == old(pending)@
            },
            Ok(_) => {
                &&& forced_seq(setting) is None
                &&& final(pending)@ == staged_in(
                    old(pending)@,
                    subid,
                    key_of(db, relid, rowid),
                    Some(image@),
                    match stack_stamp(old(pending)@.stack, key_of(db, relid, rowid)) {
                        Some(cid) => cid,
                        None => SEEN_BY_ALL,
                    },
                )
            },
        },
{
    match refuse_writes_into_the_past(setting) {
        Ok(_) => {},
        Err(e) => return Err(e),
    }
    pending.stage_in_place(subid, row_key(db, relid, rowid), Op::Put(image));
    Ok(())
}

/// Two inserts into a table get different rows, each one more than the last.
pub proof fn lemma_rows_are_dense(t: TablesView, table: Seq<u8>, scanned: Option<u64>, again: Option<u64>)
    requires
        t.next_row(table, scanned) < u64::MAX,
    ensures
        ({
            let id = t.next_row(table, scanned);
            let after = TablesView { next: t.next.insert(table, (id + 1) as u64), ..t };
            after.next_row(table, again) == id + 1
        }),
{
}

} // verus!
