//! Scans: rows handed out one by one, bitmaps of them, and the records of what was lifted into
//! the store.
use crate::http::strings_view;
use crate::lines::{number_value, parse_number, split_words, texts_view, words};
use crate::row_key::{key_of, row_key, ROWS_PER_BLOCK};
use crate::rows::rows_view;
use crate::text::{chars_of, has_prefix, put_hex, hex_digits};
use vstd::prelude::*;
use vstd::slice::{slice_subrange, slice_to_vec};

verus! {

/// A scan: all of its rows, and how far it has got. `K` is what rows are tested by.
pub struct ObjkvScanDescData<K> {
    pub keys: Vec<K>,
    pub nkeys: i32,
    pub rows: Vec<(u64, Vec<u8>)>,
    pub next: usize,
}

impl<K: Copy> ObjkvScanDescData<K> {
    /// A scan that stands before the first of its rows.
    pub fn new(keys: Vec<K>, nkeys: i32, rows: Vec<(u64, Vec<u8>)>) -> (r: ObjkvScanDescData<K>)
        ensures
            r.keys == keys,
            r.nkeys == nkeys,
            r.rows == rows,
            r.next == 0,
    {
        ObjkvScanDescData { keys, nkeys, rows, next: 0 }
    }

    /// The next row; none after the last.
    pub fn take_next(&mut self) -> (r: Option<(u64, Vec<u8>)>)
        ensures
            final(self).keys == old(self).keys,
            final(self).nkeys == old(self).nkeys,
            final(self).rows == old(self).rows,
            if old(self).next < old(self).rows@.len() {
                &&& r is Some
                &&& ((r->0).0, (r->0).1@) == rows_view(old(self).rows@)[old(self).next as int]
                &&& final(self).next == old(self).next + 1
            } else {
                r is None && final(self).next == old(self).next
            },
    {
        if self.next < self.rows.len() {
            let row = &self.rows[self.next];
            let out = (row.0, slice_to_vec(row.1.as_slice()));
            self.next += 1;
            Some(out)
        } else {
            None
        }
    }

    /// Starts again with the first row.
    pub fn rewind(&mut self)
        ensures
            *final(self) == (ObjkvScanDescData { next: 0, ..*old(self) }),
    {
        self.next = 0;
    }

    /// Replaces what rows are tested by.
    pub fn set_keys(&mut self, key: &[K])
        requires
            key@.len() <= i32::MAX,
        ensures
            final(self).keys@ == key@,
            final(self).nkeys == key@.len(),
            final(self).rows == old(self).rows,
            final(self).next == old(self).next,
    {
        let mut keys: Vec<K> = Vec::new();
        let mut i: usize = 0;
        while i < key.len()
            invariant
                i <= key@.len(),
                keys@ == key@.take(i as int),
            decreases key@.len() - i,
        {
            keys.push(key[i]);
            proof {
                assert(keys@ =~= key@.take(i + 1));
            }
            i += 1;
        }
        proof {
            assert(key@.take(key@.len() as int) =~= key@);
        }
        self.keys = keys;
        self.nkeys = key.len() as i32;
    }

    /// Goes on with the rows of a block, where it has any: how many they are.
    pub fn take_batch(&mut self, rows: Vec<(u64, Vec<u8>)>) -> (r: Option<u32>)
        requires
            rows@.len() <= u32::MAX,
        ensures
            final(self).keys == old(self).keys,
            final(self).nkeys == old(self).nkeys,
            if rows@.len() == 0 {
                r is None && *final(self) == *old(self)
            } else {
                r == Some(rows@.len() as u32) && final(self).rows == rows && final(self).next == 0
            },
    {
        if rows.len() == 0 {
            return None;
        }
        let n: u32 = rows.len() as u32;
        self.rows = rows;
        self.rewind();
        Some(n)
    }

    /// Whether a row has to pass a test before it is handed on.
    pub fn tests_rows(&self) -> (r: bool)
        ensures
            r == (self.nkeys > 0),
    {
        self.nkeys > 0
    }

    /// Whether all rows have been handed out, so that another block is to be read.
    pub fn is_spent(&self) -> (r: bool)
        ensures
            r == (self.next >= self.rows@.len()),
    {
        self.next >= self.rows.len()
    }
}

/// The range of the keys of a block's rows.
pub fn block_range(db: u32, relid: u32, block: u32) -> (r: (Vec<u8>, Vec<u8>))
    ensures
        r.0@ == key_of(db, relid, (block * ROWS_PER_BLOCK) as u64),
        r.1@ == key_of(db, relid, ((block + 1) * ROWS_PER_BLOCK) as u64),
{
    let base: u64 = block as u64 * ROWS_PER_BLOCK;
    (row_key(db, relid, base), row_key(db, relid, base + ROWS_PER_BLOCK))
}

/// The rows at some offsets of a block.
pub open spec fn rows_at(block: u32, offsets: Seq<u16>) -> Seq<u64> {
    Seq::new(
        offsets.len(),
        |i: int| (block * ROWS_PER_BLOCK + offsets[i] - 1) as u64,
    )
}

/// How many of some offsets a block can have.
pub open spec fn block_share(offsets: Seq<u16>) -> int {
    if offsets.len() < ROWS_PER_BLOCK {
        offsets.len() as int
    } else {
        ROWS_PER_BLOCK as int
    }
}

/// The rows at some offsets of a block, which count from 1; no more than a block has.
pub fn block_rows(block: u32, offsets: &[u16]) -> (r: Vec<u64>)
    requires
        forall|i: int| 0 <= i < offsets@.len() ==> (#[trigger] offsets@[i]) > 0,
    ensures
        r@ == rows_at(block, offsets@.take(block_share(offsets@))),
{
    let n: usize = if offsets.len() < ROWS_PER_BLOCK as usize {
        offsets.len()
    } else {
        ROWS_PER_BLOCK as usize
    };
    let base: u64 = block as u64 * ROWS_PER_BLOCK;
    let mut out: Vec<u64> = Vec::new();
    let mut i: usize = 0;
    proof {
        assert(out@ =~= rows_at(block, offsets@.take(0)));
    }
    while i < n
        invariant
            i <= n <= offsets@.len(),
            base == block * ROWS_PER_BLOCK,
            forall|j: int| 0 <= j < offsets@.len() ==> (#[trigger] offsets@[j]) > 0,
            out@ == rows_at(block, offsets@.take(i as int)),
        decreases n - i,
    {
        let ghost was = out@;
        proof {
            assert(offsets@[i as int] > 0);
        }
        let id: u64 = base + offsets[i] as u64 - 1;
        out.push(id);
        proof {
            assert(out@ =~= rows_at(block, offsets@.take(i + 1)));
        }
        i += 1;
    }
    out
}

/// A page of a bitmap: a block, and which of its rows are wanted. Of a lossy page only the block
/// is known, so that all of its rows are read and tested again.
pub struct BitmapPage {
    pub block: u32,
    pub lossy: bool,
    pub recheck: bool,
    pub offsets: Vec<u16>,
}

/// What is read for a page of a bitmap.
pub enum PagePlan {
    /// The rows between two keys.
    Between(Vec<u8>, Vec<u8>),
    /// These rows.
    Rows(Vec<u64>),
}

/// What a bitmap scan counts, and whether the rows at hand are to be tested again.
#[derive(Clone, Copy, Debug, PartialEq, Eq, Structural)]
pub struct BitmapCounts {
    pub lossy_pages: u64,
    pub exact_pages: u64,
    pub recheck: bool,
}

impl BitmapCounts {
    /// What is to be read for the next page.
    pub fn next_page(&mut self, db: u32, relid: u32, page: &BitmapPage) -> (r: PagePlan)
        requires
            old(self).lossy_pages < u64::MAX,
            old(self).exact_pages < u64::MAX,
            forall|i: int| 0 <= i < page.offsets@.len() ==> (#[trigger] page.offsets@[i]) > 0,
        ensures
            if page.lossy {
                &&& r matches PagePlan::Between(lo, hi)
                &&& lo@ == key_of(db, relid, (page.block * ROWS_PER_BLOCK) as u64)
                &&& hi@ == key_of(db, relid, ((page.block + 1) * ROWS_PER_BLOCK) as u64)
                &&& *final(self) == (BitmapCounts {
                    lossy_pages: (old(self).lossy_pages + 1) as u64,
                    recheck: true,
                    ..*old(self)
                })
            } else {
                &&& r matches PagePlan::Rows(rows)
                &&& rows@ == rows_at(page.block, page.offsets@.take(block_share(page.offsets@)))
                &&& *final(self) == (BitmapCounts {
                    exact_pages: (old(self).exact_pages + 1) as u64,
                    recheck: page.recheck,
                    ..*old(self)
                })
            },
    {
        if page.lossy {
            self.lossy_pages += 1;
            self.recheck = true;
            let (lo, hi) = block_range(db, relid, page.block);
            PagePlan::Between(lo, hi)
        } else {
            self.exact_pages += 1;
            self.recheck = page.recheck;
            PagePlan::Rows(block_rows(page.block, page.offsets.as_slice()))
        }
    }
}

/// What the keys of a database's rows begin with.
pub fn database_prefix(db: u32) -> (r: Vec<u8>)
    ensures
        r@ == hex_digits(db as nat, 8).push(47u8),
{
    let mut out: Vec<u8> = Vec::new();
    put_hex(&mut out, db as u64, 8);
    out.push(47);
    proof {
        assert(out@ =~= hex_digits(db as nat, 8).push(47u8));
    }
    out
}

/// The number that a word has after a field's name: decimal, and not zero.
pub open spec fn oid_in(word: Seq<char>, field: Seq<char>) -> Option<nat> {
    if has_prefix(word, field) {
        match number_value(word.skip(field.len() as int), 10) {
            Ok(n) => if n != 0 {
                Some(n)
            } else {
                None
            },
            Err(_) => None,
        }
    } else {
        None
    }
}

/// The numbers that some words have after a field's name.
pub open spec fn oids_in(ws: Seq<Seq<char>>, field: Seq<char>) -> Seq<u32>
    decreases ws.len(),
{
    if ws.len() == 0 {
        Seq::empty()
    } else {
        let head = oids_in(ws.drop_last(), field);
        match oid_in(ws.last(), field) {
            Some(n) => head.push(n as u32),
            None => head,
        }
    }
}

/// The numbers that the words of some records have after a field's name.
pub open spec fn lifted(records: Seq<Seq<char>>, field: Seq<char>) -> Seq<u32>
    decreases records.len(),
{
    if records.len() == 0 {
        Seq::empty()
    } else {
        lifted(records.drop_last(), field) + oids_in(words(records.last()), field)
    }
}

fn word_oid(word: &[char], field: &[char]) -> (r: Option<u32>)
    ensures
        match r {
            Some(n) => oid_in(word@, field@) == Some(n as nat),
            None => oid_in(word@, field@) is None,
        },
{
    if word.len() < field.len() {
        return None;
    }
    let mut i: usize = 0;
    while i < field.len()
        invariant
            i <= field@.len() <= word@.len(),
            word@.take(i as int) == field@.take(i as int),
        decreases field@.len() - i,
    {
        if word[i] != field[i] {
            proof {
                assert(word@.take(field@.len() as int)[i as int] == word@[i as int]);
            }
            return None;
        }
        proof {
            assert(word@.take(i + 1) =~= word@.take(i as int).push(word@[i as int]));
            assert(field@.take(i + 1) =~= field@.take(i as int).push(field@[i as int]));
        }
        i += 1;
    }
    let rest = slice_subrange(word, field.len(), word.len());
    proof {
        assert(field@.take(field@.len() as int) =~= field@);
        assert(rest@ =~= word@.skip(field@.len() as int));
    }
    match parse_number(rest, 10) {
        Ok(n) => {
            if n != 0 {
                Some(n)
            } else {
                None
            }
        },
        Err(_) => None,
    }
}

fn word_oids(ws: &Vec<Vec<char>>, field: &[char]) -> (r: Vec<u32>)
    ensures
        r@ == oids_in(texts_view(ws@), field@),
{
    let ghost all = texts_view(ws@);
    let mut out: Vec<u32> = Vec::new();
    let mut i: usize = 0;
    proof {
        assert(all.take(0) =~= Seq::empty());
    }
    while i < ws.len()
        invariant
            all == texts_view(ws@),
            i <= ws@.len(),
            out@ == oids_in(all.take(i as int), field@),
        decreases ws@.len() - i,
    {
        proof {
            assert(all.take(i + 1).drop_last() =~= all.take(i as int));
            assert(all.take(i + 1).last() == ws@[i as int]@);
        }
        match word_oid(ws[i].as_slice(), field) {
            Some(n) => {
                out.push(n);
            },
            None => {},
        }
        i += 1;
    }
    proof {
        assert(all.take(all.len() as int) =~= all);
    }
    out
}

/// The numbers that records of what was lifted hold under a field's name.
pub fn lifted_am_oids(field: &str, records: &Vec<String>) -> (r: Vec<u32>)
    ensures
        r@ == lifted(strings_view(records@), field@),
{
    let ghost all = strings_view(records@);
    let name = chars_of(field);
    let mut out: Vec<u32> = Vec::new();
    let mut i: usize = 0;
    proof {
        assert(all.take(0) =~= Seq::empty());
    }
    while i < records.len()
        invariant
            all == strings_view(records@),
            name@ == field@,
            i <= records@.len(),
            out@ == lifted(all.take(i as int), field@),
        decreases records@.len() - i,
    {
        proof {
            assert(all.take(i + 1).drop_last() =~= all.take(i as int));
            assert(all.take(i + 1).last() == records@[i as int]@);
        }
        let text = chars_of(records[i].as_str());
        let ws = split_words(text.as_slice());
        let mut part = word_oids(&ws, name.as_slice());
        out.append(&mut part);
        i += 1;
    }
    proof {
        assert(all.take(all.len() as int) =~= all);
    }
    out
}

/// The access methods that records of what was lifted hold, which are to be made known.
pub fn register_lifted_ams(records: &Vec<String>) -> (r: Vec<u32>)
    ensures
        r@ == lifted(strings_view(records@), "am="@),
{
    lifted_am_oids("am=", records)
}

} // verus!
