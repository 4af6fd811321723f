//! Rows of tables: their keys, the tuple identifiers that stand for them, and their images.
use crate::incremental_manifest::nibble;
use crate::lines::utf8;
use crate::native::{native_at, word_at};
use crate::order::{at_most, begins_with, below, lemma_below_common_head};
use crate::text::{
    decimal, hex_digit_value, hex_digits, hex_span, lemma_hex_digits_len, lemma_hex_order,
    lemma_hex_span_16, push_dec, put_hex,
};
use crate::report::{report, Report, ReportView};
use vstd::prelude::*;
use vstd::slice::{slice_subrange, slice_to_vec};
use vstd::utf8::valid_utf8;

verus! {

/// Whose key space a table lives in: its database's, or that of all where databases share it.
/// Numbers of tables are unique in a database only.
pub fn scope(shared: bool, database: u32) -> (r: u32)
    ensures
        r == (if shared {
            0
        } else {
            database
        }),
{
    if shared {
        0
    } else {
        database
    }
}

/// What the keys of a table's rows begin with: the database and the table.
pub open spec fn prefix_of(db: u32, relid: u32) -> Seq<u8> {
    hex_digits(db as nat, 8) + seq![47u8] + hex_digits(relid as nat, 8) + seq![47u8]
}

/// The key of a row.
pub open spec fn key_of(db: u32, relid: u32, rowid: u64) -> Seq<u8> {
    prefix_of(db, relid) + hex_digits(rowid as nat, 16)
}

/// What the keys of a table's rows begin with.
pub fn table_prefix(db: u32, relid: u32) -> (r: Vec<u8>)
    ensures
        r@ == prefix_of(db, relid),
{
    let mut k: Vec<u8> = Vec::new();
    put_hex(&mut k, db as u64, 8);
    k.push(47);
    put_hex(&mut k, relid as u64, 8);
    k.push(47);
    proof {
        assert(k@ =~= prefix_of(db, relid));
    }
    k
}

/// The key of a row.
pub fn row_key(db: u32, relid: u32, rowid: u64) -> (r: Vec<u8>)
    ensures
        r@ == key_of(db, relid, rowid),
{
    let mut k = table_prefix(db, relid);
    put_hex(&mut k, rowid, 16);
    k
}

/// A bound above every key that begins with `prefix` and goes on in ASCII.
pub fn hi_of(prefix: &[u8]) -> (r: Vec<u8>)
    ensures
        r@ == prefix@.push(255),
{
    let mut hi = slice_to_vec(prefix);
    hi.push(255);
    hi
}

/// Where it is recorded that a table was emptied.
pub open spec fn marker_of(db: u32, oid: u32) -> Seq<u8> {
    seq![116u8, 47u8] + hex_digits(db as nat, 8) + seq![47u8] + hex_digits(oid as nat, 8)
}

/// Where it is recorded that a table was emptied. `t` is no hexadecimal digit, so this is never
/// taken for a row or an index entry.
pub fn empty_marker_key(db: u32, oid: u32) -> (r: Vec<u8>)
    ensures
        r@ == marker_of(db, oid),
{
    let mut k: Vec<u8> = Vec::new();
    k.push(116);
    k.push(47);
    put_hex(&mut k, db as u64, 8);
    k.push(47);
    put_hex(&mut k, oid as u64, 8);
    proof {
        assert(k@ =~= marker_of(db, oid));
    }
    k
}

/// What stands behind the last slash.
pub open spec fn last_part(k: Seq<u8>) -> Seq<u8>
    decreases k.len(),
{
    if k.len() == 0 || k.last() == 47 {
        Seq::empty()
    } else {
        last_part(k.drop_last()).push(k.last())
    }
}

/// The number that hexadecimal digits of either case spell, if 64 bits hold it.
pub open spec fn digits_number(s: Seq<u8>) -> Option<nat>
    decreases s.len(),
{
    if s.len() == 0 {
        Some(0)
    } else {
        match (digits_number(s.drop_last()), nibble(s.last())) {
            (Some(v), Some(d)) => if 16 * v + d <= u64::MAX {
                Some(16 * v + d)
            } else {
                None
            },
            _ => None,
        }
    }
}

/// A number in hexadecimal: digits, with or without a plus sign before them.
pub open spec fn hex_number(s: Seq<u8>) -> Option<nat> {
    let digits = if s.len() > 0 && s[0] == 43 {
        s.skip(1)
    } else {
        s
    };
    if digits.len() == 0 {
        None
    } else {
        digits_number(digits)
    }
}

/// The row that a key is of.
pub open spec fn rowid_in(k: Seq<u8>) -> Option<nat> {
    if valid_utf8(k) {
        hex_number(last_part(k))
    } else {
        None
    }
}

proof fn lemma_digits_none(s: Seq<u8>, i: int)
    requires
        0 <= i <= s.len(),
        digits_number(s.take(i)) is None,
    ensures
        digits_number(s) is None,
    decreases s.len() - i,
{
    if i == s.len() {
        assert(s.take(i) =~= s);
    } else {
        assert(s.take(i + 1).drop_last() =~= s.take(i));
        lemma_digits_none(s, i + 1);
    }
}

proof fn lemma_last_part(k: Seq<u8>, n: int)
    requires
        0 <= n <= k.len(),
        n == 0 || k[n - 1] == 47,
        forall|i: int| n <= i < k.len() ==> #[trigger] k[i] != 47,
    ensures
        last_part(k) == k.skip(n),
    decreases k.len() - n,
{
    if n == k.len() {
        assert(k.skip(n) =~= Seq::empty());
    } else {
        let head = k.drop_last();
        assert(k[k.len() - 1] != 47);
        lemma_last_part(head, n);
        assert(head.skip(n).push(k.last()) =~= k.skip(n));
    }
}

fn parse_hex(s: &[u8]) -> (r: Option<u64>)
    ensures
        match r {
            Some(n) => hex_number(s@) == Some(n as nat),
            None => hex_number(s@) is None,
        },
{
    let from: usize = if s.len() > 0 && s[0] == 43 {
        1
    } else {
        0
    };
    let digits = slice_subrange(s, from, s.len());
    proof {
        if from == 1 {
            assert(digits@ =~= s@.skip(1));
        } else {
            assert(digits@ =~= s@);
        }
    }
    if digits.len() == 0 {
        return None;
    }
    let mut v: u64 = 0;
    let mut i: usize = 0;
    proof {
        assert(digits@.take(0) =~= Seq::empty());
    }
    while i < digits.len()
        invariant
            i <= digits@.len(),
            digits_number(digits@.take(i as int)) == Some(v as nat),
            hex_number(s@) == digits_number(digits@),
        decreases digits@.len() - i,
    {
        proof {
            assert(digits@.take(i + 1).drop_last() =~= digits@.take(i as int));
            assert(digits@.take(i + 1).last() == digits@[i as int]);
            if digits_number(digits@.take(i + 1)) is None {
                lemma_digits_none(digits@, i + 1);
            }
        }
        let b: u8 = digits[i];
        let d: u64 = if 48 <= b && b <= 57 {
            (b - 48) as u64
        } else if 97 <= b && b <= 102 {
            (b - 87) as u64
        } else if 65 <= b && b <= 70 {
            (b - 55) as u64
        } else {
            return None;
        };
        if v > 0x0fff_ffff_ffff_ffff {
            return None;
        }
        v = 16 * v + d;
        i += 1;
    }
    proof {
        assert(digits@.take(digits@.len() as int) =~= digits@);
    }
    Some(v)
}

/// The row that a key is of; nothing where it is no row's.
pub fn rowid_from_key(key: &[u8]) -> (r: Option<u64>)
    ensures
        match r {
            Some(n) => rowid_in(key@) == Some(n as nat),
            None => rowid_in(key@) is None,
        },
{
    if utf8(key).is_none() {
        return None;
    }
    let mut n: usize = key.len();
    while n > 0 && key[n - 1] != 47
        invariant
            n <= key@.len(),
            forall|i: int| n <= i < key@.len() ==> #[trigger] key@[i] != 47,
        decreases n,
    {
        n -= 1;
    }
    proof {
        lemma_last_part(key@, n as int);
    }
    let part = slice_subrange(key, n, key.len());
    proof {
        assert(part@ =~= key@.skip(n as int));
    }
    parse_hex(part)
}

proof fn lemma_hex_digits_number(x: nat, w: nat)
    requires
        x < hex_span(w),
        x <= u64::MAX,
    ensures
        digits_number(hex_digits(x, w)) == Some(x),
    decreases w,
{
    let s = hex_digits(x, w);
    if w > 0 {
        lemma_hex_digits_number(x / 16, (w - 1) as nat);
        assert(s.drop_last() =~= hex_digits(x / 16, (w - 1) as nat));
        assert(nibble(s.last()) == Some(x % 16));
    }
}

/// A row's key is made of ASCII characters.
proof fn lemma_key_is_ascii(db: u32, relid: u32, rowid: u64)
    ensures
        forall|i: int|
            0 <= i < key_of(db, relid, rowid).len() ==> #[trigger] key_of(db, relid, rowid)[i] < 128,
        key_of(db, relid, rowid).len() == 34,
        prefix_of(db, relid).len() == 18,
{
    let a = hex_digits(db as nat, 8);
    let b = hex_digits(relid as nat, 8);
    let c = hex_digits(rowid as nat, 16);
    lemma_hex_digits_len(db as nat, 8);
    lemma_hex_digits_len(relid as nat, 8);
    lemma_hex_digits_len(rowid as nat, 16);
    let k = key_of(db, relid, rowid);
    assert forall|i: int| 0 <= i < k.len() implies #[trigger] k[i] < 128 by {
        if i < 8 {
            assert(k[i] == a[i]);
            assert(hex_digit_value(a[i]) is Some);
        } else if 9 <= i < 17 {
            assert(k[i] == b[i - 9]);
            assert(hex_digit_value(b[i - 9]) is Some);
        } else if i >= 18 {
            assert(k[i] == c[i - 18]);
            assert(hex_digit_value(c[i - 18]) is Some);
        }
    }
}

/// ASCII bytes are valid UTF-8.
proof fn lemma_ascii_is_utf8(b: Seq<u8>)
    requires
        forall|i: int| 0 <= i < b.len() ==> #[trigger] b[i] < 128,
    ensures
        valid_utf8(b),
    decreases b.len(),
{
    if b.len() > 0 {
        let t = b.skip(1);
        assert forall|i: int| 0 <= i < t.len() implies #[trigger] t[i] < 128 by {
            assert(t[i] == b[i + 1]);
        }
        lemma_ascii_is_utf8(t);
        let x = b[0];
        assert(x < 128);
        assert(vstd::utf8::is_leading_byte_width_1(x));
        assert(vstd::utf8::valid_first_scalar(b));
        assert(vstd::utf8::pop_first_scalar(b) =~= t);
    }
}

/// A row's key gives the row back.
pub proof fn lemma_key_gives_row(db: u32, relid: u32, rowid: u64)
    ensures
        rowid_in(key_of(db, relid, rowid)) == Some(rowid as nat),
{
    let k = key_of(db, relid, rowid);
    let c = hex_digits(rowid as nat, 16);
    lemma_key_is_ascii(db, relid, rowid);
    lemma_ascii_is_utf8(k);
    lemma_hex_digits_len(rowid as nat, 16);
    lemma_hex_span_16();
    assert forall|i: int| 18 <= i < k.len() implies #[trigger] k[i] != 47 by {
        assert(k[i] == c[i - 18]);
        assert(hex_digit_value(c[i - 18]) is Some);
    }
    assert(k[17] == 47);
    lemma_last_part(k, 18);
    assert(k.skip(18) =~= c);
    assert(c[0] != 43) by {
        assert(hex_digit_value(c[0]) is Some);
    }
    lemma_hex_digits_number(rowid as nat, 16);
}

/// Rows of one table sort by their number.
pub proof fn lemma_rows_in_order(db: u32, relid: u32, a: u64, b: u64)
    ensures
        below(key_of(db, relid, a), key_of(db, relid, b)) == (a < b),
{
    lemma_hex_span_16();
    lemma_hex_order(a as nat, b as nat, 16);
    lemma_below_common_head(
        prefix_of(db, relid),
        hex_digits(a as nat, 16),
        hex_digits(b as nat, 16),
    );
}

/// A row's key begins as the keys of its own table do, and as those of no other table.
pub proof fn lemma_tables_are_apart(db: u32, relid: u32, rowid: u64, db2: u32, relid2: u32)
    ensures
        begins_with(key_of(db, relid, rowid), prefix_of(db2, relid2)) <==> db == db2 && relid
            == relid2,
{
    lemma_key_is_ascii(db, relid, rowid);
    lemma_key_is_ascii(db2, relid2, rowid);
    let k = key_of(db, relid, rowid);
    let p = prefix_of(db2, relid2);
    let own = prefix_of(db, relid);
    assert(k.take(18) =~= own);
    if begins_with(k, p) {
        assert(own == p);
        lemma_hex_digits_len(db as nat, 8);
        lemma_hex_digits_len(db2 as nat, 8);
        lemma_hex_digits_len(relid as nat, 8);
        lemma_hex_digits_len(relid2 as nat, 8);
        assert(own.take(8) =~= hex_digits(db as nat, 8));
        assert(p.take(8) =~= hex_digits(db2 as nat, 8));
        assert(own.subrange(9, 17) =~= hex_digits(relid as nat, 8));
        assert(p.subrange(9, 17) =~= hex_digits(relid2 as nat, 8));
        lemma_hex_span_16();
        lemma_hex_order(db as nat, db2 as nat, 8);
        lemma_hex_order(relid as nat, relid2 as nat, 8);
    }
}

/// The rows of a table lie between what their keys begin with and the bound above it.
pub proof fn lemma_rows_within(db: u32, relid: u32, rowid: u64)
    ensures
        at_most(prefix_of(db, relid), key_of(db, relid, rowid)),
        below(key_of(db, relid, rowid), prefix_of(db, relid).push(255)),
{
    let p = prefix_of(db, relid);
    let c = hex_digits(rowid as nat, 16);
    lemma_hex_digits_len(rowid as nat, 16);
    assert(p + Seq::<u8>::empty() =~= p);
    lemma_below_common_head(p, c, Seq::empty());
    assert(p.push(255) =~= p + seq![255u8]);
    lemma_below_common_head(p, c, seq![255u8]);
    assert(hex_digit_value(c[0]) is Some);
    assert(below(c, seq![255u8]));
}

/// How many rows a block has: as many as a page could hold.
pub const ROWS_PER_BLOCK: u64 = 291;

/// The last row that a tuple identifier can stand for.
pub const MAX_ROWID: u64 = 0xffff_ffff * 291 + 290;

/// A tuple identifier: a block and an offset in it, from 1.
#[derive(Clone, Copy, Debug, PartialEq, Eq, Structural)]
pub struct Tid {
    pub block: u32,
    pub offset: u16,
}

/// The tuple identifier that stands for a row.
pub fn tid_of(rowid: u64) -> (r: Tid)
    requires
        rowid <= MAX_ROWID,
    ensures
        r.block == rowid / ROWS_PER_BLOCK,
        r.offset == rowid % ROWS_PER_BLOCK + 1,
{
    Tid { block: (rowid / ROWS_PER_BLOCK) as u32, offset: (rowid % ROWS_PER_BLOCK + 1) as u16 }
}

/// The row that a tuple identifier stands for.
pub open spec fn row_of_tid(tid: Tid) -> nat {
    (tid.block * ROWS_PER_BLOCK + (if tid.offset == 0 {
        0
    } else {
        tid.offset - 1
    })) as nat
}

/// The row that a tuple identifier stands for.
pub fn rowid_of(tid: &Tid) -> (r: u64)
    ensures
        r == row_of_tid(*tid),
{
    let before: u64 = if tid.offset == 0 {
        0
    } else {
        (tid.offset - 1) as u64
    };
    tid.block as u64 * ROWS_PER_BLOCK + before
}

/// A row survives the trip through a tuple identifier.
pub proof fn lemma_tid_round_trip(rowid: u64, tid: Tid)
    requires
        rowid <= MAX_ROWID,
        tid.block == rowid / ROWS_PER_BLOCK,
        tid.offset == rowid % ROWS_PER_BLOCK + 1,
    ensures
        row_of_tid(tid) == rowid,
        tid.offset > 0,
{
}

/// The most bytes that the image of a row may have.
pub const MAX_ROW_BYTES: usize = 0x3fff_ffff;

/// The report of a row of `len` bytes that is too large.
pub open spec fn too_large(len: nat) -> ReportView {
    ReportView {
        message: "objkv: row size "@ + decimal(len) + " bytes exceeds maximum "@ + decimal(
            MAX_ROW_BYTES as nat,
        ),
        detail:
            "objkv has no TOAST table: every value is stored inline in its row, with out-of-line and compressed values flattened first."@,
        hint: "Store the large value in a heap table, or split it across rows."@,
        state: "54000"@,
    }
}

/// A row that is too large is refused, never cut.
pub fn row_image(image: &[u8]) -> (r: Result<Vec<u8>, Report>)
    ensures
        match r {
            Ok(v) => image@.len() <= MAX_ROW_BYTES && v@ == image@,
            Err(e) => image@.len() > MAX_ROW_BYTES && e@ == too_large(image@.len()),
        },
{
    if image.len() > MAX_ROW_BYTES {
        let mut message = "objkv: row size ".to_owned();
        push_dec(&mut message, image.len() as u64);
        message.append(" bytes exceeds maximum ");
        push_dec(&mut message, MAX_ROW_BYTES as u64);
        return Err(
            report(
                message,
                "objkv has no TOAST table: every value is stored inline in its row, with out-of-line and compressed values flattened first.".to_owned(),
                "Store the large value in a heap table, or split it across rows.",
                "54000",
            ),
        );
    }
    Ok(slice_to_vec(image))
}

/// Whether a value of variable length is out of line or compressed, by its first byte.
pub open spec fn out_of_line(first: u8) -> bool {
    first == 1 || first % 4 == 2
}

/// Whether a value of variable length is out of line or compressed, by its first byte. A value
/// with a short header is inline and stays as it is.
pub fn external_or_compressed(first: u8) -> (r: bool)
    ensures
        r == out_of_line(first),
{
    first == 1 || first % 4 == 2
}

/// How long a value of variable length is, by its header. Nothing where the tag of a value that
/// is out of line is not known.
pub open spec fn value_len(head: Seq<u8>) -> Option<nat> {
    if head[0] == 1 {
        if head[1] == 1 || head[1] == 2 || head[1] == 3 {
            Some(10)
        } else if head[1] == 18 {
            Some(18)
        } else {
            None
        }
    } else if head[0] % 2 == 1 {
        Some((head[0] / 2) as nat)
    } else {
        Some(native_at(head, 0, 4) / 4)
    }
}

/// How many bytes of a value its header takes, by the first byte.
pub open spec fn header_len(first: u8) -> nat {
    if first == 1 {
        2
    } else if first % 2 == 1 {
        1
    } else {
        4
    }
}

/// How long a value of variable length is, by its header.
pub fn varsize_any(head: &[u8]) -> (r: Option<usize>)
    requires
        head@.len() > 0,
        head@.len() >= header_len(head@[0]),
    ensures
        match r {
            Some(n) => value_len(head@) == Some(n as nat),
            None => value_len(head@) is None,
        },
{
    let b: u8 = head[0];
    if b == 1 {
        let tag: u8 = head[1];
        if tag == 1 || tag == 2 || tag == 3 {
            Some(10)
        } else if tag == 18 {
            Some(18)
        } else {
            None
        }
    } else if b % 2 == 1 {
        Some((b / 2) as usize)
    } else {
        Some((word_at(head, 0) / 4) as usize)
    }
}

/// Which column of a row.
#[derive(Clone, Copy)]
pub struct Column {
    /// Its length in bytes; -1 where it varies.
    pub length: i16,
    pub dropped: bool,
}

/// Whether the value in a column is flattened before the row is formed. `first` is the first
/// byte of the value.
pub fn is_flattened(column: Column, null: bool, first: u8) -> (r: bool)
    ensures
        r == (!null && !column.dropped && column.length == -1 && out_of_line(first)),
{
    !null && !column.dropped && column.length == -1 && external_or_compressed(first)
}

} // verus!
