//! Versioned keys: a row's key, a slash, and the version's sequence number written so
//! that newer versions sort first.
use crate::order::{below, lemma_below_common_head, same_bytes};
use crate::text::{
    all_hex, hex_digits, hex_value, lemma_hex_digits_len, lemma_hex_digits_value, lemma_hex_order,
    lemma_hex_span_16, lemma_hex_value_digits, put_hex, read_hex,
};
use vstd::prelude::*;
use vstd::slice::slice_subrange;

verus! {

/// The snapshot that sees every version.
pub const LATEST: u64 = 0xffff_ffff_ffff_ffff;

const SLASH: u8 = 47;

/// The key under which version `seq` of `row` is stored.
pub open spec fn versioned_key(row: Seq<u8>, seq: u64) -> Seq<u8> {
    row + (seq![47u8] + hex_digits((LATEST - seq) as nat, 16))
}

/// `k` ends in a version suffix.
pub open spec fn is_versioned(k: Seq<u8>) -> bool {
    k.len() >= 17 && k[k.len() - 17] == 47 && all_hex(k.skip(k.len() - 16))
}

/// The row of a versioned key, and the key itself where it carries no version.
pub open spec fn row_part(k: Seq<u8>) -> Seq<u8> {
    if is_versioned(k) {
        k.take(k.len() - 17)
    } else {
        k
    }
}

/// The sequence number of a versioned key.
pub open spec fn seq_part(k: Seq<u8>) -> Option<u64> {
    if is_versioned(k) {
        Some((LATEST - hex_value(k.skip(k.len() - 16))) as u64)
    } else {
        None
    }
}

/// A versioned key gives back the row and the sequence number it was made from.
pub proof fn lemma_versioned_parts(row: Seq<u8>, seq: u64)
    ensures
        is_versioned(versioned_key(row, seq)),
        row_part(versioned_key(row, seq)) == row,
        seq_part(versioned_key(row, seq)) == Some(seq),
{
    let d = hex_digits((LATEST - seq) as nat, 16);
    let k = versioned_key(row, seq);
    lemma_hex_digits_len((LATEST - seq) as nat, 16);
    lemma_hex_span_16();
    lemma_hex_value_digits((LATEST - seq) as nat, 16);
    assert(k.skip(k.len() - 16) =~= d);
    assert(k.take(k.len() - 17) =~= row);
}

/// Every key with a version suffix is the key of its own row and sequence number.
pub proof fn lemma_parts_versioned(k: Seq<u8>)
    requires
        is_versioned(k),
    ensures
        seq_part(k) matches Some(s) && versioned_key(row_part(k), s) == k,
{
    let d = k.skip(k.len() - 16);
    lemma_hex_digits_value(d);
    lemma_hex_span_16();
    let s = seq_part(k).unwrap();
    assert((LATEST - s) as nat == hex_value(d));
    assert(versioned_key(row_part(k), s) =~= k);
}

/// Of two versions of one row, the newer sorts first.
pub proof fn lemma_newest_first(row: Seq<u8>, s: u64, t: u64)
    ensures
        below(versioned_key(row, s), versioned_key(row, t)) == (s > t),
        (versioned_key(row, s) == versioned_key(row, t)) == (s == t),
{
    let a = hex_digits((LATEST - s) as nat, 16);
    let b = hex_digits((LATEST - t) as nat, 16);
    lemma_hex_span_16();
    lemma_hex_order((LATEST - s) as nat, (LATEST - t) as nat, 16);
    lemma_below_common_head(row, seq![47u8] + a, seq![47u8] + b);
    lemma_below_common_head(seq![47u8], a, b);
    lemma_versioned_parts(row, s);
    lemma_versioned_parts(row, t);
}

/// The key of version `seq` of `row`.
pub fn versioned(row: &[u8], seq: u64) -> (k: Vec<u8>)
    ensures
        k@ == versioned_key(row@, seq),
{
    let mut k: Vec<u8> = Vec::new();
    k.extend_from_slice(row);
    k.push(SLASH);
    put_hex(&mut k, LATEST - seq, 16);
    proof {
        assert(k@ =~= versioned_key(row@, seq));
    }
    k
}

fn has_version(k: &[u8]) -> (r: Option<u64>)
    ensures
        match r {
            Some(v) => is_versioned(k@) && v as nat == hex_value(k@.skip(k@.len() - 16)),
            None => !is_versioned(k@),
        },
{
    let n: usize = k.len();
    if n < 17 || k[n - 17] != SLASH {
        return None;
    }
    let tail = slice_subrange(k, n - 16, n);
    proof {
        assert(tail@ =~= k@.skip(k@.len() - 16));
    }
    read_hex(tail)
}

/// The row a versioned key belongs to, or nothing where the key carries no version.
pub fn row_of(k: &[u8]) -> (r: Option<&[u8]>)
    ensures
        match r {
            Some(row) => is_versioned(k@) && row@ == row_part(k@),
            None => !is_versioned(k@),
        },
{
    match has_version(k) {
        Some(_) => {
            let row = slice_subrange(k, 0, k.len() - 17);
            proof {
                assert(row@ =~= k@.take(k@.len() - 17));
            }
            Some(row)
        },
        None => None,
    }
}

/// The row a key belongs to, the whole key where it carries no version.
pub fn row_or_key(k: &[u8]) -> (r: &[u8])
    ensures
        r@ == row_part(k@),
{
    match row_of(k) {
        Some(row) => row,
        None => k,
    }
}

/// The sequence number of a versioned key.
pub fn seq_of(k: &[u8]) -> (r: Option<u64>)
    ensures
        r == seq_part(k@),
{
    match has_version(k) {
        Some(v) => Some(LATEST - v),
        None => None,
    }
}

/// Where the version of `row` live at `snapshot` would be, were it written at `snapshot`.
pub fn seek_at(row: &[u8], snapshot: u64) -> (k: Vec<u8>)
    ensures
        k@ == versioned_key(row@, snapshot),
{
    versioned(row, snapshot)
}

/// `k` is a version of `row`.
pub open spec fn is_version_of(k: Seq<u8>, row: Seq<u8>) -> bool {
    is_versioned(k) && row_part(k) == row
}

pub fn belongs_to(k: &[u8], row: &[u8]) -> (r: bool)
    ensures
        r == is_version_of(k@, row@),
{
    match row_of(k) {
        Some(own) => same_bytes(own, row),
        None => false,
    }
}

} // verus!
