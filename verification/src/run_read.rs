//! Reading the parts of a run back from bytes that are not to be trusted.
use crate::codec::{from_le, get_u32, get_u32_checked, get_u64};
use crate::commit::{entries_view, Entry, EntryView, Op};
use crate::bloom::Bloom;
use crate::key::{belongs_to, is_version_of, seek_at, versioned_key};
use crate::order::{below, is_below};
use crate::run_format::{
    index_view, IndexEntry, IndexView, RunError, Trailer, BLOCK_CRC_LEN, MAGIC, MAGIC_V2,
    TRAILER_CRC_AT, TRAILER_LEN,
};
use crate::sums::{crc, crc32c_of};
use vstd::prelude::*;
use vstd::slice::{slice_subrange, slice_to_vec};

verus! {

/// The number in `w` bytes of `s` at `at`.
pub open spec fn num_at(s: Seq<u8>, at: int, w: int) -> nat {
    from_le(s.subrange(at, at + w))
}

/// The fields spelled by a trailer of full length.
pub open spec fn trailer_fields(t: Seq<u8>) -> Trailer {
    Trailer {
        bloom_off: num_at(t, 0, 8) as u64,
        bloom_len: num_at(t, 8, 4) as u32,
        index_off: num_at(t, 12, 8) as u64,
        index_len: num_at(t, 20, 4) as u32,
        block_count: num_at(t, 24, 4) as u32,
        entry_count: num_at(t, 28, 8) as u64,
        horizon: num_at(t, 36, 8) as u64,
        meta_crc: num_at(t, 44, 4) as u32,
    }
}

/// What the last bytes `t` of an object of `size` bytes say, or why they are refused.
pub open spec fn read_trailer(size: u64, t: Seq<u8>) -> Result<Trailer, RunError> {
    if t.len() != TRAILER_LEN {
        Err(RunError::ShortTrailer)
    } else if num_at(t, 52, 4) == MAGIC_V2 {
        Err(RunError::OldFormat)
    } else if num_at(t, 52, 4) != MAGIC {
        Err(RunError::BadMagic)
    } else if num_at(t, 48, 4) != crc32c_of(t.take(48)) {
        Err(RunError::TrailerChecksum)
    } else {
        let f = trailer_fields(t);
        if f.bloom_off + f.bloom_len == f.index_off && f.index_off + f.index_len <= size
            - TRAILER_LEN {
            Ok(f)
        } else {
            Err(RunError::NotContiguous)
        }
    }
}

/// Reads the trailer of an object of `size` bytes.
pub fn parse_trailer(size: u64, t: &[u8]) -> (r: Result<Trailer, RunError>)
    requires
        size >= TRAILER_LEN,
    ensures
        r == read_trailer(size, t@),
{
    if t.len() != TRAILER_LEN as usize {
        return Err(RunError::ShortTrailer);
    }
    let magic: u32 = get_u32(t, 52);
    if magic == MAGIC_V2 {
        return Err(RunError::OldFormat);
    }
    if magic != MAGIC {
        return Err(RunError::BadMagic);
    }
    let covered = slice_subrange(t, 0, TRAILER_CRC_AT);
    proof {
        assert(covered@ =~= t@.take(48));
    }
    if get_u32(t, TRAILER_CRC_AT) != crc(covered) {
        return Err(RunError::TrailerChecksum);
    }
    let f = Trailer {
        bloom_off: get_u64(t, 0),
        bloom_len: get_u32(t, 8),
        index_off: get_u64(t, 12),
        index_len: get_u32(t, 20),
        block_count: get_u32(t, 24),
        entry_count: get_u64(t, 28),
        horizon: get_u64(t, 36),
        meta_crc: get_u32(t, 44),
    };
    let adjacent: bool = match f.bloom_off.checked_add(f.bloom_len as u64) {
        Some(end) => end == f.index_off,
        None => false,
    };
    let inside: bool = match f.index_off.checked_add(f.index_len as u64) {
        Some(end) => end <= size - TRAILER_LEN,
        None => false,
    };
    if !adjacent || !inside {
        return Err(RunError::NotContiguous);
    }
    Ok(f)
}

/// The index entries from `p` on, or nothing where one of them is cut short.
pub open spec fn read_index(s: Seq<u8>, p: int) -> Option<Seq<IndexView>>
    decreases s.len() - p,
{
    if p < 0 || p >= s.len() {
        Some(Seq::empty())
    } else if p + 4 > s.len() {
        None
    } else {
        let klen = num_at(s, p, 4);
        if p + 16 + klen > s.len() {
            None
        } else {
            let e = (
                s.subrange(p + 4, p + 4 + klen),
                num_at(s, p + 4 + klen, 8) as u64,
                num_at(s, p + 12 + klen, 4) as u32,
            );
            match read_index(s, p + 16 + klen) {
                Some(rest) => Some(seq![e] + rest),
                None => None,
            }
        }
    }
}

fn parse_index(s: &[u8]) -> (r: Option<Vec<IndexEntry>>)
    ensures
        match r {
            Some(ix) => read_index(s@, 0) == Some(index_view(ix@)),
            None => read_index(s@, 0) is None,
        },
{
    let mut ix: Vec<IndexEntry> = Vec::new();
    let mut p: usize = 0;
    let n: usize = s.len();
    proof {
        assert(index_view(ix@) =~= Seq::empty());
        if read_index(s@, 0) is Some {
            assert(index_view(ix@) + read_index(s@, 0).unwrap() =~= read_index(s@, 0).unwrap());
        }
    }
    while p < n
        invariant
            p <= n == s@.len(),
            match read_index(s@, p as int) {
                Some(rest) => read_index(s@, 0) == Some(index_view(ix@) + rest),
                None => read_index(s@, 0) is None,
            },
        decreases n - p,
    {
        let klen: usize = match get_u32_checked(s, p) {
            Some(v) => v as usize,
            None => {
                return None;
            },
        };
        if n - p < 16 || klen > n - p - 16 {
            return None;
        }
        let key: Vec<u8> = slice_to_vec(slice_subrange(s, p + 4, p + 4 + klen));
        let off: u64 = get_u64(s, p + 4 + klen);
        let len: u32 = get_u32(s, p + 12 + klen);
        let ghost was = index_view(ix@);
        let ghost e = (key@, off, len);
        ix.push((key, off, len));
        proof {
            assert(index_view(ix@) =~= was.push(e));
            match read_index(s@, p + 16 + klen) {
                Some(rest) => {
                    assert(read_index(s@, p as int) == Some(seq![e] + rest));
                    assert(was + (seq![e] + rest) =~= index_view(ix@) + rest);
                },
                None => {},
            }
        }
        p = p + 16 + klen;
    }
    proof {
        assert(index_view(ix@) + Seq::<IndexView>::empty() =~= index_view(ix@));
    }
    Some(ix)
}

/// The filter and the index of a run, parsed from wherever its bytes are.
pub struct Meta {
    pub bloom: Bloom,
    /// First key, offset and length of each block, ascending by first key.
    pub index: Vec<IndexEntry>,
    pub entry_count: u64,
    pub horizon: u64,
}

pub struct MetaView {
    pub bloom: Seq<u8>,
    pub index: Seq<IndexView>,
    pub entry_count: u64,
    pub horizon: u64,
}

impl View for Meta {
    type V = MetaView;

    open spec fn view(&self) -> MetaView {
        MetaView {
            bloom: self.bloom@,
            index: index_view(self.index@),
            entry_count: self.entry_count,
            horizon: self.horizon,
        }
    }
}

/// What the metadata bytes `m` say under the trailer `t`, or why they are refused.
pub open spec fn read_meta_bytes(t: Trailer, m: Seq<u8>) -> Result<MetaView, RunError> {
    if m.len() != t.bloom_len + t.index_len {
        Err(RunError::ShortMeta)
    } else if t.meta_crc != crc32c_of(m) {
        Err(RunError::MetaChecksum)
    } else {
        match read_index(m.skip(t.bloom_len as int), 0) {
            None => Err(RunError::IndexTruncated),
            Some(ix) => if ix.len() != t.block_count {
                Err(RunError::BlockCount)
            } else {
                Ok(
                    MetaView {
                        bloom: m.take(t.bloom_len as int),
                        index: ix,
                        entry_count: t.entry_count,
                        horizon: t.horizon,
                    },
                )
            },
        }
    }
}

/// A result with its value taken by its view.
pub open spec fn meta_result(r: Result<Meta, RunError>) -> Result<MetaView, RunError> {
    match r {
        Ok(m) => Ok(m@),
        Err(e) => Err(e),
    }
}

/// Reads the filter and the index.
pub fn parse_meta(t: &Trailer, m: &[u8]) -> (r: Result<Meta, RunError>)
    ensures
        meta_result(r) == read_meta_bytes(*t, m@),
{
    if m.len() as u64 != t.bloom_len as u64 + t.index_len as u64 {
        return Err(RunError::ShortMeta);
    }
    if t.meta_crc != crc(m) {
        return Err(RunError::MetaChecksum);
    }
    let cut: usize = t.bloom_len as usize;
    let bloom = Bloom::from_bytes(slice_to_vec(slice_subrange(m, 0, cut)));
    let tail = slice_subrange(m, cut, m.len());
    proof {
        assert(m@.subrange(0, cut as int) =~= m@.take(cut as int));
        assert(tail@ =~= m@.skip(cut as int));
    }
    match parse_index(tail) {
        None => Err(RunError::IndexTruncated),
        Some(index) => {
            proof {
                assert(index_view(index@).len() == index@.len());
            }
            if index.len() as u64 != t.block_count as u64 {
                return Err(RunError::BlockCount);
            }
            Ok(Meta { bloom, index, entry_count: t.entry_count, horizon: t.horizon })
        },
    }
}

/// A block without the checksum it ends in, or why it is refused.
pub open spec fn unseal(raw: Seq<u8>) -> Result<Seq<u8>, RunError> {
    if raw.len() < 4 {
        Err(RunError::BlockTooShort)
    } else if num_at(raw, raw.len() - 4, 4) != crc32c_of(raw.take(raw.len() - 4)) {
        Err(RunError::BlockChecksum)
    } else {
        Ok(raw.take(raw.len() - 4))
    }
}

pub open spec fn bytes_result(r: Result<Vec<u8>, RunError>) -> Result<Seq<u8>, RunError> {
    match r {
        Ok(b) => Ok(b@),
        Err(e) => Err(e),
    }
}

/// A block as fetched, checked against the checksum it ends in, and handed on without it.
/// A short ranged read, a truncated upload or a flipped bit all end here as an error,
/// never as an entry that is not found.
pub fn verify_block(raw: Vec<u8>) -> (r: Result<Vec<u8>, RunError>)
    ensures
        bytes_result(r) == unseal(raw@),
{
    let mut raw = raw;
    if raw.len() < BLOCK_CRC_LEN {
        return Err(RunError::BlockTooShort);
    }
    let body_len: usize = raw.len() - BLOCK_CRC_LEN;
    let want: u32 = get_u32(raw.as_slice(), body_len);
    let body = slice_subrange(raw.as_slice(), 0, body_len);
    proof {
        assert(body@ =~= raw@.take(raw@.len() - 4));
    }
    if want != crc(body) {
        return Err(RunError::BlockChecksum);
    }
    let ghost whole = raw@;
    raw.truncate(body_len);
    proof {
        assert(raw@ =~= whole.take(whole.len() - 4));
    }
    Ok(raw)
}

/// One encoded entry at `p`: its content, and where the next one starts. Nothing where it
/// reaches past the end.
pub open spec fn read_entry(b: Seq<u8>, p: int) -> Option<(EntryView, int)> {
    if p + 4 > b.len() {
        None
    } else {
        let klen = num_at(b, p, 4);
        let q = p + 4 + klen;
        if q + 5 > b.len() {
            None
        } else {
            let vlen = num_at(b, q + 1, 4);
            if q + 5 + vlen > b.len() {
                None
            } else {
                Some(
                    (
                        (
                            b.subrange(p + 4, q),
                            if b[q] == 0 {
                                Some(b.subrange(q + 5, q + 5 + vlen))
                            } else {
                                None
                            },
                        ),
                        q + 5 + vlen,
                    ),
                )
            }
        }
    }
}

/// The entries of a block from `p` on. Fewer than four bytes at the end are passed over.
pub open spec fn read_entries(b: Seq<u8>, p: int) -> Result<Seq<EntryView>, RunError>
    decreases b.len() - p,
{
    if p + 4 <= b.len() {
        match read_entry(b, p) {
            None => Err(RunError::BlockTruncated),
            Some((e, next)) => match read_entries(b, next) {
                Err(err) => Err(err),
                Ok(rest) => Ok(seq![e] + rest),
            },
        }
    } else {
        Ok(Seq::empty())
    }
}

/// The first version of `row` at or below `snapshot` from `p` on, if any. Keys of other rows may
/// sort among its versions; they are passed over, up to where its oldest version would be.
pub open spec fn seek_version(b: Seq<u8>, row: Seq<u8>, snapshot: u64, p: int) -> Result<
    Option<EntryView>,
    RunError,
>
    decreases b.len() - p,
{
    if p + 4 <= b.len() {
        match read_entry(b, p) {
            None => Err(RunError::BlockTruncated),
            Some((e, next)) => if below(versioned_key(row, 0), e.0) {
                Ok(None)
            } else if !below(e.0, versioned_key(row, snapshot)) && is_version_of(e.0, row) {
                Ok(Some(e))
            } else {
                seek_version(b, row, snapshot, next)
            },
        }
    } else {
        Ok(None)
    }
}

/// Where the parts of an entry lie in its block.
struct EntryParts {
    key_at: usize,
    key_end: usize,
    put: bool,
    value_at: usize,
    next: usize,
}

/// One encoded entry at `p`.
///
/// Bounds are checked at every step, checksum or no checksum: length fields may disagree
/// with the buffer they came in.
fn entry_at(b: &[u8], p: usize) -> (r: Option<EntryParts>)
    requires
        p <= b@.len(),
    ensures
        match r {
            Some(e) => {
                &&& p < e.next
                &&& e.key_at <= e.key_end <= e.value_at <= e.next <= b@.len()
                &&& read_entry(b@, p as int) == Some(
                    (
                        (
                            b@.subrange(e.key_at as int, e.key_end as int),
                            if e.put {
                                Some(b@.subrange(e.value_at as int, e.next as int))
                            } else {
                                None
                            },
                        ),
                        e.next as int,
                    ),
                )
            },
            None => read_entry(b@, p as int) is None,
        },
{
    let n: usize = b.len();
    if n - p < 4 {
        return None;
    }
    let klen: usize = get_u32(b, p) as usize;
    if n - p < 9 || klen > n - p - 9 {
        return None;
    }
    let q: usize = p + 4 + klen;
    let vlen: usize = get_u32(b, q + 1) as usize;
    if vlen > n - q - 5 {
        return None;
    }
    Some(
        EntryParts {
            key_at: p + 4,
            key_end: q,
            put: b[q] == 0,
            value_at: q + 5,
            next: q + 5 + vlen,
        },
    )
}

fn take_entry(b: &[u8], e: &EntryParts) -> (r: Entry)
    requires
        e.key_at <= e.key_end <= e.value_at <= e.next <= b@.len(),
    ensures
        r.0@ == b@.subrange(e.key_at as int, e.key_end as int),
        r.1@ == (if e.put {
            Some(b@.subrange(e.value_at as int, e.next as int))
        } else {
            None
        }),
{
    let key: Vec<u8> = slice_to_vec(slice_subrange(b, e.key_at, e.key_end));
    if e.put {
        (key, Op::Put(slice_to_vec(slice_subrange(b, e.value_at, e.next))))
    } else {
        (key, Op::Delete)
    }
}

pub open spec fn entries_result(r: Result<Vec<Entry>, RunError>) -> Result<
    Seq<EntryView>,
    RunError,
> {
    match r {
        Ok(es) => Ok(entries_view(es@)),
        Err(e) => Err(e),
    }
}

pub open spec fn entry_result(r: Result<Option<Entry>, RunError>) -> Result<
    Option<EntryView>,
    RunError,
> {
    match r {
        Ok(Some(e)) => Ok(Some((e.0@, e.1@))),
        Ok(None) => Ok(None),
        Err(e) => Err(e),
    }
}

/// Every entry in one verified block, in the order they stand there.
pub fn decode_block(b: &[u8]) -> (r: Result<Vec<Entry>, RunError>)
    ensures
        entries_result(r) == read_entries(b@, 0),
{
    let mut out: Vec<Entry> = Vec::new();
    let mut p: usize = 0;
    let n: usize = b.len();
    proof {
        assert(entries_view(out@) =~= Seq::empty());
        match read_entries(b@, 0) {
            Ok(rest) => {
                assert(entries_view(out@) + rest =~= rest);
            },
            Err(_) => {},
        }
    }
    while n - p >= 4
        invariant
            p <= n == b@.len(),
            match read_entries(b@, p as int) {
                Ok(rest) => read_entries(b@, 0) == Ok::<Seq<EntryView>, RunError>(
                    entries_view(out@) + rest,
                ),
                Err(e) => read_entries(b@, 0) == Err::<Seq<EntryView>, RunError>(e),
            },
        decreases n - p,
    {
        match entry_at(b, p) {
            None => {
                return Err(RunError::BlockTruncated);
            },
            Some(e) => {
                let ghost was = entries_view(out@);
                let got = take_entry(b, &e);
                let ghost v = (got.0@, got.1@);
                out.push(got);
                proof {
                    assert(entries_view(out@) =~= was.push(v));
                    match read_entries(b@, e.next as int) {
                        Ok(rest) => {
                            assert(was + (seq![v] + rest) =~= entries_view(out@) + rest);
                        },
                        Err(_) => {},
                    }
                }
                p = e.next;
            },
        }
    }
    proof {
        assert(entries_view(out@) + Seq::<EntryView>::empty() =~= entries_view(out@));
    }
    Ok(out)
}

/// The first version of `row` at or below `snapshot` within one block, if any.
pub fn seek_block(b: &[u8], row: &[u8], snapshot: u64) -> (r: Result<Option<Entry>, RunError>)
    ensures
        entry_result(r) == seek_version(b@, row@, snapshot, 0),
{
    let probe = seek_at(row, snapshot);
    let oldest = seek_at(row, 0);
    let mut p: usize = 0;
    let n: usize = b.len();
    while n - p >= 4
        invariant
            p <= n == b@.len(),
            probe@ == versioned_key(row@, snapshot),
            oldest@ == versioned_key(row@, 0),
            seek_version(b@, row@, snapshot, p as int) == seek_version(b@, row@, snapshot, 0),
        decreases n - p,
    {
        match entry_at(b, p) {
            None => {
                return Err(RunError::BlockTruncated);
            },
            Some(e) => {
                let k = slice_subrange(b, e.key_at, e.key_end);
                if is_below(oldest.as_slice(), k) {
                    return Ok(None);
                }
                if !is_below(k, probe.as_slice()) && belongs_to(k, row) {
                    return Ok(Some(take_entry(b, &e)));
                }
                p = e.next;
            },
        }
    }
    Ok(None)
}

} // verus!
