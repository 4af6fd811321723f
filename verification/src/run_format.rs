//! The layout of a sorted run.
//!
//! ```text
//! [block 0][block 1]...[bloom][index][trailer]
//! ```
//!
//! A block is about 64KB of sorted entries followed by a CRC-32C of them. The index
//! holds each block's first key. The filter and the index are adjacent, so one ranged
//! read fetches both, and every byte a reader trusts is covered by a checksum.
use crate::bloom::{filter_of, lemma_filter_len, Bloom};
use crate::codec::{le, put_u32, put_u64};
use crate::commit::{entries_view, Entry, EntryView, Op};
use crate::key::{row_or_key, row_part};
use crate::sums::{crc, crc32c_of};
use vstd::prelude::*;
use vstd::slice::{slice_subrange, slice_to_vec};

verus! {

/// Marks a run whose blocks and trailer carry checksums.
pub const MAGIC: u32 = 0x4f4b_5233;

/// Marks a run of the format before, which is refused by name.
pub const MAGIC_V2: u32 = 0x4f4b_5232;

/// bloom_off u64, bloom_len u32, index_off u64, index_len u32, block_count u32,
/// entry_count u64, horizon u64, meta_crc u32, trailer_crc u32, magic u32.
pub const TRAILER_LEN: u64 = 56;

/// The bytes of the trailer that its checksum covers: everything before it.
pub const TRAILER_CRC_AT: usize = 48;

/// Every block ends in a checksum of the bytes before it.
pub const BLOCK_CRC_LEN: usize = 4;

/// A block is closed by the entry that takes it to this length.
pub const TARGET_BLOCK_BYTES: usize = 65536;

/// Where a block starts, and how long it is with its checksum.
pub type IndexEntry = (Vec<u8>, u64, u32);

pub type IndexView = (Seq<u8>, u64, u32);

pub open spec fn index_view(ix: Seq<IndexEntry>) -> Seq<IndexView> {
    Seq::new(ix.len(), |i: int| (ix[i].0@, ix[i].1, ix[i].2))
}

/// Why a run could not be read.
#[derive(Clone, Debug, PartialEq, Eq)]
pub enum RunError {
    PastEnd,
    TooSmall,
    ShortTrailer,
    OldFormat,
    BadMagic,
    TrailerChecksum,
    NotContiguous,
    ShortMeta,
    MetaChecksum,
    IndexTruncated,
    BlockCount,
    BlockTooShort,
    BlockChecksum,
    BlockTruncated,
    SizeMismatch,
    /// The source itself failed, in this way.
    Source(RunErrorKind, String),
}

/// The broad kind of a failure.
#[derive(Clone, Copy, Debug, PartialEq, Eq, Structural)]
pub enum RunErrorKind {
    NotFound,
    PermissionDenied,
    ConnectionRefused,
    ConnectionReset,
    TimedOut,
    Interrupted,
    UnexpectedEof,
    InvalidData,
    Other,
}

impl RunError {
    /// Bytes that arrived damaged are told apart from every other failure of the run's own. A
    /// failure of the source keeps its kind.
    pub open spec fn kind_of(self) -> RunErrorKind {
        match self {
            RunError::BlockTooShort => RunErrorKind::InvalidData,
            RunError::BlockChecksum => RunErrorKind::InvalidData,
            RunError::BlockTruncated => RunErrorKind::InvalidData,
            RunError::Source(k, _) => k,
            _ => RunErrorKind::Other,
        }
    }

    pub fn kind(&self) -> (r: RunErrorKind)
        ensures
            r == self.kind_of(),
    {
        match self {
            RunError::BlockTooShort | RunError::BlockChecksum | RunError::BlockTruncated => {
                RunErrorKind::InvalidData
            },
            RunError::Source(k, _) => *k,
            _ => RunErrorKind::Other,
        }
    }

    pub open spec fn text(self) -> Seq<char> {
        match self {
            RunError::PastEnd => "range past end of object"@,
            RunError::TooSmall => "object too small to be a run"@,
            RunError::ShortTrailer => "short read of the run trailer"@,
            RunError::OldFormat => "run is in format 2 (OKR2), which this objkv does not read: it reads format 3 only, whose blocks and trailer carry checksums. A bucket written by an older objkv must be migrated, not opened"@,
            RunError::BadMagic => "bad run magic"@,
            RunError::TrailerChecksum => "run trailer checksum mismatch"@,
            RunError::NotContiguous => "run metadata is not contiguous"@,
            RunError::ShortMeta => "short read of the run metadata"@,
            RunError::MetaChecksum => "run metadata checksum mismatch"@,
            RunError::IndexTruncated => "run index is truncated"@,
            RunError::BlockCount => "run index does not hold the number of blocks the trailer declares"@,
            RunError::BlockTooShort => "objkv: run block shorter than its checksum"@,
            RunError::BlockChecksum => "objkv: run block checksum mismatch"@,
            RunError::BlockTruncated => "objkv: truncated run block"@,
            RunError::SizeMismatch => "run bytes do not match the object size"@,
            RunError::Source(_, s) => s@,
        }
    }

    /// The failure in words.
    pub fn message(&self) -> (r: String)
        ensures
            r@ == self.text(),
    {
        match self {
            RunError::PastEnd => "range past end of object".to_owned(),
            RunError::TooSmall => "object too small to be a run".to_owned(),
            RunError::ShortTrailer => "short read of the run trailer".to_owned(),
            RunError::OldFormat => "run is in format 2 (OKR2), which this objkv does not read: it reads format 3 only, whose blocks and trailer carry checksums. A bucket written by an older objkv must be migrated, not opened".to_owned(),
            RunError::BadMagic => "bad run magic".to_owned(),
            RunError::TrailerChecksum => "run trailer checksum mismatch".to_owned(),
            RunError::NotContiguous => "run metadata is not contiguous".to_owned(),
            RunError::ShortMeta => "short read of the run metadata".to_owned(),
            RunError::MetaChecksum => "run metadata checksum mismatch".to_owned(),
            RunError::IndexTruncated => "run index is truncated".to_owned(),
            RunError::BlockCount => "run index does not hold the number of blocks the trailer declares".to_owned(),
            RunError::BlockTooShort => "objkv: run block shorter than its checksum".to_owned(),
            RunError::BlockChecksum => "objkv: run block checksum mismatch".to_owned(),
            RunError::BlockTruncated => "objkv: truncated run block".to_owned(),
            RunError::SizeMismatch => "run bytes do not match the object size".to_owned(),
            RunError::Source(_, s) => s.clone(),
        }
    }
}

/// A length as a four-byte field holds it.
pub open spec fn low32(n: nat) -> nat {
    n % 0x1_0000_0000
}

fn len32(n: usize) -> (r: u32)
    ensures
        r == low32(n as nat),
{
    (n as u64 % 0x1_0000_0000) as u32
}

/// One entry: key length, key, tag, value length, value.
pub open spec fn entry_bytes(e: EntryView) -> Seq<u8> {
    le(low32(e.0.len()), 4) + e.0 + match e.1 {
        Some(v) => seq![0u8] + le(low32(v.len()), 4) + v,
        None => seq![1u8] + le(0, 4),
    }
}

/// Entries one after another.
pub open spec fn encode(es: Seq<EntryView>) -> Seq<u8>
    decreases es.len(),
{
    if es.len() == 0 {
        Seq::empty()
    } else {
        encode(es.drop_last()) + entry_bytes(es.last())
    }
}

/// Bytes with their checksum behind them.
pub open spec fn sealed(body: Seq<u8>) -> Seq<u8> {
    body + le(crc32c_of(body) as nat, 4)
}

/// Where the block that starts at entry `i` and already holds the entries up to `j` ends.
pub open spec fn block_stop(es: Seq<EntryView>, i: int, j: int) -> int
    decreases es.len() - j,
{
    if 0 <= i <= j < es.len() && encode(es.subrange(i, j)).len() < TARGET_BLOCK_BYTES {
        block_stop(es, i, j + 1)
    } else {
        j
    }
}

/// The end of the block that starts at entry `i`.
pub open spec fn block_end(es: Seq<EntryView>, i: int) -> int {
    block_stop(es, i, i)
}

/// Where a block stops.
pub proof fn lemma_block_stop(es: Seq<EntryView>, i: int, j: int)
    requires
        0 <= i <= j <= es.len(),
    ensures
        j <= block_stop(es, i, j) <= es.len(),
    decreases es.len() - j,
{
    if j < es.len() && encode(es.subrange(i, j)).len() < TARGET_BLOCK_BYTES {
        lemma_block_stop(es, i, j + 1);
    }
}

/// Where a block ends.
pub proof fn lemma_block_end(es: Seq<EntryView>, i: int)
    requires
        0 <= i < es.len(),
    ensures
        i < block_end(es, i) <= es.len(),
{
    assert(es.subrange(i, i) =~= Seq::empty());
    assert(encode(es.subrange(i, i)).len() == 0);
    lemma_block_stop(es, i, i + 1);
}

/// The block that starts at entry `i`.
pub open spec fn block_from(es: Seq<EntryView>, i: int) -> Seq<u8> {
    sealed(encode(es.subrange(i, block_end(es, i))))
}

/// The blocks from entry `i` on.
pub open spec fn blocks_from(es: Seq<EntryView>, i: int) -> Seq<u8>
    decreases es.len() - i,
{
    if 0 <= i < es.len() {
        proof {
            lemma_block_end(es, i);
        }
        block_from(es, i) + blocks_from(es, block_end(es, i))
    } else {
        Seq::empty()
    }
}

/// What the index says of the blocks from entry `i` on, the first of them at offset `off`.
pub open spec fn index_from(es: Seq<EntryView>, i: int, off: nat) -> Seq<IndexView>
    decreases es.len() - i,
{
    if 0 <= i < es.len() {
        proof {
            lemma_block_end(es, i);
        }
        seq![(es[i].0, off as u64, low32(block_from(es, i).len()) as u32)] + index_from(
            es,
            block_end(es, i),
            off + block_from(es, i).len(),
        )
    } else {
        Seq::empty()
    }
}

/// One block's place in the index: key length, first key, offset, length.
pub open spec fn index_entry_bytes(e: IndexView) -> Seq<u8> {
    le(low32(e.0.len()), 4) + e.0 + le(e.1 as nat, 8) + le(e.2 as nat, 4)
}

pub open spec fn index_bytes(ix: Seq<IndexView>) -> Seq<u8>
    decreases ix.len(),
{
    if ix.len() == 0 {
        Seq::empty()
    } else {
        index_bytes(ix.drop_last()) + index_entry_bytes(ix.last())
    }
}

/// The fields of the trailer.
pub struct Trailer {
    pub bloom_off: u64,
    pub bloom_len: u32,
    pub index_off: u64,
    pub index_len: u32,
    pub block_count: u32,
    pub entry_count: u64,
    pub horizon: u64,
    pub meta_crc: u32,
}

impl Trailer {
    /// The fields as stored, without the checksum and the magic behind them.
    pub open spec fn fields(self) -> Seq<u8> {
        le(self.bloom_off as nat, 8) + le(self.bloom_len as nat, 4) + le(self.index_off as nat, 8)
            + le(self.index_len as nat, 4) + le(self.block_count as nat, 4) + le(
            self.entry_count as nat,
            8,
        ) + le(self.horizon as nat, 8) + le(self.meta_crc as nat, 4)
    }

    pub open spec fn bytes(self) -> Seq<u8> {
        sealed(self.fields()) + le(MAGIC as nat, 4)
    }
}

/// The row keys the filter is built over.
pub open spec fn rows_of(es: Seq<EntryView>) -> Seq<Seq<u8>> {
    Seq::new(es.len(), |i: int| row_part(es[i].0))
}

/// The trailer of the run over `es`.
pub open spec fn trailer_for(es: Seq<EntryView>, horizon: u64) -> Trailer {
    let blocks = blocks_from(es, 0);
    let bloom = filter_of(rows_of(es));
    let ix = index_from(es, 0, 0);
    let ib = index_bytes(ix);
    Trailer {
        bloom_off: blocks.len() as u64,
        bloom_len: low32(bloom.len()) as u32,
        index_off: (blocks.len() + bloom.len()) as u64,
        index_len: low32(ib.len()) as u32,
        block_count: low32(ix.len()) as u32,
        entry_count: es.len() as u64,
        horizon,
        meta_crc: crc32c_of((bloom + ib).take((bloom.len() + low32(ib.len())) as int)),
    }
}

/// The run over `es`, byte for byte.
pub open spec fn run_bytes(es: Seq<EntryView>, horizon: u64) -> Seq<u8> {
    blocks_from(es, 0) + filter_of(rows_of(es)) + index_bytes(index_from(es, 0, 0)) + trailer_for(
        es,
        horizon,
    ).bytes()
}

fn put_entry(out: &mut Vec<u8>, e: &Entry)
    ensures
        final(out)@ == old(out)@ + entry_bytes((e.0@, e.1@)),
{
    let ghost before = out@;
    put_u32(out, len32(e.0.len()));
    out.extend_from_slice(e.0.as_slice());
    match &e.1 {
        Op::Put(v) => {
            out.push(0);
            put_u32(out, len32(v.len()));
            out.extend_from_slice(v.as_slice());
        },
        Op::Delete => {
            out.push(1);
            put_u32(out, 0);
        },
    }
    proof {
        assert(out@ =~= before + entry_bytes((e.0@, e.1@)));
    }
}

/// The blocks over `entries`, the index that goes with them, and the row of each entry.
fn build_blocks(entries: &[Entry]) -> (r: (Vec<u8>, Vec<IndexEntry>, Vec<Vec<u8>>))
    ensures
        r.0@ == blocks_from(entries_view(entries@), 0),
        index_view(r.1@) == index_from(entries_view(entries@), 0, 0),
        Seq::new(r.2@.len(), |j: int| r.2@[j]@) == rows_of(entries_view(entries@)),
{
    let ghost es = entries_view(entries@);
    let mut out: Vec<u8> = Vec::new();
    let mut index: Vec<IndexEntry> = Vec::new();
    let mut rows: Vec<Vec<u8>> = Vec::new();
    let mut i: usize = 0;
    proof {
        assert(out@ + blocks_from(es, 0) =~= blocks_from(es, 0));
        assert(index_view(index@) + index_from(es, 0, 0) =~= index_from(es, 0, 0));
    }
    while i < entries.len()
        invariant
            es == entries_view(entries@),
            i <= entries@.len(),
            out@ + blocks_from(es, i as int) == blocks_from(es, 0),
            index_view(index@) + index_from(es, i as int, out@.len()) == index_from(es, 0, 0),
            rows@.len() == i,
            forall|j: int| 0 <= j < i ==> (#[trigger] rows@[j])@ == row_part(es[j].0),
        decreases entries@.len() - i,
    {
        let block_off: u64 = out.len() as u64;
        let first_key: Vec<u8> = slice_to_vec(entries[i].0.as_slice());
        let start: usize = out.len();
        let ghost base = out@;
        let ghost index0 = index@;
        let ghost i0 = i as int;
        proof {
            assert(es.subrange(i0, i0) =~= Seq::empty());
            assert(out@ =~= base + encode(es.subrange(i0, i0)));
        }
        while i < entries.len() && out.len() - start < TARGET_BLOCK_BYTES
            invariant
                es == entries_view(entries@),
                0 <= i0 <= i <= entries@.len(),
                start == base.len(),
                out@ == base + encode(es.subrange(i0, i as int)),
                block_stop(es, i0, i as int) == block_end(es, i0),
                rows@.len() == i,
                forall|j: int| 0 <= j < i ==> (#[trigger] rows@[j])@ == row_part(es[j].0),
            decreases entries@.len() - i,
        {
            put_entry(&mut out, &entries[i]);
            rows.push(slice_to_vec(row_or_key(entries[i].0.as_slice())));
            proof {
                let next = es.subrange(i0, i + 1);
                assert(next.drop_last() =~= es.subrange(i0, i as int));
                assert(next.last() == es[i as int]);
                assert(out@ =~= base + encode(next));
            }
            i += 1;
        }
        let ghost body = encode(es.subrange(i0, i as int));
        let block = slice_subrange(out.as_slice(), start, out.len());
        proof {
            assert(block@ =~= body);
        }
        let block_crc: u32 = crc(block);
        put_u32(&mut out, block_crc);
        proof {
            assert(i as int == block_end(es, i0));
            assert(out@ =~= base + sealed(body));
        }
        index.push((first_key, block_off, len32(out.len() - start)));
        proof {
            let whole = blocks_from(es, i0);
            assert(whole == sealed(body) + blocks_from(es, i as int));
            assert(out@ + blocks_from(es, i as int) =~= base + whole);
            let e = (es[i0].0, block_off, low32(sealed(body).len()) as u32);
            assert(index_view(index@) =~= index_view(index0).push(e));
            assert(index_from(es, i0, base.len()) == seq![e] + index_from(es, i as int, out@.len()));
            assert(index_view(index@) + index_from(es, i as int, out@.len()) =~= index_view(index0)
                + index_from(es, i0, base.len()));
        }
    }
    proof {
        assert(out@ =~= blocks_from(es, 0));
        assert(index_view(index@) =~= index_from(es, 0, 0));
        assert(Seq::new(rows@.len(), |j: int| rows@[j]@) =~= rows_of(es));
    }
    (out, index, rows)
}

fn put_index(out: &mut Vec<u8>, index: &Vec<IndexEntry>)
    ensures
        final(out)@ == old(out)@ + index_bytes(index_view(index@)),
{
    let ghost mid = out@;
    proof {
        assert(index_view(index@).take(0) =~= Seq::empty());
        assert(out@ =~= mid + index_bytes(index_view(index@).take(0)));
    }
    let mut j: usize = 0;
    while j < index.len()
        invariant
            j <= index@.len(),
            out@ == mid + index_bytes(index_view(index@).take(j as int)),
        decreases index@.len() - j,
    {
        let ghost was = out@;
        put_u32(out, len32(index[j].0.len()));
        out.extend_from_slice(index[j].0.as_slice());
        put_u64(out, index[j].1);
        put_u32(out, index[j].2);
        proof {
            let e = index_view(index@)[j as int];
            let next = index_view(index@).take(j + 1);
            assert(out@ =~= was + index_entry_bytes(e));
            assert(next.drop_last() =~= index_view(index@).take(j as int));
            assert(next.last() == e);
            assert(out@ =~= mid + index_bytes(next));
        }
        j += 1;
    }
    proof {
        assert(index_view(index@).take(index@.len() as int) =~= index_view(index@));
    }
}

fn put_trailer(out: &mut Vec<u8>, t: &Trailer)
    ensures
        final(out)@ == old(out)@ + t.bytes(),
{
    let at: usize = out.len();
    let ghost before = out@;
    put_u64(out, t.bloom_off);
    put_u32(out, t.bloom_len);
    put_u64(out, t.index_off);
    put_u32(out, t.index_len);
    put_u32(out, t.block_count);
    put_u64(out, t.entry_count);
    put_u64(out, t.horizon);
    put_u32(out, t.meta_crc);
    proof {
        assert(out@ =~= before + t.fields());
    }
    let fields = slice_subrange(out.as_slice(), at, out.len());
    proof {
        assert(fields@ =~= t.fields());
    }
    let trailer_crc: u32 = crc(fields);
    put_u32(out, trailer_crc);
    put_u32(out, MAGIC);
    proof {
        assert(out@ =~= before + t.bytes());
    }
}

/// Serialises sorted entries into a run built with the given collection horizon (0 for none).
///
/// Entries must already be sorted by key and without duplicates; compaction owns that,
/// not this function.
pub fn build(entries: &[Entry], horizon: u64) -> (r: Vec<u8>)
    ensures
        r@ == run_bytes(entries_view(entries@), horizon),
{
    let ghost es = entries_view(entries@);
    let (mut out, index, rows) = build_blocks(entries);
    proof {
        lemma_filter_len(rows_of(es));
    }
    let ghost blocks = out@;
    let ghost filter = filter_of(rows_of(es));
    let ghost ib = index_bytes(index_from(es, 0, 0));
    let bloom = Bloom::build(rows.as_slice());
    let bloom_off: usize = out.len();
    let bloom_len: u32 = len32(bloom.as_bytes().len());
    out.extend_from_slice(bloom.as_bytes());
    let index_off: usize = out.len();
    put_index(&mut out, &index);
    let index_len: u32 = len32(out.len() - index_off);
    proof {
        assert(out@ =~= blocks + filter + ib);
    }
    let meta = slice_subrange(out.as_slice(), bloom_off, index_off + index_len as usize);
    proof {
        assert(meta@ =~= (filter + ib).take((filter.len() + low32(ib.len())) as int));
    }
    let t = Trailer {
        bloom_off: bloom_off as u64,
        bloom_len,
        index_off: index_off as u64,
        index_len,
        block_count: len32(index.len()),
        entry_count: entries.len() as u64,
        horizon,
        meta_crc: crc(meta),
    };
    proof {
        assert(index@.len() == index_view(index@).len());
        assert(t == trailer_for(es, horizon));
    }
    put_trailer(&mut out, &t);
    out
}

} // verus!
