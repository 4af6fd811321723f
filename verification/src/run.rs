//! Sorted runs: `run/<id>`, written by compaction, read by ranged reads.
//!
//! Opening a run costs two ranged reads (trailer, then filter and index together) and
//! every point read after that costs at most one more.
use crate::bloom::{admits, Bloom};
use crate::commit::{entries_view, Entry, EntryView, Op};
use crate::key::{
    belongs_to, is_version_of, is_versioned, row_of, row_or_key, row_part, seek_at, seq_of,
    seq_part, versioned_key,
};
use crate::key_map::KeyMap;
use crate::order::{at_most, begins_with, below, is_below, starts_with};
pub use crate::run_format::build;
use crate::run_format::{index_view, IndexEntry, IndexView, RunError, TRAILER_LEN};
use crate::run_read::{
    bytes_result, decode_block, entries_result, entry_result, meta_result, parse_meta,
    parse_trailer, read_entries, read_meta_bytes, read_trailer, seek_block, seek_version, unseal,
    verify_block, Meta, MetaView,
};
use crate::text::{
    as_chars, ends_with_text, has_prefix, has_suffix, hex_digits, push_hex, strip_prefix,
};
use vstd::prelude::*;
use vstd::slice::{slice_subrange, slice_to_vec};

verus! {

/// Default size of the local block cache.
pub const DEFAULT_CACHE_BYTES: usize = 67108864;

/// A delta run holds only the commits since the run before it, where a run without the
/// suffix holds everything up to its number.
pub const DELTA_SUFFIX: &'static str = ".d";

/// A run is live once its seal exists: `sealed/<id>[.d]`, written by the compactor after the
/// run has been read back byte for byte.
pub const SEAL_PREFIX: &'static str = "sealed/";

/// The key of run `id`.
pub fn key_for(id: u64) -> (r: String)
    ensures
        r@ == "run/"@ + as_chars(hex_digits(id as nat, 16)),
{
    let mut r = "run/".to_owned();
    push_hex(&mut r, id, 16);
    r
}

/// The key of delta run `id`.
pub fn delta_key_for(id: u64) -> (r: String)
    ensures
        r@ == "run/"@ + as_chars(hex_digits(id as nat, 16)) + ".d"@,
{
    let mut r = key_for(id);
    r.append(DELTA_SUFFIX);
    r
}

pub fn is_delta(key: &str) -> (r: bool)
    ensures
        r == has_suffix(key@, ".d"@),
{
    ends_with_text(key, DELTA_SUFFIX)
}

/// `run/<id>` -> `sealed/<id>`.
pub fn seal_key_for(run_key: &str) -> (r: String)
    ensures
        r@ == "sealed/"@ + (if has_prefix(run_key@, "run/"@) {
            run_key@.skip("run/"@.len() as int)
        } else {
            run_key@
        }),
{
    let mut r = SEAL_PREFIX.to_owned();
    match strip_prefix(run_key, "run/") {
        Some(tail) => r.append(tail.as_str()),
        None => r.append(run_key),
    }
    r
}

/// `sealed/<id>` -> `run/<id>`.
pub fn run_key_of_seal(seal_key: &str) -> (r: Option<String>)
    ensures
        match r {
            Some(k) => has_prefix(seal_key@, "sealed/"@) && k@ == "run/"@ + seal_key@.skip(
                "sealed/"@.len() as int,
            ),
            None => !has_prefix(seal_key@, "sealed/"@),
        },
{
    match strip_prefix(seal_key, SEAL_PREFIX) {
        Some(tail) => {
            let mut r = "run/".to_owned();
            r.append(tail.as_str());
            Some(r)
        },
        None => None,
    }
}

/// The seal of a run names the run: taking the run key of a seal undoes sealing.
pub proof fn lemma_seal_names_run(run_key: Seq<char>)
    requires
        has_prefix(run_key, "run/"@),
    ensures
        ({
            let seal = "sealed/"@ + run_key.skip("run/"@.len() as int);
            has_prefix(seal, "sealed/"@) && "run/"@ + seal.skip("sealed/"@.len() as int) == run_key
        }),
{
    let tail = run_key.skip("run/"@.len() as int);
    let seal = "sealed/"@ + tail;
    assert(seal.take("sealed/"@.len() as int) =~= "sealed/"@);
    assert(seal.skip("sealed/"@.len() as int) =~= tail);
    assert("run/"@ + tail =~= run_key) by {
        assert(run_key =~= run_key.take("run/"@.len() as int) + tail);
    }
}

/// Anything a run can be read from: an object in a store, or a byte slice.
///
/// Nothing is promised of an answer. It may fail, and it may be shorter than asked for or
/// hold other bytes than were written.
pub trait RangeSource {
    fn range(&self, offset: u64, len: u64) -> Result<Vec<u8>, RunError>;

    fn size(&self) -> u64;
}

impl<'a> RangeSource for &'a [u8] {
    fn range(&self, offset: u64, len: u64) -> (r: Result<Vec<u8>, RunError>)
        ensures
            bytes_result(r) == (if offset + len <= self@.len() {
                Ok(self@.subrange(offset as int, offset + len))
            } else {
                Err(RunError::PastEnd)
            }),
    {
        let n: u64 = self.len() as u64;
        if offset > n || len > n - offset {
            return Err(RunError::PastEnd);
        }
        Ok(slice_to_vec(slice_subrange(*self, offset as usize, (offset + len) as usize)))
    }

    fn size(&self) -> (r: u64)
        ensures
            r == self@.len(),
    {
        self.len() as u64
    }
}

/// A cached block: its offset and its verified bytes.
pub type CachedView = (u64, Seq<u8>);

/// A block cache that forgets the oldest block first.
///
/// Not a least-recently-used cache: under uniform random access the two behave the same, and
/// this one is simpler to reason about.
pub struct BlockCache {
    blocks: Vec<(u64, Vec<u8>)>,
    bytes: usize,
    cap: usize,
    hits: u64,
    misses: u64,
}

#[verifier::ext_equal]
pub struct CacheView {
    /// The blocks held, oldest first.
    pub blocks: Seq<CachedView>,
    pub cap: nat,
    pub hits: u64,
    pub misses: u64,
}

/// The bytes that the blocks `bs` take.
pub open spec fn total(bs: Seq<CachedView>) -> nat
    decreases bs.len(),
{
    if bs.len() == 0 {
        0
    } else {
        bs[0].1.len() + total(bs.skip(1))
    }
}

/// `bs` without as many of the oldest blocks as it takes to leave at most `room` bytes.
pub open spec fn evict(bs: Seq<CachedView>, room: nat) -> Seq<CachedView>
    decreases bs.len(),
{
    if bs.len() == 0 || total(bs) <= room {
        bs
    } else {
        evict(bs.skip(1), room)
    }
}

impl CacheView {
    /// The block at `off`, if it is held.
    pub open spec fn find(self, off: u64) -> Option<Seq<u8>> {
        if exists|i: int| 0 <= i < self.blocks.len() && (#[trigger] self.blocks[i]).0 == off {
            let i = choose|i: int|
                0 <= i < self.blocks.len() && (#[trigger] self.blocks[i]).0 == off && forall|j: int|
                    0 <= j < i ==> (#[trigger] self.blocks[j]).0 != off;
            Some(self.blocks[i].1)
        } else {
            None
        }
    }

    pub open spec fn hit(self) -> CacheView {
        CacheView { hits: self.hits.wrapping_add(1), ..self }
    }

    pub open spec fn miss(self) -> CacheView {
        CacheView { misses: self.misses.wrapping_add(1), ..self }
    }

    /// The cache after `block` came in. A block larger than the cache is not kept.
    pub open spec fn with(self, off: u64, block: Seq<u8>) -> CacheView {
        if self.cap == 0 || block.len() > self.cap {
            self
        } else {
            CacheView {
                blocks: evict(self.blocks, (self.cap - block.len()) as nat).push((off, block)),
                ..self
            }
        }
    }
}

impl CacheView {
    /// The cache after `block` came in along with another. One that is held already stays.
    pub open spec fn taking(self, off: u64, block: Seq<u8>) -> CacheView {
        if self.find(off) is Some {
            self
        } else {
            self.with(off, block)
        }
    }
}

pub open spec fn cached_view(bs: Seq<(u64, Vec<u8>)>) -> Seq<CachedView> {
    Seq::new(bs.len(), |i: int| (bs[i].0, bs[i].1@))
}

impl View for BlockCache {
    type V = CacheView;

    closed spec fn view(&self) -> CacheView {
        CacheView {
            blocks: cached_view(self.blocks@),
            cap: self.cap as nat,
            hits: self.hits,
            misses: self.misses,
        }
    }
}

proof fn lemma_total_push(bs: Seq<CachedView>, b: CachedView)
    ensures
        total(bs.push(b)) == total(bs) + b.1.len(),
    decreases bs.len(),
{
    if bs.len() == 0 {
        assert(bs.push(b).skip(1) =~= Seq::empty());
        assert(total(bs.push(b).skip(1)) == 0);
    } else {
        lemma_total_push(bs.skip(1), b);
        assert(bs.push(b).skip(1) =~= bs.skip(1).push(b));
    }
}

proof fn lemma_evict_leaves_room(bs: Seq<CachedView>, room: nat)
    ensures
        total(evict(bs, room)) <= room,
    decreases bs.len(),
{
    if bs.len() > 0 && total(bs) > room {
        lemma_evict_leaves_room(bs.skip(1), room);
    }
}

/// No offset is held twice.
pub open spec fn once_each(bs: Seq<CachedView>) -> bool {
    forall|i: int, j: int| 0 <= i < j < bs.len() ==> (#[trigger] bs[i]).0 != (#[trigger] bs[j]).0
}

/// `now` are the blocks of a cache after `block` came in: it is the newest, and as few of the
/// oldest as make room for it are gone.
pub open spec fn makes_room(c: CacheView, off: u64, block: Seq<u8>, now: Seq<CachedView>) -> bool {
    exists|k: int|
        0 <= k <= c.blocks.len() && now == (#[trigger] c.blocks.skip(k)).push((off, block))
            && total(c.blocks.skip(k)) + block.len() <= c.cap && forall|j: int|
            0 <= j < k ==> total(#[trigger] c.blocks.skip(j)) + block.len() > c.cap
}

/// What comes into a cache: nothing where it holds nothing or the block is too large for it;
/// otherwise the block is the newest, and as few of the oldest as make room for it are gone. All
/// that is then held is within the capacity, and nothing is held twice.
pub proof fn lemma_cache_takes_in(c: CacheView, off: u64, block: Seq<u8>)
    requires
        c.find(off) is None,
    ensures
        c.cap == 0 || block.len() > c.cap ==> c.with(off, block) == c,
        c.cap > 0 && block.len() <= c.cap ==> {
            &&& c.with(off, block).find(off) == Some(block)
            &&& total(c.with(off, block).blocks) <= c.cap
            &&& makes_room(c, off, block, c.with(off, block).blocks)
        },
        once_each(c.blocks) ==> once_each(c.with(off, block).blocks),
{
    if c.cap > 0 && block.len() <= c.cap {
        let room = (c.cap - block.len()) as nat;
        lemma_evict_drops_oldest(c.blocks, room);
        let k = choose|k: int|
            0 <= k <= c.blocks.len() && evict(c.blocks, room) == #[trigger] c.blocks.skip(k)
                && total(c.blocks.skip(k)) <= room && forall|j: int|
                0 <= j < k ==> total(#[trigger] c.blocks.skip(j)) > room;
        let now = c.with(off, block).blocks;
        assert(now == c.blocks.skip(k).push((off, block)));
        lemma_total_push(c.blocks.skip(k), (off, block));
        let last = now.len() - 1;
        assert(now[last] == (off, block));
        assert forall|j: int| 0 <= j < last implies (#[trigger] now[j]).0 != off by {
            assert(now[j] == c.blocks[k + j]);
        }
        assert(c.with(off, block).find(off) == Some(block)) by {
            let i = choose|i: int|
                0 <= i < now.len() && (#[trigger] now[i]).0 == off && forall|j: int|
                    0 <= j < i ==> (#[trigger] now[j]).0 != off;
            assert(i == last);
        }
        if once_each(c.blocks) {
            assert forall|i: int, j: int| 0 <= i < j < now.len() implies (#[trigger] now[i]).0 != (
            #[trigger] now[j]).0 by {
                assert(now[i] == c.blocks[k + i]);
                if j < last {
                    assert(now[j] == c.blocks[k + j]);
                }
            }
        }
    }
}

proof fn lemma_evict_drops_oldest(bs: Seq<CachedView>, room: nat)
    ensures
        exists|k: int|
            0 <= k <= bs.len() && evict(bs, room) == #[trigger] bs.skip(k) && total(bs.skip(k))
                <= room && forall|j: int| 0 <= j < k ==> total(#[trigger] bs.skip(j)) > room,
    decreases bs.len(),
{
    assert(bs.skip(0) =~= bs);
    if bs.len() > 0 && total(bs) > room {
        let t = bs.skip(1);
        lemma_evict_drops_oldest(t, room);
        let k = choose|k: int|
            0 <= k <= t.len() && evict(t, room) == #[trigger] t.skip(k) && total(t.skip(k)) <= room
                && forall|j: int| 0 <= j < k ==> total(#[trigger] t.skip(j)) > room;
        assert(t.skip(k) =~= bs.skip(k + 1));
        assert forall|j: int| 0 <= j < k + 1 implies total(#[trigger] bs.skip(j)) > room by {
            if j > 0 {
                assert(t.skip(j - 1) =~= bs.skip(j));
            }
        }
    }
}

/// A cache never grows past its capacity: where it takes a block in, all that it then holds is
/// within the capacity.
pub proof fn lemma_cache_is_bounded(c: CacheView, off: u64, block: Seq<u8>)
    requires
        total(c.blocks) <= c.cap,
    ensures
        total(c.with(off, block).blocks) <= c.with(off, block).cap,
        c.with(off, block).cap == c.cap,
{
    if !(c.cap == 0 || block.len() > c.cap) {
        let room = (c.cap - block.len()) as nat;
        lemma_evict_leaves_room(c.blocks, room);
        lemma_total_push(evict(c.blocks, room), (off, block));
    }
}

impl BlockCache {
    /// The byte count is that of the blocks held.
    pub closed spec fn wf(&self) -> bool {
        self.bytes == total(self@.blocks)
    }

    pub fn new(cap: usize) -> (r: BlockCache)
        ensures
            r.wf(),
            r@ == (CacheView { blocks: Seq::empty(), cap: cap as nat, hits: 0, misses: 0 }),
    {
        let r = BlockCache { blocks: Vec::new(), bytes: 0, cap, hits: 0, misses: 0 };
        proof {
            assert(r@.blocks =~= Seq::empty());
        }
        r
    }

    /// The block at `off`, if it is held. Counts a hit or a miss.
    pub fn get(&mut self, off: u64) -> (r: Option<Vec<u8>>)
        requires
            old(self).wf(),
        ensures
            final(self).wf(),
            match r {
                Some(b) => old(self)@.find(off) == Some(b@) && final(self)@ == old(self)@.hit(),
                None => old(self)@.find(off) is None && final(self)@ == old(self)@.miss(),
            },
    {
        let ghost before = self@;
        let mut i: usize = 0;
        while i < self.blocks.len()
            invariant
                i <= self.blocks@.len(),
                self@ == before,
                self.wf(),
                before == old(self)@,
                forall|j: int| 0 <= j < i ==> (#[trigger] before.blocks[j]).0 != off,
            decreases self.blocks@.len() - i,
        {
            proof {
                assert(before.blocks[i as int] == (
                    self.blocks@[i as int].0,
                    self.blocks@[i as int].1@,
                ));
            }
            if self.blocks[i].0 == off {
                let b: Vec<u8> = slice_to_vec(self.blocks[i].1.as_slice());
                self.hits = self.hits.wrapping_add(1);
                proof {
                    let k = choose|k: int|
                        0 <= k < before.blocks.len() && (#[trigger] before.blocks[k]).0 == off
                            && forall|j: int| 0 <= j < k ==> (#[trigger] before.blocks[j]).0 != off;
                    assert(k == i);
                }
                return Some(b);
            }
            i += 1;
        }
        self.misses = self.misses.wrapping_add(1);
        None
    }

    /// Takes in a block that is not held yet. The oldest blocks make room for it; one that is
    /// larger than the cache is not kept.
    pub fn insert(&mut self, off: u64, block: Vec<u8>)
        requires
            old(self).wf(),
            old(self)@.find(off) is None,
        ensures
            final(self).wf(),
            final(self)@ == old(self)@.with(off, block@),
            old(self)@.cap == 0 || block@.len() > old(self)@.cap ==> final(self)@ == old(self)@,
            old(self)@.cap > 0 && block@.len() <= old(self)@.cap ==> {
                &&& final(self)@.find(off) == Some(block@)
                &&& total(final(self)@.blocks) <= old(self)@.cap
                &&& makes_room(old(self)@, off, block@, final(self)@.blocks)
            },
            once_each(old(self)@.blocks) ==> once_each(final(self)@.blocks),
    {
        proof {
            lemma_cache_takes_in(self@, off, block@);
        }
        if self.cap == 0 || block.len() > self.cap {
            return;
        }
        let room: usize = self.cap - block.len();
        let ghost start = self@;
        while self.bytes > room && self.blocks.len() > 0
            invariant
                self.wf(),
                room + block@.len() == start.cap,
                self@.cap == start.cap,
                self@.hits == start.hits,
                self@.misses == start.misses,
                evict(self@.blocks, room as nat) == evict(start.blocks, room as nat),
            decreases self.blocks@.len(),
        {
            let ghost was = self@.blocks;
            let gone = self.blocks.remove(0);
            proof {
                assert(cached_view(self.blocks@) =~= was.skip(1));
                assert(gone.1@ == was[0].1);
            }
            self.bytes = self.bytes - gone.1.len();
        }
        let ghost kept = self@.blocks;
        let ghost added = (off, block@);
        self.bytes = self.bytes + block.len();
        self.blocks.push((off, block));
        proof {
            lemma_total_push(kept, added);
            assert(self@.blocks =~= kept.push(added));
        }
    }

    /// Takes in a block that was read along with another.
    fn take_in(&mut self, off: u64, block: Vec<u8>)
        requires
            old(self).wf(),
        ensures
            final(self).wf(),
            final(self)@ == old(self)@.taking(off, block@),
    {
        let mut i: usize = 0;
        while i < self.blocks.len()
            invariant
                i <= self.blocks@.len(),
                *self == *old(self),
                self.wf(),
                forall|j: int| 0 <= j < i ==> (#[trigger] self@.blocks[j]).0 != off,
            decreases self.blocks@.len() - i,
        {
            proof {
                assert(self@.blocks[i as int] == (
                    self.blocks@[i as int].0,
                    self.blocks@[i as int].1@,
                ));
            }
            if self.blocks[i].0 == off {
                return;
            }
            i += 1;
        }
        self.insert(off, block);
    }

    pub fn set_cap(&mut self, cap: usize)
        requires
            old(self).wf(),
        ensures
            final(self).wf(),
            final(self)@ == (CacheView { cap: cap as nat, ..old(self)@ }),
    {
        self.cap = cap;
    }

    /// How often a block was found here, and how often not.
    pub fn stats(&self) -> (r: (u64, u64))
        ensures
            r == (self@.hits, self@.misses),
    {
        (self.hits, self.misses)
    }
}

/// `r` is what comes of reading the metadata of `src`: one answer about its size, one about
/// the trailer, one about filter and index.
pub open spec fn meta_read<S: RangeSource>(src: &S, r: Result<MetaView, RunError>) -> bool {
    exists|n: u64| #[trigger]
        call_ensures(S::size, (src,), n) && if n < TRAILER_LEN {
            r == Err::<MetaView, RunError>(RunError::TooSmall)
        } else {
            exists|t: Result<Vec<u8>, RunError>| #[trigger]
                call_ensures(S::range, (src, (n - TRAILER_LEN) as u64, TRAILER_LEN), t)
                    && match bytes_result(t) {
                    Err(e) => r == Err::<MetaView, RunError>(e),
                    Ok(t) => match read_trailer(n, t) {
                        Err(e) => r == Err::<MetaView, RunError>(e),
                        Ok(f) => exists|m: Result<Vec<u8>, RunError>| #[trigger]
                            call_ensures(
                                S::range,
                                (src, f.bloom_off, (f.bloom_len + f.index_len) as u64),
                                m,
                            ) && match bytes_result(m) {
                                Err(e) => r == Err::<MetaView, RunError>(e),
                                Ok(m) => r == read_meta_bytes(f, m),
                            },
                    },
                }
        }
}

/// Two ranged reads of `src`: the trailer, then filter and index in one call.
fn read_meta<S: RangeSource>(src: &S) -> (r: Result<Meta, RunError>)
    ensures
        meta_read(src, meta_result(r)),
{
    let size: u64 = src.size();
    if size < TRAILER_LEN {
        return Err(RunError::TooSmall);
    }
    let got = src.range(size - TRAILER_LEN, TRAILER_LEN);
    let t = match got {
        Ok(t) => t,
        Err(e) => {
            return Err(e);
        },
    };
    let f = match parse_trailer(size, t.as_slice()) {
        Ok(f) => f,
        Err(e) => {
            return Err(e);
        },
    };
    let got = src.range(f.bloom_off, f.bloom_len as u64 + f.index_len as u64);
    let m = match got {
        Ok(m) => m,
        Err(e) => {
            return Err(e);
        },
    };
    parse_meta(&f, m.as_slice())
}

/// What one block came back as: its verified bytes, or an error.
pub type Answer = Result<Seq<u8>, RunError>;

/// A block that was read: its position in the index, and what came back.
pub type Read = (int, Answer);

/// `a` is a possible outcome of fetching and verifying the block of `len` bytes at `off`.
pub open spec fn fetched<S: RangeSource>(src: &S, off: u64, len: u32, a: Answer) -> bool {
    exists|raw: Result<Vec<u8>, RunError>| #[trigger]
        call_ensures(S::range, (src, off, len as u64), raw) && a == match bytes_result(raw) {
            Err(e) => Err(e),
            Ok(raw) => unseal(raw),
        }
}

/// `a` is what reading a block through the cache `c0` gives, and `c1` is the cache afterwards.
/// Only a block that checked out is kept.
pub open spec fn block_read<S: RangeSource>(
    src: &S,
    c0: CacheView,
    off: u64,
    len: u32,
    c1: CacheView,
    a: Answer,
) -> bool {
    match c0.find(off) {
        Some(b) => a == Ok::<Seq<u8>, RunError>(b) && c1 == c0.hit(),
        None => fetched(src, off, len, a) && c1 == match a {
            Ok(b) => c0.miss().with(off, b),
            Err(_) => c0.miss(),
        },
    }
}

/// The blocks `reads` were read one after another, which took the cache from `c0` to `c1`.
#[verifier::opaque]
pub open spec fn blocks_read<S: RangeSource>(
    src: &S,
    ix: Seq<IndexView>,
    c0: CacheView,
    reads: Seq<Read>,
    c1: CacheView,
) -> bool
    decreases reads.len(),
{
    if reads.len() == 0 {
        c1 == c0
    } else {
        let last = reads.last();
        0 <= last.0 < ix.len() && exists|c: CacheView|
            blocks_read(src, ix, c0, reads.drop_last(), c) && #[trigger] block_read(
                src,
                c,
                ix[last.0].1,
                ix[last.0].2,
                c1,
                last.1,
            )
    }
}

/// The first keys of the blocks ascend.
pub open spec fn ascending(ix: Seq<IndexView>) -> bool {
    forall|i: int, j: int|
        0 <= i <= j < ix.len() ==> at_most((#[trigger] ix[i]).0, (#[trigger] ix[j]).0)
}

/// `i` is the last block that may hold `key`: the last one that starts at or before it, or
/// the first of all.
pub open spec fn seek_pos(ix: Seq<IndexView>, key: Seq<u8>, i: int) -> bool {
    &&& 0 <= i < ix.len()
    &&& ascending(ix) ==> {
        &&& i == 0 || at_most(ix[i].0, key)
        &&& i + 1 < ix.len() ==> below(key, ix[i + 1].0)
    }
}

fn seek_index(index: &Vec<IndexEntry>, key: &[u8]) -> (r: usize)
    requires
        index@.len() > 0,
    ensures
        seek_pos(index_view(index@), key@, r as int),
{
    let ghost ix = index_view(index@);
    let mut lo: usize = 0;
    let mut hi: usize = index.len();
    while lo < hi
        invariant
            ix == index_view(index@),
            lo <= hi <= index@.len(),
            ascending(ix) ==> forall|j: int| 0 <= j < lo ==> at_most((#[trigger] ix[j]).0, key@),
            ascending(ix) ==> forall|j: int|
                hi <= j < ix.len() ==> below(key@, (#[trigger] ix[j]).0),
        decreases hi - lo,
    {
        let mid: usize = lo + (hi - lo) / 2;
        proof {
            assert(ix[mid as int].0 == index@[mid as int].0@);
        }
        if is_below(key, index[mid].0.as_slice()) {
            proof {
                if ascending(ix) {
                    assert forall|j: int| mid <= j < ix.len() implies below(
                        key@,
                        (#[trigger] ix[j]).0,
                    ) by {
                        assert(at_most(ix[mid as int].0, ix[j].0));
                        crate::order::lemma_below_at_most(key@, ix[mid as int].0, ix[j].0);
                    }
                }
            }
            hi = mid;
        } else {
            proof {
                if ascending(ix) {
                    assert forall|j: int| 0 <= j < mid + 1 implies at_most(
                        (#[trigger] ix[j]).0,
                        key@,
                    ) by {
                        assert(at_most(ix[j].0, ix[mid as int].0));
                        if below(key@, ix[j].0) {
                            crate::order::lemma_below_at_most(key@, ix[j].0, ix[mid as int].0);
                        }
                    }
                }
            }
            lo = mid + 1;
        }
    }
    if lo == 0 {
        0
    } else {
        lo - 1
    }
}

/// What a scan is after.
pub enum Query {
    /// Keys that begin with a prefix.
    Prefix { prefix: Seq<u8> },
    /// Versions at or below a snapshot of the first rows in a range.
    Range { lo: Seq<u8>, hi: Seq<u8>, snapshot: u64, limit: nat },
    /// The same for the last rows of a range, met in descending order.
    Back { lo: Seq<u8>, hi: Seq<u8>, snapshot: u64, limit: nat },
}

/// How far a scan has come.
pub struct Walk {
    /// The entries found.
    pub out: Seq<EntryView>,
    /// The rows that they belong to.
    pub rows: Set<Seq<u8>>,
    /// Nothing further is wanted.
    pub over: bool,
    pub failed: Option<RunError>,
    /// The next block to look at.
    pub at: int,
}

impl Walk {
    pub open spec fn begin(at: int) -> Walk {
        Walk { out: Seq::empty(), rows: Set::empty(), over: false, failed: None, at }
    }

    pub open spec fn stop(self) -> Walk {
        Walk { over: true, ..self }
    }

    pub open spec fn keep(self, e: EntryView) -> Walk {
        Walk { out: self.out.push(e), ..self }
    }

    /// Keeps an entry, counting its row if it is a new one; stops in its place where that
    /// would be a row too many.
    pub open spec fn keep_row(self, e: EntryView, limit: nat) -> Walk {
        if is_versioned(e.0) && !self.rows.contains(row_part(e.0)) {
            if self.rows.len() == limit {
                self.stop()
            } else {
                Walk { rows: self.rows.insert(row_part(e.0)), ..self.keep(e) }
            }
        } else {
            self.keep(e)
        }
    }

    /// One more entry met.
    pub open spec fn step(self, q: Query, e: EntryView) -> Walk {
        if self.over {
            self
        } else {
            match q {
                Query::Prefix { prefix } => if below(e.0, prefix) {
                    self
                } else if !begins_with(e.0, prefix) {
                    self.stop()
                } else {
                    self.keep(e)
                },
                Query::Range { lo, hi, snapshot, limit } => if below(row_part(e.0), lo) {
                    self
                } else if !below(e.0, hi) {
                    self.stop()
                } else if seq_part(e.0) matches Some(s) && s > snapshot {
                    self
                } else {
                    self.keep_row(e, limit)
                },
                Query::Back { lo, hi, snapshot, limit } => if !below(e.0, hi) || below(
                    row_part(e.0),
                    lo,
                ) {
                    self
                } else if seq_part(e.0) matches Some(s) && s > snapshot {
                    self
                } else {
                    self.keep_row(e, limit)
                },
            }
        }
    }

    /// Several entries met in order.
    pub open spec fn steps(self, q: Query, es: Seq<EntryView>) -> Walk
        decreases es.len(),
    {
        if es.len() == 0 {
            self
        } else {
            self.steps(q, es.drop_last()).step(q, es.last())
        }
    }

    /// The block at `self.at` came back as `a`.
    pub open spec fn advance(self, ix: Seq<IndexView>, q: Query, a: Answer) -> Walk {
        match a {
            Err(e) => Walk { failed: Some(e), ..self },
            Ok(b) => match read_entries(b, 0) {
                Err(e) => Walk { failed: Some(e), ..self },
                Ok(es) => match q {
                    Query::Back { lo, hi, .. } => {
                        let w = self.steps(q, es.reverse());
                        Walk {
                            over: w.over || at_most(ix[self.at].0, lo),
                            at: last_below(ix, hi, self.at - 1),
                            ..w
                        }
                    },
                    _ => Walk { at: self.at + 1, ..self.steps(q, es) },
                },
            },
        }
    }

    /// The block at `self.at` is to be read.
    pub open spec fn wants(self, ix: Seq<IndexView>, q: Query) -> bool {
        !self.over && self.failed is None && 0 <= self.at < ix.len() && match q {
            Query::Prefix { prefix } => !(below(prefix, ix[self.at].0) && !begins_with(
                ix[self.at].0,
                prefix,
            )),
            Query::Range { hi, .. } => below(ix[self.at].0, hi),
            Query::Back { .. } => true,
        }
    }

    /// What the scan gives once no further block is wanted.
    pub open spec fn result(self, q: Query) -> Result<Seq<EntryView>, RunError> {
        match self.failed {
            Some(e) => Err(e),
            None => match q {
                Query::Back { .. } => Ok(self.out.reverse()),
                _ => Ok(self.out),
            },
        }
    }
}

/// The last block at or before position `i` that starts below `hi`, or -1.
pub open spec fn last_below(ix: Seq<IndexView>, hi: Seq<u8>, i: int) -> int
    decreases i + 1,
{
    if i < 0 {
        -1
    } else if below(ix[i].0, hi) {
        i
    } else {
        last_below(ix, hi, i - 1)
    }
}

/// Where a walk has come after the blocks `reads`, or nothing where it would not have read
/// just these.
#[verifier::opaque]
pub open spec fn walked(ix: Seq<IndexView>, q: Query, start: int, reads: Seq<Read>) -> Option<Walk>
    decreases reads.len(),
{
    if reads.len() == 0 {
        Some(Walk::begin(start))
    } else {
        match walked(ix, q, start, reads.drop_last()) {
            Some(w) => if w.wants(ix, q) && reads.last().0 == w.at {
                Some(w.advance(ix, q, reads.last().1))
            } else {
                None
            },
            None => None,
        }
    }
}

/// `r` is what a scan for `q` from block `start` gives over the blocks `reads`, and these are
/// all the blocks it reads.
pub open spec fn scanned(
    ix: Seq<IndexView>,
    q: Query,
    start: int,
    reads: Seq<Read>,
    r: Result<Seq<EntryView>, RunError>,
) -> bool {
    walked(ix, q, start, reads) matches Some(w) && !w.wants(ix, q) && r == w.result(q)
}

/// A walk that is over stays as it is.
pub proof fn lemma_steps_over(w: Walk, q: Query, es: Seq<EntryView>)
    requires
        w.over,
    ensures
        w.steps(q, es) == w,
    decreases es.len(),
{
    if es.len() > 0 {
        lemma_steps_over(w, q, es.drop_last());
    }
}

/// Entries leave alone what a walk does not count.
pub proof fn lemma_steps_keep(w: Walk, q: Query, es: Seq<EntryView>)
    ensures
        w.steps(q, es).failed == w.failed,
        w.steps(q, es).at == w.at,
    decreases es.len(),
{
    if es.len() > 0 {
        lemma_steps_keep(w, q, es.drop_last());
    }
}

/// A walk over two stretches is a walk over the first and then over the second.
pub proof fn lemma_steps_add(w: Walk, q: Query, a: Seq<EntryView>, b: Seq<EntryView>)
    ensures
        w.steps(q, a + b) == w.steps(q, a).steps(q, b),
    decreases b.len(),
{
    if b.len() == 0 {
        assert(a + b =~= a);
    } else {
        lemma_steps_add(w, q, a, b.drop_last());
        assert((a + b).drop_last() =~= a + b.drop_last());
    }
}

/// Block `j` lies right behind the one before it.
pub open spec fn adjacent(ix: Seq<IndexView>, j: int) -> bool {
    ix[j - 1].1 + ix[j - 1].2 == ix[j].1 && ix[j].1 + ix[j].2 <= u64::MAX
}

/// The blocks from `a` up to `b` lie one behind the other.
pub open spec fn contiguous(ix: Seq<IndexView>, a: int, b: int) -> bool {
    forall|j: int| a < j < b ==> #[trigger] adjacent(ix, j)
}

/// Up to which block a version of `row` is to be looked for, where the blocks before `j` are
/// looked at in any case: up to the first that begins with one, or else as far as there can be
/// one. Blocks that do not lie one behind the other are not read at once.
pub open spec fn span_end(ix: Seq<IndexView>, row: Seq<u8>, j: int) -> int
    decreases ix.len() - j,
{
    if j >= ix.len() || below(versioned_key(row, 0), ix[j].0) || !adjacent(ix, j) {
        j
    } else if is_version_of(ix[j].0, row) {
        j + 1
    } else {
        span_end(ix, row, j + 1)
    }
}

/// A version of `row` may be in the blocks from `stop` on though there is none in those from
/// `start` up to there: they do not lie behind these.
pub open spec fn goes_on(ix: Seq<IndexView>, row: Seq<u8>, start: int, stop: int) -> bool {
    stop < ix.len() && !below(versioned_key(row, 0), ix[stop].0) && !(stop - 1 > start
        && is_version_of(ix[stop - 1].0, row))
}

/// How many bytes the blocks from `at` up to `stop` take.
pub open spec fn span_len(ix: Seq<IndexView>, at: int, stop: int) -> int {
    ix[stop - 1].1 - ix[at].1 + ix[stop - 1].2
}

/// What of the bytes that were read from block `first` on is block `k`. The last block is all
/// that is left.
pub open spec fn part_of(ix: Seq<IndexView>, raw: Seq<u8>, first: int, k: int, stop: int) -> Seq<
    u8,
> {
    let d = ix[k].1 - ix[first].1;
    let from = if d < raw.len() {
        d
    } else {
        raw.len() as int
    };
    if k == stop - 1 || raw.len() - from < ix[k].2 {
        raw.skip(from)
    } else {
        raw.subrange(from, from + ix[k].2)
    }
}

/// Looks for a version of `row` in the blocks from `at` up to `stop`, which were read at once
/// from block `first` on: the cache afterwards, and what is found.
pub open spec fn combed(
    ix: Seq<IndexView>,
    row: Seq<u8>,
    snapshot: u64,
    raw: Seq<u8>,
    first: int,
    at: int,
    stop: int,
    c: CacheView,
) -> (CacheView, Result<Option<EntryView>, RunError>)
    decreases stop - at,
{
    if at >= stop {
        (c, Ok(None))
    } else {
        match unseal(part_of(ix, raw, first, at, stop)) {
            Err(e) => (c, Err(e)),
            Ok(b) => {
                let d = c.taking(ix[at].1, b);
                match seek_version(b, row, snapshot, 0) {
                    Err(e) => (d, Err(e)),
                    Ok(Some(e)) => (d, Ok(Some(e))),
                    Ok(None) => combed(ix, row, snapshot, raw, first, at + 1, stop, d),
                }
            },
        }
    }
}

/// A point read of the blocks from `at` up to `stop`: those that the cache `c0` holds are looked
/// at first, and from the first that it lacks on all are read at once. It gives `r` and leaves
/// the cache `c1`.
pub open spec fn point_read<S: RangeSource>(
    src: &S,
    ix: Seq<IndexView>,
    row: Seq<u8>,
    snapshot: u64,
    at: int,
    stop: int,
    c0: CacheView,
    c1: CacheView,
    r: Result<Option<EntryView>, RunError>,
) -> bool
    decreases stop - at,
{
    if at >= stop {
        c1 == c0 && r == Ok::<Option<EntryView>, RunError>(None)
    } else {
        match c0.find(ix[at].1) {
            Some(b) => match seek_version(b, row, snapshot, 0) {
                Err(e) => c1 == c0.hit() && r == Err::<Option<EntryView>, RunError>(e),
                Ok(Some(e)) => c1 == c0.hit() && r == Ok::<Option<EntryView>, RunError>(Some(e)),
                Ok(None) => point_read(
                    src,
                    ix,
                    row,
                    snapshot,
                    at + 1,
                    stop,
                    c0.hit(),
                    c1,
                    r,
                ),
            },
            None => exists|raw: Result<Vec<u8>, RunError>| #[trigger]
                call_ensures(S::range, (src, ix[at].1, span_len(ix, at, stop) as u64), raw)
                    && match bytes_result(raw) {
                    Err(e) => c1 == c0.miss() && r == Err::<Option<EntryView>, RunError>(e),
                    Ok(raw) => (c1, r) == combed(
                        ix,
                        row,
                        snapshot,
                        raw,
                        at,
                        at,
                        stop,
                        c0.miss(),
                    ),
                },
        }
    }
}

/// A point read from block `at` on, one stretch of blocks that lie one behind the other after
/// the other, until a version is found or there can be none.
pub open spec fn search<S: RangeSource>(
    src: &S,
    ix: Seq<IndexView>,
    row: Seq<u8>,
    snapshot: u64,
    at: int,
    c0: CacheView,
    c1: CacheView,
    r: Result<Option<EntryView>, RunError>,
) -> bool
    decreases ix.len() - at,
{
    let stop = span_end(ix, row, at + 1);
    if at < stop && goes_on(ix, row, at, stop) {
        exists|c: CacheView, r0: Result<Option<EntryView>, RunError>| #[trigger]
            point_read(src, ix, row, snapshot, at, stop, c0, c, r0) && if r0 == Ok::<
                Option<EntryView>,
                RunError,
            >(None) {
                search(src, ix, row, snapshot, stop, c, c1, r)
            } else {
                c1 == c && r == r0
            }
    } else {
        point_read(src, ix, row, snapshot, at, stop, c0, c1, r)
    }
}

/// The cache missed once at most.
pub open spec fn read_once(before: CacheView, after: CacheView) -> bool {
    after.misses == before.misses || after.misses == before.misses.wrapping_add(1)
}

proof fn lemma_combed_misses(
    ix: Seq<IndexView>,
    row: Seq<u8>,
    snapshot: u64,
    raw: Seq<u8>,
    first: int,
    at: int,
    stop: int,
    c: CacheView,
)
    ensures
        combed(ix, row, snapshot, raw, first, at, stop, c).0.misses == c.misses,
    decreases stop - at,
{
    if at < stop {
        match unseal(part_of(ix, raw, first, at, stop)) {
            Err(_) => {},
            Ok(b) => {
                let d = c.taking(ix[at].1, b);
                lemma_combed_misses(ix, row, snapshot, raw, first, at + 1, stop, d);
            },
        }
    }
}

proof fn lemma_point_read_misses<S: RangeSource>(
    src: &S,
    ix: Seq<IndexView>,
    row: Seq<u8>,
    snapshot: u64,
    at: int,
    stop: int,
    c0: CacheView,
    c1: CacheView,
    r: Result<Option<EntryView>, RunError>,
)
    requires
        point_read(src, ix, row, snapshot, at, stop, c0, c1, r),
    ensures
        c1.misses == c0.misses || c1.misses == c0.misses.wrapping_add(1),
    decreases stop - at,
{
    if at < stop {
        match c0.find(ix[at].1) {
            Some(b) => if seek_version(b, row, snapshot, 0) == Ok::<Option<EntryView>, RunError>(
                None,
            ) {
                lemma_point_read_misses(
                    src,
                    ix,
                    row,
                    snapshot,
                    at + 1,
                    stop,
                    c0.hit(),
                    c1,
                    r,
                );
            },
            None => {
                let raw = choose|raw: Result<Vec<u8>, RunError>| #[trigger]
                    call_ensures(S::range, (src, ix[at].1, span_len(ix, at, stop) as u64), raw)
                        && match bytes_result(raw) {
                        Err(e) => c1 == c0.miss() && r == Err::<Option<EntryView>, RunError>(e),
                        Ok(raw) => (c1, r) == combed(
                            ix,
                            row,
                            snapshot,
                            raw,
                            at,
                            at,
                            stop,
                            c0.miss(),
                        ),
                    };
                match bytes_result(raw) {
                    Err(_) => {},
                    Ok(b) => lemma_combed_misses(
                        ix,
                        row,
                        snapshot,
                        b,
                        at,
                        at,
                        stop,
                        c0.miss(),
                    ),
                }
            },
        }
    }
}

/// A point read of a run whose blocks lie one behind the other costs one ranged read at most: the
/// cache misses once or not at all, and only where it misses is the source asked, once, for all
/// the blocks that may be needed.
pub proof fn lemma_point_read_costs_one<S: RangeSource>(
    before: &Run<S>,
    after: &Run<S>,
    row: Seq<u8>,
    snapshot: u64,
    r: Result<Option<EntryView>, RunError>,
)
    requires
        locate_outcome(before, after, row, snapshot, r),
        contiguous(before.meta().index, 0, before.meta().index.len() as int),
    ensures
        read_once(before.cache@, after.cache@),
{
    let ix = before.meta().index;
    if admits(before.meta().bloom, row) && ix.len() > 0 {
        let start = choose|start: int| #[trigger]
            seek_pos(ix, versioned_key(row, snapshot), start) && search(
                &before.src,
                ix,
                row,
                snapshot,
                start,
                before.cache@,
                after.cache@,
                r,
            );
        let stop = span_end(ix, row, start + 1);
        lemma_span_end(ix, row, start + 1);
        assert(stop < ix.len() ==> adjacent(ix, stop));
        lemma_point_read_misses(
            &before.src,
            ix,
            row,
            snapshot,
            start,
            stop,
            before.cache@,
            after.cache@,
            r,
        );
    }
}

/// What is known of the end of a span.
pub proof fn lemma_span_end(ix: Seq<IndexView>, row: Seq<u8>, j: int)
    requires
        0 <= j <= ix.len(),
    ensures
        j <= span_end(ix, row, j) <= ix.len(),
        contiguous(ix, j - 1, span_end(ix, row, j)),
        ({
            let e = span_end(ix, row, j);
            e < ix.len() ==> below(versioned_key(row, 0), ix[e].0) || !adjacent(ix, e) || (e > j
                && is_version_of(ix[e - 1].0, row))
        }),
    decreases ix.len() - j,
{
    if !(j >= ix.len() || below(versioned_key(row, 0), ix[j].0) || !adjacent(ix, j)) {
        if !is_version_of(ix[j].0, row) {
            lemma_span_end(ix, row, j + 1);
        }
    }
}

/// Blocks that lie one behind the other lie at ascending offsets.
pub proof fn lemma_contiguous(ix: Seq<IndexView>, a: int, k: int, b: int)
    requires
        contiguous(ix, a, b),
        a <= k < b,
    ensures
        ix[a].1 <= ix[k].1,
        a < k ==> ix[k].1 + ix[k].2 <= u64::MAX,
    decreases k - a,
{
    if a < k {
        lemma_contiguous(ix, a, k - 1, b);
        assert(adjacent(ix, k));
    }
}

/// The entries of the blocks `got` one after another, up to the first that failed.
pub open spec fn joined(got: Seq<Answer>) -> Result<Seq<EntryView>, RunError>
    decreases got.len(),
{
    if got.len() == 0 {
        Ok(Seq::empty())
    } else {
        match joined(got.drop_last()) {
            Err(e) => Err(e),
            Ok(head) => match got.last() {
                Err(e) => Err(e),
                Ok(b) => match read_entries(b, 0) {
                    Err(e) => Err(e),
                    Ok(es) => Ok(head + es),
                },
            },
        }
    }
}

/// `r` is what reading every block straight from the source gives. Reading stops at the first
/// failure.
pub open spec fn drained<S: RangeSource>(
    src: &S,
    ix: Seq<IndexView>,
    got: Seq<Answer>,
    r: Result<Seq<EntryView>, RunError>,
) -> bool {
    &&& got.len() <= ix.len()
    &&& forall|k: int|
        0 <= k < got.len() ==> fetched(src, (#[trigger] ix[k]).1, ix[k].2, got[k])
    &&& joined(got) == r
    &&& r is Ok ==> got.len() == ix.len()
    &&& r is Err ==> got.len() > 0 && joined(got.drop_last()) is Ok
}

/// An opened run: filter and index held locally, blocks fetched on demand.
pub struct Run<S: RangeSource> {
    pub src: S,
    pub bloom: Bloom,
    /// First key, offset and length of each block, ascending by first key.
    pub index: Vec<IndexEntry>,
    pub entry_count: u64,
    /// History at or below this was dropped when the run was built.
    pub horizon: u64,
    pub cache: BlockCache,
}

impl<S: RangeSource> Run<S> {
    /// The filter, the index and the counts.
    pub open spec fn meta(&self) -> MetaView {
        MetaView {
            bloom: self.bloom@,
            index: index_view(self.index@),
            entry_count: self.entry_count,
            horizon: self.horizon,
        }
    }

    /// The byte count of the cache is right.
    pub open spec fn wf(&self) -> bool {
        self.cache.wf()
    }

    /// Nothing but the cache differs.
    pub open spec fn same_run(&self, other: &Run<S>) -> bool {
        self.src == other.src && self.bloom == other.bloom && self.index == other.index
            && self.entry_count == other.entry_count && self.horizon == other.horizon
    }

    /// Two ranged reads: the trailer, then filter and index in one call.
    pub fn open(src: S) -> (r: Result<Run<S>, RunError>)
        ensures
            match r {
                Ok(run) => {
                    &&& run.wf()
                    &&& run.src == src
                    &&& meta_read(&src, Ok(run.meta()))
                    &&& run.cache@ == new_cache()
                },
                Err(e) => meta_read(&src, Err(e)),
            },
    {
        match read_meta(&src) {
            Ok(meta) => Ok(Run::with_meta(src, meta)),
            Err(e) => Err(e),
        }
    }

    /// The same run, parsed from a copy of its bytes already in memory, so opening costs no
    /// round trip. Blocks are still read from `src` later.
    pub fn open_from_bytes(src: S, bytes: &[u8]) -> (r: Result<Run<S>, RunError>)
        ensures
            exists|n: u64| #[trigger]
                call_ensures(S::size, (&src,), n) && match r {
                    Ok(run) => {
                        &&& bytes@.len() == n
                        &&& run.wf()
                        &&& run.src == src
                        &&& meta_read(&bytes, Ok(run.meta()))
                        &&& run.cache@ == new_cache()
                    },
                    Err(e) => if bytes@.len() != n {
                        e == RunError::SizeMismatch
                    } else {
                        meta_read(&bytes, Err(e))
                    },
                },
    {
        let n: u64 = src.size();
        if bytes.len() as u64 != n {
            return Err(RunError::SizeMismatch);
        }
        match read_meta(&bytes) {
            Ok(meta) => Ok(Run::with_meta(src, meta)),
            Err(e) => Err(e),
        }
    }

    fn with_meta(src: S, meta: Meta) -> (r: Run<S>)
        ensures
            r.wf(),
            r.src == src,
            r.meta() == meta@,
            r.cache@ == new_cache(),
    {
        Run {
            src,
            bloom: meta.bloom,
            index: meta.index,
            entry_count: meta.entry_count,
            horizon: meta.horizon,
            cache: BlockCache::new(DEFAULT_CACHE_BYTES),
        }
    }

    /// Where the run is read from: the object it lives in.
    pub fn source(&self) -> (r: &S)
        ensures
            *r == self.src,
    {
        &self.src
    }

    /// One block, from the cache or one ranged read. Verified on the way in, so the cache
    /// holds only blocks that checked out.
    fn block_at(&mut self, off: u64, len: u32) -> (r: Result<Vec<u8>, RunError>)
        requires
            old(self).wf(),
        ensures
            final(self).wf(),
            final(self).same_run(&*old(self)),
            block_read(
                &old(self).src,
                old(self).cache@,
                off,
                len,
                final(self).cache@,
                bytes_result(r),
            ),
    {
        match self.cache.get(off) {
            Some(b) => Ok(b),
            None => {
                let raw = self.src.range(off, len as u64);
                let raw = match raw {
                    Ok(raw) => raw,
                    Err(e) => {
                        return Err(e);
                    },
                };
                match verify_block(raw) {
                    Ok(b) => {
                        self.cache.insert(off, slice_to_vec(b.as_slice()));
                        Ok(b)
                    },
                    Err(e) => Err(e),
                }
            },
        }
    }
}

/// The cache a run starts with.
pub open spec fn new_cache() -> CacheView {
    CacheView { blocks: Seq::empty(), cap: DEFAULT_CACHE_BYTES as nat, hits: 0, misses: 0 }
}

/// The entries of a block that came back as `a`.
pub open spec fn decoded(a: Answer) -> Result<Seq<EntryView>, RunError> {
    match a {
        Err(e) => Err(e),
        Ok(b) => read_entries(b, 0),
    }
}

fn copy_entry(e: &Entry) -> (r: Entry)
    ensures
        (r.0@, r.1@) == (e.0@, e.1@),
{
    (slice_to_vec(e.0.as_slice()), e.1.copy())
}

/// The entries a scan has found, and what it has counted.
struct Found {
    out: Vec<Entry>,
    rows: KeyMap<bool>,
    over: bool,
}

impl Found {
    spec fn is(&self, w: Walk) -> bool {
        &&& entries_view(self.out@) == w.out
        &&& self.rows.wf()
        &&& self.rows@.dom() == w.rows
        &&& w.rows.finite()
        &&& self.rows.keys().len() == w.rows.len()
        &&& self.over == w.over
    }

    fn new() -> (r: Found)
        ensures
            forall|at: int| r.is(#[trigger] Walk::begin(at)),
    {
        let r = Found { out: Vec::new(), rows: KeyMap::new(), over: false };
        proof {
            assert(entries_view(r.out@) =~= Seq::empty());
            assert(r.rows@.dom() =~= Set::empty());
        }
        r
    }

    fn keep(&mut self, e: &Entry, Ghost(w): Ghost<Walk>)
        requires
            old(self).is(w),
        ensures
            final(self).is(w.keep((e.0@, e.1@))),
    {
        let ghost was = entries_view(self.out@);
        let kept = copy_entry(e);
        self.out.push(kept);
        proof {
            assert(entries_view(self.out@) =~= was.push((e.0@, e.1@)));
        }
    }

    fn keep_row(&mut self, e: &Entry, limit: usize, Ghost(w): Ghost<Walk>)
        requires
            old(self).is(w),
            !w.over,
        ensures
            final(self).is(w.keep_row((e.0@, e.1@), limit as nat)),
    {
        match row_of(e.0.as_slice()) {
            Some(row) => {
                if self.rows.find(row).0 {
                    self.keep(e, Ghost(w));
                } else if self.rows.len() == limit {
                    self.over = true;
                } else {
                    let ghost was = self.rows@;
                    let _new = self.rows.insert(slice_to_vec(row), true);
                    proof {
                        assert(self.rows@.dom() =~= was.dom().insert(row@));
                    }
                    self.keep(e, Ghost(Walk { rows: w.rows.insert(row_part(e.0@)), ..w }));
                }
            },
            None => {
                self.keep(e, Ghost(w));
            },
        }
    }

    fn meet_prefix(&mut self, es: &Vec<Entry>, prefix: &[u8], Ghost(w): Ghost<Walk>)
        requires
            old(self).is(w),
        ensures
            final(self).is(w.steps(Query::Prefix { prefix: prefix@ }, entries_view(es@))),
    {
        let ghost q = Query::Prefix { prefix: prefix@ };
        let ghost all = entries_view(es@);
        let mut i: usize = 0;
        proof {
            assert(all.take(0) =~= Seq::empty());
        }
        while i < es.len() && !self.over
            invariant
                i <= es@.len(),
                all == entries_view(es@),
                q == (Query::Prefix { prefix: prefix@ }),
                self.is(w.steps(q, all.take(i as int))),
            decreases es@.len() - i,
        {
            let ghost v = w.steps(q, all.take(i as int));
            proof {
                assert(all.take(i + 1).drop_last() =~= all.take(i as int));
                assert(all.take(i + 1).last() == all[i as int]);
            }
            let e = &es[i];
            if !is_below(e.0.as_slice(), prefix) {
                if !starts_with(e.0.as_slice(), prefix) {
                    self.over = true;
                } else {
                    self.keep(e, Ghost(v));
                }
            }
            i += 1;
        }
        proof {
            let v = w.steps(q, all.take(i as int));
            assert(all =~= all.take(i as int) + all.skip(i as int));
            lemma_steps_add(w, q, all.take(i as int), all.skip(i as int));
            if v.over {
                lemma_steps_over(v, q, all.skip(i as int));
            } else {
                assert(all.skip(i as int) =~= Seq::empty());
            }
        }
    }

    fn meet_range(
        &mut self,
        es: &Vec<Entry>,
        lo: &[u8],
        hi: &[u8],
        snapshot: u64,
        limit: usize,
        Ghost(w): Ghost<Walk>,
    )
        requires
            old(self).is(w),
        ensures
            final(self).is(
                w.steps(
                    (Query::Range { lo: lo@, hi: hi@, snapshot, limit: limit as nat }),
                    entries_view(es@),
                ),
            ),
    {
        let ghost q = Query::Range { lo: lo@, hi: hi@, snapshot, limit: limit as nat };
        let ghost all = entries_view(es@);
        let mut i: usize = 0;
        proof {
            assert(all.take(0) =~= Seq::empty());
        }
        while i < es.len() && !self.over
            invariant
                i <= es@.len(),
                all == entries_view(es@),
                q == (Query::Range { lo: lo@, hi: hi@, snapshot, limit: limit as nat }),
                self.is(w.steps(q, all.take(i as int))),
            decreases es@.len() - i,
        {
            let ghost v = w.steps(q, all.take(i as int));
            proof {
                assert(all.take(i + 1).drop_last() =~= all.take(i as int));
                assert(all.take(i + 1).last() == all[i as int]);
            }
            let e = &es[i];
            let k = e.0.as_slice();
            if !is_below(row_or_key(k), lo) {
                if !is_below(k, hi) {
                    self.over = true;
                } else {
                    let newer: bool = match seq_of(k) {
                        Some(s) => s > snapshot,
                        None => false,
                    };
                    if !newer {
                        self.keep_row(e, limit, Ghost(v));
                    }
                }
            }
            i += 1;
        }
        proof {
            let v = w.steps(q, all.take(i as int));
            assert(all =~= all.take(i as int) + all.skip(i as int));
            lemma_steps_add(w, q, all.take(i as int), all.skip(i as int));
            if v.over {
                lemma_steps_over(v, q, all.skip(i as int));
            } else {
                assert(all.skip(i as int) =~= Seq::empty());
            }
        }
    }

    fn meet_back(
        &mut self,
        es: &Vec<Entry>,
        lo: &[u8],
        hi: &[u8],
        snapshot: u64,
        limit: usize,
        Ghost(w): Ghost<Walk>,
    )
        requires
            old(self).is(w),
        ensures
            final(self).is(
                w.steps(
                    (Query::Back { lo: lo@, hi: hi@, snapshot, limit: limit as nat }),
                    entries_view(es@).reverse(),
                ),
            ),
    {
        let ghost q = Query::Back { lo: lo@, hi: hi@, snapshot, limit: limit as nat };
        let ghost all = entries_view(es@).reverse();
        let n: usize = es.len();
        let mut i: usize = 0;
        proof {
            assert(all.take(0) =~= Seq::empty());
        }
        while i < n && !self.over
            invariant
                i <= n == es@.len(),
                all == entries_view(es@).reverse(),
                q == (Query::Back { lo: lo@, hi: hi@, snapshot, limit: limit as nat }),
                self.is(w.steps(q, all.take(i as int))),
            decreases n - i,
        {
            let ghost v = w.steps(q, all.take(i as int));
            proof {
                assert(all.take(i + 1).drop_last() =~= all.take(i as int));
                assert(all.take(i + 1).last() == all[i as int]);
                assert(all[i as int] == entries_view(es@)[n - 1 - i]);
            }
            let e = &es[n - 1 - i];
            let k = e.0.as_slice();
            if is_below(k, hi) && !is_below(row_or_key(k), lo) {
                let newer: bool = match seq_of(k) {
                    Some(s) => s > snapshot,
                    None => false,
                };
                if !newer {
                    self.keep_row(e, limit, Ghost(v));
                }
            }
            i += 1;
        }
        proof {
            let v = w.steps(q, all.take(i as int));
            assert(all =~= all.take(i as int) + all.skip(i as int));
            lemma_steps_add(w, q, all.take(i as int), all.skip(i as int));
            if v.over {
                lemma_steps_over(v, q, all.skip(i as int));
            } else {
                assert(all.skip(i as int) =~= Seq::empty());
            }
        }
    }
}

proof fn lemma_read_push<S: RangeSource>(
    src: &S,
    ix: Seq<IndexView>,
    c0: CacheView,
    reads: Seq<Read>,
    c: CacheView,
    read: Read,
    c1: CacheView,
)
    requires
        blocks_read(src, ix, c0, reads, c),
        0 <= read.0 < ix.len(),
        block_read(src, c, ix[read.0].1, ix[read.0].2, c1, read.1),
    ensures
        blocks_read(src, ix, c0, reads.push(read), c1),
{
    let all = reads.push(read);
    assert(all.drop_last() =~= reads);
    assert(all.last() == read);
    reveal(blocks_read);
    assert(blocks_read(src, ix, c0, all.drop_last(), c));
}

proof fn lemma_read_none<S: RangeSource>(src: &S, ix: Seq<IndexView>, c0: CacheView)
    ensures
        blocks_read(src, ix, c0, Seq::empty(), c0),
{
    reveal(blocks_read);
}

proof fn lemma_walk_none(ix: Seq<IndexView>, q: Query, start: int)
    ensures
        walked(ix, q, start, Seq::empty()) == Some(Walk::begin(start)),
{
    reveal(walked);
}

proof fn lemma_walk_push(
    ix: Seq<IndexView>,
    q: Query,
    start: int,
    reads: Seq<Read>,
    w: Walk,
    a: Answer,
)
    requires
        walked(ix, q, start, reads) == Some(w),
        w.wants(ix, q),
    ensures
        walked(ix, q, start, reads.push((w.at, a))) == Some(w.advance(ix, q, a)),
{
    assert(reads.push((w.at, a)).drop_last() =~= reads);
    reveal(walked);
}

/// `r` is what a scan for `q` gives on the run `before`, and `after` is the run afterwards.
pub open spec fn scan_outcome<S: RangeSource>(
    before: &Run<S>,
    after: &Run<S>,
    q: Query,
    start: int,
    r: Result<Seq<EntryView>, RunError>,
) -> bool {
    exists|reads: Seq<Read>| #[trigger]
        blocks_read(&before.src, before.meta().index, before.cache@, reads, after.cache@)
            && scanned(before.meta().index, q, start, reads, r)
}

impl<S: RangeSource> Run<S> {
    /// The entries of the block at `pos` in the index.
    fn entries_at(&mut self, pos: usize) -> (r: Result<Vec<Entry>, RunError>)
        requires
            old(self).wf(),
            pos < old(self).index@.len(),
        ensures
            final(self).wf(),
            final(self).same_run(&*old(self)),
            exists|a: Answer| #[trigger]
                block_read(
                    &old(self).src,
                    old(self).cache@,
                    old(self).index@[pos as int].1,
                    old(self).index@[pos as int].2,
                    final(self).cache@,
                    a,
                ) && entries_result(r) == decoded(a),
    {
        let off: u64 = self.index[pos].1;
        let len: u32 = self.index[pos].2;
        match self.block_at(off, len) {
            Err(e) => Err(e),
            Ok(b) => decode_block(b.as_slice()),
        }
    }

    /// Every stored key in `[lo, hi)`, in order, stopping once `limit` distinct rows have
    /// been seen.
    ///
    /// Bounds are plain byte strings and the range is half-open. Stored keys carry a version
    /// suffix, so one row can appear several times; the limit counts rows. Versions above
    /// `snapshot` are left out here rather than by the caller: counted, they would fill the
    /// page with rows the snapshot cannot see.
    pub fn scan_range_limited(&mut self, lo: &[u8], hi: &[u8], snapshot: u64, limit: usize) -> (r:
        Result<Vec<Entry>, RunError>)
        requires
            old(self).wf(),
        ensures
            final(self).wf(),
            final(self).same_run(&*old(self)),
            if old(self).index@.len() == 0 || !below(lo@, hi@) || limit == 0 {
                entries_result(r) == Ok::<Seq<EntryView>, RunError>(Seq::empty())
                    && final(self).cache@ == old(self).cache@
            } else {
                exists|start: int| #[trigger]
                    seek_pos(old(self).meta().index, lo@, start) && scan_outcome(
                        &*old(self),
                        &*final(self),
                        (Query::Range { lo: lo@, hi: hi@, snapshot, limit: limit as nat }),
                        start,
                        entries_result(r),
                    )
            },
    {
        if self.index.len() == 0 || !is_below(lo, hi) || limit == 0 {
            let none: Vec<Entry> = Vec::new();
            proof {
                assert(entries_view(none@) =~= Seq::empty());
            }
            return Ok(none);
        }
        let start: usize = seek_index(&self.index, lo);
        let ghost q = Query::Range { lo: lo@, hi: hi@, snapshot, limit: limit as nat };
        let ghost ix = self.meta().index;
        let ghost mut reads: Seq<Read> = Seq::empty();
        let ghost mut w = Walk::begin(start as int);
        let mut found = Found::new();
        let mut pos: usize = start;
        proof {
            lemma_read_none(&self.src, ix, self.cache@);
            lemma_walk_none(ix, q, start as int);
        }
        while pos < self.index.len() && !found.over && is_below(self.index[pos].0.as_slice(), hi)
            invariant
                self.wf(),
                self.same_run(&*old(self)),
                ix == index_view(self.index@),
                ix == old(self).meta().index,
                ix.len() > 0,
                q == (Query::Range { lo: lo@, hi: hi@, snapshot, limit: limit as nat }),
                seek_pos(ix, lo@, start as int),
                pos <= self.index@.len(),
                walked(ix, q, start as int, reads) == Some(w),
                blocks_read(&self.src, ix, old(self).cache@, reads, self.cache@),
                found.is(w),
                w.at == pos,
                w.failed is None,
                below(lo@, hi@),
                limit > 0,
            decreases self.index@.len() - pos,
        {
            let ghost c = self.cache@;
            let got = self.entries_at(pos);
            let ghost a = choose|a: Answer| #[trigger]
                block_read(
                    &self.src,
                    c,
                    self.index@[pos as int].1,
                    self.index@[pos as int].2,
                    self.cache@,
                    a,
                ) && entries_result(got) == decoded(a);
            proof {
                lemma_read_push(
                    &self.src,
                    ix,
                    old(self).cache@,
                    reads,
                    c,
                    (pos as int, a),
                    self.cache@,
                );
                lemma_walk_push(ix, q, start as int, reads, w, a);
                reads = reads.push((pos as int, a));
            }
            match got {
                Err(e) => {
                    return Err(e);
                },
                Ok(es) => {
                    found.meet_range(&es, lo, hi, snapshot, limit, Ghost(w));
                },
            }
            proof {
                lemma_steps_keep(w, q, decoded(a).unwrap());
                w = w.advance(ix, q, a);
            }
            pos += 1;
        }
        Ok(found.out)
    }

    /// The last `limit` rows of `[lo, hi)`, still in ascending order.
    ///
    /// Blocks are walked from the top down, so a scan reading backwards stops as early as a
    /// forward one does. A version of a row below the range can sort among those of the range;
    /// it is passed over.
    pub fn scan_range_back(&mut self, lo: &[u8], hi: &[u8], snapshot: u64, limit: usize) -> (r:
        Result<Vec<Entry>, RunError>)
        requires
            old(self).wf(),
        ensures
            final(self).wf(),
            final(self).same_run(&*old(self)),
            if old(self).index@.len() == 0 || !below(lo@, hi@) || limit == 0 {
                entries_result(r) == Ok::<Seq<EntryView>, RunError>(Seq::empty())
                    && final(self).cache@ == old(self).cache@
            } else {
                scan_outcome(
                    &*old(self),
                    &*final(self),
                    (Query::Back { lo: lo@, hi: hi@, snapshot, limit: limit as nat }),
                    last_below(old(self).meta().index, hi@, old(self).index@.len() - 1),
                    entries_result(r),
                )
            },
    {
        if self.index.len() == 0 || !is_below(lo, hi) || limit == 0 {
            let none: Vec<Entry> = Vec::new();
            proof {
                assert(entries_view(none@) =~= Seq::empty());
            }
            return Ok(none);
        }
        let ghost q = Query::Back { lo: lo@, hi: hi@, snapshot, limit: limit as nat };
        let ghost ix = self.meta().index;
        let ghost start = last_below(ix, hi@, self.index@.len() - 1);
        let ghost mut reads: Seq<Read> = Seq::empty();
        let ghost mut w = Walk::begin(start);
        let mut found = Found::new();
        let mut pos: usize = self.index.len();
        proof {
            lemma_read_none(&self.src, ix, self.cache@);
            lemma_walk_none(ix, q, start);
        }
        while pos > 0 && !found.over
            invariant
                self.wf(),
                self.same_run(&*old(self)),
                ix == index_view(self.index@),
                ix == old(self).meta().index,
                ix.len() > 0,
                q == (Query::Back { lo: lo@, hi: hi@, snapshot, limit: limit as nat }),
                start == last_below(ix, hi@, ix.len() - 1),
                pos <= self.index@.len(),
                walked(ix, q, start, reads) == Some(w),
                blocks_read(&self.src, ix, old(self).cache@, reads, self.cache@),
                found.is(w),
                w.at == last_below(ix, hi@, pos - 1),
                w.failed is None,
                below(lo@, hi@),
                limit > 0,
            decreases pos,
        {
            pos -= 1;
            proof {
                assert(ix[pos as int].0 == self.index@[pos as int].0@);
            }
            if is_below(self.index[pos].0.as_slice(), hi) {
                let ghost c = self.cache@;
                let got = self.entries_at(pos);
                let ghost a = choose|a: Answer| #[trigger]
                    block_read(
                        &self.src,
                        c,
                        self.index@[pos as int].1,
                        self.index@[pos as int].2,
                        self.cache@,
                        a,
                    ) && entries_result(got) == decoded(a);
                proof {
                    lemma_read_push(
                        &self.src,
                        ix,
                        old(self).cache@,
                        reads,
                        c,
                        (pos as int, a),
                        self.cache@,
                    );
                    lemma_walk_push(ix, q, start, reads, w, a);
                    reads = reads.push((pos as int, a));
                }
                match got {
                    Err(e) => {
                        return Err(e);
                    },
                    Ok(es) => {
                        found.meet_back(&es, lo, hi, snapshot, limit, Ghost(w));
                    },
                }
                if !is_below(lo, self.index[pos].0.as_slice()) {
                    found.over = true;
                }
                proof {
                    lemma_steps_keep(w, q, decoded(a).unwrap().reverse());
                    w = w.advance(ix, q, a);
                }
            }
        }
        let ghost up = entries_view(found.out@);
        let out = reversed(found.out);
        proof {
            assert(!w.wants(ix, q));
            assert(entries_view(out@) =~= up.reverse());
        }
        Ok(out)
    }

    /// Every entry whose key starts with `prefix`, in key order.
    ///
    /// Seeks rather than scans: the index picks the first block that can hold the prefix, and
    /// the walk stops at the first key past it.
    pub fn scan_prefix(&mut self, prefix: &[u8]) -> (r: Result<Vec<Entry>, RunError>)
        requires
            old(self).wf(),
        ensures
            final(self).wf(),
            final(self).same_run(&*old(self)),
            if old(self).index@.len() == 0 {
                entries_result(r) == Ok::<Seq<EntryView>, RunError>(Seq::empty())
                    && final(self).cache@ == old(self).cache@
            } else {
                exists|start: int| #[trigger]
                    seek_pos(old(self).meta().index, prefix@, start) && scan_outcome(
                        &*old(self),
                        &*final(self),
                        (Query::Prefix { prefix: prefix@ }),
                        start,
                        entries_result(r),
                    )
            },
    {
        if self.index.len() == 0 {
            let none: Vec<Entry> = Vec::new();
            proof {
                assert(entries_view(none@) =~= Seq::empty());
            }
            return Ok(none);
        }
        let start: usize = seek_index(&self.index, prefix);
        let ghost q = Query::Prefix { prefix: prefix@ };
        let ghost ix = self.meta().index;
        let ghost mut reads: Seq<Read> = Seq::empty();
        let ghost mut w = Walk::begin(start as int);
        let mut found = Found::new();
        let mut pos: usize = start;
        proof {
            lemma_read_none(&self.src, ix, self.cache@);
            lemma_walk_none(ix, q, start as int);
        }
        while pos < self.index.len() && !found.over && !(is_below(
            prefix,
            self.index[pos].0.as_slice(),
        ) && !starts_with(self.index[pos].0.as_slice(), prefix))
            invariant
                self.wf(),
                self.same_run(&*old(self)),
                ix == index_view(self.index@),
                ix == old(self).meta().index,
                ix.len() > 0,
                q == (Query::Prefix { prefix: prefix@ }),
                seek_pos(ix, prefix@, start as int),
                pos <= self.index@.len(),
                walked(ix, q, start as int, reads) == Some(w),
                blocks_read(&self.src, ix, old(self).cache@, reads, self.cache@),
                found.is(w),
                w.at == pos,
                w.failed is None,
            decreases self.index@.len() - pos,
        {
            let ghost c = self.cache@;
            let got = self.entries_at(pos);
            let ghost a = choose|a: Answer| #[trigger]
                block_read(
                    &self.src,
                    c,
                    self.index@[pos as int].1,
                    self.index@[pos as int].2,
                    self.cache@,
                    a,
                ) && entries_result(got) == decoded(a);
            proof {
                lemma_read_push(
                    &self.src,
                    ix,
                    old(self).cache@,
                    reads,
                    c,
                    (pos as int, a),
                    self.cache@,
                );
                lemma_walk_push(ix, q, start as int, reads, w, a);
                reads = reads.push((pos as int, a));
            }
            match got {
                Err(e) => {
                    return Err(e);
                },
                Ok(es) => {
                    found.meet_prefix(&es, prefix, Ghost(w));
                },
            }
            proof {
                lemma_steps_keep(w, q, decoded(a).unwrap());
                w = w.advance(ix, q, a);
            }
            pos += 1;
        }
        Ok(found.out)
    }

    /// The version of `row_key` live at `snapshot`, with its versioned key, so the caller can
    /// read the sequence number off it.
    pub fn locate_at(&mut self, row_key: &[u8], snapshot: u64) -> (r: Result<
        Option<Entry>,
        RunError,
    >)
        requires
            old(self).wf(),
        ensures
            final(self).wf(),
            final(self).same_run(&*old(self)),
            locate_outcome(&*old(self), &*final(self), row_key@, snapshot, entry_result(r)),
            contiguous(old(self).meta().index, 0, old(self).index@.len() as int) ==> read_once(
                old(self).cache@,
                final(self).cache@,
            ),
    {
        let r = self.look_up(row_key, snapshot);
        proof {
            if contiguous(old(self).meta().index, 0, old(self).index@.len() as int) {
                lemma_point_read_costs_one(
                    &*old(self),
                    &*self,
                    row_key@,
                    snapshot,
                    entry_result(r),
                );
            }
        }
        r
    }

    fn look_up(&mut self, row_key: &[u8], snapshot: u64) -> (r: Result<
        Option<Entry>,
        RunError,
    >)
        requires
            old(self).wf(),
        ensures
            final(self).wf(),
            final(self).same_run(&*old(self)),
            locate_outcome(&*old(self), &*final(self), row_key@, snapshot, entry_result(r)),
    {
        if !self.bloom.may_contain(row_key) || self.index.len() == 0 {
            return Ok(None);
        }
        let probe: Vec<u8> = seek_at(row_key, snapshot);
        let start: usize = seek_index(&self.index, probe.as_slice());
        let ghost ix = self.meta().index;
        let mut at: usize = start;
        let mut stop: usize = span_stop(&self.index, row_key, at);
        while is_more(&self.index, row_key, at, stop)
            invariant
                self.wf(),
                self.same_run(&*old(self)),
                ix == index_view(self.index@),
                ix == old(self).meta().index,
                start <= at < stop <= self.index@.len(),
                admits(old(self).meta().bloom, row_key@),
                seek_pos(ix, versioned_key(row_key@, snapshot), start as int),
                stop == span_end(ix, row_key@, at + 1),
                contiguous(ix, at as int, stop as int),
                forall|c1: CacheView, r: Result<Option<EntryView>, RunError>| #[trigger]
                    search(
                        &self.src,
                        ix,
                        row_key@,
                        snapshot,
                        at as int,
                        self.cache@,
                        c1,
                        r,
                    ) ==> search(
                        &self.src,
                        ix,
                        row_key@,
                        snapshot,
                        start as int,
                        old(self).cache@,
                        c1,
                        r,
                    ),
            decreases self.index@.len() - at,
        {
            let ghost c0 = self.cache@;
            let ghost src = self.src;
            let r = self.look_in(row_key, snapshot, at, stop);
            let ghost c = self.cache@;
            match r {
                Ok(None) => {
                    proof {
                        assert forall|c1: CacheView, r: Result<Option<EntryView>, RunError>|
                            #[trigger]
                            search(
                                &src,
                                ix,
                                row_key@,
                                snapshot,
                                stop as int,
                                c,
                                c1,
                                r,
                            ) implies search(
                            &src,
                            ix,
                            row_key@,
                            snapshot,
                            start as int,
                            old(self).cache@,
                            c1,
                            r,
                        ) by {
                            assert(search(&src, ix, row_key@, snapshot, at as int, c0, c1, r));
                        }
                    }
                    at = stop;
                    stop = span_stop(&self.index, row_key, at);
                },
                r => {
                    proof {
                        assert(search(
                            &src,
                            ix,
                            row_key@,
                            snapshot,
                            at as int,
                            c0,
                            c,
                            entry_result(r),
                        ));
                    }
                    return r;
                },
            }
        }
        let ghost c0 = self.cache@;
        let ghost src = self.src;
        let r = self.look_in(row_key, snapshot, at, stop);
        proof {
            assert(search(
                &src,
                ix,
                row_key@,
                snapshot,
                at as int,
                c0,
                self.cache@,
                entry_result(r),
            ));
        }
        r
    }

    /// Looks for a version of a row in blocks that lie one behind the other.
    fn look_in(&mut self, row_key: &[u8], snapshot: u64, start: usize, stop: usize) -> (r: Result<
        Option<Entry>,
        RunError,
    >)
        requires
            old(self).wf(),
            start < stop <= old(self).index@.len(),
            contiguous(old(self).meta().index, start as int, stop as int),
        ensures
            final(self).wf(),
            final(self).same_run(&*old(self)),
            point_read(
                &old(self).src,
                old(self).meta().index,
                row_key@,
                snapshot,
                start as int,
                stop as int,
                old(self).cache@,
                final(self).cache@,
                entry_result(r),
            ),
    {
        let ghost ix = self.meta().index;
        let mut pos: usize = start;
        while pos < stop
            invariant
                self.wf(),
                self.same_run(&*old(self)),
                ix == index_view(self.index@),
                ix == old(self).meta().index,
                start <= pos <= stop <= self.index@.len(),
                contiguous(ix, start as int, stop as int),
                forall|c1: CacheView, r: Result<Option<EntryView>, RunError>| #[trigger]
                    point_read(
                        &self.src,
                        ix,
                        row_key@,
                        snapshot,
                        pos as int,
                        stop as int,
                        self.cache@,
                        c1,
                        r,
                    ) ==> point_read(
                        &self.src,
                        ix,
                        row_key@,
                        snapshot,
                        start as int,
                        stop as int,
                        old(self).cache@,
                        c1,
                        r,
                    ),
            decreases stop - pos,
        {
            let off: u64 = self.index[pos].1;
            let ghost c = self.cache@;
            proof {
                assert(ix[pos as int].1 == off);
            }
            match self.cache.get(off) {
                Some(b) => match seek_block(b.as_slice(), row_key, snapshot) {
                    Err(e) => {
                        proof {
                            let r: Result<Option<EntryView>, RunError> = Err(e);
                            assert(point_read(
                                &self.src,
                                ix,
                                row_key@,
                                snapshot,
                                pos as int,
                                stop as int,
                                c,
                                c.hit(),
                                r,
                            ));
                        }
                        return Err(e);
                    },
                    Ok(Some(e)) => {
                        proof {
                            let r: Result<Option<EntryView>, RunError> = Ok(Some((e.0@, e.1@)));
                            assert(point_read(
                                &self.src,
                                ix,
                                row_key@,
                                snapshot,
                                pos as int,
                                stop as int,
                                c,
                                c.hit(),
                                r,
                            ));
                        }
                        return Ok(Some(e));
                    },
                    Ok(None) => {
                        proof {
                            assert forall|c1: CacheView, r: Result<Option<EntryView>, RunError>|
                                #[trigger]
                                point_read(
                                    &self.src,
                                    ix,
                                    row_key@,
                                    snapshot,
                                    pos + 1,
                                    stop as int,
                                    self.cache@,
                                    c1,
                                    r,
                                ) implies point_read(
                                &self.src,
                                ix,
                                row_key@,
                                snapshot,
                                start as int,
                                stop as int,
                                old(self).cache@,
                                c1,
                                r,
                            ) by {
                                assert(point_read(
                                    &self.src,
                                    ix,
                                    row_key@,
                                    snapshot,
                                    pos as int,
                                    stop as int,
                                    c,
                                    c1,
                                    r,
                                ));
                            }
                        }
                        pos += 1;
                    },
                },
                None => {
                    proof {
                        lemma_contiguous(ix, start as int, pos as int, stop as int);
                        lemma_contiguous(ix, start as int, stop - 1, stop as int);
                        assert(contiguous(ix, pos as int, stop as int));
                        lemma_contiguous(ix, pos as int, stop - 1, stop as int);
                    }
                    let len: u64 = (self.index[stop - 1].1 - off) + self.index[stop - 1].2 as u64;
                    let got = self.src.range(off, len);
                    let raw = match got {
                        Ok(raw) => raw,
                        Err(e) => {
                            proof {
                                let r: Result<Option<EntryView>, RunError> = Err(e);
                                assert(call_ensures(S::range, (&self.src, off, len), got));
                                assert(point_read(
                                    &self.src,
                                    ix,
                                    row_key@,
                                    snapshot,
                                    pos as int,
                                    stop as int,
                                    c,
                                    c.miss(),
                                    r,
                                ));
                            }
                            return Err(e);
                        },
                    };
                    let ghost src = self.src;
                    let ghost bytes = raw@;
                    let r = self.comb(row_key, snapshot, &raw, pos, stop);
                    proof {
                        assert(call_ensures(S::range, (&src, off, len), got));
                        assert(point_read(
                            &src,
                            ix,
                            row_key@,
                            snapshot,
                            pos as int,
                            stop as int,
                            c,
                            self.cache@,
                            entry_result(r),
                        ));
                    }
                    return r;
                },
            }
        }
        proof {
            assert(point_read(
                &self.src,
                ix,
                row_key@,
                snapshot,
                pos as int,
                stop as int,
                self.cache@,
                self.cache@,
                Ok(None),
            ));
        }
        Ok(None)
    }

    /// Looks for a version of `row` in blocks that were read at once. Blocks are verified one by
    /// one, so the cache holds only blocks that checked out.
    fn comb(
        &mut self,
        row: &[u8],
        snapshot: u64,
        raw: &Vec<u8>,
        first: usize,
        stop: usize,
    ) -> (r: Result<Option<Entry>, RunError>)
        requires
            old(self).wf(),
            first < stop <= old(self).index@.len(),
            contiguous(old(self).meta().index, first as int, stop as int),
        ensures
            final(self).wf(),
            final(self).same_run(&*old(self)),
            (final(self).cache@, entry_result(r)) == combed(
                old(self).meta().index,
                row@,
                snapshot,
                raw@,
                first as int,
                first as int,
                stop as int,
                old(self).cache@,
            ),
    {
        let ghost ix = self.meta().index;
        let base: u64 = self.index[first].1;
        let n: usize = raw.len();
        let mut at: usize = first;
        while at < stop
            invariant
                self.wf(),
                self.same_run(&*old(self)),
                ix == index_view(self.index@),
                ix == old(self).meta().index,
                n == raw@.len(),
                first <= at <= stop <= self.index@.len(),
                base == ix[first as int].1,
                contiguous(ix, first as int, stop as int),
                combed(
                    ix,
                    row@,
                    snapshot,
                    raw@,
                    first as int,
                    first as int,
                    stop as int,
                    old(self).cache@,
                ) == combed(
                    ix,
                    row@,
                    snapshot,
                    raw@,
                    first as int,
                    at as int,
                    stop as int,
                    self.cache@,
                ),
            decreases stop - at,
        {
            proof {
                lemma_contiguous(ix, first as int, at as int, stop as int);
            }
            let off: u64 = self.index[at].1;
            let len: u32 = self.index[at].2;
            let d: u64 = off - base;
            let from: usize = if d < n as u64 {
                d as usize
            } else {
                n
            };
            let to: usize = if at == stop - 1 || n - from < len as usize {
                n
            } else {
                from + len as usize
            };
            let part = slice_to_vec(slice_subrange(raw.as_slice(), from, to));
            proof {
                assert(part@ =~= part_of(ix, raw@, first as int, at as int, stop as int));
            }
            match verify_block(part) {
                Err(e) => {
                    return Err(e);
                },
                Ok(b) => {
                    let copy = slice_to_vec(b.as_slice());
                    self.cache.take_in(off, copy);
                    match seek_block(b.as_slice(), row, snapshot) {
                        Err(e) => {
                            return Err(e);
                        },
                        Ok(Some(e)) => {
                            return Ok(Some(e));
                        },
                        Ok(None) => {},
                    }
                },
            }
            at += 1;
        }
        Ok(None)
    }

    /// The version of `row_key` live at `snapshot`. At most one ranged read.
    pub fn get_at(&mut self, row_key: &[u8], snapshot: u64) -> (r: Result<Option<Op>, RunError>)
        requires
            old(self).wf(),
        ensures
            final(self).wf(),
            final(self).same_run(&*old(self)),
            exists|e: Result<Option<EntryView>, RunError>| #[trigger]
                locate_outcome(&*old(self), &*final(self), row_key@, snapshot, e) && match r {
                    Ok(Some(op)) => e matches Ok(Some(v)) && op@ == v.1,
                    Ok(None) => e == Ok::<Option<EntryView>, RunError>(None),
                    Err(err) => e == Err::<Option<EntryView>, RunError>(err),
                },
            contiguous(old(self).meta().index, 0, old(self).index@.len() as int) ==> read_once(
                old(self).cache@,
                final(self).cache@,
            ),
    {
        match self.locate_at(row_key, snapshot) {
            Ok(Some(e)) => Ok(Some(e.1)),
            Ok(None) => Ok(None),
            Err(e) => Err(e),
        }
    }

    /// The sequence number of the version live at `snapshot`.
    pub fn seq_at(&mut self, row_key: &[u8], snapshot: u64) -> (r: Result<Option<u64>, RunError>)
        requires
            old(self).wf(),
        ensures
            final(self).wf(),
            final(self).same_run(&*old(self)),
            exists|e: Result<Option<EntryView>, RunError>| #[trigger]
                locate_outcome(&*old(self), &*final(self), row_key@, snapshot, e) && r == match e {
                    Ok(Some(v)) => Ok(seq_part(v.0)),
                    Ok(None) => Ok(None),
                    Err(err) => Err(err),
                },
            contiguous(old(self).meta().index, 0, old(self).index@.len() as int) ==> read_once(
                old(self).cache@,
                final(self).cache@,
            ),
    {
        match self.locate_at(row_key, snapshot) {
            Ok(Some(e)) => Ok(seq_of(e.0.as_slice())),
            Ok(None) => Ok(None),
            Err(e) => Err(e),
        }
    }

    pub fn block_count(&self) -> (r: usize)
        ensures
            r == self.index@.len(),
    {
        self.index.len()
    }

    /// How often the local block cache was hit, and how often missed.
    pub fn cache_stats(&self) -> (r: (u64, u64))
        ensures
            r == (self.cache@.hits, self.cache@.misses),
    {
        self.cache.stats()
    }

    /// Changes the size of the block cache. What it holds stays until the next block comes in.
    pub fn set_cache_bytes(&mut self, cap: usize)
        requires
            old(self).wf(),
        ensures
            final(self).wf(),
            final(self).same_run(&*old(self)),
            final(self).cache@ == (CacheView { cap: cap as nat, ..old(self).cache@ }),
    {
        self.cache.set_cap(cap);
    }

    /// Every entry in key order, tombstones and all. Used by compaction: one ranged read per
    /// block, straight from the source and past the cache, since nothing it reads will be
    /// read again.
    pub fn scan(&self) -> (r: Result<Vec<Entry>, RunError>)
        ensures
            exists|got: Seq<Answer>| #[trigger]
                drained(&self.src, self.meta().index, got, entries_result(r)),
    {
        let ghost ix = self.meta().index;
        let ghost mut got: Seq<Answer> = Seq::empty();
        let mut out: Vec<Entry> = Vec::new();
        let mut i: usize = 0;
        proof {
            assert(entries_view(out@) =~= Seq::empty());
        }
        while i < self.index.len()
            invariant
                ix == index_view(self.index@),
                i <= self.index@.len(),
                got.len() == i,
                forall|k: int|
                    0 <= k < got.len() ==> fetched(
                        &self.src,
                        (#[trigger] ix[k]).1,
                        ix[k].2,
                        got[k],
                    ),
                joined(got) == Ok::<Seq<EntryView>, RunError>(entries_view(out@)),
            decreases self.index@.len() - i,
        {
            let ghost before = got;
            let ghost was = entries_view(out@);
            let off: u64 = self.index[i].1;
            let len: u32 = self.index[i].2;
            let raw = self.src.range(off, len as u64);
            let block = match raw {
                Err(e) => Err(e),
                Ok(raw) => verify_block(raw),
            };
            proof {
                got = got.push(bytes_result(block));
                assert(got.drop_last() =~= before);
                assert(ix[i as int].1 == off && ix[i as int].2 == len);
                assert(fetched(&self.src, off, len, bytes_result(block)));
            }
            let es = match block {
                Err(e) => {
                    proof {
                        assert(drained(
                            &self.src,
                            self.meta().index,
                            got,
                            entries_result(Err(e)),
                        ));
                    }
                    return Err(e);
                },
                Ok(b) => match decode_block(b.as_slice()) {
                    Err(e) => {
                        proof {
                            assert(drained(
                            &self.src,
                            self.meta().index,
                            got,
                            entries_result(Err(e)),
                        ));
                        }
                        return Err(e);
                    },
                    Ok(es) => es,
                },
            };
            let mut es = es;
            let ghost more = entries_view(es@);
            let ghost a = out@;
            let ghost b = es@;
            out.append(&mut es);
            proof {
                assert(out@ =~= a + b);
                assert(entries_view(out@) =~= was + more);
            }
            i += 1;
        }
        proof {
            assert(drained(&self.src, ix, got, Ok(entries_view(out@))));
        }
        Ok(out)
    }
}

/// `r` is what a point read gives on the run `before`, and `after` is the run afterwards. A
/// row that the filter denies costs nothing.
pub open spec fn locate_outcome<S: RangeSource>(
    before: &Run<S>,
    after: &Run<S>,
    row: Seq<u8>,
    snapshot: u64,
    r: Result<Option<EntryView>, RunError>,
) -> bool {
    let ix = before.meta().index;
    if !admits(before.meta().bloom, row) || ix.len() == 0 {
        r == Ok::<Option<EntryView>, RunError>(None) && after.cache@ == before.cache@
    } else {
        exists|start: int| #[trigger]
            seek_pos(ix, versioned_key(row, snapshot), start) && search(
                &before.src,
                ix,
                row,
                snapshot,
                start,
                before.cache@,
                after.cache@,
                r,
            )
    }
}

fn follows(index: &Vec<IndexEntry>, j: usize) -> (r: bool)
    requires
        0 < j < index@.len(),
    ensures
        r == adjacent(index_view(index@), j as int),
{
    let before: u64 = index[j - 1].1;
    let gap: u64 = index[j - 1].2 as u64;
    let off: u64 = index[j].1;
    off >= before && off - before == gap && index[j].2 as u64 <= u64::MAX - off
}

/// Up to which block a version of `row` is to be looked for, from block `start` on.
fn span_stop(index: &Vec<IndexEntry>, row: &[u8], start: usize) -> (r: usize)
    requires
        start < index@.len(),
    ensures
        r == span_end(index_view(index@), row@, start + 1),
        start < r <= index@.len(),
        contiguous(index_view(index@), start as int, r as int),
{
    let oldest = seek_at(row, 0);
    let ghost ix = index_view(index@);
    assert(start < index.len());
    let mut j: usize = start + 1;
    proof {
        lemma_span_end(ix, row@, start + 1);
    }
    while j < index.len()
        invariant
            start < j <= index@.len(),
            ix == index_view(index@),
            oldest@ == versioned_key(row@, 0),
            span_end(ix, row@, j as int) == span_end(ix, row@, start + 1),
            contiguous(ix, start as int, span_end(ix, row@, start + 1)),
        decreases index@.len() - j,
    {
        proof {
            assert(ix[j as int].0 == index@[j as int].0@);
        }
        if is_below(oldest.as_slice(), index[j].0.as_slice()) || !follows(index, j) {
            return j;
        }
        if belongs_to(index[j].0.as_slice(), row) {
            return j + 1;
        }
        j += 1;
    }
    j
}

/// A version of `row` may be in a block that does not lie behind those from `start` up to `stop`.
fn is_more(index: &Vec<IndexEntry>, row: &[u8], start: usize, stop: usize) -> (r: bool)
    requires
        start < stop <= index@.len(),
    ensures
        r == goes_on(index_view(index@), row@, start as int, stop as int),
{
    let ghost ix = index_view(index@);
    if stop == index.len() {
        return false;
    }
    proof {
        assert(ix[stop as int].0 == index@[stop as int].0@);
        assert(ix[stop - 1].0 == index@[stop - 1].0@);
    }
    let oldest = seek_at(row, 0);
    !is_below(oldest.as_slice(), index[stop].0.as_slice()) && !(stop - 1 > start && belongs_to(
        index[stop - 1].0.as_slice(),
        row,
    ))
}

fn reversed(es: Vec<Entry>) -> (r: Vec<Entry>)
    ensures
        r@ == es@.reverse(),
{
    let mut es = es;
    let mut r: Vec<Entry> = Vec::new();
    let ghost all = es@;
    while es.len() > 0
        invariant
            es@ == all.take(es@.len() as int),
            r@.len() + es@.len() == all.len(),
            forall|i: int| 0 <= i < r@.len() ==> #[trigger] r@[i] == all[all.len() - 1 - i],
        decreases es@.len(),
    {
        let ghost was = es@;
        match es.pop() {
            Some(e) => {
                proof {
                    assert(es@ =~= all.take(es@.len() as int));
                    assert(e == all[es@.len() as int]);
                }
                r.push(e);
            },
            None => {},
        }
    }
    proof {
        assert(r@ =~= all.reverse());
    }
    r
}

} // verus!
