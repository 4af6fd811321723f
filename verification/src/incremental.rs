//! Which blocks of a relation an incremental backup takes, going by the summaries of the log.
use crate::image::{LIMIT, PAGE};
use crate::incremental_manifest::{Uploaded, WalRange};
use crate::pages::{block_at, data_offset, good_blocks, increment_fault};
use crate::refusal::{refuse, seen, Refusal};
use crate::native::{lemma_native_reads_back, native, native_at, put_word};
use crate::text::{chars_of, decimal, push_dec, text_of};
use crate::wire::{lsn_chars, lsn_text, push_upper_hex_padded, upper_hex_padded};
use vstd::prelude::*;
use vstd::slice::slice_subrange;
use vstd::utf8::encode_utf8;

verus! {

/// How many blocks a segment of a relation has.
pub const RELSEG_SIZE: u32 = 131072;

/// The first word of an incremental file.
pub const MAGIC: u32 = 0xd3ae1f0d;

/// What is taken of a file: these blocks, and how long the file is to be at least.
pub struct FilePlan {
    pub blocks: Vec<u32>,
    pub truncation: u32,
}

/// Words one after another, in the machine's order.
pub open spec fn words_of(words: Seq<u32>) -> Seq<u8>
    decreases words.len(),
{
    if words.len() == 0 {
        Seq::empty()
    } else {
        words_of(words.drop_last()) + native(words.last() as nat, 4)
    }
}

/// The words of an incremental file's header: the magic number, how many blocks there are, the
/// truncation, and the blocks.
pub open spec fn header_words(blocks: Seq<u32>, truncation: u32) -> Seq<u32> {
    seq![MAGIC, blocks.len() as u32, truncation] + blocks
}

proof fn lemma_words_len(words: Seq<u32>)
    ensures
        words_of(words).len() == 4 * words.len(),
    decreases words.len(),
{
    if words.len() > 0 {
        lemma_words_len(words.drop_last());
        crate::codec::lemma_le_len(words.last() as nat, 4);
    }
}

/// The header of an incremental file: its words, and zeros up to where the pages begin.
pub open spec fn header_bytes(blocks: Seq<u32>, truncation: u32) -> Seq<u8> {
    words_of(header_words(blocks, truncation)) + Seq::new(
        (data_offset(blocks.len()) - 12 - 4 * blocks.len()) as nat,
        |i: int| 0u8,
    )
}

impl FilePlan {
    /// How long the header is.
    pub fn header_size(&self) -> (r: usize)
        requires
            data_offset(self.blocks@.len()) <= usize::MAX - PAGE,
        ensures
            r == data_offset(self.blocks@.len()),
    {
        let n: usize = self.blocks.len();
        if n == 0 {
            12
        } else {
            proof {
                let x = 12 + self.blocks@.len() * 4 + PAGE - 1;
                vstd::arithmetic::div_mod::lemma_fundamental_div_mod(x as int, PAGE as int);
                vstd::arithmetic::div_mod::lemma_mod_bound(x as int, PAGE as int);
            }
            (12 + n * 4 + PAGE - 1) / PAGE * PAGE
        }
    }

    /// How long the incremental file is.
    pub fn size(&self) -> (r: i64)
        requires
            data_offset(self.blocks@.len()) + self.blocks@.len() * PAGE <= i64::MAX,
            data_offset(self.blocks@.len()) + self.blocks@.len() * PAGE <= usize::MAX - PAGE,
        ensures
            r == data_offset(self.blocks@.len()) + self.blocks@.len() * PAGE,
    {
        (self.header_size() + self.blocks.len() * PAGE) as i64
    }

    /// The header of the incremental file. Its words have the machine's order.
    pub fn header(&self) -> (r: Vec<u8>)
        requires
            data_offset(self.blocks@.len()) <= usize::MAX - PAGE,
            self.blocks@.len() <= u32::MAX,
        ensures
            r@ == header_bytes(self.blocks@, self.truncation),
            r@.len() == data_offset(self.blocks@.len()),
            native_at(r@, 0, 4) == MAGIC,
            native_at(r@, 4, 4) == self.blocks@.len(),
            native_at(r@, 8, 4) == self.truncation,
            forall|i: int|
                0 <= i < self.blocks@.len() ==> #[trigger] block_at(r@, i) == self.blocks@[i],
            forall|i: int|
                12 + 4 * self.blocks@.len() <= i < r@.len() ==> #[trigger] r@[i] == 0,
    {
        proof {
            lemma_header_reads_back(self.blocks@, self.truncation);
        }
        let mut out: Vec<u8> = Vec::new();
        put_word(&mut out, MAGIC);
        put_word(&mut out, self.blocks.len() as u32);
        put_word(&mut out, self.truncation);
        let ghost words = header_words(self.blocks@, self.truncation);
        proof {
            let a = words.take(1);
            let b = words.take(2);
            let c = words.take(3);
            assert(words.take(0) =~= Seq::empty());
            assert(a.drop_last() =~= words.take(0) && a.last() == MAGIC);
            assert(b.drop_last() =~= a && b.last() == self.blocks@.len() as u32);
            assert(c.drop_last() =~= b && c.last() == self.truncation);
            assert(words_of(words.take(0)) =~= Seq::empty());
            assert(words_of(a) =~= native(MAGIC as nat, 4));
            assert(words_of(b) =~= native(MAGIC as nat, 4) + native(self.blocks@.len(), 4));
            assert(out@ =~= words_of(c));
        }
        let mut i: usize = 0;
        while i < self.blocks.len()
            invariant
                words == header_words(self.blocks@, self.truncation),
                i <= self.blocks@.len(),
                out@ == words_of(words.take(3 + i)),
            decreases self.blocks@.len() - i,
        {
            put_word(&mut out, self.blocks[i]);
            proof {
                let t = words.take(3 + i + 1);
                assert(t.drop_last() =~= words.take(3 + i));
                assert(t.last() == self.blocks@[i as int]);
            }
            i += 1;
        }
        let size: usize = self.header_size();
        proof {
            assert(words.take(words.len() as int) =~= words);
            lemma_words_len(words);
            let x = 12 + self.blocks@.len() * 4 + PAGE - 1;
            vstd::arithmetic::div_mod::lemma_fundamental_div_mod(x as int, PAGE as int);
            vstd::arithmetic::div_mod::lemma_mod_bound(x as int, PAGE as int);
        }
        let ghost full = out@;
        while out.len() < size
            invariant
                full.len() <= out@.len() <= size,
                out@ == full + Seq::new((out@.len() - full.len()) as nat, |i: int| 0u8),
            decreases size - out@.len(),
        {
            let ghost was = out@;
            out.push(0);
            proof {
                assert(out@ =~= full + Seq::new((out@.len() - full.len()) as nat, |i: int| 0u8));
            }
        }
        out
    }
}

/// A timeline in the history of a server: where it begins and ends. The end of the current one
/// is zero.
#[derive(Clone, Copy, Debug, PartialEq, Eq, Structural)]
pub struct HistoryEntry {
    pub tli: u32,
    pub begin: u64,
    pub end: u64,
}

/// The position of timeline `t` in a history.
pub open spec fn timeline_at(history: Seq<HistoryEntry>, t: u32) -> Option<int>
    decreases history.len(),
{
    if history.len() == 0 {
        None
    } else {
        match timeline_at(history.drop_last(), t) {
            Some(i) => Some(i),
            None => if history.last().tli == t {
                Some(history.len() - 1)
            } else {
                None
            },
        }
    }
}

proof fn lemma_timeline_first(history: Seq<HistoryEntry>, t: u32, n: int)
    requires
        0 <= n <= history.len(),
        timeline_at(history.take(n), t) is Some,
    ensures
        timeline_at(history, t) == timeline_at(history.take(n), t),
    decreases history.len() - n,
{
    if n == history.len() {
        assert(history.take(n) =~= history);
    } else {
        assert(history.take(n + 1).drop_last() =~= history.take(n));
        lemma_timeline_first(history, t, n + 1);
    }
}

fn find_timeline(history: &[HistoryEntry], t: u32) -> (r: Option<usize>)
    ensures
        match r {
            Some(i) => timeline_at(history@, t) == Some(i as int) && i < history@.len(),
            None => timeline_at(history@, t) is None,
        },
{
    let mut i: usize = 0;
    proof {
        assert(history@.take(0) =~= Seq::empty());
    }
    while i < history.len()
        invariant
            i <= history@.len(),
            timeline_at(history@.take(i as int), t) is None,
        decreases history@.len() - i,
    {
        proof {
            assert(history@.take(i + 1).drop_last() =~= history@.take(i as int));
            assert(history@.take(i + 1).last() == history@[i as int]);
        }
        if history[i].tli == t {
            proof {
                lemma_timeline_first(history@, t, i + 1);
            }
            return Some(i);
        }
        i += 1;
    }
    proof {
        assert(history@.take(history@.len() as int) =~= history@);
    }
    None
}

/// Where each of the ranges stands in the history, if all do.
pub open spec fn positions_of(prior: Seq<WalRange>, history: Seq<HistoryEntry>) -> Option<Seq<int>>
    decreases prior.len(),
{
    if prior.len() == 0 {
        Some(Seq::empty())
    } else {
        match (positions_of(prior.drop_last(), history), timeline_at(history, prior.last().tli)) {
            (Some(s), Some(i)) => Some(s.push(i)),
            _ => None,
        }
    }
}

/// The largest of some numbers, and zero where there are none.
pub open spec fn largest(s: Seq<int>) -> int
    decreases s.len(),
{
    if s.len() == 0 {
        0
    } else if s.len() > 1 && largest(s.drop_last()) > s.last() {
        largest(s.drop_last())
    } else {
        s.last()
    }
}

/// The smallest of some numbers, and zero where there are none.
pub open spec fn smallest(s: Seq<int>) -> int
    decreases s.len(),
{
    if s.len() == 0 {
        0
    } else if s.len() > 1 && smallest(s.drop_last()) < s.last() {
        smallest(s.drop_last())
    } else {
        s.last()
    }
}

/// Where the first range of timeline `t` begins.
pub open spec fn origin_of(prior: Seq<WalRange>, t: u32) -> u64
    decreases prior.len(),
{
    if prior.len() == 0 {
        0
    } else if prior[0].tli == t {
        prior[0].start
    } else {
        origin_of(prior.skip(1), t)
    }
}

/// A range that does not fit the history, where it stands at `i` and the ranges reach from
/// `first`, the oldest, to `last`.
pub open spec fn misfit(range: WalRange, h: HistoryEntry, i: int, first: int, last: int, start: u64) -> bool {
    ||| i == first && range.start < h.begin
    ||| i != first && range.start != h.begin
    ||| i != last && range.end != h.end
    ||| range.end > start
    ||| h.end != 0 && range.end > h.end
}

/// The log of timeline number `i` of the history that is needed.
pub open spec fn stretch(history: Seq<HistoryEntry>, first: int, origin: u64, start: u64, i: int) -> WalRange {
    WalRange {
        tli: history[i].tli,
        start: if i == first {
            origin
        } else {
            history[i].begin
        },
        end: if i == 0 {
            start
        } else {
            history[i].end
        },
    }
}

/// The log that is needed, oldest first, from the timeline at `first` down to the one at `i`.
pub open spec fn stretches(
    history: Seq<HistoryEntry>,
    first: int,
    origin: u64,
    start: u64,
    i: int,
) -> Seq<WalRange>
    decreases first - i + 1,
{
    if i > first {
        Seq::empty()
    } else {
        let s = stretch(history, first, origin, start, i);
        let before = stretches(history, first, origin, start, i + 1);
        if s.start < s.end {
            before.push(s)
        } else {
            before
        }
    }
}

/// The log whose summaries an incremental backup that begins at `start` needs, where the
/// previous backup needed `prior`.
pub open spec fn needed_ranges(prior: Seq<WalRange>, history: Seq<HistoryEntry>, start: u64) -> Result<
    Seq<WalRange>,
    Seq<char>,
> {
    match positions_of(prior, history) {
        None => Err("manifest timeline is not in server history"@),
        Some(at) => if prior.len() == 0 {
            Err("manifest contains no WAL ranges"@)
        } else {
            let first = largest(at);
            let last = smallest(at);
            let origin = origin_of(prior, history[first].tli);
            if prior.len() != first - last + 1 {
                Err("manifest timeline ranges are discontinuous"@)
            } else if exists|k: int|
                0 <= k < prior.len() && misfit(
                    #[trigger] prior[k],
                    history[at[k]],
                    at[k],
                    first,
                    last,
                    start,
                ) {
                Err("manifest WAL bounds do not match server history"@)
            } else if origin >= start {
                Err("incremental backup requires a later checkpoint"@)
            } else {
                Ok(stretches(history, first, origin, start, 0))
            }
        },
    }
}

pub open spec fn ranges_result(r: Result<Vec<WalRange>, Refusal>) -> Result<
    Seq<WalRange>,
    Seq<char>,
> {
    match r {
        Ok(v) => Ok(v@),
        Err(e) => Err(e@),
    }
}

proof fn lemma_positions_none(prior: Seq<WalRange>, history: Seq<HistoryEntry>, n: int)
    requires
        0 <= n <= prior.len(),
        positions_of(prior.take(n), history) is None,
    ensures
        positions_of(prior, history) is None,
    decreases prior.len() - n,
{
    if n == prior.len() {
        assert(prior.take(n) =~= prior);
    } else {
        assert(prior.take(n + 1).drop_last() =~= prior.take(n));
        lemma_positions_none(prior, history, n + 1);
    }
}

spec fn as_ints(v: Seq<usize>) -> Seq<int> {
    Seq::new(v.len(), |i: int| v[i] as int)
}

fn find_positions(prior: &[WalRange], history: &[HistoryEntry]) -> (r: Option<Vec<usize>>)
    ensures
        match r {
            Some(v) => positions_of(prior@, history@) == Some(as_ints(v@)) && v@.len()
                == prior@.len() && forall|i: int|
                0 <= i < v@.len() ==> #[trigger] v@[i] < history@.len() && timeline_at(
                    history@,
                    prior@[i].tli,
                ) == Some(v@[i] as int),
            None => positions_of(prior@, history@) is None,
        },
{
    let mut v: Vec<usize> = Vec::new();
    let mut i: usize = 0;
    proof {
        assert(prior@.take(0) =~= Seq::empty());
        assert(as_ints(v@) =~= Seq::empty());
    }
    while i < prior.len()
        invariant
            i <= prior@.len(),
            v@.len() == i,
            positions_of(prior@.take(i as int), history@) == Some(as_ints(v@)),
            forall|j: int|
                0 <= j < i ==> #[trigger] v@[j] < history@.len() && timeline_at(
                    history@,
                    prior@[j].tli,
                ) == Some(v@[j] as int),
        decreases prior@.len() - i,
    {
        proof {
            assert(prior@.take(i + 1).drop_last() =~= prior@.take(i as int));
            assert(prior@.take(i + 1).last() == prior@[i as int]);
        }
        match find_timeline(history, prior[i].tli) {
            Some(p) => {
                let ghost was = as_ints(v@);
                v.push(p);
                proof {
                    assert(as_ints(v@) =~= was.push(p as int));
                }
            },
            None => {
                proof {
                    lemma_positions_none(prior@, history@, i + 1);
                }
                return None;
            },
        }
        i += 1;
    }
    proof {
        assert(prior@.take(prior@.len() as int) =~= prior@);
    }
    Some(v)
}

fn bounds_of(at: &Vec<usize>) -> (r: (usize, usize))
    requires
        at@.len() > 0,
    ensures
        r.0 == largest(as_ints(at@)),
        r.1 == smallest(as_ints(at@)),
        r.1 <= r.0,
        at@.contains(r.0),
{
    let ghost s = as_ints(at@);
    let mut hi: usize = at[0];
    let mut lo: usize = at[0];
    let mut i: usize = 1;
    proof {
        assert(s.take(1).last() == at@[0]);
        assert(largest(s.take(1)) == at@[0]);
        assert(smallest(s.take(1)) == at@[0]);
    }
    while i < at.len()
        invariant
            s == as_ints(at@),
            1 <= i <= at@.len(),
            hi == largest(s.take(i as int)),
            lo == smallest(s.take(i as int)),
            lo <= hi,
            at@.contains(hi),
        decreases at@.len() - i,
    {
        proof {
            assert(s.take(i + 1).drop_last() =~= s.take(i as int));
            assert(s.take(i + 1).last() == at@[i as int]);
        }
        if hi <= at[i] {
            hi = at[i];
        }
        if at[i] <= lo {
            lo = at[i];
        }
        i += 1;
    }
    proof {
        assert(s.take(s.len() as int) =~= s);
    }
    (hi, lo)
}

fn find_origin(prior: &[WalRange], t: u32) -> (r: u64)
    ensures
        r == origin_of(prior@, t),
{
    let mut i: usize = 0;
    proof {
        assert(prior@.skip(0) =~= prior@);
    }
    while i < prior.len()
        invariant
            i <= prior@.len(),
            origin_of(prior@, t) == origin_of(prior@.skip(i as int), t),
        decreases prior@.len() - i,
    {
        proof {
            assert(prior@.skip(i as int)[0] == prior@[i as int]);
            assert(prior@.skip(i as int).skip(1) =~= prior@.skip(i + 1));
        }
        if prior[i].tli == t {
            return prior[i].start;
        }
        i += 1;
    }
    0
}

/// The log whose summaries an incremental backup that begins at `start` needs, oldest first.
/// `prior` is what the previous backup needed, `history` the server's timelines, newest first.
pub fn required_ranges(prior: &[WalRange], history: &[HistoryEntry], start: u64) -> (r: Result<
    Vec<WalRange>,
    Refusal,
>)
    ensures
        ranges_result(r) == needed_ranges(prior@, history@, start),
{
    let at = match find_positions(prior, history) {
        Some(v) => v,
        None => return Err(refuse("manifest timeline is not in server history")),
    };
    if prior.len() == 0 {
        return Err(refuse("manifest contains no WAL ranges"));
    }
    let (first, last) = bounds_of(&at);
    let ghost places = as_ints(at@);
    proof {
        let k = choose|k: int| 0 <= k < at@.len() && at@[k] == first;
        assert(at@[k] < history@.len());
    }
    let origin: u64 = find_origin(prior, history[first].tli);
    if prior.len() - 1 != first - last {
        return Err(refuse("manifest timeline ranges are discontinuous"));
    }
    let mut k: usize = 0;
    while k < prior.len()
        invariant
            k <= prior@.len() == at@.len(),
            places == as_ints(at@),
            forall|j: int| 0 <= j < at@.len() ==> #[trigger] at@[j] < history@.len(),
            forall|j: int|
                0 <= j < k ==> !misfit(
                    #[trigger] prior@[j],
                    history@[places[j]],
                    places[j],
                    first as int,
                    last as int,
                    start,
                ),
            positions_of(prior@, history@) == Some(places),
            prior@.len() > 0,
            prior@.len() == first - last + 1,
            first == largest(places),
            last == smallest(places),
        decreases prior@.len() - k,
    {
        let i: usize = at[k];
        let h = history[i];
        let range = prior[k];
        if (i == first && range.start < h.begin) || (i != first && range.start != h.begin) || (i
            != last && range.end != h.end) || range.end > start || (h.end != 0 && range.end
            > h.end) {
            proof {
                assert(misfit(
                    prior@[k as int],
                    history@[places[k as int]],
                    places[k as int],
                    first as int,
                    last as int,
                    start,
                ));
            }
            return Err(refuse("manifest WAL bounds do not match server history"));
        }
        k += 1;
    }
    if origin >= start {
        return Err(refuse("incremental backup requires a later checkpoint"));
    }
    let mut out: Vec<WalRange> = Vec::new();
    let mut i: usize = first + 1;
    proof {
        assert(out@ =~= Seq::empty());
    }
    while i > 0
        invariant
            i <= first + 1 <= history@.len(),
            out@ == stretches(history@, first as int, origin, start, i as int),
        decreases i,
    {
        i -= 1;
        let h = history[i];
        let begin: u64 = if i == first {
            origin
        } else {
            h.begin
        };
        let end: u64 = if i == 0 {
            start
        } else {
            h.end
        };
        let ghost was = out@;
        if begin < end {
            out.push(WalRange { tli: h.tli, start: begin, end });
            proof {
                assert(out@ =~= was.push(stretch(history@, first as int, origin, start, i as int)));
            }
        }
    }
    Ok(out)
}

/// Where an incremental backup begins: with the oldest log that it needs.
pub fn first_range(ranges: &Vec<WalRange>) -> (r: Result<WalRange, Refusal>)
    ensures
        seen(r) == (if ranges@.len() == 0 {
            Err("empty incremental range"@)
        } else {
            Ok(ranges@[0])
        }),
{
    if ranges.len() == 0 {
        return Err(refuse("empty incremental range"));
    }
    Ok(ranges[0])
}

/// How far summaries, taken in order, cover the log from `cursor` on without a gap: up to `end`,
/// or where the gap is.
pub open spec fn covered(cursor: u64, summaries: Seq<(u64, u64)>, end: u64) -> Result<(), u64>
    decreases summaries.len(),
{
    if summaries.len() == 0 || summaries[0].0 > cursor {
        Err(cursor)
    } else {
        let next = if summaries[0].1 > cursor {
            summaries[0].1
        } else {
            cursor
        };
        if next >= end {
            Ok(())
        } else {
            covered(next, summaries.skip(1), end)
        }
    }
}

/// Says where there is a gap.
pub open spec fn gap_text(t: u32, at: u64) -> Seq<char> {
    "WAL summaries are incomplete on timeline "@ + decimal(t as nat) + " at "@ + lsn_chars(at)
}

/// Checks that summaries, taken in order, cover a range.
pub fn check_coverage(range: &WalRange, summaries: &[(u64, u64)]) -> (r: Result<(), Refusal>)
    ensures
        seen(r) == (match covered(range.start, summaries@, range.end) {
            Ok(_) => Ok(()),
            Err(at) => Err(gap_text(range.tli, at)),
        }),
{
    let mut cursor: u64 = range.start;
    let mut i: usize = 0;
    proof {
        assert(summaries@.skip(0) =~= summaries@);
    }
    while i < summaries.len() && summaries[i].0 <= cursor
        invariant
            i <= summaries@.len(),
            covered(range.start, summaries@, range.end) == covered(
                cursor,
                summaries@.skip(i as int),
                range.end,
            ),
        decreases summaries@.len() - i,
    {
        proof {
            assert(summaries@.skip(i as int)[0] == summaries@[i as int]);
            assert(summaries@.skip(i as int).skip(1) =~= summaries@.skip(i + 1));
        }
        if summaries[i].1 > cursor {
            cursor = summaries[i].1;
        }
        if cursor >= range.end {
            return Ok(());
        }
        i += 1;
    }
    proof {
        if i < summaries@.len() {
            assert(summaries@.skip(i as int)[0] == summaries@[i as int]);
        }
    }
    let mut why = "WAL summaries are incomplete on timeline ".to_owned();
    push_dec(&mut why, range.tli as u64);
    why.append(" at ");
    why.append(lsn_text(cursor).as_str());
    proof {
        assert(why@ =~= gap_text(range.tli, cursor));
    }
    Err(Refusal { why })
}

/// Summaries that are accepted for a range leave no position of it out.
pub proof fn lemma_coverage_is_complete(
    start: u64,
    end: u64,
    summaries: Seq<(u64, u64)>,
    p: u64,
)
    requires
        covered(start, summaries, end) is Ok,
        start <= p < end,
    ensures
        exists|i: int|
            0 <= i < summaries.len() && (#[trigger] summaries[i]).0 <= p < summaries[i].1,
    decreases summaries.len(),
{
    let next = if summaries[0].1 > start {
        summaries[0].1
    } else {
        start
    };
    if p < next {
        assert(summaries[0].0 <= p < summaries[0].1);
    } else {
        let rest = summaries.skip(1);
        lemma_coverage_is_complete(next, end, rest, p);
        let i = choose|i: int| 0 <= i < rest.len() && (#[trigger] rest[i]).0 <= p < rest[i].1;
        assert(summaries[i + 1] == rest[i]);
    }
}

/// A summary of the log of a timeline.
#[derive(Clone, Copy, Debug, PartialEq, Eq, Structural)]
pub struct Summary {
    pub tli: u32,
    pub start: u64,
    pub end: u64,
}

/// `a` comes before `b`, or they cover the same log.
pub open spec fn not_after(a: Summary, b: Summary) -> bool {
    a.start < b.start || (a.start == b.start && a.end <= b.end)
}

pub open spec fn in_order(s: Seq<Summary>) -> bool {
    forall|i: int, j: int| 0 <= i < j < s.len() ==> not_after(#[trigger] s[i], #[trigger] s[j])
}

/// Puts summaries in order.
pub fn sort_summaries(files: &Vec<Summary>) -> (r: Vec<Summary>)
    ensures
        in_order(r@),
        r@.to_multiset() == files@.to_multiset(),
{
    let mut out: Vec<Summary> = Vec::new();
    let mut i: usize = 0;
    proof {
        assert(files@.take(0) =~= Seq::empty());
        assert(out@ =~= Seq::empty());
    }
    while i < files.len()
        invariant
            i <= files@.len(),
            in_order(out@),
            out@.to_multiset() == files@.take(i as int).to_multiset(),
        decreases files@.len() - i,
    {
        let x = files[i];
        let mut p: usize = out.len();
        while p > 0 && (x.start < out[p - 1].start || (x.start == out[p - 1].start && x.end < out[p
            - 1].end))
            invariant
                p <= out@.len(),
                in_order(out@),
                forall|j: int| p <= j < out@.len() ==> not_after(x, #[trigger] out@[j]),
            decreases p,
        {
            p -= 1;
        }
        let ghost was = out@;
        out.insert(p, x);
        proof {
            let now = out@;
            assert forall|a: int, b: int| 0 <= a < b < now.len() implies not_after(
                #[trigger] now[a],
                #[trigger] now[b],
            ) by {
                let pa = if a < p {
                    a
                } else {
                    a - 1
                };
                let pb = if b < p {
                    b
                } else {
                    b - 1
                };
                if a != p {
                    assert(now[a] == was[pa]);
                }
                if b != p {
                    assert(now[b] == was[pb]);
                }
                if b == p {
                    assert(not_after(was[p - 1], x));
                    if pa < p - 1 {
                        assert(not_after(was[pa], was[p - 1]));
                    }
                }
            }
            vstd::seq_lib::to_multiset_insert(was, p as int, x);
            assert(now =~= was.insert(p as int, x));
            assert(files@.take(i + 1) =~= files@.take(i as int).push(x));
            vstd::seq_lib::to_multiset_build(files@.take(i as int), x);
        }
        i += 1;
    }
    proof {
        assert(files@.take(files@.len() as int) =~= files@);
    }
    out
}

/// The name of the file that holds a summary.
pub open spec fn summary_file(s: Summary) -> Seq<char> {
    "pg_wal/summaries/"@ + upper_hex_padded(s.tli as nat, 8) + upper_hex_padded(
        (s.start / 0x1_0000_0000) as nat,
        8,
    ) + upper_hex_padded((s.start % 0x1_0000_0000) as nat, 8) + upper_hex_padded(
        (s.end / 0x1_0000_0000) as nat,
        8,
    ) + upper_hex_padded((s.end % 0x1_0000_0000) as nat, 8) + ".summary"@
}

/// The name of the file that holds a summary.
pub fn summary_path(s: &Summary) -> (r: String)
    ensures
        r@ == summary_file(*s),
{
    let mut r = "pg_wal/summaries/".to_owned();
    push_upper_hex_padded(&mut r, s.tli as u64, 8);
    push_upper_hex_padded(&mut r, s.start / 0x1_0000_0000, 8);
    push_upper_hex_padded(&mut r, s.start % 0x1_0000_0000, 8);
    push_upper_hex_padded(&mut r, s.end / 0x1_0000_0000, 8);
    push_upper_hex_padded(&mut r, s.end % 0x1_0000_0000, 8);
    r.append(".summary");
    proof {
        assert(r@ =~= summary_file(*s));
    }
    r
}

/// Where the data of a relation is.
#[derive(Clone, Copy, Debug, PartialEq, Eq, Structural)]
pub struct Locator {
    pub spc: u32,
    pub db: u32,
    /// Zero stands for the database as a whole.
    pub rel: u32,
}

/// Which data of a relation.
#[derive(Clone, Copy, Debug, PartialEq, Eq, Structural)]
pub enum Fork {
    Main,
    FreeSpace,
    Visibility,
    Init,
}

/// What the summaries say of a relation: which blocks were modified, and from which block on
/// it was truncated or made anew. The largest number stands for no such block.
pub struct Modified {
    pub locator: Locator,
    pub fork: Fork,
    pub limit: u32,
    pub blocks: Vec<u32>,
}

/// What an incremental backup goes by: the manifest of the previous backup, and what the
/// summaries say.
pub struct Prepared {
    pub reference: Uploaded,
    pub table: Vec<Modified>,
}

/// What the summaries say of a relation, if anything.
pub open spec fn entry_at(table: Seq<Modified>, locator: Locator, fork: Fork) -> Option<int>
    decreases table.len(),
{
    if table.len() == 0 {
        None
    } else {
        match entry_at(table.drop_last(), locator, fork) {
            Some(i) => Some(i),
            None => if table.last().locator == locator && table.last().fork == fork {
                Some(table.len() - 1)
            } else {
                None
            },
        }
    }
}

proof fn lemma_entry_first(table: Seq<Modified>, locator: Locator, fork: Fork, n: int)
    requires
        0 <= n <= table.len(),
        entry_at(table.take(n), locator, fork) is Some,
    ensures
        entry_at(table, locator, fork) == entry_at(table.take(n), locator, fork),
    decreases table.len() - n,
{
    if n == table.len() {
        assert(table.take(n) =~= table);
    } else {
        assert(table.take(n + 1).drop_last() =~= table.take(n));
        lemma_entry_first(table, locator, fork, n + 1);
    }
}

/// Those of the first `k` blocks from `start` on that are among `blocks`, counted from `start`
/// and in order.
pub open spec fn marked(blocks: Seq<u32>, start: nat, k: nat) -> Seq<u32>
    decreases k,
{
    if k == 0 {
        Seq::empty()
    } else if blocks.contains((start + k - 1) as u32) {
        marked(blocks, start, (k - 1) as nat).push((k - 1) as u32)
    } else {
        marked(blocks, start, (k - 1) as nat)
    }
}

/// Where the last slash stands.
pub open spec fn last_slash(s: Seq<char>) -> Option<int>
    decreases s.len(),
{
    if s.len() == 0 {
        None
    } else if s.last() == '/' {
        Some(s.len() - 1)
    } else {
        last_slash(s.drop_last())
    }
}

/// The name that the increment of a file goes by.
pub open spec fn increment_path(path: Seq<char>, slash: int) -> Seq<char> {
    path.take(slash) + "/INCREMENTAL."@ + path.skip(slash + 1)
}

/// The plan for a file whose relation the summaries mention: `start` is its first block,
/// `count` how many it has.
pub open spec fn entry_plan(limit: u32, blocks: Seq<u32>, start: nat, count: nat) -> Option<
    (Seq<u32>, u32),
> {
    let changed = marked(blocks, start, count);
    if limit <= start || changed.len() * 10 > count * 9 {
        None
    } else if limit == u32::MAX {
        Some((changed, count as u32))
    } else {
        let reach = if limit - start > count {
            (limit - start) as nat
        } else {
            count
        };
        Some(
            (
                changed,
                if reach < RELSEG_SIZE {
                    reach as u32
                } else {
                    RELSEG_SIZE
                },
            ),
        )
    }
}

/// The plan for a file, and nothing where it is taken whole.
pub open spec fn plan_of(
    files: Map<Seq<u8>, u64>,
    table: Seq<Modified>,
    path: Seq<char>,
    locator: Locator,
    fork: Fork,
    seg: u32,
    size: i64,
) -> Result<Option<(Seq<u32>, u32)>, Seq<char>> {
    if size <= 0 || size as nat % PAGE as nat != 0 || size as nat / PAGE as nat > RELSEG_SIZE
        || fork == Fork::FreeSpace {
        Ok(None)
    } else {
        match last_slash(path) {
            None => Err("invalid relation backup path"@),
            Some(slash) => {
                let count = size as nat / PAGE as nat;
                if !files.dom().contains(encode_utf8(path)) && !files.dom().contains(
                    encode_utf8(increment_path(path, slash)),
                ) {
                    Ok(None)
                } else if entry_at(table, (Locator { rel: 0, ..locator }), Fork::Main) is Some {
                    Ok(None)
                } else {
                    match entry_at(table, locator, fork) {
                        None => Ok(Some((Seq::empty(), count as u32))),
                        Some(i) => if seg * RELSEG_SIZE > u32::MAX {
                            Err("relation segment overflow"@)
                        } else if seg * RELSEG_SIZE + count > u32::MAX {
                            Err("relation block overflow"@)
                        } else {
                            Ok(
                                entry_plan(
                                    table[i].limit,
                                    table[i].blocks@,
                                    (seg * RELSEG_SIZE) as nat,
                                    count,
                                ),
                            )
                        },
                    }
                }
            },
        }
    }
}

pub open spec fn plan_result(r: Result<Option<FilePlan>, Refusal>) -> Result<
    Option<(Seq<u32>, u32)>,
    Seq<char>,
> {
    match r {
        Ok(Some(p)) => Ok(Some((p.blocks@, p.truncation))),
        Ok(None) => Ok(None),
        Err(e) => Err(e@),
    }
}

fn find_last_slash(s: &[char]) -> (r: Option<usize>)
    ensures
        match r {
            Some(i) => last_slash(s@) == Some(i as int) && i < s@.len(),
            None => last_slash(s@) is None,
        },
{
    let mut n: usize = s.len();
    proof {
        assert(s@.take(n as int) =~= s@);
    }
    while n > 0
        invariant
            n <= s@.len(),
            last_slash(s@) == last_slash(s@.take(n as int)),
        decreases n,
    {
        proof {
            assert(s@.take(n as int).last() == s@[n - 1]);
            assert(s@.take(n as int).drop_last() =~= s@.take(n - 1));
        }
        if s[n - 1] == '/' {
            return Some(n - 1);
        }
        n -= 1;
    }
    None
}

fn find_entry(table: &Vec<Modified>, locator: Locator, fork: Fork) -> (r: Option<usize>)
    ensures
        match r {
            Some(i) => entry_at(table@, locator, fork) == Some(i as int) && i < table@.len(),
            None => entry_at(table@, locator, fork) is None,
        },
{
    let mut i: usize = 0;
    proof {
        assert(table@.take(0) =~= Seq::empty());
    }
    while i < table.len()
        invariant
            i <= table@.len(),
            entry_at(table@.take(i as int), locator, fork) is None,
        decreases table@.len() - i,
    {
        proof {
            assert(table@.take(i + 1).drop_last() =~= table@.take(i as int));
            assert(table@.take(i + 1).last() == table@[i as int]);
        }
        if table[i].locator == locator && table[i].fork == fork {
            proof {
                lemma_entry_first(table@, locator, fork, i + 1);
            }
            return Some(i);
        }
        i += 1;
    }
    proof {
        assert(table@.take(table@.len() as int) =~= table@);
    }
    None
}

fn mark(blocks: &Vec<u32>, start: u32, count: u32) -> (r: Vec<u32>)
    requires
        start + count <= u32::MAX,
    ensures
        r@ == marked(blocks@, start as nat, count as nat),
        r@.len() <= count,
{
    let n: usize = count as usize;
    let mut marks: Vec<bool> = vec![false; n];
    let mut i: usize = 0;
    while i < blocks.len()
        invariant
            n == count == marks@.len(),
            start + count <= u32::MAX,
            i <= blocks@.len(),
            forall|j: int|
                0 <= j < count ==> #[trigger] marks@[j] == blocks@.take(i as int).contains(
                    (start + j) as u32,
                ),
        decreases blocks@.len() - i,
    {
        let b: u32 = blocks[i];
        let ghost was = marks@;
        if b >= start && b - start < count {
            marks[(b - start) as usize] = true;
        }
        proof {
            let head = blocks@.take(i as int);
            let next = blocks@.take(i + 1);
            assert(next =~= head.push(b));
            assert forall|j: int| 0 <= j < count implies #[trigger] marks@[j] == next.contains(
                (start + j) as u32,
            ) by {
                let x = (start + j) as u32;
                assert(was[j] == head.contains(x));
                if head.contains(x) {
                    let q = choose|q: int| 0 <= q < head.len() && head[q] == x;
                    assert(next[q] == x);
                }
                if b == x {
                    assert(next[i as int] == x);
                }
                if next.contains(x) && b != x {
                    let q = choose|q: int| 0 <= q < next.len() && next[q] == x;
                    assert(q < i);
                    assert(head[q] == x);
                }
            }
        }
        i += 1;
    }
    proof {
        assert(blocks@.take(blocks@.len() as int) =~= blocks@);
    }
    let mut out: Vec<u32> = Vec::new();
    let mut k: u32 = 0;
    proof {
        assert(out@ =~= Seq::empty());
    }
    while k < count
        invariant
            n == count == marks@.len(),
            start + count <= u32::MAX,
            k <= count,
            out@.len() <= k,
            out@ == marked(blocks@, start as nat, k as nat),
            forall|j: int|
                0 <= j < count ==> #[trigger] marks@[j] == blocks@.contains((start + j) as u32),
        decreases count - k,
    {
        proof {
            assert(marks@[k as int] == blocks@.contains((start + k) as u32));
            assert((start as nat + (k + 1) as nat - 1) as u32 == (start + k) as u32);
        }
        if marks[k as usize] {
            let ghost was = out@;
            out.push(k);
            proof {
                assert(out@ =~= was.push(k));
            }
        }
        k += 1;
    }
    out
}

impl Prepared {
    pub open spec fn wf(&self) -> bool {
        self.reference.files.wf()
    }

    /// Plans how segment `seg` of a relation, a file of `size` bytes at `path`, is taken:
    /// nothing where it is taken whole. A file that is new, that is made anew, or of which
    /// more than nine tenths changed, is taken whole.
    pub fn select(&self, path: &str, locator: Locator, fork: Fork, seg: u32, size: i64) -> (r: Result<
        Option<FilePlan>,
        Refusal,
    >)
        requires
            self.wf(),
        ensures
            plan_result(r) == plan_of(
                self.reference.files@,
                self.table@,
                path@,
                locator,
                fork,
                seg,
                size,
            ),
    {
        if size <= 0 || fork == Fork::FreeSpace {
            return Ok(None);
        }
        let bytes: u64 = size as u64;
        if bytes % PAGE as u64 != 0 || bytes / PAGE as u64 > RELSEG_SIZE as u64 {
            return Ok(None);
        }
        let count: u32 = (bytes / PAGE as u64) as u32;
        let cs = chars_of(path);
        let slash: usize = match find_last_slash(cs.as_slice()) {
            Some(i) => i,
            None => return Err(refuse("invalid relation backup path")),
        };
        assert(slash < cs.len());
        let dir = slice_subrange(cs.as_slice(), 0, slash);
        let name = slice_subrange(cs.as_slice(), slash + 1, cs.len());
        let mut ipath = text_of(dir);
        ipath.append("/INCREMENTAL.");
        ipath.append(text_of(name).as_str());
        proof {
            assert(dir@ =~= path@.take(slash as int));
            assert(name@ =~= path@.skip(slash + 1));
            assert(ipath@ =~= increment_path(path@, slash as int));
        }
        if self.reference.files.get(path.as_bytes()).is_none() && self.reference.files.get(
            ipath.as_str().as_bytes(),
        ).is_none() {
            return Ok(None);
        }
        let whole = Locator { rel: 0, spc: locator.spc, db: locator.db };
        if find_entry(&self.table, whole, Fork::Main).is_some() {
            return Ok(None);
        }
        let e: usize = match find_entry(&self.table, locator, fork) {
            Some(i) => i,
            None => return Ok(Some(FilePlan { blocks: Vec::new(), truncation: count })),
        };
        let start: u32 = match seg.checked_mul(RELSEG_SIZE) {
            Some(n) => n,
            None => return Err(refuse("relation segment overflow")),
        };
        match start.checked_add(count) {
            Some(_) => {},
            None => return Err(refuse("relation block overflow")),
        }
        let limit: u32 = self.table[e].limit;
        if limit <= start {
            return Ok(None);
        }
        let blocks = mark(&self.table[e].blocks, start, count);
        if blocks.len() as u64 * 10 > count as u64 * 9 {
            return Ok(None);
        }
        let truncation: u32 = if limit == u32::MAX {
            count
        } else {
            let reach: u32 = if limit - start > count {
                limit - start
            } else {
                count
            };
            if reach < RELSEG_SIZE {
                reach
            } else {
                RELSEG_SIZE
            }
        };
        Ok(Some(FilePlan { blocks, truncation }))
    }
}

/// The blocks of a plan rise and stay below the length of the file.
pub proof fn lemma_marked(blocks: Seq<u32>, start: nat, k: nat)
    requires
        k <= u32::MAX,
    ensures
        marked(blocks, start, k).len() <= k,
        forall|i: int| 0 <= i < marked(blocks, start, k).len() ==> #[trigger] marked(blocks, start, k)[i] < k,
        forall|i: int, j: int|
            0 <= i < j < marked(blocks, start, k).len() ==> #[trigger] marked(blocks, start, k)[i]
                < #[trigger] marked(blocks, start, k)[j],
    decreases k,
{
    if k > 0 {
        lemma_marked(blocks, start, (k - 1) as nat);
    }
}

proof fn lemma_word_at(words: Seq<u32>, rest: Seq<u8>, i: int)
    requires
        0 <= i < words.len(),
    ensures
        native_at(words_of(words) + rest, 4 * i, 4) == words[i],
    decreases words.len(),
{
    let head = words.drop_last();
    lemma_words_len(head);
    lemma_words_len(words);
    let last = native(words.last() as nat, 4);
    crate::codec::lemma_le_len(words.last() as nat, 4);
    if i < head.len() {
        lemma_word_at(head, last + rest, i);
        assert(words_of(head) + (last + rest) =~= words_of(words) + rest);
        assert(head[i] == words[i]);
    } else {
        assert((words_of(words) + rest).subrange(4 * i, 4 * i + 4) =~= last);
        crate::codec::lemma_span();
        lemma_native_reads_back(words.last() as nat, 4);
    }
}

/// The header of an incremental file reads back: the magic number, how many blocks there are, the
/// truncation and each block stand there word by word, with nothing but zeros behind them, up to
/// where a page may begin if there are pages.
pub proof fn lemma_header_reads_back(blocks: Seq<u32>, truncation: u32)
    requires
        blocks.len() <= u32::MAX,
    ensures
        ({
            let h = header_bytes(blocks, truncation);
            let n = blocks.len();
            &&& h.len() == data_offset(n)
            &&& native_at(h, 0, 4) == MAGIC
            &&& native_at(h, 4, 4) == n
            &&& native_at(h, 8, 4) == truncation
            &&& forall|i: int| 0 <= i < n ==> #[trigger] block_at(h, i) == blocks[i]
            &&& forall|i: int| 12 + 4 * n <= i < h.len() ==> #[trigger] h[i] == 0
            &&& n > 0 ==> h.len() % PAGE as nat == 0
        }),
{
    let words = header_words(blocks, truncation);
    let h = header_bytes(blocks, truncation);
    let n = blocks.len();
    let pad = Seq::new((data_offset(n) - 12 - 4 * n) as nat, |i: int| 0u8);
    let x = 12 + n * 4 + PAGE - 1;
    vstd::arithmetic::div_mod::lemma_fundamental_div_mod(x as int, PAGE as int);
    vstd::arithmetic::div_mod::lemma_mod_bound(x as int, PAGE as int);
    lemma_words_len(words);
    lemma_word_at(words, pad, 0);
    lemma_word_at(words, pad, 1);
    lemma_word_at(words, pad, 2);
    assert forall|i: int| 0 <= i < n implies #[trigger] block_at(h, i) == blocks[i] by {
        lemma_word_at(words, pad, 3 + i);
        assert(words[3 + i] == blocks[i]);
    }
    if n > 0 {
        vstd::arithmetic::div_mod::lemma_mod_multiples_basic(x as int / PAGE as int, PAGE as int);
    }
}

/// What an incremental backup writes of a file, patching takes: the header of a plan whose
/// blocks rise, with the blocks behind it, is an increment of that many pages, and its blocks
/// are those of the plan.
pub proof fn lemma_plan_is_increment(blocks: Seq<u32>, truncation: u32, data: Seq<u8>)
    requires
        data.len() == blocks.len() * PAGE,
        truncation <= LIMIT / PAGE,
        forall|i: int| 0 <= i < blocks.len() ==> #[trigger] blocks[i] < LIMIT / PAGE,
        forall|i: int, j: int|
            0 <= i < j < blocks.len() ==> #[trigger] blocks[i] < #[trigger] blocks[j],
    ensures
        ({
            let bytes = header_bytes(blocks, truncation) + data;
            &&& increment_fault(bytes, blocks.len()) is None
            &&& native_at(bytes, 4, 4) == blocks.len()
            &&& native_at(bytes, 8, 4) == truncation
            &&& bytes.skip(data_offset(blocks.len()) as int) == data
            &&& forall|i: int|
                0 <= i < blocks.len() ==> #[trigger] block_at(bytes, i) == blocks[i]
        }),
{
    lemma_rising_len(blocks, (LIMIT / PAGE) as nat);
    let n = blocks.len();
    let words = header_words(blocks, truncation);
    let pad = Seq::new((data_offset(n) - 12 - 4 * n) as nat, |i: int| 0u8);
    let bytes = words_of(words) + pad + data;
    let x = 12 + n * 4 + PAGE - 1;
    vstd::arithmetic::div_mod::lemma_fundamental_div_mod(x as int, PAGE as int);
    vstd::arithmetic::div_mod::lemma_mod_bound(x as int, PAGE as int);
    lemma_words_len(words);
    assert(bytes =~= words_of(words) + (pad + data));
    lemma_word_at(words, pad + data, 0);
    lemma_word_at(words, pad + data, 1);
    lemma_word_at(words, pad + data, 2);
    assert forall|i: int| 0 <= i < n implies #[trigger] block_at(bytes, i) == blocks[i] by {
        lemma_word_at(words, pad + data, 3 + i);
        assert(words[3 + i] == blocks[i]);
    }
    assert(bytes.skip(data_offset(n) as int) =~= data);
    assert(good_blocks(bytes, n));
}

/// Rising numbers below a bound are no more than the bound.
proof fn lemma_rising_len(s: Seq<u32>, bound: nat)
    requires
        forall|i: int| 0 <= i < s.len() ==> #[trigger] s[i] < bound,
        forall|i: int, j: int| 0 <= i < j < s.len() ==> #[trigger] s[i] < #[trigger] s[j],
    ensures
        s.len() <= bound,
    decreases s.len(),
{
    if s.len() > 0 {
        let t = s.drop_last();
        assert forall|i: int| 0 <= i < t.len() implies #[trigger] t[i] < s.last() by {
            assert(t[i] == s[i]);
            assert(s[i] < s[s.len() - 1]);
        }
        assert forall|i: int, j: int| 0 <= i < j < t.len() implies #[trigger] t[i]
            < #[trigger] t[j] by {
            assert(t[i] == s[i] && t[j] == s[j]);
        }
        lemma_rising_len(t, s.last() as nat);
    }
}

} // verus!
