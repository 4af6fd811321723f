//! What an incremental backup takes of a file, and that it gives the file back.
use crate::image::{PieceView, LIMIT, PAGE};
use crate::incremental::{
    entry_at, header_bytes, increment_path, last_slash, lemma_marked, lemma_plan_is_increment,
    marked, plan_of, Fork, Locator, Modified, RELSEG_SIZE,
};
use crate::native::native_at;
use crate::page_laws::{content, is_page, leads_to, page, zeros};
use crate::pages::{block_at, data_offset, patched_len, source_of, Source};
use vstd::prelude::*;
use vstd::utf8::encode_utf8;

verus! {

/// Entry `i` is what the summaries say of a relation: the first one for it.
pub open spec fn tells_of(table: Seq<Modified>, i: int, locator: Locator, fork: Fork) -> bool {
    &&& 0 <= i < table.len()
    &&& table[i].locator == locator
    &&& table[i].fork == fork
    &&& forall|j: int|
        0 <= j < i ==> (#[trigger] table[j]).locator != locator || table[j].fork != fork
}

/// The summaries say nothing of a relation.
pub open spec fn untold(table: Seq<Modified>, locator: Locator, fork: Fork) -> bool {
    forall|j: int|
        0 <= j < table.len() ==> (#[trigger] table[j]).locator != locator || table[j].fork != fork
}

/// What the summaries say of a relation is found where they say anything, and only there.
pub proof fn lemma_entry_is_found(table: Seq<Modified>, locator: Locator, fork: Fork, i: int)
    ensures
        tells_of(table, i, locator, fork) <==> entry_at(table, locator, fork) == Some(i),
        untold(table, locator, fork) <==> entry_at(table, locator, fork) is None,
    decreases table.len(),
{
    if table.len() > 0 {
        let t = table.drop_last();
        lemma_entry_is_found(t, locator, fork, i);
        assert(forall|j: int| 0 <= j < t.len() ==> #[trigger] table[j] == t[j]);
        assert(table[table.len() - 1] == table.last());
        if tells_of(t, i, locator, fork) {
            assert(t[i] == table[i]);
            assert(tells_of(table, i, locator, fork));
        }
        match entry_at(t, locator, fork) {
            Some(k) => {
                lemma_entry_is_found(t, locator, fork, k);
                assert(t[k] == table[k]);
                if tells_of(table, i, locator, fork) {
                    if k < i {
                        assert(table[k].locator != locator || table[k].fork != fork);
                    }
                    if i < t.len() {
                        assert(tells_of(t, i, locator, fork));
                    }
                }
                assert(!untold(table, locator, fork));
            },
            None => {
                assert(untold(t, locator, fork));
                if untold(table, locator, fork) {
                    assert(table[table.len() - 1].locator != locator || table[table.len() - 1].fork
                        != fork);
                }
                if table.last().locator == locator && table.last().fork == fork {
                    assert forall|j: int| 0 <= j < table.len() - 1 implies (
                    #[trigger] table[j]).locator != locator || table[j].fork != fork by {
                        assert(t[j].locator != locator || t[j].fork != fork);
                    }
                    assert(tells_of(table, table.len() - 1, locator, fork));
                    assert(!untold(table, locator, fork));
                    if tells_of(table, i, locator, fork) && i < table.len() - 1 {
                        assert(t[i].locator != locator || t[i].fork != fork);
                    }
                } else {
                    if tells_of(table, i, locator, fork) && i < table.len() - 1 {
                        assert(t[i].locator != locator || t[i].fork != fork);
                    }
                    assert forall|j: int| 0 <= j < table.len() implies (
                    #[trigger] table[j]).locator != locator || table[j].fork != fork by {
                        if j < t.len() {
                            assert(t[j].locator != locator || t[j].fork != fork);
                        }
                    }
                }
            },
        }
    }
}

/// `changed` are the blocks of a segment that were modified, counted from its start: each of them
/// once, in rising order, and no others.
pub open spec fn changes(changed: Seq<u32>, blocks: Seq<u32>, start: nat, count: nat) -> bool {
    &&& forall|i: int, j: int|
        0 <= i < j < changed.len() ==> #[trigger] changed[i] < #[trigger] changed[j]
    &&& forall|k: u32|
        #[trigger] changed.contains(k) <==> k < count && blocks.contains((start + k) as u32)
}

proof fn lemma_marked_members(blocks: Seq<u32>, start: nat, k: nat, x: u32)
    requires
        k <= u32::MAX,
        start + k <= u32::MAX,
    ensures
        marked(blocks, start, k).contains(x) <==> x < k && blocks.contains((start + x) as u32),
    decreases k,
{
    if k > 0 {
        let j = (k - 1) as nat;
        lemma_marked_members(blocks, start, j, x);
        let before = marked(blocks, start, j);
        if blocks.contains((start + k - 1) as u32) {
            let now = before.push(j as u32);
            assert(now[now.len() - 1] == j as u32);
            if before.contains(x) {
                let i = choose|i: int| 0 <= i < before.len() && before[i] == x;
                assert(now[i] == x);
            }
            if now.contains(x) {
                let i = choose|i: int| 0 <= i < now.len() && now[i] == x;
                if i < before.len() {
                    assert(before[i] == x);
                }
            }
        }
    }
}

/// Rising numbers with the same members are the same.
proof fn lemma_rising_unique(a: Seq<u32>, b: Seq<u32>)
    requires
        forall|i: int, j: int| 0 <= i < j < a.len() ==> #[trigger] a[i] < #[trigger] a[j],
        forall|i: int, j: int| 0 <= i < j < b.len() ==> #[trigger] b[i] < #[trigger] b[j],
        forall|k: u32| #[trigger] a.contains(k) <==> b.contains(k),
    ensures
        a == b,
    decreases a.len(),
{
    if a.len() == 0 {
        if b.len() > 0 {
            assert(b.contains(b[0]));
            assert(a.contains(b[0]));
        }
        assert(a =~= b);
    } else {
        assert(a.contains(a.last()));
        assert(b.contains(a.last()));
        assert(b.contains(b.last()));
        assert(a.contains(b.last()));
        let p = choose|p: int| 0 <= p < b.len() && b[p] == a.last();
        let q = choose|q: int| 0 <= q < a.len() && a[q] == b.last();
        if p < b.len() - 1 {
            assert(b[p] < b[b.len() - 1]);
        }
        if q < a.len() - 1 {
            assert(a[q] < a[a.len() - 1]);
        }
        assert(a.last() == b.last());
        let s = a.drop_last();
        let t = b.drop_last();
        assert forall|k: u32| #[trigger] s.contains(k) <==> t.contains(k) by {
            if s.contains(k) {
                let i = choose|i: int| 0 <= i < s.len() && s[i] == k;
                assert(a[i] == k && a[i] < a[a.len() - 1]);
                assert(a.contains(k));
                assert(b.contains(k));
                let j = choose|j: int| 0 <= j < b.len() && b[j] == k;
                assert(t[j] == k);
            }
            if t.contains(k) {
                let i = choose|i: int| 0 <= i < t.len() && t[i] == k;
                assert(b[i] == k && b[i] < b[b.len() - 1]);
                assert(b.contains(k));
                assert(a.contains(k));
                let j = choose|j: int| 0 <= j < a.len() && a[j] == k;
                assert(s[j] == k);
            }
        }
        assert forall|i: int, j: int| 0 <= i < j < s.len() implies #[trigger] s[i]
            < #[trigger] s[j] by {
            assert(a[i] < a[j]);
        }
        assert forall|i: int, j: int| 0 <= i < j < t.len() implies #[trigger] t[i]
            < #[trigger] t[j] by {
            assert(b[i] < b[j]);
        }
        lemma_rising_unique(s, t);
        assert(a =~= s.push(a.last()));
        assert(b =~= t.push(b.last()));
    }
}

proof fn lemma_marked_changes(blocks: Seq<u32>, start: nat, count: nat)
    requires
        start + count <= u32::MAX,
    ensures
        changes(marked(blocks, start, count), blocks, start, count),
{
    lemma_marked(blocks, start, count);
    assert forall|k: u32| #[trigger] marked(blocks, start, count).contains(k) <==> k < count
        && blocks.contains((start + k) as u32) by {
        lemma_marked_members(blocks, start, count, k);
    }
}

/// A file of whole pages, no more than a segment has, that the previous backup has as a file or as
/// an increment, and whose database was not made anew as a whole.
pub open spec fn may_be_increment(
    files: Map<Seq<u8>, u64>,
    table: Seq<Modified>,
    path: Seq<char>,
    locator: Locator,
    fork: Fork,
    count: nat,
) -> bool {
    &&& 0 < count <= 131072
    &&& fork != Fork::FreeSpace
    &&& last_slash(path) matches Some(slash) && (files.dom().contains(encode_utf8(path))
        || files.dom().contains(encode_utf8(increment_path(path, slash))))
    &&& untold(table, (Locator { rel: 0, ..locator }), Fork::Main)
}

/// A file whose relation the summaries say nothing of is an increment without blocks.
pub proof fn lemma_untouched_file(
    files: Map<Seq<u8>, u64>,
    table: Seq<Modified>,
    path: Seq<char>,
    locator: Locator,
    fork: Fork,
    seg: u32,
    size: i64,
    count: nat,
)
    requires
        size == count * PAGE,
        may_be_increment(files, table, path, locator, fork, count),
        untold(table, locator, fork),
    ensures
        plan_of(files, table, path, locator, fork, seg, size) == Ok::<
            Option<(Seq<u32>, u32)>,
            Seq<char>,
        >(Some((Seq::empty(), count as u32))),
{
    lemma_entry_is_found(table, locator, fork, 0);
    lemma_entry_is_found(table, (Locator { rel: 0, ..locator }), Fork::Main, 0);
    lemma_pages(size, count);
}

proof fn lemma_pages(size: i64, count: nat)
    requires
        size == count * PAGE,
    ensures
        size as nat % PAGE as nat == 0,
        size as nat / PAGE as nat == count,
{
    vstd::arithmetic::div_mod::lemma_mod_multiples_basic(count as int, PAGE as int);
    vstd::arithmetic::div_mod::lemma_div_multiples_vanish(count as int, PAGE as int);
}

/// What is taken of a file whose relation the summaries mention. Where the relation was made anew
/// at or below the file's first block, or more than nine tenths of the file changed, the file is
/// taken whole. Otherwise the increment carries exactly the blocks that changed, every one of
/// them, and the file reaches to its present length at least: to the block that the relation was
/// truncated to, where that lies behind it, but not past the segment.
pub proof fn lemma_changed_file(
    files: Map<Seq<u8>, u64>,
    table: Seq<Modified>,
    path: Seq<char>,
    locator: Locator,
    fork: Fork,
    seg: u32,
    size: i64,
    count: nat,
    i: int,
    changed: Seq<u32>,
)
    requires
        size == count * PAGE,
        may_be_increment(files, table, path, locator, fork, count),
        tells_of(table, i, locator, fork),
        seg * 131072 + count <= u32::MAX,
        changes(changed, table[i].blocks@, (seg * 131072) as nat, count),
    ensures
        ({
            let start = seg * 131072;
            let limit = table[i].limit;
            let plan = plan_of(files, table, path, locator, fork, seg, size);
            if limit <= start || 10 * changed.len() > 9 * count {
                plan == Ok::<Option<(Seq<u32>, u32)>, Seq<char>>(None)
            } else {
                &&& plan matches Ok(Some((blocks, truncation)))
                &&& blocks == changed
                &&& count <= truncation <= 131072
                &&& limit == u32::MAX || limit - start <= count ==> truncation == count
                &&& limit != u32::MAX && count < limit - start <= 131072 ==> truncation == limit
                    - start
                &&& limit != u32::MAX && limit - start > 131072 ==> truncation == 131072
            }
        }),
{
    let start = (seg * RELSEG_SIZE) as nat;
    lemma_entry_is_found(table, locator, fork, i);
    lemma_entry_is_found(table, (Locator { rel: 0, ..locator }), Fork::Main, 0);
    lemma_pages(size, count);
    lemma_marked_changes(table[i].blocks@, start, count);
    lemma_rising_unique(changed, marked(table[i].blocks@, start, count));
}

/// No increment leaves a changed block out: whenever a file is planned as an increment, a block of
/// it that the summaries name is among the plan's blocks.
pub proof fn lemma_no_change_is_left_out(
    files: Map<Seq<u8>, u64>,
    table: Seq<Modified>,
    path: Seq<char>,
    locator: Locator,
    fork: Fork,
    seg: u32,
    size: i64,
    i: int,
    b: u32,
)
    requires
        plan_of(files, table, path, locator, fork, seg, size) matches Ok(Some(_)),
        tells_of(table, i, locator, fork),
        table[i].blocks@.contains(b),
        seg * 131072 <= b,
        (b - seg * 131072) * PAGE < size,
    ensures
        ({
            let (blocks, truncation) = plan_of(
                files,
                table,
                path,
                locator,
                fork,
                seg,
                size,
            )->Ok_0->0;
            blocks.contains((b - seg * 131072) as u32)
        }),
{
    let start = (seg * RELSEG_SIZE) as nat;
    let count = size as nat / PAGE as nat;
    lemma_entry_is_found(table, locator, fork, i);
    vstd::arithmetic::div_mod::lemma_fundamental_div_mod(size as int, PAGE as int);
    lemma_marked_members(table[i].blocks@, start, count, (b - start) as u32);
}

/// A file that is new, that is no relation of whole pages, or whose database was made anew is
/// taken whole, whatever the summaries say.
pub proof fn lemma_file_taken_whole(
    files: Map<Seq<u8>, u64>,
    table: Seq<Modified>,
    path: Seq<char>,
    locator: Locator,
    fork: Fork,
    seg: u32,
    size: i64,
)
    requires
        last_slash(path) is Some,
        forall|count: nat|
            size == #[trigger] (count * PAGE) ==> !may_be_increment(
                files,
                table,
                path,
                locator,
                fork,
                count,
            ),
    ensures
        plan_of(files, table, path, locator, fork, seg, size) == Ok::<
            Option<(Seq<u32>, u32)>,
            Seq<char>,
        >(None),
{
    lemma_entry_is_found(table, (Locator { rel: 0, ..locator }), Fork::Main, 0);
    if size > 0 && size as nat % PAGE as nat == 0 {
        let count = size as nat / PAGE as nat;
        vstd::arithmetic::div_mod::lemma_fundamental_div_mod(size as int, PAGE as int);
        assert(size == count * PAGE);
        assert(!may_be_increment(files, table, path, locator, fork, count));
    }
}

/// The pages of `new` with these numbers, one behind the other.
pub open spec fn taken(new: Seq<u8>, blocks: Seq<u32>) -> Seq<u8>
    decreases blocks.len(),
{
    if blocks.len() == 0 {
        Seq::empty()
    } else {
        taken(new, blocks.drop_last()) + page(new, blocks.last() as int)
    }
}

proof fn lemma_taken(new: Seq<u8>, blocks: Seq<u32>, count: nat)
    requires
        new.len() == count * PAGE,
        forall|i: int| 0 <= i < blocks.len() ==> #[trigger] blocks[i] < count,
    ensures
        taken(new, blocks).len() == blocks.len() * PAGE,
        forall|i: int|
            0 <= i < blocks.len() ==> #[trigger] page(taken(new, blocks), i) == page(
                new,
                blocks[i] as int,
            ),
    decreases blocks.len(),
{
    if blocks.len() > 0 {
        let before = blocks.drop_last();
        assert forall|i: int| 0 <= i < before.len() implies #[trigger] before[i] < count by {
            assert(before[i] == blocks[i]);
        }
        lemma_taken(new, before, count);
        let last = page(new, blocks.last() as int);
        assert(blocks[blocks.len() - 1] < count);
        assert(last.len() == PAGE);
        let all = taken(new, blocks);
        assert forall|i: int| 0 <= i < blocks.len() implies #[trigger] page(all, i) == page(
            new,
            blocks[i] as int,
        ) by {
            if i < before.len() {
                assert(page(all, i) =~= page(taken(new, before), i));
                assert(before[i] == blocks[i]);
            } else {
                assert(page(all, i) =~= last);
            }
        }
    }
}

/// A file is as before but for these blocks: a page that is not among them is the previous
/// backup's, or zero where that has none.
pub open spec fn else_unchanged(
    previous: Seq<PieceView>,
    store: Map<Seq<char>, Seq<u8>>,
    new: Seq<u8>,
    blocks: Seq<u32>,
    count: nat,
) -> bool {
    forall|b: nat|
        b < count && !blocks.contains(b as u32) ==> if b < previous.len() {
            is_page(previous[b as int], store) && #[trigger] page(new, b as int) == content(
                previous[b as int],
                store,
            )
        } else {
            page(new, b as int) == zeros()
        }
}

/// The plan gives the file back: the previous file, patched with the increment that a plan makes of
/// the present file, leads to the present file, where what the summaries did not name is as it
/// was. This is so where the relation was not truncated to behind the end of the file, and the file
/// is no longer than a snapshot's may be.
pub proof fn lemma_planned_increment_restores(
    files: Map<Seq<u8>, u64>,
    table: Seq<Modified>,
    path: Seq<char>,
    locator: Locator,
    fork: Fork,
    seg: u32,
    count: nat,
    i: int,
    changed: Seq<u32>,
    previous: Seq<PieceView>,
    store: Map<Seq<char>, Seq<u8>>,
    new: Seq<u8>,
)
    requires
        may_be_increment(files, table, path, locator, fork, count),
        count <= LIMIT / PAGE,
        tells_of(table, i, locator, fork),
        seg * 131072 + count <= u32::MAX,
        changes(changed, table[i].blocks@, (seg * 131072) as nat, count),
        table[i].limit == u32::MAX || seg * 131072 < table[i].limit <= seg * 131072 + count,
        plan_of(files, table, path, locator, fork, seg, (count * PAGE) as i64) matches Ok(Some(_)),
        new.len() == count * PAGE,
        else_unchanged(previous, store, new, changed, count),
    ensures
        ({
            let (blocks, truncation) = plan_of(
                files,
                table,
                path,
                locator,
                fork,
                seg,
                (count * PAGE) as i64,
            )->Ok_0->0;
            leads_to(previous, header_bytes(blocks, truncation) + taken(new, blocks), new, store)
        }),
{
    let size = (count * PAGE) as i64;
    lemma_changed_file(files, table, path, locator, fork, seg, size, count, i, changed);
    let (blocks, truncation) = plan_of(files, table, path, locator, fork, seg, size)->Ok_0->0;
    let data = taken(new, blocks);
    let bytes = header_bytes(blocks, truncation) + data;
    let n = blocks.len();
    assert(blocks == changed && truncation == count);
    assert forall|k: int| 0 <= k < n implies #[trigger] blocks[k] < count by {
        assert(changed.contains(changed[k]));
    }
    lemma_taken(new, blocks, count);
    lemma_plan_is_increment(blocks, truncation, data);
    assert(native_at(bytes, 4, 4) == n && native_at(bytes, 8, 4) == count);
    if n > 0 {
        assert(block_at(bytes, n - 1) == blocks[n - 1]);
        assert(blocks[n - 1] < count);
    }
    assert(patched_len(bytes, n, count) == count);
    assert(bytes.skip(data_offset(n) as int) == data);
    assert forall|k: int| 0 <= k < n implies #[trigger] page(data, k) == page(
        new,
        block_at(bytes, k) as int,
    ) by {
        assert(block_at(bytes, k) == blocks[k]);
    }
    assert forall|b: nat| b < count implies match #[trigger] source_of(
        previous,
        bytes,
        n,
        count,
        b,
    ) {
        Source::Changed(_) => true,
        Source::Kept(k) => is_page(previous[k as int], store) && page(new, b as int) == content(
            previous[k as int],
            store,
        ),
        Source::Partial => false,
        Source::Zero => page(new, b as int) == zeros(),
    } by {
        if changed.contains(b as u32) {
            let k = choose|k: int| 0 <= k < changed.len() && changed[k] == b as u32;
            assert(block_at(bytes, k as nat as int) == b);
        } else {
            let p = page(new, b as int);
            assert(if b < previous.len() {
                is_page(previous[b as int], store) && p == content(previous[b as int], store)
            } else {
                p == zeros()
            });
            if exists|k: nat| k < n && #[trigger] block_at(bytes, k as int) == b {
                let k = choose|k: nat| k < n && #[trigger] block_at(bytes, k as int) == b;
                assert(blocks[k as int] == b);
                assert(changed.contains(b as u32));
            }
        }
    }
}

} // verus!
