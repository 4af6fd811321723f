//! Pages of a scan: how they cut a range into whole rows, how one is resumed behind another, and
//! what they have to do with a scan without a limit.
use crate::commit::EntryView;
use crate::key::{is_version_of, is_versioned, row_part};
use crate::order::{
    at_most, begins_with, below, lemma_below_asymmetric, lemma_below_irreflexive,
    lemma_below_total,
};
use crate::run_answers::sorted;
use crate::run_scans::{last_page, lemma_row_set, page, row_set, rows_in, wanted};
use vstd::prelude::*;

verus! {

/// The row that an entry belongs to.
pub open spec fn row_of_entry(e: EntryView) -> Seq<u8> {
    row_part(e.0)
}

/// Every entry has a version, and those of one row stand together.
pub open spec fn grouped(es: Seq<EntryView>) -> bool {
    &&& forall|i: int| 0 <= i < es.len() ==> is_versioned((#[trigger] es[i]).0)
    &&& forall|i: int, j: int, k: int|
        0 <= i < j < k < es.len() && row_of_entry(#[trigger] es[i]) == row_of_entry(
            #[trigger] es[k],
        ) ==> row_of_entry(#[trigger] es[j]) == row_of_entry(es[i])
}

/// Every entry has a version, and no row's name begins with another's.
pub open spec fn rows_apart(es: Seq<EntryView>) -> bool {
    &&& forall|i: int| 0 <= i < es.len() ==> is_versioned((#[trigger] es[i]).0)
    &&& forall|i: int, j: int|
        0 <= i < es.len() && 0 <= j < es.len() && begins_with(
            row_of_entry(#[trigger] es[i]),
            row_of_entry(#[trigger] es[j]),
        ) ==> row_of_entry(es[i]) == row_of_entry(es[j])
}

proof fn lemma_grouped_reverse(es: Seq<EntryView>)
    requires
        grouped(es),
    ensures
        grouped(es.reverse()),
{
    let p = es.reverse();
    let n = es.len() - 1;
    assert forall|i: int| 0 <= i < p.len() implies is_versioned((#[trigger] p[i]).0) by {
        assert(is_versioned(es[n - i].0));
    }
    assert forall|i: int, j: int, k: int|
        0 <= i < j < k < p.len() && row_of_entry(#[trigger] p[i]) == row_of_entry(
            #[trigger] p[k],
        ) implies row_of_entry(#[trigger] p[j]) == row_of_entry(p[i]) by {
        assert(p[i] == es[n - i] && p[j] == es[n - j] && p[k] == es[n - k]);
    }
}

proof fn lemma_page_cuts(es: Seq<EntryView>, limit: nat)
    ensures
        page(es, limit).len() <= es.len(),
        page(es, limit) == es.take(page(es, limit).len() as int),
        rows_in(page(es, limit)) <= limit,
        page(es, limit).len() < es.len() ==> rows_in(
            es.take(page(es, limit).len() as int + 1),
        ) > limit,
    decreases es.len(),
{
    if rows_in(es) <= limit {
        assert(es.take(es.len() as int) =~= es);
    } else {
        let head = es.drop_last();
        lemma_page_cuts(head, limit);
        let k = page(head, limit).len() as int;
        assert(head.take(k) =~= es.take(k));
        if k < head.len() {
            assert(head.take(k + 1) =~= es.take(k + 1));
        } else {
            assert(es.take(k + 1) =~= es);
        }
    }
}

/// The first part of `es` up to `k` is made of whole rows, `limit` of them at most, and is as long
/// as that allows.
pub open spec fn cuts_whole_rows(es: Seq<EntryView>, k: int, limit: nat) -> bool {
    &&& 0 <= k <= es.len()
    &&& row_set(es.take(k)).len() <= limit
    &&& k < es.len() ==> row_set(es.take(k)).len() == limit
    &&& forall|i: int|
        k <= i < es.len() ==> !row_set(es.take(k)).contains(row_of_entry(#[trigger] es[i]))
}

proof fn lemma_page_is_whole(es: Seq<EntryView>, limit: nat)
    requires
        grouped(es),
    ensures
        cuts_whole_rows(es, page(es, limit).len() as int, limit),
        page(es, limit) == es.take(page(es, limit).len() as int),
{
    lemma_page_cuts(es, limit);
    let k = page(es, limit).len() as int;
    let p = es.take(k);
    lemma_row_set(p);
    if k < es.len() {
        let q = es.take(k + 1);
        assert(q.drop_last() =~= p);
        assert(q.last() == es[k]);
        assert(is_versioned(es[k].0));
        assert(!row_set(p).contains(row_of_entry(es[k])));
        assert forall|i: int| k <= i < es.len() implies !row_set(p).contains(
            row_of_entry(#[trigger] es[i]),
        ) by {
            let r = row_of_entry(es[i]);
            if i > k && row_set(p).contains(r) {
                let j = choose|j: int| 0 <= j < p.len() && is_version_of((#[trigger] p[j]).0, r);
                assert(es[j] == p[j]);
                assert(row_of_entry(es[j]) == row_of_entry(es[i]));
                assert(row_of_entry(es[k]) == r);
            }
        }
    }
}

/// Rows whose names do not begin with each other sort as their keys do.
proof fn lemma_below_apart(a: Seq<u8>, b: Seq<u8>, x: Seq<u8>, y: Seq<u8>)
    requires
        !begins_with(a, b),
        !begins_with(b, a),
    ensures
        below(a + x, b + y) == below(a, b),
    decreases a.len(),
{
    assert(a.len() > 0 && b.len() > 0) by {
        if a.len() == 0 {
            assert(b.take(0) =~= a);
        }
        if b.len() == 0 {
            assert(a.take(0) =~= b);
        }
    }
    if a[0] == b[0] {
        let p = a.skip(1);
        let q = b.skip(1);
        if begins_with(p, q) {
            assert(a.take(b.len() as int) =~= seq![a[0]] + p.take(q.len() as int));
            assert(b =~= seq![b[0]] + q);
        }
        if begins_with(q, p) {
            assert(b.take(a.len() as int) =~= seq![b[0]] + q.take(p.len() as int));
            assert(a =~= seq![a[0]] + p);
        }
        lemma_below_apart(p, q, x, y);
        assert((a + x).skip(1) =~= p + x);
        assert((b + y).skip(1) =~= q + y);
    }
}

/// The rows of sorted entries ascend with the keys.
proof fn lemma_rows_ascend_with_keys(es: Seq<EntryView>, i: int, j: int)
    requires
        sorted(es),
        rows_apart(es),
        0 <= i < j < es.len(),
    ensures
        at_most(row_of_entry(es[i]), row_of_entry(es[j])),
{
    let a = row_of_entry(es[i]);
    let b = row_of_entry(es[j]);
    lemma_below_irreflexive(a);
    if a != b {
        let x = es[i].0.skip(a.len() as int);
        let y = es[j].0.skip(b.len() as int);
        assert(es[i].0 =~= a + x);
        assert(es[j].0 =~= b + y);
        assert(below(es[i].0, es[j].0));
        lemma_below_apart(a, b, x, y);
        lemma_below_asymmetric(a, b);
    }
}

proof fn lemma_sorted_grouped(es: Seq<EntryView>)
    requires
        sorted(es),
        rows_apart(es),
    ensures
        grouped(es),
{
    assert forall|i: int, j: int, k: int|
        0 <= i < j < k < es.len() && row_of_entry(#[trigger] es[i]) == row_of_entry(
            #[trigger] es[k],
        ) implies row_of_entry(#[trigger] es[j]) == row_of_entry(es[i]) by {
        lemma_rows_ascend_with_keys(es, i, j);
        lemma_rows_ascend_with_keys(es, j, k);
        lemma_below_total(row_of_entry(es[i]), row_of_entry(es[j]));
    }
}

/// A page is the first part of what a scan without a limit gives: whole rows, at most `limit` of
/// them, and so many unless there are no more.
pub proof fn lemma_page_is_first_rows(es: Seq<EntryView>, limit: nat)
    requires
        sorted(es),
        rows_apart(es),
    ensures
        cuts_whole_rows(es, page(es, limit).len() as int, limit),
        page(es, limit) == es.take(page(es, limit).len() as int),
        row_set(es).len() <= limit ==> page(es, limit) == es,
{
    lemma_sorted_grouped(es);
    lemma_page_is_whole(es, limit);
}

proof fn lemma_row_set_reverse(es: Seq<EntryView>)
    ensures
        row_set(es.reverse()) == row_set(es),
{
    let p = es.reverse();
    let n = es.len() - 1;
    lemma_row_set(es);
    lemma_row_set(p);
    assert forall|r: Seq<u8>| row_set(p).contains(r) <==> row_set(es).contains(r) by {
        if row_set(p).contains(r) {
            let i = choose|i: int| 0 <= i < p.len() && is_version_of((#[trigger] p[i]).0, r);
            assert(is_version_of(es[n - i].0, r));
        }
        if row_set(es).contains(r) {
            let i = choose|i: int| 0 <= i < es.len() && is_version_of((#[trigger] es[i]).0, r);
            assert(p[n - i] == es[i]);
            assert(is_version_of(p[n - i].0, r));
        }
    }
    assert(row_set(p) =~= row_set(es));
}

/// A backward page is the last part of what a forward scan without a limit gives, in the same
/// order: whole rows, at most `limit` of them, and so many unless there are no more.
pub proof fn lemma_back_page_is_last_rows(es: Seq<EntryView>, limit: nat)
    requires
        sorted(es),
        rows_apart(es),
    ensures
        ({
            let p = last_page(es, limit);
            let j = es.len() - p.len();
            &&& 0 <= j
            &&& p == es.skip(j)
            &&& sorted(p)
            &&& row_set(p).len() <= limit
            &&& j > 0 ==> row_set(p).len() == limit
            &&& forall|i: int|
                0 <= i < j ==> !row_set(p).contains(row_of_entry(#[trigger] es[i]))
        }),
        row_set(es).len() <= limit ==> last_page(es, limit) == es,
{
    let b = es.reverse();
    let p = last_page(es, limit);
    lemma_sorted_grouped(es);
    lemma_grouped_reverse(es);
    lemma_page_is_whole(b, limit);
    let k = page(b, limit).len() as int;
    let j = es.len() - k;
    assert(b.take(k).reverse() =~= es.skip(j));
    lemma_row_set_reverse(b.take(k));
    assert(p == es.skip(j));
    assert forall|x: int, y: int| 0 <= x < y < p.len() implies below(
        (#[trigger] p[x]).0,
        (#[trigger] p[y]).0,
    ) by {
        assert(below(es[j + x].0, es[j + y].0));
    }
    assert forall|i: int| 0 <= i < j implies !row_set(p).contains(row_of_entry(#[trigger] es[i])) by {
        assert(b[es.len() - 1 - i] == es[i]);
    }
    lemma_row_set_reverse(es);
    assert(b.reverse() =~= es);
}

/// The rows of some first entries are among those of more.
proof fn lemma_rows_among(a: Seq<EntryView>, b: Seq<EntryView>)
    requires
        forall|i: int| 0 <= i < a.len() ==> b.contains(#[trigger] a[i]),
    ensures
        rows_in(a) <= rows_in(b),
{
    lemma_row_set(a);
    lemma_row_set(b);
    assert(row_set(a).subset_of(row_set(b))) by {
        assert forall|r: Seq<u8>| row_set(a).contains(r) implies row_set(b).contains(r) by {
            let i = choose|i: int| 0 <= i < a.len() && is_version_of((#[trigger] a[i]).0, r);
            assert(b.contains(a[i]));
            let j = choose|j: int| 0 <= j < b.len() && b[j] == a[i];
            assert(is_version_of(b[j].0, r));
        }
    }
    vstd::set_lib::lemma_len_subset(row_set(a), row_set(b));
}

/// What is on the page of several layers together is on the page of the layer that holds it,
/// where all that comes before it in the layer comes before it in all of them.
proof fn lemma_on_own_page(layer: Seq<EntryView>, all: Seq<EntryView>, limit: nat, l: int, m: int)
    requires
        0 <= l < layer.len(),
        0 <= m < page(all, limit).len(),
        forall|i: int| 0 <= i <= l ==> all.take(m + 1).contains(#[trigger] layer[i]),
    ensures
        l < page(layer, limit).len(),
        page(layer, limit)[l] == layer[l],
{
    lemma_page_cuts(all, limit);
    lemma_page_cuts(layer, limit);
    let p = page(all, limit);
    let k = page(layer, limit).len() as int;
    if k <= l {
        let few = layer.take(k + 1);
        assert forall|i: int| 0 <= i < few.len() implies p.contains(#[trigger] few[i]) by {
            let first = all.take(m + 1);
            assert(first.contains(layer[i]));
            let j = choose|j: int| 0 <= j < first.len() && first[j] == layer[i];
            assert(p[j] == layer[i]);
        }
        lemma_rows_among(few, p);
    }
}

proof fn lemma_position_in(layer: Seq<EntryView>, all: Seq<EntryView>, l: int, m: int, i: int) -> (j: int)
    requires
        sorted(layer),
        sorted(all),
        forall|i: int| 0 <= i < layer.len() ==> all.contains(#[trigger] layer[i]),
        0 <= l < layer.len(),
        0 <= m < all.len(),
        layer[l] == all[m],
        0 <= i < layer.len(),
    ensures
        0 <= j < all.len(),
        all[j] == layer[i],
        i <= l ==> j <= m,
        l <= i ==> m <= j,
{
    assert(all.contains(layer[i]));
    let j = choose|j: int| 0 <= j < all.len() && all[j] == layer[i];
    if i < l {
        assert(below(layer[i].0, layer[l].0));
        if m < j {
            lemma_below_asymmetric(all[m].0, all[j].0);
        }
    } else if l < i {
        assert(below(layer[l].0, layer[i].0));
        if j < m {
            lemma_below_asymmetric(all[j].0, all[m].0);
        }
    } else if j != m {
        lemma_below_irreflexive(all[m].0);
        if j < m {
            assert(below(all[j].0, all[m].0));
        } else {
            assert(below(all[m].0, all[j].0));
        }
    }
    j
}

/// Pages of several layers can be merged: an entry among the first rows of all the layers
/// together is among the first rows of every layer that holds it.
pub proof fn lemma_first_pages_merge(
    layer: Seq<EntryView>,
    all: Seq<EntryView>,
    limit: nat,
    e: EntryView,
)
    requires
        sorted(layer),
        sorted(all),
        forall|i: int| 0 <= i < layer.len() ==> all.contains(#[trigger] layer[i]),
        layer.contains(e),
        page(all, limit).contains(e),
    ensures
        page(layer, limit).contains(e),
{
    lemma_page_cuts(all, limit);
    let m = choose|m: int| 0 <= m < page(all, limit).len() && page(all, limit)[m] == e;
    let l = choose|l: int| 0 <= l < layer.len() && layer[l] == e;
    assert(all[m] == e);
    assert forall|i: int| 0 <= i <= l implies all.take(m + 1).contains(#[trigger] layer[i]) by {
        let j = lemma_position_in(layer, all, l, m, i);
        assert(all.take(m + 1)[j] == layer[i]);
    }
    lemma_on_own_page(layer, all, limit, l, m);
}

/// The same of backward pages: an entry among the last rows of all the layers together is among
/// the last rows of every layer that holds it.
pub proof fn lemma_last_pages_merge(
    layer: Seq<EntryView>,
    all: Seq<EntryView>,
    limit: nat,
    e: EntryView,
)
    requires
        sorted(layer),
        sorted(all),
        forall|i: int| 0 <= i < layer.len() ==> all.contains(#[trigger] layer[i]),
        layer.contains(e),
        last_page(all, limit).contains(e),
    ensures
        last_page(layer, limit).contains(e),
{
    let a = all.reverse();
    let b = layer.reverse();
    let pa = page(a, limit);
    let pb = page(b, limit);
    lemma_page_cuts(a, limit);
    let x = choose|x: int| 0 <= x < pa.reverse().len() && pa.reverse()[x] == e;
    let m = pa.len() - 1 - x;
    assert(pa[m] == e && a[m] == e);
    let y = choose|y: int| 0 <= y < layer.len() && layer[y] == e;
    let l = layer.len() - 1 - y;
    assert(b[l] == e);
    assert forall|i: int| 0 <= i <= l implies a.take(m + 1).contains(#[trigger] b[i]) by {
        let j = lemma_position_in(layer, all, y, all.len() - 1 - m, layer.len() - 1 - i);
        assert(a.take(m + 1)[all.len() - 1 - j] == b[i]);
    }
    lemma_on_own_page(b, a, limit, l, m);
    assert(pb.reverse()[pb.len() - 1 - l] == e);
}

/// What sorts at or after `r` with a zero behind it is what sorts after `r`.
proof fn lemma_behind(r: Seq<u8>, row: Seq<u8>)
    ensures
        !below(row, r.push(0)) <==> below(r, row),
    decreases r.len(),
{
    let z = r.push(0);
    if r.len() == 0 {
        if row.len() > 0 && row[0] == 0 {
            assert(z.skip(1) =~= Seq::empty());
            assert(!below(row.skip(1), z.skip(1)));
        }
    } else if row.len() > 0 && row[0] == r[0] {
        lemma_behind(r.skip(1), row.skip(1));
        assert(z.skip(1) =~= r.skip(1).push(0));
    }
}

proof fn lemma_filter_sorted(es: Seq<EntryView>, keep: spec_fn(EntryView) -> bool)
    requires
        sorted(es),
    ensures
        sorted(es.filter(keep)),
        forall|i: int|
            0 <= i < es.filter(keep).len() ==> keep(#[trigger] es.filter(keep)[i]) && es.contains(
                es.filter(keep)[i],
            ),
    decreases es.len(),
{
    reveal(Seq::filter);
    if es.len() > 0 {
        let head = es.drop_last();
        assert(sorted(head)) by {
            assert forall|i: int, j: int| 0 <= i < j < head.len() implies below(
                (#[trigger] head[i]).0,
                (#[trigger] head[j]).0,
            ) by {
                assert(below(es[i].0, es[j].0));
            }
        }
        lemma_filter_sorted(head, keep);
        let f = head.filter(keep);
        let g = es.filter(keep);
        assert forall|i: int| 0 <= i < f.len() implies es.contains(#[trigger] f[i]) by {
            let m = choose|m: int| 0 <= m < head.len() && head[m] == f[i];
            assert(es[m] == f[i]);
        }
        assert(es.contains(es.last())) by {
            assert(es[es.len() - 1] == es.last());
        }
        assert forall|i: int, j: int| 0 <= i < j < g.len() implies below(
            (#[trigger] g[i]).0,
            (#[trigger] g[j]).0,
        ) by {
            if j == f.len() {
                let m = choose|m: int| 0 <= m < head.len() && head[m] == f[i];
                assert(below(es[m].0, es[es.len() - 1].0));
            } else {
                assert(below(f[i].0, f[j].0));
            }
        }
    }
}

proof fn lemma_filter_splits(
    es: Seq<EntryView>,
    all: spec_fn(EntryView) -> bool,
    late: spec_fn(EntryView) -> bool,
    k: int,
)
    requires
        0 <= k <= es.filter(all).len(),
        forall|e: EntryView| #[trigger] late(e) ==> all(e),
        forall|i: int| 0 <= i < es.filter(all).len() ==> late(#[trigger] es.filter(all)[i]) == (i >= k),
    ensures
        es.filter(late) == es.filter(all).skip(k),
    decreases es.len(),
{
    reveal(Seq::filter);
    if es.len() > 0 {
        let head = es.drop_last();
        let f = head.filter(all);
        let g = es.filter(all);
        let e = es.last();
        assert forall|i: int| 0 <= i < f.len() implies late(#[trigger] f[i]) == (i >= k) by {
            assert(g[i] == f[i]);
        }
        if all(e) {
            assert(g == f.push(e));
            assert(late(g[f.len() as int]) == (f.len() >= k));
            if k <= f.len() {
                lemma_filter_splits(head, all, late, k);
                assert(f.skip(k).push(e) =~= g.skip(k));
            } else {
                lemma_filter_splits(head, all, late, f.len() as int);
                assert(f.skip(f.len() as int) =~= g.skip(k));
            }
        } else {
            lemma_filter_splits(head, all, late, k);
        }
    } else {
        assert(es.filter(late) =~= es.filter(all).skip(k));
    }
}

/// A scan that is resumed right behind the last row of a page, with that row's name and a zero as
/// its lower bound, goes on where the page ended: it repeats no row and skips none.
pub proof fn lemma_resumed_scan_goes_on(
    es: Seq<EntryView>,
    lo: Seq<u8>,
    hi: Seq<u8>,
    snapshot: u64,
    limit: nat,
)
    requires
        sorted(es),
        rows_apart(es.filter(|e: EntryView| wanted(lo, hi, snapshot, e))),
        page(es.filter(|e: EntryView| wanted(lo, hi, snapshot, e)), limit).len() > 0,
    ensures
        ({
            let all = es.filter(|e: EntryView| wanted(lo, hi, snapshot, e));
            let first = page(all, limit);
            let next = row_of_entry(first.last()).push(0u8);
            first + es.filter(|e: EntryView| wanted(next, hi, snapshot, e)) == all
        }),
{
    let keep = |e: EntryView| wanted(lo, hi, snapshot, e);
    let all = es.filter(keep);
    let first = page(all, limit);
    let k = first.len() as int;
    let r = row_of_entry(first.last());
    let late = |e: EntryView| wanted(r.push(0u8), hi, snapshot, e);
    lemma_filter_sorted(es, keep);
    lemma_sorted_grouped(all);
    lemma_page_is_whole(all, limit);
    assert(first.last() == all[k - 1]);
    assert(keep(all[k - 1]));
    assert forall|e: EntryView| #[trigger] late(e) implies keep(e) by {
        lemma_behind(r, row_of_entry(e));
        if below(row_of_entry(e), lo) {
            crate::order::lemma_below_transitive(r, row_of_entry(e), lo);
        }
    }
    lemma_row_set(all.take(k));
    assert forall|i: int| 0 <= i < all.len() implies late(#[trigger] all[i]) == (i >= k) by {
        let row = row_of_entry(all[i]);
        assert(keep(all[i]));
        lemma_behind(r, row);
        if i < k - 1 {
            lemma_rows_ascend_with_keys(all, i, k - 1);
        } else if i == k - 1 {
            lemma_below_irreflexive(r);
        } else {
            lemma_rows_ascend_with_keys(all, k - 1, i);
            if k < i {
                lemma_rows_ascend_with_keys(all, k, i);
            }
            lemma_rows_ascend_with_keys(all, k - 1, k);
            assert(is_version_of(all.take(k)[k - 1].0, r));
            assert(row_set(all.take(k)).contains(r));
            lemma_below_total(r, row);
            if row == r {
                lemma_below_total(r, row_of_entry(all[k]));
                assert(row_of_entry(all[k]) == r);
            }
        }
    }
    lemma_filter_splits(es, keep, late, k);
    assert(all.take(k) + all.skip(k) =~= all);
}

} // verus!
