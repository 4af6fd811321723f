//! Laws of counting through an archive: which members can be counted, and which size counts.
use crate::tar_walk::{
    decimal_number, is_size, listed_size, map_len, member_size, miscounted, pax_after, rounded,
    RecordView, BLOCK,
};
use vstd::prelude::*;

verus! {

/// A length is rounded up to whole blocks, and by less than one.
pub proof fn lemma_rounded_to_blocks(n: int)
    requires
        n >= 0,
    ensures
        rounded(n) % 512 == 0,
        n <= rounded(n) < n + 512,
{
}

/// An archive in which no header is that of a sparse file can be counted from one end to the other.
pub proof fn lemma_plain_archive_is_counted(b: Seq<u8>, from: int, pax: Option<Seq<u8>>)
    requires
        0 <= from,
        forall|p: int| 0 <= p && p + 512 <= b.len() ==> #[trigger] b[p + 156] != 'S' as u8,
    ensures
        miscounted(b, from, pax) is None,
    decreases b.len() - from,
{
    if from + BLOCK <= b.len() {
        let h = b.subrange(from, from + BLOCK);
        assert(h[156] == b[from + 156]);
        assert(map_len(b, from) == 0);
        match member_size(h, pax) {
            Some(n) => {
                let next = from + BLOCK + rounded(n as int);
                lemma_rounded_to_blocks(n as int);
                if next <= b.len() {
                    lemma_plain_archive_is_counted(b, next, pax_after(b, from, n, pax));
                }
            },
            None => {},
        }
    }
}

/// A header that cannot be counted past is that of a sparse file, it is in the archive, and with its
/// member and its map it reaches behind all that 64 bits can count.
pub proof fn lemma_what_cannot_be_counted(b: Seq<u8>, from: int, pax: Option<Seq<u8>>, p: int)
    requires
        0 <= from,
        miscounted(b, from, pax) == Some(p),
    ensures
        from <= p,
        p + 512 <= b.len(),
        b[p + 156] == 'S' as u8,
        exists|n: nat|
            0xffff_ffff_ffff_ffff < p + 512 + #[trigger] rounded(n as int) + 512 * map_len(b, p)
                && p + 512 + rounded(n as int) <= 0xffff_ffff_ffff_ffff,
    decreases b.len() - from,
{
    let h = b.subrange(from, from + BLOCK);
    assert(h[156] == b[from + 156]);
    let n = member_size(h, pax)->0;
    lemma_rounded_to_blocks(n as int);
    let next = from + BLOCK + rounded(n as int) + BLOCK * map_len(b, from);
    if next <= u64::MAX {
        lemma_what_cannot_be_counted(b, next, pax_after(b, from, n, pax), p);
    } else {
        assert(p == from);
        assert(map_len(b, from) > 0);
    }
}

/// The key of an attribute.
pub open spec fn key_in(r: Option<RecordView>) -> Seq<u8> {
    let (key, value) = r->0;
    key
}

/// The value of an attribute.
pub open spec fn value_in(r: Option<RecordView>) -> Seq<u8> {
    let (key, value) = r->0;
    value
}

/// Of the attributes before a member the first that is its size decides, where each before that is an
/// attribute; and without such a size none does.
pub proof fn lemma_first_size_decides(rs: Seq<Option<RecordView>>, i: int)
    requires
        0 <= i < rs.len(),
        forall|j: int|
            0 <= j < i ==> (#[trigger] rs[j]) is Some && !is_size(key_in(rs[j])),
    ensures
        rs[i] is Some && is_size(key_in(rs[i])) ==> listed_size(rs) == decimal_number(
            value_in(rs[i]),
        ),
        rs[i] is None ==> listed_size(rs) is None,
    decreases i,
{
    if i > 0 {
        let t = rs.skip(1);
        assert(rs[0] is Some && !is_size(key_in(rs[0])));
        assert(t[i - 1] == rs[i]);
        assert forall|j: int| 0 <= j < i - 1 implies (#[trigger] t[j]) is Some && !is_size(
            key_in(t[j]),
        ) by {
            assert(t[j] == rs[j + 1]);
        }
        lemma_first_size_decides(t, i - 1);
    }
}

/// Attributes none of which is a size say nothing of it.
pub proof fn lemma_no_size_is_listed(rs: Seq<Option<RecordView>>)
    requires
        forall|j: int|
            0 <= j < rs.len() ==> (#[trigger] rs[j]) is Some ==> !is_size(key_in(rs[j])),
    ensures
        listed_size(rs) is None,
    decreases rs.len(),
{
    if rs.len() > 0 {
        let t = rs.skip(1);
        assert(rs[0] is Some ==> !is_size(key_in(rs[0])));
        assert forall|j: int| 0 <= j < t.len() implies ((#[trigger] t[j]) is Some ==> !is_size(
            key_in(t[j]),
        )) by {
            assert(t[j] == rs[j + 1]);
        }
        lemma_no_size_is_listed(t);
    }
}

} // verus!
