//! What a restore gives of a file that was patched.
use crate::image::{PieceView, CHUNK, PAGE, SALT};
use crate::pages::{
    assembled, block_at, bodies_of, chunk_len, data_offset, file_pages, increment_fault,
    pages_of, patched_len, source_of, Source,
};
use crate::native::native_at;
use crate::wire::digest_of;
use vstd::prelude::*;

verus! {

/// The bytes that a reference names.
pub open spec fn content(p: PieceView, store: Map<Seq<char>, Seq<u8>>) -> Seq<u8> {
    store[p.key].subrange(p.offset as int, (p.offset + p.length) as int)
}

/// A reference to a whole page that the store has.
pub open spec fn is_page(p: PieceView, store: Map<Seq<char>, Seq<u8>>) -> bool {
    p.length == PAGE && p.offset + PAGE <= store[p.key].len()
}

/// Page `b` of a file.
pub open spec fn page(bytes: Seq<u8>, b: int) -> Seq<u8> {
    bytes.subrange(b * PAGE, b * PAGE + PAGE)
}

/// A page of zeros.
pub open spec fn zeros() -> Seq<u8> {
    Seq::new(PAGE as nat, |i: int| 0u8)
}

/// A file that whole pages are put together to has each of them in its place.
pub proof fn lemma_pages_in_place(
    pieces: Seq<PieceView>,
    store: Map<Seq<char>, Seq<u8>>,
    b: int,
)
    requires
        forall|i: int| 0 <= i < pieces.len() ==> is_page(#[trigger] pieces[i], store),
    ensures
        assembled(pieces, store).len() == pieces.len() * PAGE,
        0 <= b < pieces.len() ==> page(assembled(pieces, store), b) == content(pieces[b], store),
    decreases pieces.len(),
{
    if pieces.len() > 0 {
        let rest = pieces.skip(1);
        assert forall|i: int| 0 <= i < rest.len() implies is_page(#[trigger] rest[i], store) by {
            assert(rest[i] == pieces[i + 1]);
        }
        lemma_pages_in_place(rest, store, b - 1);
        let head = content(pieces[0], store);
        let tail = assembled(rest, store);
        assert(is_page(pieces[0], store));
        assert(assembled(pieces, store) == head + tail);
        if b == 0 {
            assert(page(head + tail, 0) =~= head);
        } else if 0 < b < pieces.len() {
            assert(page(head + tail, b) =~= page(tail, b - 1));
            assert(rest[b - 1] == pieces[b]);
        }
    }
}

proof fn lemma_equal_pages(a: Seq<u8>, b: Seq<u8>, n: nat)
    requires
        a.len() == n * PAGE,
        b.len() == n * PAGE,
        forall|i: int| 0 <= i < n ==> #[trigger] page(a, i) == page(b, i),
    ensures
        a == b,
{
    assert forall|k: int| 0 <= k < a.len() implies a[k] == b[k] by {
        let i = k / PAGE as int;
        assert(0 <= i < n);
        assert(page(a, i) == page(b, i));
        assert(page(a, i)[k - i * PAGE] == a[k]);
        assert(page(b, i)[k - i * PAGE] == b[k]);
    }
    assert(a =~= b);
}

proof fn lemma_whole_pages_of(
    key: Seq<char>,
    len: nat,
    i: nat,
    store: Map<Seq<char>, Seq<u8>>,
)
    requires
        store[key].len() == SALT + len,
        len % PAGE as nat == 0,
        i * PAGE <= len,
    ensures
        pages_of(key, len, i).len() == len / PAGE as nat - i,
        forall|j: int|
            0 <= j < pages_of(key, len, i).len() ==> is_page(
                #[trigger] pages_of(key, len, i)[j],
                store,
            ),
    decreases len - i,
{
    if i * PAGE < len {
        lemma_whole_pages_of(key, len, i + 1, store);
        let all = pages_of(key, len, i);
        let rest = pages_of(key, len, i + 1);
        assert forall|j: int| 0 <= j < all.len() implies is_page(#[trigger] all[j], store) by {
            if j > 0 {
                assert(all[j] == rest[j - 1]);
            }
        }
    }
}

/// A file of whole pages is cut into references to whole pages.
pub proof fn lemma_whole_file_pages(
    salt: Seq<u8>,
    bytes: Seq<u8>,
    store: Map<Seq<char>, Seq<u8>>,
)
    requires
        salt.len() == SALT,
        bytes.len() % PAGE as nat == 0,
        forall|i: int|
            0 <= i < bodies_of(salt, bytes).len() ==> store[digest_of(
                #[trigger] bodies_of(salt, bytes)[i],
            )] == bodies_of(salt, bytes)[i],
    ensures
        file_pages(salt, bytes).len() == bytes.len() / PAGE as nat,
        forall|j: int|
            0 <= j < file_pages(salt, bytes).len() ==> is_page(
                #[trigger] file_pages(salt, bytes)[j],
                store,
            ),
    decreases bytes.len(),
{
    if bytes.len() > 0 {
        let n = chunk_len(bytes);
        let rest = bytes.skip(n);
        let body = salt + bytes.take(n);
        let all = bodies_of(salt, bytes);
        let tail = bodies_of(salt, rest);
        assert(CHUNK == 16 * PAGE);
        assert(all[0] == body);
        assert forall|i: int| 0 <= i < tail.len() implies store[digest_of(#[trigger] tail[i])]
            == tail[i] by {
            assert(all[i + 1] == tail[i]);
        }
        lemma_whole_file_pages(salt, rest, store);
        lemma_whole_pages_of(digest_of(body), n as nat, 0, store);
        let first = pages_of(digest_of(body), n as nat, 0);
        let pages = file_pages(salt, bytes);
        assert forall|j: int| 0 <= j < pages.len() implies is_page(#[trigger] pages[j], store) by {
            if j < first.len() {
                assert(pages[j] == first[j]);
            } else {
                assert(pages[j] == file_pages(salt, rest)[j - first.len()]);
            }
        }
    }
}

/// `bytes` is an increment that leads from the pages of `previous` to the file `new`: what it
/// holds is the new file's, and a page that it leaves out is as it was before, or zero where
/// there was none.
pub open spec fn leads_to(
    previous: Seq<PieceView>,
    bytes: Seq<u8>,
    new: Seq<u8>,
    store: Map<Seq<char>, Seq<u8>>,
) -> bool {
    let count = native_at(bytes, 4, 4);
    let truncation = native_at(bytes, 8, 4);
    let n = patched_len(bytes, count, truncation);
    let data = bytes.skip(data_offset(count) as int);
    &&& increment_fault(bytes, count) is None
    &&& new.len() == n * PAGE
    &&& forall|i: int|
        0 <= i < count ==> #[trigger] page(data, i) == page(new, block_at(bytes, i) as int)
    &&& forall|b: nat|
        b < n ==> match #[trigger] source_of(previous, bytes, count, truncation, b) {
            Source::Changed(_) => true,
            Source::Kept(k) => is_page(previous[k as int], store) && page(new, b as int)
                == content(previous[k as int], store),
            Source::Partial => false,
            Source::Zero => page(new, b as int) == zeros(),
        }
}

/// An increment gives the file back: where it leads from the pages of the file before to some
/// file, the references that patching makes, read from the store that the pages of the increment
/// were put into, are that file.
pub proof fn lemma_increment_restores(
    previous: Seq<PieceView>,
    bytes: Seq<u8>,
    new: Seq<u8>,
    salt: Seq<u8>,
    patched: Seq<PieceView>,
    store: Map<Seq<char>, Seq<u8>>,
)
    requires
        salt.len() == SALT,
        leads_to(previous, bytes, new, store),
        ({
            let data = bytes.skip(data_offset(native_at(bytes, 4, 4)) as int);
            forall|i: int|
                0 <= i < bodies_of(salt, data).len() ==> store[digest_of(
                    #[trigger] bodies_of(salt, data)[i],
                )] == bodies_of(salt, data)[i]
        }),
        ({
            let count = native_at(bytes, 4, 4);
            let truncation = native_at(bytes, 8, 4);
            let changed = file_pages(salt, bytes.skip(data_offset(count) as int));
            &&& patched.len() == patched_len(bytes, count, truncation)
            &&& forall|b: int|
                0 <= b < patched.len() ==> match source_of(
                    previous,
                    bytes,
                    count,
                    truncation,
                    b as nat,
                ) {
                    Source::Changed(i) => #[trigger] patched[b] == changed[i as int],
                    Source::Kept(i) => patched[b] == previous[i as int],
                    Source::Partial => false,
                    Source::Zero => is_page(patched[b], store) && content(patched[b], store)
                        == zeros(),
                }
        }),
    ensures
        assembled(patched, store) == new,
{
    let count = native_at(bytes, 4, 4);
    let truncation = native_at(bytes, 8, 4);
    let data = bytes.skip(data_offset(count) as int);
    let changed = file_pages(salt, data);
    lemma_whole_file_pages(salt, data, store);
    crate::pages::lemma_upload_reads_back(salt, data, store);
    assert forall|b: int| 0 <= b < patched.len() implies is_page(#[trigger] patched[b], store)
        && content(patched[b], store) == page(new, b) by {
        let s = source_of(previous, bytes, count, truncation, b as nat);
        match s {
            Source::Changed(i) => {
                assert(i < count && block_at(bytes, i as int) == b);
                lemma_pages_in_place(changed, store, i as int);
                assert(page(data, i as int) == page(new, block_at(bytes, i as int) as int));
                assert(is_page(changed[i as int], store));
            },
            _ => {},
        }
    }
    lemma_pages_in_place(patched, store, 0);
    assert forall|b: int| 0 <= b < patched.len() implies #[trigger] page(
        assembled(patched, store),
        b,
    ) == page(new, b) by {
        lemma_pages_in_place(patched, store, b);
        assert(is_page(patched[b], store));
    }
    lemma_equal_pages(assembled(patched, store), new, patched.len());
}

/// Each object that a file is cut into begins with the salt.
proof fn lemma_salted(salt: Seq<u8>, bytes: Seq<u8>, i: int)
    requires
        0 <= i < bodies_of(salt, bytes).len(),
    ensures
        bodies_of(salt, bytes)[i].len() >= salt.len(),
        bodies_of(salt, bytes)[i].take(salt.len() as int) == salt,
    decreases bytes.len(),
{
    let n = chunk_len(bytes);
    if i == 0 {
        assert((salt + bytes.take(n)).take(salt.len() as int) =~= salt);
    } else {
        lemma_salted(salt, bytes.skip(n), i - 1);
    }
}

/// Two generations share no object: whatever two files hold, what they are cut into under
/// different salts differs. So a late retirement of an object of one generation cannot take an
/// object that another has stored.
pub proof fn lemma_generations_are_apart(
    salt: Seq<u8>,
    bytes: Seq<u8>,
    i: int,
    other_salt: Seq<u8>,
    other: Seq<u8>,
    j: int,
)
    requires
        salt.len() == SALT,
        other_salt.len() == SALT,
        salt != other_salt,
        0 <= i < bodies_of(salt, bytes).len(),
        0 <= j < bodies_of(other_salt, other).len(),
    ensures
        bodies_of(salt, bytes)[i] != bodies_of(other_salt, other)[j],
{
    lemma_salted(salt, bytes, i);
    lemma_salted(other_salt, other, j);
}

} // verus!
