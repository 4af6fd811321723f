//! Pages of a snapshot: how a file is cut into objects, and how an incremental file replaces the
//! pages of the one before it.
use crate::image::{
    pieces_view, Piece, PieceView, CHUNK, INCREMENTAL_MAGIC, LIMIT, PAGE, RELSEG, SALT,
};
use crate::refusal::{refuse, Refusal};
use crate::native::{native_at, word_at};
use crate::wire::{digest, digest_of};
use vstd::prelude::*;
use vstd::slice::{slice_subrange, slice_to_vec};
use vstd::utf8::encode_utf8;

verus! {

/// The bodies of objects, as sequences of bytes.
pub open spec fn bodies_view(b: Seq<Vec<u8>>) -> Seq<Seq<u8>> {
    Seq::new(b.len(), |i: int| b[i]@)
}

/// How much of the file is in its next object.
pub open spec fn chunk_len(bytes: Seq<u8>) -> int {
    if bytes.len() < CHUNK {
        bytes.len() as int
    } else {
        CHUNK as int
    }
}

/// The objects that a file is cut into, each the salt and then a chunk of the file.
pub open spec fn bodies_of(salt: Seq<u8>, bytes: Seq<u8>) -> Seq<Seq<u8>>
    decreases bytes.len(),
{
    if bytes.len() == 0 {
        Seq::empty()
    } else {
        let n = chunk_len(bytes);
        seq![salt + bytes.take(n)] + bodies_of(salt, bytes.skip(n))
    }
}

/// References to the pages of one object that holds `len` bytes behind its salt, from page `i`
/// on.
pub open spec fn pages_of(key: Seq<char>, len: nat, i: nat) -> Seq<PieceView>
    decreases len - i,
{
    if i * PAGE >= len {
        Seq::empty()
    } else {
        let left = (len - i * PAGE) as nat;
        seq![
            PieceView {
                key,
                offset: (SALT + i * PAGE) as nat,
                length: if left < PAGE {
                    left
                } else {
                    PAGE as nat
                },
            },
        ] + pages_of(key, len, i + 1)
    }
}

/// References to the pages of a file, object by object.
pub open spec fn file_pages(salt: Seq<u8>, bytes: Seq<u8>) -> Seq<PieceView>
    decreases bytes.len(),
{
    if bytes.len() == 0 {
        Seq::empty()
    } else {
        let n = chunk_len(bytes);
        pages_of(digest_of(salt + bytes.take(n)), n as nat, 0) + file_pages(salt, bytes.skip(n))
    }
}

fn push_pages(out: &mut Vec<Piece>, key: &String, len: usize)
    requires
        len <= CHUNK,
    ensures
        pieces_view(final(out)@) == pieces_view(old(out)@) + pages_of(key@, len as nat, 0),
{
    let ghost before = pieces_view(out@);
    let mut i: usize = 0;
    proof {
        assert(before + pages_of(key@, len as nat, 0) =~= pieces_view(out@) + pages_of(
            key@,
            len as nat,
            0,
        ));
    }
    while i * PAGE < len
        invariant
            len <= CHUNK,
            i <= 16,
            pieces_view(out@) + pages_of(key@, len as nat, i as nat) == before + pages_of(
                key@,
                len as nat,
                0,
            ),
        decreases 16 - i,
    {
        let left: usize = len - i * PAGE;
        let length: usize = if left < PAGE {
            left
        } else {
            PAGE
        };
        let ghost was = pieces_view(out@);
        let p = Piece { key: key.clone(), offset: SALT + i * PAGE, length };
        let ghost pv = p@;
        out.push(p);
        proof {
            assert(pieces_view(out@) =~= was.push(pv));
            assert(pages_of(key@, len as nat, i as nat) == seq![pv] + pages_of(
                key@,
                len as nat,
                (i + 1) as nat,
            ));
            assert(was + (seq![pv] + pages_of(key@, len as nat, (i + 1) as nat)) =~= pieces_view(
                out@,
            ) + pages_of(key@, len as nat, (i + 1) as nat));
        }
        i += 1;
    }
    proof {
        assert(pages_of(key@, len as nat, i as nat) =~= Seq::empty());
        assert(pieces_view(out@) + Seq::<PieceView>::empty() =~= pieces_view(out@));
    }
}

/// What is to be stored of a file, and where its pages will be.
pub struct Upload {
    pub bodies: Vec<Vec<u8>>,
    pub pieces: Vec<Piece>,
}

/// Cuts a file into objects. The salt keeps a late deletion from hitting a later upload of the
/// same bytes: names that were given up never come back.
pub fn upload(generation: &str, bytes: &[u8]) -> (r: Upload)
    ensures
        bodies_view(r.bodies@) == bodies_of(encode_utf8(generation@), bytes@),
        pieces_view(r.pieces@) == file_pages(encode_utf8(generation@), bytes@),
{
    let salt = generation.as_bytes();
    let ghost s = encode_utf8(generation@);
    let mut bodies: Vec<Vec<u8>> = Vec::new();
    let mut pieces: Vec<Piece> = Vec::new();
    let mut at: usize = 0;
    proof {
        assert(bytes@.skip(0) =~= bytes@);
        assert(bodies_view(bodies@) + bodies_of(s, bytes@) =~= bodies_of(s, bytes@));
        assert(pieces_view(pieces@) + file_pages(s, bytes@) =~= file_pages(s, bytes@));
    }
    while at < bytes.len()
        invariant
            salt@ == s,
            at <= bytes@.len(),
            bodies_view(bodies@) + bodies_of(s, bytes@.skip(at as int)) == bodies_of(s, bytes@),
            pieces_view(pieces@) + file_pages(s, bytes@.skip(at as int)) == file_pages(s, bytes@),
        decreases bytes@.len() - at,
    {
        let left: usize = bytes.len() - at;
        let n: usize = if left < CHUNK {
            left
        } else {
            CHUNK
        };
        let ghost rest = bytes@.skip(at as int);
        let chunk = slice_subrange(bytes, at, at + n);
        let mut body: Vec<u8> = slice_to_vec(salt);
        body.extend_from_slice(chunk);
        proof {
            assert(n == chunk_len(rest));
            assert(chunk@ =~= rest.take(n as int));
            assert(body@ =~= s + rest.take(n as int));
            assert(rest.skip(n as int) =~= bytes@.skip(at + n));
        }
        let key = digest(body.as_slice());
        let ghost was = pieces_view(pieces@);
        push_pages(&mut pieces, &key, n);
        let ghost wb = bodies_view(bodies@);
        let ghost bv = body@;
        bodies.push(body);
        proof {
            assert(bodies_view(bodies@) =~= wb.push(bv));
            let more = bodies_of(s, bytes@.skip(at + n));
            assert(wb + (seq![bv] + more) =~= bodies_view(bodies@) + more);
            let pg = pages_of(key@, n as nat, 0);
            let mp = file_pages(s, bytes@.skip(at + n));
            assert(was + (pg + mp) =~= pieces_view(pieces@) + mp);
        }
        at += n;
    }
    proof {
        assert(bytes@.skip(at as int) =~= Seq::empty());
        assert(bodies_view(bodies@) + Seq::<Seq<u8>>::empty() =~= bodies_view(bodies@));
        assert(pieces_view(pieces@) + Seq::<PieceView>::empty() =~= pieces_view(pieces@));
    }
    Upload { bodies, pieces }
}

/// How long the header of an incremental file with `count` blocks is: padded to whole pages
/// where pages follow it.
pub open spec fn data_offset(count: nat) -> nat {
    if count == 0 {
        12
    } else {
        (12 + count * 4 + PAGE - 1) as nat / PAGE as nat * PAGE as nat
    }
}

pub fn increment_offset(count: usize) -> (r: usize)
    requires
        count <= RELSEG,
    ensures
        r == data_offset(count as nat),
{
    if count == 0 {
        12
    } else {
        (12 + count * 4 + PAGE - 1) / PAGE * PAGE
    }
}

/// The number of the `i`-th block that an incremental file holds.
pub open spec fn block_at(bytes: Seq<u8>, i: int) -> nat {
    native_at(bytes, 12 + 4 * i, 4)
}

/// The blocks that an incremental file holds rise and belong to a relation segment.
pub open spec fn good_blocks(bytes: Seq<u8>, count: nat) -> bool {
    &&& forall|i: int| 0 <= i < count ==> (#[trigger] block_at(bytes, i)) < RELSEG
    &&& forall|i: int, j: int|
        0 <= i < j < count ==> #[trigger] block_at(bytes, i) < #[trigger] block_at(bytes, j)
}

/// How many pages a file has after an increment.
pub open spec fn patched_len(bytes: Seq<u8>, count: nat, truncation: nat) -> nat {
    let top = if count == 0 {
        0
    } else {
        block_at(bytes, count - 1) + 1
    };
    if truncation > top {
        truncation
    } else {
        top
    }
}

/// What is wrong with an incremental file that `changed` pages were uploaded from.
pub open spec fn increment_fault(bytes: Seq<u8>, changed: nat) -> Option<Seq<char>> {
    if bytes.len() < 12 {
        Some("short incremental header"@)
    } else {
        let count = native_at(bytes, 4, 4);
        let truncation = native_at(bytes, 8, 4);
        if native_at(bytes, 0, 4) != INCREMENTAL_MAGIC || count > RELSEG || truncation > RELSEG {
            Some("invalid incremental header"@)
        } else if bytes.len() != data_offset(count) + count * PAGE || changed != count {
            Some("incremental length mismatch"@)
        } else if !good_blocks(bytes, count) {
            Some("invalid incremental block list"@)
        } else if patched_len(bytes, count, truncation) > LIMIT / PAGE {
            Some("snapshot relation limit"@)
        } else {
            None
        }
    }
}

/// Where a page of a patched file comes from.
pub enum Source {
    /// From the increment.
    Changed(nat),
    /// From the file before.
    Kept(nat),
    /// From the file before, where that page is not whole.
    Partial,
    /// From nowhere: it is zero.
    Zero,
}

/// Where page `b` comes from, when `c` of the increment's blocks are below it. Relations can be
/// extended by zero pages without log, even below the truncation.
pub open spec fn source_of(
    previous: Seq<PieceView>,
    bytes: Seq<u8>,
    count: nat,
    truncation: nat,
    b: nat,
) -> Source {
    if exists|i: nat| i < count && #[trigger] block_at(bytes, i as int) == b {
        Source::Changed(choose|i: nat| i < count && #[trigger] block_at(bytes, i as int) == b)
    } else if b < truncation && b < previous.len() {
        if previous[b as int].length != PAGE {
            Source::Partial
        } else {
            Source::Kept(b)
        }
    } else {
        Source::Zero
    }
}

/// The page `p` is what `s` says.
pub open spec fn is_from<F: Fn() -> Result<Piece, Refusal>>(
    s: Source,
    previous: Seq<PieceView>,
    changed: Seq<PieceView>,
    zero: F,
    p: Piece,
) -> bool {
    match s {
        Source::Changed(i) => p@ == changed[i as int],
        Source::Kept(i) => p@ == previous[i as int],
        Source::Partial => false,
        Source::Zero => call_ensures(zero, (), Ok::<Piece, Refusal>(p)),
    }
}

/// Replaces the pages of a file by those of an increment. `zero` gives a page of zeros; it is
/// called for pages that neither holds.
pub fn patch<F: Fn() -> Result<Piece, Refusal>>(
    previous: &[Piece],
    bytes: &[u8],
    changed: Vec<Piece>,
    zero: F,
) -> (r: Result<Vec<Piece>, Refusal>)
    requires
        call_requires(zero, ()),
    ensures
        match increment_fault(bytes@, changed@.len()) {
            Some(e) => r matches Err(x) && x@ == e,
            None => {
                let count = native_at(bytes@, 4, 4);
                let truncation = native_at(bytes@, 8, 4);
                let n = patched_len(bytes@, count, truncation);
                let prev = pieces_view(previous@);
                let news = pieces_view(changed@);
                match r {
                    Ok(v) => v@.len() == n && forall|b: int|
                        0 <= b < n ==> is_from(
                            source_of(prev, bytes@, count, truncation, b as nat),
                            prev,
                            news,
                            zero,
                            #[trigger] v@[b],
                        ),
                    Err(e) => exists|b: nat|
                        b < n && (forall|c: nat|
                            c < b ==> !(#[trigger] source_of(
                                prev,
                                bytes@,
                                count,
                                truncation,
                                c,
                            ) is Partial)) && match #[trigger] source_of(
                            prev,
                            bytes@,
                            count,
                            truncation,
                            b,
                        ) {
                            Source::Partial => e@ == "partial predecessor page"@,
                            Source::Zero => call_ensures(zero, (), Err::<Piece, Refusal>(e)),
                            _ => false,
                        },
                }
            },
        },
{
    if bytes.len() < 12 {
        return Err(refuse("short incremental header"));
    }
    let magic: u32 = word_at(bytes, 0);
    let count: usize = word_at(bytes, 4) as usize;
    let truncation: usize = word_at(bytes, 8) as usize;
    if magic != INCREMENTAL_MAGIC || count > RELSEG || truncation > RELSEG {
        return Err(refuse("invalid incremental header"));
    }
    let offset: usize = increment_offset(count);
    if bytes.len() != offset + count * PAGE || changed.len() != count {
        return Err(refuse("incremental length mismatch"));
    }
    proof {
        assert(12 + count * 4 <= data_offset(count as nat));
    }
    let mut blocks: Vec<usize> = Vec::new();
    let mut i: usize = 0;
    while i < count
        invariant
            i <= count <= RELSEG,
            12 + count * 4 <= bytes@.len(),
            blocks@.len() == i,
            count == native_at(bytes@, 4, 4),
            forall|j: int| 0 <= j < i ==> #[trigger] blocks@[j] == block_at(bytes@, j),
            forall|j: int| 0 <= j < i ==> #[trigger] blocks@[j] < RELSEG,
            forall|j: int, k: int| 0 <= j < k < i ==> #[trigger] blocks@[j] < #[trigger] blocks@[k],
            increment_fault(bytes@, changed@.len()) == (if !good_blocks(bytes@, count as nat) {
                Some("invalid incremental block list"@)
            } else if patched_len(bytes@, count as nat, native_at(bytes@, 8, 4)) > LIMIT / PAGE {
                Some("snapshot relation limit"@)
            } else {
                None
            }),
        decreases count - i,
    {
        let b: usize = word_at(bytes, 12 + i * 4) as usize;
        proof {
            assert(b == block_at(bytes@, i as int));
        }
        if b >= RELSEG || (i > 0 && blocks[i - 1] >= b) {
            proof {
                if b < RELSEG {
                    assert(block_at(bytes@, i - 1) >= block_at(bytes@, i as int));
                }
            }
            return Err(refuse("invalid incremental block list"));
        }
        blocks.push(b);
        proof {
            assert forall|j: int, k: int| 0 <= j < k < i + 1 implies #[trigger] blocks@[j]
                < #[trigger] blocks@[k] by {
                if k == i && j < i - 1 {
                    assert(blocks@[j] < blocks@[i - 1]);
                }
            }
        }
        i += 1;
    }
    proof {
        assert(good_blocks(bytes@, count as nat)) by {
            assert forall|j: int| 0 <= j < count implies (#[trigger] block_at(bytes@, j))
                < RELSEG by {
                assert(blocks@[j] == block_at(bytes@, j));
            }
            assert forall|j: int, k: int| 0 <= j < k < count implies #[trigger] block_at(bytes@, j)
                < #[trigger] block_at(bytes@, k) by {
                assert(blocks@[j] == block_at(bytes@, j) && blocks@[k] == block_at(bytes@, k));
            }
        }
    }
    let top: usize = if count == 0 {
        0
    } else {
        blocks[count - 1] + 1
    };
    let length: usize = if truncation > top {
        truncation
    } else {
        top
    };
    proof {
        assert(length == patched_len(bytes@, count as nat, truncation as nat));
    }
    if length > LIMIT / PAGE {
        return Err(refuse("snapshot relation limit"));
    }
    let ghost prev = pieces_view(previous@);
    let ghost news = pieces_view(changed@);
    let mut result: Vec<Piece> = Vec::new();
    let mut next: usize = 0;
    let mut b: usize = 0;
    while b < length
        invariant
            call_requires(zero, ()),
            b <= length,
            length == patched_len(bytes@, count as nat, truncation as nat),
            count == native_at(bytes@, 4, 4),
            truncation == native_at(bytes@, 8, 4),
            increment_fault(bytes@, changed@.len()) is None,
            prev == pieces_view(previous@),
            news == pieces_view(changed@),
            changed@.len() == count,
            blocks@.len() == count,
            forall|j: int| 0 <= j < count ==> #[trigger] blocks@[j] == block_at(bytes@, j),
            forall|j: int, k: int|
                0 <= j < k < count ==> #[trigger] blocks@[j] < #[trigger] blocks@[k],
            next <= count,
            forall|j: int| 0 <= j < next ==> #[trigger] blocks@[j] < b,
            forall|j: int| next <= j < count ==> #[trigger] blocks@[j] >= b,
            result@.len() == b,
            forall|j: int|
                0 <= j < b ==> is_from(
                    source_of(prev, bytes@, count as nat, truncation as nat, j as nat),
                    prev,
                    news,
                    zero,
                    #[trigger] result@[j],
                ),
        decreases length - b,
    {
        let ghost src = source_of(prev, bytes@, count as nat, truncation as nat, b as nat);
        proof {
            assert forall|c: nat| c < b implies !(#[trigger] source_of(
                prev,
                bytes@,
                count as nat,
                truncation as nat,
                c,
            ) is Partial) by {
                assert(is_from(
                    source_of(prev, bytes@, count as nat, truncation as nat, c),
                    prev,
                    news,
                    zero,
                    result@[c as int],
                ));
            }
        }
        if next < count && blocks[next] == b {
            let p = changed[next].copy();
            proof {
                assert(block_at(bytes@, next as int) == b);
                let i = choose|i: nat|
                    i < count && #[trigger] block_at(bytes@, i as int) == b as nat;
                assert(block_at(bytes@, (next as nat) as int) == b);
                assert(i < count && block_at(bytes@, i as int) == b);
                assert(blocks@[i as int] == b && blocks@[next as int] == b);
                assert(i == next);
                assert(news[next as int] == p@);
            }
            result.push(p);
            proof {
                assert forall|j: int| next + 1 <= j < count implies #[trigger] blocks@[j] >= b
                    + 1 by {
                    assert(blocks@[next as int] < blocks@[j]);
                }
            }
            next += 1;
        } else {
            proof {
                if exists|i: nat| i < count && #[trigger] block_at(bytes@, i as int) == b as nat {
                    let i = choose|i: nat|
                        i < count && #[trigger] block_at(bytes@, i as int) == b as nat;
                    assert(blocks@[i as int] == b);
                    if i > next {
                        assert(blocks@[next as int] < blocks@[i as int]);
                    }
                }
                assert forall|j: int| next <= j < count implies #[trigger] blocks@[j] >= b + 1 by {
                    if blocks@[j] == b {
                        assert(block_at(bytes@, (j as nat) as int) == b as nat);
                    }
                }
            }
            if b < truncation && b < previous.len() {
                proof {
                    assert(prev[b as int] == previous@[b as int]@);
                }
                if previous[b].length != PAGE {
                    proof {
                        assert(src is Partial);
                    }
                    return Err(refuse("partial predecessor page"));
                }
                result.push(previous[b].copy());
            } else {
                match zero() {
                    Ok(p) => {
                        result.push(p);
                    },
                    Err(e) => {
                        proof {
                            assert(src is Zero);
                        }
                        return Err(e);
                    },
                }
            }
        }
        b += 1;
    }
    Ok(result)
}

/// An increment without blocks that keeps the length leaves a file of whole pages as it is.
pub proof fn lemma_empty_increment_keeps(previous: Seq<PieceView>, bytes: Seq<u8>, b: nat)
    requires
        increment_fault(bytes, 0) is None,
        native_at(bytes, 8, 4) == previous.len(),
        b < previous.len(),
        previous[b as int].length == PAGE,
    ensures
        patched_len(bytes, 0, previous.len()) == previous.len(),
        source_of(previous, bytes, 0, previous.len(), b) == Source::Kept(b),
{
}

/// No page of the file before comes back past the truncation.
pub proof fn lemma_truncated_pages_stay_away(
    previous: Seq<PieceView>,
    bytes: Seq<u8>,
    count: nat,
    truncation: nat,
    b: nat,
)
    requires
        truncation <= b,
    ensures
        !(source_of(previous, bytes, count, truncation, b) is Kept),
{
}

/// The bytes that references name, read from a store of objects.
pub open spec fn assembled(pieces: Seq<PieceView>, store: Map<Seq<char>, Seq<u8>>) -> Seq<u8>
    decreases pieces.len(),
{
    if pieces.len() == 0 {
        Seq::empty()
    } else {
        let p = pieces[0];
        store[p.key].subrange(p.offset as int, (p.offset + p.length) as int) + assembled(
            pieces.skip(1),
            store,
        )
    }
}

proof fn lemma_assembled_add(
    a: Seq<PieceView>,
    b: Seq<PieceView>,
    store: Map<Seq<char>, Seq<u8>>,
)
    ensures
        assembled(a + b, store) == assembled(a, store) + assembled(b, store),
    decreases a.len(),
{
    if a.len() == 0 {
        assert(a + b =~= b);
        assert(Seq::<u8>::empty() + assembled(b, store) =~= assembled(b, store));
    } else {
        lemma_assembled_add(a.skip(1), b, store);
        assert((a + b).skip(1) =~= a.skip(1) + b);
        let p = a[0];
        let head = store[p.key].subrange(p.offset as int, (p.offset + p.length) as int);
        assert(head + (assembled(a.skip(1), store) + assembled(b, store)) =~= (head + assembled(
            a.skip(1),
            store,
        )) + assembled(b, store));
    }
}

proof fn lemma_pages_assembled(
    key: Seq<char>,
    body: Seq<u8>,
    len: nat,
    i: nat,
    store: Map<Seq<char>, Seq<u8>>,
)
    requires
        store[key] == body,
        body.len() == SALT + len,
        i * PAGE <= len + PAGE,
    ensures
        i * PAGE <= len ==> assembled(pages_of(key, len, i), store) == body.skip(
            SALT + i * PAGE,
        ),
        i * PAGE >= len ==> assembled(pages_of(key, len, i), store) == Seq::<u8>::empty(),
    decreases len - i,
{
    let pages = pages_of(key, len, i);
    if i * PAGE >= len {
        assert(body.skip((SALT + len) as int) =~= Seq::empty());
    } else {
        lemma_pages_assembled(key, body, len, i + 1, store);
        let rest = pages_of(key, len, i + 1);
        assert(pages.skip(1) =~= rest);
        let p = pages[0];
        let head = body.subrange(p.offset as int, (p.offset + p.length) as int);
        if (i + 1) * PAGE <= len {
            assert(head + body.skip(SALT + (i + 1) * PAGE) =~= body.skip(SALT + i * PAGE));
        } else {
            assert(head + Seq::<u8>::empty() =~= body.skip(SALT + i * PAGE));
        }
    }
}

/// A file reads back from the objects it was cut into: what a restore gives of an upload.
pub proof fn lemma_upload_reads_back(
    salt: Seq<u8>,
    bytes: Seq<u8>,
    store: Map<Seq<char>, Seq<u8>>,
)
    requires
        salt.len() == SALT,
        forall|i: int|
            0 <= i < bodies_of(salt, bytes).len() ==> store[digest_of(
                #[trigger] bodies_of(salt, bytes)[i],
            )] == bodies_of(salt, bytes)[i],
    ensures
        assembled(file_pages(salt, bytes), store) == bytes,
    decreases bytes.len(),
{
    if bytes.len() > 0 {
        let n = chunk_len(bytes);
        let rest = bytes.skip(n);
        let body = salt + bytes.take(n);
        let all = bodies_of(salt, bytes);
        let tail = bodies_of(salt, rest);
        assert(all == seq![body] + tail);
        assert(all[0] == body);
        assert forall|i: int| 0 <= i < tail.len() implies store[digest_of(#[trigger] tail[i])]
            == tail[i] by {
            assert(all[i + 1] == tail[i]);
        }
        lemma_upload_reads_back(salt, rest, store);
        lemma_pages_assembled(digest_of(body), body, n as nat, 0, store);
        let pg = pages_of(digest_of(body), n as nat, 0);
        lemma_assembled_add(pg, file_pages(salt, rest), store);
        assert(body.skip(SALT as int) =~= bytes.take(n));
        assert(bytes.take(n) + rest =~= bytes);
    }
}

} // verus!
