//! What reading refuses of an uploaded manifest, and the settings that strict completion asks for.

use vstd::prelude::*;
use vstd::utf8::encode_utf8;

use crate::incremental_manifest::{
    begins, closing_fault, file_entry, lookup, message_limit, parser_step, range_entry,
    sum_fault, text_in, trimmed, unhexed, EventView, FieldsView, ParserView,
};
use crate::inspect::last_line;
use crate::json::{lemma_set_then_get, JsonView};
use crate::publish::{claimed_head, forked_head};
use crate::strict_sync::{is_fixed, CommitLevel, Settings};
use crate::sums::sha256_of;

verus! {

/// A manifest stands where its last line has the checksum of every byte before that line; and
/// where it has not, or has no such line, it does not stand.
pub proof fn lemma_checksum_closes_the_manifest(
    input: Seq<u8>,
    f: FieldsView,
    start: int,
    sum: Seq<u8>,
)
    ensures
        last_line(input) is None ==> closing_fault(input, f) is Some,
        text_in(f, "Manifest-Checksum"@) is Err ==> closing_fault(input, f) is Some,
        last_line(input) == Some(start) && text_in(f, "Manifest-Checksum"@) == Ok::<
            Seq<u8>,
            Seq<char>,
        >(sum) ==> (closing_fault(input, f) is None <==> begins(
            trimmed(input.skip(start)),
            encode_utf8("\"Manifest-Checksum\""@),
        ) && unhexed(sum) == Ok::<Seq<u8>, Seq<char>>(sha256_of(input.take(start)))),
{
}

/// The entry of a file adds that file with its size, and changes no other; the entry of one that
/// was there already is refused.
pub proof fn lemma_no_file_comes_twice(p: ParserView, path: Seq<u8>, size: u64)
    requires
        p.stack.len() > 1,
        p.array == Some(encode_utf8("Files"@)),
        file_entry(p.stack.last().0) == Ok::<(Seq<u8>, u64), Seq<char>>((path, size)),
    ensures
        p.result.files.dom().contains(path) ==> parser_step(p, EventView::ObjectEnd) is Err,
        !p.result.files.dom().contains(path) ==> {
            let r = parser_step(p, EventView::ObjectEnd);
            &&& r is Ok
            &&& r->Ok_0.result.files == p.result.files.insert(path, size)
            &&& r->Ok_0.result.ranges == p.result.ranges
            &&& r->Ok_0.stack == p.stack.drop_last()
            &&& r->Ok_0.array == p.array
            &&& r->Ok_0.root == p.root
        },
{
}

/// The entry of a stretch of log adds that stretch behind the others, and changes nothing else.
pub proof fn lemma_stretches_stand_in_order(p: ParserView)
    requires
        p.stack.len() > 1,
        p.array == Some(encode_utf8("WAL-Ranges"@)),
        range_entry(p.stack.last().0, p.result.ranges) is Ok,
        encode_utf8("WAL-Ranges"@) != encode_utf8("Files"@),
    ensures
        ({
            let r = parser_step(p, EventView::ObjectEnd);
            &&& r is Ok
            &&& r->Ok_0.result.ranges == p.result.ranges.push(
                range_entry(p.stack.last().0, p.result.ranges)->Ok_0,
            )
            &&& r->Ok_0.result.files == p.result.files
            &&& r->Ok_0.stack == p.stack.drop_last()
        }),
{
}

/// A field that the object has already is refused, and so is one outside of every object.
pub proof fn lemma_no_field_comes_twice(p: ParserView, name: Seq<u8>)
    ensures
        parser_step(p, EventView::Field(name)) is Ok <==> p.stack.len() > 0 && lookup(
            p.stack.last().0,
            name,
        ) is None,
{
}

/// The checksum of a file may be missing; one that is there names a known algorithm and has its
/// length.
pub proof fn lemma_file_checksums(f: FieldsView)
    ensures
        sum_fault(f) is None <==> {
            ||| lookup(f, encode_utf8("Checksum"@)) is None && lookup(
                f,
                encode_utf8("Checksum-Algorithm"@),
            ) is None
            ||| has_sum(f, encode_utf8("CRC32C"@), 4)
            ||| has_sum(f, encode_utf8("SHA224"@), 28)
            ||| has_sum(f, encode_utf8("SHA256"@), 32)
            ||| has_sum(f, encode_utf8("SHA384"@), 48)
            ||| has_sum(f, encode_utf8("SHA512"@), 64)
        },
{
    lemma_algorithms_differ();
}

/// The entry has a checksum of `n` bytes by the algorithm called `name`.
pub open spec fn has_sum(f: FieldsView, name: Seq<u8>, n: nat) -> bool {
    &&& text_in(f, "Checksum-Algorithm"@) == Ok::<Seq<u8>, Seq<char>>(name)
    &&& text_in(f, "Checksum"@) is Ok
    &&& unhexed(text_in(f, "Checksum"@)->Ok_0) is Ok
    &&& unhexed(text_in(f, "Checksum"@)->Ok_0)->Ok_0.len() == n
}

/// The names of the algorithms differ.
proof fn lemma_algorithms_differ()
    ensures
        encode_utf8("CRC32C"@) != encode_utf8("SHA224"@),
        encode_utf8("CRC32C"@) != encode_utf8("SHA256"@),
        encode_utf8("CRC32C"@) != encode_utf8("SHA384"@),
        encode_utf8("CRC32C"@) != encode_utf8("SHA512"@),
        encode_utf8("SHA224"@) != encode_utf8("SHA256"@),
        encode_utf8("SHA224"@) != encode_utf8("SHA384"@),
        encode_utf8("SHA224"@) != encode_utf8("SHA512"@),
        encode_utf8("SHA256"@) != encode_utf8("SHA384"@),
        encode_utf8("SHA256"@) != encode_utf8("SHA512"@),
        encode_utf8("SHA384"@) != encode_utf8("SHA512"@),
{
    reveal_strlit("CRC32C");
    reveal_strlit("SHA224");
    reveal_strlit("SHA256");
    reveal_strlit("SHA384");
    reveal_strlit("SHA512");
    assert("CRC32C"@[0] == 'C');
    assert("SHA224"@[0] == 'S' && "SHA224"@[3] == '2' && "SHA224"@[4] == '2');
    assert("SHA256"@[0] == 'S' && "SHA256"@[3] == '2' && "SHA256"@[4] == '5');
    assert("SHA384"@[0] == 'S' && "SHA384"@[3] == '3');
    assert("SHA512"@[0] == 'S' && "SHA512"@[3] == '5');
    lemma_encodes_apart("CRC32C"@, "SHA224"@);
    lemma_encodes_apart("CRC32C"@, "SHA256"@);
    lemma_encodes_apart("CRC32C"@, "SHA384"@);
    lemma_encodes_apart("CRC32C"@, "SHA512"@);
    lemma_encodes_apart("SHA224"@, "SHA256"@);
    lemma_encodes_apart("SHA224"@, "SHA384"@);
    lemma_encodes_apart("SHA224"@, "SHA512"@);
    lemma_encodes_apart("SHA256"@, "SHA384"@);
    lemma_encodes_apart("SHA256"@, "SHA512"@);
    lemma_encodes_apart("SHA384"@, "SHA512"@);
}

/// Texts that differ are encoded differently.
proof fn lemma_encodes_apart(a: Seq<char>, b: Seq<char>)
    requires
        a != b,
    ensures
        encode_utf8(a) != encode_utf8(b),
{
    vstd::utf8::encode_utf8_decode_utf8(a);
    vstd::utf8::encode_utf8_decode_utf8(b);
}

/// Bytes of the manifest come in messages as long as a manifest may be; of the other kinds, which
/// are to end the upload or to be passed over, only short ones are taken, and of any other none.
pub proof fn lemma_message_lengths(kind: u8)
    ensures
        message_limit(kind) is Some <==> kind == 'd' as u8 || kind == 'c' as u8 || kind == 'f' as u8
            || kind == 'H' as u8 || kind == 'S' as u8,
        message_limit('d' as u8) matches Some(n) && n >= 1_000_000,
        kind != 'd' as u8 && message_limit(kind) is Some ==> message_limit(kind) == Some(10000nat),
{
}

/// Claiming a head changes who holds it and its revision, and nothing else.
pub proof fn lemma_claim_keeps_the_head(
    head: JsonView,
    epoch: Seq<char>,
    revision: Seq<char>,
    k: Seq<char>,
)
    requires
        head is Object,
    ensures
        ({
            let now = claimed_head(head, epoch, revision);
            &&& now is Object
            &&& now.at("epoch"@) == JsonView::Text(epoch)
            &&& now.at("revision"@) == JsonView::Text(revision)
            &&& k != "epoch"@ && k != "revision"@ ==> now.at(k) == head.at(k)
        }),
{
    reveal_strlit("epoch");
    reveal_strlit("revision");
    assert("epoch"@.len() != "revision"@.len());
    let a = head.with("epoch"@, JsonView::Text(epoch));
    lemma_set_then_get(head, "epoch"@, JsonView::Text(epoch), k);
    lemma_set_then_get(a, "revision"@, JsonView::Text(revision), k);
    lemma_set_then_get(a, "revision"@, JsonView::Text(revision), "epoch"@);
}

/// A head that was forked off is of the new timeline, says from what it came, where it left that and
/// where its history is, and is otherwise as its parent.
pub proof fn lemma_fork_tells_its_origin(
    parent: JsonView,
    t: u32,
    key: Seq<char>,
    fork: u64,
    epoch: Seq<char>,
    revision: Seq<char>,
    k: Seq<char>,
)
    requires
        parent is Object,
    ensures
        ({
            let now = forked_head(parent, t, key, fork, epoch, revision);
            &&& now is Object
            &&& now.at("timeline"@) == JsonView::Number(t as u64)
            &&& now.at("transition"@).at("parent"@) == parent
            &&& now.at("transition"@).at("fork"@) == JsonView::Number(fork)
            &&& now.at("transition"@).at("history"@) == JsonView::Text(key)
            &&& now.at("epoch"@) == JsonView::Text(epoch)
            &&& now.at("revision"@) == JsonView::Text(revision)
            &&& k != "timeline"@ && k != "transition"@ && k != "epoch"@ && k != "revision"@
                ==> now.at(k) == parent.at(k)
        }),
{
    reveal_strlit("epoch");
    reveal_strlit("revision");
    reveal_strlit("timeline");
    reveal_strlit("transition");
    reveal_strlit("fork");
    reveal_strlit("history");
    reveal_strlit("parent");
    assert("revision"@[0] != "timeline"@[0]);
    assert("epoch"@.len() == 5 && "revision"@.len() == 8 && "transition"@.len() == 10);
    assert("fork"@.len() == 4 && "history"@.len() == 7 && "parent"@.len() == 6);
    let e = JsonView::Object(Seq::empty());
    let e1 = e.with("fork"@, JsonView::Number(fork));
    let e2 = e1.with("history"@, JsonView::Text(key));
    let tr = e2.with("parent"@, parent);
    lemma_set_then_get(e, "fork"@, JsonView::Number(fork), "parent"@);
    lemma_set_then_get(e1, "history"@, JsonView::Text(key), "fork"@);
    lemma_set_then_get(e2, "parent"@, parent, "fork"@);
    lemma_set_then_get(e2, "parent"@, parent, "history"@);
    let a = parent.with("timeline"@, JsonView::Number(t as u64));
    let b = a.with("transition"@, tr);
    let c = b.with("epoch"@, JsonView::Text(epoch));
    lemma_set_then_get(parent, "timeline"@, JsonView::Number(t as u64), k);
    lemma_set_then_get(a, "transition"@, tr, k);
    lemma_set_then_get(a, "transition"@, tr, "timeline"@);
    lemma_set_then_get(b, "epoch"@, JsonView::Text(epoch), k);
    lemma_set_then_get(b, "epoch"@, JsonView::Text(epoch), "timeline"@);
    lemma_set_then_get(b, "epoch"@, JsonView::Text(epoch), "transition"@);
    lemma_set_then_get(c, "revision"@, JsonView::Text(revision), k);
    lemma_set_then_get(c, "revision"@, JsonView::Text(revision), "timeline"@);
    lemma_set_then_get(c, "revision"@, JsonView::Text(revision), "transition"@);
    lemma_set_then_get(c, "revision"@, JsonView::Text(revision), "epoch"@);
}

/// Strict completion is had only where everything reaches the disk and a crash ends the server, and
/// where commits wait: for the store alone with no standby named, or else for named standbys that a
/// sender serves.
pub proof fn lemma_strict_completion(s: Settings)
    ensures
        s.complete(true) || s.complete(false) ==> s.fsync == Some(true) && s.restart_after_crash
            == Some(false),
        s.complete(true) || s.complete(false) ==> s.synchronous_commit == Some(
            CommitLevel::RemoteFlush,
        ) || s.synchronous_commit == Some(CommitLevel::RemoteApply),
        s.complete(true) ==> s.synchronous_commit != Some(CommitLevel::RemoteApply)
            && !s.complete(false),
        s.complete(false) ==> s.max_wal_senders is Some && s.max_wal_senders->0 > 0
            && s.synchronous_standby_names is Some,
        s.fsync == Some(true) && s.restart_after_crash == Some(false) && s.synchronous_commit
            == Some(CommitLevel::RemoteFlush) && s.synchronous_standby_names is None ==> s.complete(
            true,
        ),
{
}

/// The settings that strict completion rests on cannot be changed while the server runs.
pub proof fn lemma_what_is_fixed()
    ensures
        is_fixed("fsync"@),
        is_fixed("restart_after_crash"@),
        is_fixed("synchronous_commit"@),
        is_fixed("synchronous_standby_names"@),
{
}

} // verus!
