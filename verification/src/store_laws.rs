//! What the answers of a store mean, which keys an archive owns, and which inventories and manifests
//! of a snapshot are sound.
use crate::archive::text_of;
use crate::http::{
    address_char, endpoint_fault, is_address, is_owned, meaning, occurs, owned_kind, page_keys,
    page_of, Reply,
};
use crate::image::{
    bad_file, bad_piece, files_counted, has_file, inventory_fault, pieces_counted, plain_part,
    plain_path, safe_path, size_of, under_file, FileView, PieceView,
};
use crate::inspect::{
    algorithm_of, checksum_fault, content_fault, entry_asked, last_break, last_line, snapshot_fault,
    sum_of, text_within, Algorithm,
};
use crate::json::JsonView;
use crate::lines::{first_of, split_on};
use crate::native::native_at;
use crate::order::below;
use crate::text::{has_prefix, has_suffix};
use crate::wire::{digest_of, hex_of};
use vstd::prelude::*;
use vstd::utf8::encode_utf8;

verus! {

/// What a reply means. An object is there exactly where the store answered with success, a tag and a
/// whole body that is not too long: a read gives that body and that tag, a write what was written
/// under the new tag. An object is taken to be missing exactly where a read was told that there is
/// no such key. Everything else is a failure, and leaves open what is there.
pub proof fn lemma_reply_means(reply: Reply, put: Option<Seq<u8>>)
    ensures
        (meaning(reply, put) matches Ok(None)) <==> {
            &&& put is None
            &&& reply matches Reply::Missing(Some(b)) && b@.len() <= 65536 && occurs(
                b@,
                encode_utf8("<Code>NoSuchKey</Code>"@),
            )
        },
        (meaning(reply, put) matches Ok(Some(_))) <==> {
            &&& reply is Answered
            &&& reply->status == 200
            &&& reply->etag is Some
            &&& reply->body is Some
            &&& reply->body->0@.len() <= 67108864
        },
        meaning(reply, put) matches Ok(Some(o)) ==> {
            &&& o.etag == reply->etag->0@
            &&& put matches Some(p) ==> o.body == p
            &&& put is None ==> o.body == reply->body->0@
        },
{
}

/// An endpoint is accepted exactly where it is encrypted, or on this machine.
pub proof fn lemma_endpoint(scheme: Seq<char>, host: Option<Seq<char>>)
    ensures
        endpoint_fault(None) is Some,
        endpoint_fault(Some((scheme, host))) is None <==> scheme == "https"@ || (scheme == "http"@
            && (host == Some("127.0.0.1"@) || host == Some("localhost"@))),
{
}

proof fn lemma_first_of(s: Seq<char>, c: char)
    ensures
        match first_of(s, c) {
            Some(i) => 0 <= i < s.len() && s[i] == c && forall|j: int|
                0 <= j < i ==> #[trigger] s[j] != c,
            None => forall|j: int| 0 <= j < s.len() ==> #[trigger] s[j] != c,
        },
    decreases s.len(),
{
    if s.len() > 0 {
        let t = s.drop_last();
        lemma_first_of(t, c);
        assert(forall|j: int| 0 <= j < t.len() ==> #[trigger] s[j] == t[j]);
        match first_of(t, c) {
            Some(i) => {
                assert(t[i] == s[i]);
            },
            None => {},
        }
    }
}

/// The keys that an archive owns, and a sweep may delete, are exactly those made of one of seven
/// kinds, a slash, and a content address. The head's key is none of them.
pub proof fn lemma_owned_keys(key: Seq<char>, kind: Seq<char>, address: Seq<char>)
    ensures
        is_owned(key) ==> exists|k: Seq<char>, a: Seq<char>|
            #![trigger owned_kind(k), is_address(a)]
            owned_kind(k) && is_address(a) && key == k + "/"@ + a,
        owned_kind(kind) <==> {
            ||| kind == "chunks"@
            ||| kind == "descriptors"@
            ||| kind == "backups"@
            ||| kind == "backup-chunks"@
            ||| kind == "snapshot-index"@
            ||| kind == "retired"@
            ||| kind == "histories"@
        },
        is_address(address) <==> address.len() == 64 && forall|i: int|
            0 <= i < address.len() ==> '0' <= #[trigger] address[i] <= '9' || 'a' <= address[i]
                <= 'f',
        !key.contains('/') ==> !is_owned(key),
{
    lemma_first_of(key, '/');
    if is_owned(key) {
        let i = first_of(key, '/')->0;
        let k = key.take(i);
        let a = key.skip(i + 1);
        reveal_strlit("/");
        assert(key =~= k + "/"@ + a);
        assert(owned_kind(k) && is_address(a));
        assert(key.contains(key[i]));
    }
    if is_address(address) {
        assert forall|i: int| 0 <= i < address.len() implies '0' <= #[trigger] address[i] <= '9'
            || 'a' <= address[i] <= 'f' by {
            assert(address_char(address[i]));
        }
    }
}

/// A page of a listing is accepted whenever its keys lie below the prefix and rise behind what the
/// page was asked to follow, and then it gives every one of them, without the prefix.
pub proof fn lemma_page_is_accepted(
    keys: Seq<Seq<char>>,
    prefix: Seq<char>,
    after: Seq<char>,
    names: Seq<Seq<char>>,
)
    requires
        keys.len() == names.len(),
        forall|i: int| 0 <= i < keys.len() ==> #[trigger] keys[i] == prefix + names[i],
        forall|i: int| 0 <= i < names.len() ==> (#[trigger] names[i]).len() > 0,
        names.len() > 0 ==> below(encode_utf8(after), encode_utf8(names[0])),
        forall|i: int|
            0 < i < names.len() ==> below(
                encode_utf8(names[i - 1]),
                encode_utf8(#[trigger] names[i]),
            ),
    ensures
        page_keys(keys, prefix, after) == Ok::<Seq<Seq<char>>, Seq<char>>(names),
        keys.len() <= 1000 ==> page_of(Some((keys, false)), prefix, after) == Ok::<
            Seq<Seq<char>>,
            Seq<char>,
        >(names),
    decreases keys.len(),
{
    if keys.len() > 0 {
        let n = keys.len() - 1;
        let k = keys.drop_last();
        let m = names.drop_last();
        assert forall|i: int| 0 <= i < k.len() implies #[trigger] k[i] == prefix + m[i] by {
            assert(keys[i] == prefix + names[i]);
        }
        assert forall|i: int| 0 <= i < m.len() implies (#[trigger] m[i]).len() > 0 by {
            assert(names[i].len() > 0);
        }
        assert forall|i: int| 0 < i < m.len() implies below(
            encode_utf8(m[i - 1]),
            encode_utf8(#[trigger] m[i]),
        ) by {
            assert(names[i] == m[i] && names[i - 1] == m[i - 1]);
            assert(below(encode_utf8(names[i - 1]), encode_utf8(names[i])));
        }
        if m.len() > 0 {
            assert(m[0] == names[0]);
        }
        lemma_page_is_accepted(k, prefix, after, m);
        assert(keys[n] == prefix + names[n]);
        assert(keys.last().take(prefix.len() as int) =~= prefix);
        assert(keys.last().skip(prefix.len() as int) =~= names[n]);
        assert(names[n].len() > 0);
        if n > 0 {
            assert(below(encode_utf8(names[n - 1]), encode_utf8(names[n])));
            assert(m.last() == names[n - 1]);
        }
        assert(m.push(names[n]) =~= names);
    } else {
        assert(names =~= Seq::empty());
    }
}

/// The pieces put together again, with `c` between each two.
pub open spec fn rejoined(parts: Seq<Seq<char>>, c: char) -> Seq<char>
    decreases parts.len(),
{
    if parts.len() == 0 {
        Seq::empty()
    } else if parts.len() == 1 {
        parts[0]
    } else {
        rejoined(parts.drop_last(), c) + seq![c] + parts.last()
    }
}

/// Splitting loses nothing: the pieces have no separator in them, and put together with one between
/// each two they are what was split.
pub proof fn lemma_split_rejoins(s: Seq<char>, c: char)
    ensures
        split_on(s, c).len() > 0,
        rejoined(split_on(s, c), c) == s,
        forall|i: int| 0 <= i < split_on(s, c).len() ==> !(#[trigger] split_on(s, c)[i]).contains(c),
    decreases s.len(),
{
    let parts = split_on(s, c);
    if s.len() == 0 {
        assert(parts[0] =~= s);
    } else {
        let head = split_on(s.drop_last(), c);
        lemma_split_rejoins(s.drop_last(), c);
        let n = head.len() - 1;
        if s.last() == c {
            assert(parts.drop_last() =~= head);
            assert(s =~= s.drop_last() + seq![c] + Seq::<char>::empty());
        } else {
            let last = head.last().push(s.last());
            assert(parts =~= head.drop_last().push(last));
            assert(parts.drop_last() =~= head.drop_last());
            assert(s =~= s.drop_last().push(s.last()));
            if head.len() == 1 {
                assert(rejoined(head, c) == head[0]);
                assert(rejoined(parts, c) == last);
            } else {
                assert(rejoined(head, c) == rejoined(head.drop_last(), c) + seq![c] + head.last());
                assert(rejoined(parts, c) =~= rejoined(head, c).push(s.last()));
            }
            assert forall|i: int| 0 <= i < parts.len() implies !(#[trigger] parts[i]).contains(
                c,
            ) by {
                if i < n {
                    assert(parts[i] == head[i]);
                } else {
                    assert(!head[n].contains(c));
                    assert forall|j: int| 0 <= j < last.len() implies last[j] != c by {
                        if j < head[n].len() {
                            assert(head[n][j] == last[j]);
                            assert(head[n].contains(head[n][j]));
                        }
                    }
                }
            }
        }
    }
}

/// A path is safe exactly where it is not empty, has no null in it, no component of it is empty or
/// a step to the same or the upper directory, and it does not lead into a tablespace.
pub proof fn lemma_safe_paths(p: Seq<char>)
    ensures
        safe_path(p) <==> {
            &&& p.len() > 0
            &&& !p.contains('\0')
            &&& forall|i: int|
                0 <= i < split_on(p, '/').len() ==> (#[trigger] split_on(p, '/')[i]).len() > 0
                    && split_on(p, '/')[i] != "."@ && split_on(p, '/')[i] != ".."@
            &&& !has_prefix(p, "pg_tblspc/"@)
        },
        plain_path(p) <==> p.len() > 0 && !p.contains('\0') && forall|i: int|
            0 <= i < split_on(p, '/').len() ==> plain_part(#[trigger] split_on(p, '/')[i]),
{
    if safe_path(p) {
        assert forall|i: int| 0 <= i < split_on(p, '/').len() implies (#[trigger] split_on(
            p,
            '/',
        )[i]).len() > 0 && split_on(p, '/')[i] != "."@ && split_on(p, '/')[i] != ".."@ by {
            assert(plain_part(split_on(p, '/')[i]));
        }
    }
}

/// A reference that an object can satisfy: a content address, and up to a page of bytes between the
/// salt and the end of a chunk.
pub open spec fn sound_piece(p: PieceView) -> bool {
    &&& is_address(p.key)
    &&& 32 <= p.offset
    &&& 0 < p.length <= 8192
    &&& p.offset + p.length <= 32 + 131072
}

/// The references of a file: all sound, and whole pages but for the last.
pub open spec fn sound_pieces(p: Seq<PieceView>) -> bool {
    &&& forall|i: int| 0 <= i < p.len() ==> sound_piece(#[trigger] p[i])
    &&& forall|i: int| 0 <= i < p.len() - 1 ==> (#[trigger] p[i]).length == 8192
}

/// The bytes of the first `n` files.
pub open spec fn bytes_of(f: Seq<FileView>, n: nat) -> nat
    decreases n,
{
    if n == 0 {
        0
    } else {
        bytes_of(f, (n - 1) as nat) + size_of(f[n - 1].1)
    }
}

/// The references of the first `n` files.
pub open spec fn references_of(f: Seq<FileView>, n: nat) -> nat
    decreases n,
{
    if n == 0 {
        0
    } else {
        references_of(f, (n - 1) as nat) + f[n - 1].1.len()
    }
}

proof fn lemma_pieces(p: Seq<PieceView>, n: nat, total: nat, count: nat)
    requires
        n <= p.len(),
    ensures
        pieces_counted(p, n, total, count) matches Ok((t, c)) ==> {
            &&& t == total + size_of(p.take(n as int))
            &&& c == count + n
            &&& forall|i: int| 0 <= i < n ==> sound_piece(#[trigger] p[i])
            &&& forall|i: int| 0 <= i < n && i < p.len() - 1 ==> (#[trigger] p[i]).length == 8192
            &&& n > 0 ==> t <= 268435456 && c <= 42768
        },
        (forall|i: int| 0 <= i < n ==> sound_piece(#[trigger] p[i])) && (forall|i: int|
            0 <= i < n && i < p.len() - 1 ==> (#[trigger] p[i]).length == 8192) && total + size_of(
            p.take(n as int),
        ) <= 268435456 && count + n <= 42768 ==> pieces_counted(p, n, total, count) is Ok,
    decreases n,
{
    if n > 0 {
        let m = (n - 1) as nat;
        lemma_pieces(p, m, total, count);
        assert(p.take(n as int).drop_last() =~= p.take(m as int));
        assert(p.take(n as int).last() == p[m as int]);
        let q = p[m as int];
        let last = n == p.len();
        match pieces_counted(p, m, total, count) {
            Ok((t, c)) => {
                assert(bad_piece(q, last, t + q.length, c + 1) == !(sound_piece(q) && (last
                    || q.length == 8192) && t + q.length <= 268435456 && c + 1 <= 42768));
                assert(t + q.length > usize::MAX ==> t > 268435456 || q.length > 8192);
            },
            Err(_) => {},
        }
        if forall|i: int| 0 <= i < n ==> sound_piece(#[trigger] p[i]) {
            assert(sound_piece(p[m as int]));
        }
    } else {
        assert(p.take(0) =~= Seq::empty());
    }
}

/// A file that a snapshot may have.
pub open spec fn sound_file(f: Seq<FileView>, dirs: Set<Seq<char>>, i: int) -> bool {
    &&& safe_path(f[i].0)
    &&& f[i].0 != "backup_manifest"@
    &&& !has_prefix(f[i].0, "pg_wal/"@)
    &&& !dirs.contains(f[i].0)
    &&& sound_pieces(f[i].1)
    &&& forall|j: int| 0 <= j < f[i].0.len() && #[trigger] f[i].0[j] == '/' ==> !has_file(
        f,
        f[i].0.take(j),
    )
}

proof fn lemma_files(f: Seq<FileView>, dirs: Set<Seq<char>>, n: nat)
    requires
        n <= f.len(),
    ensures
        files_counted(f, dirs, n) matches Ok((t, c)) ==> {
            &&& t == bytes_of(f, n)
            &&& c == references_of(f, n)
            &&& t <= 268435456
            &&& c <= 42768
            &&& forall|i: int| 0 <= i < n ==> #[trigger] sound_file(f, dirs, i)
        },
        (forall|i: int| 0 <= i < n ==> #[trigger] sound_file(f, dirs, i)) && bytes_of(f, n)
            <= 268435456 && references_of(f, n) <= 42768 ==> files_counted(f, dirs, n) is Ok,
    decreases n,
{
    if n > 0 {
        let m = (n - 1) as nat;
        lemma_files(f, dirs, m);
        let (path, pieces) = f[m as int];
        assert(pieces.take(pieces.len() as int) =~= pieces);
        match files_counted(f, dirs, m) {
            Ok((t, c)) => {
                lemma_pieces(pieces, pieces.len(), t, c);
                if files_counted(f, dirs, n) is Ok {
                    assert(!bad_file(path, dirs));
                    assert(!under_file(f, path));
                    assert(sound_file(f, dirs, m as int));
                }
                if (forall|i: int| 0 <= i < n ==> #[trigger] sound_file(f, dirs, i)) {
                    assert(sound_file(f, dirs, m as int));
                    assert(!under_file(f, path));
                }
            },
            Err(_) => {
                if (forall|i: int| 0 <= i < n ==> #[trigger] sound_file(f, dirs, i)) {
                    assert(forall|i: int| 0 <= i < m ==> #[trigger] sound_file(f, dirs, i));
                }
            },
        }
    }
}

/// An inventory is accepted exactly where it is of a size that a snapshot may have, its directories
/// are safe, each of its files has a safe path of its own outside of the log and the manifest, lies
/// below no other file and is made of sound references, and the files without which there is no
/// recovery are there.
pub proof fn lemma_inventory_is_accepted(f: Seq<FileView>, dirs: Seq<Seq<char>>)
    ensures
        inventory_fault(f, dirs) is None <==> {
            &&& f.len() <= 10000
            &&& dirs.len() <= 10000
            &&& forall|i: int| 0 <= i < dirs.len() ==> safe_path(#[trigger] dirs[i])
            &&& forall|i: int| 0 <= i < f.len() ==> #[trigger] sound_file(f, dirs.to_set(), i)
            &&& bytes_of(f, f.len()) <= 268435456
            &&& references_of(f, f.len()) <= 42768
            &&& has_file(f, "backup_label"@)
            &&& has_file(f, "global/pg_control"@)
        },
{
    lemma_files(f, dirs.to_set(), f.len());
}

/// The last line of a text begins behind a line feed, and has none in it but at its end.
pub proof fn lemma_last_line(b: Seq<u8>)
    ensures
        match last_line(b) {
            Some(at) => {
                &&& 0 < at <= b.len()
                &&& b[at - 1] == 10
                &&& forall|i: int| at <= i < b.len() - 1 ==> #[trigger] b[i] != 10
            },
            None => forall|i: int| 0 <= i < b.len() - 1 ==> #[trigger] b[i] != 10,
        },
{
    let end = if b.len() > 0 && b.last() == 10 {
        b.len() - 1
    } else {
        b.len() as int
    };
    lemma_break(b, end);
}

proof fn lemma_break(b: Seq<u8>, end: int)
    requires
        end <= b.len(),
    ensures
        match last_break(b, end) {
            Some(at) => 0 < at <= end && b[at - 1] == 10 && forall|i: int|
                at <= i < end ==> #[trigger] b[i] != 10,
            None => forall|i: int| 0 <= i < end ==> #[trigger] b[i] != 10,
        },
    decreases end,
{
    if end > 0 && b[end - 1] != 10 {
        lemma_break(b, end - 1);
    }
}

/// A manifest whose checksum was accepted is of version two, and its checksum is the digest of every
/// byte before its last line: no byte there can be changed without another digest.
pub proof fn lemma_checksum_covers_the_manifest(bytes: Seq<u8>, value: JsonView)
    requires
        checksum_fault(bytes, value) is None,
    ensures
        last_line(bytes) matches Some(at) && value.at("Manifest-Checksum"@) == JsonView::Text(
            digest_of(bytes.take(at)),
        ),
        value.at("PostgreSQL-Backup-Manifest-Version"@) == JsonView::Number(2),
{
}

/// A file stands up to its entry exactly where the entry names an algorithm and the sum that the
/// content has by it.
pub proof fn lemma_content_is_summed(entry: JsonView, content: Seq<u8>)
    ensures
        content_fault(entry, content) is None <==> {
            &&& entry.at("Checksum-Algorithm"@) matches JsonView::Text(name) && algorithm_of(
                name,
            ) matches Some(a) && entry.at("Checksum"@) == JsonView::Text(
                hex_of(sum_of(content, a)),
            )
        },
{
}

/// Each algorithm goes by its own name.
pub proof fn lemma_algorithm_names()
    ensures
        algorithm_of("CRC32C"@) == Some(Algorithm::Crc32c),
        algorithm_of("SHA224"@) == Some(Algorithm::Sha224),
        algorithm_of("SHA256"@) == Some(Algorithm::Sha256),
        algorithm_of("SHA384"@) == Some(Algorithm::Sha384),
        algorithm_of("SHA512"@) == Some(Algorithm::Sha512),
{
    reveal_strlit("CRC32C");
    reveal_strlit("SHA224");
    reveal_strlit("SHA256");
    reveal_strlit("SHA384");
    reveal_strlit("SHA512");
    assert("CRC32C"@[0] == 'C');
    assert("SHA224"@[0] == 'S' && "SHA224"@[3] == '2' && "SHA224"@[4] == '2');
    assert("SHA256"@[0] == 'S' && "SHA256"@[3] == '2' && "SHA256"@[4] == '5');
    assert("SHA384"@[0] == 'S' && "SHA384"@[3] == '3');
    assert("SHA512"@[0] == 'S' && "SHA512"@[3] == '5');
}

/// A file of a manifest is looked at exactly where its path stays inside the snapshot and is neither
/// the manifest nor log, but for an empty mark of archived log, and the snapshot stays within its
/// limits with it.
pub proof fn lemma_entry_is_asked_for(entry: JsonView, total: u64, count: nat)
    ensures
        entry_asked(entry, total, count) is Ok <==> {
            &&& entry.at("Path"@) matches JsonView::Text(p) && entry.at(
                "Size"@,
            ) matches JsonView::Number(n) && {
                &&& plain_path(p)
                &&& !has_prefix(p, "pg_tblspc/"@)
                &&& has_prefix(p, "pg_wal/"@) ==> has_prefix(p, "pg_wal/archive_status/"@)
                    && has_suffix(p, ".done"@) && n == 0
                &&& p != "backup_manifest"@
                &&& total + n <= 268435456
                &&& count < 10000
            }
        },
        entry_asked(entry, total, count) matches Ok((path, size)) ==> entry.at("Path"@)
            == JsonView::Text(path) && entry.at("Size"@) == JsonView::Number(size),
{
    reveal_strlit("pg_wal/");
    reveal_strlit("backup_manifest");
    assert("pg_wal/"@[0] == 'p' && "backup_manifest"@[0] == 'b' && "pg_wal/"@.len() == 7);
    match text_of(entry, "Path"@) {
        Ok(p) => {
            if has_prefix(p, "pg_wal/"@) && p == "backup_manifest"@ {
                assert(p.take(7)[0] == 'p');
            }
        },
        Err(_) => {},
    }
}

/// A snapshot is accepted exactly where the files without which there is no recovery were inspected,
/// its control file is of the database that the manifest names, and it is not an increment itself.
pub proof fn lemma_snapshot_is_accepted(
    files: Set<Seq<char>>,
    value: JsonView,
    control: Seq<u8>,
    label: Seq<char>,
)
    ensures
        snapshot_fault(files, value, control, label) is None <==> {
            &&& files.contains("backup_label"@)
            &&& files.contains("global/pg_control"@)
            &&& control.len() >= 8
            &&& value.at("System-Identifier"@) matches JsonView::Number(n) && native_at(
                control,
                0,
                8,
            ) == n
            &&& !text_within(label, "INCREMENTAL FROM "@)
        },
{
}

} // verus!
