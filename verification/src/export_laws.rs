//! What an export keeps of a backup: every file, as it is or patched, and nothing twice.
use crate::archive::text_of;
use crate::export::{
    export_fault, file_at, file_place, flat_label, gathered, label_lines, line_end, listed_fault,
    listed_place, patched_file, with_file, zero_body, zero_piece, ExportView, MemberView,
};
use crate::image::{
    has_file, inventory_fault, plain_part, plain_path, safe_path, FileView, PieceView, LIMIT, PAGE,
    SALT,
};
use crate::json::JsonView;
use crate::lines::split_on;
use crate::native::native_at;
use crate::page_laws::{content, is_page, leads_to, lemma_increment_restores, zeros};
use crate::pages::{
    assembled, bodies_of, data_offset, file_pages, increment_fault, lemma_upload_reads_back,
    patched_len, source_of, Source,
};
use crate::store_laws::lemma_split_rejoins;
use crate::text::{has_prefix, has_suffix};
use crate::wire::digest_of;
use vstd::prelude::*;

verus! {

proof fn lemma_place_bounds(f: Seq<FileView>, path: Seq<char>)
    ensures
        0 <= file_place(f, path) <= f.len(),
    decreases f.len(),
{
    if f.len() > 0 {
        lemma_place_bounds(f.drop_last(), path);
    }
}

/// A file that is added is there with its pieces, and every other file stays as it was.
pub proof fn lemma_added_file(f: Seq<FileView>, path: Seq<char>, pieces: Seq<PieceView>, other: Seq<char>)
    requires
        !has_file(f, path),
    ensures
        ({
            let now = with_file(f, path, pieces);
            &&& now.len() == f.len() + 1
            &&& now.contains((path, pieces))
            &&& file_at(now, path) == Some(pieces)
            &&& other != path ==> has_file(now, other) == has_file(f, other)
            &&& forall|x: FileView| #[trigger] f.contains(x) ==> now.contains(x)
        }),
{
    let p = file_place(f, path);
    lemma_place_bounds(f, path);
    let now = with_file(f, path, pieces);
    assert(now[p] == (path, pieces));
    assert(has_file(now, path));
    let i = choose|i: int| 0 <= i < now.len() && (#[trigger] now[i]).0 == path;
    if i < p {
        assert(now[i] == f[i]);
    } else if i > p {
        assert(now[i] == f[i - 1]);
    }
    if has_file(f, other) {
        let j = choose|j: int| 0 <= j < f.len() && (#[trigger] f[j]).0 == other;
        if j < p {
            assert(now[j] == f[j]);
        } else {
            assert(now[j + 1] == f[j]);
        }
    }
    if other != path && has_file(now, other) {
        let j = choose|j: int| 0 <= j < now.len() && (#[trigger] now[j]).0 == other;
        if j < p {
            assert(f[j] == now[j]);
        } else {
            assert(f[j - 1] == now[j]);
        }
    }
    assert forall|x: FileView| #[trigger] f.contains(x) implies now.contains(x) by {
        let j = choose|j: int| 0 <= j < f.len() && f[j] == x;
        if j < p {
            assert(now[j] == x);
        } else {
            assert(now[j + 1] == x);
        }
    }
}

/// `store` holds each of some objects under its digest.
pub open spec fn holds_all(store: Map<Seq<char>, Seq<u8>>, bodies: Seq<Seq<u8>>) -> bool {
    forall|i: int| 0 <= i < bodies.len() ==> store[digest_of(#[trigger] bodies[i])] == bodies[i]
}

/// A path that stands for a plain file of a backup: neither the label, the manifest nor log, and not
/// an increment.
pub open spec fn plain_member(path: Seq<char>, name: Seq<char>) -> bool {
    &&& crate::export::base_name(path) == Some(name)
    &&& !has_prefix(name, "INCREMENTAL."@)
    &&& path != "backup_label"@
    &&& path != "backup_manifest"@
    &&& !has_prefix(path, "pg_wal/"@)
}

/// A plain file of a backup is kept as it is: from any store that holds what the export stores, the
/// snapshot gives its bytes back; and no other file is touched.
pub proof fn lemma_file_is_kept(
    v: ExportView,
    path: Seq<char>,
    name: Seq<char>,
    bytes: Seq<u8>,
    parent: Option<Seq<FileView>>,
    salt: Seq<u8>,
    store: Map<Seq<char>, Seq<u8>>,
)
    requires
        plain_member(path, name),
        salt.len() == SALT,
    ensures
        has_file(v.files, path) <==> v.take_regular(path, bytes, parent, salt) is Err,
        v.take_regular(path, bytes, parent, salt) matches Ok(n) ==> {
            &&& n.dirs == v.dirs && n.seen == v.seen && n.paths == v.paths
            &&& forall|x: FileView| #[trigger] v.files.contains(x) ==> n.files.contains(x)
            &&& n.files.len() == v.files.len() + 1
            &&& file_at(n.files, path) is Some
            &&& holds_all(store, n.bodies) ==> holds_all(store, v.bodies) && assembled(
                file_at(n.files, path)->0,
                store,
            ) == bytes
        },
{
    match v.take_regular(path, bytes, parent, salt) {
        Ok(n) => {
            lemma_added_file(v.files, path, file_pages(salt, bytes), path);
            if holds_all(store, n.bodies) {
                let new = bodies_of(salt, bytes);
                assert forall|i: int| 0 <= i < new.len() implies store[digest_of(
                    #[trigger] new[i],
                )] == new[i] by {
                    assert(n.bodies[v.bodies.len() + i] == new[i]);
                }
                assert forall|i: int| 0 <= i < v.bodies.len() implies store[digest_of(
                    #[trigger] v.bodies[i],
                )] == v.bodies[i] by {
                    assert(n.bodies[i] == v.bodies[i]);
                }
                lemma_upload_reads_back(salt, bytes, store);
            }
        },
        Err(_) => {},
    }
}

/// A patched file is the file that its increment leads to: read from any store that holds the pages
/// of the increment and a page of zeros, the pieces that patching makes of the previous file's give
/// that file.
pub proof fn lemma_patched_file_is_the_new_one(
    previous: Seq<PieceView>,
    bytes: Seq<u8>,
    new: Seq<u8>,
    salt: Seq<u8>,
    store: Map<Seq<char>, Seq<u8>>,
)
    requires
        salt.len() == SALT,
        leads_to(previous, bytes, new, store),
        holds_all(store, bodies_of(salt, bytes.skip(data_offset(native_at(bytes, 4, 4)) as int))),
        store[digest_of(zero_body(salt))] == zero_body(salt),
    ensures
        ({
            let data = bytes.skip(data_offset(native_at(bytes, 4, 4)) as int);
            let changed = file_pages(salt, data);
            &&& changed.len() == native_at(bytes, 4, 4) ==> (patched_file(
                previous,
                bytes,
                changed,
                zero_piece(salt),
            ) matches Ok(pieces) && assembled(pieces, store) == new)
        }),
{
    let count = native_at(bytes, 4, 4);
    let truncation = native_at(bytes, 8, 4);
    let n = patched_len(bytes, count, truncation);
    let data = bytes.skip(data_offset(count) as int);
    let changed = file_pages(salt, data);
    let zero = zero_piece(salt);
    if changed.len() == count {
        assert(increment_fault(bytes, count) is None);
        assert forall|b: nat| b < n implies !((#[trigger] source_of(
            previous,
            bytes,
            count,
            truncation,
            b,
        )) is Partial) by {}
        let pieces = patched_file(previous, bytes, changed, zero)->Ok_0;
        assert(zero_body(salt).subrange(SALT as int, SALT + PAGE) =~= zeros());
        assert(is_page(zero, store) && content(zero, store) == zeros());
        assert forall|b: int| 0 <= b < pieces.len() implies match source_of(
            previous,
            bytes,
            count,
            truncation,
            b as nat,
        ) {
            Source::Changed(i) => #[trigger] pieces[b] == changed[i as int],
            Source::Kept(i) => pieces[b] == previous[i as int],
            Source::Partial => false,
            Source::Zero => is_page(pieces[b], store) && content(pieces[b], store) == zeros(),
        } by {
            assert(!(source_of(previous, bytes, count, truncation, b as nat) is Partial));
        }
        lemma_increment_restores(previous, bytes, new, salt, pieces, store);
    }
}

/// An increment is taken only for a relation whose previous file the parent has, and its pieces are
/// those of that file, patched, under the name without the mark.
pub proof fn lemma_increment_patches_its_predecessor(
    v: ExportView,
    path: Seq<char>,
    name: Seq<char>,
    bytes: Seq<u8>,
    parent: Option<Seq<FileView>>,
    salt: Seq<u8>,
)
    requires
        v.take_increment(path, name, bytes, parent, salt) is Ok,
    ensures
        ({
            let n = v.take_increment(path, name, bytes, parent, salt)->Ok_0;
            let dest = crate::export::beside(path, name);
            let data = bytes.skip(data_offset(native_at(bytes, 4, 4)) as int);
            &&& has_prefix(path, "base/"@) || has_prefix(path, "global/"@)
            &&& parent is Some && file_at(parent->0, dest) is Some
            &&& !has_file(v.files, dest)
            &&& patched_file(
                file_at(parent->0, dest)->0,
                bytes,
                file_pages(salt, data),
                zero_piece(salt),
            ) == Ok::<Seq<PieceView>, Seq<char>>(file_at(n.files, dest)->0)
            &&& forall|x: FileView| #[trigger] v.files.contains(x) ==> n.files.contains(x)
            &&& forall|i: int|
                0 <= i < bodies_of(salt, data).len() ==> n.bodies.contains(
                    #[trigger] bodies_of(salt, data)[i],
                )
        }),
{
    let n = v.take_increment(path, name, bytes, parent, salt)->Ok_0;
    let dest = crate::export::beside(path, name);
    let data = bytes.skip(data_offset(native_at(bytes, 4, 4)) as int);
    let prev = file_at(parent->0, dest)->0;
    let pieces = patched_file(prev, bytes, file_pages(salt, data), zero_piece(salt))->Ok_0;
    lemma_added_file(v.files, dest, pieces, dest);
    let new = bodies_of(salt, data);
    assert forall|i: int| 0 <= i < new.len() implies n.bodies.contains(#[trigger] new[i]) by {
        assert(n.bodies[v.bodies.len() + i] == new[i]);
    }
}

/// A member of an archive is taken only where its path is safe and was not met before. A directory
/// is noted, a file that is not too large is looked at, and nothing else is taken.
pub proof fn lemma_member_is_taken(
    v: ExportView,
    m: MemberView,
    parent: Option<Seq<FileView>>,
    salt: Seq<u8>,
)
    requires
        v.take(m, parent, salt) is Ok,
    ensures
        ({
            let n = v.take(m, parent, salt)->Ok_0;
            &&& m.path is Some
            &&& safe_path(crate::export::trimmed(m.path->0))
            &&& !v.seen.contains(crate::export::trimmed(m.path->0))
            &&& n.seen == v.seen.insert(crate::export::trimmed(m.path->0))
            &&& m.dir ==> n.dirs == v.dirs.insert(crate::export::trimmed(m.path->0)) && n.files
                == v.files && n.bodies == v.bodies
            &&& !m.dir ==> m.file && m.size <= 268435456 && m.bytes is Some && n.dirs == v.dirs
            &&& v.paths < 20000
        }),
{
    assert(LIMIT == 268435456);
}

/// Log never gets into a snapshot, but for empty marks that it was archived, which are left out.
pub proof fn lemma_log_is_refused(
    v: ExportView,
    path: Seq<char>,
    bytes: Seq<u8>,
    parent: Option<Seq<FileView>>,
    salt: Seq<u8>,
)
    requires
        has_prefix(path, "pg_wal/"@),
        path != "backup_manifest"@,
    ensures
        v.take_regular(path, bytes, parent, salt) matches Ok(n) ==> n == v && has_prefix(
            path,
            "pg_wal/archive_status/"@,
        ) && has_suffix(path, ".done"@) && bytes.len() == 0,
{
}

/// Every file of the archive that was met stays: what later members add takes nothing away.
pub proof fn lemma_files_stay(
    members: Seq<MemberView>,
    n: nat,
    k: nat,
    parent: Option<Seq<FileView>>,
    salt: Seq<u8>,
    x: FileView,
)
    requires
        k <= n,
        gathered(members, n, parent, salt) is Ok,
        gathered(members, k, parent, salt) matches Ok(v) && v.files.contains(x),
    ensures
        gathered(members, n, parent, salt)->Ok_0.files.contains(x),
    decreases n,
{
    if k < n {
        lemma_files_stay(members, (n - 1) as nat, k, parent, salt, x);
        let v = gathered(members, (n - 1) as nat, parent, salt)->Ok_0;
        let m = members[n - 1];
        let path = crate::export::trimmed(m.path->0);
        let s = ExportView { seen: v.seen.insert(path), paths: v.paths + 1, ..v };
        if !m.dir && path != "backup_manifest"@ && !has_prefix(path, "pg_wal/"@) {
            let bytes = m.bytes->0;
            let name = crate::export::base_name(path)->0;
            if has_prefix(name, "INCREMENTAL."@) {
                lemma_increment_patches_its_predecessor(
                    s,
                    path,
                    name.skip("INCREMENTAL."@.len() as int),
                    bytes,
                    parent,
                    salt,
                );
            } else if path == "backup_label"@ {
                let label = vstd::utf8::encode_utf8(
                    flat_label(vstd::utf8::decode_utf8(bytes)),
                );
                lemma_added_file(s.files, path, file_pages(salt, label), path);
            } else {
                lemma_added_file(s.files, path, file_pages(salt, bytes), path);
            }
        }
    }
}

proof fn lemma_one_line_more(a: Seq<char>, line: Seq<char>)
    requires
        !line.contains('\n'),
        split_on(a, '\n').last() == Seq::<char>::empty(),
    ensures
        split_on(a + line + "\n"@, '\n') == split_on(a, '\n').drop_last().push(line).push(
            Seq::empty(),
        ),
{
    reveal_strlit("\n");
    lemma_line_end(a, line);
    let s = a + line + "\n"@;
    assert(s.drop_last() =~= a + line);
    assert(s.last() == '\n');
    assert(Seq::<char>::empty() + line =~= line);
}

proof fn lemma_line_end(a: Seq<char>, line: Seq<char>)
    requires
        !line.contains('\n'),
    ensures
        split_on(a + line, '\n') == split_on(a, '\n').drop_last().push(
            split_on(a, '\n').last() + line,
        ),
    decreases line.len(),
{
    crate::lines::lemma_split_on(a, '\n');
    let head = split_on(a, '\n');
    if line.len() == 0 {
        assert(a + line =~= a);
        assert(head.last() + line =~= head.last());
        assert(head.drop_last().push(head.last()) =~= head);
    } else {
        let t = line.drop_last();
        assert(line[line.len() - 1] != '\n');
        assert forall|i: int| 0 <= i < t.len() implies t[i] != '\n' by {
            assert(t[i] == line[i]);
        }
        lemma_line_end(a, t);
        assert((a + line).drop_last() =~= a + t);
        assert((a + line).last() == line.last());
        assert(head.last() + line =~= (head.last() + t).push(line.last()));
        assert(split_on(a + line, '\n') =~= head.drop_last().push(head.last() + line));
    }
}

proof fn lemma_label(pieces: Seq<Seq<char>>, n: nat)
    requires
        n <= pieces.len(),
        forall|i: int| 0 <= i < pieces.len() ==> !(#[trigger] pieces[i]).contains('\n'),
    ensures
        split_on(label_lines(pieces, n), '\n').last() == Seq::<char>::empty(),
        forall|i: int|
            0 <= i < split_on(label_lines(pieces, n), '\n').len() ==> !has_prefix(
                #[trigger] split_on(label_lines(pieces, n), '\n')[i],
                "INCREMENTAL FROM "@,
            ),
    decreases n,
{
    reveal_strlit("INCREMENTAL FROM ");
    if n > 0 {
        let m = (n - 1) as nat;
        lemma_label(pieces, m);
        let last = n == pieces.len();
        let line = if last {
            pieces[n - 1]
        } else {
            line_end(pieces[n - 1])
        };
        assert(!pieces[n - 1].contains('\n'));
        assert forall|i: int| 0 <= i < line.len() implies line[i] != '\n' by {
            assert(line[i] == pieces[n - 1][i]);
            assert(pieces[n - 1].contains(line[i]));
        }
        let before = label_lines(pieces, m);
        if !((last && line.len() == 0) || has_prefix(line, "INCREMENTAL FROM "@)) {
            lemma_one_line_more(before, line);
            let a = split_on(before, '\n');
            let b = split_on(label_lines(pieces, n), '\n');
            crate::lines::lemma_split_on(before, '\n');
            assert forall|i: int| 0 <= i < b.len() implies !has_prefix(
                #[trigger] b[i],
                "INCREMENTAL FROM "@,
            ) by {
                if i < a.len() - 1 {
                    assert(b[i] == a[i]);
                }
            }
        }
    }
}

/// The label of a flat snapshot has no line that names the backup it was taken against.
pub proof fn lemma_label_is_flat(s: Seq<char>, i: int)
    requires
        0 <= i < split_on(flat_label(s), '\n').len(),
    ensures
        !has_prefix(split_on(flat_label(s), '\n')[i], "INCREMENTAL FROM "@),
{
    lemma_split_rejoins(s, '\n');
    lemma_label(split_on(s, '\n'), split_on(s, '\n').len());
}

proof fn lemma_label_whole(pieces: Seq<Seq<char>>, n: nat)
    requires
        n < pieces.len(),
        pieces.last().len() == 0,
        forall|i: int|
            0 <= i < pieces.len() ==> !has_prefix(#[trigger] pieces[i], "INCREMENTAL FROM "@)
                && (pieces[i].len() > 0 ==> pieces[i].last() != '\r'),
    ensures
        label_lines(pieces, n) + pieces[n as int] == crate::store_laws::rejoined(
            pieces.take(n as int + 1),
            '\n',
        ),
    decreases n,
{
    reveal_strlit("\n");
    let t = pieces.take(n as int + 1);
    if n == 0 {
        assert(t[0] == pieces[0]);
        assert(label_lines(pieces, 0) + pieces[0] =~= pieces[0]);
    } else {
        let m = (n - 1) as nat;
        lemma_label_whole(pieces, m);
        assert(!has_prefix(pieces[n - 1], "INCREMENTAL FROM "@));
        assert(line_end(pieces[n - 1]) == pieces[n - 1]);
        assert(t.drop_last() =~= pieces.take(n as int));
        assert(t.last() == pieces[n as int]);
        assert(label_lines(pieces, n) =~= label_lines(pieces, m) + pieces[n - 1] + "\n"@);
        assert(seq!['\n'] =~= "\n"@);
    }
}

/// A label that names no backup it was taken against, and has plain line ends, is kept as it is.
pub proof fn lemma_plain_label_is_kept(s: Seq<char>)
    requires
        s.len() > 0,
        s.last() == '\n',
        forall|i: int|
            0 <= i < split_on(s, '\n').len() ==> !has_prefix(
                #[trigger] split_on(s, '\n')[i],
                "INCREMENTAL FROM "@,
            ) && (split_on(s, '\n')[i].len() > 0 ==> split_on(s, '\n')[i].last() != '\r'),
    ensures
        flat_label(s) == s,
{
    let pieces = split_on(s, '\n');
    lemma_split_rejoins(s, '\n');
    assert(pieces.last() =~= Seq::empty());
    let n = pieces.len();
    let m = (n - 1) as nat;
    lemma_label_whole(pieces, m);
    assert(pieces.take(m as int + 1) =~= pieces);
    assert(label_lines(pieces, m) + pieces[m as int] =~= label_lines(pieces, m));
    assert(label_lines(pieces, n) == label_lines(pieces, m));
}

/// The file that a manifest lists is among those of the snapshot, under the name that it has there;
/// the status of archived log is not.
pub open spec fn is_brought(listed: JsonView, files: Seq<FileView>) -> bool {
    &&& text_of(listed, "Path"@) is Ok
    &&& listed_place(text_of(listed, "Path"@)->Ok_0) is Some
    &&& has_prefix(text_of(listed, "Path"@)->Ok_0, "pg_wal/archive_status/"@) || has_file(
        files,
        listed_place(text_of(listed, "Path"@)->Ok_0)->0,
    )
}

proof fn lemma_listed(listed: Seq<JsonView>, files: Seq<FileView>, n: nat)
    requires
        n <= listed.len(),
    ensures
        listed_fault(listed, files, n) is None <==> forall|i: int|
            0 <= i < n ==> is_brought(#[trigger] listed[i], files),
    decreases n,
{
    if n > 0 {
        lemma_listed(listed, files, (n - 1) as nat);
        if listed_fault(listed, files, n) is None {
            assert(is_brought(listed[n - 1], files));
        }
        if forall|i: int| 0 <= i < n ==> is_brought(#[trigger] listed[i], files) {
            assert(is_brought(listed[n - 1], files));
        }
    }
}

/// An export comes to a snapshot exactly where every member was taken, the archive is whole, the
/// inventory is sound, and every file that the backup's manifest lists was brought.
pub proof fn lemma_export_is_complete(
    members: Seq<MemberView>,
    whole: bool,
    source: JsonView,
    parent: Option<Seq<FileView>>,
    salt: Seq<u8>,
    dirs: Seq<Seq<char>>,
)
    ensures
        export_fault(members, whole, source, parent, salt, dirs) is None <==> {
            &&& gathered(members, members.len(), parent, salt) is Ok
            &&& whole
            &&& inventory_fault(
                gathered(members, members.len(), parent, salt)->Ok_0.files,
                dirs,
            ) is None
            &&& source.at("Files"@) is List
            &&& forall|i: int|
                0 <= i < source.at("Files"@)->List_0.len() ==> is_brought(
                    #[trigger] source.at("Files"@)->List_0[i],
                    gathered(members, members.len(), parent, salt)->Ok_0.files,
                )
        },
{
    if gathered(members, members.len(), parent, salt) is Ok && source.at("Files"@) is List {
        let l = source.at("Files"@)->List_0;
        lemma_listed(l, gathered(members, members.len(), parent, salt)->Ok_0.files, l.len());
    }
}

/// Where a listed file is in a snapshot: at its own path, and an increment at the path of the file
/// that it is patched into.
pub proof fn lemma_place_of_a_listed_file(dir: Seq<char>, name: Seq<char>)
    requires
        plain_path(dir + "/"@ + name),
        plain_path(dir + "/"@ + "INCREMENTAL."@ + name),
        !name.contains('/'),
        name.len() > 0,
        plain_part(name),
        !has_prefix(name, "INCREMENTAL."@),
    ensures
        listed_place(dir + "/"@ + name) == Some(dir + "/"@ + name),
        listed_place(dir + "/"@ + "INCREMENTAL."@ + name) == Some(dir + "/"@ + name),
{
    reveal_strlit("/");
    reveal_strlit("INCREMENTAL.");
    let long = "INCREMENTAL."@ + name;
    assert forall|i: int| 0 <= i < long.len() implies long[i] != '/' by {
        if i >= 12 {
            assert(long[i] == name[i - 12]);
            assert(name.contains(name[i - 12]));
        }
    }
    lemma_last_part(dir, name);
    lemma_last_part(dir, long);
    let a = dir + "/"@ + name;
    let b = dir + "/"@ + long;
    assert(dir + "/"@ + "INCREMENTAL."@ + name =~= b);
    assert(a.take(a.len() - name.len()) + name =~= a);
    assert(long.take(12) =~= "INCREMENTAL."@);
    assert(long.skip(12) =~= name);
    assert(b.take(b.len() - long.len()) + name =~= a);
}

proof fn lemma_last_part(dir: Seq<char>, name: Seq<char>)
    requires
        forall|i: int| 0 <= i < name.len() ==> #[trigger] name[i] != '/',
    ensures
        split_on(dir + "/"@ + name, '/').last() == name,
        split_on(dir + "/"@ + name, '/').len() > 0,
    decreases name.len(),
{
    reveal_strlit("/");
    let s = dir + "/"@ + name;
    if name.len() == 0 {
        assert(s.last() == '/');
        assert(split_on(s, '/').last() =~= name);
    } else {
        let t = name.drop_last();
        assert forall|i: int| 0 <= i < t.len() implies #[trigger] t[i] != '/' by {
            assert(t[i] == name[i]);
        }
        lemma_last_part(dir, t);
        assert(s.drop_last() =~= dir + "/"@ + t);
        assert(s.last() == name[name.len() - 1]);
        assert(t.push(name.last()) =~= name);
    }
}

} // verus!
