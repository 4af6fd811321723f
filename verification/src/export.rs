//! From a backup in a tar archive to the inventory of a snapshot.
use crate::archive::{num, num_of, text, text_of};
use crate::http::chars_are;
use crate::image::{
    files_ascend, files_view, has_file, inventory_fault, pieces_view, plain_part, plain_path, safe,
    safe_path, File, FileView, Image, Piece, PieceView, LIMIT, PAGE, RELSEG, SALT,
};
use crate::json::{field, list_view, Json, JsonView};
use crate::lines::{split_chars, split_on, texts_view, utf8};
use crate::names::{ascending_names, Names};
use crate::order::below;
use crate::pages::{
    bodies_of, bodies_view, data_offset, file_pages, increment_fault, increment_offset, is_from,
    patch, patched_len, source_of, upload, Source,
};
use crate::refusal::{refuse, seen, Refusal};
use crate::native::{native_at, word_at};
use crate::tar_walk::{find_miscounted, lemma_counted_before, miscounted};
use crate::text::{
    chars_of, ends_with_text, has_prefix, has_suffix, same_text, starts_with_text, strip_prefix,
};
use crate::wire::digest_of;
use std::io::Read;
use vstd::prelude::*;
use vstd::slice::{slice_subrange, slice_to_vec};
use vstd::utf8::{decode_utf8, encode_utf8, valid_utf8};

verus! {

/// A member of a tar archive.
pub struct Member {
    /// Its path, if that is text.
    pub path: Option<String>,
    pub dir: bool,
    pub file: bool,
    pub size: u64,
    /// Its first bytes, if they could be read.
    pub bytes: Option<Vec<u8>>,
}

pub struct MemberView {
    pub path: Option<Seq<char>>,
    pub dir: bool,
    pub file: bool,
    pub size: u64,
    pub bytes: Option<Seq<u8>>,
}

impl View for Member {
    type V = MemberView;

    open spec fn view(&self) -> MemberView {
        MemberView {
            path: match self.path {
                Some(p) => Some(p@),
                None => None,
            },
            dir: self.dir,
            file: self.file,
            size: self.size,
            bytes: match self.bytes {
                Some(b) => Some(b@),
                None => None,
            },
        }
    }
}

pub open spec fn members_view(m: Seq<Member>) -> Seq<MemberView> {
    Seq::new(m.len(), |i: int| m[i]@)
}

/// The members of a tar archive, each with at most `limit` of its bytes, up to where the archive
/// is damaged; and whether it is whole.
pub uninterp spec fn tar_members(bytes: Seq<u8>, limit: u64) -> (Seq<MemberView>, bool);

/// `tar::Archive::entries`, with the path, the type, the size and the first bytes of each entry
/// read off: what they are depends on the archive and the limit alone. It adds up where the next
/// header is without a look at the limit of 64 bits where the map of a sparse file goes on behind
/// its header, so no such sum may go past that limit.
#[verifier::external_body]
fn read_tar(bytes: &[u8], limit: u64) -> (r: (Vec<Member>, bool))
    requires
        miscounted(bytes@, 0, None) is None,
    ensures
        (members_view(r.0@), r.1) == tar_members(bytes@, limit),
{
    let mut out = Vec::new();
    let mut archive = tar::Archive::new(bytes);
    let Ok(entries) = archive.entries() else { return (out, false) };
    for entry in entries {
        let Ok(e) = entry else { return (out, false) };
        let path = e.path().ok().and_then(|p| p.to_str().map(str::to_string));
        let (kind, size, mut b) = (e.header().entry_type(), e.size(), Vec::new());
        let bytes = e.take(limit).read_to_end(&mut b).ok().map(|_| b);
        out.push(Member { path, dir: kind.is_dir(), file: kind.is_file(), size, bytes });
    }
    (out, true)
}

/// The last component of a path that is not made of plain components, if it has one.
pub uninterp spec fn file_name_of(path: Seq<char>) -> Option<Seq<char>>;

/// The last component of a path, if it has one.
pub open spec fn base_name(path: Seq<char>) -> Option<Seq<char>> {
    if plain_path(path) {
        Some(split_on(path, '/').last())
    } else {
        file_name_of(path)
    }
}

/// `std::path::Path::file_name`, where paths are separated by slashes: the last component of a
/// path. Of a path that has an empty component, `.` or `..` in it, it is only stated that the
/// path determines the result.
#[verifier::external_body]
fn file_name(path: &str) -> (r: Option<String>)
    ensures
        plain_path(path@) ==> r is Some && r->0@ == split_on(path@, '/').last(),
        !plain_path(path@) ==> match r {
            Some(n) => file_name_of(path@) == Some(n@),
            None => file_name_of(path@) is None,
        },
{
    std::path::Path::new(path).file_name().and_then(|n| n.to_str()).map(|n| n.to_string())
}

/// A path with its last component replaced, where the path or the name is not plain.
pub uninterp spec fn renamed_path(path: Seq<char>, name: Seq<char>) -> Seq<char>;

/// A path with its last component replaced.
pub open spec fn beside(path: Seq<char>, name: Seq<char>) -> Seq<char> {
    if plain_path(path) && plain_part(name) && !name.contains('/') {
        path.take(path.len() - split_on(path, '/').last().len()) + name
    } else {
        renamed_path(path, name)
    }
}

/// `std::path::Path::with_file_name`, where paths are separated by slashes: a path with its last
/// component replaced. Of a path or a name that has an empty component, `.` or `..` in it, it is
/// only stated that the two determine the result.
#[verifier::external_body]
fn with_file_name(path: &str, name: &str) -> (r: String)
    ensures
        plain_path(path@) && plain_part(name@) && !name@.contains('/') ==> r@ == path@.take(
            path@.len() - split_on(path@, '/').last().len(),
        ) + name@,
        !(plain_path(path@) && plain_part(name@) && !name@.contains('/')) ==> r@ == renamed_path(
            path@,
            name@,
        ),
{
    std::path::Path::new(path).with_file_name(name).to_string_lossy().into_owned()
}

/// A path without the slashes it ends in.
pub open spec fn trimmed(p: Seq<char>) -> Seq<char>
    decreases p.len(),
{
    if p.len() > 0 && p.last() == '/' {
        trimmed(p.drop_last())
    } else {
        p
    }
}

fn trim_slashes(p: &str) -> (r: String)
    ensures
        r@ == trimmed(p@),
{
    let cs = chars_of(p);
    let mut n: usize = cs.len();
    proof {
        assert(cs@.take(n as int) =~= cs@);
    }
    while n > 0 && cs[n - 1] == '/'
        invariant
            n <= cs@.len(),
            cs@ == p@,
            trimmed(cs@.take(n as int)) == trimmed(p@),
        decreases n,
    {
        proof {
            assert(cs@.take(n as int).drop_last() =~= cs@.take(n - 1));
        }
        n -= 1;
    }
    crate::text::text_of(slice_subrange(cs.as_slice(), 0, n))
}

/// A line as text ends it: without a carriage return before the line feed.
pub open spec fn line_end(s: Seq<char>) -> Seq<char> {
    if s.len() > 0 && s.last() == '\r' {
        s.drop_last()
    } else {
        s
    }
}

/// The lines of a backup label that stay in a flat snapshot: all but those that name the backup
/// it was taken against. `pieces` are what stands between line feeds; the last of them is a line
/// only where it is not empty, and keeps a carriage return.
pub open spec fn label_lines(pieces: Seq<Seq<char>>, n: nat) -> Seq<char>
    decreases n,
{
    if n == 0 {
        Seq::empty()
    } else {
        let last = n == pieces.len();
        let line = if last {
            pieces[n - 1]
        } else {
            line_end(pieces[n - 1])
        };
        if (last && line.len() == 0) || has_prefix(line, "INCREMENTAL FROM "@) {
            label_lines(pieces, (n - 1) as nat)
        } else {
            label_lines(pieces, (n - 1) as nat) + line + "\n"@
        }
    }
}

/// A backup label for a flat snapshot.
pub open spec fn flat_label(s: Seq<char>) -> Seq<char> {
    label_lines(split_on(s, '\n'), split_on(s, '\n').len())
}

/// `cs` begins with `p`.
fn begins(cs: &[char], p: &str) -> (r: bool)
    ensures
        r == has_prefix(cs@, p@),
{
    let n: usize = p.unicode_len();
    if n > cs.len() {
        return false;
    }
    let head = slice_subrange(cs, 0, n);
    proof {
        assert(head@ =~= cs@.take(p@.len() as int));
    }
    chars_are(head, p)
}

fn flatten_label(s: &str) -> (r: String)
    ensures
        r@ == flat_label(s@),
{
    let pieces = split_chars(chars_of(s).as_slice(), '\n');
    let ghost all = texts_view(pieces@);
    let mut out = String::new();
    let mut i: usize = 0;
    while i < pieces.len()
        invariant
            all == texts_view(pieces@),
            i <= pieces@.len(),
            out@ == label_lines(all, i as nat),
        decreases pieces@.len() - i,
    {
        let last: bool = i + 1 == pieces.len();
        let piece = pieces[i].as_slice();
        let n: usize = if !last && piece.len() > 0 && piece[piece.len() - 1] == '\r' {
            piece.len() - 1
        } else {
            piece.len()
        };
        let line = slice_subrange(piece, 0, n);
        proof {
            assert(all[i as int] == pieces@[i as int]@);
            assert(line@ =~= (if last {
                all[i as int]
            } else {
                line_end(all[i as int])
            }));
        }
        if !((last && line.len() == 0) || begins(line, "INCREMENTAL FROM ")) {
            out.append(crate::text::text_of(line).as_str());
            out.append("\n");
        }
        i += 1;
    }
    out
}

/// Where a file with this path goes: before the first whose path sorts after it.
pub open spec fn file_place(f: Seq<FileView>, path: Seq<char>) -> int
    decreases f.len(),
{
    if f.len() == 0 {
        0
    } else if file_place(f.drop_last(), path) < f.len() - 1 {
        file_place(f.drop_last(), path)
    } else if below(encode_utf8(path), encode_utf8(f.last().0)) {
        f.len() - 1
    } else {
        f.len() as int
    }
}

proof fn lemma_file_place(f: Seq<FileView>, path: Seq<char>, p: int)
    requires
        0 <= p <= f.len(),
        forall|i: int|
            0 <= i < p ==> !below(encode_utf8(path), encode_utf8((#[trigger] f[i]).0)),
        p < f.len() ==> below(encode_utf8(path), encode_utf8(f[p].0)),
    ensures
        file_place(f, path) == p,
    decreases f.len(),
{
    if f.len() > 0 {
        let head = f.drop_last();
        assert forall|i: int| 0 <= i < head.len() implies head[i] == f[i] by {}
        if p < f.len() {
            if p < head.len() {
                lemma_file_place(head, path, p);
            } else {
                assert forall|i: int| 0 <= i < head.len() implies !below(
                    encode_utf8(path),
                    encode_utf8((#[trigger] head[i]).0),
                ) by {
                    assert(f[i] == head[i]);
                }
                lemma_file_place(head, path, head.len() as int);
            }
        } else {
            assert forall|i: int| 0 <= i < head.len() implies !below(
                encode_utf8(path),
                encode_utf8((#[trigger] head[i]).0),
            ) by {
                assert(f[i] == head[i]);
            }
            lemma_file_place(head, path, head.len() as int);
        }
    }
}

/// The files with one more in its place.
pub open spec fn with_file(f: Seq<FileView>, path: Seq<char>, pieces: Seq<PieceView>) -> Seq<
    FileView,
> {
    f.insert(file_place(f, path), (path, pieces))
}

/// The pieces of the file at `path`.
pub open spec fn file_at(f: Seq<FileView>, path: Seq<char>) -> Option<Seq<PieceView>> {
    if has_file(f, path) {
        Some(f[choose|i: int| 0 <= i < f.len() && (#[trigger] f[i]).0 == path].1)
    } else {
        None
    }
}

/// A page of zeros as it is stored.
pub open spec fn zero_body(salt: Seq<u8>) -> Seq<u8> {
    salt + Seq::new(PAGE as nat, |i: int| 0u8)
}

/// Where a page of zeros is.
pub open spec fn zero_piece(salt: Seq<u8>) -> PieceView {
    PieceView { key: digest_of(zero_body(salt)), offset: SALT as nat, length: PAGE as nat }
}

/// The file after an increment, with zero pages where neither has one.
pub open spec fn patched_file(
    previous: Seq<PieceView>,
    bytes: Seq<u8>,
    changed: Seq<PieceView>,
    zero: PieceView,
) -> Result<Seq<PieceView>, Seq<char>> {
    match increment_fault(bytes, changed.len()) {
        Some(e) => Err(e),
        None => {
            let count = native_at(bytes, 4, 4);
            let truncation = native_at(bytes, 8, 4);
            let n = patched_len(bytes, count, truncation);
            if exists|b: nat|
                b < n && (#[trigger] source_of(previous, bytes, count, truncation, b))
                    is Partial {
                Err("partial predecessor page"@)
            } else {
                Ok(
                    Seq::new(
                        n,
                        |b: int|
                            match source_of(previous, bytes, count, truncation, b as nat) {
                                Source::Changed(i) => changed[i as int],
                                Source::Kept(i) => previous[i as int],
                                _ => zero,
                            },
                    ),
                )
            }
        },
    }
}

pub open spec fn pieces_result(r: Result<Vec<Piece>, Refusal>) -> Result<
    Seq<PieceView>,
    Seq<char>,
> {
    match r {
        Ok(v) => Ok(pieces_view(v@)),
        Err(e) => Err(e@),
    }
}

fn patch_file(previous: &Vec<Piece>, bytes: &[u8], changed: Vec<Piece>, zero: &Piece) -> (r: Result<
    Vec<Piece>,
    Refusal,
>)
    ensures
        pieces_result(r) == patched_file(
            pieces_view(previous@),
            bytes@,
            pieces_view(changed@),
            zero@,
        ),
{
    let give = || -> (z: Result<Piece, Refusal>)
        ensures
            z matches Ok(p) && p@ == zero@,
        { Ok(zero.copy()) };
    let ghost prev = pieces_view(previous@);
    let ghost news = pieces_view(changed@);
    let r = patch(previous.as_slice(), bytes, changed, give);
    proof {
        assert(news.len() == changed@.len());
        if increment_fault(bytes@, news.len()) is None {
            let count = native_at(bytes@, 4, 4);
            let truncation = native_at(bytes@, 8, 4);
            let n = patched_len(bytes@, count, truncation);
            if r is Ok {
                let v = r->Ok_0;
                assert forall|b: nat| b < n implies !((#[trigger] source_of(
                    prev,
                    bytes@,
                    count,
                    truncation,
                    b,
                )) is Partial) by {
                    assert(is_from(
                        source_of(prev, bytes@, count, truncation, b),
                        prev,
                        news,
                        give,
                        v@[b as int],
                    ));
                }
                let want = patched_file(prev, bytes@, news, zero@)->Ok_0;
                assert forall|b: int| 0 <= b < n implies pieces_view(v@)[b] == want[b] by {
                    assert(is_from(
                        source_of(prev, bytes@, count, truncation, b as nat),
                        prev,
                        news,
                        give,
                        v@[b],
                    ));
                }
                assert(pieces_view(v@) =~= want);
            }
        }
    }
    r
}

/// The objects that an increment brings: those of its blocks, and a page of zeros where the
/// patched file has one.
pub open spec fn increment_bodies(salt: Seq<u8>, data: Seq<u8>, pieces: Seq<PieceView>) -> Seq<
    Seq<u8>,
> {
    if exists|j: int|
        0 <= j < pieces.len() && (#[trigger] pieces[j]).key == zero_piece(salt).key {
        bodies_of(salt, data).push(zero_body(salt))
    } else {
        bodies_of(salt, data)
    }
}

/// What an export has gathered.
#[verifier::ext_equal]
pub struct ExportView {
    pub files: Seq<FileView>,
    pub dirs: Set<Seq<char>>,
    pub seen: Set<Seq<char>>,
    /// How many paths were seen.
    pub paths: nat,
    /// The objects to store.
    pub bodies: Seq<Seq<u8>>,
}

impl ExportView {
    /// One more file, whose objects are `bodies`.
    pub open spec fn store(
        self,
        path: Seq<char>,
        pieces: Seq<PieceView>,
        bodies: Seq<Seq<u8>>,
    ) -> Result<ExportView, Seq<char>> {
        if has_file(self.files, path) {
            Err("duplicate output snapshot file"@)
        } else {
            Ok(
                ExportView {
                    files: with_file(self.files, path, pieces),
                    bodies: self.bodies + bodies,
                    ..self
                },
            )
        }
    }

    /// A file that stands for itself.
    pub open spec fn take_file(self, path: Seq<char>, bytes: Seq<u8>, salt: Seq<u8>) -> Result<
        ExportView,
        Seq<char>,
    > {
        if path == "backup_label"@ {
            if !valid_utf8(bytes) {
                Err("backup label is not UTF-8"@)
            } else {
                let label = encode_utf8(flat_label(decode_utf8(bytes)));
                self.store(path, file_pages(salt, label), bodies_of(salt, label))
            }
        } else {
            self.store(path, file_pages(salt, bytes), bodies_of(salt, bytes))
        }
    }

    /// A file that stands for its difference to the one before.
    pub open spec fn take_increment(
        self,
        path: Seq<char>,
        name: Seq<char>,
        bytes: Seq<u8>,
        parent: Option<Seq<FileView>>,
        salt: Seq<u8>,
    ) -> Result<ExportView, Seq<char>> {
        if !(has_prefix(path, "base/"@) || has_prefix(path, "global/"@)) || bytes.len() < 12 {
            Err("invalid incremental member"@)
        } else {
            let dest = beside(path, name);
            let previous = match parent {
                Some(f) => file_at(f, dest),
                None => None,
            };
            let count = native_at(bytes, 4, 4);
            match previous {
                None => Err("missing incremental predecessor"@),
                Some(prev) => if count > RELSEG {
                    Err("incremental block limit"@)
                } else if data_offset(count) > bytes.len() {
                    Err("short incremental data"@)
                } else {
                    let data = bytes.skip(data_offset(count) as int);
                    match patched_file(prev, bytes, file_pages(salt, data), zero_piece(salt)) {
                        Err(e) => Err(e),
                        Ok(pieces) => self.store(
                            dest,
                            pieces,
                            increment_bodies(salt, data, pieces),
                        ),
                    }
                },
            }
        }
    }

    /// One more regular file of the backup.
    pub open spec fn take_regular(
        self,
        path: Seq<char>,
        bytes: Seq<u8>,
        parent: Option<Seq<FileView>>,
        salt: Seq<u8>,
    ) -> Result<ExportView, Seq<char>> {
        if path == "backup_manifest"@ {
            Ok(self)
        } else if has_prefix(path, "pg_wal/"@) {
            if has_prefix(path, "pg_wal/archive_status/"@) && has_suffix(path, ".done"@)
                && bytes.len() == 0 {
                Ok(self)
            } else {
                Err("snapshot contains WAL file"@)
            }
        } else {
            match base_name(path) {
                None => Err("invalid snapshot member"@),
                Some(name) => if has_prefix(name, "INCREMENTAL."@) {
                    self.take_increment(
                        path,
                        name.skip("INCREMENTAL."@.len() as int),
                        bytes,
                        parent,
                        salt,
                    )
                } else {
                    self.take_file(path, bytes, salt)
                },
            }
        }
    }

    /// One more member of the archive.
    pub open spec fn take(
        self,
        m: MemberView,
        parent: Option<Seq<FileView>>,
        salt: Seq<u8>,
    ) -> Result<ExportView, Seq<char>> {
        match m.path {
            None => Err("non UTF-8 snapshot pathname"@),
            Some(p) => {
                let path = trimmed(p);
                if !safe_path(path) || self.seen.contains(path) || self.paths + 1 > 20000 {
                    Err("invalid snapshot member"@)
                } else {
                    let s = ExportView {
                        seen: self.seen.insert(path),
                        paths: self.paths + 1,
                        ..self
                    };
                    if m.dir {
                        Ok(ExportView { dirs: s.dirs.insert(path), ..s })
                    } else if !m.file || m.size > LIMIT {
                        Err("unsupported snapshot member"@)
                    } else {
                        match m.bytes {
                            None => Err("snapshot archive is damaged"@),
                            Some(b) => s.take_regular(path, b, parent, salt),
                        }
                    }
                }
            },
        }
    }
}

/// What the first `n` members give.
pub open spec fn gathered(
    members: Seq<MemberView>,
    n: nat,
    parent: Option<Seq<FileView>>,
    salt: Seq<u8>,
) -> Result<ExportView, Seq<char>>
    decreases n,
{
    if n == 0 {
        Ok(
            ExportView {
                files: Seq::empty(),
                dirs: Set::empty(),
                seen: Set::empty(),
                paths: 0,
                bodies: Seq::empty(),
            },
        )
    } else {
        match gathered(members, (n - 1) as nat, parent, salt) {
            Err(e) => Err(e),
            Ok(s) => s.take(members[n - 1], parent, salt),
        }
    }
}

/// An export under way.
struct Export {
    image: Image,
    seen: Names,
    bodies: Vec<Vec<u8>>,
}

impl Export {
    spec fn wf(&self) -> bool {
        self.image.wf() && self.seen.wf()
    }

    spec fn is(&self, v: ExportView) -> bool {
        &&& self.wf()
        &&& files_view(self.image.files@) == v.files
        &&& self.image.dirs@ == v.dirs
        &&& self.seen@ == v.seen
        &&& self.seen.listed().len() == v.paths
        &&& bodies_view(self.bodies@) == v.bodies
    }

    fn store(
        &mut self,
        path: String,
        pieces: Vec<Piece>,
        bodies: Vec<Vec<u8>>,
        Ghost(v): Ghost<ExportView>,
    ) -> (r: Result<(), Refusal>)
        requires
            old(self).is(v),
        ensures
            final(self).image.system == old(self).image.system,
            final(self).image.ranges == old(self).image.ranges,
            match v.store(path@, pieces_view(pieces@), bodies_view(bodies@)) {
                Ok(n) => r is Ok && final(self).is(n),
                Err(e) => r matches Err(x) && x@ == e,
            },
    {
        let ghost f = files_view(self.image.files@);
        let ghost b0 = bodies_view(self.bodies@);
        let ghost b1 = bodies_view(bodies@);
        let ghost pv = (path@, pieces_view(pieces@));
        let (found, p) = self.image.find(path.as_str());
        if found {
            return Err(refuse("duplicate output snapshot file"));
        }
        self.image.files.insert(p, File { path, pieces });
        let mut more = bodies;
        let ghost x = self.bodies@;
        let ghost y = more@;
        self.bodies.append(&mut more);
        proof {
            let now = files_view(self.image.files@);
            assert(now =~= f.insert(p as int, pv));
            assert forall|i: int| 0 <= i < p implies !below(
                encode_utf8(pv.0),
                encode_utf8((#[trigger] f[i]).0),
            ) by {
                crate::order::lemma_below_asymmetric(encode_utf8(f[i].0), encode_utf8(pv.0));
            }
            lemma_file_place(f, pv.0, p as int);
            assert(files_ascend(now)) by {
                assert forall|i: int, j: int| 0 <= i < j < now.len() implies below(
                    encode_utf8((#[trigger] now[i]).0),
                    encode_utf8((#[trigger] now[j]).0),
                ) by {
                    let pi = if i < p {
                        i
                    } else {
                        i - 1
                    };
                    let pj = if j < p {
                        j
                    } else {
                        j - 1
                    };
                    if i != p {
                        assert(now[i] == f[pi]);
                    }
                    if j != p {
                        assert(now[j] == f[pj]);
                    }
                }
            }
            assert(self.bodies@ =~= x + y);
            assert(bodies_view(self.bodies@) =~= b0 + b1);
        }
        Ok(())
    }

    fn take_file(
        &mut self,
        path: String,
        bytes: Vec<u8>,
        generation: &str,
        Ghost(v): Ghost<ExportView>,
    ) -> (r: Result<(), Refusal>)
        requires
            old(self).is(v),
        ensures
            final(self).image.system == old(self).image.system,
            final(self).image.ranges == old(self).image.ranges,
            match v.take_file(path@, bytes@, encode_utf8(generation@)) {
                Ok(n) => r is Ok && final(self).is(n),
                Err(e) => r matches Err(x) && x@ == e,
            },
    {
        if same_text(path.as_str(), "backup_label") {
            let s = match utf8(bytes.as_slice()) {
                Some(s) => s,
                None => return Err(refuse("backup label is not UTF-8")),
            };
            let label = flatten_label(s.as_str());
            let up = upload(generation, label.as_str().as_bytes());
            self.store(path, up.pieces, up.bodies, Ghost(v))
        } else {
            let up = upload(generation, bytes.as_slice());
            self.store(path, up.pieces, up.bodies, Ghost(v))
        }
    }

    fn take_increment(
        &mut self,
        path: &str,
        name: &str,
        bytes: &Vec<u8>,
        parent: Option<&Image>,
        generation: &str,
        Ghost(v): Ghost<ExportView>,
    ) -> (r: Result<(), Refusal>)
        requires
            old(self).is(v),
            parent matches Some(p) ==> p.wf(),
            encode_utf8(generation@).len() == SALT,
        ensures
            final(self).image.system == old(self).image.system,
            final(self).image.ranges == old(self).image.ranges,
            match v.take_increment(
                path@,
                name@,
                bytes@,
                parent_files(parent),
                encode_utf8(generation@),
            ) {
                Ok(n) => r is Ok && final(self).is(n),
                Err(e) => r matches Err(x) && x@ == e,
            },
    {
        let ghost salt = encode_utf8(generation@);
        if !(starts_with_text(path, "base/") || starts_with_text(path, "global/")) || bytes.len()
            < 12 {
            return Err(refuse("invalid incremental member"));
        }
        let dest = with_file_name(path, name);
        let image = match parent {
            Some(p) => p,
            None => return Err(refuse("missing incremental predecessor")),
        };
        let (found, at) = image.find(dest.as_str());
        if !found {
            return Err(refuse("missing incremental predecessor"));
        }
        let previous = &image.files[at].pieces;
        proof {
            let f = files_view(image.files@);
            assert(f[at as int] == (dest@, pieces_view(previous@)));
            let i = choose|i: int| 0 <= i < f.len() && (#[trigger] f[i]).0 == dest@;
            if i < at {
                assert(below(encode_utf8(f[i].0), encode_utf8(f[at as int].0)));
                crate::order::lemma_below_irreflexive(encode_utf8(dest@));
            } else if at < i {
                assert(below(encode_utf8(f[at as int].0), encode_utf8(f[i].0)));
                crate::order::lemma_below_irreflexive(encode_utf8(dest@));
            }
            assert(file_at(f, dest@) == Some(pieces_view(previous@)));
        }
        let count: usize = word_at(bytes.as_slice(), 4) as usize;
        if count > RELSEG {
            return Err(refuse("incremental block limit"));
        }
        let offset: usize = increment_offset(count);
        if offset > bytes.len() {
            return Err(refuse("short incremental data"));
        }
        let data = slice_subrange(bytes.as_slice(), offset, bytes.len());
        proof {
            assert(data@ =~= bytes@.skip(offset as int));
        }
        let up = upload(generation, data);
        let blank: Vec<u8> = vec![0u8; PAGE];
        let none = upload(generation, blank.as_slice());
        let ghost blanks = Seq::new(PAGE as nat, |i: int| 0u8);
        proof {
            assert(blank@ =~= blanks);
            lemma_zero_upload(salt);
            assert(pieces_view(none.pieces@).len() == 1);
            assert(bodies_view(none.bodies@).len() == 1);
            assert(pieces_view(none.pieces@)[0] == none.pieces@[0]@);
            assert(bodies_view(none.bodies@)[0] == none.bodies@[0]@);
        }
        let zero = &none.pieces[0];
        let pieces = match patch_file(previous, bytes.as_slice(), up.pieces, zero) {
            Ok(p) => p,
            Err(e) => return Err(e),
        };
        let mut bodies = up.bodies;
        let ghost bv = bodies_view(bodies@);
        let mut used: bool = false;
        let mut j: usize = 0;
        while j < pieces.len() && !used
            invariant
                j <= pieces@.len(),
                zero@ == zero_piece(salt),
                used == (exists|k: int| 0 <= k < j && (#[trigger] pieces@[k]).key@ == zero@.key),
            decreases pieces@.len() - j, if used {
                0int
            } else {
                1int
            },
        {
            if same_text(pieces[j].key.as_str(), zero.key.as_str()) {
                used = true;
            }
            j += 1;
        }
        if used {
            bodies.push(slice_to_vec(none.bodies[0].as_slice()));
            proof {
                assert(bodies_view(bodies@) =~= bv.push(zero_body(salt)));
            }
        }
        proof {
            let pv = pieces_view(pieces@);
            if used {
                let k = choose|k: int| 0 <= k < j && (#[trigger] pieces@[k]).key@ == zero@.key;
                assert(pv[k].key == zero_piece(salt).key);
            } else {
                assert forall|k: int| 0 <= k < pv.len() implies (#[trigger] pv[k]).key
                    != zero_piece(salt).key by {
                    assert(pieces@[k].key@ != zero@.key);
                }
            }
            assert(bodies_view(bodies@) == increment_bodies(salt, data@, pv));
        }
        self.store(dest, pieces, bodies, Ghost(v))
    }

    fn take_regular(
        &mut self,
        path: String,
        bytes: Vec<u8>,
        parent: Option<&Image>,
        generation: &str,
        Ghost(v): Ghost<ExportView>,
    ) -> (r: Result<(), Refusal>)
        requires
            old(self).is(v),
            parent matches Some(p) ==> p.wf(),
            encode_utf8(generation@).len() == SALT,
        ensures
            final(self).image.system == old(self).image.system,
            final(self).image.ranges == old(self).image.ranges,
            match v.take_regular(path@, bytes@, parent_files(parent), encode_utf8(generation@)) {
                Ok(n) => r is Ok && final(self).is(n),
                Err(e) => r matches Err(x) && x@ == e,
            },
    {
        if same_text(path.as_str(), "backup_manifest") {
            return Ok(());
        }
        if starts_with_text(path.as_str(), "pg_wal/") {
            if starts_with_text(path.as_str(), "pg_wal/archive_status/") && ends_with_text(
                path.as_str(),
                ".done",
            ) && bytes.len() == 0 {
                return Ok(());
            }
            return Err(refuse("snapshot contains WAL file"));
        }
        let name = match file_name(path.as_str()) {
            Some(n) => n,
            None => return Err(refuse("invalid snapshot member")),
        };
        match strip_prefix(name.as_str(), "INCREMENTAL.") {
            Some(rest) => self.take_increment(
                path.as_str(),
                rest.as_str(),
                &bytes,
                parent,
                generation,
                Ghost(v),
            ),
            None => self.take_file(path, bytes, generation, Ghost(v)),
        }
    }

    fn take(
        &mut self,
        m: Member,
        parent: Option<&Image>,
        generation: &str,
        Ghost(v): Ghost<ExportView>,
    ) -> (r: Result<(), Refusal>)
        requires
            old(self).is(v),
            v.paths <= 20000,
            parent matches Some(p) ==> p.wf(),
            encode_utf8(generation@).len() == SALT,
        ensures
            final(self).image.system == old(self).image.system,
            final(self).image.ranges == old(self).image.ranges,
            match v.take(m@, parent_files(parent), encode_utf8(generation@)) {
                Ok(n) => r is Ok && final(self).is(n) && n.paths <= 20000,
                Err(e) => r matches Err(x) && x@ == e,
            },
    {
        let p = match m.path {
            Some(p) => p,
            None => return Err(refuse("non UTF-8 snapshot pathname")),
        };
        let path = trim_slashes(p.as_str());
        if !safe(path.as_str()) || self.seen.contains(path.as_str()) || self.seen.len() >= 20000 {
            return Err(refuse("invalid snapshot member"));
        }
        self.seen.insert(path.clone());
        let ghost s = ExportView { seen: v.seen.insert(path@), paths: v.paths + 1, ..v };
        if m.dir {
            self.image.dirs.insert(path);
            return Ok(());
        }
        if !m.file || m.size > LIMIT as u64 {
            return Err(refuse("unsupported snapshot member"));
        }
        match m.bytes {
            None => Err(refuse("snapshot archive is damaged")),
            Some(b) => self.take_regular(path, b, parent, generation, Ghost(s)),
        }
    }
}

/// The files of the snapshot that an increment is taken against.
pub open spec fn parent_files(parent: Option<&Image>) -> Option<Seq<FileView>> {
    match parent {
        Some(p) => Some(files_view(p.files@)),
        None => None,
    }
}

proof fn lemma_zero_upload(salt: Seq<u8>)
    requires
        salt.len() == SALT,
    ensures
        ({
            let blanks = Seq::new(PAGE as nat, |i: int| 0u8);
            &&& file_pages(salt, blanks) == seq![zero_piece(salt)]
            &&& bodies_of(salt, blanks) == seq![zero_body(salt)]
        }),
{
    let blanks = Seq::new(PAGE as nat, |i: int| 0u8);
    assert(blanks.take(PAGE as int) =~= blanks);
    assert(blanks.skip(PAGE as int) =~= Seq::empty());
    assert(bodies_of(salt, blanks.skip(PAGE as int)) =~= Seq::empty());
    assert(bodies_of(salt, blanks) =~= seq![zero_body(salt)]);
    let key = digest_of(zero_body(salt));
    assert(crate::pages::pages_of(key, PAGE as nat, 1) =~= Seq::empty());
    assert(crate::pages::pages_of(key, PAGE as nat, 0) =~= seq![zero_piece(salt)]);
    assert(file_pages(salt, blanks.skip(PAGE as int)) =~= Seq::empty());
    assert(file_pages(salt, blanks) =~= seq![zero_piece(salt)]);
}

/// The place in a flat snapshot of a file that the backup's manifest lists.
pub open spec fn listed_place(path: Seq<char>) -> Option<Seq<char>> {
    match base_name(path) {
        None => None,
        Some(name) => Some(
            beside(
                path,
                if has_prefix(name, "INCREMENTAL."@) {
                    name.skip("INCREMENTAL."@.len() as int)
                } else {
                    name
                },
            ),
        ),
    }
}

/// What is wrong with the first `n` files that the backup's manifest lists.
pub open spec fn listed_fault(listed: Seq<JsonView>, files: Seq<FileView>, n: nat) -> Option<
    Seq<char>,
>
    decreases n,
{
    if n == 0 {
        None
    } else {
        match listed_fault(listed, files, (n - 1) as nat) {
            Some(e) => Some(e),
            None => match text_of(listed[n - 1], "Path"@) {
                Err(e) => Some(e),
                Ok(path) => match listed_place(path) {
                    None => Some("missing native name"@),
                    Some(dest) => if !has_prefix(path, "pg_wal/archive_status/"@) && !has_file(
                        files,
                        dest,
                    ) {
                        Some("snapshot is missing native inventory member"@)
                    } else {
                        None
                    },
                },
            },
        }
    }
}

proof fn lemma_listed_err(listed: Seq<JsonView>, files: Seq<FileView>, n: nat)
    requires
        n <= listed.len(),
        listed_fault(listed, files, n) is Some,
    ensures
        listed_fault(listed, files, listed.len()) == listed_fault(listed, files, n),
    decreases listed.len() - n,
{
    if n < listed.len() {
        lemma_listed_err(listed, files, n + 1);
    }
}

fn check_listed(image: &Image, listed: &Vec<Json>) -> (r: Result<(), Refusal>)
    requires
        image.wf(),
    ensures
        match r {
            Ok(_) => listed_fault(
                list_view(listed@),
                files_view(image.files@),
                listed@.len(),
            ) is None,
            Err(e) => listed_fault(
                list_view(listed@),
                files_view(image.files@),
                listed@.len(),
            ) == Some(e@),
        },
{
    let ghost all = list_view(listed@);
    let ghost f = files_view(image.files@);
    let mut i: usize = 0;
    while i < listed.len()
        invariant
            image.wf(),
            all == list_view(listed@),
            f == files_view(image.files@),
            i <= listed@.len(),
            listed_fault(all, f, i as nat) is None,
        decreases listed@.len() - i,
    {
        proof {
            assert(all[i as int] == listed@[i as int]@);
            if listed_fault(all, f, (i + 1) as nat) is Some {
                lemma_listed_err(all, f, (i + 1) as nat);
            }
        }
        let path = match text(&listed[i], "Path") {
            Ok(p) => p,
            Err(e) => return Err(e),
        };
        let name = match file_name(path) {
            Some(n) => n,
            None => return Err(refuse("missing native name")),
        };
        let dest = match strip_prefix(name.as_str(), "INCREMENTAL.") {
            Some(rest) => with_file_name(path, rest.as_str()),
            None => with_file_name(path, name.as_str()),
        };
        if !starts_with_text(path, "pg_wal/archive_status/") {
            let (found, _at) = image.find(dest.as_str());
            if !found {
                return Err(refuse("snapshot is missing native inventory member"));
            }
        }
        i += 1;
    }
    Ok(())
}

/// A snapshot to be stored: its inventory, and the objects that it refers to and that are new.
pub struct Snapshot {
    pub image: Image,
    pub bodies: Vec<Vec<u8>>,
}

/// The outcome of an export, given the members of the archive.
pub open spec fn export_fault(
    members: Seq<MemberView>,
    whole: bool,
    source: JsonView,
    parent: Option<Seq<FileView>>,
    salt: Seq<u8>,
    dirs: Seq<Seq<char>>,
) -> Option<Seq<char>> {
    match gathered(members, members.len(), parent, salt) {
        Err(e) => Some(e),
        Ok(s) => if !whole {
            Some("snapshot archive is damaged"@)
        } else {
            match inventory_fault(s.files, dirs) {
                Some(e) => Some(e),
                None => match source.at("Files"@) {
                    JsonView::List(l) => listed_fault(l, s.files, l.len()),
                    _ => Some("missing native inventory"@),
                },
            }
        },
    }
}

/// What an export comes to: the snapshot that its members give, or what is wrong with them.
pub open spec fn is_export(
    members: Seq<MemberView>,
    whole: bool,
    source: JsonView,
    parent: Option<&Image>,
    salt: Seq<u8>,
    r: Result<Snapshot, Refusal>,
) -> bool {
    match num_of(source, "System-Identifier"@) {
        Err(e) => r matches Err(x) && x@ == e,
        Ok(system) => if parent matches Some(p) && p.system != system {
            r matches Err(x) && x@ == "snapshot cluster mismatch"@
        } else {
            let files = parent_files(parent);
            match gathered(members, members.len(), files, salt) {
                Err(e) => r matches Err(x) && x@ == e,
                Ok(v) => exists|dirs: Seq<Seq<char>>|
                    ascending_names(dirs) && dirs.to_set() == v.dirs && match (
                    #[trigger] export_fault(members, whole, source, files, salt, dirs)) {
                        Some(e) => r matches Err(x) && x@ == e,
                        None => {
                            &&& r matches Ok(s)
                            &&& s.image.wf()
                            &&& files_view(s.image.files@) == v.files
                            &&& s.image.dirs@ == v.dirs
                            &&& s.image.system == system
                            &&& s.image.ranges@ == source.at("WAL-Ranges"@)
                            &&& bodies_view(s.bodies@) == v.bodies
                        },
                    },
            }
        },
    }
}

/// The members of a backup's archive, and whether it is whole. It is damaged from the first header
/// on behind which the next one cannot be counted.
pub open spec fn archived(archive: Seq<u8>) -> (Seq<MemberView>, bool) {
    match miscounted(archive, 0, None) {
        None => tar_members(archive, LIMIT as u64),
        Some(p) => (tar_members(archive.take(p), LIMIT as u64).0, false),
    }
}

/// Turns a backup into a snapshot. `archive` is the backup's tar archive.
pub fn export(archive: &[u8], source: &Json, parent: Option<&Image>, generation: &str) -> (r: Result<
    Snapshot,
    Refusal,
>)
    requires
        parent matches Some(p) ==> p.wf(),
        encode_utf8(generation@).len() == SALT,
    ensures
        is_export(
            archived(archive@).0,
            archived(archive@).1,
            source@,
            parent,
            encode_utf8(generation@),
            r,
        ),
{
    let (members, whole) = match find_miscounted(archive) {
        None => read_tar(archive, LIMIT as u64),
        Some(p) => {
            let head = slice_subrange(archive, 0, p);
            proof {
                lemma_counted_before(archive@, 0, None, p as int);
                assert(head@ =~= archive@.take(p as int));
            }
            (read_tar(head, LIMIT as u64).0, false)
        },
    };
    export_members(members, whole, source, parent, generation)
}

/// Turns the members of a backup into a snapshot. `source` is the backup's manifest, `parent`
/// the snapshot it is an increment of, if it is one.
pub fn export_members(
    members: Vec<Member>,
    whole: bool,
    source: &Json,
    parent: Option<&Image>,
    generation: &str,
) -> (r: Result<Snapshot, Refusal>)
    requires
        parent matches Some(p) ==> p.wf(),
        encode_utf8(generation@).len() == SALT,
    ensures
        is_export(members_view(members@), whole, source@, parent, encode_utf8(generation@), r),
{
    let system: u64 = match num(source, "System-Identifier") {
        Ok(n) => n,
        Err(e) => return Err(e),
    };
    match parent {
        Some(p) => if p.system != system {
            return Err(refuse("snapshot cluster mismatch"));
        },
        None => {},
    }
    let ghost salt = encode_utf8(generation@);
    let ghost pf = parent_files(parent);
    let ghost all = members_view(members@);
    let ghost n = members@.len();
    let mut ex = Export {
        image: Image {
            files: Vec::new(),
            dirs: Names::new(),
            system,
            ranges: field(source, "WAL-Ranges"),
        },
        seen: Names::new(),
        bodies: Vec::new(),
    };
    let ghost mut v = gathered(all, 0, pf, salt)->Ok_0;
    proof {
        assert(files_view(ex.image.files@) =~= Seq::empty());
        assert(bodies_view(ex.bodies@) =~= Seq::empty());
    }
    let mut rest = members;
    let mut done: usize = 0;
    let total: usize = rest.len();
    proof {
        assert(rest@ =~= members@.skip(0));
    }
    while done < total
        invariant
            parent matches Some(p) ==> p.wf(),
            salt == encode_utf8(generation@),
            salt.len() == SALT,
            pf == parent_files(parent),
            all == members_view(members@),
            total == n == members@.len(),
            done <= total,
            rest@ == members@.skip(done as int),
            num_of(source@, "System-Identifier"@) == Ok::<u64, Seq<char>>(system),
            parent matches Some(p) ==> p.system == system,
            ex.is(v),
            ex.image.system == system,
            ex.image.ranges@ == source@.at("WAL-Ranges"@),
            v.paths <= 20000,
            gathered(all, done as nat, pf, salt) == Ok::<ExportView, Seq<char>>(v),
        decreases total - done,
    {
        let m = rest.remove(0);
        proof {
            assert(m == members@[done as int]);
            assert(all[done as int] == m@);
            assert(rest@ =~= members@.skip(done + 1));
            if gathered(all, (done + 1) as nat, pf, salt) is Err {
                lemma_gathered_err(all, (done + 1) as nat, pf, salt);
            }
        }
        match ex.take(m, parent, generation, Ghost(v)) {
            Ok(_) => {},
            Err(e) => return Err(e),
        }
        proof {
            v = gathered(all, (done + 1) as nat, pf, salt)->Ok_0;
        }
        done += 1;
    }
    let ghost d = ex.image.dirs.listed();
    proof {
        ex.image.dirs.lemma_listed();
        assert(all.len() == n);
        let fault = export_fault(all, whole, source@, pf, salt, d);
    }
    if !whole {
        return Err(refuse("snapshot archive is damaged"));
    }
    match ex.image.validate() {
        Ok(_) => {},
        Err(e) => return Err(e),
    }
    let files = field(source, "Files");
    let listed = match files.as_array() {
        Some(l) => l,
        None => return Err(refuse("missing native inventory")),
    };
    proof {
        assert(list_view(listed@).len() == listed@.len());
    }
    match check_listed(&ex.image, listed) {
        Ok(_) => {},
        Err(e) => return Err(e),
    }
    Ok(Snapshot { image: ex.image, bodies: ex.bodies })
}

proof fn lemma_gathered_err(
    members: Seq<MemberView>,
    n: nat,
    parent: Option<Seq<FileView>>,
    salt: Seq<u8>,
)
    requires
        n <= members.len(),
        gathered(members, n, parent, salt) is Err,
    ensures
        gathered(members, members.len(), parent, salt) == gathered(members, n, parent, salt),
    decreases members.len() - n,
{
    if n < members.len() {
        lemma_gathered_err(members, n + 1, parent, salt);
    }
}

} // verus!
