//! A flat inventory of backup bytes. Incremental pages replace references; unchanged pages keep
//! their objects, without retaining ancestor inventories.
use crate::http::{address, chars_are, content_key, is_address};
use crate::json::Json;
use crate::lines::{split_chars, split_on, texts_view};
use crate::names::Names;
use crate::order::{below, side_of, Side};
use crate::refusal::{refuse, Refusal};
use crate::text::{chars_of, has_prefix, same_text, starts_with_text, text_of};
use vstd::prelude::*;
use vstd::slice::slice_subrange;
use vstd::utf8::encode_utf8;

verus! {

/// The bytes of one page.
pub const PAGE: usize = 8192;

/// The most bytes of backup in one object.
pub const CHUNK: usize = 131072;

/// The most bytes of a snapshot.
pub const LIMIT: usize = 268435456;

/// How many bytes of salt an object begins with.
pub const SALT: usize = 32;

/// The most blocks of one relation segment.
pub const RELSEG: usize = 131072;

/// Marks an incremental file.
pub const INCREMENTAL_MAGIC: u32 = 0xd3ae1f0d;

/// Some bytes of an object that is named by its content.
#[derive(Debug, PartialEq, Eq)]
pub struct Piece {
    pub key: String,
    pub offset: usize,
    pub length: usize,
}

#[verifier::ext_equal]
pub struct PieceView {
    pub key: Seq<char>,
    pub offset: nat,
    pub length: nat,
}

impl View for Piece {
    type V = PieceView;

    open spec fn view(&self) -> PieceView {
        PieceView { key: self.key@, offset: self.offset as nat, length: self.length as nat }
    }
}

impl Piece {
    pub fn copy(&self) -> (r: Piece)
        ensures
            r@ == self@,
    {
        Piece { key: self.key.clone(), offset: self.offset, length: self.length }
    }
}

pub open spec fn pieces_view(p: Seq<Piece>) -> Seq<PieceView> {
    Seq::new(p.len(), |i: int| p[i]@)
}

/// A file of a snapshot: where its bytes are.
#[derive(Debug)]
pub struct File {
    pub path: String,
    pub pieces: Vec<Piece>,
}

pub type FileView = (Seq<char>, Seq<PieceView>);

pub open spec fn files_view(f: Seq<File>) -> Seq<FileView> {
    Seq::new(f.len(), |i: int| (f[i].path@, pieces_view(f[i].pieces@)))
}

/// Files in ascending order of their paths, none twice.
pub open spec fn files_ascend(f: Seq<FileView>) -> bool {
    forall|i: int, j: int|
        0 <= i < j < f.len() ==> below(
            encode_utf8((#[trigger] f[i]).0),
            encode_utf8((#[trigger] f[j]).0),
        )
}

/// There is a file at `path`.
pub open spec fn has_file(f: Seq<FileView>, path: Seq<char>) -> bool {
    exists|i: int| 0 <= i < f.len() && (#[trigger] f[i]).0 == path
}

/// A path component that stays where it is put.
pub open spec fn plain_part(s: Seq<char>) -> bool {
    s.len() > 0 && s != "."@ && s != ".."@
}

/// A path that stays inside the directory it is taken from, and outside of tablespaces.
pub open spec fn safe_path(p: Seq<char>) -> bool {
    &&& p.len() > 0
    &&& !p.contains('\0')
    &&& forall|i: int|
        0 <= i < split_on(p, '/').len() ==> plain_part(#[trigger] split_on(p, '/')[i])
    &&& !has_prefix(p, "pg_tblspc/"@)
}

pub open spec fn plain_path(p: Seq<char>) -> bool {
    &&& p.len() > 0
    &&& !p.contains('\0')
    &&& forall|i: int|
        0 <= i < split_on(p, '/').len() ==> plain_part(#[trigger] split_on(p, '/')[i])
}

/// A path made of plain components.
pub fn is_plain(path: &str) -> (r: bool)
    ensures
        r == plain_path(path@),
{
    let cs = chars_of(path);
    if cs.len() == 0 {
        return false;
    }
    let mut i: usize = 0;
    while i < cs.len()
        invariant
            i <= cs@.len(),
            cs@ == path@,
            forall|j: int| 0 <= j < i ==> cs@[j] != '\0',
        decreases cs@.len() - i,
    {
        if cs[i] == '\0' {
            proof {
                assert(path@.contains('\0'));
            }
            return false;
        }
        i += 1;
    }
    let parts = split_chars(cs.as_slice(), '/');
    let ghost all = texts_view(parts@);
    let mut j: usize = 0;
    while j < parts.len()
        invariant
            j <= parts@.len(),
            all == texts_view(parts@),
            all == split_on(path@, '/'),
            forall|k: int| 0 <= k < j ==> plain_part(#[trigger] all[k]),
        decreases parts@.len() - j,
    {
        if parts[j].len() == 0 || chars_are(parts[j].as_slice(), ".") || chars_are(
            parts[j].as_slice(),
            "..",
        ) {
            proof {
                assert(!plain_part(all[j as int]));
            }
            return false;
        }
        j += 1;
    }
    proof {
        assert(!path@.contains('\0'));
    }
    true
}

/// A path that stays inside the directory it is taken from, and outside of tablespaces.
pub fn safe(path: &str) -> (r: bool)
    ensures
        r == safe_path(path@),
{
    is_plain(path) && !starts_with_text(path, "pg_tblspc/")
}

/// The bytes that the pieces hold together.
pub open spec fn size_of(p: Seq<PieceView>) -> nat
    decreases p.len(),
{
    if p.len() == 0 {
        0
    } else {
        size_of(p.drop_last()) + p.last().length
    }
}

/// The bytes that the pieces hold together.
pub fn size(pieces: &Vec<Piece>) -> (r: usize)
    requires
        size_of(pieces_view(pieces@)) <= usize::MAX,
    ensures
        r == size_of(pieces_view(pieces@)),
{
    let ghost all = pieces_view(pieces@);
    let mut n: usize = 0;
    let mut i: usize = 0;
    proof {
        assert(all.take(0) =~= Seq::empty());
    }
    while i < pieces.len()
        invariant
            all == pieces_view(pieces@),
            size_of(all) <= usize::MAX,
            i <= pieces@.len(),
            n == size_of(all.take(i as int)),
        decreases pieces@.len() - i,
    {
        proof {
            assert(all.take(i + 1).drop_last() =~= all.take(i as int));
            lemma_size_mono(all, i + 1);
        }
        n = n + pieces[i].length;
        i += 1;
    }
    proof {
        assert(all.take(all.len() as int) =~= all);
    }
    n
}

proof fn lemma_size_mono(p: Seq<PieceView>, i: int)
    requires
        0 <= i <= p.len(),
    ensures
        size_of(p.take(i)) <= size_of(p),
    decreases p.len() - i,
{
    if i == p.len() {
        assert(p.take(i) =~= p);
    } else {
        assert(p.take(i + 1).drop_last() =~= p.take(i));
        lemma_size_mono(p, i + 1);
    }
}

/// A reference that no object can satisfy, or one too many.
pub open spec fn bad_piece(p: PieceView, last: bool, total: nat, count: nat) -> bool {
    ||| !is_address(p.key)
    ||| p.offset < SALT
    ||| p.length == 0
    ||| p.length > PAGE
    ||| p.offset + p.length > SALT + CHUNK
    ||| (!last && p.length != PAGE)
    ||| total > LIMIT
    ||| count > LIMIT / PAGE + 10000
}

/// The bytes and the references counted after the first `n` pieces of a file, or why one of
/// them is refused.
pub open spec fn pieces_counted(p: Seq<PieceView>, n: nat, total: nat, count: nat) -> Result<
    (nat, nat),
    Seq<char>,
>
    decreases n,
{
    if n == 0 {
        Ok((total, count))
    } else {
        match pieces_counted(p, (n - 1) as nat, total, count) {
            Err(e) => Err(e),
            Ok((t, c)) => {
                let q = p[n - 1];
                if t + q.length > usize::MAX {
                    Err("snapshot size overflow"@)
                } else if bad_piece(q, n == p.len(), t + q.length, c + 1) {
                    Err("invalid snapshot byte reference/size"@)
                } else {
                    Ok((t + q.length, c + 1))
                }
            },
        }
    }
}

/// A path that no file of a snapshot may have.
pub open spec fn bad_file(path: Seq<char>, dirs: Set<Seq<char>>) -> bool {
    !safe_path(path) || path == "backup_manifest"@ || has_prefix(path, "pg_wal/"@) || dirs.contains(
        path,
    )
}

/// A directory that `path` is in is listed as a file.
pub open spec fn under_file(f: Seq<FileView>, path: Seq<char>) -> bool {
    exists|i: int| 0 <= i < path.len() && #[trigger] path[i] == '/' && has_file(f, path.take(i))
}

/// The bytes and references counted after the first `n` files, or why one of them is refused.
pub open spec fn files_counted(f: Seq<FileView>, dirs: Set<Seq<char>>, n: nat) -> Result<
    (nat, nat),
    Seq<char>,
>
    decreases n,
{
    if n == 0 {
        Ok((0, 0))
    } else {
        match files_counted(f, dirs, (n - 1) as nat) {
            Err(e) => Err(e),
            Ok((t, c)) => {
                let (path, pieces) = f[n - 1];
                if bad_file(path, dirs) {
                    Err("unsupported snapshot file"@)
                } else {
                    match pieces_counted(pieces, pieces.len(), t, c) {
                        Err(e) => Err(e),
                        Ok(tc) => if under_file(f, path) {
                            Err("snapshot file used as directory"@)
                        } else {
                            Ok(tc)
                        },
                    }
                }
            },
        }
    }
}

/// What is wrong with an inventory.
pub open spec fn inventory_fault(f: Seq<FileView>, dirs: Seq<Seq<char>>) -> Option<Seq<char>> {
    if f.len() > 10000 || dirs.len() > 10000 || exists|i: int|
        0 <= i < dirs.len() && !safe_path(#[trigger] dirs[i]) {
        Some("snapshot inventory limit/path"@)
    } else {
        match files_counted(f, dirs.to_set(), f.len()) {
            Err(e) => Some(e),
            Ok(_) => if !has_file(f, "backup_label"@) || !has_file(f, "global/pg_control"@) {
                Some("snapshot missing native metadata"@)
            } else {
                None
            },
        }
    }
}

/// The inventory of a snapshot.
pub struct Image {
    pub files: Vec<File>,
    pub dirs: Names,
    pub system: u64,
    pub ranges: Json,
}

impl Image {
    /// The files and the directories stand in order.
    pub open spec fn wf(&self) -> bool {
        files_ascend(files_view(self.files@)) && self.dirs.wf()
    }

    /// Where the file at `path` stands, or would stand.
    pub fn find(&self, path: &str) -> (r: (bool, usize))
        requires
            files_ascend(files_view(self.files@)),
        ensures
            r.0 == has_file(files_view(self.files@), path@),
            r.1 <= self.files@.len(),
            r.0 ==> r.1 < self.files@.len() && self.files@[r.1 as int].path@ == path@,
            forall|i: int|
                0 <= i < r.1 ==> below(
                    encode_utf8((#[trigger] files_view(self.files@)[i]).0),
                    encode_utf8(path@),
                ),
            !r.0 ==> forall|i: int|
                r.1 <= i < self.files@.len() ==> below(
                    encode_utf8(path@),
                    encode_utf8((#[trigger] files_view(self.files@)[i]).0),
                ),
    {
        let ghost f = files_view(self.files@);
        let ghost n = encode_utf8(path@);
        let mut lo: usize = 0;
        let mut hi: usize = self.files.len();
        while lo < hi
            invariant
                f == files_view(self.files@),
                n == encode_utf8(path@),
                files_ascend(f),
                lo <= hi <= self.files@.len(),
                forall|i: int| 0 <= i < lo ==> below(encode_utf8((#[trigger] f[i]).0), n),
                forall|i: int| hi <= i < f.len() ==> below(n, encode_utf8((#[trigger] f[i]).0)),
            decreases hi - lo,
        {
            let mid: usize = lo + (hi - lo) / 2;
            let ghost m = encode_utf8(f[mid as int].0);
            proof {
                assert(f[mid as int].0 == self.files@[mid as int].path@);
            }
            match side_of(self.files[mid].path.as_str().as_bytes(), path.as_bytes()) {
                Side::Same => {
                    proof {
                        vstd::utf8::encode_utf8_decode_utf8(f[mid as int].0);
                        vstd::utf8::encode_utf8_decode_utf8(path@);
                        assert(f[mid as int].0 == path@);
                        assert forall|i: int| 0 <= i < mid implies below(
                            encode_utf8((#[trigger] f[i]).0),
                            n,
                        ) by {
                            assert(below(encode_utf8(f[i].0), encode_utf8(f[mid as int].0)));
                        }
                    }
                    return (true, mid);
                },
                Side::Before => {
                    proof {
                        assert forall|i: int| 0 <= i < mid + 1 implies below(
                            encode_utf8((#[trigger] f[i]).0),
                            n,
                        ) by {
                            if i < mid {
                                assert(below(encode_utf8(f[i].0), encode_utf8(f[mid as int].0)));
                                crate::order::lemma_below_transitive(encode_utf8(f[i].0), m, n);
                            }
                        }
                    }
                    lo = mid + 1;
                },
                Side::After => {
                    proof {
                        assert forall|i: int| mid <= i < f.len() implies below(
                            n,
                            encode_utf8((#[trigger] f[i]).0),
                        ) by {
                            if i > mid {
                                assert(below(encode_utf8(f[mid as int].0), encode_utf8(f[i].0)));
                                crate::order::lemma_below_transitive(n, m, encode_utf8(f[i].0));
                            }
                        }
                    }
                    hi = mid;
                },
            }
        }
        proof {
            if has_file(f, path@) {
                let i = choose|i: int| 0 <= i < f.len() && (#[trigger] f[i]).0 == path@;
                crate::order::lemma_below_irreflexive(n);
                if i < lo {
                    assert(below(encode_utf8(f[i].0), n));
                } else {
                    assert(below(n, encode_utf8(f[i].0)));
                }
            }
        }
        (false, lo)
    }

    /// Counts the pieces of a file, or refuses one of them.
    fn count_pieces(pieces: &Vec<Piece>, total: usize, count: usize) -> (r: Result<
        (usize, usize),
        Refusal,
    >)
        requires
            count <= LIMIT / PAGE + 10000,
            pieces@.len() > 0 ==> count < usize::MAX,
        ensures
            match pieces_counted(
                pieces_view(pieces@),
                pieces@.len(),
                total as nat,
                count as nat,
            ) {
                Ok((t, c)) => r matches Ok((a, b)) && a == t && b == c && b <= LIMIT / PAGE + 10000,
                Err(e) => r matches Err(x) && x@ == e,
            },
    {
        let ghost all = pieces_view(pieces@);
        let mut t: usize = total;
        let mut c: usize = count;
        let mut i: usize = 0;
        while i < pieces.len()
            invariant
                all == pieces_view(pieces@),
                i <= pieces@.len(),
                c <= LIMIT / PAGE + 10000,
                pieces_counted(all, i as nat, total as nat, count as nat) == Ok::<
                    (nat, nat),
                    Seq<char>,
                >((t as nat, c as nat)),
            decreases pieces@.len() - i,
        {
            let p = &pieces[i];
            let ghost q = all[i as int];
            proof {
                assert(q == p@);
            }
            match t.checked_add(p.length) {
                None => {
                    proof {
                        lemma_counted_err(all, (i + 1) as nat, total as nat, count as nat);
                    }
                    return Err(refuse("snapshot size overflow"));
                },
                Some(n) => {
                    t = n;
                },
            }
            c = c + 1;
            let last: bool = i + 1 == pieces.len();
            if !address(p.key.as_str()) || p.offset < SALT || p.offset > SALT + CHUNK || p.length
                == 0 || p.length > PAGE || p.offset + p.length > SALT + CHUNK || (!last && p.length
                != PAGE) || t > LIMIT || c > LIMIT / PAGE + 10000 {
                proof {
                    assert(bad_piece(q, last, t as nat, c as nat));
                    lemma_counted_err(all, (i + 1) as nat, total as nat, count as nat);
                }
                return Err(refuse("invalid snapshot byte reference/size"));
            }
            i += 1;
        }
        Ok((t, c))
    }

    fn has(&self, path: &str) -> (r: bool)
        requires
            files_ascend(files_view(self.files@)),
        ensures
            r == has_file(files_view(self.files@), path@),
    {
        let (found, _i) = self.find(path);
        found
    }

    /// A directory that `path` is in is listed as a file.
    fn is_under_file(&self, path: &str) -> (r: bool)
        requires
            files_ascend(files_view(self.files@)),
        ensures
            r == under_file(files_view(self.files@), path@),
    {
        let ghost f = files_view(self.files@);
        let cs = chars_of(path);
        let mut i: usize = 0;
        while i < cs.len()
            invariant
                i <= cs@.len(),
                cs@ == path@,
                f == files_view(self.files@),
                files_ascend(f),
                forall|j: int|
                    0 <= j < i && #[trigger] path@[j] == '/' ==> !has_file(f, path@.take(j)),
            decreases cs@.len() - i,
        {
            if cs[i] == '/' {
                let dir = text_of(slice_subrange(cs.as_slice(), 0, i));
                proof {
                    assert(dir@ =~= path@.take(i as int));
                }
                if self.has(dir.as_str()) {
                    proof {
                        assert(path@[i as int] == '/' && has_file(f, path@.take(i as int)));
                    }
                    return true;
                }
            }
            i += 1;
        }
        false
    }

    /// Checks an inventory: its limits, its paths, its references, and that what every
    /// snapshot has is there.
    pub fn validate(&self) -> (r: Result<(), Refusal>)
        requires
            self.wf(),
        ensures
            match r {
                Ok(_) => inventory_fault(files_view(self.files@), self.dirs.listed()) is None,
                Err(e) => inventory_fault(files_view(self.files@), self.dirs.listed()) == Some(e@),
            },
    {
        let ghost f = files_view(self.files@);
        let ghost d = self.dirs.listed();
        proof {
            self.dirs.lemma_listed();
        }
        if self.files.len() > 10000 || self.dirs.len() > 10000 {
            return Err(refuse("snapshot inventory limit/path"));
        }
        let mut i: usize = 0;
        while i < self.dirs.len()
            invariant
                self.wf(),
                f == files_view(self.files@),
                d == self.dirs.listed(),
                f.len() <= 10000,
                d.len() <= 10000,
                i <= d.len(),
                forall|j: int| 0 <= j < i ==> safe_path(#[trigger] d[j]),
            decreases d.len() - i,
        {
            if !safe(self.dirs.at(i)) {
                return Err(refuse("snapshot inventory limit/path"));
            }
            i += 1;
        }
        let mut total: usize = 0;
        let mut count: usize = 0;
        let mut k: usize = 0;
        while k < self.files.len()
            invariant
                self.wf(),
                f == files_view(self.files@),
                d == self.dirs.listed(),
                self.dirs@ == d.to_set(),
                f.len() <= 10000,
                d.len() <= 10000,
                forall|j: int| 0 <= j < d.len() ==> safe_path(#[trigger] d[j]),
                k <= self.files@.len(),
                count <= LIMIT / PAGE + 10000,
                files_counted(f, d.to_set(), k as nat) == Ok::<(nat, nat), Seq<char>>(
                    (total as nat, count as nat),
                ),
            decreases self.files@.len() - k,
        {
            let file = &self.files[k];
            let path = file.path.as_str();
            proof {
                assert(f[k as int] == (file.path@, pieces_view(file.pieces@)));
            }
            if !safe(path) || same_text(path, "backup_manifest") || starts_with_text(
                path,
                "pg_wal/",
            ) || self.dirs.contains(path) {
                proof {
                    lemma_files_err(f, d.to_set(), (k + 1) as nat);
                }
                return Err(refuse("unsupported snapshot file"));
            }
            match Image::count_pieces(&file.pieces, total, count) {
                Err(e) => {
                    proof {
                        lemma_files_err(f, d.to_set(), (k + 1) as nat);
                    }
                    return Err(e);
                },
                Ok((t, c)) => {
                    if self.is_under_file(path) {
                        proof {
                            lemma_files_err(f, d.to_set(), (k + 1) as nat);
                        }
                        return Err(refuse("snapshot file used as directory"));
                    }
                    total = t;
                    count = c;
                },
            }
            k += 1;
        }
        if !self.has("backup_label") || !self.has("global/pg_control") {
            return Err(refuse("snapshot missing native metadata"));
        }
        Ok(())
    }

    /// The keys of the objects that the files refer to.
    pub fn objects(&self) -> (r: Names)
        ensures
            r.wf(),
            forall|s: Seq<char>| #[trigger]
                r@.contains(s) <==> exists|i: int, j: int|
                    0 <= i < self.files@.len() && 0 <= j < self.files@[i].pieces@.len() && s
                        == #[trigger] piece_key(self.files@[i].pieces@[j]@),
    {
        let mut names = Names::new();
        let mut i: usize = 0;
        while i < self.files.len()
            invariant
                names.wf(),
                i <= self.files@.len(),
                forall|s: Seq<char>| #[trigger]
                    names@.contains(s) <==> exists|a: int, b: int|
                        0 <= a < i && 0 <= b < self.files@[a].pieces@.len() && s
                            == #[trigger] piece_key(self.files@[a].pieces@[b]@),
            decreases self.files@.len() - i,
        {
            let file = &self.files[i];
            let ghost before = names@;
            let mut j: usize = 0;
            while j < file.pieces.len()
                invariant
                    names.wf(),
                    i < self.files@.len(),
                    *file == self.files@[i as int],
                    j <= file.pieces@.len(),
                    forall|s: Seq<char>| #[trigger]
                        before.contains(s) <==> exists|a: int, b: int|
                            0 <= a < i && 0 <= b < self.files@[a].pieces@.len() && s
                                == #[trigger] piece_key(self.files@[a].pieces@[b]@),
                    forall|s: Seq<char>| #[trigger]
                        names@.contains(s) <==> before.contains(s) || exists|b: int|
                            0 <= b < j && s == #[trigger] piece_key(file.pieces@[b]@),
                decreases file.pieces@.len() - j,
            {
                let ghost was = names@;
                names.insert(content_key("backup-chunks", file.pieces[j].key.as_str()));
                proof {
                    assert forall|s: Seq<char>| #[trigger]
                        names@.contains(s) <==> before.contains(s) || exists|b: int|
                            0 <= b < j + 1 && s == #[trigger] piece_key(file.pieces@[b]@) by {
                        if s == piece_key(file.pieces@[j as int]@) {
                            assert(names@.contains(s));
                        }
                        if was.contains(s) {
                            assert(names@.contains(s));
                        }
                    }
                }
                j += 1;
            }
            proof {
                assert forall|s: Seq<char>| #[trigger]
                    names@.contains(s) <==> exists|a: int, b: int|
                        0 <= a < i + 1 && 0 <= b < self.files@[a].pieces@.len() && s
                            == #[trigger] piece_key(self.files@[a].pieces@[b]@) by {
                    if exists|b: int|
                        0 <= b < file.pieces@.len() && s == #[trigger] piece_key(file.pieces@[b]@) {
                        let b = choose|b: int|
                            0 <= b < file.pieces@.len() && s == #[trigger] piece_key(
                                file.pieces@[b]@,
                            );
                        assert(s == piece_key(self.files@[i as int].pieces@[b]@));
                    }
                    if exists|a: int, b: int|
                        0 <= a < i + 1 && 0 <= b < self.files@[a].pieces@.len() && s
                            == #[trigger] piece_key(self.files@[a].pieces@[b]@) {
                        let (a, b) = choose|a: int, b: int|
                            0 <= a < i + 1 && 0 <= b < self.files@[a].pieces@.len() && s
                                == #[trigger] piece_key(self.files@[a].pieces@[b]@);
                        if a == i {
                            assert(s == piece_key(file.pieces@[b]@));
                        }
                    }
                }
            }
            i += 1;
        }
        names
    }
}

/// The key of the object that a piece is in.
pub open spec fn piece_key(p: PieceView) -> Seq<char> {
    "backup-chunks"@ + "/"@ + p.key
}

proof fn lemma_counted_err(p: Seq<PieceView>, n: nat, total: nat, count: nat)
    requires
        n <= p.len(),
        pieces_counted(p, n, total, count) is Err,
    ensures
        pieces_counted(p, p.len(), total, count) == pieces_counted(p, n, total, count),
    decreases p.len() - n,
{
    if n < p.len() {
        lemma_counted_err(p, n + 1, total, count);
    }
}

proof fn lemma_files_err(f: Seq<FileView>, dirs: Set<Seq<char>>, n: nat)
    requires
        n <= f.len(),
        files_counted(f, dirs, n) is Err,
    ensures
        files_counted(f, dirs, f.len()) == files_counted(f, dirs, n),
    decreases f.len() - n,
{
    if n < f.len() {
        lemma_files_err(f, dirs, n + 1);
    }
}

} // verus!
