//! Inspecting a materialized snapshot before recovery may start from it.
use crate::archive::{num, num_of, text, text_of};
use crate::codec::{le, put_u32};
use crate::http::chars_are;
use crate::image::{is_plain, plain_path};
use crate::json::{Json, JsonView};
use crate::lines::{is_white, utf8, white};
use crate::names::Names;
use crate::native::{long_word_at, native_at};
use crate::refusal::{refuse, seen, Refusal};
use crate::sums::{
    crc, crc32c_of, sha224, sha224_of, sha256, sha256_of, sha384, sha384_of, sha512, sha512_of,
};
use crate::text::{
    chars_of, ends_with_text, has_prefix, has_suffix, same_text, starts_with_text,
};
use crate::wire::{digest, digest_of, hex, hex_of};
use vstd::prelude::*;
use vstd::slice::slice_subrange;
use vstd::utf8::{decode_utf8, valid_utf8};

verus! {

/// The most bytes that the files of a snapshot may have.
pub const MAX_TOTAL: u64 = 268435456;

/// The most bytes that a manifest may have.
pub const MAX_MANIFEST: u64 = 67108864;

/// The most files that a snapshot may have.
pub const MAX_FILES: usize = 10000;

/// Checks what the snapshot and its manifest are before anything is read.
pub fn check_root(root_is_link: bool, manifest_is_link: bool, manifest_len: u64) -> (r: Result<
    (),
    Refusal,
>)
    ensures
        seen(r) == (if root_is_link {
            Err("symlink artifact root"@)
        } else if manifest_is_link || manifest_len > MAX_MANIFEST {
            Err("manifest input type/size limit"@)
        } else {
            Ok(())
        }),
{
    if root_is_link {
        return Err(refuse("symlink artifact root"));
    }
    if manifest_is_link || manifest_len > MAX_MANIFEST {
        return Err(refuse("manifest input type/size limit"));
    }
    Ok(())
}

/// Where the last line begins; nothing where there is only one.
pub open spec fn last_line(b: Seq<u8>) -> Option<int> {
    let end = if b.len() > 0 && b.last() == 10 {
        b.len() - 1
    } else {
        b.len() as int
    };
    last_break(b, end)
}

/// Behind the last line feed before `end`.
pub open spec fn last_break(b: Seq<u8>, end: int) -> Option<int>
    decreases end,
{
    if end <= 0 {
        None
    } else if b[end - 1] == 10 {
        Some(end)
    } else {
        last_break(b, end - 1)
    }
}

/// Checks a manifest that was read: it may have grown since its size was looked at.
pub fn check_manifest_size(bytes: &[u8]) -> (r: Result<(), Refusal>)
    ensures
        seen(r) == (if bytes@.len() > MAX_MANIFEST {
            Err("manifest input limit"@)
        } else {
            Ok(())
        }),
{
    if bytes.len() > MAX_MANIFEST as usize {
        Err(refuse("manifest input limit"))
    } else {
        Ok(())
    }
}

/// Where the last line begins; nothing where there is only one.
pub fn find_last_line(b: &[u8]) -> (r: Option<usize>)
    ensures
        match r {
            Some(i) => last_line(b@) == Some(i as int) && i <= b@.len(),
            None => last_line(b@) is None,
        },
{
    let mut end: usize = b.len();
    if end > 0 && b[end - 1] == 10 {
        end -= 1;
    }
    while end > 0
        invariant
            end <= b@.len(),
            last_line(b@) == last_break(b@, end as int),
        decreases end,
    {
        if b[end - 1] == 10 {
            return Some(end);
        }
        end -= 1;
    }
    None
}

/// Text without the white space it begins with.
pub open spec fn trimmed_start(s: Seq<char>) -> Seq<char>
    decreases s.len(),
{
    if s.len() > 0 && white(s[0]) {
        trimmed_start(s.skip(1))
    } else {
        s
    }
}

/// What is wrong with a manifest. `value` is what the text means.
pub open spec fn checksum_fault(bytes: Seq<u8>, value: JsonView) -> Option<Seq<char>> {
    let bad = "invalid manifest checksum/version"@;
    match last_line(bytes) {
        None => Some("missing checksum line"@),
        Some(start) => {
            let line = bytes.skip(start);
            if !valid_utf8(line) {
                Some("manifest is not UTF-8"@)
            } else if !has_prefix(trimmed_start(decode_utf8(line)), "\"Manifest-Checksum\""@) {
                Some(bad)
            } else {
                match text_of(value, "Manifest-Checksum"@) {
                    Err(e) => Some(e),
                    Ok(sum) => if sum != digest_of(bytes.take(start)) {
                        Some(bad)
                    } else {
                        match num_of(value, "PostgreSQL-Backup-Manifest-Version"@) {
                            Err(e) => Some(e),
                            Ok(v) => if v != 2 {
                                Some(bad)
                            } else {
                                None
                            },
                        }
                    },
                }
            }
        },
    }
}

/// The line that begins with a name, white space aside.
fn names_checksum(line: &str) -> (r: bool)
    ensures
        r == has_prefix(trimmed_start(line@), "\"Manifest-Checksum\""@),
{
    let cs = chars_of(line);
    let mut i: usize = 0;
    proof {
        assert(line@.skip(0) =~= line@);
    }
    while i < cs.len() && is_white(cs[i])
        invariant
            i <= cs@.len(),
            cs@ == line@,
            trimmed_start(line@) == trimmed_start(line@.skip(i as int)),
        decreases cs@.len() - i,
    {
        proof {
            assert(line@.skip(i as int).skip(1) =~= line@.skip(i + 1));
            assert(line@.skip(i as int)[0] == cs@[i as int]);
        }
        i += 1;
    }
    let rest = slice_subrange(cs.as_slice(), i, cs.len());
    proof {
        assert(rest@ =~= line@.skip(i as int));
        if i < cs@.len() {
            assert(line@.skip(i as int)[0] == cs@[i as int]);
        }
        assert(trimmed_start(line@) == rest@);
    }
    starts_with_text(crate::text::text_of(rest).as_str(), "\"Manifest-Checksum\"")
}

/// Checks the checksum and the version of a manifest. `value` is what the text means.
pub fn check_checksum(bytes: &[u8], value: &Json) -> (r: Result<(), Refusal>)
    ensures
        match r {
            Ok(_) => checksum_fault(bytes@, value@) is None,
            Err(e) => checksum_fault(bytes@, value@) == Some(e@),
        },
{
    let bad = "invalid manifest checksum/version";
    let start: usize = match find_last_line(bytes) {
        Some(i) => i,
        None => return Err(refuse("missing checksum line")),
    };
    let line = slice_subrange(bytes, start, bytes.len());
    let covered = slice_subrange(bytes, 0, start);
    proof {
        assert(line@ =~= bytes@.skip(start as int));
        assert(covered@ =~= bytes@.take(start as int));
    }
    let words = match utf8(line) {
        Some(s) => s,
        None => return Err(refuse("manifest is not UTF-8")),
    };
    if !names_checksum(words.as_str()) {
        return Err(refuse(bad));
    }
    let sum = match text(value, "Manifest-Checksum") {
        Ok(s) => s,
        Err(e) => return Err(e),
    };
    if !same_text(sum, digest(covered).as_str()) {
        return Err(refuse(bad));
    }
    let version: u64 = match num(value, "PostgreSQL-Backup-Manifest-Version") {
        Ok(n) => n,
        Err(e) => return Err(e),
    };
    if version != 2 {
        return Err(refuse(bad));
    }
    Ok(())
}

/// How a file is summed.
#[derive(Clone, Copy, Debug, PartialEq, Eq, Structural)]
pub enum Algorithm {
    Crc32c,
    Sha224,
    Sha256,
    Sha384,
    Sha512,
}

/// The algorithm with this name.
pub open spec fn algorithm_of(s: Seq<char>) -> Option<Algorithm> {
    if s == "CRC32C"@ {
        Some(Algorithm::Crc32c)
    } else if s == "SHA224"@ {
        Some(Algorithm::Sha224)
    } else if s == "SHA256"@ {
        Some(Algorithm::Sha256)
    } else if s == "SHA384"@ {
        Some(Algorithm::Sha384)
    } else if s == "SHA512"@ {
        Some(Algorithm::Sha512)
    } else {
        None
    }
}

/// The algorithm with this name.
pub fn algorithm(s: &str) -> (r: Result<Algorithm, Refusal>)
    ensures
        seen(r) == (match algorithm_of(s@) {
            Some(a) => Ok(a),
            None => Err("unsupported file checksum"@),
        }),
{
    if same_text(s, "CRC32C") {
        Ok(Algorithm::Crc32c)
    } else if same_text(s, "SHA224") {
        Ok(Algorithm::Sha224)
    } else if same_text(s, "SHA256") {
        Ok(Algorithm::Sha256)
    } else if same_text(s, "SHA384") {
        Ok(Algorithm::Sha384)
    } else if same_text(s, "SHA512") {
        Ok(Algorithm::Sha512)
    } else {
        Err(refuse("unsupported file checksum"))
    }
}

/// What is wrong with the path of a file in the manifest.
pub open spec fn entry_path(entry: JsonView) -> Result<Seq<char>, Seq<char>> {
    let bad = "unsupported backup path"@;
    match text_of(entry, "Path"@) {
        Err(e) => Err(e),
        Ok(path) => if !plain_path(path) || has_prefix(path, "pg_tblspc/"@) {
            Err(bad)
        } else if has_prefix(path, "pg_wal/"@) {
            if !(has_prefix(path, "pg_wal/archive_status/"@) && has_suffix(path, ".done"@)) {
                Err(bad)
            } else {
                match num_of(entry, "Size"@) {
                    Err(e) => Err(e),
                    Ok(n) => if n != 0 {
                        Err(bad)
                    } else {
                        Ok(path)
                    },
                }
            }
        } else if path == "backup_manifest"@ {
            Err(bad)
        } else {
            Ok(path)
        },
    }
}

/// An inspection under way: the files that were found sound, and what they come to.
pub struct Inspection {
    pub files: Names,
    pub total: u64,
}

/// Which file is to be looked at: its path, and the size it must have.
pub open spec fn entry_asked(entry: JsonView, total: u64, count: nat) -> Result<
    (Seq<char>, u64),
    Seq<char>,
> {
    match entry_path(entry) {
        Err(e) => Err(e),
        Ok(path) => match num_of(entry, "Size"@) {
            Err(e) => Err(e),
            Ok(size) => if total + size > u64::MAX {
                Err("backup size overflow"@)
            } else if total + size > MAX_TOTAL || count >= MAX_FILES {
                Err("backup size/member limit"@)
            } else {
                Ok((path, size))
            },
        },
    }
}

impl Inspection {
    pub open spec fn wf(&self) -> bool {
        self.files.wf()
    }

    pub fn new() -> (r: Inspection)
        ensures
            r.wf(),
            r.files@ == Set::<Seq<char>>::empty(),
            r.files.listed().len() == 0,
            r.total == 0,
    {
        Inspection { files: Names::new(), total: 0 }
    }

    /// The next entry of the manifest: which file is to be looked at, and the size it must
    /// have.
    pub fn entry(&mut self, entry: &Json) -> (r: Result<(String, u64), Refusal>)
        requires
            old(self).wf(),
        ensures
            final(self).wf(),
            final(self).files == old(self).files,
            match entry_asked(entry@, old(self).total, old(self).files.listed().len()) {
                Err(e) => r matches Err(x) && x@ == e && final(self).total == old(self).total,
                Ok((path, size)) => {
                    &&& r matches Ok(a)
                    &&& a.0@ == path
                    &&& a.1 == size
                    &&& final(self).total == old(self).total + size
                },
            },
    {
        let bad = "unsupported backup path";
        let path = match text(entry, "Path") {
            Ok(p) => p,
            Err(e) => return Err(e),
        };
        if !is_plain(path) || starts_with_text(path, "pg_tblspc/") {
            return Err(refuse(bad));
        }
        if starts_with_text(path, "pg_wal/") {
            if !(starts_with_text(path, "pg_wal/archive_status/") && ends_with_text(path, ".done")) {
                return Err(refuse(bad));
            }
            let n: u64 = match num(entry, "Size") {
                Ok(n) => n,
                Err(e) => return Err(e),
            };
            if n != 0 {
                return Err(refuse(bad));
            }
        } else if same_text(path, "backup_manifest") {
            return Err(refuse(bad));
        }
        let size: u64 = match num(entry, "Size") {
            Ok(n) => n,
            Err(e) => return Err(e),
        };
        let total: u64 = match self.total.checked_add(size) {
            Some(t) => t,
            None => return Err(refuse("backup size overflow")),
        };
        if total > MAX_TOTAL || self.files.len() >= MAX_FILES {
            return Err(refuse("backup size/member limit"));
        }
        self.total = total;
        Ok((path.to_owned(), size))
    }

    /// The file was read. It must be what its entry says, and none may come twice.
    pub fn summed(&mut self, entry: &Json, path: String, content: &[u8]) -> (r: Result<
        (),
        Refusal,
    >)
        requires
            old(self).wf(),
        ensures
            final(self).wf(),
            final(self).total == old(self).total,
            match content_fault(entry@, content@) {
                Some(e) => seen(r) == Err::<(), Seq<char>>(e) && final(self).files == old(
                    self,
                ).files,
                None => if old(self).files@.contains(path@) {
                    seen(r) == Err::<(), Seq<char>>("duplicate file"@) && final(self).files@ == old(
                        self,
                    ).files@
                } else {
                    &&& r is Ok
                    &&& final(self).files@ == old(self).files@.insert(path@)
                    &&& final(self).files.listed().len() == old(self).files.listed().len() + 1
                },
            },
    {
        let a = match entry_algorithm(entry) {
            Ok(a) => a,
            Err(e) => return Err(e),
        };
        let want = match text(entry, "Checksum") {
            Ok(s) => s,
            Err(e) => return Err(e),
        };
        let sum = checksum_file(content, a);
        if !same_text(sum.as_str(), want) {
            return Err(refuse("backup file checksum mismatch"));
        }
        if !self.files.insert(path) {
            proof {
                assert(self.files@ =~= old(self).files@);
            }
            return Err(refuse("duplicate file"));
        }
        Ok(())
    }

    /// Completes the inspection. `control` is the control file and `label` the backup label;
    /// they are read only where both were inspected.
    pub fn finish(&self, value: &Json, control: &[u8], label: &str) -> (r: Result<(), Refusal>)
        requires
            self.wf(),
        ensures
            match r {
                Ok(_) => snapshot_fault(self.files@, value@, control@, label@) is None,
                Err(e) => snapshot_fault(self.files@, value@, control@, label@) == Some(e@),
            },
    {
        match self.check_metadata() {
            Ok(_) => {},
            Err(e) => return Err(e),
        }
        let bad = "manifest/control system identifier mismatch";
        if control.len() < 8 {
            return Err(refuse(bad));
        }
        let system: u64 = match num(value, "System-Identifier") {
            Ok(n) => n,
            Err(e) => return Err(e),
        };
        if long_word_at(control, 0) != system {
            return Err(refuse(bad));
        }
        if holds_text(label, "INCREMENTAL FROM ") {
            return Err(refuse("flat snapshot contains an incremental backup label"));
        }
        Ok(())
    }

    /// Checks that the files without which there is no recovery were inspected.
    pub fn check_metadata(&self) -> (r: Result<(), Refusal>)
        requires
            self.wf(),
        ensures
            seen(r) == (if self.files@.contains("backup_label"@) && self.files@.contains(
                "global/pg_control"@,
            ) {
                Ok(())
            } else {
                Err("missing native backup metadata"@)
            }),
    {
        if !self.files.contains("backup_label") || !self.files.contains("global/pg_control") {
            return Err(refuse("missing native backup metadata"));
        }
        Ok(())
    }
}

/// What is wrong with a snapshot whose files were inspected.
pub open spec fn snapshot_fault(
    files: Set<Seq<char>>,
    value: JsonView,
    control: Seq<u8>,
    label: Seq<char>,
) -> Option<Seq<char>> {
    let bad = "manifest/control system identifier mismatch"@;
    if !files.contains("backup_label"@) || !files.contains("global/pg_control"@) {
        Some("missing native backup metadata"@)
    } else if control.len() < 8 {
        Some(bad)
    } else {
        match num_of(value, "System-Identifier"@) {
            Err(e) => Some(e),
            Ok(system) => if native_at(control, 0, 8) != system {
                Some(bad)
            } else if text_within(label, "INCREMENTAL FROM "@) {
                Some("flat snapshot contains an incremental backup label"@)
            } else {
                None
            },
        }
    }
}

/// `pat` occurs in `s`.
pub open spec fn text_within(s: Seq<char>, pat: Seq<char>) -> bool {
    exists|i: int| 0 <= i <= s.len() - pat.len() && #[trigger] s.subrange(i, i + pat.len()) == pat
}

/// Looks for `pat` in `s`.
pub fn holds_text(s: &str, pat: &str) -> (r: bool)
    ensures
        r == text_within(s@, pat@),
{
    let cs = chars_of(s);
    let ps = chars_of(pat);
    if ps.len() > cs.len() {
        return false;
    }
    let last: usize = cs.len() - ps.len();
    let mut i: usize = 0;
    while i < last
        invariant
            cs@ == s@,
            ps@ == pat@,
            last == cs@.len() - ps@.len(),
            i <= last,
            forall|j: int| 0 <= j < i ==> #[trigger] s@.subrange(j, j + pat@.len()) != pat@,
        decreases last - i,
    {
        assert(i + ps@.len() <= cs.len());
        if chars_are(slice_subrange(cs.as_slice(), i, i + ps.len()), pat) {
            return true;
        }
        i += 1;
    }
    let tail = slice_subrange(cs.as_slice(), last, cs.len());
    proof {
        assert(tail@ == s@.subrange(last as int, last + pat@.len()));
    }
    chars_are(tail, pat)
}

/// Checks what is at the path of a file before it is summed.
pub fn check_file(is_file: bool, len: u64, size: u64) -> (r: Result<(), Refusal>)
    ensures
        seen(r) == (if !is_file || len != size {
            Err("backup file size mismatch"@)
        } else {
            Ok(())
        }),
{
    if !is_file || len != size {
        return Err(refuse("backup file size mismatch"));
    }
    Ok(())
}

/// Checks a step of the way to a file.
pub fn check_step(is_link: bool) -> (r: Result<(), Refusal>)
    ensures
        seen(r) == (if is_link {
            Err("symlink in artifact"@)
        } else {
            Ok(())
        }),
{
    if is_link {
        return Err(refuse("symlink in artifact"));
    }
    Ok(())
}

/// The sum of a file's content.
pub open spec fn sum_of(content: Seq<u8>, a: Algorithm) -> Seq<u8> {
    match a {
        Algorithm::Crc32c => le(crc32c_of(content) as nat, 4),
        Algorithm::Sha224 => sha224_of(content),
        Algorithm::Sha256 => sha256_of(content),
        Algorithm::Sha384 => sha384_of(content),
        Algorithm::Sha512 => sha512_of(content),
    }
}

/// Why a file's content is not what its entry says. Nothing where it is.
pub open spec fn content_fault(entry: JsonView, content: Seq<u8>) -> Option<Seq<char>> {
    match text_of(entry, "Checksum-Algorithm"@) {
        Err(e) => Some(e),
        Ok(s) => match algorithm_of(s) {
            None => Some("unsupported file checksum"@),
            Some(a) => match text_of(entry, "Checksum"@) {
                Err(e) => Some(e),
                Ok(want) => if hex_of(sum_of(content, a)) != want {
                    Some("backup file checksum mismatch"@)
                } else {
                    None
                },
            },
        },
    }
}

/// The sum of a file's content, in hexadecimal digits; that of a CRC by its lowest byte first.
pub fn checksum_file(content: &[u8], a: Algorithm) -> (r: String)
    ensures
        r@ == hex_of(sum_of(content@, a)),
{
    let sum = match a {
        Algorithm::Crc32c => {
            let mut out: Vec<u8> = Vec::new();
            put_u32(&mut out, crc(content));
            proof {
                assert(out@ =~= le(crc32c_of(content@) as nat, 4));
            }
            out
        },
        Algorithm::Sha224 => sha224(content),
        Algorithm::Sha256 => sha256(content),
        Algorithm::Sha384 => sha384(content),
        Algorithm::Sha512 => sha512(content),
    };
    hex(sum.as_slice())
}

/// How the file of this entry is summed. Files without a checksum are refused.
pub fn entry_algorithm(entry: &Json) -> (r: Result<Algorithm, Refusal>)
    ensures
        seen(r) == (match text_of(entry@, "Checksum-Algorithm"@) {
            Err(e) => Err(e),
            Ok(s) => match algorithm_of(s) {
                Some(a) => Ok(a),
                None => Err("unsupported file checksum"@),
            },
        }),
{
    match text(entry, "Checksum-Algorithm") {
        Ok(s) => algorithm(s),
        Err(e) => Err(e),
    }
}

} // verus!
