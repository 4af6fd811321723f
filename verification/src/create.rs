//! Founding an archive: from a database that was shut down cleanly to the first head.
use crate::archive::MAX_CHUNK;
use crate::decode::{
    first_record, last_record, lemma_frontier_is_complete, records_read, Reading,
};
use crate::http::immutable_key;
use crate::json::{Json, JsonView};
use crate::manifest_text::{body, body_of};
use crate::memory_wal::Segment;
use crate::publish::{
    backup, backup_of, descriptor, descriptor_of, first_head, root_head, text_value,
};
use crate::refusal::{refuse, refuse_naming, seen, Refusal};
use crate::restore::{good_segment_size, is_power_of_two};
use crate::select::{segment_base, segment_start};
use crate::text::{decimal, push_dec, same_text};
use crate::wire::{digest_of, push_upper_hex_padded, upper_hex_padded};
use vstd::prelude::*;
use vstd::slice::{slice_subrange, slice_to_vec};

verus! {

/// The most bytes that the archive of a backup may have.
pub const MAX_BACKUP: usize = 268435456;

/// The most bytes that the manifest of a backup may have.
pub const MAX_MANIFEST: usize = 67108864;

/// What the control file of a database says.
pub struct Shutdown {
    /// Its checksum is right.
    pub valid: bool,
    /// The database was shut down cleanly.
    pub clean: bool,
    pub version: u32,
    pub catalog: u32,
    pub timeline: u32,
    pub checkpoint: u64,
    pub redo: u64,
    pub backup_start: u64,
    pub backup_end_required: bool,
    pub segment_bytes: u32,
    pub system_identifier: u64,
}

impl Shutdown {
    /// An archive may be founded on the database: it was shut down cleanly on its first
    /// timeline, and memory holds at least eight segments of its log.
    pub open spec fn founds(&self, version: u32, catalog: u32, limit: nat) -> bool {
        &&& self.valid
        &&& self.clean
        &&& self.version == version
        &&& self.catalog == catalog
        &&& self.timeline == 1
        &&& self.redo == self.checkpoint
        &&& self.backup_start == 0
        &&& !self.backup_end_required
        &&& good_segment_size(self.segment_bytes as nat)
        &&& self.segment_bytes <= limit / 8
    }

    /// Checks the control file of a database that an archive is to be founded on.
    pub fn check(&self, version: u32, catalog: u32, limit: usize) -> (r: Result<(), Refusal>)
        ensures
            seen(r) == (if self.founds(version, catalog, limit as nat) {
                Ok(())
            } else {
                Err(
                    "creation requires a cleanly shut down timeline-one database with a valid checkpoint"@,
                )
            }),
    {
        if !self.valid || !self.clean || self.version != version || self.catalog != catalog
            || self.timeline != 1 || self.redo != self.checkpoint || self.backup_start != 0
            || self.backup_end_required || self.segment_bytes < 1048576 || self.segment_bytes
            > 1073741824 || !is_power_of_two(self.segment_bytes as u64) || self.segment_bytes
            as u64 > (limit / 8) as u64 {
            return Err(
                refuse(
                    "creation requires a cleanly shut down timeline-one database with a valid checkpoint",
                ),
            );
        }
        Ok(())
    }

    /// The segment that holds the checkpoint.
    pub open spec fn segment(&self) -> u64 {
        (self.checkpoint as nat / self.segment_bytes as nat) as u64
    }

    /// The name of the file that holds the segment with the checkpoint.
    pub fn segment_name(&self) -> (r: String)
        requires
            0 < self.segment_bytes <= 1073741824,
        ensures
            r@ == segment_file(self.segment(), self.segment_bytes as nat),
    {
        let seg: u64 = self.checkpoint / self.segment_bytes as u64;
        let per_id: u64 = 0x1_0000_0000 / self.segment_bytes as u64;
        proof {
            assert(0x1_0000_0000u64 / (self.segment_bytes as u64) >= 4) by (nonlinear_arith)
                requires
                    0 < self.segment_bytes <= 1073741824,
            ;
        }
        let mut name = "00000001".to_owned();
        push_upper_hex_padded(&mut name, seg / per_id, 8);
        push_upper_hex_padded(&mut name, seg % per_id, 8);
        proof {
            assert(name@ =~= segment_file(self.segment(), self.segment_bytes as nat));
        }
        name
    }

    /// Takes the segment with the checkpoint as the first log of the archive. `reading` is what
    /// a record reader that began at the checkpoint gave.
    pub fn seed(&self, bytes: Vec<u8>, reading: &Reading) -> (r: Result<Segment, Refusal>)
        requires
            self.segment_bytes > 0,
            bytes@.len() == self.segment_bytes,
        ensures
            match seed_read(
                self.checkpoint,
                self.segment_bytes as nat,
                bytes@.len(),
                *reading,
            ) {
                Err(e) => r matches Err(x) && x@ == e,
                Ok(_) => r matches Ok(s) && s.tli == 1 && s.seg == self.segment() && s.bytes@
                    == bytes@,
            },
    {
        let size: usize = self.segment_bytes as usize;
        let seg: u64 = self.checkpoint / self.segment_bytes as u64;
        let base: u64 = segment_base(self.checkpoint, size);
        if base > u64::MAX - bytes.len() as u64 {
            return Err(refuse("invalid initial WAL segment"));
        }
        let (record, end) = match first_record(
            bytes.as_slice(),
            base,
            self.checkpoint,
            size,
            reading,
        ) {
            Ok(p) => p,
            Err(e) => return Err(e),
        };
        if record != self.checkpoint || end <= record {
            return Err(refuse("initial checkpoint WAL is incomplete"));
        }
        Ok(Segment { tli: 1, seg, bytes })
    }
}

/// The name of the file that holds segment `seg` of the first timeline.
pub open spec fn segment_file(seg: u64, segment_bytes: nat) -> Seq<char> {
    let per_id = 0x1_0000_0000nat / segment_bytes;
    "00000001"@ + upper_hex_padded(seg as nat / per_id, 8) + upper_hex_padded(
        seg as nat % per_id,
        8,
    )
}

/// What the segment with the checkpoint comes to: the checkpoint must be a complete record.
pub open spec fn seed_read(checkpoint: u64, size: nat, len: nat, reading: Reading) -> Result<
    (),
    Seq<char>,
> {
    let base = segment_start(checkpoint, size);
    if base + len > u64::MAX {
        Err("invalid initial WAL segment"@)
    } else {
        match records_read(
            len,
            base,
            (base + len) as u64,
            checkpoint,
            size,
            reading,
            true,
        ) {
            Err(e) => Err(e),
            Ok((record, end)) => if record != checkpoint || end <= record {
                Err("initial checkpoint WAL is incomplete"@)
            } else {
                Ok(())
            },
        }
    }
}

/// A file that an archive is not founded over.
pub open spec fn refused_file(name: Seq<char>) -> bool {
    name == "recovery.signal"@ || name == "standby.signal"@ || name == "backup_label"@ || name
        == "pgrust.memory_wal"@
}

/// Checks a name in the data directory.
pub fn check_name(name: &str) -> (r: Result<(), Refusal>)
    ensures
        seen(r) == (if refused_file(name@) {
            Err("creation refuses "@ + name@)
        } else {
            Ok(())
        }),
{
    if same_text(name, "recovery.signal") || same_text(name, "standby.signal") || same_text(
        name,
        "backup_label",
    ) || same_text(name, "pgrust.memory_wal") {
        return Err(refuse_naming("creation refuses ", name));
    }
    Ok(())
}

/// Checks where the log of a database is: in its own directory, which is no link, and there
/// are no tablespaces elsewhere.
pub fn check_layout(wal_is_link: bool, has_tablespaces: bool) -> (r: Result<(), Refusal>)
    ensures
        seen(r) == (if wal_is_link || has_tablespaces {
            Err("creation requires local WAL and no external tablespaces"@)
        } else {
            Ok(())
        }),
{
    if wal_is_link || has_tablespaces {
        return Err(refuse("creation requires local WAL and no external tablespaces"));
    }
    Ok(())
}

/// Checks the file that holds the segment with the checkpoint.
pub fn check_segment_file(is_file: bool, len: u64, segment_bytes: u32) -> (r: Result<(), Refusal>)
    ensures
        seen(r) == (if !is_file || len != segment_bytes {
            Err("invalid initial WAL segment"@)
        } else {
            Ok(())
        }),
{
    if !is_file || len != segment_bytes as u64 {
        return Err(refuse("invalid initial WAL segment"));
    }
    Ok(())
}

/// A backup as it comes in.
pub struct Capture {
    pub archive: Vec<u8>,
    pub manifest: Vec<u8>,
    pub start: u64,
    pub end: u64,
    pub timeline: u32,
}

/// Appends what comes in, up to a limit.
pub fn append(out: &mut Vec<u8>, bytes: &[u8], limit: usize) -> (r: Result<(), Refusal>)
    ensures
        if old(out)@.len() + bytes@.len() <= limit || bytes@.len() == 0 {
            r is Ok && final(out)@ == old(out)@ + bytes@
        } else {
            seen(r) == Err::<(), Seq<char>>("native backup capture exceeds archive limit"@)
                && final(out)@ == old(out)@
        },
{
    let left: usize = if limit > out.len() {
        limit - out.len()
    } else {
        0
    };
    if bytes.len() > left {
        return Err(refuse("native backup capture exceeds archive limit"));
    }
    let ghost before = out@;
    out.extend_from_slice(bytes);
    proof {
        assert(out@ =~= before + bytes@);
    }
    Ok(())
}

impl Capture {
    /// Nothing came in yet.
    pub fn new() -> (r: Capture)
        ensures
            r.archive@ == Seq::<u8>::empty(),
            r.manifest@ == Seq::<u8>::empty(),
            r.start == 0,
            r.end == 0,
            r.timeline == 0,
    {
        Capture { archive: Vec::new(), manifest: Vec::new(), start: 0, end: 0, timeline: 0 }
    }

    /// A backup begins at `start` of `timeline`. The main directory counts as a tablespace.
    pub fn begin_backup(&mut self, tablespaces: usize, start: u64, timeline: u32) -> (r: Result<
        (),
        Refusal,
    >)
        ensures
            if tablespaces != 1 {
                seen(r) == Err::<(), Seq<char>>("object backup requires no tablespaces"@)
                    && *final(self) == *old(self)
            } else {
                r is Ok && *final(self) == (Capture { start, timeline, ..*old(self) })
            },
    {
        if tablespaces != 1 {
            return Err(refuse("object backup requires no tablespaces"));
        }
        self.start = start;
        self.timeline = timeline;
        Ok(())
    }

    /// An archive called `name` begins.
    pub fn begin_archive(&self, name: &str) -> (r: Result<(), Refusal>)
        ensures
            seen(r) == (if name@ != "base.tar"@ {
                Err("unexpected native backup archive"@)
            } else {
                Ok(())
            }),
    {
        if !same_text(name, "base.tar") {
            return Err(refuse("unexpected native backup archive"));
        }
        Ok(())
    }

    /// More of the archive comes in.
    pub fn archive_contents(&mut self, bytes: &[u8]) -> (r: Result<(), Refusal>)
        ensures
            final(self).manifest == old(self).manifest,
            final(self).start == old(self).start,
            final(self).end == old(self).end,
            final(self).timeline == old(self).timeline,
            if old(self).archive@.len() + bytes@.len() <= MAX_BACKUP || bytes@.len() == 0 {
                r is Ok && final(self).archive@ == old(self).archive@ + bytes@
            } else {
                seen(r) == Err::<(), Seq<char>>("native backup capture exceeds archive limit"@)
                    && final(self).archive@ == old(self).archive@
            },
    {
        append(&mut self.archive, bytes, MAX_BACKUP)
    }

    /// More of the manifest comes in.
    pub fn manifest_contents(&mut self, bytes: &[u8]) -> (r: Result<(), Refusal>)
        ensures
            final(self).archive == old(self).archive,
            final(self).start == old(self).start,
            final(self).end == old(self).end,
            final(self).timeline == old(self).timeline,
            if old(self).manifest@.len() + bytes@.len() <= MAX_MANIFEST || bytes@.len() == 0 {
                r is Ok && final(self).manifest@ == old(self).manifest@ + bytes@
            } else {
                seen(r) == Err::<(), Seq<char>>("native backup capture exceeds archive limit"@)
                    && final(self).manifest@ == old(self).manifest@
            },
    {
        append(&mut self.manifest, bytes, MAX_MANIFEST)
    }

    /// The backup ends at `end` of `timeline`.
    pub fn end_backup(&mut self, end: u64, timeline: u32) -> (r: Result<(), Refusal>)
        ensures
            if timeline != old(self).timeline || end <= old(self).start {
                seen(r) == Err::<(), Seq<char>>("invalid native backup boundary"@)
                    && *final(self) == *old(self)
            } else {
                r is Ok && *final(self) == (Capture { end, ..*old(self) })
            },
    {
        if timeline != self.timeline || end <= self.start {
            return Err(refuse("invalid native backup boundary"));
        }
        self.end = end;
        Ok(())
    }
}

/// What an archive is founded with.
pub struct Founding {
    /// Where the backup begins and ends, and on which timeline.
    pub start: u64,
    pub end: u64,
    pub timeline: u32,
    pub system: u64,
    pub segment: usize,
    /// The digest of the snapshot's manifest, and the address of its inventory.
    pub manifest: String,
    pub image: String,
}

/// The first objects of an archive: the chunk, the descriptor and the backup are stored first,
/// then the head.
pub struct Founded {
    pub chunk: Vec<u8>,
    pub descriptor: Vec<u8>,
    pub backup: Vec<u8>,
    pub head: Json,
}

impl Founding {
    /// Where the log of the archive begins.
    pub open spec fn base(&self) -> u64 {
        segment_start(self.start, self.segment as nat)
    }

    /// Where the log to be read begins, if there is enough of it and not too much. `available`
    /// is how far the log of `timeline` was flushed.
    pub fn window(&self, timeline: u32, available: u64) -> (r: Result<u64, Refusal>)
        requires
            self.segment > 0,
        ensures
            seen(r) == (if timeline != self.timeline || available <= self.base() || available
                - self.base() > MAX_CHUNK {
                Err("initial WAL exceeds publication bounds"@)
            } else {
                Ok(self.base())
            }),
    {
        let base: u64 = segment_base(self.start, self.segment);
        if timeline != self.timeline || available <= base || available - base > MAX_CHUNK {
            return Err(refuse("initial WAL exceeds publication bounds"));
        }
        Ok(base)
    }

    pub open spec fn cluster(&self) -> JsonView {
        JsonView::Text(decimal(self.system as nat))
    }

    /// The descriptor of the first chunk.
    pub open spec fn first_descriptor(&self, record: u64, end: u64, chunk: Seq<u8>) -> JsonView {
        descriptor_of(
            self.cluster(),
            JsonView::Number(self.timeline as u64),
            self.base(),
            end,
            record,
            JsonView::Null,
            digest_of(chunk),
        )
    }

    /// The backup of the archive, whose first descriptor is at the address `tail`.
    pub open spec fn first_backup(&self, record: u64, end: u64, tail: Seq<char>) -> JsonView {
        backup_of(
            self.cluster(),
            self.timeline,
            self.start,
            self.end,
            self.manifest@,
            self.image@,
            self.base(),
            end,
            record,
            JsonView::Text(tail),
            JsonView::Null,
        )
    }

    /// Founds the archive. `bytes` is the log from the base to `available`, `reading` what a
    /// record reader that began at the base gave.
    pub fn publish(
        &self,
        bytes: &[u8],
        available: u64,
        reading: &Reading,
        epoch: &str,
        revision: &str,
    ) -> (r: Result<Founded, Refusal>)
        requires
            self.segment > 0,
            self.start < self.end,
        ensures
            match records_read(
                bytes@.len(),
                self.base(),
                available,
                self.base(),
                self.segment as nat,
                *reading,
                false,
            ) {
                Err(e) => r matches Err(x) && x@ == e,
                Ok((record, end)) => if end < self.end {
                    seen(r) == Err::<Founded, Seq<char>>(
                        "initial WAL does not cover backup completion"@,
                    )
                } else {
                    let chunk = bytes@.take(end - self.base());
                    let d = self.first_descriptor(record, end, chunk);
                    let tail = digest_of(body_of(d));
                    let info = self.first_backup(record, end, tail);
                    &&& r matches Ok(f)
                    &&& f.chunk@ == chunk
                    &&& f.descriptor@ == body_of(d)
                    &&& f.backup@ == body_of(info)
                    &&& f.head@ == root_head(
                        self.cluster(),
                        JsonView::Number(self.timeline as u64),
                        self.base(),
                        end,
                        record,
                        JsonView::Text(tail),
                        digest_of(body_of(info)),
                        JsonView::Text(epoch@),
                        revision@,
                    )
                    &&& f.head@ is Object
                },
            },
    {
        let base: u64 = segment_base(self.start, self.segment);
        let (record, end) = match last_record(bytes, base, available, base, self.segment, reading) {
            Ok(p) => p,
            Err(e) => return Err(e),
        };
        if end < self.end {
            return Err(refuse("initial WAL does not cover backup completion"));
        }
        proof {
            lemma_frontier_is_complete(reading.records@, available, false);
            assert(available - base == bytes@.len());
        }
        assert(end - base <= bytes.len());
        let chunk = slice_subrange(bytes, 0, (end - base) as usize);
        proof {
            assert(chunk@ =~= bytes@.take(end - base));
        }
        let mut cluster = String::new();
        push_dec(&mut cluster, self.system);
        proof {
            assert(cluster@ =~= decimal(self.system as nat));
        }
        let (address, _key) = immutable_key("chunks", chunk);
        let d = descriptor(
            text_value(cluster.as_str()),
            Json::Number(self.timeline as u64),
            base,
            end,
            record,
            Json::Null,
            address.as_str(),
        );
        let stored = body(&d);
        let (tail, _key) = immutable_key("descriptors", stored.as_slice());
        let info = backup(
            text_value(cluster.as_str()),
            self.timeline,
            self.start,
            self.end,
            self.manifest.as_str(),
            self.image.as_str(),
            base,
            end,
            record,
            text_value(tail.as_str()),
            Json::Null,
        );
        let saved = body(&info);
        let (place, _key) = immutable_key("backups", saved.as_slice());
        let head = first_head(
            text_value(cluster.as_str()),
            Json::Number(self.timeline as u64),
            base,
            end,
            record,
            text_value(tail.as_str()),
            place.as_str(),
            text_value(epoch),
            revision,
        );
        Ok(Founded { chunk: slice_to_vec(chunk), descriptor: stored, backup: saved, head })
    }
}

} // verus!
