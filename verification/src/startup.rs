//! Starting a server from an archive, or founding one: which settings are accepted, and what
//! recovery is told to do.
use crate::archive::{num, num_of};
use crate::http::{
    address, check_endpoint, check_prefix, endpoint_fault, good_prefix, is_address, is_owned,
    owned_key, url_parts, Object,
};
use crate::json::Json;
use crate::refusal::{refuse, seen, Refusal};
use crate::text::{decimal, push_dec, same_text};
use crate::wire::{digest, digest_of, lsn_chars, lsn_text, setting};
use vstd::prelude::*;

verus! {

/// How the log is kept and where the archive is.
pub struct Settings {
    /// The object store is used at all.
    pub enabled: bool,
    /// An archive is to be founded.
    pub create: bool,
    pub strict: bool,
    pub memory_wal_mb: i32,
    pub restart_after_crash: bool,
    pub hot_standby: bool,
    pub archive_mode: i32,
    /// The log holds what a replica needs, and no more.
    pub replica_wal: bool,
    pub endpoint: Option<String>,
    pub bucket: Option<String>,
    pub region: Option<String>,
    pub prefix: Option<String>,
    pub fenced_head: Option<String>,
}

/// Where an archive is.
pub struct Location {
    pub endpoint: String,
    pub bucket: String,
    pub region: String,
    pub prefix: String,
}

/// What a setting that must be there is.
pub open spec fn required(value: Option<String>, name: Seq<char>) -> Result<Seq<char>, Seq<char>> {
    match value {
        Some(v) => if v@.len() > 0 {
            Ok(v@)
        } else {
            Err(name + " is required"@)
        },
        None => Err(name + " is required"@),
    }
}

impl Settings {
    /// The server keeps its log as an archive needs it.
    pub open spec fn suitable(&self) -> bool {
        &&& self.strict
        &&& self.memory_wal_mb > 0
        &&& !self.restart_after_crash
        &&& !self.hot_standby
        &&& self.archive_mode == 0
        &&& self.replica_wal
    }

    /// Whether the object store is used. Nothing can be created without it.
    pub fn wanted(&self) -> (r: Result<bool, Refusal>)
        ensures
            seen(r) == (if self.enabled {
                Ok(true)
            } else if self.create {
                Err("s3_create requires pgrust.s3"@)
            } else {
                Ok(false)
            }),
    {
        if self.enabled {
            return Ok(true);
        }
        if self.create {
            return Err(refuse("s3_create requires pgrust.s3"));
        }
        Ok(false)
    }

    /// Checks how the server keeps its log.
    pub fn check(&self) -> (r: Result<(), Refusal>)
        ensures
            seen(r) == (if self.suitable() {
                Ok(())
            } else {
                Err(
                    "S3 requires strict completion, memory WAL, replica WAL, restart_after_crash=off, hot_standby=off, archive_mode=off"@,
                )
            }),
    {
        if !self.strict || self.memory_wal_mb <= 0 || self.restart_after_crash || self.hot_standby
            || self.archive_mode != 0 || !self.replica_wal {
            return Err(
                refuse(
                    "S3 requires strict completion, memory WAL, replica WAL, restart_after_crash=off, hot_standby=off, archive_mode=off",
                ),
            );
        }
        Ok(())
    }

    /// The region: there is one even where none is set.
    pub open spec fn region_name(&self) -> Seq<char> {
        match self.region {
            Some(r) => if r@.len() > 0 {
                r@
            } else {
                "us-east-1"@
            },
            None => "us-east-1"@,
        }
    }

    /// Where the archive is, or what is wrong with the settings that say so.
    pub open spec fn located(&self) -> Result<
        (Seq<char>, Seq<char>, Seq<char>, Seq<char>),
        Seq<char>,
    > {
        match required(self.endpoint, "pgrust.s3_endpoint"@) {
            Err(e) => Err(e),
            Ok(endpoint) => match required(self.bucket, "pgrust.s3_bucket"@) {
                Err(e) => Err(e),
                Ok(bucket) => match required(self.prefix, "pgrust.s3_prefix"@) {
                    Err(e) => Err(e),
                    Ok(prefix) => match endpoint_fault(url_parts(endpoint)) {
                        Some(e) => Err(e),
                        None => if !good_prefix(prefix) {
                            Err("S3 prefix must be nonempty, relative and end in /"@)
                        } else {
                            Ok((endpoint, bucket, self.region_name(), prefix))
                        },
                    },
                },
            },
        }
    }

    /// Where the archive is.
    pub fn location(&self) -> (r: Result<Location, Refusal>)
        ensures
            match self.located() {
                Err(e) => r matches Err(x) && x@ == e,
                Ok((endpoint, bucket, region, prefix)) => {
                    &&& r matches Ok(l)
                    &&& l.endpoint@ == endpoint
                    &&& l.bucket@ == bucket
                    &&& l.region@ == region
                    &&& l.prefix@ == prefix
                },
            },
    {
        let endpoint = match setting(self.endpoint.clone(), "pgrust.s3_endpoint") {
            Ok(s) => s,
            Err(e) => return Err(e),
        };
        let bucket = match setting(self.bucket.clone(), "pgrust.s3_bucket") {
            Ok(s) => s,
            Err(e) => return Err(e),
        };
        let region = match &self.region {
            Some(r) => if r.as_str().is_empty() {
                "us-east-1".to_owned()
            } else {
                r.clone()
            },
            None => "us-east-1".to_owned(),
        };
        let prefix = match setting(self.prefix.clone(), "pgrust.s3_prefix") {
            Ok(s) => s,
            Err(e) => return Err(e),
        };
        match check_endpoint(endpoint.as_str()) {
            Ok(_) => {},
            Err(e) => return Err(e),
        }
        match check_prefix(prefix.as_str()) {
            Ok(_) => {},
            Err(e) => return Err(e),
        }
        Ok(Location { endpoint, bucket, region, prefix })
    }

    /// How many bytes of log memory may hold.
    pub fn memory_limit(&self) -> (r: Option<usize>)
        ensures
            match r {
                Some(n) => n == self.memory_wal_mb * 1048576,
                None => self.memory_wal_mb < 0 || self.memory_wal_mb * 1048576 > usize::MAX,
            },
    {
        if self.memory_wal_mb < 0 {
            return None;
        }
        (self.memory_wal_mb as usize).checked_mul(1048576)
    }

    /// Checks that an archive may be founded: nobody fenced another, and there is none.
    pub fn check_creation(&self, head_exists: bool) -> (r: Result<(), Refusal>)
        ensures
            seen(r) == (if required(self.fenced_head, "pgrust.s3_fenced_head"@) is Ok {
                Err("creation must not supply a replacement authorization"@)
            } else if head_exists {
                Err("S3 archive already exists"@)
            } else {
                Ok(())
            }),
    {
        match &self.fenced_head {
            Some(v) => if !v.as_str().is_empty() {
                return Err(refuse("creation must not supply a replacement authorization"));
            },
            None => {},
        }
        if head_exists {
            return Err(refuse("S3 archive already exists"));
        }
        Ok(())
    }

    /// The head that the operator saw after stopping the previous server.
    pub fn fenced(&self) -> (r: Result<String, Refusal>)
        ensures
            match required(self.fenced_head, "pgrust.s3_fenced_head"@) {
                Err(e) => r matches Err(x) && x@ == e,
                Ok(v) => if is_address(v) {
                    r matches Ok(s) && s@ == v
                } else {
                    r matches Err(x) && x@
                        == "fenced head must be SHA256 observed after stopping previous compute"@
                },
            },
    {
        let expected = match setting(self.fenced_head.clone(), "pgrust.s3_fenced_head") {
            Ok(s) => s,
            Err(e) => return Err(e),
        };
        if !address(expected.as_str()) {
            return Err(
                refuse("fenced head must be SHA256 observed after stopping previous compute"),
            );
        }
        Ok(expected)
    }
}

/// Checks a page of the listing of a prefix under which an archive is to be founded. Where the
/// listing goes on from; nothing where it has ended.
pub fn check_unused(keys: &Vec<String>) -> (r: Result<Option<String>, Refusal>)
    ensures
        if exists|i: int| 0 <= i < keys@.len() && is_owned(#[trigger] keys@[i]@) {
            r matches Err(e) && e@
                == "archive prefix contains an incomplete creation; use an unused prefix or clear it after stopping all previous creators"@
        } else if keys@.len() == 0 {
            r matches Ok(None)
        } else {
            r matches Ok(Some(k)) && k@ == keys@.last()@
        },
{
    let mut i: usize = 0;
    while i < keys.len()
        invariant
            i <= keys@.len(),
            forall|j: int| 0 <= j < i ==> !is_owned(#[trigger] keys@[j]@),
        decreases keys@.len() - i,
    {
        if owned_key(keys[i].as_str()) {
            return Err(
                refuse(
                    "archive prefix contains an incomplete creation; use an unused prefix or clear it after stopping all previous creators",
                ),
            );
        }
        i += 1;
    }
    if keys.len() == 0 {
        Ok(None)
    } else {
        Ok(Some(keys[keys.len() - 1].clone()))
    }
}

/// Checks that the head is the one that the operator saw.
pub fn check_fenced(snapshot: &Object, expected: &str) -> (r: Result<(), Refusal>)
    ensures
        seen(r) == (if digest_of(snapshot@.body) == expected@ {
            Ok(())
        } else {
            Err("bucket head differs from the explicitly fenced parent"@)
        }),
{
    if !same_text(digest(snapshot.body.as_slice()).as_str(), expected) {
        return Err(refuse("bucket head differs from the explicitly fenced parent"));
    }
    Ok(())
}

/// Checks that memory holds enough segments for the backup to be replaced in time.
pub fn check_capacity(segment: usize, limit: usize) -> (r: Result<(), Refusal>)
    ensures
        seen(r) == (if segment > limit / 8 {
            Err("S3 renewal requires memory WAL capacity for at least eight segments"@)
        } else {
            Ok(())
        }),
{
    if segment > limit / 8 {
        return Err(refuse("S3 renewal requires memory WAL capacity for at least eight segments"));
    }
    Ok(())
}

/// Checks that the head did not move while the archive was restored.
pub fn check_unmoved(current: &Object, restored: &Object) -> (r: Result<(), Refusal>)
    ensures
        seen(r) == (if current@ == restored@ {
            Ok(())
        } else {
            Err("bucket changed during restore"@)
        }),
{
    if !current.same(restored) {
        return Err(refuse("bucket changed during restore"));
    }
    Ok(())
}

/// A setting of recovery, and its value.
pub type Choice = (String, String);

pub open spec fn choices_view(c: Seq<Choice>) -> Seq<(Seq<char>, Seq<char>)> {
    Seq::new(c.len(), |i: int| (c[i].0@, c[i].1@))
}

/// What recovery is told: to replay up to the last record, which begins at `record`, and to go
/// on from there as a server of its own.
pub open spec fn recovery_choices(record: u64, timeline: u64) -> Seq<(Seq<char>, Seq<char>)> {
    seq![
        ("restore_command"@, Seq::empty()),
        ("recovery_target_lsn"@, lsn_chars(record)),
        ("recovery_target_timeline"@, decimal(timeline as nat)),
        ("recovery_target_inclusive"@, "true"@),
        ("recovery_target_action"@, "promote"@),
        ("recovery_target"@, Seq::empty()),
        ("recovery_target_name"@, Seq::empty()),
        ("recovery_target_time"@, Seq::empty()),
        ("recovery_target_xid"@, Seq::empty()),
    ]
}

fn choice(name: &str, value: String) -> (r: Choice)
    ensures
        r.0@ == name@,
        r.1@ == value@,
{
    (name.to_owned(), value)
}

/// What recovery is told to do for an archive with this head.
pub fn recovery_settings(head: &Json) -> (r: Result<Vec<Choice>, Refusal>)
    ensures
        match num_of(head@, "record_start"@) {
            Err(e) => r matches Err(x) && x@ == e,
            Ok(record) => match num_of(head@, "timeline"@) {
                Err(e) => r matches Err(x) && x@ == e,
                Ok(timeline) => r matches Ok(c) && choices_view(c@) == recovery_choices(
                    record,
                    timeline,
                ),
            },
        },
{
    let record: u64 = match num(head, "record_start") {
        Ok(n) => n,
        Err(e) => return Err(e),
    };
    let timeline: u64 = match num(head, "timeline") {
        Ok(n) => n,
        Err(e) => return Err(e),
    };
    let mut number = String::new();
    push_dec(&mut number, timeline);
    let mut c: Vec<Choice> = Vec::new();
    c.push(choice("restore_command", String::new()));
    c.push(choice("recovery_target_lsn", lsn_text(record)));
    c.push(choice("recovery_target_timeline", number));
    c.push(choice("recovery_target_inclusive", "true".to_owned()));
    c.push(choice("recovery_target_action", "promote".to_owned()));
    c.push(choice("recovery_target", String::new()));
    c.push(choice("recovery_target_name", String::new()));
    c.push(choice("recovery_target_time", String::new()));
    c.push(choice("recovery_target_xid", String::new()));
    proof {
        let v = choices_view(c@);
        let w = recovery_choices(record, timeline);
        assert(number@ =~= decimal(timeline as nat));
        assert(v.len() == 9 && w.len() == 9);
        assert forall|i: int| 0 <= i < 9 implies v[i].0 =~= w[i].0 && v[i].1 =~= w[i].1 by {}
        assert forall|i: int| 0 <= i < 9 implies v[i] == w[i] by {
            assert(v[i].0 =~= w[i].0 && v[i].1 =~= w[i].1);
        }
        assert(v =~= w);
    }
    Ok(c)
}

/// The name of the file whose lock a launch holds, beside the data directory called `name`.
pub fn lock_name(name: &str) -> (r: String)
    ensures
        r@ == "."@ + name@ + ".object-wal.lock"@,
{
    let mut r = ".".to_owned();
    r.append(name);
    r.append(".object-wal.lock");
    r
}

/// The name of the directory that a restore builds up, beside the data directory called `name`.
pub fn stage_name(name: &str, fresh: &str) -> (r: String)
    ensures
        r@ == "."@ + name@ + ".restore-"@ + fresh@,
{
    let mut r = ".".to_owned();
    r.append(name);
    r.append(".restore-");
    r.append(fresh);
    r
}

} // verus!
