//! Restoring a log from its archive: what the backup, the control file and the chain of
//! descriptors must satisfy, and how chunks become segments again.
use crate::archive::{history_of, history_rows, num, num_of, text, text_of, MAX_CHUNK, MAX_CHUNKS};
use crate::json::{field, list_view, same_field, Json, JsonView};
use crate::refusal::{refuse, Refusal};
use crate::text::{chars_of, decimal, push_dec, same_text};
use crate::wire::{lsn, lsn_value};
use vstd::prelude::*;

verus! {

pub open spec fn bad_backup() -> Seq<char> {
    "backup does not match published history"@
}

pub open spec fn bad_seed() -> Seq<char> {
    "invalid backup seed bounds"@
}

/// What is wrong with the backup `info` for the history from `root` to `head`.
pub open spec fn backup_fault(head: JsonView, root: JsonView, info: JsonView) -> Option<Seq<char>> {
    if info.at("parent"@) != JsonView::Null || !(info.at("image"@) is Text) {
        Some("unsupported archive: a flat native snapshot is required"@)
    } else if info.at("version"@) != head.at("version"@) || info.at("cluster"@) != head.at(
        "cluster"@,
    ) || info.at("timeline"@) != root.at("timeline"@) {
        Some(bad_backup())
    } else {
        match (num_of(head, "start"@), num_of(info, "start"@)) {
            (Err(e), _) => Some(e),
            (_, Err(e)) => Some(e),
            (Ok(hs), Ok(is)) => if hs > is {
                Some(bad_backup())
            } else {
                match num_of(info, "end"@) {
                    Err(e) => Some(e),
                    Ok(ie) => if is >= ie {
                        Some(bad_backup())
                    } else {
                        match num_of(root, "end"@) {
                            Err(e) => Some(e),
                            Ok(re) => if ie > re {
                                Some(bad_backup())
                            } else {
                                match num_of(head, "record_start"@) {
                                    Err(e) => Some(e),
                                    Ok(rec) => if rec < is {
                                        Some(bad_backup())
                                    } else {
                                        seed_fault(head, info, is, ie, re)
                                    },
                                }
                            },
                        }
                    },
                }
            },
        }
    }
}

/// What is wrong with the log that the backup was published with.
pub open spec fn seed_fault(head: JsonView, info: JsonView, is: u64, ie: u64, re: u64) -> Option<
    Seq<char>,
> {
    if info.at("archive_start"@) != head.at("start"@) {
        Some(bad_seed())
    } else {
        match num_of(info, "seed_end"@) {
            Err(e) => Some(e),
            Ok(se) => if se < ie || se > re {
                Some(bad_seed())
            } else {
                match num_of(info, "seed_record_start"@) {
                    Err(e) => Some(e),
                    Ok(sr) => if sr < is || sr >= se {
                        Some(bad_seed())
                    } else {
                        None
                    },
                }
            },
        }
    }
}

/// Whether a backup is one that the history from the last of `nodes` to `head` can be restored
/// from, and which history file the root timeline has, if it has one.
pub open spec fn eligible(head: JsonView, root: JsonView, info: JsonView) -> Result<
    Option<Seq<char>>,
    Seq<char>,
> {
    match backup_fault(head, root, info) {
        Some(e) => Err(e),
        None => match num_of(root, "timeline"@) {
            Err(e) => Err(e),
            Ok(t) => if t > 1 {
                match text_of(info, "root_history"@) {
                    Err(e) => Err(e),
                    Ok(k) => Ok(Some(k)),
                }
            } else if info.at("root_history"@) != JsonView::Null {
                Err("unexpected root history"@)
            } else {
                Ok(None)
            },
        },
    }
}

pub open spec fn name_result(r: Result<Option<String>, Refusal>) -> Result<
    Option<Seq<char>>,
    Seq<char>,
> {
    match r {
        Ok(Some(s)) => Ok(Some(s@)),
        Ok(None) => Ok(None),
        Err(e) => Err(e@),
    }
}

fn check_backup(head: &Json, root: &Json, info: &Json) -> (r: Result<(), Refusal>)
    ensures
        match r {
            Ok(_) => backup_fault(head@, root@, info@) is None,
            Err(e) => backup_fault(head@, root@, info@) == Some(e@),
        },
{
    let image = field(info, "image");
    if !field(info, "parent").is_null() || image.as_str().is_none() {
        return Err(refuse("unsupported archive: a flat native snapshot is required"));
    }
    let bad = "backup does not match published history";
    if !same_field(info, head, "version") || !same_field(info, head, "cluster") || !same_field(
        info,
        root,
        "timeline",
    ) {
        return Err(refuse(bad));
    }
    let hs: u64 = match num(head, "start") {
        Ok(n) => n,
        Err(e) => return Err(e),
    };
    let is: u64 = match num(info, "start") {
        Ok(n) => n,
        Err(e) => return Err(e),
    };
    if hs > is {
        return Err(refuse(bad));
    }
    let ie: u64 = match num(info, "end") {
        Ok(n) => n,
        Err(e) => return Err(e),
    };
    if is >= ie {
        return Err(refuse(bad));
    }
    let re: u64 = match num(root, "end") {
        Ok(n) => n,
        Err(e) => return Err(e),
    };
    if ie > re {
        return Err(refuse(bad));
    }
    let rec: u64 = match num(head, "record_start") {
        Ok(n) => n,
        Err(e) => return Err(e),
    };
    if rec < is {
        return Err(refuse(bad));
    }
    let bad = "invalid backup seed bounds";
    if !field(info, "archive_start").same(&field(head, "start")) {
        return Err(refuse(bad));
    }
    let se: u64 = match num(info, "seed_end") {
        Ok(n) => n,
        Err(e) => return Err(e),
    };
    if se < ie || se > re {
        return Err(refuse(bad));
    }
    let sr: u64 = match num(info, "seed_record_start") {
        Ok(n) => n,
        Err(e) => return Err(e),
    };
    if sr < is || sr >= se {
        return Err(refuse(bad));
    }
    Ok(())
}

/// Checks the backup that `head` names, and gives the address of the root timeline's history
/// where there is one to fetch.
pub fn eligibility(head: &Json, nodes: &Vec<Json>, info: &Json) -> (r: Result<
    Option<String>,
    Refusal,
>)
    requires
        nodes@.len() > 0,
    ensures
        name_result(r) == eligible(head@, nodes@.last()@, info@),
{
    let root = &nodes[nodes.len() - 1];
    match check_backup(head, root, info) {
        Ok(_) => {},
        Err(e) => return Err(e),
    }
    let t: u64 = match num(root, "timeline") {
        Ok(n) => n,
        Err(e) => return Err(e),
    };
    if t > 1 {
        match text(info, "root_history") {
            Ok(k) => Ok(Some(k.to_owned())),
            Err(e) => Err(e),
        }
    } else if !field(info, "root_history").is_null() {
        Err(refuse("unexpected root history"))
    } else {
        Ok(None)
    }
}

/// Timelines rise and positions do not fall from row to row.
pub open spec fn rising(rows: Seq<(u64, u64)>) -> bool {
    forall|i: int|
        0 <= i < rows.len() - 1 ==> (#[trigger] rows[i]).0 < rows[i + 1].0 && rows[i].1 <= rows[i
            + 1].1
}

/// What is wrong with the history file of the root timeline.
pub open spec fn root_history_fault(head: JsonView, root: JsonView, history: Seq<u8>) -> Option<
    Seq<char>,
> {
    match history_of(history) {
        Err(e) => Some(e),
        Ok(rows) => if rows.len() == 0 || rows[0].0 != 1 {
            Some("invalid root timeline history"@)
        } else {
            match num_of(root, "timeline"@) {
                Err(e) => Some(e),
                Ok(t) => if rows.last().0 >= t {
                    Some("invalid root timeline history"@)
                } else {
                    match num_of(head, "start"@) {
                        Err(e) => Some(e),
                        Ok(start) => if rows.last().1 > start || !rising(rows) {
                            Some("invalid root timeline history"@)
                        } else {
                            None
                        },
                    }
                },
            }
        },
    }
}

/// Checks the history file of the root timeline.
pub fn check_root_history(head: &Json, nodes: &Vec<Json>, history: &[u8]) -> (r: Result<
    (),
    Refusal,
>)
    requires
        nodes@.len() > 0,
    ensures
        match r {
            Ok(_) => root_history_fault(head@, nodes@.last()@, history@) is None,
            Err(e) => root_history_fault(head@, nodes@.last()@, history@) == Some(e@),
        },
{
    let bad = "invalid root timeline history";
    let rows = match history_rows(history) {
        Ok(v) => v,
        Err(e) => return Err(e),
    };
    if rows.len() == 0 || rows[0].0 != 1 {
        return Err(refuse(bad));
    }
    let t: u64 = match num(&nodes[nodes.len() - 1], "timeline") {
        Ok(n) => n,
        Err(e) => return Err(e),
    };
    let last: usize = rows.len() - 1;
    if rows[last].0 >= t {
        return Err(refuse(bad));
    }
    let start: u64 = match num(head, "start") {
        Ok(n) => n,
        Err(e) => return Err(e),
    };
    if rows[last].1 > start {
        return Err(refuse(bad));
    }
    let mut i: usize = 0;
    while i < last
        invariant
            i <= last == rows@.len() - 1,
            history_of(history@) == Ok::<Seq<(u64, u64)>, Seq<char>>(rows@),
            rows@[0].0 == 1,
            num_of(nodes@.last()@, "timeline"@) == Ok::<u64, Seq<char>>(t),
            num_of(head@, "start"@) == Ok::<u64, Seq<char>>(start),
            rows@[last as int].0 < t,
            rows@[last as int].1 <= start,
            forall|j: int|
                0 <= j < i ==> (#[trigger] rows@[j]).0 < rows@[j + 1].0 && rows@[j].1 <= rows@[j
                    + 1].1,
            bad@ == "invalid root timeline history"@,
        decreases last - i,
    {
        if rows[i].0 >= rows[i + 1].0 || rows[i].1 > rows[i + 1].1 {
            proof {
                assert(!rising(rows@)) by {
                    assert(!(rows@[i as int].0 < rows@[i + 1].0 && rows@[i as int].1 <= rows@[i
                        + 1].1));
                }
            }
            return Err(refuse(bad));
        }
        i += 1;
    }
    Ok(())
}

/// What is wrong with a backup manifest for the backup `info`.
pub open spec fn manifest_fault(info: JsonView, manifest: JsonView) -> Option<Seq<char>> {
    match manifest.at("WAL-Ranges"@) {
        JsonView::List(ranges) => if ranges.len() != 1 {
            Some(bad_manifest())
        } else {
            match (num_of(manifest, "System-Identifier"@), text_of(info, "cluster"@)) {
                (Err(e), _) => Some(e),
                (_, Err(e)) => Some(e),
                (Ok(system), Ok(cluster)) => if decimal(system as nat) != cluster {
                    Some(bad_manifest())
                } else {
                    match (num_of(ranges[0], "Timeline"@), num_of(info, "timeline"@)) {
                        (Err(e), _) => Some(e),
                        (_, Err(e)) => Some(e),
                        (Ok(rt), Ok(it)) => if rt != it {
                            Some(bad_manifest())
                        } else {
                            match position_fault(ranges[0], "Start-LSN"@, info, "start"@) {
                                Some(e) => Some(e),
                                None => position_fault(ranges[0], "End-LSN"@, info, "end"@),
                            }
                        },
                    }
                },
            }
        },
        _ => Some("invalid backup ranges"@),
    }
}

pub open spec fn bad_manifest() -> Seq<char> {
    "backup manifest disagrees with eligibility"@
}

/// The position written in field `k` of `range` is the number in field `m` of `info`.
pub open spec fn position_fault(
    range: JsonView,
    k: Seq<char>,
    info: JsonView,
    m: Seq<char>,
) -> Option<Seq<char>> {
    match text_of(range, k) {
        Err(e) => Some(e),
        Ok(s) => match lsn_value(s) {
            Err(e) => Some(e),
            Ok(l) => match num_of(info, m) {
                Err(e) => Some(e),
                Ok(n) => if l != n {
                    Some(bad_manifest())
                } else {
                    None
                },
            },
        },
    }
}

fn check_position(range: &Json, k: &str, info: &Json, m: &str) -> (r: Result<(), Refusal>)
    ensures
        match r {
            Ok(_) => position_fault(range@, k@, info@, m@) is None,
            Err(e) => position_fault(range@, k@, info@, m@) == Some(e@),
        },
{
    let s = match text(range, k) {
        Ok(s) => s,
        Err(e) => return Err(e),
    };
    let l: u64 = match lsn(chars_of(s).as_slice()) {
        Ok(l) => l,
        Err(e) => return Err(e),
    };
    let n: u64 = match num(info, m) {
        Ok(n) => n,
        Err(e) => return Err(e),
    };
    if l != n {
        return Err(refuse("backup manifest disagrees with eligibility"));
    }
    Ok(())
}

/// Checks that a backup manifest is that of the backup `info`.
pub fn check_manifest(info: &Json, manifest: &Json) -> (r: Result<(), Refusal>)
    ensures
        match r {
            Ok(_) => manifest_fault(info@, manifest@) is None,
            Err(e) => manifest_fault(info@, manifest@) == Some(e@),
        },
{
    let bad = "backup manifest disagrees with eligibility";
    let list = field(manifest, "WAL-Ranges");
    let ranges = match list.as_array() {
        Some(l) => l,
        None => return Err(refuse("invalid backup ranges")),
    };
    proof {
        assert(list_view(ranges@).len() == ranges@.len());
    }
    if ranges.len() != 1 {
        return Err(refuse(bad));
    }
    let system: u64 = match num(manifest, "System-Identifier") {
        Ok(n) => n,
        Err(e) => return Err(e),
    };
    let cluster = match text(info, "cluster") {
        Ok(s) => s,
        Err(e) => return Err(e),
    };
    if !is_decimal(cluster, system) {
        return Err(refuse(bad));
    }
    proof {
        assert(list_view(ranges@)[0] == ranges@[0]@);
    }
    let rt: u64 = match num(&ranges[0], "Timeline") {
        Ok(n) => n,
        Err(e) => return Err(e),
    };
    let it: u64 = match num(info, "timeline") {
        Ok(n) => n,
        Err(e) => return Err(e),
    };
    if rt != it {
        return Err(refuse(bad));
    }
    match check_position(&ranges[0], "Start-LSN", info, "start") {
        Ok(_) => {},
        Err(e) => return Err(e),
    }
    check_position(&ranges[0], "End-LSN", info, "end")
}

/// `s` is `n` in decimal.
pub fn is_decimal(s: &str, n: u64) -> (r: bool)
    ensures
        r == (decimal(n as nat) == s@),
{
    let mut t = String::new();
    push_dec(&mut t, n);
    proof {
        assert(t@ =~= decimal(n as nat));
    }
    same_text(t.as_str(), s)
}

/// What the control file of a restored database says.
pub struct Control {
    /// Its checksum is right.
    pub valid: bool,
    pub version: u32,
    pub system_identifier: u64,
    pub segment_bytes: u32,
}

/// `n` is a power of two.
pub open spec fn power_of_two(n: nat) -> bool
    decreases n,
{
    n == 1 || (n > 1 && n % 2 == 0 && power_of_two(n / 2))
}

pub fn is_power_of_two(n: u64) -> (r: bool)
    ensures
        r == power_of_two(n as nat),
    decreases n,
{
    n == 1 || (n > 1 && n % 2 == 0 && is_power_of_two(n / 2))
}

/// A segment size that a server accepts: a power of two from one megabyte to one gigabyte.
pub open spec fn good_segment_size(n: nat) -> bool {
    1048576 <= n <= 1073741824 && power_of_two(n)
}

/// What is wrong with the control file for an archive with this head.
pub open spec fn control_fault(c: Control, expected_version: u32, head: JsonView) -> Option<
    Seq<char>,
> {
    let bad = "invalid control file or WAL segment size"@;
    if !c.valid || c.version != expected_version {
        Some(bad)
    } else {
        match text_of(head, "cluster"@) {
            Err(e) => Some(e),
            Ok(cluster) => if decimal(c.system_identifier as nat) != cluster
                || !good_segment_size(c.segment_bytes as nat) {
                Some(bad)
            } else {
                match num_of(head, "start"@) {
                    Err(e) => Some(e),
                    Ok(start) => if start as nat % c.segment_bytes as nat != 0 {
                        Some(bad)
                    } else {
                        None
                    },
                }
            },
        }
    }
}

/// Checks the control file of a restored database.
pub fn check_control(c: &Control, expected_version: u32, head: &Json) -> (r: Result<(), Refusal>)
    ensures
        match r {
            Ok(_) => control_fault(*c, expected_version, head@) is None,
            Err(e) => control_fault(*c, expected_version, head@) == Some(e@),
        },
{
    let bad = "invalid control file or WAL segment size";
    if !c.valid || c.version != expected_version {
        return Err(refuse(bad));
    }
    let cluster = match text(head, "cluster") {
        Ok(s) => s,
        Err(e) => return Err(e),
    };
    if !is_decimal(cluster, c.system_identifier) || c.segment_bytes < 1048576 || c.segment_bytes
        > 1073741824 || !is_power_of_two(c.segment_bytes as u64) {
        return Err(refuse(bad));
    }
    let start: u64 = match num(head, "start") {
        Ok(n) => n,
        Err(e) => return Err(e),
    };
    if start % c.segment_bytes as u64 != 0 {
        return Err(refuse(bad));
    }
    Ok(())
}

/// How far a walk back along the descriptors has come.
#[verifier::ext_equal]
pub struct ChainView {
    /// The next descriptor to read; null at the beginning of the history.
    pub tail: JsonView,
    /// Where the log that it covers ends.
    pub end: u64,
    /// The head whose timeline it belongs to.
    pub owner: int,
    /// The descriptor that the backup is anchored to has been met.
    pub anchored: bool,
    /// The descriptors read, newest first.
    pub chain: Seq<JsonView>,
}

/// The head that owns the log that ends at `end`: heads whose history ends there are passed,
/// and each must name `tail`.
pub open spec fn settled(nodes: Seq<JsonView>, tail: JsonView, end: u64, owner: int) -> Result<
    int,
    Seq<char>,
>
    decreases nodes.len() - owner,
{
    if 0 <= owner && owner + 1 < nodes.len() {
        match num_of(nodes[owner + 1], "end"@) {
            Err(e) => Err(e),
            Ok(e) => if e != end {
                Ok(owner)
            } else if tail != nodes[owner + 1].at("tail"@) {
                Err("incorrect timeline parent tail"@)
            } else {
                settled(nodes, tail, end, owner + 1)
            },
        }
    } else {
        Ok(owner)
    }
}

/// Which descriptor is read next: nothing at the beginning of the history.
pub open spec fn chain_request(nodes: Seq<JsonView>, s: ChainView) -> Result<
    Option<(int, Seq<char>)>,
    Seq<char>,
> {
    if s.tail == JsonView::Null {
        Ok(None)
    } else if s.chain.len() >= MAX_CHUNKS {
        Err("WAL history capacity exceeded"@)
    } else {
        match settled(nodes, s.tail, s.end, s.owner) {
            Err(e) => Err(e),
            Ok(owner) => match s.tail {
                JsonView::Text(k) => Ok(Some((owner, k))),
                _ => Err("invalid tail"@),
            },
        }
    }
}

/// The descriptor `d` in the place where the walk stands is not what the heads say.
pub open spec fn discontinuous(
    nodes: Seq<JsonView>,
    s: ChainView,
    d: JsonView,
    start: u64,
    rec: u64,
) -> Result<bool, Seq<char>> {
    let head = nodes[0];
    let node = nodes[s.owner];
    if d.at("cluster"@) != head.at("cluster"@) || d.at("timeline"@) != node.at("timeline"@) {
        Ok(true)
    } else {
        match (num_of(d, "end"@), num_of(head, "start"@)) {
            (Err(e), _) => Err(e),
            (Ok(de), hs) => if de != s.end {
                Ok(true)
            } else {
                match hs {
                    Err(e) => Err(e),
                    Ok(hs) => if start < hs || start > rec || rec >= s.end || s.end - start
                        > MAX_CHUNK {
                        Ok(true)
                    } else {
                        misplaced(nodes, s, d, start)
                    },
                }
            },
        }
    }
}

/// The descriptor `d` reaches into the log of another timeline, or does not hold the record
/// that a head ends in.
pub open spec fn misplaced(nodes: Seq<JsonView>, s: ChainView, d: JsonView, start: u64) -> Result<
    bool,
    Seq<char>,
> {
    let head = nodes[0];
    let node = nodes[s.owner];
    let below: Result<bool, Seq<char>> = if s.owner + 1 < nodes.len() {
        match num_of(nodes[s.owner + 1], "end"@) {
            Err(e) => Err(e),
            Ok(pe) => Ok(start < pe),
        }
    } else {
        Ok(false)
    };
    match below {
        Err(e) => Err(e),
        Ok(true) => Ok(true),
        Ok(false) => match num_of(node, "end"@) {
            Err(e) => Err(e),
            Ok(ne) => Ok(
                (s.end == ne && d.at("record_start"@) != node.at("record_start"@)) || (s.chain.len()
                    == 0 && d.at("record_start"@) != head.at("record_start"@)),
            ),
        },
    }
}

/// The walk after descriptor `d` was read, or why it is refused. The owner has been settled.
pub open spec fn chain_step(
    nodes: Seq<JsonView>,
    info: JsonView,
    s: ChainView,
    d: JsonView,
) -> Result<ChainView, Seq<char>> {
    match (num_of(d, "start"@), num_of(d, "record_start"@)) {
        (Err(e), _) => Err(e),
        (_, Err(e)) => Err(e),
        (Ok(start), Ok(rec)) => match discontinuous(nodes, s, d, start, rec) {
            Err(e) => Err(e),
            Ok(true) => Err("discontinuous WAL history"@),
            Ok(false) => {
                let anchor = s.tail == info.at("anchor"@);
                if anchor && (d.at("end"@) != info.at("seed_end"@) || d.at("record_start"@)
                    != info.at("seed_record_start"@) || d.at("timeline"@) != info.at("timeline"@)) {
                    Err("backup anchor mismatch"@)
                } else {
                    Ok(
                        ChainView {
                            tail: d.at("previous"@),
                            end: start,
                            owner: s.owner,
                            anchored: s.anchored || anchor,
                            chain: s.chain.push(d),
                        },
                    )
                }
            },
        },
    }
}

/// Whether a finished walk reached the beginning of the archive through every timeline and
/// met the backup's anchor.
pub open spec fn chain_end_fault(nodes: Seq<JsonView>, s: ChainView) -> Option<Seq<char>> {
    let bad = "incomplete WAL history or missing backup anchor"@;
    if !s.anchored {
        Some(bad)
    } else {
        match num_of(nodes[0], "start"@) {
            Err(e) => Some(e),
            Ok(start) => if s.end != start || s.owner + 1 != nodes.len() {
                Some(bad)
            } else {
                None
            },
        }
    }
}

/// The walk back from `nodes[0]` after the descriptors `ds` were read, newest first.
pub open spec fn walked(nodes: Seq<JsonView>, info: JsonView, ds: Seq<JsonView>) -> Result<
    ChainView,
    Seq<char>,
>
    decreases ds.len(),
{
    if ds.len() == 0 {
        match num_of(nodes[0], "end"@) {
            Err(e) => Err(e),
            Ok(end) => Ok(
                ChainView {
                    tail: nodes[0].at("tail"@),
                    end,
                    owner: 0,
                    anchored: false,
                    chain: Seq::empty(),
                },
            ),
        }
    } else {
        match walked(nodes, info, ds.drop_last()) {
            Err(e) => Err(e),
            Ok(s) => match chain_request(nodes, s) {
                Err(e) => Err(e),
                Ok(None) => Err("the history has begun"@),
                Ok(Some((owner, _))) => chain_step(
                    nodes,
                    info,
                    ChainView { owner, ..s },
                    ds.last(),
                ),
            },
        }
    }
}

/// Some chunks of a log tile it from the position `from` up to `to`: the newest comes first, each
/// ends where the one before it in the list begins, and none is empty or too long.
pub open spec fn tiles(ds: Seq<JsonView>, from: u64, to: u64) -> bool
    decreases ds.len(),
{
    if ds.len() == 0 {
        from == to
    } else {
        match (num_of(ds.last(), "start"@), num_of(ds.last(), "end"@)) {
            (Ok(a), Ok(b)) => {
                &&& a == from
                &&& a < b
                &&& b - a <= MAX_CHUNK
                &&& tiles(ds.drop_last(), b, to)
            },
            _ => false,
        }
    }
}

proof fn lemma_walk_tiles(nodes: Seq<JsonView>, info: JsonView, ds: Seq<JsonView>)
    requires
        walked(nodes, info, ds) is Ok,
    ensures
        ({
            let s = walked(nodes, info, ds)->Ok_0;
            &&& s.chain == ds
            &&& ds.len() <= MAX_CHUNKS
            &&& s.anchored ==> ds.len() > 0
            &&& num_of(nodes[0], "end"@) matches Ok(end) && tiles(ds, s.end, end)
        }),
    decreases ds.len(),
{
    if ds.len() > 0 {
        lemma_walk_tiles(nodes, info, ds.drop_last());
        let s = walked(nodes, info, ds)->Ok_0;
        assert(s.chain =~= ds);
    }
}

/// The chunks of a history that is accepted tile the log from where the archive starts to where
/// its head ends, without a gap and without an overlap. There is at least one and there are at
/// most as many as an archive may have.
pub proof fn lemma_history_tiles_the_log(
    nodes: Seq<JsonView>,
    info: JsonView,
    ds: Seq<JsonView>,
)
    requires
        walked(nodes, info, ds) matches Ok(s) && chain_end_fault(nodes, s) is None,
    ensures
        0 < ds.len() <= MAX_CHUNKS,
        num_of(nodes[0], "start"@) matches Ok(from) && (num_of(nodes[0], "end"@) matches Ok(to)
            && tiles(ds, from, to)),
{
    lemma_walk_tiles(nodes, info, ds);
}

/// In a log that is tiled, every position lies in exactly one chunk.
pub proof fn lemma_tiles_cover_once(ds: Seq<JsonView>, from: u64, to: u64, p: u64)
    requires
        tiles(ds, from, to),
    ensures
        from <= to,
        forall|i: int|
            0 <= i < ds.len() ==> (num_of(#[trigger] ds[i], "start"@) is Ok && num_of(
                ds[i],
                "end"@,
            ) is Ok),
        from <= p < to <==> exists|i: int| 0 <= i < ds.len() && holds_position(#[trigger] ds[i], p),
        forall|i: int, j: int|
            0 <= i < j < ds.len() && holds_position(#[trigger] ds[i], p) ==> !holds_position(
                #[trigger] ds[j],
                p,
            ),
    decreases ds.len(),
{
    if ds.len() > 0 {
        let head = ds.drop_last();
        let last = ds.len() - 1;
        let b = num_of(ds.last(), "end"@)->Ok_0;
        lemma_tiles_cover_once(head, b, to, p);
        assert forall|i: int| 0 <= i < ds.len() implies num_of(#[trigger] ds[i], "start"@) is Ok
            && num_of(ds[i], "end"@) is Ok by {
            if i < last {
                assert(head[i] == ds[i]);
            }
        }
        if from <= p < to {
            if p < b {
                assert(holds_position(ds[last], p));
            } else {
                let i = choose|i: int|
                    0 <= i < head.len() && holds_position(#[trigger] head[i], p);
                assert(holds_position(ds[i], p));
            }
        }
        if exists|i: int| 0 <= i < ds.len() && holds_position(#[trigger] ds[i], p) {
            let i = choose|i: int| 0 <= i < ds.len() && holds_position(#[trigger] ds[i], p);
            if i < last {
                assert(holds_position(head[i], p));
            }
        }
        assert forall|i: int, j: int|
            0 <= i < j < ds.len() && holds_position(#[trigger] ds[i], p) implies !holds_position(
            #[trigger] ds[j],
            p,
        ) by {
            assert(head[i] == ds[i]);
            assert(holds_position(head[i], p));
            if j < last {
                assert(head[j] == ds[j]);
            }
        }
    }
}

/// A descriptor's chunk holds a position of the log.
pub open spec fn holds_position(d: JsonView, p: u64) -> bool {
    match (num_of(d, "start"@), num_of(d, "end"@)) {
        (Ok(a), Ok(b)) => a <= p < b,
        _ => false,
    }
}

/// A walk back along the descriptors of an archive, from its head to its beginning.
pub struct Chain {
    tail: Json,
    end: u64,
    owner: usize,
    anchored: bool,
    chain: Vec<Json>,
}

impl View for Chain {
    type V = ChainView;

    closed spec fn view(&self) -> ChainView {
        ChainView {
            tail: self.tail@,
            end: self.end,
            owner: self.owner as int,
            anchored: self.anchored,
            chain: list_view(self.chain@),
        }
    }
}

impl Chain {
    /// The walk from `head`.
    pub fn begin(head: &Json) -> (r: Result<Chain, Refusal>)
        ensures
            match r {
                Ok(c) => num_of(head@, "end"@) == Ok::<u64, Seq<char>>(c@.end) && c@ == (
                ChainView {
                    tail: head@.at("tail"@),
                    end: c@.end,
                    owner: 0,
                    anchored: false,
                    chain: Seq::empty(),
                }),
                Err(e) => num_of(head@, "end"@) == Err::<u64, Seq<char>>(e@),
            },
    {
        let end: u64 = match num(head, "end") {
            Ok(n) => n,
            Err(e) => return Err(e),
        };
        let c = Chain {
            tail: field(head, "tail"),
            end,
            owner: 0,
            anchored: false,
            chain: Vec::new(),
        };
        proof {
            assert(c@.chain =~= Seq::empty());
        }
        Ok(c)
    }

    /// The address of the descriptor to read next, or nothing at the beginning of the
    /// history. Settles which head owns it.
    pub fn next(&mut self, nodes: &Vec<Json>) -> (r: Result<Option<String>, Refusal>)
        requires
            old(self)@.owner < nodes@.len(),
        ensures
            final(self)@.owner < nodes@.len(),
            match chain_request(list_view(nodes@), old(self)@) {
                Ok(None) => r matches Ok(None) && final(self)@ == old(self)@,
                Ok(Some((owner, k))) => r matches Ok(Some(s)) && s@ == k && final(self)@ == (
                ChainView { owner, ..old(self)@ }),
                Err(e) => r matches Err(x) && x@ == e,
            },
    {
        if self.tail.is_null() {
            return Ok(None);
        }
        if self.chain.len() >= MAX_CHUNKS {
            return Err(refuse("WAL history capacity exceeded"));
        }
        let ghost all = list_view(nodes@);
        let mut going: bool = true;
        while going && self.owner < nodes.len() - 1
            invariant
                !going ==> settled(all, self@.tail, self.end, self.owner as int) == Ok::<
                    int,
                    Seq<char>,
                >(self.owner as int),
                all == list_view(nodes@),
                self.owner < nodes@.len(),
                self.tail == old(self).tail,
                self.end == old(self).end,
                self.anchored == old(self).anchored,
                self.chain == old(self).chain,
                old(self)@.tail != JsonView::Null,
                old(self)@.chain.len() < MAX_CHUNKS,
                settled(all, self@.tail, self.end, self.owner as int) == settled(
                    all,
                    old(self)@.tail,
                    old(self)@.end,
                    old(self)@.owner,
                ),
            decreases nodes@.len() - self.owner, if going {
                1int
            } else {
                0int
            },
        {
            proof {
                assert(all[self.owner + 1] == nodes@[self.owner + 1]@);
            }
            let e: u64 = match num(&nodes[self.owner + 1], "end") {
                Ok(n) => n,
                Err(e) => return Err(e),
            };
            if e != self.end {
                going = false;
            } else {
                if !self.tail.same(&field(&nodes[self.owner + 1], "tail")) {
                    return Err(refuse("incorrect timeline parent tail"));
                }
                self.owner = self.owner + 1;
            }
        }
        match self.tail.as_str() {
            Some(k) => Ok(Some(k.to_owned())),
            None => Err(refuse("invalid tail")),
        }
    }

    /// Takes the descriptor that was read.
    pub fn accept(&mut self, nodes: &Vec<Json>, info: &Json, d: Json) -> (r: Result<(), Refusal>)
        requires
            old(self)@.owner < nodes@.len(),
        ensures
            match chain_step(list_view(nodes@), info@, old(self)@, d@) {
                Ok(s) => r is Ok && final(self)@ == s,
                Err(e) => r matches Err(x) && x@ == e && final(self)@ == old(self)@,
            },
    {
        let ghost all = list_view(nodes@);
        let head = &nodes[0];
        let node = &nodes[self.owner];
        proof {
            assert(all[0] == nodes@[0]@);
            assert(all[self.owner as int] == nodes@[self.owner as int]@);
        }
        let bad = "discontinuous WAL history";
        let start: u64 = match num(&d, "start") {
            Ok(n) => n,
            Err(e) => return Err(e),
        };
        let rec: u64 = match num(&d, "record_start") {
            Ok(n) => n,
            Err(e) => return Err(e),
        };
        if !same_field(&d, head, "cluster") || !same_field(&d, node, "timeline") {
            return Err(refuse(bad));
        }
        let de: u64 = match num(&d, "end") {
            Ok(n) => n,
            Err(e) => return Err(e),
        };
        if de != self.end {
            return Err(refuse(bad));
        }
        let hs: u64 = match num(head, "start") {
            Ok(n) => n,
            Err(e) => return Err(e),
        };
        if start < hs || start > rec || rec >= self.end || self.end - start > MAX_CHUNK {
            return Err(refuse(bad));
        }
        if self.owner < nodes.len() - 1 {
            proof {
                assert(all[self.owner + 1] == nodes@[self.owner + 1]@);
            }
            let pe: u64 = match num(&nodes[self.owner + 1], "end") {
                Ok(n) => n,
                Err(e) => return Err(e),
            };
            if start < pe {
                return Err(refuse(bad));
            }
        }
        let ne: u64 = match num(node, "end") {
            Ok(n) => n,
            Err(e) => return Err(e),
        };
        if (self.end == ne && !same_field(&d, node, "record_start")) || (self.chain.len() == 0
            && !same_field(&d, head, "record_start")) {
            return Err(refuse(bad));
        }
        let anchor: bool = self.tail.same(&field(info, "anchor"));
        if anchor && (!field(&d, "end").same(&field(info, "seed_end")) || !field(
            &d,
            "record_start",
        ).same(&field(info, "seed_record_start")) || !same_field(&d, info, "timeline")) {
            return Err(refuse("backup anchor mismatch"));
        }
        if anchor {
            self.anchored = true;
        }
        self.tail = field(&d, "previous");
        self.end = start;
        let ghost was = list_view(self.chain@);
        let ghost dv = d@;
        self.chain.push(d);
        proof {
            assert(list_view(self.chain@) =~= was.push(dv));
        }
        Ok(())
    }

    /// Checks a walk that has come to the beginning of the history.
    pub fn finish(&self, nodes: &Vec<Json>) -> (r: Result<(), Refusal>)
        requires
            nodes@.len() > 0,
        ensures
            match r {
                Ok(_) => chain_end_fault(list_view(nodes@), self@) is None,
                Err(e) => chain_end_fault(list_view(nodes@), self@) == Some(e@),
            },
    {
        let bad = "incomplete WAL history or missing backup anchor";
        if !self.anchored {
            return Err(refuse(bad));
        }
        proof {
            assert(list_view(nodes@)[0] == nodes@[0]@);
        }
        let start: u64 = match num(&nodes[0], "start") {
            Ok(n) => n,
            Err(e) => return Err(e),
        };
        if self.end != start || self.owner != nodes.len() - 1 {
            return Err(refuse(bad));
        }
        Ok(())
    }

    /// The descriptors read, newest first.
    pub fn descriptors(&self) -> (r: &Vec<Json>)
        ensures
            list_view(r@) == self@.chain,
    {
        &self.chain
    }
}

} // verus!
