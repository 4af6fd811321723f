//! What is published: descriptors, backups and heads.
use crate::archive::{check_history, history_fault, num, num_of, MAX_CHUNK};
use crate::json::{Json, JsonView};
use crate::refusal::{refuse, seen, Refusal};
use vstd::prelude::*;

verus! {

/// An object without fields.
pub open spec fn empty_object() -> JsonView {
    JsonView::Object(Seq::empty())
}

pub fn object() -> (r: Json)
    ensures
        r@ == empty_object(),
{
    let r = Json::Object(Vec::new());
    proof {
        assert(r@->Object_0 =~= Seq::empty());
    }
    r
}

pub fn text_value(s: &str) -> (r: Json)
    ensures
        r@ == JsonView::Text(s@),
{
    Json::Text(s.to_owned())
}

/// The end of the log that a chunk of `len` bytes makes, if it can be published behind `head`.
pub open spec fn publication_end(head: JsonView, len: nat, record: u64) -> Result<
    (u64, u64),
    Seq<char>,
> {
    match num_of(head, "end"@) {
        Err(e) => Err(e),
        Ok(start) => if start + len > u64::MAX {
            Err("WAL position overflow"@)
        } else if len == 0 || len > MAX_CHUNK || record < start || record >= start + len {
            Err("invalid WAL publication boundary"@)
        } else {
            Ok((start, (start + len) as u64))
        },
    }
}

/// Where a chunk of log begins and ends that is published behind `head`. Its last record
/// begins at `record`.
pub fn publication(head: &Json, data: &[u8], record: u64) -> (r: Result<(u64, u64), Refusal>)
    ensures
        seen(r) == publication_end(head@, data@.len(), record),
{
    let start: u64 = match num(head, "end") {
        Ok(n) => n,
        Err(e) => return Err(e),
    };
    let len: u64 = data.len() as u64;
    let end: u64 = match start.checked_add(len) {
        Some(e) => e,
        None => return Err(refuse("WAL position overflow")),
    };
    if len == 0 || len > MAX_CHUNK || record < start || record >= end {
        return Err(refuse("invalid WAL publication boundary"));
    }
    Ok((start, end))
}

/// The descriptor of a chunk.
pub open spec fn descriptor_of(
    cluster: JsonView,
    timeline: JsonView,
    start: u64,
    end: u64,
    record: u64,
    previous: JsonView,
    chunk: Seq<char>,
) -> JsonView {
    empty_object().with("chunk"@, JsonView::Text(chunk)).with("cluster"@, cluster).with(
        "end"@,
        JsonView::Number(end),
    ).with("previous"@, previous).with("record_start"@, JsonView::Number(record)).with(
        "start"@,
        JsonView::Number(start),
    ).with("timeline"@, timeline)
}

/// The descriptor of a chunk at the address `chunk`.
pub fn descriptor(
    cluster: Json,
    timeline: Json,
    start: u64,
    end: u64,
    record: u64,
    previous: Json,
    chunk: &str,
) -> (r: Json)
    ensures
        r@ == descriptor_of(cluster@, timeline@, start, end, record, previous@, chunk@),
{
    let mut d = object();
    d.set("chunk", text_value(chunk));
    d.set("cluster", cluster);
    d.set("end", Json::Number(end));
    d.set("previous", previous);
    d.set("record_start", Json::Number(record));
    d.set("start", Json::Number(start));
    d.set("timeline", timeline);
    d
}

/// The head after a chunk was published behind it.
pub open spec fn advanced_head(
    head: JsonView,
    end: u64,
    record: u64,
    tail: Seq<char>,
    revision: Seq<char>,
) -> JsonView {
    head.with("end"@, JsonView::Number(end)).with("record_start"@, JsonView::Number(record)).with(
        "tail"@,
        JsonView::Text(tail),
    ).with("revision"@, JsonView::Text(revision))
}

/// The head after a chunk was published behind it.
pub fn advanced(head: &Json, end: u64, record: u64, tail: &str, revision: &str) -> (r: Json)
    requires
        head@ is Object,
    ensures
        r@ == advanced_head(head@, end, record, tail@, revision@),
{
    let mut next = head.copy();
    next.set("end", Json::Number(end));
    next.set("record_start", Json::Number(record));
    next.set("tail", text_value(tail));
    next.set("revision", text_value(revision));
    next
}

/// Why timeline `t` cannot be forked off `parent`, if it cannot.
pub open spec fn fork_fault(parent: JsonView, t: u32, history: Seq<u8>, root: Seq<u8>) -> Option<
    Seq<char>,
> {
    match num_of(parent, "timeline"@) {
        Err(e) => Some(e),
        Ok(pt) => if t <= pt {
            Some("recovery did not produce a new native timeline"@)
        } else {
            history_fault(history, parent, root)
        },
    }
}

/// Checks that timeline `t` may be forked off `parent`.
pub fn check_fork(parent: &Json, t: u32, history: &[u8], root: &[u8]) -> (r: Result<(), Refusal>)
    ensures
        match r {
            Ok(_) => fork_fault(parent@, t, history@, root@) is None,
            Err(e) => fork_fault(parent@, t, history@, root@) == Some(e@),
        },
{
    let pt: u64 = match num(parent, "timeline") {
        Ok(n) => n,
        Err(e) => return Err(e),
    };
    if t as u64 <= pt {
        return Err(refuse("recovery did not produce a new native timeline"));
    }
    check_history(history, parent, root)
}

/// The transition from `parent` to a timeline whose history is at the address `key`.
pub open spec fn transition_of(parent: JsonView, key: Seq<char>, fork: u64) -> JsonView {
    empty_object().with("fork"@, JsonView::Number(fork)).with("history"@, JsonView::Text(key)).with(
        "parent"@,
        parent,
    )
}

/// The head of a timeline that was forked off `parent`.
pub open spec fn forked_head(
    parent: JsonView,
    t: u32,
    key: Seq<char>,
    fork: u64,
    epoch: Seq<char>,
    revision: Seq<char>,
) -> JsonView {
    parent.with("timeline"@, JsonView::Number(t as u64)).with(
        "transition"@,
        transition_of(parent, key, fork),
    ).with("epoch"@, JsonView::Text(epoch)).with("revision"@, JsonView::Text(revision))
}

/// The head of timeline `t`, forked off `parent`, with its history at the address `key`.
pub fn forked(parent: &Json, t: u32, key: &str, epoch: &str, revision: &str) -> (r: Result<
    Json,
    Refusal,
>)
    requires
        parent@ is Object,
    ensures
        match num_of(parent@, "end"@) {
            Ok(fork) => r matches Ok(h) && h@ == forked_head(
                parent@,
                t,
                key@,
                fork,
                epoch@,
                revision@,
            ),
            Err(e) => r matches Err(x) && x@ == e,
        },
{
    let fork: u64 = match num(parent, "end") {
        Ok(n) => n,
        Err(e) => return Err(e),
    };
    let mut tr = object();
    tr.set("fork", Json::Number(fork));
    tr.set("history", text_value(key));
    tr.set("parent", parent.copy());
    let mut head = parent.copy();
    head.set("timeline", Json::Number(t as u64));
    head.set("transition", tr);
    head.set("epoch", text_value(epoch));
    head.set("revision", text_value(revision));
    Ok(head)
}

/// A head whose last two names were drawn anew: how ownership is claimed.
pub open spec fn claimed_head(head: JsonView, epoch: Seq<char>, revision: Seq<char>) -> JsonView {
    head.with("epoch"@, JsonView::Text(epoch)).with("revision"@, JsonView::Text(revision))
}

pub fn claimed(head: &Json, epoch: &str, revision: &str) -> (r: Json)
    requires
        head@ is Object,
    ensures
        r@ == claimed_head(head@, epoch@, revision@),
{
    let mut h = head.copy();
    h.set("epoch", text_value(epoch));
    h.set("revision", text_value(revision));
    h
}

/// The backup that an archive starts from.
pub open spec fn backup_of(
    cluster: JsonView,
    timeline: u32,
    start: u64,
    end: u64,
    manifest: Seq<char>,
    image: Seq<char>,
    archive_start: u64,
    seed_end: u64,
    seed_record_start: u64,
    anchor: JsonView,
    root_history: JsonView,
) -> JsonView {
    empty_object().with("anchor"@, anchor).with(
        "archive_start"@,
        JsonView::Number(archive_start),
    ).with("cluster"@, cluster).with("end"@, JsonView::Number(end)).with(
        "image"@,
        JsonView::Text(image),
    ).with("manifest"@, JsonView::Text(manifest)).with("root_history"@, root_history).with(
        "seed_end"@,
        JsonView::Number(seed_end),
    ).with("seed_record_start"@, JsonView::Number(seed_record_start)).with(
        "start"@,
        JsonView::Number(start),
    ).with("timeline"@, JsonView::Number(timeline as u64)).with("version"@, JsonView::Number(2))
}

/// The backup that an archive starts from.
pub fn backup(
    cluster: Json,
    timeline: u32,
    start: u64,
    end: u64,
    manifest: &str,
    image: &str,
    archive_start: u64,
    seed_end: u64,
    seed_record_start: u64,
    anchor: Json,
    root_history: Json,
) -> (r: Json)
    ensures
        r@ == backup_of(
            cluster@,
            timeline,
            start,
            end,
            manifest@,
            image@,
            archive_start,
            seed_end,
            seed_record_start,
            anchor@,
            root_history@,
        ),
{
    let mut b = object();
    b.set("anchor", anchor);
    b.set("archive_start", Json::Number(archive_start));
    b.set("cluster", cluster);
    b.set("end", Json::Number(end));
    b.set("image", text_value(image));
    b.set("manifest", text_value(manifest));
    b.set("root_history", root_history);
    b.set("seed_end", Json::Number(seed_end));
    b.set("seed_record_start", Json::Number(seed_record_start));
    b.set("start", Json::Number(start));
    b.set("timeline", Json::Number(timeline as u64));
    b.set("version", Json::Number(2));
    b
}

/// The head of a timeline that was not forked off another in this archive.
pub open spec fn root_head(
    cluster: JsonView,
    timeline: JsonView,
    start: u64,
    end: u64,
    record: u64,
    tail: JsonView,
    backup: Seq<char>,
    epoch: JsonView,
    revision: Seq<char>,
) -> JsonView {
    empty_object().with("backup"@, JsonView::Text(backup)).with("cluster"@, cluster).with(
        "end"@,
        JsonView::Number(end),
    ).with("epoch"@, epoch).with("record_start"@, JsonView::Number(record)).with(
        "revision"@,
        JsonView::Text(revision),
    ).with("start"@, JsonView::Number(start)).with("tail"@, tail).with("timeline"@, timeline).with(
        "version"@,
        JsonView::Number(2),
    )
}

/// The head of a timeline that was not forked off another in this archive.
pub fn first_head(
    cluster: Json,
    timeline: Json,
    start: u64,
    end: u64,
    record: u64,
    tail: Json,
    backup: &str,
    epoch: Json,
    revision: &str,
) -> (r: Json)
    ensures
        r@ == root_head(
            cluster@,
            timeline@,
            start,
            end,
            record,
            tail@,
            backup@,
            epoch@,
            revision@,
        ),
        r@ is Object,
{
    let mut h = object();
    h.set("backup", text_value(backup));
    h.set("cluster", cluster);
    h.set("end", Json::Number(end));
    h.set("epoch", epoch);
    h.set("record_start", Json::Number(record));
    h.set("revision", text_value(revision));
    h.set("start", Json::Number(start));
    h.set("tail", tail);
    h.set("timeline", timeline);
    h.set("version", Json::Number(2));
    h
}

} // verus!
