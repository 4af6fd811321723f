use objwal::archive::{heads, num, text};
use objwal::create::{
    append, check_layout, check_name, check_segment_file, Capture, Founded, Founding, Shutdown,
};
use objwal::decode::Reading;
use objwal::export::{export, export_members, Member};
use objwal::http::{immutable_key, Object};
use objwal::image::{Image, PAGE, SALT};
use objwal::inspect::{
    algorithm, check_checksum, check_file, check_manifest_size, check_root, check_step,
    checksum_file, entry_algorithm, find_last_line, holds_text, Algorithm, Inspection,
};
use objwal::json::{field, same_field, Json};
use objwal::manifest_text::{append_piece, body, manifest, render, restored_entry};
use objwal::memory_wal::Segment;
use objwal::names::Names;
use objwal::pages::upload;
use objwal::publish::{check_fork, claimed, forked, publication};
use objwal::publisher::{
    check_deadline, check_founded, check_ownership, check_recovered, ownership_due, stop_reason,
    threshold, worker_name, Flushed, Publisher,
};
use objwal::rebuild::{check_chunk, span, Rebuilt};
use objwal::refusal::Refusal;
use objwal::renewal::{sweep, Prepared, Sweep};
use objwal::restore::{
    check_control, check_manifest, eligibility, is_decimal, is_power_of_two, Chain, Control,
};
use objwal::restoring::{Need, Restored, Restoring};
use objwal::select::{batch_limit, segment_base, Selection};
use objwal::startup::{
    check_capacity, check_fenced, check_unmoved, check_unused, lock_name, recovery_settings,
    stage_name, Settings,
};
use objwal::strict_sync;
use objwal::strict_sync::{CommitLevel, Context};
use objwal::tar_walk::find_miscounted;
use objwal::wire::{digest, hex, lsn, lsn_text, setting};
use serde_json::Value;
use std::collections::BTreeMap;

const SEGMENT: usize = 1048576;
const RECORDS: [(u64, u64); 4] = [(40, 64), (64, 88), (88, 120), (120, 200)];
const BASE: u64 = SEGMENT as u64;

fn json(v: &Value) -> Json {
    match v {
        Value::Null => Json::Null,
        Value::Bool(b) => Json::Bool(*b),
        Value::Number(n) => match n.as_u64() {
            Some(n) => Json::Number(n),
            None => Json::Other(n.to_string()),
        },
        Value::String(s) => Json::Text(s.clone()),
        Value::Array(l) => Json::List(l.iter().map(json).collect()),
        Value::Object(o) => {
            let mut out = Json::Object(Vec::new());
            for (k, v) in o {
                out.set(k, json(v));
            }
            out
        }
    }
}

fn read_json(bytes: &[u8]) -> Json {
    json(&serde_json::from_slice(bytes).unwrap())
}

fn from_text(s: &str) -> Json {
    read_json(s.as_bytes())
}

fn said<T>(r: Result<T, Refusal>) -> String {
    match r {
        Ok(_) => "ok".to_string(),
        Err(e) => e.message(),
    }
}

fn reading(records: &[(u64, u64)]) -> Reading {
    Reading {
        positioned: true,
        records: records.iter().map(|(a, b)| (BASE + a, BASE + b)).collect(),
        error: None,
    }
}

fn log_bytes(n: usize) -> Vec<u8> {
    (0..n).map(|i| (i * 7 % 251) as u8).collect()
}

/// The objects of an archive by key.
struct Bucket(BTreeMap<String, Vec<u8>>);

impl Bucket {
    fn put(&mut self, kind: &str, body: &[u8]) -> String {
        let (address, key) = immutable_key(kind, body);
        self.0.insert(key, body.to_vec());
        address
    }

    fn get(&self, kind: &str, address: &str) -> &[u8] {
        &self.0[&format!("{kind}/{address}")]
    }

    /// Reads the history of a head back, as a restart does.
    fn restored(&self, head: &Json) -> Vec<Segment> {
        let nodes = heads(head).unwrap();
        let info = read_json(self.get("backups", text(head, "backup").unwrap()));
        assert_eq!(eligibility(head, &nodes, &info).unwrap(), None);
        let mut chain = Chain::begin(head).unwrap();
        while let Some(key) = chain.next(&nodes).unwrap() {
            let d = read_json(self.get("descriptors", &key));
            chain.accept(&nodes, &info, d).unwrap();
        }
        chain.finish(&nodes).unwrap();
        let mut log = Rebuilt::new(SEGMENT, 4 * SEGMENT);
        for d in chain.descriptors().iter().rev() {
            let chunk = self.get("chunks", text(d, "chunk").unwrap());
            let start = check_chunk(d, chunk).unwrap();
            log.pour(num(d, "timeline").unwrap() as u32, start, chunk).unwrap();
        }
        let segments = log.into_segments();
        let again = self.asked_for(head, &RECORDS).unwrap();
        let flat = |l: &[Segment]| -> Vec<(u32, u64, Vec<u8>)> {
            l.iter().map(|s| (s.tli, s.seg, s.bytes.clone())).collect()
        };
        assert_eq!(flat(&again.segments), flat(&segments));
        assert_eq!(again.chunks, chain.descriptors().len());
        segments
    }

    /// The same, one object at a time as the restore asks for it.
    fn asked_for(&self, head: &Json, records: &[(u64, u64)]) -> Result<Restored, Refusal> {
        let nodes = heads(head)?;
        let info = read_json(self.get("backups", text(head, "backup")?));
        let mut r = Restoring::begin(nodes, info, Vec::new(), SEGMENT, 4 * SEGMENT)?;
        loop {
            match r.next()? {
                Need::Nothing => {}
                Need::History(k) => r.take_history(self.get("histories", &k).to_vec())?,
                Need::Descriptor(k) => r.take_descriptor(read_json(self.get("descriptors", &k)))?,
                Need::Chunk(k) => r.take_chunk(self.get("chunks", &k))?,
                Need::Records { bytes, base, first, timeline: _ } => {
                    let end = base + bytes.len() as u64;
                    let inside: Vec<(u64, u64)> = records
                        .iter()
                        .copied()
                        .filter(|(a, b)| first <= BASE + a && BASE + b <= end)
                        .collect();
                    r.take_records(&bytes, &reading(&inside))?;
                }
                Need::Done => return Ok(r.finish()),
            }
        }
    }
}

#[test]
fn a_restore_follows_a_fork() {
    let mut bucket = Bucket(BTreeMap::new());
    let log = log_bytes(300);
    let parent = found(&mut bucket);
    let history = b"1\t0/100058\tno recovery target specified\n";
    let key = bucket.put("histories", history);
    let child = forked(&parent, 2, &key, "e2", "r2").unwrap();
    let mut p = Publisher::new(child, 2, SEGMENT, 1 << 30, BASE + 120, 1);
    let batch = p.batch(&log[..130], BASE + 130, &reading(&[(88, 120)]), "r3").unwrap().unwrap();
    bucket.put("chunks", &batch.chunk);
    bucket.put("descriptors", &batch.descriptor);
    assert!(p.confirm(batch));
    let r = bucket.asked_for(&p.head, &RECORDS).unwrap();
    assert_eq!(r.chunks, 2);
    assert_eq!(r.histories, vec![(2, history.to_vec())]);
    let new = span(&r.segments, 2, BASE, BASE + 120, SEGMENT, SEGMENT).unwrap();
    assert_eq!(new, log[..120].to_vec(), "the child begins with the parent's log");
    let old = span(&r.segments, 1, BASE, BASE + 88, SEGMENT, SEGMENT).unwrap();
    assert_eq!(old, log[..88].to_vec());
    assert!(bucket.asked_for(&p.head, &[(40, 64), (64, 88)]).is_err(), "a record is missing");
    bucket.0.insert(format!("histories/{key}"), b"1\t0/100059\twrong\n".to_vec());
    assert!(bucket.asked_for(&p.head, &RECORDS).is_err());
}

fn founding() -> Founding {
    Founding {
        start: BASE + 40,
        end: BASE + 64,
        timeline: 1,
        system: 42,
        segment: SEGMENT,
        manifest: "a".repeat(64),
        image: "b".repeat(64),
    }
}

fn found(bucket: &mut Bucket) -> Json {
    let f: Founded = founding()
        .publish(&log_bytes(100), BASE + 100, &reading(&[(40, 64), (64, 88)]), "e", "r1")
        .unwrap();
    bucket.put("chunks", &f.chunk);
    bucket.put("descriptors", &f.descriptor);
    bucket.put("backups", &f.backup);
    f.head
}

#[test]
fn what_is_published_is_what_is_restored() {
    let mut bucket = Bucket(BTreeMap::new());
    let log = log_bytes(300);
    let head = found(&mut bucket);
    assert_eq!(num(&head, "end").unwrap(), BASE + 88, "the last complete record");
    let s = bucket.restored(&head);
    assert_eq!(span(&s, 1, BASE, BASE + 88, SEGMENT, SEGMENT).unwrap(), log[..88].to_vec());

    let mut p = Publisher::new(head, 1, SEGMENT, 1 << 30, BASE + 200, 1);
    assert_eq!(p.window(Flushed { timeline: 1, end: BASE + 88 }).unwrap(), None);
    let flushed = Flushed { timeline: 1, end: BASE + 210 };
    assert_eq!(p.window(flushed).unwrap(), Some((BASE, BASE + 210)));
    let batch = p
        .batch(&log[..210], BASE + 210, &reading(&[(88, 120), (120, 200), (200, 220)]), "r2")
        .unwrap()
        .unwrap();
    assert_eq!(batch.complete, BASE + 200);
    bucket.put("chunks", &batch.chunk);
    bucket.put("descriptors", &batch.descriptor);
    assert!(p.confirm(batch), "all that the server started with is durable");
    assert_eq!(p.chunks, 2);
    assert_eq!(p.published.len(), 2);
    let s = bucket.restored(&p.head);
    assert_eq!(span(&s, 1, BASE, BASE + 200, SEGMENT, SEGMENT).unwrap(), log[..200].to_vec());
    assert!(p.batch(&log[..210], BASE + 210, &reading(&[]), "r3").unwrap().is_none());
}

#[test]
fn a_selected_snapshot_takes_over_and_is_restorable() {
    let mut bucket = Bucket(BTreeMap::new());
    let log = log_bytes(300);
    let head = found(&mut bucket);
    let mut p = Publisher::new(head, 1, SEGMENT, 1, BASE, 1);
    assert!(!p.renew().unwrap(), "the worker is busy cleaning up");
    p.cleaned();
    assert!(p.renew().unwrap());
    let batch = p
        .batch(&log[..200], BASE + 200, &reading(&[(88, 120), (120, 200)]), "r2")
        .unwrap()
        .unwrap();
    bucket.put("chunks", &batch.chunk);
    bucket.put("descriptors", &batch.descriptor);
    p.confirm(batch);
    let mut old_objects = Names::new();
    for k in bucket.0.keys() {
        old_objects.insert(k.clone());
    }
    let page = format!("backup-chunks/{}", "c".repeat(64));
    let mut new_objects = Names::new();
    new_objects.insert(page);
    let prepared = Prepared {
        image: "d".repeat(64),
        old_objects,
        new_objects,
        manifest: "e".repeat(64),
        start: BASE + 88,
        end: BASE + 120,
        timeline: 1,
    };
    let mut s = Selection::begin(&p.head, prepared, &p.published, SEGMENT).unwrap();
    while let Some((from, to)) = s.window() {
        let bytes = &log[(from - BASE) as usize..(to - BASE) as usize];
        let b = s.step(&p.head, bytes, &reading(&[(40, 64), (64, 88), (88, 120), (120, 200)])).unwrap();
        bucket.put("chunks", &b.chunk);
        bucket.put("descriptors", &b.descriptor);
    }
    assert!(s.check_frontier(&p.head).is_ok());
    let behind = from_text("{\"record_start\":1}");
    assert_eq!(
        said(s.check_frontier(&behind)),
        "snapshot WAL does not reach acknowledged frontier"
    );
    let done = s.finish(&p.head, None, "r3").unwrap();
    bucket.put("backups", &done.backup);
    bucket.put("retired", &done.retired);
    let segments = bucket.restored(&done.head);
    let got = span(&segments, 1, BASE + 88, BASE + 200, SEGMENT, SEGMENT).unwrap();
    assert_eq!(got, log[88..200].to_vec());
    p.selected(done.head.copy(), done.count);
    assert_eq!(p.published.len(), 0);
    let retired = read_json(&done.retired);
    let keys = retired.as_array().map(|l| l.len()).unwrap_or(0);
    assert!(keys > 0, "the snapshot before is given up");
}

#[test]
fn founding_needs_log_for_the_whole_backup() {
    let f = founding();
    assert_eq!(f.window(1, BASE + 100).unwrap(), BASE);
    assert_eq!(said(f.window(2, BASE + 100)), "initial WAL exceeds publication bounds");
    assert_eq!(said(f.window(1, BASE)), "initial WAL exceeds publication bounds");
    let short = f.publish(&log_bytes(50), BASE + 50, &reading(&[]), "e", "r");
    assert_eq!(said(short), "initial WAL does not cover backup completion");
}

#[test]
fn a_publisher_refuses_what_it_cannot_explain() {
    let mut bucket = Bucket(BTreeMap::new());
    let head = found(&mut bucket);
    let p = Publisher::new(head.copy(), 1, SEGMENT, 1, BASE, 1);
    let moved = "publisher WAL position changed unexpectedly";
    assert_eq!(said(p.window(Flushed { timeline: 2, end: BASE + 90 })), moved);
    assert_eq!(said(p.window(Flushed { timeline: 1, end: BASE + 80 })), moved);
    let full = Publisher::new(head.copy(), 1, SEGMENT, 1, BASE, 10000);
    assert_eq!(
        said(full.window(Flushed { timeline: 1, end: BASE + 90 })),
        "WAL history capacity exhausted"
    );
    assert_eq!(check_founded(&head, BASE + 88).unwrap(), BASE + 88);
    assert!(check_recovered(42, 42, BASE + 88, &head).is_ok());
    assert!(check_recovered(41, 42, BASE + 88, &head).is_err());
    assert!(check_deadline(1000, 90999).is_ok());
    assert!(check_deadline(1000, 91001).is_err());
    assert!(ownership_due(0, 1000));
    assert!(!ownership_due(0, 999));
    assert_eq!(threshold(64, 16777216), 67108864);
    assert_eq!(threshold(1024, 16777216), 268435456);
    assert_eq!(worker_name(0), "object WAL publisher");
    assert_eq!(worker_name(1), "object snapshot renewal");
    assert_eq!(stop_reason(Err(Refusal { why: "lost".to_string() })), "lost");
    assert_eq!(stop_reason(Ok(())), "worker exited unexpectedly");
    let a = Object { body: b"x".to_vec(), etag: "1".to_string() };
    let b = Object { body: b"x".to_vec(), etag: "2".to_string() };
    assert!(check_ownership(&a, &a.copy()).is_ok());
    assert_eq!(said(check_ownership(&b, &a)), "publisher lost bucket ownership");
}

#[test]
fn a_publication_continues_the_head() {
    let mut bucket = Bucket(BTreeMap::new());
    let head = found(&mut bucket);
    assert_eq!(publication(&head, &[0; 10], BASE + 90).unwrap(), (BASE + 88, BASE + 98));
    assert!(publication(&head, &[0; 10], BASE + 98).is_err());
    assert!(publication(&head, &[], BASE + 88).is_err());
    let owned = claimed(&head, "epoch 2", "r9");
    assert_eq!(text(&owned, "epoch").unwrap(), "epoch 2");
    assert_eq!(text(&owned, "revision").unwrap(), "r9");
    assert!(same_field(&owned, &head, "tail"));
    let history = b"1\t0/100058\tno recovery target specified\n";
    assert!(check_fork(&head, 2, history, b"").is_ok());
    assert!(check_fork(&head, 1, history, b"").is_err());
    let child = forked(&head, 2, "key", "e", "r").unwrap();
    assert_eq!(num(&child, "timeline").unwrap(), 2);
    assert_eq!(heads(&child).unwrap().len(), 2);
    assert_eq!(segment_base(BASE + 88, SEGMENT), BASE);
    assert_eq!(batch_limit(10, 20), 20);
}

#[test]
fn a_shut_down_cluster_is_taken_as_it_is() {
    let s = Shutdown {
        valid: true,
        clean: true,
        version: 1800,
        catalog: 20,
        timeline: 1,
        checkpoint: BASE + 40,
        redo: BASE + 40,
        backup_start: 0,
        backup_end_required: false,
        segment_bytes: SEGMENT as u32,
        system_identifier: 42,
    };
    assert!(s.check(1800, 20, 64 * SEGMENT).is_ok());
    assert!(s.check(1700, 20, 64 * SEGMENT).is_err());
    assert_eq!(s.segment_name(), "000000010000000000000001");
    let seed = s.seed(log_bytes(SEGMENT), &reading(&[(40, 88)])).unwrap();
    assert_eq!((seed.tli, seed.seg, seed.bytes.len()), (1, 1, SEGMENT));
    assert!(check_layout(false, false).is_ok());
    assert!(check_layout(true, false).is_err());
    assert!(check_layout(false, true).is_err());
    assert!(check_segment_file(true, SEGMENT as u64, SEGMENT as u32).is_ok());
    assert!(check_segment_file(true, 5, SEGMENT as u32).is_err());
    assert!(check_name("data").is_ok());
    assert_eq!(said(check_name("standby.signal")), "creation refuses standby.signal");
}

#[test]
fn a_capture_is_bounded_and_on_one_timeline() {
    let mut c = Capture::new();
    assert!(c.begin_backup(2, 10, 1).is_err());
    c.begin_backup(1, 10, 1).unwrap();
    c.begin_archive("base.tar").unwrap();
    assert!(c.begin_archive("16384.tar").is_err());
    c.archive_contents(b"abc").unwrap();
    c.manifest_contents(b"{}").unwrap();
    assert!(c.end_backup(5, 1).is_err());
    let mut c = Capture::new();
    c.begin_backup(1, 10, 1).unwrap();
    c.archive_contents(b"abc").unwrap();
    c.manifest_contents(b"{}").unwrap();
    c.end_backup(20, 1).unwrap();
    assert_eq!((c.start, c.end, c.timeline), (10, 20, 1));
    let mut out = b"ab".to_vec();
    assert!(append(&mut out, b"cd", 4).is_ok());
    assert!(append(&mut out, b"e", 4).is_err());
    assert_eq!(out, b"abcd".to_vec());
}

const GENERATION: &str = "0123456789abcdef0123456789abcdef";

fn tar_of(members: &[(&str, &[u8])]) -> Vec<u8> {
    let mut b = tar::Builder::new(Vec::new());
    for (path, bytes) in members {
        let mut h = tar::Header::new_ustar();
        h.set_size(bytes.len() as u64);
        h.set_mode(0o600);
        if path.ends_with('/') {
            h.set_entry_type(tar::EntryType::Directory);
        }
        b.append_data(&mut h, path, *bytes).unwrap();
    }
    b.into_inner().unwrap()
}

fn source(paths: &[&str]) -> Json {
    let files: Vec<String> = paths.iter().map(|p| format!("{{\"Path\":\"{p}\"}}")).collect();
    from_text(&format!(
        "{{\"System-Identifier\":42,\"WAL-Ranges\":[],\"Files\":[{}]}}",
        files.join(",")
    ))
}

fn first_export() -> Image {
    let page = vec![7u8; 2 * PAGE];
    let archive = tar_of(&[
        ("global/", b""),
        ("base/", b""),
        ("base/5/", b""),
        ("backup_label", b"START WAL\nINCREMENTAL FROM LSN: 0/1\n"),
        ("global/pg_control", b"control"),
        ("base/5/16384", &page),
        ("backup_manifest", b"{}"),
    ]);
    let list = ["backup_label", "global/pg_control", "base/5/16384"];
    let s = export(&archive, &source(&list), None, GENERATION).unwrap();
    assert!(s.bodies.iter().all(|b| b.starts_with(GENERATION.as_bytes())));
    let label = s.bodies.iter().find(|b| b.len() == SALT + 10).unwrap();
    assert_eq!(&label[SALT..], b"START WAL\n", "the label is that of a full backup");
    s.image
}

#[test]
fn a_backup_becomes_a_snapshot() {
    let image = first_export();
    assert_eq!(image.system, 42);
    assert_eq!(image.files.len(), 3);
    assert_eq!(image.dirs.len(), 3);
    assert_eq!(image.find("base/5/16384"), (true, 1));
    assert_eq!(image.files[1].pieces.len(), 2);
}

#[test]
fn an_increment_becomes_a_whole_snapshot() {
    let parent = first_export();
    let mut increment = Vec::new();
    for word in [0xd3ae1f0du32, 1, 2, 1] {
        increment.extend_from_slice(&word.to_ne_bytes());
    }
    increment.resize(2 * PAGE, 0);
    let archive = tar_of(&[
        ("global/", b""),
        ("base/", b""),
        ("base/5/", b""),
        ("backup_label", b"START WAL\n"),
        ("global/pg_control", b"control"),
        ("base/5/INCREMENTAL.16384", &increment),
    ]);
    let list = ["backup_label", "global/pg_control", "base/5/INCREMENTAL.16384"];
    let s = export(&archive, &source(&list), Some(&parent), GENERATION).unwrap();
    let at = s.image.find("base/5/16384").1;
    assert_eq!(s.image.files[at].pieces.len(), 2);
    let before = &parent.files[parent.find("base/5/16384").1].pieces;
    assert_eq!(s.image.files[at].pieces[0], before[0], "an unchanged page is the old one");
    assert_ne!(s.image.files[at].pieces[1], before[1]);
    let alone = export(&archive, &source(&list), None, GENERATION);
    assert_eq!(said(alone), "missing incremental predecessor");
}

/// A header of a sparse file whose map goes on in one more block, which is all zeros.
fn sparse_archive(size: u64) -> Vec<u8> {
    let mut h = tar::Header::new_gnu();
    h.set_entry_type(tar::EntryType::GNUSparse);
    h.set_size(size);
    let gnu = h.as_gnu_mut().unwrap();
    gnu.set_is_extended(true);
    gnu.set_real_size(0);
    h.set_cksum();
    let mut bytes = h.as_bytes().to_vec();
    bytes.resize(1024, 0);
    bytes
}

#[test]
fn an_archive_whose_headers_cannot_be_counted_is_damaged_from_there_on() {
    let past = u64::MAX - 1023;
    assert_eq!(find_miscounted(&sparse_archive(past)), Some(0));
    assert_eq!(find_miscounted(&sparse_archive(past - 512)), None);
    assert_eq!(find_miscounted(&sparse_archive(u64::MAX)), None, "the size itself is refused");
    assert_eq!(find_miscounted(&sparse_archive(0)), None);
    assert_eq!(find_miscounted(&[]), None);
    let archive = sparse_archive(past);
    assert_eq!(
        said(export(&archive, &source(&[]), None, GENERATION)),
        "snapshot archive is damaged"
    );
    let after = |first: &str| {
        let mut bytes = tar_of(&[(first, &[1u8; 600])]);
        bytes.truncate(512 + 1024);
        bytes.extend_from_slice(&archive[..512]);
        bytes.extend_from_slice(&[0; 512]);
        bytes
    };
    // Counted from where it stands, this one goes past the limit by its size alone.
    assert_eq!(find_miscounted(&after("global/pg_control")), None);
    let mut behind = after("global/pg_control");
    behind.splice(1536..2048, sparse_archive(past - 1536)[..512].to_vec());
    assert_eq!(find_miscounted(&behind), Some(1536));
    assert_eq!(
        said(export(&behind, &source(&[]), None, GENERATION)),
        "snapshot archive is damaged"
    );
    let mut wal = after("pg_wal/000000010000000000000001");
    wal.splice(1536..2048, sparse_archive(past - 1536)[..512].to_vec());
    assert_eq!(find_miscounted(&wal), Some(1536));
    assert_eq!(
        said(export(&wal, &source(&[]), None, GENERATION)),
        "snapshot contains WAL file",
        "what comes before the damage is looked at first"
    );
    let inside = tar_of(&[("base/5/1", &archive)]);
    assert_eq!(find_miscounted(&inside), None, "what a member holds is no header");
}

#[test]
fn a_size_among_the_attributes_goes_before_that_of_the_header() {
    let with = |key: &str, value: &[u8]| {
        let mut b = tar::Builder::new(Vec::new());
        b.append_pax_extensions([("comment", b"x".as_slice()), (key, value)]).unwrap();
        let mut bytes = b.into_inner().unwrap();
        bytes.truncate(1024);
        bytes.extend_from_slice(&sparse_archive(0));
        find_miscounted(&bytes)
    };
    assert_eq!(with("size", b"18446744073709549568"), Some(1024));
    assert_eq!(with("size", b"+18446744073709549568"), Some(1024));
    assert_eq!(with("size", b"18446744073709549056"), None);
    assert_eq!(with("size", b"18446744073709551616"), None, "no number of 64 bits");
    assert_eq!(with("size", b"x"), None);
    assert_eq!(with("sizes", b"18446744073709549568"), None);
}

#[test]
fn attributes_and_data_that_looks_like_a_header_are_exported() {
    let mut b = tar::Builder::new(Vec::new());
    for dir in ["global/", "base/", "base/5/"] {
        let mut h = tar::Header::new_ustar();
        h.set_size(0);
        h.set_entry_type(tar::EntryType::Directory);
        b.append_data(&mut h, dir, b"".as_slice()).unwrap();
    }
    let sparse = sparse_archive(u64::MAX - 1023);
    for (path, bytes) in [
        ("backup_label", b"START WAL\n".as_slice()),
        ("global/pg_control", b"control".as_slice()),
        ("base/5/tape", sparse.as_slice()),
    ] {
        b.append_pax_extensions([("comment", b"x".as_slice())]).unwrap();
        let mut h = tar::Header::new_ustar();
        h.set_size(bytes.len() as u64);
        b.append_data(&mut h, path, bytes).unwrap();
    }
    let archive = b.into_inner().unwrap();
    assert_eq!(find_miscounted(&archive), None);
    let list = ["backup_label", "global/pg_control", "base/5/tape"];
    let s = export(&archive, &source(&list), None, GENERATION).unwrap();
    assert_eq!(s.image.files.len(), 3);
}

#[test]
fn a_damaged_or_strange_backup_is_refused() {
    let mut archive = tar_of(&[("backup_label", b"x"), ("global/pg_control", b"c")]);
    archive.truncate(700);
    assert!(export(&archive, &source(&[]), None, GENERATION).is_err());
    let wal = tar_of(&[("pg_wal/000000010000000000000001", b"x")]);
    assert_eq!(said(export(&wal, &source(&[]), None, GENERATION)), "snapshot contains WAL file");
    let member = |path: &str| Member {
        path: Some(path.to_string()),
        dir: false,
        file: true,
        size: 1,
        bytes: Some(b"x".to_vec()),
    };
    let twice = vec![member("a"), member("a")];
    assert_eq!(
        said(export_members(twice, true, &source(&[]), None, GENERATION)),
        "invalid snapshot member"
    );
    let few = vec![member("backup_label")];
    assert_eq!(
        said(export_members(few, true, &source(&[]), None, GENERATION)),
        "snapshot missing native metadata"
    );
    let other = from_text("{\"System-Identifier\":41,\"WAL-Ranges\":[],\"Files\":[]}");
    let parent = first_export();
    assert_eq!(
        said(export_members(Vec::new(), true, &other, Some(&parent), GENERATION)),
        "snapshot cluster mismatch"
    );
}

#[test]
fn a_manifest_is_written_as_it_is_read() {
    let image = first_export();
    let bytes = image.manifest();
    let value = read_json(&bytes);
    assert!(check_checksum(&bytes, &value).is_ok());
    assert_eq!(num(&value, "System-Identifier").unwrap(), 42);
    let files = Json::List(vec![restored_entry("base/1", b"abc")]);
    let bytes = manifest(7, &files, &Json::List(Vec::new()));
    let value = read_json(&bytes);
    assert!(check_checksum(&bytes, &value).is_ok());
    assert!(field(&value, "Files").same(&files));
    let mut broken = bytes.clone();
    broken[3] ^= 1;
    assert!(check_checksum(&broken, &value).is_err());
    let entry = restored_entry("base/1", b"abc");
    assert_eq!(num(&entry, "Size").unwrap(), 3);
    assert_eq!(entry_algorithm(&entry).unwrap(), Algorithm::Sha256);
    assert_eq!(text(&entry, "Checksum").unwrap(), digest(b"abc"));
}

#[test]
fn json_strings_are_escaped() {
    let mut out = String::new();
    render(&mut out, &Json::Text("a\"\\\u{8}\t\n\u{c}\r\u{1}\u{1f}/\u{7f}\u{e9}".to_string()));
    assert_eq!(out, "\"a\\\"\\\\\\b\\t\\n\\f\\r\\u0001\\u001f/\u{7f}\u{e9}\"");
}

#[test]
fn json_is_rendered_with_its_fields_in_order() {
    let v = from_text("{\"b\":[1,null,true],\"a\":\"x\\\"\\n\\u0001é\",\"c\":-1.5}");
    let mut out = String::new();
    render(&mut out, &v);
    assert_eq!(out, "{\"a\":\"x\\\"\\n\\u0001é\",\"b\":[1,null,true],\"c\":-1.5}");
    assert_eq!(body(&v), out.into_bytes());
    assert!(read_json(&body(&v)).same(&v));
    assert!(v.get("a").is_some());
    assert!(v.get("z").is_none());
    assert!(field(&v, "z").is_null());
}

#[test]
fn two_generations_share_no_object() {
    let file = vec![7u8; 3 * PAGE + 5];
    let a = upload(&"a".repeat(SALT), &file);
    let b = upload(&"b".repeat(SALT), &file);
    assert_eq!(a.pieces.len(), 4);
    assert_eq!(a.pieces[3].length, 5);
    for x in &a.bodies {
        assert!(b.bodies.iter().all(|y| x != y));
    }
    let mut back = Vec::new();
    for p in &a.pieces {
        let object = a.bodies.iter().find(|o| digest(o) == p.key).unwrap();
        append_piece(&mut back, object, p).unwrap();
    }
    assert_eq!(back, file, "what a restore gives of an upload");
}

#[test]
fn pieces_are_cut_out_of_their_objects() {
    let image = first_export();
    let mut out = Vec::new();
    let p = &image.files[0].pieces[0];
    let object = [vec![0u8; p.offset], vec![5u8; p.length]].concat();
    append_piece(&mut out, &object, p).unwrap();
    assert_eq!(out, vec![5u8; p.length]);
    assert!(append_piece(&mut out, &object[..p.offset], p).is_err());
}

fn control_bytes() -> Vec<u8> {
    let mut c = 42u64.to_ne_bytes().to_vec();
    c.extend_from_slice(&[0; 8]);
    c
}

#[test]
fn an_inspection_follows_the_manifest() {
    let mut i = Inspection::new();
    let label = from_text("{\"Path\":\"backup_label\",\"Size\":5,\"Checksum-Algorithm\":\"SHA256\",\"Checksum\":\"39f17ec6ebcf3cec37a06d85dc61882be3898d7573f284b7b41222087b6b6a2c\"}");
    assert_eq!(i.entry(&label).unwrap(), ("backup_label".to_string(), 5));
    assert_eq!(said(i.summed(&label, "backup_label".to_string(), b"STORT")), "backup file checksum mismatch");
    i.summed(&label, "backup_label".to_string(), b"START").unwrap();
    assert_eq!(said(i.summed(&label, "backup_label".to_string(), b"START")), "duplicate file");
    assert_eq!(said(i.check_metadata()), "missing native backup metadata");
    let control = from_text("{\"Path\":\"global/pg_control\",\"Size\":9,\"Checksum-Algorithm\":\"CRC32C\",\"Checksum\":\"839206e3\"}");
    i.entry(&control).unwrap();
    i.summed(&control, "global/pg_control".to_string(), b"123456789").unwrap();
    let unsummed = from_text("{\"Path\":\"base/1\",\"Size\":0,\"Checksum-Algorithm\":\"NONE\"}");
    assert_eq!(said(i.summed(&unsummed, "base/1".to_string(), b"")), "unsupported file checksum");
    assert!(i.check_metadata().is_ok());
    let value = from_text("{\"System-Identifier\":42}");
    assert!(i.finish(&value, &control_bytes(), "START WAL").is_ok());
    assert!(i.finish(&value, &[0; 4], "x").is_err());
    assert!(i.finish(&from_text("{\"System-Identifier\":41}"), &control_bytes(), "x").is_err());
    assert!(i.finish(&value, &control_bytes(), "INCREMENTAL FROM LSN: 0/1").is_err());
    for bad in ["../x", "pg_tblspc/1", "pg_wal/0001", "backup_manifest", "/x"] {
        let e = from_text(&format!("{{\"Path\":\"{bad}\",\"Size\":0}}"));
        assert_eq!(said(i.entry(&e)), "unsupported backup path", "{bad}");
    }
    let done = from_text("{\"Path\":\"pg_wal/archive_status/1.done\",\"Size\":0}");
    assert!(i.entry(&done).is_ok());
    let large = from_text("{\"Path\":\"base/1\",\"Size\":268435457}");
    assert_eq!(said(i.entry(&large)), "backup size/member limit");
}

#[test]
fn files_are_summed_as_their_entries_ask() {
    assert_eq!(checksum_file(b"123456789", Algorithm::Crc32c), "839206e3");
    for (a, sum) in [
        (Algorithm::Sha224, "23097d223405d8228642a477bda255b32aadbce4bda0b3f7e36c9da7"),
        (Algorithm::Sha256, "ba7816bf8f01cfea414140de5dae2223b00361a396177a9cb410ff61f20015ad"),
        (Algorithm::Sha384, "cb00753f45a35e8bb5a03d699ac65007272c32ab0eded1631a8b605a43ff5bed8086072ba1e7cc2358baeca134c825a7"),
        (Algorithm::Sha512, "ddaf35a193617abacc417349ae20413112e6fa4e89a97ea20a9eeee64b55d39a2192992a274fc1a836ba3c23a3feebbd454d4423643ce80e2a9ac94fa54ca49f"),
    ] {
        assert_eq!(checksum_file(b"abc", a), sum);
    }
}

#[test]
fn an_artifact_is_no_link() {
    assert!(check_root(false, false, 10).is_ok());
    assert_eq!(said(check_root(true, false, 10)), "symlink artifact root");
    assert_eq!(said(check_root(false, true, 10)), "manifest input type/size limit");
    assert_eq!(said(check_root(false, false, 67108865)), "manifest input type/size limit");
    assert!(check_manifest_size(b"{}").is_ok());
    assert_eq!(said(check_manifest_size(&vec![0; 67108865])), "manifest input limit");
    assert!(check_step(false).is_ok());
    assert_eq!(said(check_step(true)), "symlink in artifact");
    assert!(check_file(true, 5, 5).is_ok());
    assert_eq!(said(check_file(true, 5, 6)), "backup file size mismatch");
    assert_eq!(algorithm("CRC32C").unwrap(), Algorithm::Crc32c);
    assert_eq!(said(algorithm("MD5")), "unsupported file checksum");
    assert_eq!(find_last_line(b"a\nbc\n"), Some(2));
    assert_eq!(find_last_line(b"abc\n"), None);
    assert!(holds_text("xINCREMENTAL FROM y", "INCREMENTAL FROM "));
}

fn settings() -> Settings {
    Settings {
        enabled: true,
        create: false,
        strict: true,
        memory_wal_mb: 64,
        restart_after_crash: false,
        hot_standby: false,
        archive_mode: 0,
        replica_wal: true,
        endpoint: Some("https://s3".to_string()),
        bucket: Some("b".to_string()),
        region: Some("r".to_string()),
        prefix: Some("p/".to_string()),
        fenced_head: None,
    }
}

#[test]
fn a_server_starts_only_with_settings_that_fit() {
    assert!(settings().wanted().unwrap());
    assert!(settings().check().is_ok());
    let bad = |change: fn(&mut Settings)| {
        let mut s = settings();
        change(&mut s);
        s.check().is_err()
    };
    assert!(bad(|s| s.strict = false));
    assert!(bad(|s| s.memory_wal_mb = 0));
    assert!(bad(|s| s.restart_after_crash = true));
    assert!(bad(|s| s.hot_standby = true));
    assert!(bad(|s| s.replica_wal = false));
    assert_eq!(settings().memory_limit(), Some(64 * 1048576));
    let l = settings().location().unwrap();
    assert_eq!((l.bucket.as_str(), l.prefix.as_str()), ("b", "p/"));
    let mut s = settings();
    s.bucket = None;
    assert!(s.location().is_err());
    assert!(check_capacity(SEGMENT, 64 * SEGMENT).is_ok());
    assert!(check_capacity(SEGMENT, SEGMENT).is_err());
    assert_eq!(lock_name("data"), ".data.object-wal.lock");
    assert_eq!(stage_name("data", "f00"), ".data.restore-f00");
}

#[test]
fn a_bucket_is_taken_over_only_where_it_stands_still() {
    assert_eq!(check_unused(&Vec::new()).unwrap(), None);
    let a = Object { body: b"x".to_vec(), etag: "1".to_string() };
    let b = Object { body: b"y".to_vec(), etag: "1".to_string() };
    assert!(check_unmoved(&a, &a.copy()).is_ok());
    assert!(check_unmoved(&b, &a).is_err());
    assert!(check_fenced(&a, "nothing like it").is_err());
    assert!(check_fenced(&a, &digest(b"x")).is_ok());
    assert!(settings().check_creation(false).is_ok());
    assert_eq!(said(settings().check_creation(true)), "S3 archive already exists");
    assert!(settings().fenced().is_err());
    let mut fenced = settings();
    fenced.fenced_head = Some(digest(b"x"));
    assert_eq!(fenced.fenced().unwrap(), digest(b"x"));
    assert_eq!(
        said(fenced.check_creation(false)),
        "creation must not supply a replacement authorization"
    );
    let stray = vec!["notes.txt".to_string()];
    assert_eq!(check_unused(&stray).unwrap(), Some("notes.txt".to_string()));
    assert!(check_unused(&vec![format!("chunks/{}", digest(b"x"))]).is_err());
}

#[test]
fn recovery_is_told_where_to_end() {
    let mut bucket = Bucket(BTreeMap::new());
    let head = found(&mut bucket);
    let choices = recovery_settings(&head).unwrap();
    let of = |n: &str| choices.iter().find(|(k, _)| k == n).map(|(_, v)| v.as_str());
    assert_eq!(of("recovery_target_lsn"), Some("0/100040"), "the last record");
    assert_eq!(of("recovery_target_timeline"), Some("1"));
    assert_eq!(of("recovery_target_action"), Some("promote"));
    assert_eq!(of("restore_command"), Some(""));
}

#[test]
fn strict_synchronous_servers_keep_their_settings() {
    assert_eq!(strict_sync::context(true, "fsync", Context::Sighup), Context::Postmaster);
    assert_eq!(strict_sync::context(false, "fsync", Context::Sighup), Context::Sighup);
    assert_eq!(strict_sync::context(true, "work_mem", Context::UserSet), Context::UserSet);
    assert!(strict_sync::blank(" \t"));
    assert!(!strict_sync::blank("a"));
    let s = strict_sync::Settings {
        fsync: Some(true),
        restart_after_crash: Some(false),
        synchronous_commit: Some(CommitLevel::RemoteFlush),
        synchronous_standby_names: Some("a".to_string()),
        max_wal_senders: Some(10),
    };
    assert!(s.configure(true, false).is_ok());
    let off = strict_sync::Settings { fsync: Some(false), ..s };
    assert!(off.configure(true, false).is_err());
    assert!(!off.configure(false, false).unwrap());
}

#[test]
fn positions_and_digests_are_written_and_read() {
    let chars: Vec<char> = "A/10".chars().collect();
    assert_eq!(lsn(&chars).unwrap(), 0xa_0000_0010);
    assert_eq!(lsn_text(0xa_0000_0010), "A/10");
    assert!(lsn(&['1']).is_err());
    assert_eq!(hex(&[0, 255, 16]), "00ff10");
    assert_eq!(
        digest(b"abc"),
        "ba7816bf8f01cfea414140de5dae2223b00361a396177a9cb410ff61f20015ad"
    );
    assert_eq!(setting(Some("v".to_string()), "n").unwrap(), "v");
    assert!(setting(None, "n").is_err());
}

#[test]
fn a_control_file_must_fit_the_history() {
    let mut bucket = Bucket(BTreeMap::new());
    let head = found(&mut bucket);
    let c = Control {
        valid: true,
        version: 1800,
        system_identifier: 42,
        segment_bytes: SEGMENT as u32,
    };
    assert!(check_control(&c, 1800, &head).is_ok());
    assert!(check_control(&c, 1700, &head).is_err());
    let other = Control { system_identifier: 41, ..c };
    assert!(check_control(&other, 1800, &head).is_err());
    assert!(is_power_of_two(SEGMENT as u64));
    assert!(!is_power_of_two(12));
    assert!(is_decimal("42", 42));
    assert!(!is_decimal("042", 42));
}

#[test]
fn a_manifest_must_fit_its_backup() {
    let mut bucket = Bucket(BTreeMap::new());
    let head = found(&mut bucket);
    let info = read_json(bucket.get("backups", text(&head, "backup").unwrap()));
    let fits = from_text(
        "{\"System-Identifier\":42,\"WAL-Ranges\":[{\"Timeline\":1,\"Start-LSN\":\"0/100028\",\"End-LSN\":\"0/100040\"}]}",
    );
    assert!(check_manifest(&info, &fits).is_ok());
    let elsewhere = from_text(
        "{\"System-Identifier\":42,\"WAL-Ranges\":[{\"Timeline\":1,\"Start-LSN\":\"0/100029\",\"End-LSN\":\"0/100040\"}]}",
    );
    assert!(check_manifest(&info, &elsewhere).is_err());
}

#[test]
fn a_sweep_stops_where_the_bucket_was_lost() {
    let a = Object { body: b"x".to_vec(), etag: "1".to_string() };
    let b = Object { body: b"y".to_vec(), etag: "2".to_string() };
    let dead = format!("chunks/{}", "a".repeat(64));
    let live = Names::new();
    match sweep(&a, &a.copy(), &vec![dead.clone(), "head".to_string()], &live).unwrap() {
        Sweep::Delete { keys, after } => {
            assert_eq!(keys, vec![dead.clone()]);
            assert_eq!(after, "head");
        }
        Sweep::Over => panic!("there are keys left"),
    }
    assert!(matches!(sweep(&a, &a.copy(), &Vec::new(), &live).unwrap(), Sweep::Over));
    assert!(sweep(&b, &a, &vec![dead], &live).is_err());
}
