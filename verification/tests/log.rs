use objwal::archive::{check_history, check_metadata, heads, history_rows, num, text};
use objwal::decode::{check_bounds, first_record, last_record, Input, Reading, RecordWalk};
use objwal::image::{is_plain, safe, size, File, Image, Piece, PAGE, SALT};
use objwal::json::Json;
use objwal::memory_wal::{MemoryWal, RetainedWal, Segment, WalError};
use objwal::names::Names;
use objwal::pages::{increment_offset, patch, upload};
use objwal::rebuild::{check_boundary, check_chunk, span, window, Rebuilt};
use objwal::refusal::Refusal;
use objwal::renewal::{
    check_journal, completed_at, journal, orphans, validate_retirement, Done, Inventory,
};

fn text_of(s: &str) -> Json {
    Json::Text(s.to_string())
}

fn object(fields: Vec<(&str, Json)>) -> Json {
    let mut out = Json::Object(Vec::new());
    for (k, v) in fields {
        out.set(k, v);
    }
    out
}

fn root() -> Json {
    object(vec![
        ("version", Json::Number(2)),
        ("cluster", text_of("42")),
        ("timeline", Json::Number(1)),
        ("start", Json::Number(16777216)),
        ("end", Json::Number(16785408)),
        ("record_start", Json::Number(16780000)),
        ("tail", text_of("abc")),
        ("epoch", text_of("e")),
        ("revision", text_of("r")),
    ])
}

fn child_of(parent: Json) -> Json {
    let mut child = parent.copy();
    child.set("timeline", Json::Number(2));
    child.set(
        "transition",
        object(vec![
            ("parent", parent),
            ("fork", Json::Number(16785408)),
            ("history", text_of("abc")),
        ]),
    );
    child
}

#[test]
fn timeline_requires_exact_parent() {
    let mut child = child_of(root());
    assert_eq!(heads(&child).unwrap().len(), 2);
    child.set("tail", text_of("wrong"));
    assert!(heads(&child).is_err());
    let h = b"1\t0/1002000\trecovery\n";
    check_history(h, &root(), b"").unwrap();
    assert!(check_history(b"1\t0/1002001\twrong\n", &root(), b"").is_err());
}

#[test]
fn obsolete_archive_version_is_refused() {
    let mut head = root();
    head.set("version", Json::Number(1));
    assert!(heads(&head).is_err());
}

fn segments() -> Vec<Segment> {
    vec![
        Segment { tli: 1, seg: 1, bytes: vec![1; 16] },
        Segment { tli: 1, seg: 2, bytes: vec![2; 16] },
    ]
}

#[test]
fn retained_span_refuses_holes_and_capacity() {
    let s = segments();
    assert_eq!(span(&s, 1, 24, 40, 16, 32).unwrap(), [vec![1; 8], vec![2; 8]].concat());
    assert!(span(&s, 1, 24, 56, 16, 32).is_err());
    assert!(span(&s, 1, 16, 48, 16, 16).is_err());
}

#[test]
fn retirement_needs_both_native_cutoff_and_selected_archive_floor() {
    let mut s = RetainedWal::new(16, 64, 2);
    for n in 1..=4u64 {
        s.write(1, n * 16, &[n as u8; 16]).unwrap();
    }
    s.reap(3);
    assert!(!s.contains(1, 1));
    assert!(s.contains(1, 2));
    s.advance_archive_floor(4 * 16);
    // Advancing the archive floor alone does not recycle native readers' bytes.
    assert!(s.contains(1, 2));
    s.reap(2);
    assert!(!s.contains(1, 2));
    assert!(s.contains(1, 3));
    s.write(1, 80, &[5; 16]).unwrap();
}

#[test]
fn owned_partial_pages_survive_reuse_and_capacity_refusal() {
    let mut s = RetainedWal::new(16, 32, 1);
    let mut source = [1; 8];
    s.write(1, 16, &source).unwrap();
    source.fill(9); // insertion ring can now reuse its original storage
    s.write(1, 20, &[2; 4]).unwrap();
    s.write(1, 32, &[3; 16]).unwrap();
    assert!(s.write(1, 48, &[4]).is_err());
    let mut bytes = [0; 24];
    assert!(s.read(1, 24, &mut bytes));
    assert_eq!(&bytes[..8], &[0; 8]);
    assert_eq!(&bytes[8..], &[3; 16]);
    assert!(s.read(1, 16, &mut source));
    assert_eq!(source, [1, 1, 1, 1, 2, 2, 2, 2]);
    assert!(!s.read(2, 16, &mut source));
    assert_eq!(s.count() * s.segment_size(), 32);
}

#[test]
fn retained_writes_say_why_they_fail() {
    let mut s = RetainedWal::new(16, 16, 0);
    assert_eq!(s.write(1, 10, &[0; 7]), Err(WalError::CrossesSegment));
    assert_eq!(s.write(0, 0, &[1]), Err(WalError::InvalidPosition));
    assert_eq!(s.write(1, u64::MAX, &[1]), Err(WalError::InvalidPosition));
    s.write(1, 0, &[1]).unwrap();
    assert_eq!(s.write(1, 16, &[1]), Err(WalError::Capacity));
    assert_eq!(
        WalError::Capacity.message(),
        "memory WAL: memory WAL capacity exhausted; snapshot renewal or a WAL consumer has fallen behind"
    );
    assert_eq!(s.reap(9), None, "nothing below the floor");
    s.advance_archive_floor(32);
    assert_eq!(s.reap(9), Some(0));
}

#[test]
fn the_process_holds_one_retained_log() {
    let mut w = MemoryWal::new();
    assert!(!w.initialized());
    assert_eq!(w.write(1, 16, &[7]), Err(WalError::Uninitialized));
    assert_eq!(w.initialize(Vec::new(), 64, 16), Err(WalError::InvalidSeed));
    let short = vec![Segment { tli: 1, seg: 1, bytes: vec![0; 3] }];
    assert_eq!(w.initialize(short, 64, 16), Err(WalError::InvalidSeed));
    w.initialize(segments(), 64, 16).unwrap();
    assert_eq!(w.initialize(segments(), 64, 16), Err(WalError::AlreadyInitialized));
    assert_eq!(w.oldest_segment(1), 1);
    assert_eq!(w.oldest_segment(2), 0);
    w.fork(1, 2, 24).unwrap();
    let mut out = [9u8; 16];
    assert!(w.read(2, 16, &mut out));
    assert_eq!(out, [1, 1, 1, 1, 1, 1, 1, 1, 0, 0, 0, 0, 0, 0, 0, 0]);
    assert_eq!(w.fork(1, 2, 24), Err(WalError::ChildExists));
    assert_eq!(w.fork(9, 3, 24), Err(WalError::MissingParent));
    assert!(w.contains(1, 2));
    w.advance_archive_floor(32);
    assert_eq!(w.retire_through(5), Some(1));
    assert!(!w.contains(1, 1));
    assert_eq!(MemoryWal::missing_bytes(), Err(WalError::MissingBytes));
}

fn piece(n: usize) -> Piece {
    Piece { key: format!("{n:064x}"), offset: SALT, length: PAGE }
}

fn increment(truncation: u32, blocks: &[u32]) -> Vec<u8> {
    let mut out = Vec::new();
    for word in
        [0xd3ae1f0du32, blocks.len() as u32, truncation].into_iter().chain(blocks.iter().copied())
    {
        out.extend_from_slice(&word.to_ne_bytes());
    }
    if !blocks.is_empty() {
        out.resize(out.len().div_ceil(PAGE) * PAGE + blocks.len() * PAGE, 0);
    }
    out
}

fn never() -> Result<Piece, Refusal> {
    panic!("no zero page is wanted")
}

fn zero() -> Result<Piece, Refusal> {
    Ok(piece(0))
}

#[test]
fn native_increment_reuses_unchanged_pages_and_truncates() {
    let previous = vec![piece(1), piece(2), piece(3)];
    assert_eq!(
        patch(&previous, &increment(2, &[1]), vec![piece(4)], never).unwrap(),
        vec![piece(1), piece(4)]
    );
    assert_eq!(patch(&previous, &increment(1, &[]), vec![], never).unwrap(), vec![piece(1)]);
    assert!(patch(&previous, &increment(3, &[2, 1]), vec![piece(4), piece(5)], never).is_err());
}

#[test]
fn extension_below_truncation_zeroes_pages_absent_from_predecessor() {
    let previous = vec![piece(1)];
    assert_eq!(
        patch(&previous, &increment(3, &[]), vec![], zero).unwrap(),
        vec![piece(1), piece(0), piece(0)]
    );
    assert_eq!(
        patch(&previous, &increment(4, &[2]), vec![piece(2)], zero).unwrap(),
        vec![piece(1), piece(0), piece(2), piece(0)]
    );
    let mut partial = piece(1);
    partial.length = 1;
    assert!(patch(&[partial], &increment(1, &[]), vec![], zero).is_err());
}

#[test]
fn extension_zeroes_holes_without_resurrecting_truncated_pages() {
    let p = vec![piece(1), piece(2), piece(3)];
    assert_eq!(
        patch(&p, &increment(1, &[3]), vec![piece(4)], zero).unwrap(),
        vec![piece(1), piece(0), piece(0), piece(4)]
    );
}

#[test]
fn repeated_updates_do_not_retain_an_ancestry_chain() {
    let mut p = vec![piece(1), piece(2)];
    for generation in 3..30 {
        p = patch(&p, &increment(2, &[1]), vec![piece(generation)], never).unwrap();
        assert_eq!(p, vec![piece(1), piece(generation)]);
    }
}

#[test]
fn a_file_is_cut_into_salted_objects() {
    let generation = "0123456789abcdef0123456789abcdef";
    let up = upload(generation, &vec![7u8; PAGE + 1]);
    assert_eq!(up.pieces.len(), 2);
    assert_eq!((up.pieces[0].offset, up.pieces[0].length), (SALT, PAGE));
    assert_eq!((up.pieces[1].offset, up.pieces[1].length), (SALT + PAGE, 1));
    assert_eq!(up.pieces[0].key, up.pieces[1].key);
    assert_eq!(up.pieces[0].key.len(), 64);
    assert_eq!(up.bodies.len(), 1);
    assert_eq!(&up.bodies[0][..SALT], generation.as_bytes());
    assert_eq!(up.bodies[0].len(), SALT + PAGE + 1);
    let other = upload("1123456789abcdef0123456789abcdef", &vec![7u8; PAGE + 1]);
    assert_ne!(other.pieces[0].key, up.pieces[0].key, "the salt makes the name");
    assert_eq!(increment_offset(0), 12);
    assert_eq!(increment_offset(1), PAGE);
    assert_eq!(increment_offset(2046), 2 * PAGE);
}

fn names(list: &[&str]) -> Names {
    let mut out = Names::new();
    for n in list {
        out.insert(n.to_string());
    }
    out
}

#[test]
fn journal_cannot_delete_shared_pages_or_recovery_metadata() {
    let page = format!("backup-chunks/{}", "a".repeat(64));
    let root = format!("snapshot-index/{}", "b".repeat(64));
    let live = names(&[&page, &root]);
    let dead = format!("chunks/{}", "c".repeat(64));
    assert!(validate_retirement(&[dead.clone()], &live).is_ok());
    assert!(validate_retirement(&[dead.clone(), page], &live).is_err());
    assert!(validate_retirement(&[dead, root], &live).is_err());
    assert!(validate_retirement(&["head".into()], &live).is_err());
    assert!(validate_retirement(&["chunks/../head".into()], &live).is_err());
}

#[test]
fn only_what_nothing_needs_is_swept() {
    let a = format!("chunks/{}", "a".repeat(64));
    let b = format!("chunks/{}", "b".repeat(64));
    let live = names(&[&a]);
    let keys = vec!["head".to_string(), a.clone(), b.clone()];
    assert_eq!(orphans(&keys, &live), vec![b.clone()]);
    assert!(check_journal(&vec![b], &live).is_ok());
    assert!(check_journal(&vec![a], &live).is_err());
}

#[test]
fn a_journal_is_read_and_checked_before_anything_is_deleted() {
    let a = format!("chunks/{}", "a".repeat(64));
    let b = format!("chunks/{}", "b".repeat(64));
    let live = names(&[&a]);
    let text = format!("[ \"{b}\" ]");
    assert_eq!(journal(text.as_bytes(), &live).unwrap(), vec![b.clone()]);
    assert_eq!(journal(b"[]", &live).unwrap(), Vec::<String>::new());
    let said = |t: &str| match journal(t.as_bytes(), &live) {
        Ok(_) => "ok".to_string(),
        Err(e) => e.message(),
    };
    assert_eq!(said("[1]"), "retirement journal is not a list of keys");
    assert_eq!(said("["), "retirement journal is not a list of keys");
    assert_eq!(
        said(&format!("[\"{a}\"]")),
        "retirement journal includes a protected or unsupported object"
    );
    let many = vec![format!("\"{b}\""); 100_001].join(",");
    assert_eq!(said(&format!("[{many}]")), "retirement inventory limit");
}

#[test]
fn a_finished_export_waits_for_what_it_ends_at() {
    let mut none: Option<Done> = None;
    assert!(completed_at(&mut none, 9).is_none());
    let mut done = Some(Done::Cleanup);
    assert!(matches!(completed_at(&mut done, 0), Some(Done::Cleanup)));
    assert!(done.is_none());
}

#[test]
fn an_inventory_follows_the_chain_to_its_start() {
    let mut inv = Inventory::begin(&object(vec![("tail", Json::Null)]));
    assert_eq!(inv.next().unwrap(), None);
    let tail = "a".repeat(64);
    let mut inv = Inventory::begin(&object(vec![("tail", text_of(&tail))]));
    assert_eq!(inv.next().unwrap(), Some(tail.clone()));
    let mut inv = Inventory::begin(&object(vec![("tail", Json::Number(3))]));
    assert_eq!(inv.next().unwrap(), None, "what is no name ends the chain");
}

#[test]
fn partial_flush_does_not_advance_past_a_complete_record() {
    const SEGMENT: usize = 1024 * 1024;
    let base = SEGMENT as u64;
    let bytes = vec![0u8; 88];
    // What a reader makes of two records of 24 bytes behind a page header of 40.
    let read = |data: &[u8], start: u64, records: &[(u64, u64)], error: Option<&str>| {
        let reading = Reading {
            positioned: true,
            records: records.to_vec(),
            error: error.map(|e| e.to_string()),
        };
        last_record(data, base, base + data.len() as u64, start, SEGMENT, &reading)
    };
    let first = (base + 40, base + 64);
    let second = (base + 64, base + 88);
    assert_eq!(read(&bytes[..80], base, &[first], None).unwrap(), (base + 40, base + 64));
    assert_eq!(read(&bytes[..80], base + 64, &[], None).unwrap(), (0, 0));
    assert_eq!(read(&bytes[..80], base + 64, &[second], None).unwrap(), (0, 0));
    assert_eq!(read(&bytes, base + 64, &[second], None).unwrap(), (base + 64, base + 88));
    assert!(read(&bytes, base + 64, &[], Some("incorrect checksum")).is_err());
}

#[test]
fn the_first_record_is_the_one_asked_for() {
    const SEGMENT: usize = 1024 * 1024;
    let base = SEGMENT as u64;
    let bytes = vec![0u8; 88];
    let reading = Reading {
        positioned: true,
        records: vec![(base + 40, base + 64), (base + 64, base + 88)],
        error: None,
    };
    assert_eq!(first_record(&bytes, base, base, SEGMENT, &reading).unwrap(), (base + 40, base + 64));
    assert!(check_bounds(&bytes, base, base + 88, base, SEGMENT).is_ok());
    assert!(check_bounds(&bytes, base + 1, base + 89, base + 1, SEGMENT).is_err());
    let mut walk = RecordWalk::new(100, false);
    walk.take(10, 50);
    assert!(walk.wants());
    walk.take(50, 101);
    assert!(!walk.wants());
    assert_eq!(walk.last(), (10, 50));
}

#[test]
fn a_page_is_read_as_far_as_the_input_goes() {
    let bytes = [1u8, 2, 3, 4];
    let input = Input { bytes: &bytes, base: 100, end: 104, timeline: 1 };
    let mut buffer = [0u8; 8];
    assert_eq!(input.page_read(100, 2, &mut buffer), 4);
    assert_eq!(buffer, [1, 2, 3, 4, 0, 0, 0, 0]);
    assert_eq!(input.page_read(102, 3, &mut buffer), -1);
    assert_eq!(input.page_read(99, 1, &mut buffer), -1);
    assert_eq!(input.page_read(104, 0, &mut buffer), -1);
}

#[test]
fn metadata_has_numbers_and_texts() {
    let r = root();
    assert_eq!(num(&r, "start").unwrap(), 16777216);
    assert_eq!(text(&r, "tail").unwrap(), "abc");
    assert!(num(&r, "tail").is_err());
    assert!(text(&r, "none").is_err());
    assert!(check_metadata(&[0; 10]).is_ok());
    assert!(check_metadata(&vec![0; 1048577]).is_err());
}

#[test]
fn a_history_file_names_timelines_and_where_they_end() {
    assert_eq!(
        history_rows(b"1\t0/1002000\tfork\n# note\n\n2\tA/10\tx\n").unwrap(),
        vec![(1, 0x1002000), (2, 0xa_0000_0010)]
    );
    assert!(history_rows(b"x\t0/10\n").is_err());
}

#[test]
fn the_log_is_rebuilt_from_its_chunks() {
    let mut log = Rebuilt::new(16, 64);
    log.pour(1, 8, &[1; 16]).unwrap();
    log.pour(1, 24, &[2; 8]).unwrap();
    assert_eq!(log.segments().len(), 2);
    log.fork_prefix(1, 20, 2).unwrap();
    let s = log.into_segments();
    assert_eq!(s.len(), 3);
    assert_eq!(span(&s, 1, 8, 32, 16, 64).unwrap(), [vec![1; 16], vec![2; 8]].concat());
    assert_eq!(span(&s, 2, 16, 20, 16, 64).unwrap(), vec![1; 4]);
    assert!(Rebuilt::new(16, 16).pour(1, 0, &[1; 20]).is_err());
}

#[test]
fn a_head_has_a_window_of_log() {
    let head = root();
    let got = window(&head, &head, None, 16777216).unwrap();
    assert_eq!(got, Some((16777216, 16785408, 16777216)));
    assert!(check_boundary((16780000, 16785408), &head).is_ok());
    assert!(check_boundary((16780001, 16785408), &head).is_err());
}

#[test]
fn a_chunk_is_as_long_as_its_descriptor_says() {
    let d = object(vec![("start", Json::Number(16)), ("end", Json::Number(19))]);
    assert_eq!(check_chunk(&d, b"abc").unwrap(), 16);
    assert_eq!(check_chunk(&d, b"ab").unwrap_err().message(), "WAL chunk length mismatch");
    assert!(check_chunk(&object(vec![("start", Json::Number(16))]), b"abc").is_err());
}

#[test]
fn snapshot_paths_stay_inside() {
    assert!(safe("base/5/16384"));
    assert!(!safe("../x"));
    assert!(!safe("/x"));
    assert!(!safe("a//b"));
    assert!(!safe(""));
    assert!(is_plain("a/b"));
    assert!(!is_plain("a/./b"));
    assert_eq!(size(&vec![piece(1), piece(2)]), 2 * PAGE);
}

#[test]
fn an_image_is_checked_before_it_is_used() {
    let file = |path: &str| File { path: path.to_string(), pieces: vec![piece(1)] };
    let mut image = Image {
        files: vec![file("backup_label"), file("global/pg_control")],
        dirs: names(&["global"]),
        system: 42,
        ranges: Json::List(Vec::new()),
    };
    assert_eq!(image.find("global/pg_control"), (true, 1));
    assert_eq!(image.find("c"), (false, 1));
    assert_eq!(image.objects().len(), 1);
    assert!(image.validate().is_ok());
    image.files.push(file("zz/../y"));
    assert!(image.validate().is_err());
}
