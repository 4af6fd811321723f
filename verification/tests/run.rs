use objwal::commit::Op;
use objwal::key::{row_of, seek_at, seq_of, versioned, LATEST};
use objwal::run::{
    build, delta_key_for, is_delta, key_for, run_key_of_seal, seal_key_for, BlockCache, RangeSource,
    Run,
};
use objwal::run_format::{RunError, RunErrorKind, MAGIC_V2, TRAILER_LEN};
use std::cell::Cell;

/// Counts ranged reads.
struct Counting<'a> {
    bytes: &'a [u8],
    reads: Cell<usize>,
}

impl RangeSource for Counting<'_> {
    fn range(&self, offset: u64, len: u64) -> Result<Vec<u8>, RunError> {
        self.reads.set(self.reads.get() + 1);
        self.bytes.range(offset, len)
    }

    fn size(&self) -> u64 {
        self.bytes.len() as u64
    }
}

fn row(i: usize) -> Vec<u8> {
    format!("key{i:08}").into_bytes()
}

/// One version of each row, all stamped at seq 1.
fn entries(n: usize) -> Vec<(Vec<u8>, Op)> {
    let mut e: Vec<(Vec<u8>, Op)> =
        (0..n).map(|i| (versioned(&row(i), 1), Op::Put(vec![b'v'; 100]))).collect();
    e.sort_by(|a, b| a.0.cmp(&b.0));
    e
}

fn error_of<T>(r: Result<T, RunError>) -> RunError {
    match r {
        Ok(_) => panic!("should have failed"),
        Err(e) => e,
    }
}

#[test]
fn finds_every_key_it_stored() {
    let e = entries(5000);
    let bytes = build(&e, 0);
    let mut run = Run::open(bytes.as_slice()).unwrap();
    assert_eq!(run.entry_count, 5000);
    assert!(run.block_count() > 1, "should span several blocks");
    for (k, v) in &e {
        let r = row_of(k).unwrap();
        assert_eq!(run.get_at(r, LATEST).unwrap().as_ref(), Some(v));
    }
}

#[test]
fn point_read_costs_one_ranged_get_after_open() {
    let bytes = build(&entries(5000), 0);
    let src = Counting { bytes: bytes.as_slice(), reads: Cell::new(0) };
    let mut run = Run::open(src).unwrap();
    run.set_cache_bytes(0); // measure raw reads, not cache behaviour
    assert_eq!(run.src.reads.get(), 2);
    run.get_at(b"key00002500", LATEST).unwrap();
    assert_eq!(run.src.reads.get(), 3, "a hit must cost exactly one more read");
}

#[test]
fn absent_keys_usually_cost_nothing() {
    let bytes = build(&entries(2000), 0);
    let src = Counting { bytes: bytes.as_slice(), reads: Cell::new(0) };
    let mut run = Run::open(src).unwrap();
    let before = run.src.reads.get();
    for i in 0..500 {
        let k = format!("absent{i:08}");
        assert!(run.get_at(k.as_bytes(), LATEST).unwrap().is_none());
    }
    let fetched = run.src.reads.get() - before;
    assert!(fetched < 50, "bloom let {fetched}/500 misses through to a read");
}

#[test]
fn cache_turns_a_repeat_read_into_zero_gets() {
    let bytes = build(&entries(5000), 0);
    let src = Counting { bytes: bytes.as_slice(), reads: Cell::new(0) };
    let mut run = Run::open(src).unwrap();
    let k = b"key00002500";
    run.get_at(k, LATEST).unwrap();
    let after_first = run.src.reads.get();
    for _ in 0..100 {
        run.get_at(k, LATEST).unwrap();
    }
    assert_eq!(run.src.reads.get(), after_first, "repeat reads must be free");
    let (hits, misses) = run.cache_stats();
    assert_eq!((hits, misses), (100, 1));
}

#[test]
fn a_prefix_scan_seeks_instead_of_reading_the_run() {
    let mut e: Vec<(Vec<u8>, Op)> = Vec::new();
    for i in 0..20_000usize {
        // Two prefixes, interleaved so neither is contiguous by accident.
        let p = if i % 2 == 0 { "aaa" } else { "bbb" };
        e.push((versioned(format!("{p}/{i:08}").as_bytes(), 1), Op::Put(vec![b'v'; 60])));
    }
    e.sort_by(|a, b| a.0.cmp(&b.0));
    let bytes = build(&e, 0);
    let src = Counting { bytes: &bytes, reads: Default::default() };
    let mut run = Run::open(src).unwrap();
    assert!(run.block_count() > 10, "needs enough blocks for the test to mean anything");

    let before = run.src.reads.get();
    let hits = run.scan_prefix(b"aaa/00000042").unwrap();
    let reads = run.src.reads.get() - before;
    assert_eq!(hits.len(), 1);
    assert!(reads <= 2, "a point prefix cost {reads} ranged reads, not a seek");

    // A wide prefix reads only its own share of the run.
    let before = run.src.reads.get();
    let all_a = run.scan_prefix(b"aaa/").unwrap();
    let reads = run.src.reads.get() - before;
    assert_eq!(all_a.len(), 10_000);
    assert!(
        reads < run.block_count(),
        "reading half the keys touched {reads} of {} blocks",
        run.block_count()
    );

    assert!(run.scan_prefix(b"zzz/").unwrap().is_empty());
    assert_eq!(run.scan_prefix(b"").unwrap().len(), 20_000);
}

#[test]
fn scan_returns_everything_in_key_order() {
    let e = entries(3000);
    let bytes = build(&e, 0);
    let mut run = Run::open(bytes.as_slice()).unwrap();
    let got = run.scan().unwrap();
    assert_eq!(got.len(), e.len());
    assert!(got.windows(2).all(|w| w[0].0 < w[1].0), "scan must be sorted");
    assert_eq!(got[0].0, e[0].0);
    assert_eq!(got, e);
}

#[test]
fn preserves_tombstones() {
    let mut e = vec![
        (versioned(b"a", 1), Op::Put(b"1".to_vec())),
        (versioned(b"b", 1), Op::Delete),
    ];
    e.sort_by(|x, y| x.0.cmp(&y.0));
    let bytes = build(&e, 0);
    let mut run = Run::open(bytes.as_slice()).unwrap();
    assert_eq!(run.get_at(b"b", LATEST).unwrap(), Some(Op::Delete));
    assert_eq!(run.get_at(b"c", LATEST).unwrap(), None);
}

#[test]
fn a_run_opened_from_its_bytes_reads_no_metadata_over_the_wire() {
    let bytes = build(&entries(3000), 0);
    let src = Counting { bytes: bytes.as_slice(), reads: Cell::new(0) };
    let mut run = Run::open_from_bytes(src, &bytes).unwrap();
    assert_eq!(run.src.reads.get(), 0, "trailer and index came from memory");
    assert_eq!(run.entry_count, 3000);
    assert_eq!(run.get_at(b"key00000042", LATEST).unwrap(), Some(Op::Put(vec![b'v'; 100])));
    assert_eq!(run.src.reads.get(), 1, "the block itself still comes from the source");

    let short = &bytes[..bytes.len() - 1];
    assert!(Run::open_from_bytes(short, &bytes).is_err(), "size mismatch is refused");
    assert_eq!(error_of(Run::open_from_bytes(short, &bytes)), RunError::SizeMismatch);
}

#[test]
fn detects_metadata_corruption() {
    let mut bytes = build(&entries(100), 0);
    let n = bytes.len();
    bytes[n - (TRAILER_LEN as usize) - 5] ^= 0xff;
    assert!(Run::open(bytes.as_slice()).is_err());
    assert_eq!(error_of(Run::open(bytes.as_slice())), RunError::MetaChecksum);
}

#[test]
fn a_flipped_bit_in_a_block_is_an_error_not_a_missing_row() {
    let e = entries(40);
    let good = build(&e, 0);
    let run = Run::open(good.as_slice()).unwrap();
    let (_, first_off, first_len) = run.index[0].clone();
    assert_eq!(first_off, 0);
    let mut checked = 0;
    for byte in (0..first_len as usize).step_by(13) {
        for bit in 0..8 {
            let mut torn = good.clone();
            torn[byte] ^= 1 << bit;
            let mut run = Run::open(torn.as_slice()).unwrap();
            run.set_cache_bytes(0);
            let scan = run.scan();
            assert!(scan.is_err(), "byte {byte} bit {bit}: scan served a torn block");
            for (k, _) in &e {
                let r = row_of(k).unwrap();
                let got = run.get_at(r, LATEST);
                if !matches!(got, Ok(Some(_)) | Err(_)) {
                    panic!("byte {byte} bit {bit}: row {:?} read as missing", r);
                }
                if let Ok(Some(v)) = &got {
                    let want = &e.iter().find(|(kk, _)| kk == k).unwrap().1;
                    assert_eq!(v, want, "a wrong value came back");
                }
            }
            checked += 1;
        }
    }
    assert!(checked > 100);
    let err = {
        let mut torn = good.clone();
        torn[3] ^= 0x01;
        error_of(Run::open(torn.as_slice()).unwrap().scan())
    };
    assert_eq!(err.kind(), RunErrorKind::InvalidData);
    assert!(err.message().contains("checksum"), "{}", err.message());
}

struct Short<'a>(&'a [u8]);

impl RangeSource for Short<'_> {
    fn range(&self, offset: u64, len: u64) -> Result<Vec<u8>, RunError> {
        let full = self.0.range(offset, len)?;
        // The trailer and metadata come back whole; a block comes back short, as a ranged read
        // that was cut off does.
        if offset + len < self.0.len() as u64 - TRAILER_LEN {
            Ok(full[..full.len() / 2].to_vec())
        } else {
            Ok(full)
        }
    }

    fn size(&self) -> u64 {
        self.0.len() as u64
    }
}

#[test]
fn a_short_block_read_is_an_error_not_a_missing_row() {
    let bytes = build(&entries(50), 0);
    let mut run = Run::open(Short(&bytes)).unwrap();
    assert!(run.get_at(b"key00000010", LATEST).is_err());
    assert!(run.scan().is_err());
}

#[test]
fn a_flipped_bit_in_the_trailer_is_detected() {
    let good = build(&entries(100), 0);
    let n = good.len();
    // Every field but the magic (which has its own check) is covered.
    for byte in n - TRAILER_LEN as usize..n - 4 {
        let mut torn = good.clone();
        torn[byte] ^= 0x10;
        let err = error_of(Run::open(torn.as_slice())).message();
        assert!(
            err.contains("checksum") || err.contains("magic"),
            "trailer byte {} flipped: {err}",
            byte - (n - TRAILER_LEN as usize)
        );
    }
}

#[test]
fn an_older_run_format_is_refused_by_name() {
    let mut bytes = build(&entries(10), 0);
    let n = bytes.len();
    bytes[n - 4..].copy_from_slice(&MAGIC_V2.to_le_bytes());
    let err = error_of(Run::open(bytes.as_slice())).message();
    assert!(err.contains("format 2"), "{err}");
    assert!(err.contains("format 3"), "{err}");
    bytes[n - 4..].copy_from_slice(&0xdead_beefu32.to_le_bytes());
    assert!(error_of(Run::open(bytes.as_slice())).message().contains("magic"));
}

#[test]
fn the_horizon_rides_in_the_trailer() {
    let e = entries(10);
    let plain = build(&e, 0);
    assert_eq!(Run::open(plain.as_slice()).unwrap().horizon, 0);
    let bytes = build(&e, 42);
    let run = Run::open(bytes.as_slice()).unwrap();
    assert_eq!(run.horizon, 42);
    assert_eq!(run.entry_count, 10, "and the count still reads");
    let run = Run::open_from_bytes(bytes.as_slice(), &bytes).unwrap();
    assert_eq!(run.horizon, 42);
}

#[test]
fn seal_keys_mirror_run_keys() {
    assert_eq!(seal_key_for(&key_for(5)), "sealed/0000000000000005");
    assert_eq!(seal_key_for(&delta_key_for(5)), "sealed/0000000000000005.d");
    assert_eq!(
        run_key_of_seal("sealed/0000000000000005.d").as_deref(),
        Some("run/0000000000000005.d")
    );
    assert_eq!(run_key_of_seal(&key_for(5)), None);
}

#[test]
fn a_run_answers_at_any_snapshot_it_holds() {
    let mut e: Vec<(Vec<u8>, Op)> = Vec::new();
    for i in 0..2000 {
        e.push((versioned(&row(i), 1), Op::Put(vec![b'p'; 60])));
    }
    e.push((versioned(&row(900), 4), Op::Put(b"at-four".to_vec())));
    e.push((versioned(&row(900), 9), Op::Put(b"at-nine".to_vec())));
    e.push((versioned(&row(901), 7), Op::Delete));
    e.sort_by(|a, b| a.0.cmp(&b.0));

    let bytes = build(&e, 0);
    let mut run = Run::open(bytes.as_slice()).unwrap();
    let mut val = |snap| match run.get_at(&row(900), snap).unwrap() {
        Some(Op::Put(v)) => String::from_utf8(v).unwrap(),
        other => panic!("unexpected {other:?}"),
    };
    assert_eq!(val(LATEST), "at-nine");
    assert_eq!(val(9), "at-nine");
    assert_eq!(val(8), "at-four", "snapshot 8 predates version 9");
    assert_eq!(val(4), "at-four");
    assert_eq!(val(3).len(), 60, "before either update, the original");
    assert_eq!(run.get_at(&row(900), 0).unwrap(), None, "before it existed");

    // A tombstone is a version like any other: visible as deleted after it, and invisible
    // before it.
    assert_eq!(run.get_at(&row(901), LATEST).unwrap(), Some(Op::Delete));
    assert!(matches!(run.get_at(&row(901), 6).unwrap(), Some(Op::Put(_))));
}

#[test]
fn the_version_found_is_named_by_its_commit() {
    let mut e = vec![
        (versioned(b"a", 3), Op::Put(b"three".to_vec())),
        (versioned(b"a", 8), Op::Delete),
        (versioned(b"b", 5), Op::Put(b"five".to_vec())),
    ];
    e.sort_by(|x, y| x.0.cmp(&y.0));
    let bytes = build(&e, 0);
    let mut run = Run::open(bytes.as_slice()).unwrap();
    assert_eq!(run.seq_at(b"a", LATEST).unwrap(), Some(8));
    assert_eq!(run.seq_at(b"a", 7).unwrap(), Some(3));
    assert_eq!(run.seq_at(b"a", 2).unwrap(), None);
    let (k, op) = run.locate_at(b"b", LATEST).unwrap().unwrap();
    assert_eq!(k, versioned(b"b", 5));
    assert_eq!(op, Op::Put(b"five".to_vec()));
}

#[test]
fn a_range_stops_after_as_many_rows_as_were_asked_for() {
    let bytes = build(&entries(3000), 0);
    let mut run = Run::open(bytes.as_slice()).unwrap();
    let first = run.scan_range_limited(b"key00000100", b"key00000200", LATEST, 3).unwrap();
    let rows: Vec<&[u8]> = first.iter().map(|(k, _)| row_of(k).unwrap()).collect();
    assert_eq!(rows, vec![b"key00000100", b"key00000101", b"key00000102"]);
    let last = run.scan_range_back(b"key00000100", b"key00000200", LATEST, 2).unwrap();
    let rows: Vec<&[u8]> = last.iter().map(|(k, _)| row_of(k).unwrap()).collect();
    assert_eq!(rows, vec![b"key00000198", b"key00000199"]);
    let all = run.scan_range_limited(b"key00000100", b"key00000200", LATEST, usize::MAX).unwrap();
    assert_eq!(all.len(), 100);
    assert!(run.scan_range_limited(b"key00000100", b"key00000100", LATEST, 9).unwrap().is_empty());
    assert!(run.scan_range_back(b"key00000100", b"key00000200", 0, 9).unwrap().is_empty());
}

#[test]
fn versioned_keys_sort_newest_first_and_read_back() {
    assert!(versioned(b"row", 9) < versioned(b"row", 8));
    assert!(versioned(b"row", 0) < versioned(b"rox", 9));
    assert_eq!(row_of(&versioned(b"row", 7)), Some(b"row".as_slice()));
    assert_eq!(seq_of(&versioned(b"row", 7)), Some(7));
    assert_eq!(seek_at(b"row", 7), versioned(b"row", 7));
    assert_eq!(row_of(b"short"), None);
    assert_eq!(seq_of(b"short"), None);
}

#[test]
fn delta_runs_are_told_apart() {
    assert!(is_delta("run/0000000000000005.d"));
    assert!(!is_delta("run/0000000000000005"));
    assert_eq!(key_for(0x2a), "run/000000000000002a");
    assert_eq!(delta_key_for(0x2a), "run/000000000000002a.d");
}

#[test]
fn what_is_no_run_is_refused() {
    assert_eq!(error_of(Run::open(b"too short".as_slice())), RunError::TooSmall);
    let zeros = vec![0u8; 100];
    assert_eq!(error_of(Run::open(zeros.as_slice())), RunError::BadMagic);
    let bytes = b"0123456789".as_slice();
    assert_eq!(error_of(bytes.range(5, 6)), RunError::PastEnd);
    assert_eq!(bytes.range(5, 5).unwrap(), b"56789".to_vec());
    assert_eq!(error_of(Run::open(Gone)).message(), "no such object");
    assert_eq!(error_of(Run::open(Gone)).kind(), RunErrorKind::NotFound);
    assert_eq!(RunError::BadMagic.kind(), RunErrorKind::Other);
}

struct Gone;

impl RangeSource for Gone {
    fn range(&self, _offset: u64, _len: u64) -> Result<Vec<u8>, RunError> {
        Err(RunError::Source(RunErrorKind::NotFound, "no such object".to_string()))
    }

    fn size(&self) -> u64 {
        1000
    }
}

#[test]
fn an_empty_run_answers_nothing() {
    let bytes = build(&[], 7);
    let mut run = Run::open(bytes.as_slice()).unwrap();
    assert_eq!(run.entry_count, 0);
    assert_eq!(run.horizon, 7);
    assert_eq!(run.block_count(), 0);
    assert_eq!(run.get_at(b"a", LATEST).unwrap(), None);
    assert!(run.scan().unwrap().is_empty());
    assert!(run.scan_prefix(b"").unwrap().is_empty());
}

fn run_of(mut e: Vec<(Vec<u8>, Op)>) -> Vec<u8> {
    e.sort_by(|a, b| a.0.cmp(&b.0));
    build(&e, 0)
}

fn rows_of(es: Vec<(Vec<u8>, Op)>) -> Vec<Vec<u8>> {
    es.iter().map(|e| row_of(&e.0).unwrap().to_vec()).collect()
}

#[test]
fn a_backward_scan_passes_over_rows_below_the_range() {
    let put = |r: &[u8], s: u64| (versioned(r, s), Op::Put(vec![1]));
    let bytes = run_of(vec![put(b"a", 1), put(b"a.c", 1), put(b"a.a", 1)]);
    let mut run = Run::open(bytes.as_slice()).unwrap();
    let forward = run.scan_range_limited(b"a.b", b"b", LATEST, 10).unwrap();
    let back = run.scan_range_back(b"a.b", b"b", LATEST, 10).unwrap();
    assert_eq!(rows_of(forward), vec![b"a.c".to_vec()]);
    assert_eq!(rows_of(back), vec![b"a.c".to_vec()]);
}

#[test]
fn a_point_read_is_not_misled_by_a_row_whose_name_goes_on() {
    let put = |r: &[u8], s: u64, v: u8| (versioned(r, s), Op::Put(vec![v]));
    let bytes = run_of(vec![put(b"a", 3, 1), put(b"a", 9, 2), put(b"a/5", 4, 3)]);
    let mut run = Run::open(bytes.as_slice()).unwrap();
    assert_eq!(run.get_at(b"a", LATEST).unwrap(), Some(Op::Put(vec![2])));
    assert_eq!(run.get_at(b"a", 5).unwrap(), Some(Op::Put(vec![1])));
    assert_eq!(run.get_at(b"a", 2).unwrap(), None);
    assert_eq!(run.seq_at(b"a", LATEST).unwrap(), Some(9));
    assert_eq!(run.get_at(b"a/5", LATEST).unwrap(), Some(Op::Put(vec![3])));
    assert_eq!(run.get_at(b"a/5", 3).unwrap(), None);
}

#[test]
fn every_point_read_costs_one_ranged_get_wherever_its_row_begins() {
    let mut e = Vec::new();
    for i in 0..600usize {
        for s in 1..4u64 {
            e.push((versioned(&row(i), s), Op::Put(vec![s as u8; 100])));
        }
    }
    let bytes = run_of(e);
    let src = Counting { bytes: bytes.as_slice(), reads: Cell::new(0) };
    let mut run = Run::open(src).unwrap();
    assert!(run.block_count() > 2);
    run.set_cache_bytes(0);
    for i in 0..600usize {
        for s in 1..4u64 {
            let before = run.src.reads.get();
            assert_eq!(run.get_at(&row(i), s).unwrap(), Some(Op::Put(vec![s as u8; 100])));
            assert_eq!(run.src.reads.get(), before + 1, "row {i} at {s}");
        }
        let before = run.src.reads.get();
        assert_eq!(run.get_at(&row(i), 0).unwrap(), None);
        assert!(run.src.reads.get() <= before + 1, "row {i} before its first version");
    }
}

#[test]
fn a_page_resumed_behind_its_last_row_goes_on() {
    let mut e = Vec::new();
    for i in 0..20usize {
        for s in 1..4u64 {
            e.push((versioned(&row(i), s), Op::Put(vec![s as u8])));
        }
    }
    let bytes = run_of(e);
    let mut run = Run::open(bytes.as_slice()).unwrap();
    let all = run.scan_range_limited(b"", b"z", 2, 100).unwrap();
    assert_eq!(all.len(), 40);
    let mut got = Vec::new();
    let mut lo: Vec<u8> = Vec::new();
    loop {
        let page = run.scan_range_limited(&lo, b"z", 2, 7).unwrap();
        let Some(last) = page.last() else { break };
        lo = row_of(&last.0).unwrap().to_vec();
        lo.push(0);
        got.extend(page);
    }
    assert_eq!(got, all);
    let back = run.scan_range_back(b"", b"z", 2, 7).unwrap();
    assert_eq!(back, all[26..].to_vec(), "the last rows, in the same order");
    assert_eq!(run.scan_range_back(b"", b"z", 2, 20).unwrap(), all);
}

#[test]
fn a_small_cache_keeps_the_newest_blocks() {
    let bytes = build(&entries(5000), 0);
    let src = Counting { bytes: bytes.as_slice(), reads: Cell::new(0) };
    let mut run = Run::open(src).unwrap();
    run.set_cache_bytes(2 * 66_000);
    for k in [b"key00000000", b"key00002500", b"key00004900"] {
        run.get_at(k, LATEST).unwrap();
    }
    let before = run.src.reads.get();
    run.get_at(b"key00004900", LATEST).unwrap();
    run.get_at(b"key00002500", LATEST).unwrap();
    assert_eq!(run.src.reads.get(), before, "the two newest are held");
    run.get_at(b"key00000000", LATEST).unwrap();
    assert_eq!(run.src.reads.get(), before + 1, "the oldest is gone");
}

#[test]
fn a_page_counts_a_row_once_wherever_its_versions_stand() {
    let between = format!("a/{:016x}", LATEST - 8).into_bytes();
    let put = |r: &[u8], s: u64| (versioned(r, s), Op::Put(vec![1]));
    let bytes = run_of(vec![put(b"a", 5), put(b"a", 10), put(&between, 1), put(b"b", 1)]);
    let mut run = Run::open(bytes.as_slice()).unwrap();
    let page = run.scan_range_limited(b"", b"z", LATEST, 2).unwrap();
    assert_eq!(rows_of(page), vec![b"a".to_vec(), between.clone(), b"a".to_vec()]);
    let back = run.scan_range_back(b"", b"z", LATEST, 3).unwrap();
    assert_eq!(back.len(), 4);
    assert_eq!(rows_of(run.scan_range_back(b"", b"z", LATEST, 1).unwrap()), vec![b"b".to_vec()]);
}

fn word(b: &[u8], at: usize, w: usize) -> u64 {
    b[at..at + w].iter().rev().fold(0, |n, x| n * 256 + *x as u64)
}

/// The same run with unused bytes between its first block and the others.
fn with_a_gap(bytes: &[u8], gap: usize) -> Vec<u8> {
    let t = bytes.len() - TRAILER_LEN as usize;
    let (bloom, ix) = (word(bytes, t, 8) as usize, word(bytes, t + 12, 8) as usize);
    let mut index = bytes[ix..t].to_vec();
    let (mut p, mut first) = (0, true);
    let mut end = 0;
    while p < index.len() {
        p += 4 + word(&index, p, 4) as usize;
        if first {
            end = (word(&index, p, 8) + word(&index, p + 8, 4)) as usize;
        } else {
            let off = word(&index, p, 8) + gap as u64;
            index[p..p + 8].copy_from_slice(&off.to_le_bytes());
        }
        first = false;
        p += 12;
    }
    let mut out = bytes[..end].to_vec();
    out.resize(end + gap, 0xee);
    out.extend_from_slice(&bytes[end..ix]);
    out.extend_from_slice(&index);
    let mut trailer = bytes[t..].to_vec();
    trailer[..8].copy_from_slice(&((bloom + gap) as u64).to_le_bytes());
    trailer[12..20].copy_from_slice(&((ix + gap) as u64).to_le_bytes());
    let meta = crc32c::crc32c(&out[bloom + gap..]);
    trailer[44..48].copy_from_slice(&meta.to_le_bytes());
    let own = crc32c::crc32c(&trailer[..48]);
    trailer[48..52].copy_from_slice(&own.to_le_bytes());
    out.extend_from_slice(&trailer);
    out
}

#[test]
fn a_run_with_gaps_between_its_blocks_is_answered_from_all_the_same() {
    let e = entries(2000);
    let whole = build(&e, 0);
    let bytes = with_a_gap(&whole, 7);
    let src = Counting { bytes: bytes.as_slice(), reads: Cell::new(0) };
    let mut run = Run::open(src).unwrap();
    assert!(run.block_count() > 2);
    run.set_cache_bytes(0);
    let mut most = 0;
    for (k, v) in &e {
        let before = run.src.reads.get();
        assert_eq!(run.get_at(row_of(k).unwrap(), LATEST).unwrap().as_ref(), Some(v));
        most = most.max(run.src.reads.get() - before);
    }
    assert_eq!(most, 2, "the row that begins the second block costs one read more");
    assert_eq!(run.get_at(b"key00000000x", LATEST).unwrap(), None);
    assert_eq!(run.scan().unwrap(), e);
}

#[test]
fn a_cache_makes_room_by_forgetting_the_oldest() {
    let mut c = BlockCache::new(10);
    c.insert(1, vec![1; 4]);
    c.insert(2, vec![2; 4]);
    c.insert(3, vec![3; 11]);
    assert_eq!(c.get(3), None, "larger than the cache");
    c.insert(4, vec![4; 6]);
    assert_eq!(c.get(1), None, "the oldest made room");
    assert_eq!(c.get(2), Some(vec![2; 4]));
    assert_eq!(c.get(4), Some(vec![4; 6]));
    assert_eq!(c.stats(), (2, 2));
    c.set_cap(0);
    c.insert(5, vec![]);
    assert_eq!(c.get(5), None);
}
