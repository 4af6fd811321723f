use objwal::commit::Op;
use objwal::key_map::KeyMap;
use objwal::precommit::{
    aborted, after_fold, after_put, check_owned, check_prepare, choose_store, committed, conflict_index,
    describe_conflict, fold_wanted, objkv_subxact_callback, objkv_xact_callback,
    serialization_failure, unsupported, waits, Conflict, FoldEvent, FoldStep, Next, Outcome, Point,
    PreCommit, Probe, Put, Queued, Session, SubEvent, XactAction, XactEvent,
};
use objwal::report::Report;
use objwal::row_key::{
    empty_marker_key, external_or_compressed, hi_of, is_flattened, row_image, row_key,
    rowid_from_key, rowid_of, scope, table_prefix, tid_of, varsize_any, Column, MAX_ROWID, MAX_ROW_BYTES,
    ROWS_PER_BLOCK,
};
use objwal::rows::{
    emptied_line, fetch_row, fetch_row_any, key_exists, scan_rows_between, table_range, Stored,
};
use objwal::scan::{
    block_range, block_rows, database_prefix, lifted_am_oids, register_lifted_ams, BitmapCounts,
    BitmapPage, ObjkvScanDescData, PagePlan,
};
use objwal::session::{
    collection_horizon, note_snapshot, reading_the_past, refuse_writes_into_the_past, snapshot_cid,
    time_travel_seq, InUse, Snapshot, NO_COMMAND, UNREAD,
};
use objwal::staging::{
    covered_prefixes, seen_by, stage_raw, staged_empty_mark_for, Pending, SEEN_BY_ALL,
};
use objwal::tables::{first_free, update_row_in_place, Size, Tables};

const DB: u32 = 5;
const NO_CID: u32 = NO_COMMAND;

/// A session over a store that holds nothing.
struct Backend {
    pending: Pending,
    tables: Tables,
    setting: i32,
    cid: u32,
}

impl Backend {
    fn new() -> Backend {
        Backend { pending: Pending::new(), tables: Tables::new(), setting: 0, cid: 0 }
    }

    fn scan_seen_by(&self, db: u32, relid: u32, curcid: u32) -> Vec<(u64, Vec<u8>)> {
        let (lo, hi) = table_range(db, relid);
        let past = reading_the_past(self.setting);
        scan_rows_between(&self.pending, db, relid, &lo, &hi, Vec::new(), None, past, curcid)
    }

    fn scan(&self, db: u32, relid: u32) -> Vec<(u64, Vec<u8>)> {
        self.scan_seen_by(db, relid, NO_CID)
    }

    fn fetch(&self, db: u32, relid: u32, rowid: u64, curcid: u32) -> Option<Vec<u8>> {
        let past = reading_the_past(self.setting);
        fetch_row(&self.pending, db, relid, rowid, past, curcid, None, None)
    }

    fn insert(&mut self, db: u32, relid: u32, image: Vec<u8>) -> Result<u64, Report> {
        let scanned = match self.tables.is_seeded(db, relid) {
            true => None,
            false => Some(first_free(&self.scan(db, relid))),
        };
        self.tables.insert_row(
            &mut self.pending,
            self.setting,
            1,
            self.cid,
            db,
            relid,
            image,
            scanned,
        )
    }

    fn delete(&mut self, db: u32, relid: u32, rowid: u64) -> Result<(), Report> {
        let found = self.fetch(db, relid, rowid, NO_CID);
        self.tables.delete_row(
            &mut self.pending,
            self.setting,
            1,
            self.cid,
            db,
            relid,
            rowid,
            &found,
        )
    }

    fn rewrite(&mut self, db: u32, relid: u32, rowid: u64, image: Vec<u8>) -> Result<(), Report> {
        update_row_in_place(&mut self.pending, self.setting, 1, db, relid, rowid, image)
    }
}

fn keys_of(m: &KeyMap<Op>) -> Vec<Vec<u8>> {
    (0..m.len()).map(|i| m.key(i).to_vec()).collect()
}

fn put(b: u8) -> Op {
    Op::Put(vec![b])
}

#[test]
fn row_keys_sort_within_a_table_and_separate_tables() {
    assert!(row_key(DB, 7, 9) < row_key(DB, 7, 10));
    assert!(row_key(DB, 7, u64::MAX) < row_key(DB, 8, 0));
    assert!(row_key(DB, 7, 0).starts_with(&table_prefix(DB, 7)));
    assert!(!row_key(DB, 8, 0).starts_with(&table_prefix(DB, 7)));
    assert_eq!(row_key(DB, 7, 0x2a), b"00000005/00000007/000000000000002a".to_vec());
}

#[test]
fn two_databases_with_one_relid_do_not_share_rows() {
    let mut b = Backend::new();
    assert_ne!(row_key(1, 7, 0), row_key(2, 7, 0));
    assert!(!row_key(2, 7, 0).starts_with(&table_prefix(1, 7)));

    b.insert(1, 9100, vec![1; 8]).unwrap();
    b.insert(2, 9100, vec![2; 8]).unwrap();
    let one = b.scan(1, 9100);
    let two = b.scan(2, 9100);
    assert_eq!(one.len(), 1);
    assert_eq!(two.len(), 1);
    assert_eq!(one[0].1, vec![1; 8]);
    assert_eq!(two[0].1, vec![2; 8], "one database must not read another's rows");

    b.delete(1, 9100, one[0].0).unwrap();
    assert_eq!(b.scan(2, 9100).len(), 1);
}

#[test]
fn rowids_survive_the_trip_through_a_tid() {
    let ids = [0u64, 1, ROWS_PER_BLOCK - 1, ROWS_PER_BLOCK, ROWS_PER_BLOCK + 1, 0x1_2345, MAX_ROWID];
    for id in ids {
        assert_eq!(rowid_of(&tid_of(id)), id, "rowid {id:#x} round-trips");
    }
    assert_ne!(tid_of(ROWS_PER_BLOCK - 1), tid_of(ROWS_PER_BLOCK));
    assert_ne!(tid_of(0).offset, 0);
}

#[test]
fn keys_parse_back_to_rowids() {
    assert_eq!(rowid_from_key(&row_key(DB, 3, 0x2a)), Some(0x2a));
    assert_eq!(rowid_from_key(b"not-a-key"), None);
    assert_eq!(rowid_from_key(b"a/+2A"), Some(0x2a));
    assert_eq!(rowid_from_key(b"a/"), None);
    assert_eq!(rowid_from_key(b"a/10000000000000000"), None);
    assert_eq!(rowid_from_key(b"\xff/1"), None);
}

#[test]
fn insert_scan_fetch_delete_round_trip() {
    let mut b = Backend::new();
    let relid = 4242;
    let mut ids = Vec::new();
    for i in 0..5u8 {
        ids.push(b.insert(DB, relid, vec![i; 32]).unwrap());
    }
    assert_eq!(ids, vec![0, 1, 2, 3, 4], "rowids are dense and ordered");

    let rows = b.scan(DB, relid);
    assert_eq!(rows.len(), 5);
    assert!(rows.windows(2).all(|w| w[0].0 < w[1].0), "scan is in rowid order");

    assert_eq!(b.fetch(DB, relid, 2, NO_CID), Some(vec![2u8; 32]));
    assert_eq!(b.fetch(DB, relid, 99, NO_CID), None);

    b.delete(DB, relid, 2).unwrap();
    assert_eq!(b.fetch(DB, relid, 2, NO_CID), None, "tombstone hides the row");
    let after = b.scan(DB, relid);
    assert_eq!(after.len(), 4, "deleted row leaves the scan");
    assert!(!after.iter().any(|(id, _)| *id == 2));
    assert_eq!(b.tables.known_stats(DB, relid), Some(Size { bytes: 128, rows: 4 }));
}

#[test]
fn release_into_a_write_less_savepoint_still_rolls_back_with_it() {
    let mut p = Pending::new();
    let (a, b) = (row_key(DB, 9300, 0), row_key(DB, 9300, 1));
    p.stage_in(1, a.clone(), put(1), 0); // top level
    p.stage_in(3, b.clone(), put(2), 0); // the outer savepoint is 2, which wrote nothing
    p.commit_sub(3, 2);
    assert_eq!(p.staged_op(&b), Some(put(2)), "released write is still staged");
    p.abort_sub(2);
    assert_eq!(p.staged_op(&b), None, "a write released into s1 goes when s1 is rolled back");
    assert_eq!(p.staged_op(&a), Some(put(1)), "the top-level write stays");
    let committed = p.flatten_pending();
    assert_eq!(keys_of(&committed), vec![a]);
}

#[test]
fn release_merges_into_the_parents_own_frame() {
    let mut p = Pending::new();
    let (a, b, c) = (row_key(DB, 9301, 0), row_key(DB, 9301, 1), row_key(DB, 9301, 2));
    p.stage_in(1, a.clone(), put(1), 0);
    p.stage_in(2, b.clone(), put(2), 0);
    p.stage_in(3, c.clone(), put(3), 0);
    p.stage_in(3, b.clone(), Op::Delete, 0);
    p.commit_sub(3, 2);
    assert_eq!(p.stack.iter().map(|f| f.subid).collect::<Vec<_>>(), vec![1, 2]);
    assert_eq!(p.staged_op(&b), Some(Op::Delete), "the inner write wins over the parent's");
    p.abort_sub(2);
    assert_eq!(p.staged_op(&b), None);
    assert_eq!(p.staged_op(&c), None);
    assert_eq!(p.staged_op(&a), Some(put(1)));
}

#[test]
fn writes_are_refused_while_reading_the_past() {
    let mut b = Backend::new();
    let mut session = Session::new();
    let relid = 9302;
    let id = b.insert(DB, relid, vec![9; 8]).unwrap();
    b.setting = 1;
    for r in [
        b.insert(DB, relid, vec![1; 8]).map(|_| ()),
        b.delete(DB, relid, id),
        b.rewrite(DB, relid, id, vec![2; 8]),
    ] {
        let e = r.expect_err("a write while reading the past must be refused");
        assert_eq!(e.state, "25006");
        assert!(e.message.contains("reading a past snapshot"), "{}", e.message);
    }
    // What was staged without a word is refused before the commit.
    stage_raw(&mut b.pending, 1, row_key(DB, relid, 77), vec![0]);
    let e = match PreCommit::begin(&mut b.pending, &mut session, b.setting) {
        Err(e) => e,
        Ok(_) => panic!("a commit refuses staged writes under a past snapshot"),
    };
    assert_eq!(e.state, "25006");
    assert!(b.pending.is_empty());
    b.setting = 0;
    b.insert(DB, relid, vec![3; 8]).expect("writes resume once the setting is reset");
}

#[test]
fn relations_do_not_see_each_others_rows() {
    let mut b = Backend::new();
    b.insert(DB, 7001, vec![1; 8]).unwrap();
    b.insert(DB, 7002, vec![2; 8]).unwrap();
    assert_eq!(b.scan(DB, 7001).len(), 1);
    assert_eq!(b.scan(DB, 7002).len(), 1);
    assert_ne!(b.scan(DB, 7001)[0].1, b.scan(DB, 7002)[0].1);
    assert!(b.scan(DB, 7003).is_empty());
}

#[test]
fn a_command_does_not_see_its_own_writes() {
    let mut b = Backend::new();
    let relid = 9400;
    // Command 0 inserts; a scan of command 0 does not see the row.
    let id = b.insert(DB, relid, vec![1; 8]).unwrap();
    assert!(b.scan_seen_by(DB, relid, 0).is_empty());
    assert_eq!(b.fetch(DB, relid, id, 0), None);
    assert_eq!(b.scan(DB, relid).len(), 1);
    assert_eq!(b.pending.staged_op(&row_key(DB, relid, id)), Some(Op::Put(vec![1; 8])));
    b.cid += 1;
    // Command 1 sees it ...
    assert_eq!(b.fetch(DB, relid, id, 1), Some(vec![1; 8]));
    assert_eq!(b.scan_seen_by(DB, relid, 1).len(), 1);
    // ... and deletes it; the row stays visible to command 1's own scan.
    b.delete(DB, relid, id).unwrap();
    assert_eq!(b.fetch(DB, relid, id, 1), Some(vec![1; 8]));
    assert_eq!(b.scan_seen_by(DB, relid, 1).len(), 1);
    assert_eq!(b.pending.staged_op(&row_key(DB, relid, id)), Some(Op::Delete));
    b.cid += 1;
    assert_eq!(b.fetch(DB, relid, id, 2), None);
    assert!(b.scan_seen_by(DB, relid, 2).is_empty());
    // What commits is the newest version.
    assert_eq!(b.pending.flatten_pending().get(&row_key(DB, relid, id)), Some(&Op::Delete));
}

#[test]
fn an_in_place_update_is_seen_as_the_version_it_rewrites() {
    let mut b = Backend::new();
    let relid = 9401;
    // A row nobody staged: the rewrite is seen even by command 0.
    b.rewrite(DB, relid, 7, vec![7; 8]).unwrap();
    assert_eq!(b.fetch(DB, relid, 7, 0), Some(vec![7; 8]));
    // Inserted by command 0, rewritten by command 2: the rewrite reads from command 1 on, and
    // command 0 still has no row.
    let id = b.insert(DB, relid, vec![1; 8]).unwrap();
    b.cid += 2;
    b.rewrite(DB, relid, id, vec![2; 8]).unwrap();
    assert_eq!(b.fetch(DB, relid, id, 0), None);
    assert_eq!(b.fetch(DB, relid, id, 1), Some(vec![2; 8]));
    assert_eq!(b.fetch(DB, relid, id, 2), Some(vec![2; 8]));
}

#[test]
fn a_savepoints_write_hides_the_outer_version_from_later_commands_only() {
    let mut p = Pending::new();
    let a = row_key(DB, 9402, 0);
    let seen = |p: &Pending, curcid: u32| p.staged_seen_by(&a, curcid).map(|s| s.op);
    p.stage_in(1, a.clone(), put(1), 3); // command 3, top level
    p.stage_in(2, a.clone(), Op::Delete, 5); // savepoint 2, command 5
    assert_eq!(seen(&p, 3), None);
    assert_eq!(seen(&p, 5), Some(put(1)));
    assert_eq!(seen(&p, 6), Some(Op::Delete));
    assert_eq!(
        p.staged_range(&a, &hi_of(&a), 5).get(&a).map(|s| s.op.copy()),
        Some(put(1)),
        "a window merge reads the outer version too"
    );
    p.abort_sub(2);
    assert_eq!(seen(&p, 6), Some(put(1)));
    p.stage_in(2, a.clone(), Op::Delete, 5);
    p.commit_sub(2, 1);
    assert_eq!(seen(&p, 5), Some(put(1)), "the release keeps the version it replaced");
    assert_eq!(seen(&p, 6), Some(Op::Delete));
    assert_eq!(p.flatten_pending().get(&a), Some(&Op::Delete));
}

#[test]
fn two_writes_by_one_command_are_one_version() {
    let mut p = Pending::new();
    let k = b"k".to_vec();
    p.stage_in(1, k.clone(), put(1), 2);
    p.stage_in(1, k.clone(), put(2), 4);
    p.stage_in(1, k.clone(), put(3), 4);
    assert_eq!(p.staged_seen_by(&k, 4).map(|s| s.op), Some(put(1)));
    assert_eq!(p.staged_seen_by(&k, 5).map(|s| (s.ord, s.op)), Some((3, put(3))));
    assert_eq!(p.staged_stamp(&k), Some(4));
    assert_eq!(p.stage_mark(), 3);
    assert!(seen_by(SEEN_BY_ALL, 0));
    assert!(!seen_by(4, 4));
}

#[test]
fn an_emptied_table_covers_what_was_written_before() {
    let mut p = Pending::new();
    let relid = 77;
    let (before, after) = (row_key(DB, relid, 0), row_key(DB, relid, 1));
    let other = row_key(DB, 78, 0);
    p.stage_in(1, before.clone(), put(1), 0);
    p.stage_in(1, other.clone(), put(9), 0);
    p.empty_relation(1, DB, relid, 1);
    assert_eq!(staged_empty_mark_for(&p, DB, relid), 3);
    assert_eq!(staged_empty_mark_for(&p, DB, 78), 0);
    p.stage_in(1, after.clone(), put(2), 2);
    let (lo, hi) = table_range(DB, relid);
    let stored = vec![Stored { key: row_key(DB, relid, 5), value: vec![5], seq: 100 }];
    let rows = scan_rows_between(&p, DB, relid, &lo, &hi, stored, Some(3), false, NO_CID);
    assert_eq!(rows, vec![(1, vec![2])], "neither the store's rows nor the covered one");
    assert_eq!(fetch_row(&p, DB, relid, 0, false, NO_CID, None, None), None);
    assert_eq!(fetch_row(&p, DB, relid, 5, false, NO_CID, None, Some((vec![5], 100))), None);
    let out = p.flatten_pending();
    assert_eq!(keys_of(&out), vec![after, other, empty_marker_key(DB, relid)]);
}

#[test]
fn a_rollback_brings_back_what_an_emptied_table_had() {
    let mut p = Pending::new();
    let relid = 77;
    let before = row_key(DB, relid, 0);
    p.stage_in(1, before.clone(), put(1), 0);
    p.empty_relation(2, DB, relid, 1);
    p.abort_sub(2);
    assert_eq!(staged_empty_mark_for(&p, DB, relid), 0);
    assert_eq!(keys_of(&p.flatten_pending()), vec![before]);
}

#[test]
fn rows_older_than_the_last_emptying_are_not_in_the_table() {
    let p = Pending::new();
    let (lo, hi) = table_range(DB, 9);
    let stored = vec![
        Stored { key: row_key(DB, 9, 0), value: vec![1], seq: 4 },
        Stored { key: row_key(DB, 9, 1), value: vec![2], seq: 6 },
        Stored { key: b"00000005/00000009/not a row".to_vec(), value: vec![3], seq: 9 },
    ];
    let rows = scan_rows_between(&p, DB, 9, &lo, &hi, stored, Some(5), false, NO_CID);
    assert_eq!(rows, vec![(1, vec![2])]);
    assert_eq!(fetch_row(&p, DB, 9, 0, false, 0, Some(5), Some((vec![1], 4))), None);
    assert_eq!(fetch_row(&p, DB, 9, 1, false, 0, Some(5), Some((vec![2], 6))), Some(vec![2]));
    assert_eq!(emptied_line(1, Some(5)), u64::MAX);
    assert_eq!(emptied_line(0, Some(5)), 5);
    assert_eq!(emptied_line(0, None), 0);
}

#[test]
fn a_scan_lists_exactly_what_fetches_give() {
    let mut p = Pending::new();
    p.stage_in(1, row_key(DB, 9, 2), put(2), 0);
    p.stage_in(1, row_key(DB, 9, 4), Op::Delete, 0);
    p.stage_in(1, row_key(DB, 9, 7), put(7), 3);
    let stored = |seq: u64| {
        [1u64, 2, 4, 5]
            .iter()
            .map(|n| Stored { key: row_key(DB, 9, *n), value: vec![*n as u8 + 40], seq: seq + n })
            .collect::<Vec<_>>()
    };
    let (lo, hi) = table_range(DB, 9);
    for (past, cid, emptied) in
        [(false, 1, None), (false, NO_CID, Some(5)), (true, NO_CID, Some(3)), (false, 0, None)]
    {
        let rows = scan_rows_between(&p, DB, 9, &lo, &hi, stored(0), emptied, past, cid);
        assert!(rows.windows(2).all(|w| w[0].0 < w[1].0));
        for n in 0..9u64 {
            let found = stored(0)
                .into_iter()
                .find(|s| s.key == row_key(DB, 9, n))
                .map(|s| (s.value, s.seq));
            let listed = rows.iter().find(|r| r.0 == n).map(|r| r.1.clone());
            assert_eq!(fetch_row(&p, DB, 9, n, past, cid, emptied, found), listed);
        }
    }
}

#[test]
fn a_read_of_the_past_leaves_the_transactions_own_writes_out() {
    let mut p = Pending::new();
    p.stage_in(1, row_key(DB, 9, 0), put(1), 0);
    let (lo, hi) = table_range(DB, 9);
    let stored = vec![Stored { key: row_key(DB, 9, 0), value: vec![7], seq: 4 }];
    let rows = scan_rows_between(&p, DB, 9, &lo, &hi, stored, None, true, NO_CID);
    assert_eq!(rows, vec![(0, vec![7])]);
    assert_eq!(fetch_row(&p, DB, 9, 0, true, NO_CID, None, Some((vec![7], 4))), Some(vec![7]));
    assert_eq!(fetch_row(&p, DB, 9, 0, false, NO_CID, None, Some((vec![7], 4))), Some(vec![1]));
}

#[test]
fn the_newest_value_is_found_behind_a_deletion() {
    let mut p = Pending::new();
    p.stage_in(1, row_key(DB, 9, 0), put(1), 0);
    p.stage_in(1, row_key(DB, 9, 1), Op::Delete, 0);
    assert_eq!(fetch_row_any(&p, DB, 9, 0, Some(vec![7])), Some(vec![1]));
    assert_eq!(fetch_row_any(&p, DB, 9, 1, Some(vec![7])), Some(vec![7]));
    assert!(key_exists(&p, &row_key(DB, 9, 0), false));
    assert!(!key_exists(&p, &row_key(DB, 9, 1), true));
    assert!(key_exists(&p, &row_key(DB, 9, 2), true));
}

#[test]
fn the_newest_value_is_found_behind_a_deletion_of_the_same_transaction() {
    let mut p = Pending::new();
    let key = row_key(DB, 9, 3);
    p.stage_in(1, key.clone(), put(1), 0);
    p.stage_in(1, key.clone(), put(2), 1);
    p.stage_in(1, key.clone(), Op::Delete, 2);
    assert_eq!(p.staged_op(&key), Some(Op::Delete));
    assert_eq!(fetch_row_any(&p, DB, 9, 3, Some(vec![7])), Some(vec![2]));
    assert_eq!(fetch_row_any(&p, DB, 9, 3, None), Some(vec![2]));
    let mut q = Pending::new();
    q.stage_in(1, key.clone(), put(1), 0);
    q.stage_in(2, key.clone(), Op::Delete, 1);
    assert_eq!(fetch_row_any(&q, DB, 9, 3, Some(vec![7])), Some(vec![1]));
    q.commit_sub(2, 1);
    assert_eq!(fetch_row_any(&q, DB, 9, 3, Some(vec![7])), Some(vec![1]));
    assert_eq!(fetch_row_any(&q, DB, 9, 4, None), None);
}

#[test]
fn emptying_covers_rows_and_index_entries() {
    let (a, b, c) = covered_prefixes(5, 0x2a);
    assert_eq!(a, b"00000005/0000002a/".to_vec());
    assert_eq!(b, b"00000005/u/0000002a/".to_vec());
    assert_eq!(c, b"00000005/i/0000002a/".to_vec());
    assert_eq!(empty_marker_key(5, 0x2a), b"t/00000005/0000002a".to_vec());
    assert_eq!(database_prefix(5), b"00000005/".to_vec());
}

#[test]
fn sizes_stop_at_zero_and_at_the_top() {
    let mut t = Tables::new();
    t.add_stats(DB, 1, 10, 1);
    t.add_stats(DB, 1, -50, -3);
    assert_eq!(t.known_stats(DB, 1), Some(Size { bytes: 0, rows: 0 }));
    for _ in 0..3 {
        t.add_stats(DB, 1, i64::MAX, 1);
    }
    assert_eq!(t.known_stats(DB, 1), Some(Size { bytes: u64::MAX, rows: 3 }));
    t.add_stats(DB, 1, i64::MIN, 0);
    assert_eq!(t.known_stats(DB, 1), Some(Size { bytes: u64::MAX - (1 << 63), rows: 3 }));
    let rows = vec![(0, vec![1; 3]), (1, vec![2; 4])];
    assert_eq!(t.known_stats(DB, 2), None);
    assert_eq!(t.relation_stats(DB, 2, &rows), Size { bytes: 7, rows: 2 });
    assert_eq!(t.relation_stats(DB, 2, &Vec::new()), Size { bytes: 7, rows: 2 });
}

#[test]
fn the_next_row_follows_the_highest_live_one() {
    assert_eq!(first_free(&Vec::new()), 0);
    assert_eq!(first_free(&vec![(3, vec![]), (9, vec![]), (4, vec![])]), 10);
    let mut t = Tables::new();
    assert!(!t.is_seeded(DB, 1));
    assert_eq!(t.take_row(DB, 1, Some(10)), 10);
    assert!(t.is_seeded(DB, 1));
    assert_eq!(t.take_row(DB, 1, Some(3)), 11, "a table that is known goes on counting");
    assert_eq!(t.take_row(DB, 2, None), 0);
}

#[test]
fn a_row_too_large_is_refused() {
    assert_eq!(row_image(b"abc").unwrap(), b"abc".to_vec());
    assert_eq!(MAX_ROW_BYTES, 0x3fff_ffff);
}

#[test]
fn values_out_of_line_are_flattened() {
    assert!(external_or_compressed(0x01));
    assert!(external_or_compressed(0x02));
    assert!(external_or_compressed(0x06));
    assert!(!external_or_compressed(0x03));
    assert!(!external_or_compressed(0x04));
    let column = Column { dropped: false, length: -1 };
    assert!(is_flattened(column, false, 0x01));
    assert!(!is_flattened(column, true, 0x01));
    assert!(!is_flattened(Column { dropped: true, length: -1 }, false, 0x01));
    assert!(!is_flattened(Column { dropped: false, length: 4 }, false, 0x01));
    assert_eq!(varsize_any(&[0x01, 18, 0, 0]), Some(18));
    assert_eq!(varsize_any(&[0x01, 1, 0, 0]), Some(10));
    assert_eq!(varsize_any(&[0x01, 9, 0, 0]), None);
    assert_eq!(varsize_any(&[0x0b, 0, 0, 0]), Some(5));
    assert_eq!(varsize_any(&0x40u32.to_ne_bytes()), Some(16));
    assert_eq!(varsize_any(&[0x01, 18]), Some(18));
    assert_eq!(varsize_any(&[0x0b]), Some(5));
    assert_eq!(scope(true, 5), 0);
    assert_eq!(scope(false, 5), 5);
}

#[test]
fn a_snapshot_resolves_to_the_commit_it_reads_at() {
    let mut s = Session::new();
    let mvcc = |seq: u64| Some(Snapshot { mvcc: true, curcid: 4, seq });
    assert_eq!(s.snapshot_seq(&None, 0), Point::Latest);
    assert_eq!(s.last_snapshot_cid(), NO_COMMAND);
    assert_eq!(s.snapshot_seq(&mvcc(0), 0), Point::TakeView);
    assert_eq!(s.last_snapshot_cid(), 4);
    assert_eq!(s.snapshot, UNREAD);
    s.observe_read_at(30);
    assert_eq!(s.snapshot_seq(&mvcc(20), 0), Point::At(20));
    assert_eq!(s.snapshot_seq(&mvcc(25), 0), Point::At(25));
    assert_eq!(s.snapshot, 20, "the oldest read counts");
    assert_eq!(s.snapshot_seq(&mvcc(25), 7), Point::At(7), "a forced commit goes first");
    assert_eq!(s.snapshot, 7);
    assert_eq!(snapshot_cid(&Some(Snapshot { mvcc: false, curcid: 4, seq: 1 })), NO_COMMAND);
    assert_eq!(time_travel_seq(-1), None);
    assert_eq!(time_travel_seq(9), Some(9));
    let e = refuse_writes_into_the_past(9).unwrap_err();
    assert_eq!(
        e.detail,
        "Writes are not allowed while pgrust.objkv_snapshot_seq (currently 9) forces a past snapshot."
    );
}

#[test]
fn history_that_is_read_is_not_thrown_away() {
    let mut u = InUse::new();
    assert_eq!(u.oldest(), u64::MAX);
    u.note(1, 50);
    u.note(2, 40);
    u.note(1, 60);
    assert_eq!(u.oldest(), 40);
    u.note(1, 30);
    assert_eq!(u.oldest(), 30);
    u.release(1);
    assert_eq!(u.oldest(), 40);
    u.release(7);
    assert_eq!(collection_horizon(10, 100, u.oldest()), 40);
    assert_eq!(collection_horizon(70, 100, u.oldest()), 30);
    assert_eq!(collection_horizon(0, 100, 40), 0, "nothing kept means everything kept");
    assert_eq!(collection_horizon(200, 100, 40), 0);
}

fn sample_commit(pending: &mut Pending, session: &mut Session) -> PreCommit {
    pending.stage_in(1, b"a".to_vec(), put(1), 0);
    pending.stage_in(1, b"b".to_vec(), Op::Delete, 0);
    match PreCommit::begin(pending, session, 0) {
        Ok(Some(c)) => c,
        _ => panic!("two writes commit"),
    }
}

#[test]
fn a_commit_takes_what_was_staged_and_what_was_read() {
    let mut p = Pending::new();
    let mut s = Session::new();
    assert!(matches!(PreCommit::begin(&mut p, &mut s, 5), Ok(None)));
    s.observe_read_at(12);
    let c = sample_commit(&mut p, &mut s);
    assert_eq!(c.changes, 2);
    assert_eq!(c.snapshot, 12);
    assert_eq!(s.snapshot, UNREAD);
    assert_eq!(keys_of(&c.writes), vec![b"a".to_vec(), b"b".to_vec()]);
    assert!(p.is_empty());
}

#[test]
fn a_commit_goes_on_or_says_why_not() {
    let mut p = Pending::new();
    let mut s = Session::new();
    let c = sample_commit(&mut p, &mut s);
    assert!(c.probed(&Probe::Clear).is_ok());
    let e = c.probed(&Probe::Failed("timeout".to_string())).unwrap_err();
    assert_eq!(e.message, "objkv: commit of 2 changes failed: timeout");
    let row = || Conflict { key: b"00000005/x".to_vec(), by: 9 };
    assert_eq!(c.probed(&Probe::Conflict(row())).unwrap_err().state, "40001");
    assert_eq!(c.queued(&mut s, &Queued::Nothing).unwrap(), None);
    assert_eq!(c.queued(&mut s, &Queued::Conflict(row())).unwrap_err().state, "40001");
    assert!(c.queued(&mut s, &Queued::Failed("x".to_string())).is_err());
    assert_eq!(s.commit_seq, 0);
    assert_eq!(c.queued(&mut s, &Queued::At { ticket: 3, seq: 17 }).unwrap(), Some(3));
    assert_eq!(s.commit_seq, 17);
    assert!(c.landed(&mut s, &Outcome::Durable(18)).is_ok());
    assert_eq!(s.commit_seq, 18);
    let e = c.landed(&mut s, &Outcome::Fenced("lost".to_string())).unwrap_err();
    assert_eq!(e.message, "objkv: commit of 2 changes failed: lost");
    assert_eq!(s.commit_seq, 0);
    s.commit_seq = 5;
    assert!(c.landed(&mut s, &Outcome::Failed("no".to_string())).is_err());
    assert_eq!(s.take_commit(), 0);
}

#[test]
fn a_full_queue_makes_an_asynchronous_commit_wait() {
    assert!(waits(false, 100, 0));
    assert!(!waits(true, 100, 99));
    assert!(waits(true, 100, 100));
    assert!(waits(true, 0, 1));
    assert!(!waits(true, -4, 0));
    assert_eq!(fold_wanted(true, 10, 100, 95), Some(90));
    assert_eq!(fold_wanted(false, 10, 100, 95), None);
}

#[test]
fn a_conflict_names_what_collided() {
    assert_eq!(conflict_index("u/0000002a/key"), Some(42));
    assert_eq!(conflict_index("i/ff"), Some(255));
    assert_eq!(conflict_index("00000005/u/0000002a/key"), None);
    assert_eq!(conflict_index("u/zz/1"), None);
    let e = describe_conflict("u/2a/x", 7);
    assert_eq!(
        e.message,
        "could not serialize access due to concurrent update of an index entry in objkv index 42"
    );
    assert_eq!(
        e.detail,
        "Commit 7 wrote the same entry. On a unique index this is a duplicate value inserted \
         concurrently; the retry will report it as one."
    );
    assert_eq!(e.hint, "Retry the transaction.");
    let e = serialization_failure(&Conflict { key: b"row\xff1".to_vec(), by: 3 });
    assert_eq!(
        e.message,
        "could not serialize access due to concurrent update of objkv row row\u{fffd}1"
    );
    assert_eq!(e.detail, "The row was changed by commit 3.");
}

#[test]
fn a_transaction_that_wrote_cannot_be_prepared() {
    let mut p = Pending::new();
    let mut s = Session::new();
    assert!(check_prepare(&p).is_ok());
    p.stage_in(1, b"a".to_vec(), put(1), 0);
    let e = check_prepare(&p).unwrap_err();
    assert_eq!(e.message, "objkv does not support PREPARE TRANSACTION");
    assert_eq!(e.state, "0A000");
    assert_eq!(unsupported("TABLESAMPLE").message, "objkv does not support TABLESAMPLE");
    p.empty_relation(1, DB, 3, 0);
    s.observe_read_at(4);
    aborted(&mut p, &mut s);
    assert!(p.is_empty());
    assert_eq!(p.stage_mark(), 0);
    assert_eq!(s.snapshot, UNREAD);
    p.empty_relation(1, DB, 3, 0);
    committed(&mut p, &mut s);
    assert_eq!(staged_empty_mark_for(&p, DB, 3), 0);
}

#[test]
fn a_commit_object_is_tried_three_times() {
    assert_eq!(after_put(1, Put::Written), Next::Landed);
    assert_eq!(after_put(1, Put::AlreadyExists), Next::Lost);
    assert_eq!(after_put(1, Put::Failed), Next::Retry(100));
    assert_eq!(after_put(2, Put::Failed), Next::Retry(200));
    assert_eq!(after_put(3, Put::Failed), Next::GiveUp);
    assert!(check_owned(false).is_ok());
    assert!(check_owned(true).unwrap_err().message.contains("lost the bucket"));
}

#[test]
fn the_store_comes_from_the_environment() {
    let e = choose_store(None, None, None, None, None, None).unwrap_err();
    assert_eq!(e.message, "objkv storage is not configured");
    let endpoint = Some("http://127.0.0.1:9000".to_string());
    let c = choose_store(endpoint, None, None, None, None, None).unwrap();
    assert_eq!((c.bucket.as_str(), c.region.as_str()), ("objkv", "us-east-1"));
    assert_eq!(c.token, None);
    let endpoint = Some("https://s3.example".to_string());
    let c = choose_store(endpoint, Some("b".to_string()), None, None, None, None).unwrap();
    assert_eq!(c.bucket, "b");
}

#[test]
fn a_scan_hands_out_its_rows_in_order() {
    let rows = vec![(1, vec![1]), (2, vec![2])];
    let mut s: ObjkvScanDescData<u8> = ObjkvScanDescData::new(vec![7], 1, rows);
    assert_eq!(s.take_next(), Some((1, vec![1])));
    assert!(!s.is_spent());
    assert_eq!(s.take_next(), Some((2, vec![2])));
    assert!(s.is_spent());
    assert_eq!(s.take_next(), None);
    s.rewind();
    assert_eq!(s.take_next(), Some((1, vec![1])));
    s.set_keys(&[8, 9]);
    assert_eq!((s.keys.clone(), s.nkeys, s.next), (vec![8, 9], 2, 1));
    assert_eq!(s.take_batch(Vec::new()), None);
    assert_eq!(s.next, 1);
    assert_eq!(s.take_batch(vec![(5, vec![5])]), Some(1));
    assert_eq!(s.take_next(), Some((5, vec![5])));
}

#[test]
fn a_block_is_a_range_of_rows() {
    let (lo, hi) = block_range(DB, 7, 2);
    assert_eq!(lo, row_key(DB, 7, 582));
    assert_eq!(hi, row_key(DB, 7, 873));
    assert_eq!(block_rows(2, &[1, 5, 291]), vec![582, 586, 872]);
    assert_eq!(block_rows(0, &vec![1; 400]).len(), 291);
}

#[test]
fn lifted_access_methods_are_read_from_records() {
    let records = vec![
        "am=16384 iam=16385 rows=7".to_string(),
        " am=0\tam=x am=+9 \n am=99999999999".to_string(),
    ];
    assert_eq!(lifted_am_oids("am=", &records), vec![16384, 9]);
    assert_eq!(lifted_am_oids("iam=", &records), vec![16385]);
    assert_eq!(register_lifted_ams(&records), vec![16384, 9]);
    assert!(lifted_am_oids("none=", &records).is_empty());
}

#[test]
fn a_transactions_end_decides_what_happens_to_its_commit() {
    let mut pending = Pending::new();
    let mut session = Session::new();
    pending.stage_in(1, b"k".to_vec(), put(1), NO_CID);
    let refused = objkv_xact_callback(&mut pending, &mut session, XactEvent::Prepare);
    assert!(refused.is_err_and(|e| e.message == "objkv does not support PREPARE TRANSACTION"));
    let a = objkv_xact_callback(&mut pending, &mut session, XactEvent::PreCommit);
    assert!(matches!(a, Ok(XactAction::PreCommit)));
    session.commit_seq = 7;
    session.observe_read_at(3);
    let a = objkv_xact_callback(&mut pending, &mut session, XactEvent::Abort);
    assert!(matches!(a, Ok(XactAction::Discard(7))));
    assert!(!pending.is_empty(), "the store is told first");
    assert_eq!((session.commit_seq, session.snapshot), (0, 3));
    aborted(&mut pending, &mut session);
    assert!(pending.is_empty());
    assert_eq!((session.commit_seq, session.snapshot), (0, UNREAD));
    session.commit_seq = 9;
    let a = objkv_xact_callback(&mut pending, &mut session, XactEvent::Commit);
    assert!(matches!(a, Ok(XactAction::Confirm(9))));
    let a = objkv_xact_callback(&mut pending, &mut session, XactEvent::Commit);
    assert!(matches!(a, Ok(XactAction::Nothing)));
    let a = objkv_xact_callback(&mut pending, &mut session, XactEvent::Prepare);
    assert!(matches!(a, Ok(XactAction::Nothing)));
}

#[test]
fn a_subtransactions_end_keeps_or_drops_its_writes() {
    let mut pending = Pending::new();
    pending.stage_in(1, b"a".to_vec(), put(1), NO_CID);
    pending.stage_in(2, b"b".to_vec(), put(2), NO_CID);
    objkv_subxact_callback(&mut pending, SubEvent::Start, 3, 2);
    objkv_subxact_callback(&mut pending, SubEvent::PreCommit, 2, 1);
    assert_eq!(pending.stack.len(), 2);
    objkv_subxact_callback(&mut pending, SubEvent::Commit, 2, 1);
    assert_eq!(pending.stack.len(), 1);
    assert!(pending.staged_op(b"b").is_some());
    pending.stage_in(4, b"c".to_vec(), put(3), NO_CID);
    objkv_subxact_callback(&mut pending, SubEvent::Abort, 4, 1);
    assert!(pending.staged_op(b"c").is_none());
    assert_eq!(keys_of(&pending.flatten_pending()), vec![b"a".to_vec(), b"b".to_vec()]);
}

#[test]
fn a_fold_goes_step_by_step_and_rests_where_it_fails() {
    assert!(matches!(after_fold(FoldEvent::Planned), FoldStep::Build));
    assert!(matches!(after_fold(FoldEvent::NotDue), FoldStep::Rest));
    assert!(matches!(after_fold(FoldEvent::Put), FoldStep::Apply));
    assert!(matches!(after_fold(FoldEvent::Applied), FoldStep::Sweep));
    assert!(matches!(after_fold(FoldEvent::Swept), FoldStep::Plan));
    assert!(matches!(after_fold(FoldEvent::Failed), FoldStep::Rest));
}

#[test]
fn a_bitmap_page_is_read_as_rows_or_as_a_range() {
    let mut counts = BitmapCounts { lossy_pages: 0, exact_pages: 0, recheck: false };
    let exact = BitmapPage { block: 2, lossy: false, recheck: true, offsets: vec![1, 5] };
    match counts.next_page(DB, 10, &exact) {
        PagePlan::Rows(r) => assert_eq!(r, vec![582, 586]),
        PagePlan::Between(..) => panic!("a page of known rows"),
    }
    assert_eq!((counts.lossy_pages, counts.exact_pages, counts.recheck), (0, 1, true));
    let lossy = BitmapPage { block: 2, lossy: true, recheck: false, offsets: Vec::new() };
    match counts.next_page(DB, 10, &lossy) {
        PagePlan::Between(lo, hi) => {
            assert_eq!(lo, row_key(DB, 10, 582));
            assert_eq!(hi, row_key(DB, 10, 873));
        }
        PagePlan::Rows(_) => panic!("a page of unknown rows"),
    }
    assert_eq!((counts.lossy_pages, counts.exact_pages, counts.recheck), (1, 1, true));
    let mut scan: ObjkvScanDescData<u32> = ObjkvScanDescData::new(vec![1], 1, Vec::new());
    assert!(scan.tests_rows());
    assert_eq!(scan.take_batch(Vec::new()), None);
    assert_eq!(scan.take_batch(vec![(582, vec![1])]), Some(1));
    assert!(!ObjkvScanDescData::<u32>::new(Vec::new(), 0, Vec::new()).tests_rows());
}

#[test]
fn a_snapshot_is_stamped_when_it_is_taken() {
    let mut sn = Snapshot { mvcc: true, curcid: 3, seq: 0 };
    note_snapshot(&mut sn, false, 9);
    assert_eq!(sn.seq, 0, "nothing is known yet");
    note_snapshot(&mut sn, true, 9);
    assert_eq!((sn.mvcc, sn.curcid, sn.seq), (true, 3, 9));
}
