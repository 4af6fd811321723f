use objwal::incremental::{
    check_coverage, first_range, required_ranges, sort_summaries, summary_path, FilePlan, Fork,
    HistoryEntry, Locator, Modified, Prepared, Summary, MAGIC,
};
use objwal::incremental_manifest::{
    current, limit_of, parse, Event, Session, Transfer, Uploaded, WalRange, MAX_MANIFEST_BYTES,
};
use objwal::key_map::KeyMap;
use objwal::preparing::Preparing;
use objwal::refusal::Refusal;
use objwal::wire::digest;
use serde::de::{DeserializeSeed, Deserializer, Error, MapAccess, SeqAccess, Visitor};
use std::cell::RefCell;
use std::fmt;

/// Notes a JSON text as the events that it is made of.
struct Notes<'a>(&'a RefCell<Vec<Event>>);

impl Notes<'_> {
    fn note<E: Error>(self, e: Event) -> Result<(), E> {
        self.0.borrow_mut().push(e);
        Ok(())
    }
}

impl<'de> DeserializeSeed<'de> for Notes<'_> {
    type Value = ();

    fn deserialize<D: Deserializer<'de>>(self, d: D) -> Result<(), D::Error> {
        d.deserialize_any(self)
    }
}

impl<'de> Visitor<'de> for Notes<'_> {
    type Value = ();

    fn expecting(&self, f: &mut fmt::Formatter) -> fmt::Result {
        f.write_str("a value")
    }

    fn visit_bool<E: Error>(self, _: bool) -> Result<(), E> {
        self.note(Event::Other)
    }

    fn visit_unit<E: Error>(self) -> Result<(), E> {
        self.note(Event::Other)
    }

    fn visit_u64<E: Error>(self, n: u64) -> Result<(), E> {
        self.note(Event::Number(n.to_string().into_bytes()))
    }

    fn visit_i64<E: Error>(self, n: i64) -> Result<(), E> {
        self.note(Event::Number(n.to_string().into_bytes()))
    }

    fn visit_f64<E: Error>(self, n: f64) -> Result<(), E> {
        self.note(Event::Number(format!("{n:?}").into_bytes()))
    }

    fn visit_str<E: Error>(self, s: &str) -> Result<(), E> {
        self.note(Event::Text(s.as_bytes().to_vec()))
    }

    fn visit_seq<A: SeqAccess<'de>>(self, mut a: A) -> Result<(), A::Error> {
        self.0.borrow_mut().push(Event::ArrayStart);
        while a.next_element_seed(Notes(self.0))?.is_some() {}
        self.note(Event::ArrayEnd)
    }

    fn visit_map<A: MapAccess<'de>>(self, mut a: A) -> Result<(), A::Error> {
        self.0.borrow_mut().push(Event::ObjectStart);
        while let Some(k) = a.next_key::<String>()? {
            self.0.borrow_mut().push(Event::Field(k.into_bytes()));
            a.next_value_seed(Notes(self.0))?;
        }
        self.note(Event::ObjectEnd)
    }
}

fn read(bytes: &[u8], system: u64) -> Result<Uploaded, Refusal> {
    let events = RefCell::new(Vec::new());
    let mut d = serde_json::Deserializer::from_slice(bytes);
    let whole = Notes(&events).deserialize(&mut d).is_ok() && d.end().is_ok();
    parse(bytes, &events.into_inner(), whole, system)
}

fn manifest(files: &str, ranges: &str) -> Vec<u8> {
    let prefix = format!("{{\"PostgreSQL-Backup-Manifest-Version\":2,\"System-Identifier\":42,\n\"Files\":[{files}],\n\"WAL-Ranges\":[{ranges}],\n");
    let sum = digest(prefix.as_bytes());
    format!("{prefix}\"Manifest-Checksum\":\"{sum}\"}}\n").into_bytes()
}

const RANGE: &str = r#"{"Timeline":1,"Start-LSN":"0/100","End-LSN":"0/200"}"#;

#[test]
fn identity_checksum_and_encoded_path() {
    let bytes = manifest(r#"{"Encoded-Path":"626173652f352f31","Size":8192}"#, RANGE);
    let parsed = read(&bytes, 42).unwrap();
    assert_eq!(parsed.files.get(b"base/5/1".as_slice()), Some(&8192));
    assert_eq!(parsed.ranges[0].start, 256);
    assert!(read(&bytes, 43).is_err());
    let mut broken = bytes.clone();
    let pos = broken.windows(4).position(|x| x == b"8192").unwrap();
    broken[pos] = b'7';
    assert!(read(&broken, 42).is_err());
}

#[test]
fn reject_invalid_inventory_and_shape() {
    for files in [
        r#"{"Path":"../1","Size":1}"#,
        r#"{"Path":"/base/1","Size":1}"#,
        r#"{"Path":"base/1","Encoded-Path":"61","Size":1}"#,
        r#"{"Path":"base/1","Size":-1}"#,
        r#"{"Path":"base/1","Size":1,"Size":2}"#,
        r#"{"Path":"base/1","Size":1},{"Path":"base/1","Size":1}"#,
        r#"{"Path":"base/1","Size":1,"Checksum":"00"}"#,
        r#"{"Path":"base/1","Size":1,"Checksum-Algorithm":"SHA256","Checksum":"00"}"#,
        r#"{"Path":"base/1","Size":{}}"#,
        "1",
        "[]",
        "null",
    ] {
        assert!(read(&manifest(files, RANGE), 42).is_err(), "{files}");
    }
    assert!(read(&manifest("", ""), 42).is_err());
    assert!(read(&manifest("", &format!("{RANGE},{RANGE}")), 42).is_err());
    assert!(parse(&vec![b' '; MAX_MANIFEST_BYTES + 1], &Vec::new(), false, 42).is_err());
    assert!(read(&manifest(r#"{"Path":"base/1","Size":1}"#, RANGE), 42).is_ok());
}

#[test]
fn native_escaped_names_and_no_file_checksum() {
    let p = read(
        &manifest(
            r#"{"Path":"base/é\"","Size":0,"Last-Modified":"2026-09-07 12:00:00 GMT"}"#,
            RANGE,
        ),
        42,
    )
    .unwrap();
    assert!(p.files.get("base/é\"".as_bytes()).is_some());
}

#[test]
fn coverage_rejects_gaps_accepts_overlap() {
    let r = WalRange { tli: 1, start: 100, end: 300 };
    for s in [
        vec![],
        vec![(0, 90), (100, 200)],
        vec![(100, 200), (201, 400)],
        vec![(101, 300)],
    ] {
        assert!(check_coverage(&r, &s).is_err());
    }
    check_coverage(&r, &[(0, 150), (120, 220), (220, 400)]).unwrap();
}

#[test]
fn ancestry_uses_prior_start_across_timelines() {
    let history = [
        HistoryEntry { tli: 3, begin: 300, end: 0 },
        HistoryEntry { tli: 2, begin: 200, end: 300 },
        HistoryEntry { tli: 1, begin: 0, end: 200 },
    ];
    let r = WalRange { tli: 1, start: 100, end: 150 };
    assert_eq!(
        required_ranges(&[r], &history, 400).unwrap(),
        vec![
            WalRange { tli: 1, start: 100, end: 200 },
            WalRange { tli: 2, start: 200, end: 300 },
            WalRange { tli: 3, start: 300, end: 400 },
        ]
    );
    assert!(required_ranges(&[WalRange { tli: 9, ..r }], &history, 400).is_err());
    assert!(required_ranges(&[WalRange { end: 201, ..r }], &history, 400).is_err());
    assert!(
        required_ranges(&[WalRange { tli: 2, start: 199, end: 220 }], &history, 400).is_err()
    );
    assert!(
        required_ranges(&[r, WalRange { tli: 3, start: 300, end: 350 }], &history, 400).is_err()
    );
}

#[test]
fn selection_sparse_segment_truncation_and_creation() {
    let locator = Locator { spc: 1663, db: 5, rel: 10 };
    let fork = Fork::Main;
    let mut files: KeyMap<u64> = KeyMap::new();
    files.insert(b"base/5/10".to_vec(), 819200);
    files.insert(b"base/5/INCREMENTAL.10.1".to_vec(), 12);
    let mut p = Prepared { reference: Uploaded { files, ranges: vec![] }, table: Vec::new() };
    assert!(p.select("base/5/11", locator, fork, 0, 819200).unwrap().is_none());
    let unchanged = p.select("base/5/10", locator, fork, 0, 819200).unwrap().unwrap();
    assert!(unchanged.blocks.is_empty());
    assert_eq!(unchanged.size(), 12);
    assert_eq!(unchanged.truncation, 100);
    let marked = |limit: u32, blocks: Vec<u32>| vec![Modified { locator, fork, limit, blocks }];
    p.table = marked(u32::MAX, vec![1, 4]);
    let changed = p.select("base/5/10", locator, fork, 0, 819200).unwrap().unwrap();
    assert_eq!(changed.blocks, vec![1, 4]);
    assert_eq!(changed.size(), 3 * 8192);
    assert_eq!(
        &changed.header()[..12],
        [MAGIC.to_ne_bytes(), 2u32.to_ne_bytes(), 100u32.to_ne_bytes()].concat()
    );
    p.table = marked(u32::MAX, vec![1, 4, 131072 + 7]);
    assert_eq!(p.select("base/5/10.1", locator, fork, 1, 819200).unwrap().unwrap().blocks, vec![7]);
    assert!(p.select("base/5/10", locator, Fork::FreeSpace, 0, 819200).unwrap().is_none());
    p.table = marked(0, vec![]);
    assert!(p.select("base/5/10", locator, fork, 0, 819200).unwrap().is_none());
    // An entry for the creation of the whole database also forces complete copies.
    p.table = vec![Modified { locator: Locator { rel: 0, ..locator }, fork, limit: 0, blocks: vec![] }];
    assert!(p.select("base/5/10", locator, fork, 0, 819200).unwrap().is_none());
}

#[test]
fn the_oldest_range_comes_first() {
    let a = WalRange { tli: 1, start: 100, end: 200 };
    let b = WalRange { tli: 2, start: 200, end: 300 };
    assert_eq!(first_range(&vec![a, b]).unwrap(), a);
    assert!(first_range(&Vec::new()).is_err());
}

#[test]
fn summaries_are_read_in_order() {
    let files = vec![
        Summary { tli: 2, start: 10, end: 20 },
        Summary { tli: 1, start: 30, end: 40 },
        Summary { tli: 1, start: 10, end: 20 },
    ];
    let sorted: Vec<(u32, u64)> = sort_summaries(&files).iter().map(|s| (s.tli, s.start)).collect();
    assert_eq!(sorted, vec![(2, 10), (1, 10), (1, 30)]);
    let path = summary_path(&Summary { tli: 1, start: 0x1_0000_0028, end: 0x2_0000_0000 });
    assert_eq!(path, "pg_wal/summaries/0000000100000001000000280000000200000000.summary");
}

#[test]
fn an_upload_ends_where_the_client_says_so() {
    let mut t = Transfer::new();
    assert!(!t.take(b'd', b"abc").unwrap());
    assert!(!t.take(b'H', b"").unwrap());
    assert!(t.take(b'c', b"").unwrap());
    assert_eq!(t.bytes, b"abc".to_vec());
    assert!(t.take(b'f', b"why").is_err());
    assert!(t.take(b'x', b"").is_err());
    assert!(t.take(b'c', b"not empty").is_err());
    assert!(limit_of(b'x' as i32).is_err());
    let mut s = Session::new();
    assert!(current(&s).is_none());
    s.keep(Uploaded { files: KeyMap::new(), ranges: vec![] });
    assert!(current(&s).is_some());
    s.clear();
    assert!(current(&s).is_none());
}

#[test]
fn a_plan_says_how_large_its_file_is() {
    let none = FilePlan { blocks: vec![], truncation: 7 };
    assert_eq!(none.header_size(), 12);
    assert_eq!(none.header().len(), 12);
    let many = FilePlan { blocks: (0..2046).collect(), truncation: 2046 };
    assert_eq!(many.header_size(), 2 * 8192);
    assert_eq!(many.size(), 2 * 8192 + 2046 * 8192);
}

#[test]
fn a_backup_is_prepared_from_summaries_without_a_gap() {
    let history = [
        HistoryEntry { tli: 2, begin: 200, end: 0 },
        HistoryEntry { tli: 1, begin: 0, end: 200 },
    ];
    let uploaded = || Uploaded {
        files: KeyMap::new(),
        ranges: vec![WalRange { tli: 1, start: 100, end: 150 }],
    };
    let mut p = Preparing::begin(uploaded(), &history, 400).unwrap();
    assert_eq!(p.origin(), (100, 1));
    assert_eq!(p.wanted().unwrap().end, 200);
    let late = Summary { tli: 1, start: 150, end: 220 };
    let early = Summary { tli: 1, start: 90, end: 150 };
    assert!(p.take_summaries(&vec![late]).is_err_and(|e| e.message()
        == "WAL summaries are incomplete on timeline 1 at 0/64"));
    assert_eq!(p.wanted().unwrap().tli, 1, "still wanted");
    let paths = p.take_summaries(&vec![late, early]).unwrap();
    assert_eq!(
        paths,
        vec![
            "pg_wal/summaries/00000001000000000000005A0000000000000096.summary",
            "pg_wal/summaries/00000001000000000000009600000000000000DC.summary",
        ]
    );
    assert_eq!(p.wanted().unwrap().tli, 2);
    p.take_summaries(&vec![Summary { tli: 2, start: 200, end: 400 }]).unwrap();
    assert!(p.wanted().is_none());
    let done = p.finish(Vec::new());
    assert_eq!(done.reference.ranges.len(), 1);
    let over = Preparing::begin(uploaded(), &history, 90);
    assert!(over.is_err(), "the previous backup is newer");
}
