use objwal::faults::{
    failure, stale, tear, Fault, Faults, ObjectInfo, OpKind, PutOutcome, Rule, Step, XorShift,
    CERTAIN,
};
use std::cell::RefCell;
use std::collections::BTreeMap;

/// A store in memory behind a layer of faults.
struct FaultStore {
    inner: RefCell<BTreeMap<String, Vec<u8>>>,
    faults: RefCell<Faults>,
    slept: RefCell<Vec<u64>>,
}

impl FaultStore {
    fn new(seed: u64) -> FaultStore {
        FaultStore {
            inner: RefCell::new(BTreeMap::new()),
            faults: RefCell::new(Faults::new(seed)),
            slept: RefCell::new(Vec::new()),
        }
    }

    fn add_rule(&self, rule: Rule) {
        self.faults.borrow_mut().add_rule(rule);
    }

    /// A probability as one of so many equal parts.
    fn set_random(&self, p: f64, kinds: &[Fault]) {
        self.faults.borrow_mut().set_random((p * CERTAIN as f64).ceil() as u64, kinds);
    }

    fn write(&self, key: &str, body: &[u8]) -> PutOutcome {
        if self.inner.borrow().contains_key(key) {
            return PutOutcome::AlreadyExists;
        }
        self.inner.borrow_mut().insert(key.to_string(), body.to_vec());
        PutOutcome::Written
    }

    fn put_if_absent(&self, key: &str, body: &[u8]) -> Result<PutOutcome, String> {
        let (n, step) = self.faults.borrow_mut().put(key, body);
        let mut torn = false;
        let r = match step {
            Step::LandThenFail(e) => {
                self.write(key, body);
                Err(e)
            }
            Step::Fail(e) => Err(e),
            Step::Write(bytes) => {
                torn = true;
                Ok(self.write(key, &bytes))
            }
            Step::Exists => Ok(PutOutcome::AlreadyExists),
            Step::Hold(ms) => {
                self.slept.borrow_mut().push(ms);
                Ok(self.write(key, body))
            }
            _ => Ok(self.write(key, body)),
        };
        self.faults.borrow_mut().put_done(n, key, torn, &r);
        r
    }

    fn get(&self, key: &str) -> Result<Option<Vec<u8>>, String> {
        let (n, step) = self.faults.borrow_mut().get(key);
        let read = || self.inner.borrow().get(key).cloned();
        let r = match step {
            Step::Fail(e) => Err(e),
            Step::LandThenFail(e) => Err(e),
            Step::Hold(ms) => {
                self.slept.borrow_mut().push(ms);
                Ok(read())
            }
            _ => Ok(read()),
        };
        self.faults.borrow_mut().read_done(n, &r);
        r
    }

    fn get_range(&self, key: &str, offset: u64, len: u64) -> Result<Option<Vec<u8>>, String> {
        let (n, step) = self.faults.borrow_mut().get_range(key, offset, len);
        let read = || {
            self.inner
                .borrow()
                .get(key)
                .map(|b| b[offset as usize..(offset + len) as usize].to_vec())
        };
        let r = match step {
            Step::Fail(e) => Err(e),
            Step::LandThenFail(e) => Err(e),
            Step::Short => Ok(read().map(|b| self.faults.borrow_mut().shorten(b))),
            _ => Ok(read()),
        };
        self.faults.borrow_mut().read_done(n, &r);
        r
    }

    fn list(&self, prefix: &str) -> Result<Vec<ObjectInfo>, String> {
        let (n, step) = self.faults.borrow_mut().list(prefix);
        let all: Vec<ObjectInfo> = self
            .inner
            .borrow()
            .iter()
            .filter(|(k, _)| k.starts_with(prefix))
            .map(|(k, b)| ObjectInfo { key: k.clone(), size: b.len() as u64 })
            .collect();
        let r = match step {
            Step::Fail(e) => Err(e),
            Step::LandThenFail(e) => Err(e),
            Step::Stale(k) => Ok(stale(all, k)),
            _ => Ok(all),
        };
        self.faults.borrow_mut().list_done(n, &r);
        r
    }

    fn delete(&self, key: &str) -> Result<(), String> {
        let (n, step) = self.faults.borrow_mut().delete(key);
        let r = match step {
            Step::Fail(e) => Err(e),
            Step::LandThenFail(e) => {
                self.inner.borrow_mut().remove(key);
                Err(e)
            }
            _ => {
                self.inner.borrow_mut().remove(key);
                Ok(())
            }
        };
        self.faults.borrow_mut().delete_done(n, &r);
        r
    }

    fn torn_keys(&self) -> Vec<String> {
        self.faults.borrow().torn_keys()
    }

    fn stored(&self, key: &str) -> Option<Vec<u8>> {
        self.inner.borrow().get(key).cloned()
    }
}

#[test]
fn a_scripted_rule_hits_the_nth_matching_operation_only() {
    let f = FaultStore::new(1);
    f.add_rule(Rule::nth(OpKind::Put, "commit/", 2, Fault::ErrAfterLanded));
    assert_eq!(f.put_if_absent("commit/1", b"a").unwrap(), PutOutcome::Written);
    assert_eq!(f.put_if_absent("other/1", b"x").unwrap(), PutOutcome::Written);
    assert!(f.put_if_absent("commit/2", b"b").is_err(), "the second commit/ put");
    assert_eq!(f.stored("commit/2"), Some(b"b".to_vec()), "but it landed");
    assert_eq!(f.put_if_absent("commit/3", b"c").unwrap(), PutOutcome::Written, "once only");
    assert_eq!(f.faults.borrow().faults().len(), 1);
    let log = f.faults.borrow().log();
    assert!(log.contains("<<ErrAfterLanded>>"), "{log}");
}

#[test]
fn phantom_exists_and_err_before_landed_write_nothing() {
    let f = FaultStore::new(2);
    f.add_rule(Rule::nth(OpKind::Put, "a", 1, Fault::PhantomExists));
    f.add_rule(Rule::nth(OpKind::Put, "b", 1, Fault::ErrBeforeLanded));
    assert_eq!(f.put_if_absent("a", b"1").unwrap(), PutOutcome::AlreadyExists);
    assert!(f.put_if_absent("b", b"2").is_err());
    assert!(f.inner.borrow().is_empty());
}

#[test]
fn a_torn_object_differs_from_what_was_sent_and_is_remembered() {
    for seed in 0..50 {
        let f = FaultStore::new(seed);
        f.add_rule(Rule::every(OpKind::Put, "run/", Fault::TornObject));
        let body: Vec<u8> = (0..200u32).map(|i| i as u8).collect();
        assert_eq!(f.put_if_absent("run/1", &body).unwrap(), PutOutcome::Written);
        let stored = f.stored("run/1").unwrap();
        assert_ne!(stored, body, "seed {seed}");
        assert_eq!(f.torn_keys(), vec!["run/1".to_string()]);
    }
}

#[test]
fn a_stale_list_omits_the_newest_and_a_short_range_comes_back_short() {
    let f = FaultStore::new(3);
    for k in ["x/1", "x/2", "x/3"] {
        f.put_if_absent(k, b"0123456789").unwrap();
    }
    f.add_rule(Rule::nth(OpKind::List, "x/", 1, Fault::ListStale(1)));
    let keys: Vec<String> = f.list("x/").unwrap().into_iter().map(|i| i.key).collect();
    assert_eq!(keys, vec!["x/1", "x/2"]);
    f.add_rule(Rule::every(OpKind::GetRange, "x/", Fault::GetRangeShort));
    let b = f.get_range("x/1", 0, 10).unwrap().unwrap();
    assert!(b.len() < 10, "{}", b.len());
    f.add_rule(Rule::every(OpKind::Get, "x/", Fault::GetErr));
    assert!(f.get("x/1").is_err());
}

#[test]
fn the_same_seed_gives_the_same_faults_and_disabling_gives_none() {
    let run = |seed: u64| -> Vec<Option<Fault>> {
        let f = FaultStore::new(seed);
        f.set_random(0.5, &[]);
        for i in 0..40 {
            let _ = f.put_if_absent(&format!("k/{i}"), b"v");
            let _ = f.get(&format!("k/{i}"));
            let _ = f.list("k/");
        }
        let events = f.faults.borrow();
        events.log.iter().map(|e| e.fault).collect()
    };
    assert_eq!(run(7), run(7));
    assert_ne!(run(7), run(8));
    assert!(run(7).iter().any(Option::is_some));

    let f = FaultStore::new(7);
    f.set_random(1.0, &[]);
    f.faults.borrow_mut().set_enabled(false);
    for i in 0..10 {
        f.put_if_absent(&format!("k/{i}"), b"v").unwrap();
    }
    assert_eq!(f.faults.borrow().injected, 0);
}

#[test]
fn a_delay_goes_through_the_installed_sleeper() {
    let f = FaultStore::new(4);
    f.add_rule(Rule::every(OpKind::Get, "", Fault::Delay(7)));
    f.get("anything").unwrap();
    assert_eq!(*f.slept.borrow(), vec![7]);
}

#[test]
fn a_long_delay_is_kept_to_the_millisecond() {
    let f = FaultStore::new(4);
    f.add_rule(Rule::every(OpKind::Get, "", Fault::Delay(5000)));
    f.get("anything").unwrap();
    assert_eq!(*f.slept.borrow(), vec![5000]);
}

#[test]
fn a_torn_object_is_never_what_was_sent() {
    for seed in 0..2000u64 {
        let mut rng = XorShift::new(seed);
        for body in [vec![0u8], vec![0xff, 0], b"abc".to_vec(), vec![7u8; 40]] {
            let torn = tear(&mut rng, &body);
            assert_ne!(torn, body, "seed {seed}");
            assert!(torn.len() == body.len() || body.starts_with(&torn), "seed {seed}");
        }
    }
}

#[test]
fn a_rule_fires_as_often_as_it_may() {
    let mut first = Rule::first(OpKind::Delete, "a/", 2, Fault::ErrBeforeLanded);
    let hits: Vec<bool> =
        (0..4).map(|_| first.matches(OpKind::Delete, "a/1").is_some()).collect();
    assert_eq!(hits, vec![true, true, false, false]);
    assert_eq!(first.matches(OpKind::Put, "a/1"), None);
    assert_eq!(first.matches(OpKind::Delete, "b/1"), None);
    let f = FaultStore::new(1);
    f.put_if_absent("a/1", b"x").unwrap();
    f.add_rule(Rule::every(OpKind::Delete, "a/", Fault::ErrAfterLanded));
    assert!(f.delete("a/1").is_err());
    assert_eq!(f.stored("a/1"), None, "it was deleted all the same");
    f.faults.borrow_mut().clear_rules();
    assert!(f.delete("a/1").is_ok());
    assert_eq!(
        f.faults.borrow().tail(1),
        "... 2 earlier operation(s) omitted ...\n#3     delete a/1  -> Ok\n"
    );
}

#[test]
fn the_generator_repeats_itself_and_never_stands_still() {
    let mut a = XorShift::new(9);
    let mut b = XorShift::new(9);
    for _ in 0..100 {
        let x = a.next_u64();
        assert_ne!(x, 0);
        assert_eq!(x, b.next_u64());
    }
    let mut z = XorShift::new(0);
    assert_ne!(z.next_u64(), 0);
    for _ in 0..100 {
        assert!(a.below(10) < 10);
        assert!(a.chance(CERTAIN));
        assert!(!a.chance(0));
    }
}

#[test]
fn torn_bodies_differ() {
    for seed in 0..200 {
        let mut rng = XorShift::new(seed);
        let body = vec![7u8; 64];
        assert_ne!(tear(&mut rng, &body), body, "seed {seed}");
    }
    assert!(!failure(3, Fault::GetErr, OpKind::Get, "k").is_empty());
    assert!(Fault::GetErr.applies_to(OpKind::Get));
    assert!(!Fault::GetErr.applies_to(OpKind::Put));
    assert_eq!(Fault::ListStale(2).text(), "ListStale(2)");
    assert_eq!(Fault::all().len(), 8);
}
