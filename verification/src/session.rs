//! What sessions read at: the present, a snapshot or the past, and the history that they hold.
use crate::report::{report, Report, ReportView};
use crate::text::{decimal, push_dec};
use vstd::prelude::*;

verus! {

/// No snapshot was read at.
pub const UNREAD: u64 = 0xffff_ffff_ffff_ffff;

/// The command number that no command has.
pub const NO_COMMAND: u32 = 0xffff_ffff;

/// The past commit that a session was set to read at: a positive setting.
pub open spec fn forced_seq(setting: i32) -> Option<u64> {
    if setting > 0 {
        Some(setting as u64)
    } else {
        None
    }
}

/// The past commit that a session reads at, where it was set to.
pub fn time_travel_seq(setting: i32) -> (r: Option<u64>)
    ensures
        r == forced_seq(setting),
{
    if setting > 0 {
        Some(setting as u64)
    } else {
        None
    }
}

/// Whether the session reads history and not the present.
pub fn reading_the_past(setting: i32) -> (r: bool)
    ensures
        r == (forced_seq(setting) is Some),
{
    time_travel_seq(setting).is_some()
}

/// The report of a write by a session that reads at the past commit `seq`.
pub open spec fn write_into_the_past(seq: u64) -> ReportView {
    ReportView {
        message: "cannot write objkv tables while reading a past snapshot"@,
        detail: "Writes are not allowed while pgrust.objkv_snapshot_seq (currently "@ + decimal(
            seq as nat,
        ) + ") forces a past snapshot."@,
        hint: "RESET pgrust.objkv_snapshot_seq to write to the present."@,
        state: "25006"@,
    }
}

/// Refuses a write while a past snapshot is forced: what was decided from the rows of the past
/// must not be written over those of the present.
pub fn refuse_writes_into_the_past(setting: i32) -> (r: Result<(), Report>)
    ensures
        match r {
            Ok(_) => forced_seq(setting) is None,
            Err(e) => forced_seq(setting) matches Some(seq) && e@ == write_into_the_past(seq),
        },
{
    match time_travel_seq(setting) {
        None => Ok(()),
        Some(seq) => {
            let mut detail =
                "Writes are not allowed while pgrust.objkv_snapshot_seq (currently ".to_owned();
            push_dec(&mut detail, seq);
            detail.append(") forces a past snapshot.");
            Err(
                report(
                    "cannot write objkv tables while reading a past snapshot".to_owned(),
                    detail,
                    "RESET pgrust.objkv_snapshot_seq to write to the present.",
                    "25006",
                ),
            )
        },
    }
}

/// A snapshot that a command reads at.
pub struct Snapshot {
    /// It draws the line between what commands see and what they do not.
    pub mvcc: bool,
    /// The command that reads.
    pub curcid: u32,
    /// The last commit that it sees; zero while that is not known.
    pub seq: u64,
}

/// The command that a snapshot reads as.
pub open spec fn command_of(snapshot: Option<Snapshot>) -> u32 {
    match snapshot {
        Some(s) => if s.mvcc {
            s.curcid
        } else {
            NO_COMMAND
        },
        None => NO_COMMAND,
    }
}

/// The command that a snapshot reads as. Without a snapshot that draws the line, every write of
/// the transaction is seen.
pub fn snapshot_cid(snapshot: &Option<Snapshot>) -> (r: u32)
    ensures
        r == command_of(*snapshot),
{
    match snapshot {
        Some(s) => if s.mvcc {
            s.curcid
        } else {
            NO_COMMAND
        },
        None => NO_COMMAND,
    }
}

/// Stamps a snapshot with where the store stands when it is taken, so that a commit made a moment
/// later does not pass for one that it sees. A store that is not open yet stamps nothing.
pub fn note_snapshot(snapshot: &mut Snapshot, open: bool, now: u64)
    ensures
        *final(snapshot) == (Snapshot {
            seq: if open {
                now
            } else {
                old(snapshot).seq
            },
            ..*old(snapshot)
        }),
{
    if open {
        snapshot.seq = now;
    }
}

/// The oldest commits that sessions read at, each under its slot.
pub struct InUse {
    held: Vec<(u64, u64)>,
}

spec fn holds(held: Seq<(u64, u64)>, slot: u64) -> bool {
    exists|i: int| 0 <= i < held.len() && (#[trigger] held[i]).0 == slot
}

spec fn held_at(held: Seq<(u64, u64)>, slot: u64) -> u64 {
    held[choose|i: int| 0 <= i < held.len() && (#[trigger] held[i]).0 == slot].1
}

impl View for InUse {
    type V = Map<u64, u64>;

    closed spec fn view(&self) -> Map<u64, u64> {
        Map::new(|s: u64| holds(self.held@, s), |s: u64| held_at(self.held@, s))
    }
}

pub open spec fn lesser(a: u64, b: u64) -> u64 {
    if a < b {
        a
    } else {
        b
    }
}

/// `m` is the least of the commits in use, or none is and `m` is beyond all.
pub open spec fn is_oldest(held: Map<u64, u64>, m: u64) -> bool {
    &&& forall|s: u64| #[trigger] held.dom().contains(s) ==> m <= held[s]
    &&& m == UNREAD || exists|s: u64| #[trigger] held.dom().contains(s) && held[s] == m
}

impl InUse {
    /// No slot comes twice.
    pub closed spec fn wf(&self) -> bool {
        forall|i: int, j: int|
            0 <= i < j < self.held@.len() ==> (#[trigger] self.held@[i]).0 != (
            #[trigger] self.held@[j]).0
    }

    pub fn new() -> (r: InUse)
        ensures
            r.wf(),
            r@ == Map::<u64, u64>::empty(),
    {
        let r = InUse { held: Vec::new() };
        proof {
            assert(r@ =~= Map::empty());
        }
        r
    }

    proof fn lemma_at(&self, i: int)
        requires
            self.wf(),
            0 <= i < self.held@.len(),
        ensures
            self@.dom().contains(self.held@[i].0),
            self@[self.held@[i].0] == self.held@[i].1,
    {
        let s = self.held@[i].0;
        assert(holds(self.held@, s));
        let j = choose|j: int| 0 <= j < self.held@.len() && (#[trigger] self.held@[j]).0 == s;
        if i < j {
            assert(self.held@[i].0 != self.held@[j].0);
        } else if j < i {
            assert(self.held@[j].0 != self.held@[i].0);
        }
    }

    fn find(&self, slot: u64) -> (r: Option<usize>)
        ensures
            match r {
                Some(i) => i < self.held@.len() && self.held@[i as int].0 == slot,
                None => !holds(self.held@, slot),
            },
    {
        let mut i: usize = 0;
        while i < self.held.len()
            invariant
                i <= self.held@.len(),
                forall|j: int| 0 <= j < i ==> (#[trigger] self.held@[j]).0 != slot,
            decreases self.held@.len() - i,
        {
            if self.held[i].0 == slot {
                return Some(i);
            }
            i += 1;
        }
        None
    }

    /// The session in a slot reads at a commit.
    pub fn note(&mut self, slot: u64, seq: u64)
        requires
            old(self).wf(),
        ensures
            final(self).wf(),
            final(self)@ == old(self)@.insert(
                slot,
                if old(self)@.dom().contains(slot) {
                    lesser(old(self)@[slot], seq)
                } else {
                    seq
                },
            ),
    {
        let ghost before = *self;
        match self.find(slot) {
            Some(i) => {
                proof {
                    before.lemma_at(i as int);
                }
                let now: u64 = if self.held[i].1 < seq {
                    self.held[i].1
                } else {
                    seq
                };
                self.held.set(i, (slot, now));
                proof {
                    assert(self.held@ =~= before.held@.update(i as int, (slot, now)));
                    assert(self.wf());
                    assert forall|s: u64| holds(self.held@, s) == holds(before.held@, s) by {
                        if holds(self.held@, s) {
                            let j = choose|j: int|
                                0 <= j < self.held@.len() && (#[trigger] self.held@[j]).0 == s;
                            assert(before.held@[j].0 == s);
                        }
                        if holds(before.held@, s) {
                            let j = choose|j: int|
                                0 <= j < before.held@.len() && (#[trigger] before.held@[j]).0 == s;
                            assert(self.held@[j].0 == s);
                        }
                    }
                    assert forall|s: u64| holds(self.held@, s) implies #[trigger] self@[s] == (
                    if s == slot {
                        now
                    } else {
                        before@[s]
                    }) by {
                        let j = choose|j: int|
                            0 <= j < self.held@.len() && (#[trigger] self.held@[j]).0 == s;
                        self.lemma_at(j);
                        before.lemma_at(j);
                        self.lemma_at(i as int);
                    }
                    assert(self@ =~= before@.insert(slot, now));
                }
            },
            None => {
                self.held.push((slot, seq));
                proof {
                    let n = before.held@.len() as int;
                    assert(self.held@ =~= before.held@.push((slot, seq)));
                    assert forall|i: int, j: int| 0 <= i < j < self.held@.len() implies (
                    #[trigger] self.held@[i]).0 != (#[trigger] self.held@[j]).0 by {
                        if j == n {
                            assert(before.held@[i].0 != slot);
                        } else {
                            assert(before.held@[i].0 != before.held@[j].0);
                        }
                    }
                    self.lemma_at(n);
                    assert forall|s: u64| holds(self.held@, s) == (s == slot || holds(
                        before.held@,
                        s,
                    )) by {
                        if holds(before.held@, s) {
                            let j = choose|j: int|
                                0 <= j < before.held@.len() && (#[trigger] before.held@[j]).0 == s;
                            assert(self.held@[j].0 == s);
                        }
                        if holds(self.held@, s) && s != slot {
                            let j = choose|j: int|
                                0 <= j < self.held@.len() && (#[trigger] self.held@[j]).0 == s;
                            assert(before.held@[j].0 == s);
                        }
                    }
                    assert forall|s: u64| holds(before.held@, s) implies #[trigger] self@[s]
                        == before@[s] by {
                        let j = choose|j: int|
                            0 <= j < before.held@.len() && (#[trigger] before.held@[j]).0 == s;
                        before.lemma_at(j);
                        self.lemma_at(j);
                    }
                    assert(self@ =~= before@.insert(slot, seq));
                }
            },
        }
    }

    /// The session in a slot reads no more.
    pub fn release(&mut self, slot: u64)
        requires
            old(self).wf(),
        ensures
            final(self).wf(),
            final(self)@ == old(self)@.remove(slot),
    {
        let ghost before = *self;
        match self.find(slot) {
            Some(i) => {
                let _gone = self.held.remove(i);
                proof {
                    let a = before.held@;
                    let b = self.held@;
                    assert(b =~= a.remove(i as int));
                    assert forall|x: int, y: int| 0 <= x < y < b.len() implies (#[trigger] b[x]).0
                        != (#[trigger] b[y]).0 by {
                        let u = if x < i { x } else { x + 1 };
                        let v = if y < i { y } else { y + 1 };
                        assert(a[u].0 != a[v].0);
                    }
                    assert forall|s: u64| #![auto] holds(b, s) == (holds(a, s) && s != slot) by {
                        if holds(b, s) {
                            let x = choose|x: int| 0 <= x < b.len() && (#[trigger] b[x]).0 == s;
                            let u = if x < i { x } else { x + 1 };
                            assert(a[u].0 == s);
                            if u < i {
                                assert(a[u].0 != a[i as int].0);
                            } else {
                                assert(a[i as int].0 != a[u].0);
                            }
                        }
                        if holds(a, s) && s != slot {
                            let u = choose|u: int| 0 <= u < a.len() && (#[trigger] a[u]).0 == s;
                            let x = if u < i { u } else { u - 1 };
                            assert(b[x].0 == s);
                        }
                    }
                    assert forall|s: u64| holds(b, s) implies #[trigger] self@[s] == before@[s] by {
                        let x = choose|x: int| 0 <= x < b.len() && (#[trigger] b[x]).0 == s;
                        let u = if x < i { x } else { x + 1 };
                        assert(a[u] == b[x]);
                        self.lemma_at(x);
                        before.lemma_at(u);
                    }
                    assert(self@ =~= before@.remove(slot));
                }
            },
            None => {
                proof {
                    assert(self@ =~= before@.remove(slot));
                }
            },
        }
    }

    /// The oldest commit that any session reads at.
    pub fn oldest(&self) -> (r: u64)
        requires
            self.wf(),
        ensures
            is_oldest(self@, r),
    {
        let mut m: u64 = UNREAD;
        let mut i: usize = 0;
        while i < self.held.len()
            invariant
                self.wf(),
                i <= self.held@.len(),
                forall|j: int| 0 <= j < i ==> m <= (#[trigger] self.held@[j]).1,
                m == UNREAD || exists|j: int| 0 <= j < i && (#[trigger] self.held@[j]).1 == m,
            decreases self.held@.len() - i,
        {
            if self.held[i].1 < m {
                m = self.held[i].1;
            }
            proof {
                assert(m <= self.held@[i as int].1);
            }
            i += 1;
        }
        proof {
            assert forall|s: u64| #[trigger] self@.dom().contains(s) implies m <= self@[s] by {
                let j = choose|j: int|
                    0 <= j < self.held@.len() && (#[trigger] self.held@[j]).0 == s;
                self.lemma_at(j);
            }
            if m != UNREAD {
                let j = choose|j: int|
                    0 <= j < self.held@.len() && (#[trigger] self.held@[j]).1 == m;
                self.lemma_at(j);
                assert(self@.dom().contains(self.held@[j].0));
            }
        }
        m
    }
}

/// How far back history may be thrown away: not past the commits that are to be kept, and not
/// past what is being read. A setting that keeps none keeps all.
pub open spec fn horizon_of(retain: i32, now: u64, oldest: u64) -> u64 {
    if retain <= 0 {
        0
    } else if now < retain {
        0
    } else {
        lesser((now - retain) as u64, oldest)
    }
}

/// How far back history may be thrown away.
pub fn collection_horizon(retain: i32, now: u64, oldest: u64) -> (r: u64)
    ensures
        r == horizon_of(retain, now, oldest),
{
    if retain <= 0 {
        return 0;
    }
    let kept: u64 = retain as u64;
    if now < kept {
        return 0;
    }
    let from: u64 = now - kept;
    if from < oldest {
        from
    } else {
        oldest
    }
}

/// What is thrown away was neither to be kept nor is being read.
pub proof fn lemma_horizon_spares_readers(held: Map<u64, u64>, retain: i32, now: u64, oldest: u64, s: u64)
    requires
        is_oldest(held, oldest),
        held.dom().contains(s),
    ensures
        horizon_of(retain, now, oldest) <= held[s],
        retain > 0 && now >= retain ==> horizon_of(retain, now, oldest) + retain <= now,
{
}

} // verus!
