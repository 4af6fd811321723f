//! The way of a transaction's writes into the store: what is decided before it commits, and
//! what becomes of it when it ends.
use crate::commit::Op;
use crate::key_map::KeyMap;
use crate::lines::{find_char, first_of, lossy, lossy_of, number_value, parse_number};
use crate::report::{internal, internal_error, report, Report, ReportView};
use crate::session::{
    collection_horizon, command_of, forced_seq, horizon_of, lesser, refuse_writes_into_the_past,
    snapshot_cid, time_travel_seq, write_into_the_past, Snapshot, NO_COMMAND, UNREAD,
};
use crate::staging::{
    flattened, ops_view, released, rolled_back, still_emptied, Pending, PendingView,
};
use crate::text::{chars_of, decimal, has_prefix, push_dec, strip_prefix};
use vstd::prelude::*;
use vstd::slice::slice_subrange;

verus! {

/// What a session remembers of its transaction.
#[derive(Clone, Copy, Debug, PartialEq, Eq, Structural)]
pub struct Session {
    /// The commit that its writes are staged as; zero where there is none.
    pub commit_seq: u64,
    /// The oldest commit that it read at.
    pub snapshot: u64,
    /// The command that last read at a snapshot.
    pub last_cid: u32,
}

/// How the commit that a read is at comes to be known.
#[derive(Clone, Copy, Debug, PartialEq, Eq, Structural)]
pub enum Point {
    /// The read is of the present.
    Latest,
    /// The read is at this commit, which is now in use.
    At(u64),
    /// The snapshot has no commit yet: a view is to be taken, and the read is at its commit.
    TakeView,
}

impl Session {
    pub fn new() -> (r: Session)
        ensures
            r == (Session { commit_seq: 0, snapshot: UNREAD, last_cid: NO_COMMAND }),
    {
        Session { commit_seq: 0, snapshot: UNREAD, last_cid: NO_COMMAND }
    }

    /// The transaction decided something from the store at a commit, which is now in use.
    pub fn observe_read_at(&mut self, seq: u64)
        ensures
            *final(self) == (Session { snapshot: lesser(old(self).snapshot, seq), ..*old(self) }),
    {
        if seq <= self.snapshot {
            self.snapshot = seq;
        }
    }

    /// What commit a read at a snapshot is at. A forced past commit goes before the snapshot's
    /// own.
    pub open spec fn point_of(snapshot: Option<Snapshot>, setting: i32) -> Point {
        match snapshot {
            None => Point::Latest,
            Some(s) => match forced_seq(setting) {
                Some(forced) => Point::At(forced),
                None => if s.seq == 0 {
                    Point::TakeView
                } else {
                    Point::At(s.seq)
                },
            },
        }
    }

    /// Resolves a snapshot to the commit that a read is at.
    pub fn snapshot_seq(&mut self, snapshot: &Option<Snapshot>, setting: i32) -> (r: Point)
        ensures
            r == Session::point_of(*snapshot, setting),
            *final(self) == (Session {
                last_cid: command_of(*snapshot),
                snapshot: match r {
                    Point::At(seq) => lesser(old(self).snapshot, seq),
                    _ => old(self).snapshot,
                },
                ..*old(self)
            }),
    {
        self.last_cid = snapshot_cid(snapshot);
        match snapshot {
            None => Point::Latest,
            Some(s) => {
                let seq: u64 = match time_travel_seq(setting) {
                    Some(forced) => forced,
                    None => {
                        if s.seq == 0 {
                            return Point::TakeView;
                        }
                        s.seq
                    },
                };
                self.observe_read_at(seq);
                Point::At(seq)
            },
        }
    }

    /// The command that last read at a snapshot.
    pub fn last_snapshot_cid(&self) -> (r: u32)
        ensures
            r == self.last_cid,
    {
        self.last_cid
    }

    /// Nothing is read at any more.
    pub fn forget_snapshots(&mut self)
        ensures
            *final(self) == (Session { snapshot: UNREAD, ..*old(self) }),
    {
        self.snapshot = UNREAD;
    }

    /// The commit that the writes were staged as, once.
    pub fn take_commit(&mut self) -> (r: u64)
        ensures
            r == old(self).commit_seq,
            *final(self) == (Session { commit_seq: 0, ..*old(self) }),
    {
        let seq: u64 = self.commit_seq;
        self.commit_seq = 0;
        seq
    }
}

/// A commit that wrote a key after the transaction read it.
pub struct Conflict {
    pub key: Vec<u8>,
    /// The commit that wrote it.
    pub by: u64,
}

/// The index that an entry's key names, where it is an entry's: hexadecimal digits after a `u`
/// or an `i`.
pub open spec fn index_of(key: Seq<char>) -> Option<nat> {
    if has_prefix(key, "u/"@) || has_prefix(key, "i/"@) {
        let rest = key.skip(2);
        let part = match first_of(rest, '/') {
            Some(i) => rest.take(i),
            None => rest,
        };
        match number_value(part, 16) {
            Ok(n) => Some(n),
            Err(_) => None,
        }
    } else {
        None
    }
}

/// The index that an entry's key names.
pub fn conflict_index(key: &str) -> (r: Option<u32>)
    ensures
        match r {
            Some(n) => index_of(key@) == Some(n as nat),
            None => index_of(key@) is None,
        },
{
    proof {
        reveal_strlit("u/");
        reveal_strlit("i/");
    }
    let rest = match strip_prefix(key, "u/") {
        Some(s) => s,
        None => match strip_prefix(key, "i/") {
            Some(s) => s,
            None => return None,
        },
    };
    let chars = chars_of(rest.as_str());
    proof {
        assert(chars@ == key@.skip(2));
    }
    let end: usize = match find_char(chars.as_slice(), '/') {
        Some(i) => i,
        None => chars.len(),
    };
    let part = slice_subrange(chars.as_slice(), 0, end);
    proof {
        assert(part@ =~= chars@.take(end as int));
        assert(chars@.take(chars@.len() as int) =~= chars@);
    }
    match parse_number(part, 16) {
        Ok(n) => Some(n),
        Err(_) => None,
    }
}

/// The report of a conflict on a key.
pub open spec fn conflict_report(key: Seq<char>, by: u64) -> ReportView {
    let (what, detail) = match index_of(key) {
        Some(oid) => (
            "an index entry in objkv index "@ + decimal(oid),
            "Commit "@ + decimal(by as nat)
                + " wrote the same entry. On a unique index this is a duplicate value inserted concurrently; the retry will report it as one."@,
        ),
        None => (
            "objkv row "@ + key,
            "The row was changed by commit "@ + decimal(by as nat) + "."@,
        ),
    };
    ReportView {
        message: "could not serialize access due to concurrent update of "@ + what,
        detail,
        hint: "Retry the transaction."@,
        state: "40001"@,
    }
}

/// Names what collided: a row, or an entry of an index.
pub fn describe_conflict(key: &str, by: u64) -> (r: Report)
    ensures
        r@ == conflict_report(key@, by),
{
    let mut message = "could not serialize access due to concurrent update of ".to_owned();
    let ghost head = message@;
    let mut detail: String;
    match conflict_index(key) {
        Some(oid) => {
            message.append("an index entry in objkv index ");
            push_dec(&mut message, oid as u64);
            detail = "Commit ".to_owned();
            push_dec(&mut detail, by);
            detail.append(
                " wrote the same entry. On a unique index this is a duplicate value inserted concurrently; the retry will report it as one.",
            );
            proof {
                assert(message@ =~= head + ("an index entry in objkv index "@ + decimal(
                    oid as nat,
                )));
            }
        },
        None => {
            message.append("objkv row ");
            message.append(key);
            detail = "The row was changed by commit ".to_owned();
            push_dec(&mut detail, by);
            detail.append(".");
            proof {
                assert(message@ =~= head + ("objkv row "@ + key@));
            }
        },
    }
    report(message, detail, "Retry the transaction.", "40001")
}

/// A conflict as a client reads it.
pub fn serialization_failure(c: &Conflict) -> (r: Report)
    ensures
        r@ == conflict_report(lossy_of(c.key@), c.by),
{
    let key = lossy(c.key.as_slice());
    describe_conflict(key.as_str(), c.by)
}

/// The report of a commit of `n` changes that failed.
pub open spec fn failed_commit(n: nat, why: Seq<char>) -> ReportView {
    internal("objkv: commit of "@ + decimal(n) + " changes failed: "@ + why)
}

fn commit_failed(n: usize, why: &str) -> (r: Report)
    ensures
        r@ == failed_commit(n as nat, why@),
{
    let mut message = "objkv: commit of ".to_owned();
    push_dec(&mut message, n as u64);
    message.append(" changes failed: ");
    message.append(why);
    internal_error(message)
}

/// A commit on its way.
pub struct PreCommit {
    /// What it writes.
    pub writes: KeyMap<Op>,
    /// How many keys it writes.
    pub changes: usize,
    /// The oldest commit that the transaction read at.
    pub snapshot: u64,
}

/// What a look for conflicting commits came to.
pub enum Probe {
    Clear,
    Conflict(Conflict),
    Failed(String),
}

/// What became of a commit that was handed to the store's queue.
pub enum Queued {
    /// There was nothing to write.
    Nothing,
    /// It waits as `ticket`, numbered `seq`.
    At { ticket: u64, seq: u64 },
    Conflict(Conflict),
    Failed(String),
}

/// What became of a commit that was waited for.
pub enum Outcome {
    /// It is in the store, under this number.
    Durable(u64),
    /// It could not be written.
    Failed(String),
    /// Another writer has the store.
    Fenced(String),
}

/// The report of a probe, where it found something.
pub open spec fn probe_report(p: Probe, n: nat) -> Option<ReportView> {
    match p {
        Probe::Clear => None,
        Probe::Conflict(c) => Some(conflict_report(lossy_of(c.key@), c.by)),
        Probe::Failed(why) => Some(failed_commit(n, why@)),
    }
}

impl PreCommit {
    /// Takes the writes of a transaction, as they commit. A transaction that wrote nothing has
    /// nothing to commit; one that reads the past may write nothing.
    pub fn begin(pending: &mut Pending, session: &mut Session, setting: i32) -> (r: Result<
        Option<PreCommit>,
        Report,
    >)
        requires
            old(pending).wf(),
        ensures
            final(pending).wf(),
            final(pending)@ == (PendingView { stack: Seq::empty(), ..old(pending)@ }),
            ({
                let writes = flattened(old(pending)@.stack, old(pending)@.emptied);
                match r {
                    Ok(None) => writes.dom() =~= Set::empty() && *final(session) == *old(session),
                    Err(e) => {
                        &&& !(writes.dom() =~= Set::empty())
                        &&& forced_seq(setting) matches Some(seq) && e@ == write_into_the_past(seq)
                        &&& *final(session) == *old(session)
                    },
                    Ok(Some(c)) => {
                        &&& !(writes.dom() =~= Set::empty())
                        &&& forced_seq(setting) is None
                        &&& c.writes.wf()
                        &&& ops_view(c.writes@) == writes
                        &&& c.changes == c.writes.keys().len()
                        &&& c.snapshot == old(session).snapshot
                        &&& *final(session) == (Session { snapshot: UNREAD, ..*old(session) })
                    },
                }
            }),
    {
        let writes = pending.flatten_pending();
        let n: usize = writes.len();
        proof {
            writes.lemma_keys();
            let all = ops_view(writes@);
            if n == 0 {
                assert(all.dom() =~= Set::empty()) by {
                    assert forall|k: Seq<u8>| !all.dom().contains(k) by {
                        if all.dom().contains(k) {
                            assert(writes@.dom().contains(k));
                            assert(writes.keys().contains(k));
                        }
                    }
                }
            } else {
                let k = writes.keys()[0];
                assert(writes.keys().contains(k));
                assert(writes@.dom().contains(k));
                assert(all.dom().contains(k));
            }
        }
        if n == 0 {
            return Ok(None);
        }
        match refuse_writes_into_the_past(setting) {
            Ok(_) => {},
            Err(e) => return Err(e),
        }
        let snapshot: u64 = session.snapshot;
        session.snapshot = UNREAD;
        Ok(Some(PreCommit { writes, changes: n, snapshot }))
    }

    /// Goes on where no commit since the snapshot wrote what this one writes.
    pub fn probed(&self, p: &Probe) -> (r: Result<(), Report>)
        ensures
            match r {
                Ok(_) => probe_report(*p, self.changes as nat) is None,
                Err(e) => probe_report(*p, self.changes as nat) == Some(e@),
            },
    {
        match p {
            Probe::Clear => Ok(()),
            Probe::Conflict(c) => Err(serialization_failure(c)),
            Probe::Failed(why) => Err(commit_failed(self.changes, why.as_str())),
        }
    }

    /// The commit was queued, or not: the ticket to wait for.
    pub fn queued(&self, session: &mut Session, q: &Queued) -> (r: Result<Option<u64>, Report>)
        ensures
            match *q {
                Queued::Nothing => r == Ok::<Option<u64>, Report>(None) && *final(session) == *old(
                    session,
                ),
                Queued::At { ticket, seq } => r == Ok::<Option<u64>, Report>(Some(ticket))
                    && *final(session) == (Session { commit_seq: seq, ..*old(session) }),
                Queued::Conflict(c) => r is Err && r->Err_0@ == conflict_report(
                    lossy_of(c.key@),
                    c.by,
                ) && *final(session) == *old(session),
                Queued::Failed(why) => r is Err && r->Err_0@ == failed_commit(
                    self.changes as nat,
                    why@,
                ) && *final(session) == *old(session),
            },
    {
        match q {
            Queued::Nothing => Ok(None),
            Queued::At { ticket, seq } => {
                session.commit_seq = *seq;
                Ok(Some(*ticket))
            },
            Queued::Conflict(c) => Err(serialization_failure(c)),
            Queued::Failed(why) => Err(commit_failed(self.changes, why.as_str())),
        }
    }

    /// The commit that was waited for landed, or did not: then nothing is left to discard.
    pub fn landed(&self, session: &mut Session, o: &Outcome) -> (r: Result<(), Report>)
        ensures
            match *o {
                Outcome::Durable(seq) => r is Ok && *final(session) == (Session {
                    commit_seq: seq,
                    ..*old(session)
                }),
                Outcome::Failed(why) => r is Err && r->Err_0@ == failed_commit(
                    self.changes as nat,
                    why@,
                ) && *final(session) == (Session { commit_seq: 0, ..*old(session) }),
                Outcome::Fenced(why) => r is Err && r->Err_0@ == failed_commit(
                    self.changes as nat,
                    why@,
                ) && *final(session) == (Session { commit_seq: 0, ..*old(session) }),
            },
    {
        match o {
            Outcome::Durable(seq) => {
                session.commit_seq = *seq;
                Ok(())
            },
            Outcome::Failed(why) => {
                session.commit_seq = 0;
                Err(commit_failed(self.changes, why.as_str()))
            },
            Outcome::Fenced(why) => {
                session.commit_seq = 0;
                Err(commit_failed(self.changes, why.as_str()))
            },
        }
    }
}

/// Whether a commit is waited for: one that asks to, and one behind a queue that is full.
pub fn waits(wants_async: bool, queue: i32, backlog: usize) -> (r: bool)
    ensures
        r == (!wants_async || backlog >= (if queue < 1 {
            1int
        } else {
            queue as int
        })),
{
    if !wants_async {
        return true;
    }
    if queue < 1 {
        backlog >= 1
    } else {
        backlog >= queue as usize
    }
}

/// The horizon of the fold that a commit asks for, where one is due.
pub fn fold_wanted(due: bool, retain: i32, now: u64, oldest: u64) -> (r: Option<u64>)
    ensures
        r == (if due {
            Some(horizon_of(retain, now, oldest))
        } else {
            None
        }),
{
    if due {
        Some(collection_horizon(retain, now, oldest))
    } else {
        None
    }
}

/// The report of something that is not supported.
pub open spec fn not_supported(what: Seq<char>) -> ReportView {
    ReportView {
        message: "objkv does not support "@ + what,
        detail: ""@,
        hint: ""@,
        state: "0A000"@,
    }
}

pub fn unsupported(what: &str) -> (r: Report)
    ensures
        r@ == not_supported(what@),
{
    let mut message = "objkv does not support ".to_owned();
    message.append(what);
    report(message, "".to_owned(), "", "0A000")
}

/// No frame of a transaction has a write.
pub open spec fn wrote_nothing(p: PendingView) -> bool {
    forall|i: int|
        0 <= i < p.stack.len() ==> (#[trigger] p.stack[i]).writes.dom() =~= Set::empty()
}

/// A transaction that wrote something cannot be prepared.
pub fn check_prepare(pending: &Pending) -> (r: Result<(), Report>)
    requires
        pending.wf(),
    ensures
        match r {
            Ok(_) => wrote_nothing(pending@),
            Err(e) => !wrote_nothing(pending@) && e@ == not_supported("PREPARE TRANSACTION"@),
        },
{
    if pending.is_empty() {
        Ok(())
    } else {
        Err(unsupported("PREPARE TRANSACTION"))
    }
}

/// The transaction aborted, and what it had staged is discarded: it wrote and read nothing.
pub fn aborted(pending: &mut Pending, session: &mut Session)
    requires
        old(pending).wf(),
    ensures
        final(pending).wf(),
        final(pending)@ == (PendingView {
            stack: Seq::empty(),
            emptied: Seq::empty(),
            ord: 0,
        }),
        *final(session) == (Session { commit_seq: 0, snapshot: UNREAD, ..*old(session) }),
{
    pending.discard();
    session.commit_seq = 0;
    session.forget_snapshots();
    pending.forget_emptied();
}

/// The transaction committed: nothing is emptied any more, and nothing read.
pub fn committed(pending: &mut Pending, session: &mut Session)
    requires
        old(pending).wf(),
    ensures
        final(pending).wf(),
        final(pending)@ == (PendingView { emptied: Seq::empty(), ord: 0, ..old(pending)@ }),
        *final(session) == (Session { snapshot: UNREAD, ..*old(session) }),
{
    session.forget_snapshots();
    pending.forget_emptied();
}

/// What befalls a subtransaction.
#[derive(Clone, Copy, Debug, PartialEq, Eq, Structural)]
pub enum SubEvent {
    Start,
    PreCommit,
    /// It was released into its parent.
    Commit,
    /// It was rolled back.
    Abort,
}

/// A subtransaction begins or ends: its writes go to its parent, or are gone.
pub fn objkv_subxact_callback(pending: &mut Pending, event: SubEvent, my: u32, parent: u32)
    requires
        old(pending).wf(),
    ensures
        final(pending).wf(),
        final(pending)@ == (match event {
            SubEvent::Start => old(pending)@,
            SubEvent::PreCommit => old(pending)@,
            SubEvent::Commit => PendingView {
                stack: released(old(pending)@.stack, my, parent),
                ..old(pending)@
            },
            SubEvent::Abort => {
                let stack = rolled_back(old(pending)@.stack, my);
                PendingView {
                    stack,
                    emptied: still_emptied(old(pending)@.emptied, stack),
                    ..old(pending)@
                }
            },
        }),
{
    match event {
        SubEvent::Start => {},
        SubEvent::PreCommit => {},
        SubEvent::Commit => pending.commit_sub(my, parent),
        SubEvent::Abort => pending.abort_sub(my),
    }
}

/// What befalls a transaction.
#[derive(Clone, Copy, Debug, PartialEq, Eq, Structural)]
pub enum XactEvent {
    PreCommit,
    Commit,
    Abort,
    Prepare,
}

/// What is to be done about a transaction.
pub enum XactAction {
    /// Its writes are to be committed: the last point at which it can still abort.
    PreCommit,
    /// This commit is to be marked as one that stands, and then the transaction is over.
    Confirm(u64),
    /// This commit is to be discarded, and then the transaction is over.
    Discard(u64),
    /// Nothing.
    Nothing,
}

/// A transaction comes to its end. Where the store has first to be told of a commit, the session
/// forgets the commit at once and the rest once the store was told; else it forgets all at once.
pub fn objkv_xact_callback(pending: &mut Pending, session: &mut Session, event: XactEvent) -> (r:
    Result<XactAction, Report>)
    requires
        old(pending).wf(),
    ensures
        final(pending).wf(),
        match event {
            XactEvent::PreCommit => r == Ok::<XactAction, Report>(XactAction::PreCommit)
                && final(pending)@ == old(pending)@ && *final(session) == *old(session),
            XactEvent::Commit => if old(session).commit_seq != 0 {
                &&& r == Ok::<XactAction, Report>(XactAction::Confirm(old(session).commit_seq))
                &&& final(pending)@ == old(pending)@
                &&& *final(session) == (Session { commit_seq: 0, ..*old(session) })
            } else {
                &&& r == Ok::<XactAction, Report>(XactAction::Nothing)
                &&& final(pending)@ == (PendingView {
                    emptied: Seq::empty(),
                    ord: 0,
                    ..old(pending)@
                })
                &&& *final(session) == (Session { snapshot: UNREAD, ..*old(session) })
            },
            XactEvent::Abort => if old(session).commit_seq != 0 {
                &&& r == Ok::<XactAction, Report>(XactAction::Discard(old(session).commit_seq))
                &&& final(pending)@ == old(pending)@
                &&& *final(session) == (Session { commit_seq: 0, ..*old(session) })
            } else {
                &&& r == Ok::<XactAction, Report>(XactAction::Nothing)
                &&& final(pending)@ == (PendingView {
                    stack: Seq::empty(),
                    emptied: Seq::empty(),
                    ord: 0,
                })
                &&& *final(session) == (Session { snapshot: UNREAD, ..*old(session) })
            },
            XactEvent::Prepare => {
                &&& final(pending)@ == old(pending)@
                &&& *final(session) == *old(session)
                &&& if wrote_nothing(old(pending)@) {
                    r == Ok::<XactAction, Report>(XactAction::Nothing)
                } else {
                    r is Err && r->Err_0@ == not_supported("PREPARE TRANSACTION"@)
                }
            },
        },
{
    match event {
        XactEvent::PreCommit => Ok(XactAction::PreCommit),
        XactEvent::Commit => {
            let seq: u64 = session.take_commit();
            if seq != 0 {
                return Ok(XactAction::Confirm(seq));
            }
            committed(pending, session);
            Ok(XactAction::Nothing)
        },
        XactEvent::Abort => {
            let seq: u64 = session.take_commit();
            if seq != 0 {
                return Ok(XactAction::Discard(seq));
            }
            aborted(pending, session);
            Ok(XactAction::Nothing)
        },
        XactEvent::Prepare => match check_prepare(pending) {
            Ok(_) => Ok(XactAction::Nothing),
            Err(e) => Err(e),
        },
    }
}

/// How often a commit object is tried before its commits fail.
pub const ATTEMPTS: u32 = 3;

/// What an attempt to put a commit object came to.
#[derive(Clone, Copy, Debug, PartialEq, Eq, Structural)]
pub enum Put {
    Written,
    AlreadyExists,
    Failed,
}

/// What follows an attempt to put a commit object.
#[derive(Clone, Copy, Debug, PartialEq, Eq, Structural)]
pub enum Next {
    /// Its commits are durable.
    Landed,
    /// Another writer has the number.
    Lost,
    /// It is tried again after so many milliseconds.
    Retry(u64),
    /// Its commits fail.
    GiveUp,
}

/// What follows attempt `attempt`, counted from 1.
pub fn after_put(attempt: u32, put: Put) -> (r: Next)
    ensures
        r == (match put {
            Put::Written => Next::Landed,
            Put::AlreadyExists => Next::Lost,
            Put::Failed => if attempt < ATTEMPTS {
                Next::Retry((100 * attempt) as u64)
            } else {
                Next::GiveUp
            },
        }),
{
    match put {
        Put::Written => Next::Landed,
        Put::AlreadyExists => Next::Lost,
        Put::Failed => if attempt < ATTEMPTS {
            Next::Retry(100 * attempt as u64)
        } else {
            Next::GiveUp
        },
    }
}

/// What a step of folding commits into a run came to.
#[derive(Clone, Copy, Debug, PartialEq, Eq, Structural)]
pub enum FoldEvent {
    /// A fold is due and was planned.
    Planned,
    /// None is due.
    NotDue,
    /// The run was built and put.
    Put,
    /// The run took the place of what it folds.
    Applied,
    /// What it folds was swept, or could not be: then a later sweep does it.
    Swept,
    /// A step failed: the commits that were to be folded are as durable as before.
    Failed,
}

/// The next step of folding.
#[derive(Clone, Copy, Debug, PartialEq, Eq, Structural)]
pub enum FoldStep {
    Plan,
    /// Build the run and put it, with no lock held.
    Build,
    Apply,
    Sweep,
    /// Wait for the next request.
    Rest,
}

/// Folding goes on while there is something to fold, and rests where a step fails.
pub fn after_fold(event: FoldEvent) -> (r: FoldStep)
    ensures
        r == (match event {
            FoldEvent::Planned => FoldStep::Build,
            FoldEvent::NotDue => FoldStep::Rest,
            FoldEvent::Put => FoldStep::Apply,
            FoldEvent::Applied => FoldStep::Sweep,
            FoldEvent::Swept => FoldStep::Plan,
            FoldEvent::Failed => FoldStep::Rest,
        }),
{
    match event {
        FoldEvent::Planned => FoldStep::Build,
        FoldEvent::NotDue => FoldStep::Rest,
        FoldEvent::Put => FoldStep::Apply,
        FoldEvent::Applied => FoldStep::Sweep,
        FoldEvent::Swept => FoldStep::Plan,
        FoldEvent::Failed => FoldStep::Rest,
    }
}

/// A session whose store was lost to another writer may neither read nor write.
pub fn check_owned(fenced: bool) -> (r: Result<(), Report>)
    ensures
        match r {
            Ok(_) => !fenced,
            Err(e) => fenced && e@ == internal(
                "objkv: this server has lost the bucket to another writer and must be restarted"@,
            ),
        },
{
    if fenced {
        Err(
            internal_error(
                "objkv: this server has lost the bucket to another writer and must be restarted".to_owned(),
            ),
        )
    } else {
        Ok(())
    }
}

/// Where the store is, and who asks it.
#[derive(Clone, Debug, PartialEq, Eq)]
pub struct StoreConfig {
    pub endpoint: String,
    pub bucket: String,
    pub region: String,
    pub key: String,
    pub secret: String,
    pub token: Option<String>,
}

pub open spec fn or_else(v: Option<String>, default: Seq<char>) -> Seq<char> {
    match v {
        Some(s) => s@,
        None => default,
    }
}

fn given_or(v: Option<String>, default: &str) -> (r: String)
    ensures
        r@ == or_else(v, default@),
{
    match v {
        Some(s) => s,
        None => default.to_owned(),
    }
}

/// The report of a server that has no object store.
pub open spec fn not_configured() -> ReportView {
    ReportView {
        message: "objkv storage is not configured"@,
        detail:
            "OBJKV_S3_ENDPOINT is unset. objkv tables live in an object store and nowhere else."@,
        hint: "Set OBJKV_S3_ENDPOINT (and OBJKV_S3_BUCKET, OBJKV_S3_KEY, OBJKV_S3_SECRET)."@,
        state: "F0000"@,
    }
}

/// The store that the environment names. There is no other: without an endpoint, none is.
pub fn choose_store(
    endpoint: Option<String>,
    bucket: Option<String>,
    region: Option<String>,
    key: Option<String>,
    secret: Option<String>,
    token: Option<String>,
) -> (r: Result<StoreConfig, Report>)
    ensures
        match r {
            Ok(c) => {
                &&& endpoint is Some && c.endpoint == endpoint->0
                &&& c.bucket@ == or_else(bucket, "objkv"@)
                &&& c.region@ == or_else(region, "us-east-1"@)
                &&& c.key@ == or_else(key, "minioadmin"@)
                &&& c.secret@ == or_else(secret, "minioadmin"@)
                &&& c.token == token
            },
            Err(e) => endpoint is None && e@ == not_configured(),
        },
{
    match endpoint {
        Some(endpoint) => Ok(
            StoreConfig {
                endpoint,
                bucket: given_or(bucket, "objkv"),
                region: given_or(region, "us-east-1"),
                key: given_or(key, "minioadmin"),
                secret: given_or(secret, "minioadmin"),
                token,
            },
        ),
        None => Err(
            report(
                "objkv storage is not configured".to_owned(),
                "OBJKV_S3_ENDPOINT is unset. objkv tables live in an object store and nowhere else.".to_owned(),
                "Set OBJKV_S3_ENDPOINT (and OBJKV_S3_BUCKET, OBJKV_S3_KEY, OBJKV_S3_SECRET).",
                "F0000",
            ),
        ),
    }
}

} // verus!
