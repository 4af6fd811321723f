//! The writes of a transaction before it commits: a stack of frames, one for each
//! subtransaction that wrote, in which commands see what earlier commands wrote.
use crate::commit::Op;
use crate::key_map::KeyMap;
use crate::order::{at_most, begins_with, below, is_below, starts_with};
use crate::row_key::{empty_marker_key, marker_of};
use crate::text::{hex_digits, put_hex};
use vstd::prelude::*;
use vstd::slice::slice_to_vec;

verus! {

/// The stamp of a write that every command sees, its own too. No command has this number.
pub const SEEN_BY_ALL: u32 = 0xffff_ffff;

/// Whether a command sees a write that command `cid` made: from the next command on.
pub open spec fn sees(cid: u32, curcid: u32) -> bool {
    cid == SEEN_BY_ALL || cid < curcid
}

/// Whether a command that reads at `curcid` sees a write stamped `cid`.
pub fn seen_by(cid: u32, curcid: u32) -> (r: bool)
    ensures
        r == sees(cid, curcid),
{
    cid == SEEN_BY_ALL || cid < curcid
}

/// A version of a key that a later write of the same transaction replaced.
pub struct Version {
    pub ord: u64,
    pub cid: u32,
    pub op: Op,
}

#[verifier::ext_equal]
pub struct VersionView {
    /// Where in the transaction the write happened.
    pub ord: u64,
    /// The command that made it.
    pub cid: u32,
    /// The value put, or nothing for a deletion.
    pub op: Option<Seq<u8>>,
}

impl View for Version {
    type V = VersionView;

    open spec fn view(&self) -> VersionView {
        VersionView { ord: self.ord, cid: self.cid, op: self.op@ }
    }
}

pub open spec fn versions_view(v: Seq<Version>) -> Seq<VersionView> {
    Seq::new(v.len(), |i: int| v[i]@)
}

/// A write to a key, with the versions of the key that it replaced, oldest first.
pub struct Staged {
    pub ord: u64,
    pub cid: u32,
    pub op: Op,
    pub earlier: Vec<Version>,
}

#[verifier::ext_equal]
pub struct StagedView {
    pub newest: VersionView,
    pub earlier: Seq<VersionView>,
}

impl View for Staged {
    type V = StagedView;

    open spec fn view(&self) -> StagedView {
        StagedView {
            newest: VersionView { ord: self.ord, cid: self.cid, op: self.op@ },
            earlier: versions_view(self.earlier@),
        }
    }
}

/// The last of some versions that a command sees.
pub open spec fn last_seen(v: Seq<VersionView>, curcid: u32) -> Option<VersionView>
    decreases v.len(),
{
    if v.len() == 0 {
        None
    } else if sees(v.last().cid, curcid) {
        Some(v.last())
    } else {
        last_seen(v.drop_last(), curcid)
    }
}

/// The last value that some versions put, deletions aside.
pub open spec fn last_put(v: Seq<VersionView>) -> Option<Seq<u8>>
    decreases v.len(),
{
    if v.len() == 0 {
        None
    } else {
        match v.last().op {
            Some(b) => Some(b),
            None => last_put(v.drop_last()),
        }
    }
}

impl StagedView {
    /// The newest value of all the versions, deletions aside.
    pub open spec fn value(self) -> Option<Seq<u8>> {
        match self.newest.op {
            Some(b) => Some(b),
            None => last_put(self.earlier),
        }
    }

    /// The version that a command which reads at `curcid` sees.
    pub open spec fn seen_at(self, curcid: u32) -> Option<VersionView> {
        if sees(self.newest.cid, curcid) {
            Some(self.newest)
        } else {
            last_seen(self.earlier, curcid)
        }
    }

    /// This write in place of `older`, which stays as what an earlier command sees. Two writes
    /// by one command are one version: the later.
    pub open spec fn over(self, older: StagedView) -> StagedView {
        StagedView {
            newest: self.newest,
            earlier: (if older.newest.cid != self.newest.cid {
                older.earlier.push(older.newest)
            } else {
                older.earlier
            }) + self.earlier,
        }
    }
}

/// A write as a command sees it.
pub struct Seen {
    pub ord: u64,
    pub op: Op,
}

/// Where a write happened, and what it was.
pub type SeenView = (u64, Option<Seq<u8>>);

impl View for Seen {
    type V = SeenView;

    open spec fn view(&self) -> SeenView {
        (self.ord, self.op@)
    }
}

pub open spec fn as_seen(v: Option<VersionView>) -> Option<SeenView> {
    match v {
        Some(x) => Some((x.ord, x.op)),
        None => None,
    }
}

impl Staged {
    /// The newest value of all the versions, deletions aside.
    pub fn value(&self) -> (r: Option<Vec<u8>>)
        ensures
            match r {
                Some(v) => self@.value() == Some(v@),
                None => self@.value() is None,
            },
    {
        match &self.op {
            Op::Put(v) => return Some(slice_to_vec(v.as_slice())),
            Op::Delete => {},
        }
        let ghost all = versions_view(self.earlier@);
        let mut n: usize = self.earlier.len();
        proof {
            assert(all.take(n as int) =~= all);
        }
        while n > 0
            invariant
                all == versions_view(self.earlier@),
                n <= self.earlier@.len(),
                last_put(all) == last_put(all.take(n as int)),
                self@.value() == last_put(all),
            decreases n,
        {
            proof {
                assert(all.take(n as int).last() == self.earlier@[n - 1]@);
                assert(all.take(n as int).drop_last() =~= all.take(n - 1));
            }
            match &self.earlier[n - 1].op {
                Op::Put(v) => return Some(slice_to_vec(v.as_slice())),
                Op::Delete => {},
            }
            n -= 1;
        }
        None
    }

    /// The version that a command which reads at `curcid` sees.
    pub fn seen_at(&self, curcid: u32) -> (r: Option<Seen>)
        ensures
            match r {
                Some(s) => as_seen(self@.seen_at(curcid)) == Some(s@),
                None => self@.seen_at(curcid) is None,
            },
    {
        if seen_by(self.cid, curcid) {
            return Some(Seen { ord: self.ord, op: self.op.copy() });
        }
        let ghost all = versions_view(self.earlier@);
        let mut n: usize = self.earlier.len();
        proof {
            assert(all.take(n as int) =~= all);
        }
        while n > 0
            invariant
                all == versions_view(self.earlier@),
                n <= self.earlier@.len(),
                last_seen(all, curcid) == last_seen(all.take(n as int), curcid),
                self@.seen_at(curcid) == last_seen(all, curcid),
            decreases n,
        {
            proof {
                assert(all.take(n as int).last() == self.earlier@[n - 1]@);
                assert(all.take(n as int).drop_last() =~= all.take(n - 1));
            }
            let v = &self.earlier[n - 1];
            if seen_by(v.cid, curcid) {
                return Some(Seen { ord: v.ord, op: v.op.copy() });
            }
            n -= 1;
        }
        None
    }

    /// This write in place of `older`.
    pub fn over(self, older: Staged) -> (r: Staged)
        ensures
            r@ == self@.over(older@),
    {
        let ghost want = self@.over(older@);
        let mut earlier = older.earlier;
        let ghost was = versions_view(earlier@);
        if older.cid != self.cid {
            earlier.push(Version { ord: older.ord, cid: older.cid, op: older.op });
            proof {
                assert(versions_view(earlier@) =~= was.push(older@.newest));
            }
        }
        let ghost mid = versions_view(earlier@);
        let ghost first = earlier@;
        let mut own = self.earlier;
        let ghost tail = own@;
        earlier.append(&mut own);
        proof {
            assert(earlier@ =~= first + tail);
            assert(versions_view(earlier@) =~= mid + versions_view(tail));
        }
        let r = Staged { ord: self.ord, cid: self.cid, op: self.op, earlier };
        proof {
            assert(r@ =~= want);
        }
        r
    }
}

/// The writes of one subtransaction.
pub struct Frame {
    pub subid: u32,
    pub writes: KeyMap<Staged>,
}

/// The writes of one subtransaction.
#[verifier::ext_equal]
pub struct FrameView {
    pub subid: u32,
    pub writes: Map<Seq<u8>, StagedView>,
}

impl View for Frame {
    type V = FrameView;

    open spec fn view(&self) -> FrameView {
        FrameView { subid: self.subid, writes: staged_view(self.writes@) }
    }
}

pub open spec fn staged_view(m: Map<Seq<u8>, Staged>) -> Map<Seq<u8>, StagedView> {
    Map::new(|k: Seq<u8>| m.dom().contains(k), |k: Seq<u8>| m[k]@)
}

pub open spec fn frames_view(f: Seq<Frame>) -> Seq<FrameView> {
    Seq::new(f.len(), |i: int| f[i]@)
}

/// What a command sees of a frame's writes to a key.
pub open spec fn frame_sees(f: FrameView, key: Seq<u8>, curcid: u32) -> Option<SeenView> {
    if f.writes.dom().contains(key) {
        as_seen(f.writes[key].seen_at(curcid))
    } else {
        None
    }
}

/// What a command sees of a transaction's writes to a key: the innermost frame that shows it
/// anything decides.
pub open spec fn stack_sees(stack: Seq<FrameView>, key: Seq<u8>, curcid: u32) -> Option<SeenView>
    decreases stack.len(),
{
    if stack.len() == 0 {
        None
    } else {
        match frame_sees(stack.last(), key, curcid) {
            Some(s) => Some(s),
            None => stack_sees(stack.drop_last(), key, curcid),
        }
    }
}

/// The newest value that a transaction put under a key, deletions aside.
pub open spec fn stack_value(stack: Seq<FrameView>, key: Seq<u8>) -> Option<Seq<u8>>
    decreases stack.len(),
{
    if stack.len() == 0 {
        None
    } else {
        let f = stack.last();
        if f.writes.dom().contains(key) && f.writes[key].value() is Some {
            f.writes[key].value()
        } else {
            stack_value(stack.drop_last(), key)
        }
    }
}

/// The command that made the newest write to a key.
pub open spec fn stack_stamp(stack: Seq<FrameView>, key: Seq<u8>) -> Option<u32>
    decreases stack.len(),
{
    if stack.len() == 0 {
        None
    } else if stack.last().writes.dom().contains(key) {
        Some(stack.last().writes[key].newest.cid)
    } else {
        stack_stamp(stack.drop_last(), key)
    }
}

/// A table that the transaction emptied, and how far its writes had got then.
pub struct Emptied {
    pub db: u32,
    pub oid: u32,
    pub since: u64,
}

/// The writes of a transaction.
pub struct Pending {
    pub stack: Vec<Frame>,
    pub emptied: Vec<Emptied>,
    /// How many writes there were.
    pub ord: u64,
}

#[verifier::ext_equal]
pub struct PendingView {
    pub stack: Seq<FrameView>,
    pub emptied: Seq<Emptied>,
    pub ord: u64,
}

impl View for Pending {
    type V = PendingView;

    open spec fn view(&self) -> PendingView {
        PendingView {
            stack: frames_view(self.stack@),
            emptied: self.emptied@,
            ord: self.ord,
        }
    }
}

/// A frame with one more write.
pub open spec fn with_write(f: FrameView, key: Seq<u8>, w: StagedView) -> FrameView {
    FrameView {
        writes: f.writes.insert(
            key,
            if f.writes.dom().contains(key) {
                w.over(f.writes[key])
            } else {
                w
            },
        ),
        ..f
    }
}

pub open spec fn empty_frame(subid: u32) -> FrameView {
    FrameView { subid, writes: Map::empty() }
}

/// The stack with a frame of `subid` on top.
pub open spec fn framed(stack: Seq<FrameView>, subid: u32) -> Seq<FrameView> {
    if stack.len() > 0 && stack.last().subid == subid {
        stack
    } else {
        stack.push(empty_frame(subid))
    }
}

/// A transaction with one more write, on behalf of a subtransaction.
pub open spec fn staged_in(
    p: PendingView,
    subid: u32,
    key: Seq<u8>,
    op: Option<Seq<u8>>,
    cid: u32,
) -> PendingView {
    let ord = (p.ord + 1) as u64;
    let w = StagedView { newest: VersionView { ord, cid, op }, earlier: Seq::empty() };
    let stack = framed(p.stack, subid);
    PendingView {
        stack: stack.update(stack.len() - 1, with_write(stack.last(), key, w)),
        ord,
        ..p
    }
}

fn put_write(writes: &mut KeyMap<Staged>, key: Vec<u8>, w: Staged)
    requires
        old(writes).wf(),
    ensures
        final(writes).wf(),
        staged_view(final(writes)@) == staged_view(old(writes)@).insert(
            key@,
            if old(writes)@.dom().contains(key@) {
                w@.over(old(writes)@[key@]@)
            } else {
                w@
            },
        ),
{
    let ghost before = writes@;
    let ghost k = key@;
    let w = match writes.take(key.as_slice()) {
        Some(older) => w.over(older),
        None => w,
    };
    let ghost wv = w@;
    writes.set(key, w);
    proof {
        assert(writes@ =~= before.insert(k, w));
        assert(staged_view(writes@) =~= staged_view(before).insert(k, wv));
    }
}

/// What the keys of a table's rows and index entries begin with.
pub open spec fn covered_by(db: u32, oid: u32) -> Seq<Seq<u8>> {
    let d = hex_digits(db as nat, 8);
    let o = hex_digits(oid as nat, 8);
    seq![
        d + seq![47u8] + o + seq![47u8],
        d + seq![47u8, 117u8, 47u8] + o + seq![47u8],
        d + seq![47u8, 105u8, 47u8] + o + seq![47u8],
    ]
}

/// An emptied table covers the write of `key` that happened at `ord`.
pub open spec fn covers(e: Emptied, key: Seq<u8>, ord: u64) -> bool {
    ord <= e.since && exists|i: int|
        0 <= i < 3 && begins_with(key, #[trigger] covered_by(e.db, e.oid)[i])
}

/// Some emptied table covers the write of `key` that happened at `ord`.
pub open spec fn is_covered(emptied: Seq<Emptied>, key: Seq<u8>, ord: u64) -> bool {
    exists|i: int| 0 <= i < emptied.len() && covers(#[trigger] emptied[i], key, ord)
}

/// What emptying a table covers: its rows, and the entries of any index on it.
pub fn covered_prefixes(db: u32, oid: u32) -> (r: (Vec<u8>, Vec<u8>, Vec<u8>))
    ensures
        r.0@ == covered_by(db, oid)[0],
        r.1@ == covered_by(db, oid)[1],
        r.2@ == covered_by(db, oid)[2],
{
    let mut a: Vec<u8> = Vec::new();
    put_hex(&mut a, db as u64, 8);
    a.push(47);
    put_hex(&mut a, oid as u64, 8);
    a.push(47);
    let mut b: Vec<u8> = Vec::new();
    put_hex(&mut b, db as u64, 8);
    b.push(47);
    b.push(117);
    b.push(47);
    put_hex(&mut b, oid as u64, 8);
    b.push(47);
    let mut c: Vec<u8> = Vec::new();
    put_hex(&mut c, db as u64, 8);
    c.push(47);
    c.push(105);
    c.push(47);
    put_hex(&mut c, oid as u64, 8);
    c.push(47);
    proof {
        let s = covered_by(db, oid);
        assert(a@ =~= s[0]);
        assert(b@ =~= s[1]);
        assert(c@ =~= s[2]);
    }
    (a, b, c)
}

fn check_covered(emptied: &Vec<Emptied>, key: &[u8], ord: u64) -> (r: bool)
    ensures
        r == is_covered(emptied@, key@, ord),
{
    let mut i: usize = 0;
    while i < emptied.len()
        invariant
            i <= emptied@.len(),
            forall|j: int| 0 <= j < i ==> !covers(#[trigger] emptied@[j], key@, ord),
        decreases emptied@.len() - i,
    {
        let e = &emptied[i];
        if ord <= e.since {
            let (a, b, c) = covered_prefixes(e.db, e.oid);
            let ghost s = covered_by(e.db, e.oid);
            if starts_with(key, a.as_slice()) || starts_with(key, b.as_slice()) || starts_with(
                key,
                c.as_slice(),
            ) {
                proof {
                    assert(begins_with(key@, s[0]) || begins_with(key@, s[1]) || begins_with(
                        key@,
                        s[2],
                    ));
                    assert(covers(emptied@[i as int], key@, ord));
                }
                return true;
            }
            proof {
                assert(!begins_with(key@, s[0]) && !begins_with(key@, s[1]) && !begins_with(
                    key@,
                    s[2],
                ));
            }
        }
        i += 1;
    }
    false
}

impl Pending {
    pub open spec fn wf(&self) -> bool {
        forall|i: int| 0 <= i < self.stack@.len() ==> (#[trigger] self.stack@[i]).writes.wf()
    }

    /// No writes.
    pub fn new() -> (r: Pending)
        ensures
            r.wf(),
            r@ == (PendingView { stack: Seq::empty(), emptied: Seq::empty(), ord: 0 }),
    {
        let r = Pending { stack: Vec::new(), emptied: Vec::new(), ord: 0 };
        proof {
            assert(frames_view(r.stack@) =~= Seq::empty());
        }
        r
    }

    /// Stages a write on behalf of subtransaction `subid`: in the top frame if it is that
    /// subtransaction's, in a new one on top otherwise.
    pub fn stage_in(&mut self, subid: u32, key: Vec<u8>, op: Op, cid: u32)
        requires
            old(self).wf(),
            old(self).ord < u64::MAX,
        ensures
            final(self).wf(),
            final(self)@ == staged_in(old(self)@, subid, key@, op@, cid),
    {
        let ghost before = self@;
        let ghost k = key@;
        let ghost o = op@;
        self.ord = self.ord + 1;
        let n: usize = self.stack.len();
        let same: bool = n > 0 && self.stack[n - 1].subid == subid;
        let mut writes: KeyMap<Staged> = KeyMap::new();
        if same {
            match self.stack.pop() {
                Some(f) => {
                    writes = f.writes;
                },
                None => {},
            }
        }
        let ghost top = FrameView { subid, writes: staged_view(writes@) };
        let ghost rest = frames_view(self.stack@);
        proof {
            let stack = framed(before.stack, subid);
            if same {
                assert(before.stack.last() =~= top);
                assert(rest =~= before.stack.drop_last());
            } else {
                assert(staged_view(writes@) =~= Map::empty());
                assert(top =~= empty_frame(subid));
                assert(rest =~= before.stack);
            }
            assert(stack =~= rest.push(top));
        }
        let w = Staged { ord: self.ord, cid, op, earlier: Vec::new() };
        let ghost wv = StagedView {
            newest: VersionView { ord: self.ord, cid, op: o },
            earlier: Seq::empty(),
        };
        proof {
            assert(w@ =~= wv);
        }
        put_write(&mut writes, key, w);
        let ghost done = FrameView { subid, writes: staged_view(writes@) };
        self.stack.push(Frame { subid, writes });
        proof {
            assert(done =~= with_write(top, k, wv));
            assert(frames_view(self.stack@) =~= rest.push(done));
            let stack = framed(before.stack, subid);
            assert(stack.update(stack.len() - 1, with_write(stack.last(), k, wv)) =~= rest.push(
                done,
            ));
            assert(self@ =~= staged_in(before, subid, k, o, cid));
        }
    }

    /// What a command that reads at `curcid` sees of the writes to `key`.
    pub fn staged_seen_by(&self, key: &[u8], curcid: u32) -> (r: Option<Seen>)
        requires
            self.wf(),
        ensures
            match r {
                Some(s) => stack_sees(self@.stack, key@, curcid) == Some(s@),
                None => stack_sees(self@.stack, key@, curcid) is None,
            },
    {
        let ghost all = self@.stack;
        let mut n: usize = self.stack.len();
        proof {
            assert(all.take(n as int) =~= all);
        }
        while n > 0
            invariant
                self.wf(),
                all == self@.stack,
                n <= self.stack@.len(),
                stack_sees(all, key@, curcid) == stack_sees(all.take(n as int), key@, curcid),
            decreases n,
        {
            proof {
                assert(all.take(n as int).last() == self.stack@[n - 1]@);
                assert(all.take(n as int).drop_last() =~= all.take(n - 1));
            }
            match self.stack[n - 1].writes.get(key) {
                Some(w) => match w.seen_at(curcid) {
                    Some(s) => return Some(s),
                    None => {},
                },
                None => {},
            }
            n -= 1;
        }
        None
    }

    /// What is staged for `key`, whichever command wrote it.
    pub fn staged_op(&self, key: &[u8]) -> (r: Option<Op>)
        requires
            self.wf(),
        ensures
            match (r, stack_sees(self@.stack, key@, SEEN_BY_ALL)) {
                (Some(op), Some((_, o))) => op@ == o,
                (None, None) => true,
                _ => false,
            },
    {
        match self.staged_seen_by(key, SEEN_BY_ALL) {
            Some(s) => Some(s.op),
            None => None,
        }
    }

    /// The newest value put under `key`, though it was deleted since.
    pub fn staged_value(&self, key: &[u8]) -> (r: Option<Vec<u8>>)
        requires
            self.wf(),
        ensures
            match r {
                Some(v) => stack_value(self@.stack, key@) == Some(v@),
                None => stack_value(self@.stack, key@) is None,
            },
    {
        let ghost all = self@.stack;
        let mut n: usize = self.stack.len();
        proof {
            assert(all.take(n as int) =~= all);
        }
        while n > 0
            invariant
                self.wf(),
                all == self@.stack,
                n <= self.stack@.len(),
                stack_value(all, key@) == stack_value(all.take(n as int), key@),
            decreases n,
        {
            proof {
                assert(all.take(n as int).last() == self.stack@[n - 1]@);
                assert(all.take(n as int).drop_last() =~= all.take(n - 1));
            }
            match self.stack[n - 1].writes.get(key) {
                Some(w) => match w.value() {
                    Some(v) => return Some(v),
                    None => {},
                },
                None => {},
            }
            n -= 1;
        }
        None
    }

    /// The command that made the newest write to `key`, if any.
    pub fn staged_stamp(&self, key: &[u8]) -> (r: Option<u32>)
        requires
            self.wf(),
        ensures
            r == stack_stamp(self@.stack, key@),
    {
        let ghost all = self@.stack;
        let mut n: usize = self.stack.len();
        proof {
            assert(all.take(n as int) =~= all);
        }
        while n > 0
            invariant
                self.wf(),
                all == self@.stack,
                n <= self.stack@.len(),
                stack_stamp(all, key@) == stack_stamp(all.take(n as int), key@),
            decreases n,
        {
            proof {
                assert(all.take(n as int).last() == self.stack@[n - 1]@);
                assert(all.take(n as int).drop_last() =~= all.take(n - 1));
            }
            match self.stack[n - 1].writes.get(key) {
                Some(w) => return Some(w.cid),
                None => {},
            }
            n -= 1;
        }
        None
    }

    /// Stages a rewrite of a row where it stands: every command sees it, or those do that see
    /// the version it rewrites, where this transaction staged that.
    pub fn stage_in_place(&mut self, subid: u32, key: Vec<u8>, op: Op)
        requires
            old(self).wf(),
            old(self).ord < u64::MAX,
        ensures
            final(self).wf(),
            final(self)@ == staged_in(
                old(self)@,
                subid,
                key@,
                op@,
                match stack_stamp(old(self)@.stack, key@) {
                    Some(c) => c,
                    None => SEEN_BY_ALL,
                },
            ),
    {
        let cid: u32 = match self.staged_stamp(key.as_slice()) {
            Some(c) => c,
            None => SEEN_BY_ALL,
        };
        self.stage_in(subid, key, op, cid);
    }
}

/// Stages a record that is no row: every command sees it.
pub fn stage_raw(pending: &mut Pending, subid: u32, key: Vec<u8>, value: Vec<u8>)
    requires
        old(pending).wf(),
        old(pending).ord < u64::MAX,
    ensures
        final(pending).wf(),
        final(pending)@ == staged_in(old(pending)@, subid, key@, Some(value@), SEEN_BY_ALL),
{
    pending.stage_in(subid, key, Op::Put(value), SEEN_BY_ALL);
}

/// `k` lies in the range from `lo` up to `hi`.
pub open spec fn within(k: Seq<u8>, lo: Seq<u8>, hi: Seq<u8>) -> bool {
    at_most(lo, k) && below(k, hi)
}

/// What a command sees of a transaction's writes in a range.
pub open spec fn range_seen(stack: Seq<FrameView>, lo: Seq<u8>, hi: Seq<u8>, curcid: u32) -> Map<
    Seq<u8>,
    SeenView,
> {
    Map::new(
        |k: Seq<u8>| within(k, lo, hi) && stack_sees(stack, k, curcid) is Some,
        |k: Seq<u8>| stack_sees(stack, k, curcid)->0,
    )
}

pub open spec fn seen_view(m: Map<Seq<u8>, Seen>) -> Map<Seq<u8>, SeenView> {
    Map::new(|k: Seq<u8>| m.dom().contains(k), |k: Seq<u8>| m[k]@)
}

/// A frame shows a command the key, which is one of `keys` and in range.
spec fn shown(
    f: FrameView,
    keys: Seq<Seq<u8>>,
    k: Seq<u8>,
    lo: Seq<u8>,
    hi: Seq<u8>,
    curcid: u32,
) -> bool {
    keys.contains(k) && within(k, lo, hi) && frame_sees(f, k, curcid) is Some
}

/// `base` with what a frame shows of `keys` laid over it.
spec fn laid(
    base: Map<Seq<u8>, SeenView>,
    f: FrameView,
    keys: Seq<Seq<u8>>,
    lo: Seq<u8>,
    hi: Seq<u8>,
    curcid: u32,
) -> Map<Seq<u8>, SeenView> {
    Map::new(
        |k: Seq<u8>| base.dom().contains(k) || shown(f, keys, k, lo, hi, curcid),
        |k: Seq<u8>|
            if shown(f, keys, k, lo, hi, curcid) {
                frame_sees(f, k, curcid)->0
            } else {
                base[k]
            },
    )
}

fn lay_frame(out: &mut KeyMap<Seen>, frame: &Frame, lo: &[u8], hi: &[u8], curcid: u32)
    requires
        old(out).wf(),
        frame.writes.wf(),
    ensures
        final(out).wf(),
        seen_view(final(out)@) == laid(
            seen_view(old(out)@),
            frame@,
            frame.writes.keys(),
            lo@,
            hi@,
            curcid,
        ),
{
    let ghost base = seen_view(out@);
    let ghost keys = frame.writes.keys();
    let ghost f = frame@;
    let (_found, p) = frame.writes.find(lo);
    let mut j: usize = p;
    proof {
        frame.writes.lemma_keys();
        assert(seen_view(out@) =~= laid(base, f, keys.take(j as int), lo@, hi@, curcid)) by {
            assert forall|k: Seq<u8>| !shown(f, keys.take(j as int), k, lo@, hi@, curcid) by {
                if keys.take(j as int).contains(k) {
                    let q = choose|q: int| 0 <= q < j && keys.take(j as int)[q] == k;
                    assert(keys[q] == k);
                    assert(below(k, lo@));
                }
            }
        }
    }
    while j < frame.writes.len() && is_below(frame.writes.key(j), hi)
        invariant
            out.wf(),
            frame.writes.wf(),
            keys == frame.writes.keys(),
            f == frame@,
            p <= j <= keys.len(),
            forall|i: int| p <= i < keys.len() ==> !below(#[trigger] keys[i], lo@),
            seen_view(out@) == laid(base, f, keys.take(j as int), lo@, hi@, curcid),
        decreases keys.len() - j,
    {
        let ghost was = out@;
        let ghost k0 = keys[j as int];
        let w = frame.writes.value(j);
        proof {
            assert(f.writes[k0] == w@);
            assert(within(k0, lo@, hi@));
            assert(keys.take(j + 1) =~= keys.take(j as int).push(k0));
        }
        match w.seen_at(curcid) {
            Some(s) => {
                let ghost sv = s@;
                out.set(slice_to_vec(frame.writes.key(j)), s);
                proof {
                    assert(seen_view(out@) =~= seen_view(was).insert(k0, sv));
                    lemma_laid_more(base, f, keys, j as int, lo@, hi@, curcid);
                }
            },
            None => {
                proof {
                    lemma_laid_more(base, f, keys, j as int, lo@, hi@, curcid);
                }
            },
        }
        j += 1;
    }
    proof {
        frame.writes.lemma_keys();
        let some = keys.take(j as int);
        assert forall|k: Seq<u8>|
            shown(f, keys, k, lo@, hi@, curcid) == shown(f, some, k, lo@, hi@, curcid) by {
            if shown(f, keys, k, lo@, hi@, curcid) {
                let q = choose|q: int| 0 <= q < keys.len() && keys[q] == k;
                if q >= j {
                    if q > j {
                        assert(below(keys[j as int], keys[q]));
                        crate::order::lemma_below_transitive(keys[j as int], k, hi@);
                    }
                    assert(false);
                }
                assert(some[q] == k);
            }
            if some.contains(k) {
                let q = choose|q: int| 0 <= q < some.len() && some[q] == k;
                assert(keys[q] == k);
            }
        }
        assert(laid(base, f, some, lo@, hi@, curcid) =~= laid(base, f, keys, lo@, hi@, curcid));
    }
}

proof fn lemma_laid_more(
    base: Map<Seq<u8>, SeenView>,
    f: FrameView,
    keys: Seq<Seq<u8>>,
    j: int,
    lo: Seq<u8>,
    hi: Seq<u8>,
    curcid: u32,
)
    requires
        0 <= j < keys.len(),
        within(keys[j], lo, hi),
    ensures
        ({
            let a = laid(base, f, keys.take(j), lo, hi, curcid);
            let b = laid(base, f, keys.take(j + 1), lo, hi, curcid);
            b == match frame_sees(f, keys[j], curcid) {
                Some(s) => a.insert(keys[j], s),
                None => a,
            }
        }),
{
    let x = keys[j];
    let some = keys.take(j);
    let more = keys.take(j + 1);
    assert(more =~= some.push(x));
    assert forall|k: Seq<u8>|
        shown(f, more, k, lo, hi, curcid) == (shown(f, some, k, lo, hi, curcid) || (k == x
            && frame_sees(f, x, curcid) is Some)) by {
        if some.contains(k) {
            let q = choose|q: int| 0 <= q < some.len() && some[q] == k;
            assert(more[q] == k);
        }
        if k == x {
            assert(more[j] == k);
        }
        if more.contains(k) && k != x {
            let q = choose|q: int| 0 <= q < more.len() && more[q] == k;
            assert(some[q] == k);
        }
    }
    let a = laid(base, f, some, lo, hi, curcid);
    let b = laid(base, f, more, lo, hi, curcid);
    match frame_sees(f, x, curcid) {
        Some(s) => {
            assert(b =~= a.insert(x, s));
        },
        None => {
            assert(b =~= a);
        },
    }
}

impl Pending {
    /// The writes in the range from `lo` up to `hi` as a command that reads at `curcid` sees
    /// them, one version for each key.
    pub fn staged_range(&self, lo: &[u8], hi: &[u8], curcid: u32) -> (r: KeyMap<Seen>)
        requires
            self.wf(),
        ensures
            r.wf(),
            seen_view(r@) == range_seen(self@.stack, lo@, hi@, curcid),
    {
        let ghost all = self@.stack;
        let mut out: KeyMap<Seen> = KeyMap::new();
        let mut i: usize = 0;
        proof {
            assert(all.take(0) =~= Seq::empty());
            assert(seen_view(out@) =~= range_seen(all.take(0), lo@, hi@, curcid));
        }
        while i < self.stack.len()
            invariant
                self.wf(),
                out.wf(),
                all == self@.stack,
                i <= self.stack@.len(),
                seen_view(out@) == range_seen(all.take(i as int), lo@, hi@, curcid),
            decreases self.stack@.len() - i,
        {
            let frame = &self.stack[i];
            lay_frame(&mut out, frame, lo, hi, curcid);
            proof {
                frame.writes.lemma_keys();
                let below_it = all.take(i as int);
                let with_it = all.take(i + 1);
                assert(with_it.drop_last() =~= below_it);
                assert(with_it.last() == frame@);
                let keys = frame.writes.keys();
                assert forall|k: Seq<u8>|
                    shown(frame@, keys, k, lo@, hi@, curcid) == (within(k, lo@, hi@)
                        && frame_sees(frame@, k, curcid) is Some) by {
                    if frame_sees(frame@, k, curcid) is Some {
                        assert(frame.writes@.dom().contains(k));
                    }
                }
                assert(seen_view(out@) =~= range_seen(with_it, lo@, hi@, curcid));
            }
            i += 1;
        }
        proof {
            assert(all.take(all.len() as int) =~= all);
        }
        out
    }

    /// How far the writes have got.
    pub fn stage_mark(&self) -> (r: u64)
        ensures
            r == self@.ord,
    {
        self.ord
    }

    /// Nothing was written.
    pub fn is_empty(&self) -> (r: bool)
        requires
            self.wf(),
        ensures
            r == forall|i: int|
                0 <= i < self@.stack.len() ==> (#[trigger] self@.stack[i]).writes.dom()
                    =~= Set::empty(),
    {
        let ghost all = self@.stack;
        let mut i: usize = 0;
        while i < self.stack.len()
            invariant
                self.wf(),
                all == self@.stack,
                i <= self.stack@.len(),
                forall|j: int| 0 <= j < i ==> (#[trigger] all[j]).writes.dom() =~= Set::empty(),
            decreases self.stack@.len() - i,
        {
            let frame = &self.stack[i];
            proof {
                frame.writes.lemma_keys();
                assert(all[i as int] == frame@);
            }
            if frame.writes.len() > 0 {
                proof {
                    let k = frame.writes.keys()[0];
                    assert(frame.writes.keys().contains(k));
                    assert(frame.writes@.dom().contains(k));
                    assert(all[i as int].writes.dom().contains(k));
                }
                return false;
            }
            proof {
                assert forall|k: Seq<u8>| !all[i as int].writes.dom().contains(k) by {
                    if frame.writes@.dom().contains(k) {
                        assert(frame.writes.keys().contains(k));
                    }
                }
            }
            i += 1;
        }
        true
    }
}

/// What rows are after a transaction's writes are laid over them: `since` is how far the writes
/// had got when the table was last emptied.
pub open spec fn overlaid(
    rows: Map<Seq<u8>, Seq<u8>>,
    seen: Map<Seq<u8>, SeenView>,
    since: u64,
) -> Map<Seq<u8>, Seq<u8>> {
    Map::new(
        |k: Seq<u8>|
            if seen.dom().contains(k) {
                seen[k].0 > since && seen[k].1 is Some
            } else {
                rows.dom().contains(k)
            },
        |k: Seq<u8>|
            if seen.dom().contains(k) {
                seen[k].1->0
            } else {
                rows[k]
            },
    )
}

pub open spec fn bytes_view(m: Map<Seq<u8>, Vec<u8>>) -> Map<Seq<u8>, Seq<u8>> {
    Map::new(|k: Seq<u8>| m.dom().contains(k), |k: Seq<u8>| m[k]@)
}

/// The part of what is seen whose keys are among `keys`.
spec fn part_seen(seen: Map<Seq<u8>, SeenView>, keys: Seq<Seq<u8>>) -> Map<Seq<u8>, SeenView> {
    Map::new(|k: Seq<u8>| seen.dom().contains(k) && keys.contains(k), |k: Seq<u8>| seen[k])
}

impl Pending {
    /// Lays the writes in the range from `lo` up to `hi` over `merged`, as a command that reads
    /// at `curcid` sees them.
    pub fn overlay_staged(
        &self,
        merged: &mut KeyMap<Vec<u8>>,
        lo: &[u8],
        hi: &[u8],
        since: u64,
        curcid: u32,
    )
        requires
            self.wf(),
            old(merged).wf(),
        ensures
            final(merged).wf(),
            bytes_view(final(merged)@) == overlaid(
                bytes_view(old(merged)@),
                range_seen(self@.stack, lo@, hi@, curcid),
                since,
            ),
    {
        let ghost rows = bytes_view(merged@);
        let seen = self.staged_range(lo, hi, curcid);
        let ghost all = seen_view(seen@);
        let ghost keys = seen.keys();
        let mut i: usize = 0;
        proof {
            seen.lemma_keys();
            assert(keys.take(0) =~= Seq::empty());
            assert(part_seen(all, keys.take(0)) =~= Map::empty());
            assert(bytes_view(merged@) =~= overlaid(rows, Map::empty(), since));
        }
        while i < seen.len()
            invariant
                seen.wf(),
                merged.wf(),
                all == seen_view(seen@),
                keys == seen.keys(),
                i <= keys.len(),
                forall|k: Seq<u8>| #[trigger] seen@.dom().contains(k) <==> keys.contains(k),
                bytes_view(merged@) == overlaid(rows, part_seen(all, keys.take(i as int)), since),
            decreases keys.len() - i,
        {
            let s = seen.value(i);
            let ghost k0 = keys[i as int];
            let ghost was = merged@;
            let ghost before = part_seen(all, keys.take(i as int));
            let ghost after = part_seen(all, keys.take(i + 1));
            proof {
                assert(keys.contains(k0));
                assert(all.dom().contains(k0) && all[k0] == s@);
                assert(keys.take(i + 1) =~= keys.take(i as int).push(k0));
                let a = keys.take(i as int);
                let b = keys.take(i + 1);
                assert forall|k: Seq<u8>|
                    #![trigger a.contains(k)]
                    #![trigger b.contains(k)]
                    b.contains(k) == (a.contains(k) || k == k0) by {
                    if a.contains(k) {
                        let q = choose|q: int| 0 <= q < a.len() && a[q] == k;
                        assert(b[q] == k);
                    }
                    if k == k0 {
                        assert(b[i as int] == k);
                    }
                    if b.contains(k) && k != k0 {
                        let q = choose|q: int| 0 <= q < b.len() && b[q] == k;
                        assert(a[q] == k);
                    }
                }
                assert forall|k: Seq<u8>|
                    #![trigger after.dom().contains(k)]
                    #![trigger before.insert(k0, s@).dom().contains(k)]
                    after.dom().contains(k) == before.insert(k0, s@).dom().contains(k) by {
                    assert(b.contains(k) == (a.contains(k) || k == k0));
                }
                assert(after.dom() =~= before.insert(k0, s@).dom());
                assert(after =~= before.insert(k0, s@));
            }
            let key = slice_to_vec(seen.key(i));
            if s.ord <= since {
                let _gone = merged.take(key.as_slice());
                proof {
                    assert(bytes_view(merged@) =~= bytes_view(was).remove(k0));
                    assert(overlaid(rows, after, since) =~= overlaid(rows, before, since).remove(
                        k0,
                    ));
                }
            } else {
                match &s.op {
                    Op::Put(v) => {
                        let copy = slice_to_vec(v.as_slice());
                        let ghost cv = copy@;
                        merged.set(key, copy);
                        proof {
                            assert(bytes_view(merged@) =~= bytes_view(was).insert(k0, cv));
                            assert(overlaid(rows, after, since) =~= overlaid(
                                rows,
                                before,
                                since,
                            ).insert(k0, cv));
                        }
                    },
                    Op::Delete => {
                        let _gone = merged.take(key.as_slice());
                        proof {
                            assert(bytes_view(merged@) =~= bytes_view(was).remove(k0));
                            assert(overlaid(rows, after, since) =~= overlaid(
                                rows,
                                before,
                                since,
                            ).remove(k0));
                        }
                    },
                }
            }
            i += 1;
        }
        proof {
            assert(keys.take(keys.len() as int) =~= keys);
            assert(part_seen(all, keys) =~= all);
        }
    }
}

/// The write to a key that commits: the innermost that no emptied table covers.
pub open spec fn flat_at(stack: Seq<FrameView>, emptied: Seq<Emptied>, key: Seq<u8>) -> Option<
    Option<Seq<u8>>,
>
    decreases stack.len(),
{
    if stack.len() == 0 {
        None
    } else if stack.last().writes.dom().contains(key) && !is_covered(
        emptied,
        key,
        stack.last().writes[key].newest.ord,
    ) {
        Some(stack.last().writes[key].newest.op)
    } else {
        flat_at(stack.drop_last(), emptied, key)
    }
}

/// The writes of a transaction as they commit.
pub open spec fn flattened(stack: Seq<FrameView>, emptied: Seq<Emptied>) -> Map<
    Seq<u8>,
    Option<Seq<u8>>,
> {
    Map::new(
        |k: Seq<u8>| flat_at(stack, emptied, k) is Some,
        |k: Seq<u8>| flat_at(stack, emptied, k)->0,
    )
}

pub open spec fn ops_view(m: Map<Seq<u8>, Op>) -> Map<Seq<u8>, Option<Seq<u8>>> {
    Map::new(|k: Seq<u8>| m.dom().contains(k), |k: Seq<u8>| m[k]@)
}

/// A frame has a write to the key, which is one of `keys`, that no emptied table covers.
spec fn counted(f: FrameView, emptied: Seq<Emptied>, keys: Seq<Seq<u8>>, k: Seq<u8>) -> bool {
    keys.contains(k) && f.writes.dom().contains(k) && !is_covered(
        emptied,
        k,
        f.writes[k].newest.ord,
    )
}

spec fn counted_over(
    base: Map<Seq<u8>, Option<Seq<u8>>>,
    f: FrameView,
    emptied: Seq<Emptied>,
    keys: Seq<Seq<u8>>,
) -> Map<Seq<u8>, Option<Seq<u8>>> {
    Map::new(
        |k: Seq<u8>| base.dom().contains(k) || counted(f, emptied, keys, k),
        |k: Seq<u8>|
            if counted(f, emptied, keys, k) {
                f.writes[k].newest.op
            } else {
                base[k]
            },
    )
}

fn count_frame(out: &mut KeyMap<Op>, frame: &Frame, emptied: &Vec<Emptied>)
    requires
        old(out).wf(),
        frame.writes.wf(),
    ensures
        final(out).wf(),
        ops_view(final(out)@) == counted_over(
            ops_view(old(out)@),
            frame@,
            emptied@,
            frame.writes.keys(),
        ),
{
    let ghost base = ops_view(out@);
    let ghost keys = frame.writes.keys();
    let ghost f = frame@;
    let mut j: usize = 0;
    proof {
        frame.writes.lemma_keys();
        assert(keys.take(0) =~= Seq::empty());
        assert(ops_view(out@) =~= counted_over(base, f, emptied@, keys.take(0)));
    }
    while j < frame.writes.len()
        invariant
            out.wf(),
            frame.writes.wf(),
            keys == frame.writes.keys(),
            f == frame@,
            j <= keys.len(),
            ops_view(out@) == counted_over(base, f, emptied@, keys.take(j as int)),
        decreases keys.len() - j,
    {
        let ghost was = out@;
        let ghost k0 = keys[j as int];
        let w = frame.writes.value(j);
        let ghost a = keys.take(j as int);
        let ghost b = keys.take(j + 1);
        proof {
            assert(f.writes.dom().contains(k0) && f.writes[k0] == w@);
            assert(b =~= a.push(k0));
            assert forall|k: Seq<u8>|
                #![trigger counted(f, emptied@, b, k)]
                counted(f, emptied@, b, k) == (counted(f, emptied@, a, k) || (k == k0 && counted(
                    f,
                    emptied@,
                    b,
                    k0,
                ))) by {
                if a.contains(k) {
                    let q = choose|q: int| 0 <= q < a.len() && a[q] == k;
                    assert(b[q] == k);
                }
                if b.contains(k) && k != k0 {
                    let q = choose|q: int| 0 <= q < b.len() && b[q] == k;
                    assert(a[q] == k);
                }
            }
            assert(b[j as int] == k0);
        }
        if !check_covered(emptied, frame.writes.key(j), w.ord) {
            out.set(slice_to_vec(frame.writes.key(j)), w.op.copy());
            proof {
                assert(counted(f, emptied@, b, k0));
                assert(ops_view(out@) =~= ops_view(was).insert(k0, w@.newest.op));
                assert(counted_over(base, f, emptied@, b) =~= counted_over(
                    base,
                    f,
                    emptied@,
                    a,
                ).insert(k0, w@.newest.op));
            }
        } else {
            proof {
                assert(!counted(f, emptied@, b, k0));
                assert(counted_over(base, f, emptied@, b) =~= counted_over(base, f, emptied@, a));
            }
        }
        j += 1;
    }
    proof {
        assert(keys.take(keys.len() as int) =~= keys);
    }
}

/// A frame of a subtransaction that was released, in its parent's frame.
pub open spec fn merged(parent: FrameView, f: FrameView) -> FrameView {
    FrameView {
        subid: parent.subid,
        writes: Map::new(
            |k: Seq<u8>| parent.writes.dom().contains(k) || f.writes.dom().contains(k),
            |k: Seq<u8>|
                if !f.writes.dom().contains(k) {
                    parent.writes[k]
                } else if parent.writes.dom().contains(k) {
                    f.writes[k].over(parent.writes[k])
                } else {
                    f.writes[k]
                },
        ),
    }
}

/// The stack after subtransaction `my` was released into `parent`: its writes go to the
/// parent's own frame and no other, which is made where there is none.
pub open spec fn released(stack: Seq<FrameView>, my: u32, parent: u32) -> Seq<FrameView> {
    if stack.len() > 0 && stack.last().subid == my {
        let f = stack.last();
        let rest = stack.drop_last();
        if rest.len() > 0 && rest.last().subid == parent {
            rest.update(rest.len() - 1, merged(rest.last(), f))
        } else {
            rest.push(FrameView { subid: parent, ..f })
        }
    } else {
        stack
    }
}

/// The stack after subtransaction `my` was rolled back, and those inside it.
pub open spec fn rolled_back(stack: Seq<FrameView>, my: u32) -> Seq<FrameView>
    decreases stack.len(),
{
    if stack.len() > 0 && stack.last().subid >= my {
        rolled_back(stack.drop_last(), my)
    } else {
        stack
    }
}

/// Some frame has a write to the key.
pub open spec fn has_write(stack: Seq<FrameView>, key: Seq<u8>) -> bool {
    exists|i: int| 0 <= i < stack.len() && (#[trigger] stack[i]).writes.dom().contains(key)
}

/// The emptied tables whose markers are still among the writes.
pub open spec fn still_emptied(emptied: Seq<Emptied>, stack: Seq<FrameView>) -> Seq<Emptied>
    decreases emptied.len(),
{
    if emptied.len() == 0 {
        emptied
    } else {
        let head = still_emptied(emptied.drop_last(), stack);
        if has_write(stack, marker_of(emptied.last().db, emptied.last().oid)) {
            head.push(emptied.last())
        } else {
            head
        }
    }
}

/// How far the writes had got when a table was last emptied; zero where it was not.
pub open spec fn mark_of(emptied: Seq<Emptied>, db: u32, oid: u32) -> u64
    decreases emptied.len(),
{
    if emptied.len() == 0 {
        0
    } else if emptied.last().db == db && emptied.last().oid == oid {
        emptied.last().since
    } else {
        mark_of(emptied.drop_last(), db, oid)
    }
}

fn merge_frame(parent: &mut KeyMap<Staged>, writes: KeyMap<Staged>)
    requires
        old(parent).wf(),
        writes.wf(),
    ensures
        final(parent).wf(),
        forall|s: u32| #![auto]
            staged_view(final(parent)@) == merged(
                (FrameView { subid: s, writes: staged_view(old(parent)@) }),
                (FrameView { subid: s, writes: staged_view(writes@) }),
            ).writes,
{
    let ghost first = staged_view(parent@);
    let ghost all = staged_view(writes@);
    let mut rest = writes;
    let ghost mut left = rest@;
    proof {
        assert(staged_view(left) =~= all);
        assert(staged_view(parent@) =~= merge_done(first, all, left.dom()));
    }
    while rest.len() > 0
        invariant
            rest.wf(),
            parent.wf(),
            left == rest@,
            left.dom().subset_of(all.dom()),
            forall|k: Seq<u8>| #[trigger] left.dom().contains(k) ==> left[k]@ == all[k],
            staged_view(parent@) == merge_done(first, all, left.dom()),
        decreases rest.keys().len(),
    {
        let ghost before = parent@;
        proof {
            rest.lemma_keys();
            assert(left.dom().contains(rest.keys()[0]));
        }
        match rest.pop() {
            Some((k, w)) => {
                let ghost kv = k@;
                let ghost wv = w@;
                proof {
                    assert(left[kv]@ == all[kv]);
                }
                put_write(parent, k, w);
                proof {
                    let now = left.remove(kv);
                    assert(merge_done(first, all, now.dom()) =~= merge_done(
                        first,
                        all,
                        left.dom(),
                    ).insert(
                        kv,
                        if first.dom().contains(kv) {
                            wv.over(first[kv])
                        } else {
                            wv
                        },
                    ));
                    assert(before.dom().contains(kv) == first.dom().contains(kv)) by {
                        assert(staged_view(before).dom().contains(kv) == before.dom().contains(kv));
                    }
                    if first.dom().contains(kv) {
                        assert(staged_view(before)[kv] == first[kv]);
                    }
                    left = now;
                }
            },
            None => {},
        }
    }
    proof {
        rest.lemma_keys();
        assert(left.dom() =~= Set::empty()) by {
            assert forall|k: Seq<u8>| !left.dom().contains(k) by {
                if left.dom().contains(k) {
                    assert(rest.keys().contains(k));
                }
            }
        }
        assert forall|s: u32| #![auto]
            staged_view(parent@) == merged(
                (FrameView { subid: s, writes: first }),
                (FrameView { subid: s, writes: all }),
            ).writes by {
            assert(merge_done(first, all, left.dom()) =~= merged(
                (FrameView { subid: s, writes: first }),
                (FrameView { subid: s, writes: all }),
            ).writes);
        }
    }
}

/// The parent's writes with those of a frame merged into them, but for the keys in `left`.
spec fn merge_done(
    first: Map<Seq<u8>, StagedView>,
    all: Map<Seq<u8>, StagedView>,
    left: Set<Seq<u8>>,
) -> Map<Seq<u8>, StagedView> {
    Map::new(
        |k: Seq<u8>| first.dom().contains(k) || (all.dom().contains(k) && !left.contains(k)),
        |k: Seq<u8>|
            if !all.dom().contains(k) || left.contains(k) {
                first[k]
            } else if first.dom().contains(k) {
                all[k].over(first[k])
            } else {
                all[k]
            },
    )
}

impl Pending {
    /// The writes as they commit. What an emptied table covers is dropped only here: until now
    /// a savepoint could have brought it back. Nothing is pending any more.
    pub fn flatten_pending(&mut self) -> (r: KeyMap<Op>)
        requires
            old(self).wf(),
        ensures
            final(self).wf(),
            r.wf(),
            ops_view(r@) == flattened(old(self)@.stack, old(self)@.emptied),
            final(self)@ == (PendingView { stack: Seq::empty(), ..old(self)@ }),
    {
        let ghost all = self@.stack;
        let mut out: KeyMap<Op> = KeyMap::new();
        let mut i: usize = 0;
        proof {
            assert(all.take(0) =~= Seq::empty());
            assert(ops_view(out@) =~= flattened(all.take(0), self@.emptied));
        }
        while i < self.stack.len()
            invariant
                self.wf(),
                out.wf(),
                *self == *old(self),
                all == self@.stack,
                i <= self.stack@.len(),
                ops_view(out@) == flattened(all.take(i as int), self@.emptied),
            decreases self.stack@.len() - i,
        {
            let frame = &self.stack[i];
            count_frame(&mut out, frame, &self.emptied);
            proof {
                frame.writes.lemma_keys();
                let below_it = all.take(i as int);
                let with_it = all.take(i + 1);
                assert(with_it.drop_last() =~= below_it);
                assert(with_it.last() == frame@);
                let keys = frame.writes.keys();
                assert forall|k: Seq<u8>| #[trigger]
                    counted(frame@, self@.emptied, keys, k) == (frame@.writes.dom().contains(k)
                        && !is_covered(self@.emptied, k, frame@.writes[k].newest.ord)) by {
                    if frame@.writes.dom().contains(k) {
                        assert(frame.writes@.dom().contains(k));
                    }
                }
                assert(ops_view(out@) =~= flattened(with_it, self@.emptied));
            }
            i += 1;
        }
        proof {
            assert(all.take(all.len() as int) =~= all);
        }
        self.stack = Vec::new();
        proof {
            assert(frames_view(self.stack@) =~= Seq::empty());
        }
        out
    }

    /// Subtransaction `my` was released into `parent`.
    pub fn commit_sub(&mut self, my: u32, parent: u32)
        requires
            old(self).wf(),
        ensures
            final(self).wf(),
            final(self)@ == (PendingView {
                stack: released(old(self)@.stack, my, parent),
                ..old(self)@
            }),
    {
        let ghost before = self@;
        let n: usize = self.stack.len();
        if n == 0 || self.stack[n - 1].subid != my {
            return;
        }
        let ghost fv = before.stack.last();
        match self.stack.pop() {
            Some(f) => {
                proof {
                    assert(f@ == fv);
                    assert(frames_view(self.stack@) =~= before.stack.drop_last());
                }
                let m: usize = self.stack.len();
                if m > 0 && self.stack[m - 1].subid == parent {
                    match self.stack.pop() {
                        Some(p) => {
                            let ghost pv = p@;
                            let mut writes = p.writes;
                            merge_frame(&mut writes, f.writes);
                            let ghost done = FrameView {
                                subid: parent,
                                writes: staged_view(writes@),
                            };
                            self.stack.push(Frame { subid: parent, writes });
                            proof {
                                let rest = before.stack.drop_last();
                                assert(rest.last() == pv);
                                let a = FrameView { subid: parent, writes: pv.writes };
                                let b = FrameView { subid: parent, writes: fv.writes };
                                assert(staged_view(writes@) == merged(a, b).writes);
                                assert(done =~= merged(pv, fv));
                                assert(frames_view(self.stack@) =~= rest.update(
                                    rest.len() - 1,
                                    merged(pv, fv),
                                ));
                            }
                        },
                        None => {},
                    }
                } else {
                    self.stack.push(Frame { subid: parent, writes: f.writes });
                    proof {
                        assert(frames_view(self.stack@) =~= before.stack.drop_last().push(
                            (FrameView { subid: parent, ..fv }),
                        ));
                    }
                }
            },
            None => {},
        }
    }

    /// Some frame has a write to `key`.
    fn has(&self, key: &[u8]) -> (r: bool)
        requires
            self.wf(),
        ensures
            r == has_write(self@.stack, key@),
    {
        let ghost all = self@.stack;
        let mut i: usize = 0;
        while i < self.stack.len()
            invariant
                self.wf(),
                all == self@.stack,
                i <= self.stack@.len(),
                forall|j: int| 0 <= j < i ==> !(#[trigger] all[j]).writes.dom().contains(key@),
            decreases self.stack@.len() - i,
        {
            proof {
                assert(all[i as int] == self.stack@[i as int]@);
            }
            if self.stack[i].writes.get(key).is_some() {
                proof {
                    assert(all[i as int].writes.dom().contains(key@));
                }
                return true;
            }
            i += 1;
        }
        false
    }

    /// Subtransaction `my` was rolled back. Tables that it emptied are not empty any more.
    pub fn abort_sub(&mut self, my: u32)
        requires
            old(self).wf(),
        ensures
            final(self).wf(),
            final(self)@ == ({
                let stack = rolled_back(old(self)@.stack, my);
                PendingView {
                    stack,
                    emptied: still_emptied(old(self)@.emptied, stack),
                    ..old(self)@
                }
            }),
    {
        let ghost before = self@;
        while self.stack.len() > 0 && self.stack[self.stack.len() - 1].subid >= my
            invariant
                self.wf(),
                rolled_back(self@.stack, my) == rolled_back(before.stack, my),
                self@.emptied == before.emptied,
                self@.ord == before.ord,
            decreases self.stack@.len(),
        {
            let ghost was = self@.stack;
            let _gone = self.stack.pop();
            proof {
                assert(self@.stack =~= was.drop_last());
            }
        }
        let mut kept: Vec<Emptied> = Vec::new();
        let mut i: usize = 0;
        proof {
            assert(self@.emptied.take(0) =~= Seq::empty());
            assert(kept@ =~= Seq::empty());
        }
        while i < self.emptied.len()
            invariant
                self.wf(),
                i <= self.emptied@.len(),
                kept@ == still_emptied(self@.emptied.take(i as int), self@.stack),
            decreases self.emptied@.len() - i,
        {
            let e = &self.emptied[i];
            proof {
                assert(self@.emptied.take(i + 1).drop_last() =~= self@.emptied.take(i as int));
                assert(self@.emptied.take(i + 1).last() == *e);
            }
            if self.has(empty_marker_key(e.db, e.oid).as_slice()) {
                let ghost was = kept@;
                kept.push(Emptied { db: e.db, oid: e.oid, since: e.since });
                proof {
                    assert(kept@ =~= was.push(*e));
                }
            }
            i += 1;
        }
        proof {
            assert(self@.emptied.take(self@.emptied.len() as int) =~= self@.emptied);
        }
        self.emptied = kept;
    }

    /// Empties a table as of now: one small record, not a deletion for each row.
    pub fn empty_relation(&mut self, subid: u32, db: u32, oid: u32, cid: u32)
        requires
            old(self).wf(),
            old(self).ord < u64::MAX,
        ensures
            final(self).wf(),
            final(self)@ == ({
                let s = staged_in(old(self)@, subid, marker_of(db, oid), Some(Seq::empty()), cid);
                PendingView { emptied: s.emptied.push(Emptied { db, oid, since: s.ord }), ..s }
            }),
    {
        let none: Vec<u8> = Vec::new();
        proof {
            assert(none@ =~= Seq::empty());
        }
        self.stage_in(subid, empty_marker_key(db, oid), Op::Put(none), cid);
        let ghost was = self.emptied@;
        self.emptied.push(Emptied { db, oid, since: self.ord });
        proof {
            assert(self.emptied@ =~= was.push(Emptied { db, oid, since: self.ord }));
        }
    }

    /// The transaction is over: no writes, and nothing is emptied.
    pub fn discard(&mut self)
        ensures
            final(self).wf(),
            final(self)@ == (PendingView { stack: Seq::empty(), ..old(self)@ }),
    {
        self.stack = Vec::new();
        proof {
            assert(frames_view(self.stack@) =~= Seq::empty());
        }
    }

    /// Forgets which tables were emptied, and counts from the beginning.
    pub fn forget_emptied(&mut self)
        requires
            old(self).wf(),
        ensures
            final(self).wf(),
            final(self)@ == (PendingView { emptied: Seq::empty(), ord: 0, ..old(self)@ }),
    {
        self.emptied = Vec::new();
        self.ord = 0;
        proof {
            assert(self.emptied@ =~= Seq::empty());
        }
    }
}

/// How far the writes had got when the transaction emptied a table; zero where it did not.
pub fn staged_empty_mark_for(pending: &Pending, db: u32, oid: u32) -> (r: u64)
    ensures
        r == mark_of(pending@.emptied, db, oid),
{
    let ghost all = pending@.emptied;
    let mut n: usize = pending.emptied.len();
    proof {
        assert(all.take(n as int) =~= all);
    }
    while n > 0
        invariant
            all == pending@.emptied,
            n <= pending.emptied@.len(),
            mark_of(all, db, oid) == mark_of(all.take(n as int), db, oid),
        decreases n,
    {
        proof {
            assert(all.take(n as int).last() == pending.emptied@[n - 1]);
            assert(all.take(n as int).drop_last() =~= all.take(n - 1));
        }
        let e = &pending.emptied[n - 1];
        if e.db == db && e.oid == oid {
            return e.since;
        }
        n -= 1;
    }
    0
}

} // verus!
