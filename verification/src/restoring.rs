//! Restoring a log from its archive, step by step: which object is wanted next, and what follows
//! from it once it was read. The objects themselves are read outside.
use crate::archive::{
    check_history, history_fault, num, num_of, text, text_of, MAX_TIMELINES,
};
use crate::decode::{last_record, records_read, Reading};
use crate::json::{field, list_view, same_field, Json, JsonView};
use crate::memory_wal::{contents, SegKey, Segment, WalView};
use crate::rebuild::{
    check_boundary, check_chunk, check_window, chunk_start, poured, segment_byte, span, window,
    Rebuilt,
};
use crate::refusal::{refuse, seen, Refusal};
use crate::restore::{chain_end_fault, chain_request, chain_step, Chain, ChainView};
use vstd::prelude::*;

verus! {

/// How far a restore has come.
#[derive(Clone, Copy, Debug, PartialEq, Eq, Structural)]
pub enum Phase {
    /// The history files of the timelines are checked.
    Histories,
    /// The descriptors are walked back to the beginning.
    Chain,
    /// A timeline begins with what its parent has of a segment.
    Fork,
    /// The chunks of a timeline are put in place.
    Chunks,
    /// The last record of a timeline is compared with its head.
    Check,
    Done,
}

/// What a restore wants next.
pub enum Need {
    /// Nothing: it goes on by itself.
    Nothing,
    /// The history file at this address.
    History(String),
    /// The descriptor at this address.
    Descriptor(String),
    /// The chunk at this address.
    Chunk(String),
    /// The records of this log, which begins at `base`, looked for from `first` on.
    Records { bytes: Vec<u8>, base: u64, first: u64, timeline: u32 },
    /// Nothing any more.
    Done,
}

pub enum NeedView {
    Nothing,
    History(Seq<char>),
    Descriptor(Seq<char>),
    Chunk(Seq<char>),
    Records { bytes: Seq<u8>, base: u64, first: u64, timeline: u32 },
    Done,
}

impl View for Need {
    type V = NeedView;

    open spec fn view(&self) -> NeedView {
        match self {
            Need::Nothing => NeedView::Nothing,
            Need::History(k) => NeedView::History(k@),
            Need::Descriptor(k) => NeedView::Descriptor(k@),
            Need::Chunk(k) => NeedView::Chunk(k@),
            Need::Records { bytes, base, first, timeline } => NeedView::Records {
                bytes: bytes@,
                base: *base,
                first: *first,
                timeline: *timeline,
            },
            Need::Done => NeedView::Done,
        }
    }
}

/// All the log of timeline `t` between two positions is held.
pub open spec fn all_held(
    m: Map<SegKey, Seq<u8>>,
    size: nat,
    t: u32,
    start: u64,
    end: u64,
) -> bool {
    forall|p: nat| start <= p < end ==> (#[trigger] segment_byte(m, size, t, p)) is Some
}

/// The log of timeline `t` between two positions, where it is held.
pub open spec fn span_of(
    m: Map<SegKey, Seq<u8>>,
    size: nat,
    t: u32,
    start: u64,
    end: u64,
    limit: nat,
) -> Result<Seq<u8>, Seq<char>> {
    if end < start || end - start > limit {
        Err("WAL read capacity exceeded"@)
    } else if !all_held(m, size, t, start, end) {
        Err("missing WAL segment"@)
    } else {
        Ok(
            Seq::new(
                (end - start) as nat,
                |i: int| segment_byte(m, size, t, (start + i) as nat)->0,
            ),
        )
    }
}

fn read_span(
    s: &Vec<Segment>,
    t: u32,
    start: u64,
    end: u64,
    size: usize,
    limit: usize,
) -> (r: Result<Vec<u8>, Refusal>)
    requires
        size > 0,
        crate::memory_wal::in_order(s@),
        forall|i: int| 0 <= i < s@.len() ==> (#[trigger] s@[i]).bytes@.len() == size,
    ensures
        match r {
            Ok(b) => span_of(contents(s@), size as nat, t, start, end, limit as nat) == Ok::<
                Seq<u8>,
                Seq<char>,
            >(b@),
            Err(e) => span_of(contents(s@), size as nat, t, start, end, limit as nat) == Err::<
                Seq<u8>,
                Seq<char>,
            >(e@),
        },
{
    let r = span(s, t, start, end, size, limit);
    proof {
        let m = contents(s@);
        if r is Ok {
            let out = r->Ok_0@;
            assert forall|p: nat| start <= p < end implies (#[trigger] segment_byte(
                m,
                size as nat,
                t,
                p,
            )) is Some by {
                let i = p - start;
                assert(segment_byte(m, size as nat, t, (start + i) as nat) == Some(out[i]));
            }
            assert(out =~= span_of(m, size as nat, t, start, end, limit as nat)->Ok_0);
        }
    }
    r
}

/// A restore on its way.
#[verifier::ext_equal]
pub struct RestoringView {
    /// The heads of the history, newest first.
    pub nodes: Seq<JsonView>,
    /// The backup.
    pub info: JsonView,
    /// The history file of the oldest timeline.
    pub root: Seq<u8>,
    pub limit: nat,
    pub phase: Phase,
    /// The history files that were checked, by timeline.
    pub histories: Seq<(u32, Seq<u8>)>,
    pub walk: ChainView,
    pub log: WalView,
    /// The head whose timeline is put together.
    pub node: nat,
    /// How many of the descriptors are still to be looked through for it.
    pub left: nat,
}

/// The head that the timeline at hand was forked off.
pub open spec fn parent_at(v: RestoringView) -> Option<JsonView> {
    if v.node + 1 < v.nodes.len() {
        Some(v.nodes[v.node as int + 1])
    } else {
        None
    }
}

/// The timeline at hand is put together: the next newer one follows, or there is none.
pub open spec fn node_done(v: RestoringView) -> RestoringView {
    if v.node == 0 {
        RestoringView { phase: Phase::Done, ..v }
    } else {
        RestoringView { phase: Phase::Fork, node: (v.node - 1) as nat, ..v }
    }
}

/// What timeline `t` begins with at `fork`, where it was forked off timeline `pt`.
pub open spec fn fork_log(w: WalView, pt: u32, fork: u64, t: u32) -> Result<WalView, Seq<char>> {
    let p = w.key_at(pt, fork);
    let k = w.key_at(t, fork);
    let off = fork as nat % w.segment_bytes;
    if off == 0 {
        Ok(w)
    } else if !w.segments.dom().contains(p) {
        Err("missing parent segment"@)
    } else if !w.segments.dom().contains(k) && w.full() {
        Err("memory WAL recovery capacity exhausted"@)
    } else {
        Ok(w.touched(k).patched(k, 0, w.segments[p].take(off as int)))
    }
}

/// A timeline begins: with what its parent has of the segment that it was forked in.
pub open spec fn forked_off(v: RestoringView) -> Result<RestoringView, Seq<char>> {
    match num_of(v.nodes[v.node as int], "timeline"@) {
        Err(e) => Err(e),
        Ok(t) => {
            let begun = RestoringView { phase: Phase::Chunks, left: v.walk.chain.len(), ..v };
            match parent_at(v) {
                None => Ok(begun),
                Some(p) => match num_of(p, "end"@) {
                    Err(e) => Err(e),
                    Ok(fork) => match num_of(p, "timeline"@) {
                        Err(e) => Err(e),
                        Ok(pt) => match fork_log(v.log, pt as u32, fork, t as u32) {
                            Err(e) => Err(e),
                            Ok(log) => Ok(RestoringView { log, ..begun }),
                        },
                    },
                },
            }
        },
    }
}

/// The next move of a restore, and what it wants then.
pub open spec fn advanced(v: RestoringView) -> Result<(RestoringView, NeedView), Seq<char>> {
    match v.phase {
        Phase::Histories => if v.histories.len() + 1 < v.nodes.len() {
            match text_of(v.nodes[v.histories.len() as int].at("transition"@), "history"@) {
                Err(e) => Err(e),
                Ok(k) => Ok((v, NeedView::History(k))),
            }
        } else {
            Ok((RestoringView { phase: Phase::Chain, ..v }, NeedView::Nothing))
        },
        Phase::Chain => match chain_request(v.nodes, v.walk) {
            Err(e) => Err(e),
            Ok(Some((owner, k))) => Ok(
                (
                    RestoringView { walk: ChainView { owner, ..v.walk }, ..v },
                    NeedView::Descriptor(k),
                ),
            ),
            Ok(None) => match chain_end_fault(v.nodes, v.walk) {
                Some(e) => Err(e),
                None => Ok(
                    (
                        RestoringView {
                            phase: Phase::Fork,
                            node: (v.nodes.len() - 1) as nat,
                            ..v
                        },
                        NeedView::Nothing,
                    ),
                ),
            },
        },
        Phase::Fork => match forked_off(v) {
            Err(e) => Err(e),
            Ok(w) => Ok((w, NeedView::Nothing)),
        },
        Phase::Chunks => if v.left == 0 {
            Ok((RestoringView { phase: Phase::Check, ..v }, NeedView::Nothing))
        } else {
            let d = v.walk.chain[v.left - 1];
            if d.at("timeline"@) != v.nodes[v.node as int].at("timeline"@) {
                Ok((RestoringView { left: (v.left - 1) as nat, ..v }, NeedView::Nothing))
            } else {
                match text_of(d, "chunk"@) {
                    Err(e) => Err(e),
                    Ok(k) => Ok((v, NeedView::Chunk(k))),
                }
            }
        },
        Phase::Check => match check_window(
            v.nodes[0],
            v.nodes[v.node as int],
            parent_at(v),
            v.log.segment_bytes,
        ) {
            Err(e) => Err(e),
            Ok(None) => Ok((node_done(v), NeedView::Nothing)),
            Ok(Some((base, end, first))) => match num_of(
                v.nodes[v.node as int],
                "timeline"@,
            ) {
                Err(e) => Err(e),
                Ok(t) => match span_of(
                    v.log.segments,
                    v.log.segment_bytes,
                    t as u32,
                    base,
                    end,
                    v.limit,
                ) {
                    Err(e) => Err(e),
                    Ok(bytes) => Ok(
                        (v, NeedView::Records { bytes, base, first, timeline: t as u32 }),
                    ),
                },
            },
        },
        Phase::Done => Ok((v, NeedView::Done)),
    }
}

/// After the history file of a timeline was read.
pub open spec fn with_history(v: RestoringView, bytes: Seq<u8>) -> Result<
    RestoringView,
    Seq<char>,
> {
    let i = v.histories.len() as int;
    match history_fault(bytes, v.nodes[i + 1], v.root) {
        Some(e) => Err(e),
        None => match num_of(v.nodes[i], "timeline"@) {
            Err(e) => Err(e),
            Ok(t) => Ok(
                RestoringView { histories: v.histories.push((t as u32, bytes)), ..v },
            ),
        },
    }
}

/// After a chunk was read.
pub open spec fn with_chunk(v: RestoringView, bytes: Seq<u8>) -> Result<RestoringView, Seq<char>> {
    match num_of(v.nodes[v.node as int], "timeline"@) {
        Err(e) => Err(e),
        Ok(t) => match chunk_start(v.walk.chain[v.left - 1], bytes.len()) {
            Err(e) => Err(e),
            Ok(start) => match poured(v.log, t as u32, start as nat, bytes) {
                None => Err("memory WAL recovery capacity exhausted"@),
                Some(log) => Ok(RestoringView { log, left: (v.left - 1) as nat, ..v }),
            },
        },
    }
}

/// The last record of a timeline is the one that its head names.
pub open spec fn boundary_fault(last: (u64, u64), node: JsonView) -> Option<Seq<char>> {
    match (num_of(node, "record_start"@), num_of(node, "end"@)) {
        (Err(e), _) => Some(e),
        (_, Err(e)) => Some(e),
        (Ok(rec), Ok(end)) => if last == (rec, end) {
            None
        } else {
            Some("native WAL validation disagrees with archive boundary"@)
        },
    }
}

/// After the records of a timeline were read from `len` bytes.
pub open spec fn with_records(v: RestoringView, len: nat, reading: Reading) -> Result<
    RestoringView,
    Seq<char>,
> {
    let node = v.nodes[v.node as int];
    match check_window(v.nodes[0], node, parent_at(v), v.log.segment_bytes) {
        Err(e) => Err(e),
        Ok(None) => Ok(node_done(v)),
        Ok(Some((base, end, first))) => match records_read(
            len,
            base,
            end,
            first,
            v.log.segment_bytes,
            reading,
            false,
        ) {
            Err(e) => Err(e),
            Ok(last) => match boundary_fault(last, node) {
                Some(e) => Err(e),
                None => Ok(node_done(v)),
            },
        },
    }
}

pub open spec fn histories_view(h: Seq<(u32, Vec<u8>)>) -> Seq<(u32, Seq<u8>)> {
    Seq::new(h.len(), |i: int| (h[i].0, h[i].1@))
}

/// A restore on its way.
pub struct Restoring {
    nodes: Vec<Json>,
    info: Json,
    root: Vec<u8>,
    limit: usize,
    segment: usize,
    phase: Phase,
    histories: Vec<(u32, Vec<u8>)>,
    walk: Chain,
    log: Rebuilt,
    node: usize,
    left: usize,
}

impl View for Restoring {
    type V = RestoringView;

    closed spec fn view(&self) -> RestoringView {
        RestoringView {
            nodes: list_view(self.nodes@),
            info: self.info@,
            root: self.root@,
            limit: self.limit as nat,
            phase: self.phase,
            histories: histories_view(self.histories@),
            walk: self.walk@,
            log: self.log@,
            node: self.node as nat,
            left: self.left as nat,
        }
    }
}

/// What a restore gives back.
pub struct Restored {
    /// The segments of the log.
    pub segments: Vec<Segment>,
    /// The history files, by timeline.
    pub histories: Vec<(u32, Vec<u8>)>,
    /// How many chunks there were.
    pub chunks: usize,
}

/// Refuses a history with as many timelines as there may be: the server that is restored begins
/// another.
pub fn check_timelines(nodes: &Vec<Json>) -> (r: Result<(), Refusal>)
    ensures
        seen(r) == (if nodes@.len() >= MAX_TIMELINES {
            Err("timeline history capacity exhausted"@)
        } else {
            Ok(())
        }),
{
    if nodes.len() >= MAX_TIMELINES {
        return Err(refuse("timeline history capacity exhausted"));
    }
    Ok(())
}

impl Restoring {
    pub closed spec fn wf(&self) -> bool {
        &&& self.log.wf()
        &&& self.segment > 0
        &&& self.log@.segment_bytes == self.segment
        &&& self.log@.limit == self.limit
        &&& self.nodes@.len() > 0
        &&& self.walk@.owner < self.nodes@.len()
        &&& self.node < self.nodes@.len()
        &&& self.left <= self.walk@.chain.len()
        &&& self.histories@.len() < self.nodes@.len()
    }

    /// A restore of the history whose heads are `nodes`, newest first, from the backup `info`.
    /// A history with as many timelines as there may be is refused: the server that is restored
    /// begins another.
    pub fn begin(
        nodes: Vec<Json>,
        info: Json,
        root: Vec<u8>,
        segment: usize,
        limit: usize,
    ) -> (r: Result<Restoring, Refusal>)
        requires
            nodes@.len() > 0,
            segment > 0,
        ensures
            match r {
                Err(e) => if nodes@.len() >= MAX_TIMELINES {
                    e@ == "timeline history capacity exhausted"@
                } else {
                    num_of(nodes@[0]@, "end"@) == Err::<u64, Seq<char>>(e@)
                },
                Ok(x) => {
                    &&& nodes@.len() < MAX_TIMELINES
                    &&& num_of(nodes@[0]@, "end"@) == Ok::<u64, Seq<char>>(x@.walk.end)
                    &&& x.wf()
                    &&& x@ == (RestoringView {
                        nodes: list_view(nodes@),
                        info: info@,
                        root: root@,
                        limit: limit as nat,
                        phase: Phase::Histories,
                        histories: Seq::empty(),
                        walk: ChainView {
                            tail: nodes@[0]@.at("tail"@),
                            end: x@.walk.end,
                            owner: 0,
                            anchored: false,
                            chain: Seq::empty(),
                        },
                        log: WalView {
                            segments: Map::empty(),
                            count: 0,
                            segment_bytes: segment as nat,
                            limit: limit as nat,
                            archive_floor: 0,
                        },
                        node: 0,
                        left: 0,
                    })
                },
            },
    {
        match check_timelines(&nodes) {
            Ok(_) => {},
            Err(e) => return Err(e),
        }
        let walk = match Chain::begin(&nodes[0]) {
            Ok(w) => w,
            Err(e) => return Err(e),
        };
        let x = Restoring {
            nodes,
            info,
            root,
            limit,
            segment,
            phase: Phase::Histories,
            histories: Vec::new(),
            walk,
            log: Rebuilt::new(segment, limit),
            node: 0,
            left: 0,
        };
        proof {
            assert(x@.histories =~= Seq::empty());
        }
        Ok(x)
    }

    /// Goes on as far as it can without an object, by one move.
    pub fn next(&mut self) -> (r: Result<Need, Refusal>)
        requires
            old(self).wf(),
        ensures
            match advanced(old(self)@) {
                Ok((v, need)) => r is Ok && r->Ok_0@ == need && final(self)@ == v
                    && final(self).wf(),
                Err(e) => r is Err && r->Err_0@ == e,
            },
    {
        let ghost was = self@;
        proof {
            assert(was.nodes.len() == self.nodes@.len());
            assert(forall|i: int|
                0 <= i < self.nodes@.len() ==> was.nodes[i] == (#[trigger] self.nodes@[i])@);
        }
        match self.phase {
            Phase::Histories => {
                let i: usize = self.histories.len();
                if i < self.nodes.len() - 1 {
                    let t = field(&self.nodes[i], "transition");
                    match text(&t, "history") {
                        Ok(k) => Ok(Need::History(k.to_owned())),
                        Err(e) => Err(e),
                    }
                } else {
                    self.phase = Phase::Chain;
                    Ok(Need::Nothing)
                }
            },
            Phase::Chain => match self.walk.next(&self.nodes) {
                Err(e) => Err(e),
                Ok(Some(k)) => Ok(Need::Descriptor(k)),
                Ok(None) => match self.walk.finish(&self.nodes) {
                    Err(e) => Err(e),
                    Ok(_) => {
                        self.phase = Phase::Fork;
                        self.node = self.nodes.len() - 1;
                        Ok(Need::Nothing)
                    },
                },
            },
            Phase::Fork => match self.fork() {
                Ok(_) => Ok(Need::Nothing),
                Err(e) => Err(e),
            },
            Phase::Chunks => {
                if self.left == 0 {
                    self.phase = Phase::Check;
                    return Ok(Need::Nothing);
                }
                let chain = self.walk.descriptors();
                proof {
                    assert(was.walk.chain[self.left - 1] == chain@[self.left - 1]@);
                }
                let d = &chain[self.left - 1];
                if !same_field(d, &self.nodes[self.node], "timeline") {
                    self.left -= 1;
                    return Ok(Need::Nothing);
                }
                match text(d, "chunk") {
                    Ok(k) => Ok(Need::Chunk(k.to_owned())),
                    Err(e) => Err(e),
                }
            },
            Phase::Check => self.check(),
            Phase::Done => Ok(Need::Done),
        }
    }

    fn fork(&mut self) -> (r: Result<(), Refusal>)
        requires
            old(self).wf(),
        ensures
            match forked_off(old(self)@) {
                Ok(v) => r is Ok && final(self)@ == v && final(self).wf(),
                Err(e) => r is Err && r->Err_0@ == e,
            },
    {
        let ghost was = self@;
        proof {
            assert(was.nodes[self.node as int] == self.nodes@[self.node as int]@);
        }
        let t: u64 = match num(&self.nodes[self.node], "timeline") {
            Ok(n) => n,
            Err(e) => return Err(e),
        };
        if self.node < self.nodes.len() - 1 {
            proof {
                assert(was.nodes[self.node + 1] == self.nodes@[self.node + 1]@);
            }
            let p = &self.nodes[self.node + 1];
            let fork: u64 = match num(p, "end") {
                Ok(n) => n,
                Err(e) => return Err(e),
            };
            let pt: u64 = match num(p, "timeline") {
                Ok(n) => n,
                Err(e) => return Err(e),
            };
            match self.log.fork_prefix(
                #[verifier::truncate]
                (pt as u32),
                fork,
                #[verifier::truncate]
                (t as u32),
            ) {
                Ok(_) => {},
                Err(e) => return Err(e),
            }
        }
        self.phase = Phase::Chunks;
        self.left = self.walk.descriptors().len();
        Ok(())
    }

    fn finish_node(&mut self)
        requires
            old(self).wf(),
        ensures
            final(self).wf(),
            final(self)@ == node_done(old(self)@),
    {
        if self.node == 0 {
            self.phase = Phase::Done;
        } else {
            self.phase = Phase::Fork;
            self.node -= 1;
        }
    }

    fn window(&self) -> (r: Result<Option<(u64, u64, u64)>, Refusal>)
        requires
            self.wf(),
        ensures
            seen(r) == check_window(
                self@.nodes[0],
                self@.nodes[self@.node as int],
                parent_at(self@),
                self@.log.segment_bytes,
            ),
    {
        proof {
            assert(self@.nodes[0] == self.nodes@[0]@);
            assert(self@.nodes[self.node as int] == self.nodes@[self.node as int]@);
        }
        if self.node < self.nodes.len() - 1 {
            proof {
                assert(self@.nodes[self.node + 1] == self.nodes@[self.node + 1]@);
            }
            window(
                &self.nodes[0],
                &self.nodes[self.node],
                Some(&self.nodes[self.node + 1]),
                self.segment,
            )
        } else {
            window(&self.nodes[0], &self.nodes[self.node], None, self.segment)
        }
    }

    fn check(&mut self) -> (r: Result<Need, Refusal>)
        requires
            old(self).wf(),
            old(self)@.phase == Phase::Check,
        ensures
            match advanced(old(self)@) {
                Ok((v, need)) => r is Ok && r->Ok_0@ == need && final(self)@ == v
                    && final(self).wf(),
                Err(e) => r is Err && r->Err_0@ == e,
            },
    {
        proof {
            assert(self@.nodes[self.node as int] == self.nodes@[self.node as int]@);
        }
        match self.window() {
            Err(e) => Err(e),
            Ok(None) => {
                self.finish_node();
                Ok(Need::Nothing)
            },
            Ok(Some((base, end, first))) => {
                let t: u64 = match num(&self.nodes[self.node], "timeline") {
                    Ok(n) => n,
                    Err(e) => return Err(e),
                };
                let timeline: u32 = #[verifier::truncate]
                (t as u32);
                match read_span(
                    self.log.segments(),
                    timeline,
                    base,
                    end,
                    self.segment,
                    self.limit,
                ) {
                    Err(e) => Err(e),
                    Ok(bytes) => Ok(Need::Records { bytes, base, first, timeline }),
                }
            },
        }
    }

    /// Takes the history file that was wanted.
    pub fn take_history(&mut self, bytes: Vec<u8>) -> (r: Result<(), Refusal>)
        requires
            old(self).wf(),
            old(self)@.histories.len() + 1 < old(self)@.nodes.len(),
        ensures
            match with_history(old(self)@, bytes@) {
                Ok(v) => r is Ok && final(self)@ == v && final(self).wf(),
                Err(e) => r is Err && r->Err_0@ == e,
            },
    {
        let ghost was = self@;
        let i: usize = self.histories.len();
        proof {
            assert(was.nodes[i as int] == self.nodes@[i as int]@);
            assert(was.nodes[i + 1] == self.nodes@[i + 1]@);
        }
        assert(i + 1 < self.nodes.len());
        match check_history(bytes.as_slice(), &self.nodes[i + 1], self.root.as_slice()) {
            Ok(_) => {},
            Err(e) => return Err(e),
        }
        let t: u64 = match num(&self.nodes[i], "timeline") {
            Ok(n) => n,
            Err(e) => return Err(e),
        };
        let timeline: u32 = #[verifier::truncate]
        (t as u32);
        let ghost b = bytes@;
        self.histories.push((timeline, bytes));
        proof {
            assert(self@.histories =~= was.histories.push((timeline, b)));
        }
        Ok(())
    }

    /// Takes the descriptor that was wanted.
    pub fn take_descriptor(&mut self, d: Json) -> (r: Result<(), Refusal>)
        requires
            old(self).wf(),
        ensures
            match chain_step(old(self)@.nodes, old(self)@.info, old(self)@.walk, d@) {
                Ok(walk) => r is Ok && final(self)@ == (RestoringView { walk, ..old(self)@ })
                    && final(self).wf(),
                Err(e) => r is Err && r->Err_0@ == e,
            },
    {
        self.walk.accept(&self.nodes, &self.info, d)
    }

    /// Takes the chunk that was wanted.
    pub fn take_chunk(&mut self, bytes: &[u8]) -> (r: Result<(), Refusal>)
        requires
            old(self).wf(),
            old(self)@.left > 0,
        ensures
            match with_chunk(old(self)@, bytes@) {
                Ok(v) => r is Ok && final(self)@ == v && final(self).wf(),
                Err(e) => r is Err && r->Err_0@ == e,
            },
    {
        let ghost was = self@;
        proof {
            assert(was.nodes[self.node as int] == self.nodes@[self.node as int]@);
        }
        let t: u64 = match num(&self.nodes[self.node], "timeline") {
            Ok(n) => n,
            Err(e) => return Err(e),
        };
        let chain = self.walk.descriptors();
        proof {
            assert(was.walk.chain[self.left - 1] == chain@[self.left - 1]@);
        }
        let start: u64 = match check_chunk(&chain[self.left - 1], bytes) {
            Ok(n) => n,
            Err(e) => return Err(e),
        };
        match self.log.pour(
            #[verifier::truncate]
            (t as u32),
            start,
            bytes,
        ) {
            Ok(_) => {},
            Err(e) => return Err(e),
        }
        self.left -= 1;
        Ok(())
    }

    /// Takes the records that were wanted: what a reader found in `bytes`.
    pub fn take_records(&mut self, bytes: &[u8], reading: &Reading) -> (r: Result<(), Refusal>)
        requires
            old(self).wf(),
        ensures
            match with_records(old(self)@, bytes@.len(), *reading) {
                Ok(v) => r is Ok && final(self)@ == v && final(self).wf(),
                Err(e) => r is Err && r->Err_0@ == e,
            },
    {
        proof {
            assert(self@.nodes[self.node as int] == self.nodes@[self.node as int]@);
        }
        match self.window() {
            Err(e) => return Err(e),
            Ok(None) => {},
            Ok(Some((base, end, first))) => {
                let last = match last_record(bytes, base, end, first, self.segment, reading) {
                    Ok(p) => p,
                    Err(e) => return Err(e),
                };
                match check_boundary(last, &self.nodes[self.node]) {
                    Ok(_) => {},
                    Err(e) => return Err(e),
                }
            },
        }
        self.finish_node();
        Ok(())
    }

    /// Hands over what was restored.
    pub fn finish(self) -> (r: Restored)
        requires
            self.wf(),
        ensures
            contents(r.segments@) == self@.log.segments,
            crate::memory_wal::in_order(r.segments@),
            forall|i: int|
                0 <= i < r.segments@.len() ==> (#[trigger] r.segments@[i]).bytes@.len()
                    == self@.log.segment_bytes,
            r.segments@.len() <= self@.limit / self@.log.segment_bytes,
            histories_view(r.histories@) == self@.histories,
            r.chunks == self@.walk.chain.len(),
    {
        let chunks: usize = self.walk.descriptors().len();
        Restored { segments: self.log.into_segments(), histories: self.histories, chunks }
    }
}

} // verus!
