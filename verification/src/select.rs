//! Selecting a snapshot: the log behind it is published anew, and the head moves over to it.
use crate::archive::{num, num_of, MAX_CHUNK};
use crate::decode::{last_record, lemma_frontier_is_complete, records_read, Reading};
use crate::http::{content_key, immutable_key, strings_view};
use crate::json::{field, list_view, Json, JsonView};
use crate::manifest_text::{body, body_of};
use crate::names::Names;
use crate::publish::{
    backup, backup_of, descriptor, descriptor_of, first_head, root_head, text_value,
};
use crate::refusal::{refuse, seen, Refusal};
use crate::renewal::{key_of, with_key, Prepared};
use crate::wire::{digest, digest_of};
use vstd::prelude::*;
use vstd::slice::{slice_subrange, slice_to_vec};

verus! {

/// Where the segment begins that holds `pos`.
pub open spec fn segment_start(pos: u64, segment: nat) -> u64 {
    (pos - pos as nat % segment) as u64
}

/// Where the segment begins that holds `pos`.
pub fn segment_base(pos: u64, segment: usize) -> (r: u64)
    requires
        segment > 0,
    ensures
        r == segment_start(pos, segment as nat),
        r <= pos,
        r as nat % segment as nat == 0,
        pos - r < segment,
{
    let m: u64 = pos % segment as u64;
    proof {
        let d = segment as int;
        let q = pos as int / d;
        vstd::arithmetic::div_mod::lemma_fundamental_div_mod(pos as int, d);
        vstd::arithmetic::div_mod::lemma_mod_multiples_basic(q, d);
        assert(pos as int - m == q * d) by (nonlinear_arith)
            requires
                pos as int == d * q + m,
        ;
    }
    pos - m
}

/// How far one batch of log that begins at `pos` may reach.
pub open spec fn batch_end(pos: u64, end: u64) -> u64 {
    if pos + MAX_CHUNK < end {
        (pos + MAX_CHUNK) as u64
    } else {
        end
    }
}

/// How far one batch of log that begins at `pos` may reach.
pub fn batch_limit(pos: u64, end: u64) -> (r: u64)
    requires
        pos <= end,
    ensures
        r == batch_end(pos, end),
        pos <= r <= end,
{
    if end - pos > MAX_CHUNK {
        pos + MAX_CHUNK
    } else {
        end
    }
}

/// What is wrong with selecting a snapshot that runs from `start` to `end` on `timeline`.
pub open spec fn selection_fault(head: JsonView, timeline: u32, start: u64, end: u64) -> Option<
    Seq<char>,
> {
    let bad = "snapshot selection precedes publication or has wrong timeline"@;
    match num_of(head, "end"@) {
        Err(e) => Some(e),
        Ok(he) => match num_of(head, "timeline"@) {
            Err(e) => Some(e),
            Ok(t) => if timeline != t || end > he {
                Some(bad)
            } else {
                match num_of(head, "start"@) {
                    Err(e) => Some(e),
                    Ok(hs) => if start <= hs {
                        Some(bad)
                    } else {
                        None
                    },
                }
            },
        },
    }
}

/// How far a selection has come.
#[verifier::ext_equal]
pub struct SelectionView {
    /// Up to where the log was published anew.
    pub pos: u64,
    /// The address of the last descriptor; null before the first.
    pub tail: JsonView,
    /// Where the last record begins.
    pub record: u64,
    pub count: nat,
    /// What the selected archive will need.
    pub live: Set<Seq<char>>,
}

/// The descriptor of the batch from `pos` to `complete`.
pub open spec fn batch_descriptor(
    head: JsonView,
    s: SelectionView,
    last: u64,
    complete: u64,
    chunk: Seq<u8>,
) -> JsonView {
    descriptor_of(
        head.at("cluster"@),
        head.at("timeline"@),
        s.pos,
        complete,
        last,
        s.tail,
        digest_of(chunk),
    )
}

/// One more batch: `bytes` is the log from the segment that holds `pos` to the limit of the
/// batch, `read` what a record reader made of it. The chunk, the descriptor, and how far the
/// selection has come with them.
pub open spec fn batch_step(
    head: JsonView,
    s: SelectionView,
    segment: nat,
    bytes: Seq<u8>,
    read: Result<(u64, u64), Seq<char>>,
) -> Result<(Seq<u8>, JsonView, SelectionView), Seq<char>> {
    match read {
        Err(e) => Err(e),
        Ok((last, complete)) => if complete <= s.pos {
            Err("snapshot WAL record exceeds publication bound"@)
        } else {
            let base = segment_start(s.pos, segment);
            let chunk = bytes.subrange(s.pos - base, complete - base);
            let d = batch_descriptor(head, s, last, complete, chunk);
            let tail = digest_of(body_of(d));
            Ok(
                (
                    chunk,
                    d,
                    SelectionView {
                        pos: complete,
                        tail: JsonView::Text(tail),
                        record: last,
                        count: s.count + 1,
                        live: s.live.insert(key_of("chunks"@, digest_of(chunk))).insert(
                            key_of("descriptors"@, tail),
                        ),
                    },
                ),
            )
        },
    }
}

/// A batch to be stored.
pub struct Batch {
    pub chunk: Vec<u8>,
    pub descriptor: Vec<u8>,
}

/// A selection under way.
pub struct Selection {
    pub image: String,
    pub manifest: String,
    pub start: u64,
    pub end: u64,
    pub timeline: u32,
    pub segment: usize,
    /// Where the log ends.
    pub frontier: u64,
    pub old_objects: Names,
    pub live: Names,
    pub pos: u64,
    pub tail: Json,
    pub record: u64,
    pub count: usize,
}

impl View for Selection {
    type V = SelectionView;

    open spec fn view(&self) -> SelectionView {
        SelectionView {
            pos: self.pos,
            tail: self.tail@,
            record: self.record,
            count: self.count as nat,
            live: self.live@,
        }
    }
}

impl Selection {
    pub open spec fn wf(&self) -> bool {
        &&& self.segment > 0
        &&& self.old_objects.wf()
        &&& self.live.wf()
    }

    /// Where the log of the selected archive begins.
    pub open spec fn base(&self) -> u64 {
        segment_start(self.start, self.segment as nat)
    }

    /// Everything but the progress is the same.
    pub open spec fn same_task(&self, other: &Selection) -> bool {
        &&& self.image@ == other.image@
        &&& self.manifest@ == other.manifest@
        &&& self.start == other.start
        &&& self.end == other.end
        &&& self.timeline == other.timeline
        &&& self.segment == other.segment
        &&& self.frontier == other.frontier
        &&& self.old_objects == other.old_objects
    }

    /// Begins to select a snapshot. `published` is what was published since the snapshot's
    /// worker listed what the archive needs.
    pub fn begin(head: &Json, prepared: Prepared, published: &Names, segment: usize) -> (r: Result<
        Selection,
        Refusal,
    >)
        requires
            segment > 0,
            prepared.old_objects.wf(),
            prepared.new_objects.wf(),
            published.wf(),
        ensures
            match selection_fault(head@, prepared.timeline, prepared.start, prepared.end) {
                Some(e) => r matches Err(x) && x@ == e,
                None => {
                    &&& r matches Ok(s)
                    &&& s.wf()
                    &&& s.image@ == prepared.image@
                    &&& s.manifest@ == prepared.manifest@
                    &&& s.start == prepared.start
                    &&& s.end == prepared.end
                    &&& s.timeline == prepared.timeline
                    &&& s.segment == segment
                    &&& num_of(head@, "end"@) == Ok::<u64, Seq<char>>(s.frontier)
                    &&& s.old_objects@ == prepared.old_objects@.union(published@)
                    &&& s@ == (SelectionView {
                        pos: segment_start(prepared.start, segment as nat),
                        tail: JsonView::Null,
                        record: 0,
                        count: 0,
                        live: prepared.new_objects@.insert(
                            key_of("snapshot-index"@, prepared.image@),
                        ),
                    })
                },
            },
    {
        let bad = "snapshot selection precedes publication or has wrong timeline";
        let frontier: u64 = match num(head, "end") {
            Ok(n) => n,
            Err(e) => return Err(e),
        };
        let t: u64 = match num(head, "timeline") {
            Ok(n) => n,
            Err(e) => return Err(e),
        };
        if prepared.timeline as u64 != t || prepared.end > frontier {
            return Err(refuse(bad));
        }
        let hs: u64 = match num(head, "start") {
            Ok(n) => n,
            Err(e) => return Err(e),
        };
        if prepared.start <= hs {
            return Err(refuse(bad));
        }
        let mut old_objects = prepared.old_objects;
        old_objects.extend(published);
        let mut live = prepared.new_objects;
        live.insert(content_key("snapshot-index", prepared.image.as_str()));
        Ok(
            Selection {
                image: prepared.image,
                manifest: prepared.manifest,
                start: prepared.start,
                end: prepared.end,
                timeline: prepared.timeline,
                segment,
                frontier,
                old_objects,
                live,
                pos: segment_base(prepared.start, segment),
                tail: Json::Null,
                record: 0,
                count: 0,
            },
        )
    }

    /// Which log is to be read next: from where, and up to where. Nothing where all is done.
    pub fn window(&self) -> (r: Option<(u64, u64)>)
        requires
            self.wf(),
        ensures
            r == (if self.pos < self.frontier {
                Some(
                    (
                        segment_start(self.pos, self.segment as nat),
                        batch_end(self.pos, self.frontier),
                    ),
                )
            } else {
                None
            }),
    {
        if self.pos < self.frontier {
            Some((segment_base(self.pos, self.segment), batch_limit(self.pos, self.frontier)))
        } else {
            None
        }
    }

    /// Publishes one more batch: `bytes` is the log in the window, `reading` what a record
    /// reader that began at the position reached gave.
    pub fn step(&mut self, head: &Json, bytes: &[u8], reading: &Reading) -> (r: Result<
        Batch,
        Refusal,
    >)
        requires
            old(self).wf(),
            old(self).pos < old(self).frontier,
            old(self).count < usize::MAX,
        ensures
            final(self).wf(),
            final(self).same_task(old(self)),
            match batch_step(
                head@,
                old(self)@,
                old(self).segment as nat,
                bytes@,
                records_read(
                    bytes@.len(),
                    segment_start(old(self).pos, old(self).segment as nat),
                    batch_end(old(self).pos, old(self).frontier),
                    old(self).pos,
                    old(self).segment as nat,
                    *reading,
                    false,
                ),
            ) {
                Err(e) => r matches Err(x) && x@ == e && *final(self) == *old(self),
                Ok((chunk, d, next)) => {
                    &&& r matches Ok(b)
                    &&& b.chunk@ == chunk
                    &&& b.descriptor@ == body_of(d)
                    &&& final(self)@ == next
                    &&& old(self).pos < final(self).pos <= final(self).frontier
                },
            },
    {
        let base: u64 = segment_base(self.pos, self.segment);
        let limit: u64 = batch_limit(self.pos, self.frontier);
        let (last, complete) = match last_record(
            bytes,
            base,
            limit,
            self.pos,
            self.segment,
            reading,
        ) {
            Ok(p) => p,
            Err(e) => return Err(e),
        };
        if complete <= self.pos {
            return Err(refuse("snapshot WAL record exceeds publication bound"));
        }
        proof {
            lemma_frontier_is_complete(reading.records@, limit, false);
            assert(complete <= limit);
            assert(limit - base == bytes@.len());
        }
        let ghost s = self@;
        assert(complete - base <= bytes.len());
        let chunk = slice_subrange(bytes, (self.pos - base) as usize, (complete - base) as usize);
        let (address, key) = immutable_key("chunks", chunk);
        let mut tail = Json::Null;
        std::mem::swap(&mut tail, &mut self.tail);
        let d = descriptor(
            field(head, "cluster"),
            field(head, "timeline"),
            self.pos,
            complete,
            last,
            tail,
            address.as_str(),
        );
        let stored = body(&d);
        let (link, place) = immutable_key("descriptors", stored.as_slice());
        self.tail = text_value(link.as_str());
        self.live.insert(key);
        self.live.insert(place);
        self.pos = complete;
        self.record = last;
        self.count += 1;
        Ok(Batch { chunk: slice_to_vec(chunk), descriptor: stored })
    }

    /// Checks that the log was published anew up to the last record that was acknowledged.
    pub fn check_frontier(&self, head: &Json) -> (r: Result<(), Refusal>)
        ensures
            seen(r) == (match num_of(head@, "record_start"@) {
                Err(e) => Err(e),
                Ok(rec) => if self.record != rec {
                    Err("snapshot WAL does not reach acknowledged frontier"@)
                } else {
                    Ok(())
                },
            }),
    {
        let rec: u64 = match num(head, "record_start") {
            Ok(n) => n,
            Err(e) => return Err(e),
        };
        if self.record != rec {
            return Err(refuse("snapshot WAL does not reach acknowledged frontier"));
        }
        Ok(())
    }

    /// Completes the selection. `root_history` is the address of the timeline's history file;
    /// the first timeline has none.
    pub fn finish(self, head: &Json, root_history: Option<&str>, revision: &str) -> (r: Result<
        Selected,
        Refusal,
    >)
        requires
            self.wf(),
            root_history is Some <==> self.timeline > 1,
            generation_of(head@) < u64::MAX,
        ensures
            match num_of(head@, "record_start"@) {
                Err(e) => r matches Err(x) && x@ == e,
                Ok(rec) => if self.record != rec {
                    seen(r) == Err::<Selected, Seq<char>>(
                        "snapshot WAL does not reach acknowledged frontier"@,
                    )
                } else {
                    let root = address_value(root_history);
                    let info = self.info(head@, root);
                    let gone = retired_list(
                        self.old_objects.listed(),
                        self.needed(head@, root),
                    );
                    &&& r matches Ok(s)
                    &&& s.backup@ == body_of(info)
                    &&& s.retired@ == body_of(gone)
                    &&& s.head@ == self.selected_head(head@, root, revision@)
                    &&& s.base == self.base()
                    &&& s.count == self.count
                },
            },
    {
        match self.check_frontier(head) {
            Ok(_) => {},
            Err(e) => return Err(e),
        }
        let ghost root = address_value(root_history);
        let ghost task = self;
        let mut live = self.live;
        let base: u64 = segment_base(self.start, self.segment);
        let history = match root_history {
            Some(k) => {
                live.insert(content_key("histories", k));
                text_value(k)
            },
            None => Json::Null,
        };
        let info = backup(
            field(head, "cluster"),
            self.timeline,
            self.start,
            self.end,
            self.manifest.as_str(),
            self.image.as_str(),
            base,
            self.frontier,
            self.record,
            self.tail.copy(),
            history,
        );
        let stored = body(&info);
        let (address, key) = immutable_key("backups", stored.as_slice());
        let mut next = first_head(
            field(head, "cluster"),
            field(head, "timeline"),
            base,
            self.frontier,
            self.record,
            self.tail,
            address.as_str(),
            field(head, "epoch"),
            revision,
        );
        live.insert(key);
        let gone = names_list(&self.old_objects.difference(&live));
        let journal = body(&gone);
        next.set("garbage", text_value(digest(journal.as_slice()).as_str()));
        let generation: u64 = match field(head, "generation").as_u64() {
            Some(n) => n,
            None => 0,
        };
        next.set("generation", Json::Number(generation + 1));
        proof {
            assert(live@ == task.needed(head@, root));
            assert(gone@ == retired_list(task.old_objects.listed(), live@));
        }
        Ok(Selected { backup: stored, retired: journal, head: next, base, count: self.count })
    }

    /// What the selected archive needs.
    pub open spec fn needed(&self, head: JsonView, root: JsonView) -> Set<Seq<char>> {
        with_key(self.live@, "histories"@, root).insert(
            key_of("backups"@, digest_of(body_of(self.info(head, root)))),
        )
    }

    /// The backup that the selected archive starts from.
    pub open spec fn info(&self, head: JsonView, root: JsonView) -> JsonView {
        backup_of(
            head.at("cluster"@),
            self.timeline,
            self.start,
            self.end,
            self.manifest@,
            self.image@,
            self.base(),
            self.frontier,
            self.record,
            self.tail@,
            root,
        )
    }

    /// The head of the selected archive.
    pub open spec fn selected_head(
        &self,
        head: JsonView,
        root: JsonView,
        revision: Seq<char>,
    ) -> JsonView {
        let gone = retired_list(self.old_objects.listed(), self.needed(head, root));
        root_head(
            head.at("cluster"@),
            head.at("timeline"@),
            self.base(),
            self.frontier,
            self.record,
            self.tail@,
            digest_of(body_of(self.info(head, root))),
            head.at("epoch"@),
            revision,
        ).with("garbage"@, JsonView::Text(digest_of(body_of(gone)))).with(
            "generation"@,
            JsonView::Number((generation_of(head) + 1) as u64),
        )
    }
}

/// An address, or null.
pub open spec fn address_value(k: Option<&str>) -> JsonView {
    match k {
        Some(k) => JsonView::Text(k@),
        None => JsonView::Null,
    }
}

/// How often an archive's backup was replaced.
pub open spec fn generation_of(head: JsonView) -> u64 {
    match head.at("generation"@) {
        JsonView::Number(n) => n,
        _ => 0,
    }
}

/// Names in a JSON list.
pub open spec fn name_values(names: Seq<Seq<char>>) -> JsonView {
    JsonView::List(Seq::new(names.len(), |i: int| JsonView::Text(names[i])))
}

/// The journal of what is not needed any more, in order.
pub open spec fn retired_list(old_names: Seq<Seq<char>>, live: Set<Seq<char>>) -> JsonView {
    name_values(old_names.filter(|s: Seq<char>| !live.contains(s)))
}

fn names_list(names: &Vec<String>) -> (r: Json)
    ensures
        r@ == name_values(strings_view(names@)),
{
    let mut l: Vec<Json> = Vec::new();
    let mut i: usize = 0;
    while i < names.len()
        invariant
            i <= names@.len(),
            l@.len() == i,
            forall|j: int| 0 <= j < i ==> (#[trigger] l@[j])@ == JsonView::Text(names@[j]@),
        decreases names@.len() - i,
    {
        l.push(text_value(names[i].as_str()));
        i += 1;
    }
    let r = Json::List(l);
    proof {
        crate::json::lemma_views(r);
        assert(list_view(l@) =~= name_values(strings_view(names@))->List_0);
    }
    r
}

/// A selection to be published: the backup and the journal are stored first, then the head is
/// moved.
pub struct Selected {
    pub backup: Vec<u8>,
    pub retired: Vec<u8>,
    pub head: Json,
    /// Where the log of the selected archive begins.
    pub base: u64,
    pub count: usize,
}

} // verus!
