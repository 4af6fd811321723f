//! What is required of a backup, a control file and a chain of descriptors before a log is restored
//! from them.
use crate::archive::{history_of, MAX_CHUNKS};
use crate::history_laws::{descent, forked_off, usable};
use crate::json::JsonView;
use crate::restore::{
    backup_fault, chain_end_fault, chain_request, chain_step, control_fault, eligible,
    good_segment_size, manifest_fault, power_of_two, rising, root_history_fault, settled, walked,
    ChainView, Control,
};
use crate::text::decimal;
use crate::text_laws::lemma_position_reads_back;
use crate::wire::{lsn_chars, lsn_value};
use vstd::arithmetic::power2::pow2;
use vstd::prelude::*;

verus! {

/// A backup that the log from `root` to `head` can be restored on: a flat snapshot of the same
/// cluster on the root's timeline, taken within the archived log and finished before the root
/// ended, and published with a seed of log that holds it.
pub open spec fn founds(head: JsonView, root: JsonView, info: JsonView) -> bool {
    &&& info.at("parent"@) == JsonView::Null
    &&& info.at("image"@) is Text
    &&& info.at("version"@) == head.at("version"@)
    &&& info.at("cluster"@) == head.at("cluster"@)
    &&& info.at("timeline"@) == root.at("timeline"@)
    &&& info.at("archive_start"@) == head.at("start"@)
    &&& head.at("start"@) is Number && info.at("start"@) is Number && info.at("end"@) is Number
    &&& root.at("end"@) is Number && head.at("record_start"@) is Number
    &&& info.at("seed_end"@) is Number && info.at("seed_record_start"@) is Number
    &&& head.at("start"@)->Number_0 <= info.at("start"@)->Number_0 < info.at("end"@)->Number_0
        <= info.at("seed_end"@)->Number_0 <= root.at("end"@)->Number_0
    &&& info.at("start"@)->Number_0 <= head.at("record_start"@)->Number_0
    &&& info.at("start"@)->Number_0 <= info.at("seed_record_start"@)->Number_0 < info.at(
        "seed_end"@,
    )->Number_0
}

/// A backup is accepted exactly where the log can be restored on it.
pub proof fn lemma_backup_is_accepted(head: JsonView, root: JsonView, info: JsonView)
    ensures
        backup_fault(head, root, info) is None <==> founds(head, root, info),
{
}

/// A history of the root timeline is asked for exactly where that is not the first timeline, and
/// it is the one that the backup names.
pub proof fn lemma_root_history_is_asked_for(head: JsonView, root: JsonView, info: JsonView, t: u64)
    requires
        root.at("timeline"@) == JsonView::Number(t),
    ensures
        eligible(head, root, info) is Ok ==> founds(head, root, info),
        founds(head, root, info) && t > 1 ==> (eligible(head, root, info) is Ok <==> info.at(
            "root_history"@,
        ) is Text),
        founds(head, root, info) && t <= 1 ==> (eligible(head, root, info) is Ok <==> info.at(
            "root_history"@,
        ) == JsonView::Null),
        eligible(head, root, info) matches Ok(Some(k)) ==> t > 1 && info.at("root_history"@)
            == JsonView::Text(k),
        eligible(head, root, info) matches Ok(None) ==> t <= 1,
{
    lemma_backup_is_accepted(head, root, info);
}

/// The history of a root timeline is accepted exactly where it begins with the first timeline,
/// its timelines rise up to one before the root's, and its forks do not fall and lie at or before
/// where the archive starts.
pub proof fn lemma_root_history_is_accepted(head: JsonView, root: JsonView, history: Seq<u8>)
    requires
        history_of(history) is Ok,
        root.at("timeline"@) is Number,
        head.at("start"@) is Number,
    ensures
        ({
            let rows = history_of(history)->Ok_0;
            root_history_fault(head, root, history) is None <==> {
                &&& rows.len() > 0
                &&& rows[0].0 == 1
                &&& rows.last().0 < root.at("timeline"@)->Number_0
                &&& rows.last().1 <= head.at("start"@)->Number_0
                &&& forall|i: int, j: int|
                    0 <= i < j < rows.len() ==> (#[trigger] rows[i]).0 < (#[trigger] rows[j]).0
                        && rows[i].1 <= rows[j].1
            }
        }),
{
    let rows = history_of(history)->Ok_0;
    if rising(rows) {
        assert forall|i: int, j: int| 0 <= i < j < rows.len() implies (#[trigger] rows[i]).0 < (
        #[trigger] rows[j]).0 && rows[i].1 <= rows[j].1 by {
            lemma_rising(rows, i, j);
        }
    }
}

proof fn lemma_rising(rows: Seq<(u64, u64)>, i: int, j: int)
    requires
        rising(rows),
        0 <= i < j < rows.len(),
    ensures
        rows[i].0 < rows[j].0,
        rows[i].1 <= rows[j].1,
    decreases j - i,
{
    assert(rows[j - 1].0 < rows[j].0 && rows[j - 1].1 <= rows[j].1);
    if i < j - 1 {
        lemma_rising(rows, i, j - 1);
    }
}

/// A manifest is that of a backup exactly where it lists one stretch of log, and its database, the
/// timeline, and where that stretch begins and ends are the backup's.
pub proof fn lemma_manifest_is_the_backups(info: JsonView, manifest: JsonView)
    ensures
        manifest_fault(info, manifest) is None <==> {
            &&& manifest.at("WAL-Ranges"@) matches JsonView::List(l) && l.len() == 1
            &&& manifest.at("System-Identifier"@) matches JsonView::Number(n) && info.at("cluster"@)
                == JsonView::Text(decimal(n as nat))
            &&& ({
                let r = manifest.at("WAL-Ranges"@)->List_0[0];
                &&& r.at("Timeline"@) is Number && r.at("Timeline"@) == info.at("timeline"@)
                &&& r.at("Start-LSN"@) matches JsonView::Text(a) && lsn_value(a) matches Ok(x)
                    && info.at("start"@) == JsonView::Number(x)
                &&& r.at("End-LSN"@) matches JsonView::Text(b) && lsn_value(b) matches Ok(y)
                    && info.at("end"@) == JsonView::Number(y)
            })
        },
{
}

/// The manifest that is written for a backup is accepted as the backup's.
pub proof fn lemma_written_manifest_is_the_backups(
    info: JsonView,
    manifest: JsonView,
    system: u64,
    t: u64,
    start: u64,
    end: u64,
    range: JsonView,
)
    requires
        info.at("cluster"@) == JsonView::Text(decimal(system as nat)),
        info.at("timeline"@) == JsonView::Number(t),
        info.at("start"@) == JsonView::Number(start),
        info.at("end"@) == JsonView::Number(end),
        manifest.at("System-Identifier"@) == JsonView::Number(system),
        manifest.at("WAL-Ranges"@) == JsonView::List(seq![range]),
        range.at("Timeline"@) == JsonView::Number(t),
        range.at("Start-LSN"@) == JsonView::Text(lsn_chars(start)),
        range.at("End-LSN"@) == JsonView::Text(lsn_chars(end)),
    ensures
        manifest_fault(info, manifest) is None,
{
    lemma_position_reads_back(start);
    lemma_position_reads_back(end);
    lemma_manifest_is_the_backups(info, manifest);
    assert(manifest.at("WAL-Ranges"@)->List_0[0] == range);
}

/// A number is a power of two exactly where it is two raised to something.
pub proof fn lemma_power_of_two(n: nat)
    ensures
        power_of_two(n) <==> exists|k: nat| n == #[trigger] pow2(k),
    decreases n,
{
    vstd::arithmetic::power2::lemma2_to64();
    if n > 1 {
        lemma_power_of_two(n / 2);
        if power_of_two(n) {
            let k = choose|k: nat| n / 2 == #[trigger] pow2(k);
            vstd::arithmetic::power2::lemma_pow2_unfold(k + 1);
            assert(n == pow2(k + 1));
        }
        if exists|k: nat| n == #[trigger] pow2(k) {
            let k = choose|k: nat| n == #[trigger] pow2(k);
            if k > 0 {
                vstd::arithmetic::power2::lemma_pow2_unfold(k);
                assert(n / 2 == pow2((k - 1) as nat));
            }
        }
    } else if n == 1 {
        assert(n == pow2(0));
    } else if exists|k: nat| n == #[trigger] pow2(k) {
        let k = choose|k: nat| n == #[trigger] pow2(k);
        vstd::arithmetic::power2::lemma_pow2_pos(k);
    }
}

/// A control file is accepted exactly where it is valid and of the expected version, its database
/// is the archive's, its segments have a size of a power of two from one megabyte to one
/// gigabyte, and the archive starts where a segment does.
pub proof fn lemma_control_is_accepted(c: Control, version: u32, head: JsonView)
    ensures
        control_fault(c, version, head) is None <==> {
            &&& c.valid
            &&& c.version == version
            &&& head.at("cluster"@) == JsonView::Text(decimal(c.system_identifier as nat))
            &&& 1048576 <= c.segment_bytes <= 1073741824
            &&& exists|k: nat| c.segment_bytes == #[trigger] pow2(k)
            &&& head.at("start"@) matches JsonView::Number(s) && s as nat % c.segment_bytes as nat
                == 0
        },
{
    lemma_power_of_two(c.segment_bytes as nat);
    if exists|k: nat| c.segment_bytes == #[trigger] pow2(k) {
        let k = choose|k: nat| c.segment_bytes == #[trigger] pow2(k);
        assert(c.segment_bytes as nat == pow2(k));
    }
    if power_of_two(c.segment_bytes as nat) {
        let k = choose|k: nat| c.segment_bytes as nat == #[trigger] pow2(k);
        assert(c.segment_bytes == pow2(k));
    }
    assert(good_segment_size(c.segment_bytes as nat) == (1048576 <= c.segment_bytes <= 1073741824
        && power_of_two(c.segment_bytes as nat)));
}

/// Which head owns the log that ends at `end`: walking back from `owner`, every head whose own log
/// ends there is passed over to, and the next head's log ends elsewhere.
pub proof fn lemma_settles(nodes: Seq<JsonView>, tail: JsonView, end: u64, owner: int)
    requires
        0 <= owner < nodes.len(),
    ensures
        settled(nodes, tail, end, owner) matches Ok(o) ==> {
            &&& owner <= o < nodes.len()
            &&& forall|i: int|
                owner < i <= o ==> (#[trigger] nodes[i]).at("end"@) == JsonView::Number(end)
                    && nodes[i].at("tail"@) == tail
            &&& o + 1 < nodes.len() ==> nodes[o + 1].at("end"@) != JsonView::Number(end)
        },
    decreases nodes.len() - owner,
{
    if owner + 1 < nodes.len() && nodes[owner + 1].at("end"@) == JsonView::Number(end) && tail
        == nodes[owner + 1].at("tail"@) {
        lemma_settles(nodes, tail, end, owner + 1);
    }
}

/// A descriptor is taken exactly where it is one of the archive's cluster and of the timeline that
/// owns the log here, ends where the walk stands, begins no earlier than the archive and than the
/// log of that timeline, is no longer than a chunk may be, has its last record within it, which is
/// the head's own where it is the last of the head's log, and, at the backup's anchor, agrees with
/// the seed that the backup was published with.
pub proof fn lemma_descriptor_is_taken(
    nodes: Seq<JsonView>,
    info: JsonView,
    s: ChainView,
    d: JsonView,
)
    requires
        0 <= s.owner < nodes.len(),
        forall|i: int| 0 <= i < nodes.len() ==> usable(#[trigger] nodes[i]),
    ensures
        chain_step(nodes, info, s, d) is Ok <==> {
            let node = nodes[s.owner];
            let start = d.at("start"@)->Number_0;
            let rec = d.at("record_start"@)->Number_0;
            &&& d.at("start"@) is Number && d.at("record_start"@) is Number
            &&& d.at("cluster"@) == nodes[0].at("cluster"@)
            &&& d.at("timeline"@) == node.at("timeline"@)
            &&& d.at("end"@) == JsonView::Number(s.end)
            &&& nodes[0].at("start"@)->Number_0 <= start <= rec < s.end <= start + 67108864
            &&& s.owner + 1 < nodes.len() ==> nodes[s.owner + 1].at("end"@)->Number_0 <= start
            &&& node.at("end"@) == JsonView::Number(s.end) ==> d.at("record_start"@) == node.at(
                "record_start"@,
            )
            &&& s.chain.len() == 0 ==> d.at("record_start"@) == nodes[0].at("record_start"@)
            &&& s.tail == info.at("anchor"@) ==> d.at("end"@) == info.at("seed_end"@) && d.at(
                "record_start"@,
            ) == info.at("seed_record_start"@) && d.at("timeline"@) == info.at("timeline"@)
        },
        chain_step(nodes, info, s, d) matches Ok(n) ==> {
            &&& n.tail == d.at("previous"@)
            &&& JsonView::Number(n.end) == d.at("start"@)
            &&& n.owner == s.owner
            &&& n.anchored == (s.anchored || s.tail == info.at("anchor"@))
            &&& n.chain.len() == s.chain.len() + 1
            &&& n.chain.last() == d
            &&& forall|i: int| 0 <= i < s.chain.len() ==> #[trigger] n.chain[i] == s.chain[i]
        },
{
    assert(usable(nodes[0]));
    assert(usable(nodes[s.owner]));
    if s.owner + 1 < nodes.len() {
        assert(usable(nodes[s.owner + 1]));
    }
}

/// A walk has the whole history exactly where it met the backup's anchor, stands where the archive
/// starts, and has come to the oldest timeline.
pub proof fn lemma_walk_is_complete(nodes: Seq<JsonView>, s: ChainView)
    requires
        nodes.len() > 0,
        nodes[0].at("start"@) is Number,
    ensures
        chain_end_fault(nodes, s) is None <==> s.anchored && nodes[0].at("start"@)
            == JsonView::Number(s.end) && s.owner == nodes.len() - 1,
{
}

/// A descriptor lies within the log of head `o`: on its timeline, behind the end of the head before
/// and not behind its own.
pub open spec fn lies_in(nodes: Seq<JsonView>, d: JsonView, o: int) -> bool {
    &&& 0 <= o < nodes.len()
    &&& d.at("timeline"@) == nodes[o].at("timeline"@)
    &&& d.at("cluster"@) == nodes[0].at("cluster"@)
    &&& d.at("start"@) is Number && d.at("end"@) is Number
    &&& d.at("end"@)->Number_0 <= nodes[o].at("end"@)->Number_0
    &&& o + 1 < nodes.len() ==> nodes[o + 1].at("end"@)->Number_0 <= d.at("start"@)->Number_0
}

/// A descriptor lies within the log of some head.
pub open spec fn keeps_to_one(nodes: Seq<JsonView>, d: JsonView) -> bool {
    exists|o: int| lies_in(nodes, d, o)
}

/// A walk stands within the log of the head that owns what comes next.
spec fn owned(nodes: Seq<JsonView>, s: ChainView) -> bool {
    &&& 0 <= s.owner < nodes.len()
    &&& s.end <= nodes[s.owner].at("end"@)->Number_0
    &&& s.owner + 1 < nodes.len() ==> nodes[s.owner + 1].at("end"@)->Number_0 <= s.end
}

proof fn lemma_step_owned(nodes: Seq<JsonView>, info: JsonView, s: ChainView, d: JsonView)
    requires
        forall|i: int| 0 <= i < nodes.len() ==> usable(#[trigger] nodes[i]),
        owned(nodes, s),
        chain_request(nodes, s) matches Ok(Some((o, _))) && chain_step(
            nodes,
            info,
            (ChainView { owner: o, ..s }),
            d,
        ) is Ok,
    ensures
        ({
            let (o, k) = chain_request(nodes, s)->Ok_0->0;
            &&& lies_in(nodes, d, o)
            &&& owned(nodes, chain_step(nodes, info, (ChainView { owner: o, ..s }), d)->Ok_0)
        }),
{
    let (o, k) = chain_request(nodes, s)->Ok_0->0;
    lemma_settles(nodes, s.tail, s.end, s.owner);
    assert(usable(nodes[o]));
    if o > s.owner {
        assert(nodes[o].at("end"@) == JsonView::Number(s.end));
    }
    lemma_descriptor_is_taken(nodes, info, (ChainView { owner: o, ..s }), d);
}

#[verifier::rlimit(40)]
proof fn lemma_walk_owned(nodes: Seq<JsonView>, info: JsonView, ds: Seq<JsonView>, i: int)
    requires
        descent(nodes),
        walked(nodes, info, ds) is Ok,
    ensures
        owned(nodes, walked(nodes, info, ds)->Ok_0),
        0 <= i < ds.len() ==> keeps_to_one(nodes, ds[i]),
    decreases ds.len(),
{
    if ds.len() == 0 {
        assert(usable(nodes[0]));
        if nodes.len() > 1 {
            assert(nodes[0].at("transition"@) != JsonView::Null);
            assert(forked_off(nodes[1], nodes[0]));
        }
    } else {
        let t = ds.drop_last();
        lemma_walk_owned(nodes, info, t, i);
        let s = walked(nodes, info, t)->Ok_0;
        assert(forall|j: int| 0 <= j < nodes.len() ==> usable(#[trigger] nodes[j]));
        lemma_step_owned(nodes, info, s, ds.last());
        if 0 <= i < t.len() {
            assert(t[i] == ds[i]);
        } else if i == t.len() {
            assert(ds[i] == ds.last());
        }
    }
}

/// No chunk of an accepted history mixes timelines: each belongs to the cluster and lies within the
/// log of one head, on that head's timeline, between the end of the head it was forked off and its
/// own end.
pub proof fn lemma_chunks_keep_to_their_timeline(
    nodes: Seq<JsonView>,
    info: JsonView,
    ds: Seq<JsonView>,
    i: int,
)
    requires
        descent(nodes),
        walked(nodes, info, ds) is Ok,
        0 <= i < ds.len(),
    ensures
        keeps_to_one(nodes, ds[i]),
{
    lemma_walk_owned(nodes, info, ds, i);
}

/// Each descriptor of a walk is the one whose address the descriptor before it names, the first the
/// one that the head names: the walk asks for no other.
pub proof fn lemma_walk_follows_addresses(nodes: Seq<JsonView>, info: JsonView, ds: Seq<JsonView>)
    requires
        walked(nodes, info, ds) is Ok,
    ensures
        ({
            let s = walked(nodes, info, ds)->Ok_0;
            &&& s.tail == (if ds.len() == 0 {
                nodes[0].at("tail"@)
            } else {
                ds.last().at("previous"@)
            })
            &&& chain_request(nodes, s) matches Ok(Some((o, k))) ==> s.tail == JsonView::Text(k)
                && ds.len() < 10000
            &&& chain_request(nodes, s) matches Ok(None) ==> s.tail == JsonView::Null
            &&& s.chain == ds
        }),
    decreases ds.len(),
{
    if ds.len() > 0 {
        lemma_walk_follows_addresses(nodes, info, ds.drop_last());
        let s = walked(nodes, info, ds)->Ok_0;
        assert(s.chain =~= ds);
        assert(MAX_CHUNKS == 10000);
    }
}

} // verus!
