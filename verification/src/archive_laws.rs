//! What publishing keeps true of an archive.
use crate::archive::{
    head_fault, heads_from, heads_of, lemma_heads_fields, num_of, parent_fault, parent_of,
};
use crate::json::{lemma_set_then_get, JsonView};
use crate::publish::{
    advanced_head, descriptor_of, empty_object, forked_head, publication_end, transition_of,
};
use crate::restore::{chain_request, chain_step, discontinuous, settled, ChainView};
use vstd::prelude::*;

verus! {

/// The names of fields are different from one another.
proof fn lemma_names()
    ensures
        forall|i: int, j: int| 0 <= i < j < 16 ==> #[trigger] names()[i] != #[trigger] names()[j],
{
    reveal_strlit("version");
    reveal_strlit("timeline");
    reveal_strlit("start");
    reveal_strlit("end");
    reveal_strlit("cluster");
    reveal_strlit("epoch");
    reveal_strlit("revision");
    reveal_strlit("transition");
    reveal_strlit("backup");
    reveal_strlit("tail");
    reveal_strlit("record_start");
    reveal_strlit("fork");
    reveal_strlit("parent");
    reveal_strlit("history");
    reveal_strlit("chunk");
    reveal_strlit("previous");
    let mark = |s: Seq<char>| (s.len(), s[0]);
    assert(mark(names()[0]) == (7nat, 'v'));
    assert(mark(names()[1]) == (8nat, 't'));
    assert(mark(names()[2]) == (5nat, 's'));
    assert(mark(names()[3]) == (3nat, 'e'));
    assert(mark(names()[4]) == (7nat, 'c'));
    assert(mark(names()[5]) == (5nat, 'e'));
    assert(mark(names()[6]) == (8nat, 'r'));
    assert(mark(names()[7]) == (10nat, 't'));
    assert(mark(names()[8]) == (6nat, 'b'));
    assert(mark(names()[9]) == (4nat, 't'));
    assert(mark(names()[10]) == (12nat, 'r'));
    assert(mark(names()[11]) == (4nat, 'f'));
    assert(mark(names()[12]) == (6nat, 'p'));
    assert(mark(names()[13]) == (7nat, 'h'));
    assert(mark(names()[14]) == (5nat, 'c'));
    assert(mark(names()[15]) == (8nat, 'p'));
    assert forall|i: int, j: int| 0 <= i < j < 16 implies #[trigger] names()[i] != #[trigger] names()[j] by {
        assert(mark(names()[i]) != mark(names()[j]));
    }
}

spec fn names() -> Seq<Seq<char>> {
    seq![
        "version"@,
        "timeline"@,
        "start"@,
        "end"@,
        "cluster"@,
        "epoch"@,
        "revision"@,
        "transition"@,
        "backup"@,
        "tail"@,
        "record_start"@,
        "fork"@,
        "parent"@,
        "history"@,
        "chunk"@,
        "previous"@,
    ]
}

/// Setting field `a` of an object leaves field `b`.
proof fn lemma_keeps(v: JsonView, a: int, x: JsonView, b: int)
    requires
        v is Object,
        0 <= a < 16,
        0 <= b < 16,
    ensures
        v.with(names()[a], x) is Object,
        a == b ==> v.with(names()[a], x).at(names()[b]) == x,
        a != b ==> v.with(names()[a], x).at(names()[b]) == v.at(names()[b]),
{
    lemma_names();
    lemma_set_then_get(v, names()[a], x, names()[b]);
}

/// What field `i` of an advanced head is.
proof fn lemma_advanced_field(
    head: JsonView,
    end: u64,
    record: u64,
    tail: Seq<char>,
    revision: Seq<char>,
    i: int,
)
    requires
        head is Object,
        0 <= i < 16,
    ensures
        advanced_head(head, end, record, tail, revision) is Object,
        advanced_head(head, end, record, tail, revision).at(names()[i]) == (if i == 3 {
            JsonView::Number(end)
        } else if i == 10 {
            JsonView::Number(record)
        } else if i == 9 {
            JsonView::Text(tail)
        } else if i == 6 {
            JsonView::Text(revision)
        } else {
            head.at(names()[i])
        }),
{
    let a = head.with(names()[3], JsonView::Number(end));
    let b = a.with(names()[10], JsonView::Number(record));
    let c = b.with(names()[9], JsonView::Text(tail));
    lemma_keeps(head, 3, JsonView::Number(end), i);
    lemma_keeps(a, 10, JsonView::Number(record), i);
    lemma_keeps(b, 9, JsonView::Text(tail), i);
    lemma_keeps(c, 6, JsonView::Text(revision), i);
    assert(names()[3] == "end"@ && names()[10] == "record_start"@ && names()[9] == "tail"@
        && names()[6] == "revision"@);
    assert(advanced_head(head, end, record, tail, revision) == c.with(
        names()[6],
        JsonView::Text(revision),
    ));
}

/// What the fields of an advanced head are.
pub proof fn lemma_advanced_fields(
    head: JsonView,
    end: u64,
    record: u64,
    tail: Seq<char>,
    revision: Seq<char>,
)
    requires
        head is Object,
    ensures
        ({
            let n = advanced_head(head, end, record, tail, revision);
            &&& n is Object
            &&& n.at("version"@) == head.at("version"@)
            &&& n.at("timeline"@) == head.at("timeline"@)
            &&& n.at("start"@) == head.at("start"@)
            &&& n.at("end"@) == JsonView::Number(end)
            &&& n.at("cluster"@) == head.at("cluster"@)
            &&& n.at("epoch"@) == head.at("epoch"@)
            &&& n.at("revision"@) == JsonView::Text(revision)
            &&& n.at("transition"@) == head.at("transition"@)
            &&& n.at("backup"@) == head.at("backup"@)
            &&& n.at("tail"@) == JsonView::Text(tail)
            &&& n.at("record_start"@) == JsonView::Number(record)
        }),
{
    assert forall|i: int| 0 <= i < 16 implies #[trigger] advanced_head(
        head,
        end,
        record,
        tail,
        revision,
    ).at(names()[i]) == (if i == 3 {
        JsonView::Number(end)
    } else if i == 10 {
        JsonView::Number(record)
    } else if i == 9 {
        JsonView::Text(tail)
    } else if i == 6 {
        JsonView::Text(revision)
    } else {
        head.at(names()[i])
    }) by {
        lemma_advanced_field(head, end, record, tail, revision, i);
    }
    lemma_advanced_field(head, end, record, tail, revision, 0);
    let n = advanced_head(head, end, record, tail, revision);
    assert(n.at(names()[0]) == head.at(names()[0]));
    assert(n.at(names()[1]) == head.at(names()[1]));
    assert(n.at(names()[2]) == head.at(names()[2]));
    assert(n.at(names()[3]) == JsonView::Number(end));
    assert(n.at(names()[4]) == head.at(names()[4]));
    assert(n.at(names()[5]) == head.at(names()[5]));
    assert(n.at(names()[6]) == JsonView::Text(revision));
    assert(n.at(names()[7]) == head.at(names()[7]));
    assert(n.at(names()[8]) == head.at(names()[8]));
    assert(n.at(names()[9]) == JsonView::Text(tail));
    assert(n.at(names()[10]) == JsonView::Number(record));
}

/// Publishing a chunk keeps an archive head valid: it descends from the same heads as before.
pub proof fn lemma_publishing_keeps_heads(
    head: JsonView,
    len: nat,
    record: u64,
    tail: Seq<char>,
    revision: Seq<char>,
)
    requires
        head is Object,
        heads_of(head) is Ok,
        publication_end(head, len, record) is Ok,
    ensures
        ({
            let end = publication_end(head, len, record)->Ok_0.1;
            let next = advanced_head(head, end, record, tail, revision);
            heads_of(next) == Ok::<Seq<JsonView>, Seq<char>>(
                heads_of(head)->Ok_0.update(0, next),
            )
        }),
{
    let end = publication_end(head, len, record)->Ok_0.1;
    let next = advanced_head(head, end, record, tail, revision);
    lemma_advanced_fields(head, end, record, tail, revision);
    lemma_heads_fields(head, 0, 0);
    assert(head_fault(next) is None);
    if head.at("transition"@) != JsonView::Null {
        let parent = parent_of(head);
        assert(parent_fault(parent, head) is None);
        assert(parent_fault(parent, next) is None);
        let rest = heads_from(parent, 1)->Ok_0;
        assert((seq![head] + rest).update(0, next) =~= seq![next] + rest);
    } else {
        assert(seq![head].update(0, next) =~= seq![next]);
    }
}

/// What the fields of a descriptor are.
pub proof fn lemma_descriptor_fields(
    cluster: JsonView,
    timeline: JsonView,
    start: u64,
    end: u64,
    record: u64,
    previous: JsonView,
    chunk: Seq<char>,
)
    ensures
        ({
            let d = descriptor_of(cluster, timeline, start, end, record, previous, chunk);
            &&& d.at("cluster"@) == cluster
            &&& d.at("timeline"@) == timeline
            &&& d.at("start"@) == JsonView::Number(start)
            &&& d.at("end"@) == JsonView::Number(end)
            &&& d.at("record_start"@) == JsonView::Number(record)
            &&& d.at("previous"@) == previous
            &&& d.at("chunk"@) == JsonView::Text(chunk)
        }),
{
    let v0 = empty_object();
    let v1 = v0.with(names()[14], JsonView::Text(chunk));
    let v2 = v1.with(names()[4], cluster);
    let v3 = v2.with(names()[3], JsonView::Number(end));
    let v4 = v3.with(names()[15], previous);
    let v5 = v4.with(names()[10], JsonView::Number(record));
    let v6 = v5.with(names()[2], JsonView::Number(start));
    let v7 = v6.with(names()[1], timeline);
    assert(v7 == descriptor_of(cluster, timeline, start, end, record, previous, chunk));
    assert forall|i: int| 0 <= i < 16 implies #[trigger] v7.at(names()[i]) == (if i == 1 {
        timeline
    } else if i == 2 {
        JsonView::Number(start)
    } else if i == 10 {
        JsonView::Number(record)
    } else if i == 15 {
        previous
    } else if i == 3 {
        JsonView::Number(end)
    } else if i == 4 {
        cluster
    } else if i == 14 {
        JsonView::Text(chunk)
    } else {
        v0.at(names()[i])
    }) by {
        lemma_keeps(v0, 14, JsonView::Text(chunk), i);
        lemma_keeps(v1, 4, cluster, i);
        lemma_keeps(v2, 3, JsonView::Number(end), i);
        lemma_keeps(v3, 15, previous, i);
        lemma_keeps(v4, 10, JsonView::Number(record), i);
        lemma_keeps(v5, 2, JsonView::Number(start), i);
        lemma_keeps(v6, 1, timeline, i);
    }
    assert(v7.at(names()[1]) == timeline);
    assert(v7.at(names()[2]) == JsonView::Number(start));
    assert(v7.at(names()[3]) == JsonView::Number(end));
    assert(v7.at(names()[4]) == cluster);
    assert(v7.at(names()[10]) == JsonView::Number(record));
    assert(v7.at(names()[14]) == JsonView::Text(chunk));
    assert(v7.at(names()[15]) == previous);
}

/// Walking back from a head that was just published reads the descriptor it was published
/// with, and then stands where the walk from the head before begins.
pub proof fn lemma_published_descriptor_is_accepted(
    head: JsonView,
    info: JsonView,
    len: nat,
    record: u64,
    chunk: Seq<char>,
    tail: Seq<char>,
    revision: Seq<char>,
)
    requires
        head is Object,
        heads_of(head) is Ok,
        publication_end(head, len, record) is Ok,
        info.at("anchor"@) != JsonView::Text(tail),
    ensures
        ({
            let (start, end) = publication_end(head, len, record)->Ok_0;
            let next = advanced_head(head, end, record, tail, revision);
            let nodes = heads_of(next)->Ok_0;
            let d = descriptor_of(
                head.at("cluster"@),
                head.at("timeline"@),
                start,
                end,
                record,
                head.at("tail"@),
                chunk,
            );
            let walk = ChainView {
                tail: next.at("tail"@),
                end,
                owner: 0,
                anchored: false,
                chain: Seq::empty(),
            };
            &&& chain_request(nodes, walk) == Ok::<Option<(int, Seq<char>)>, Seq<char>>(
                Some((0int, tail)),
            )
            &&& chain_step(nodes, info, walk, d) == Ok::<ChainView, Seq<char>>(
                ChainView {
                    tail: head.at("tail"@),
                    end: start,
                    owner: 0,
                    anchored: false,
                    chain: seq![d],
                },
            )
        }),
{
    let (start, end) = publication_end(head, len, record)->Ok_0;
    let next = advanced_head(head, end, record, tail, revision);
    lemma_publishing_keeps_heads(head, len, record, tail, revision);
    lemma_advanced_fields(head, end, record, tail, revision);
    lemma_descriptor_fields(
        head.at("cluster"@),
        head.at("timeline"@),
        start,
        end,
        record,
        head.at("tail"@),
        chunk,
    );
    let nodes = heads_of(next)->Ok_0;
    let old_nodes = heads_of(head)->Ok_0;
    lemma_heads_fields(head, 0, 0);
    assert(nodes[0] == next);
    if nodes.len() > 1 {
        assert(nodes[1] == old_nodes[1]);
        assert(parent_fault(nodes[1], head) is None);
    }
    let d = descriptor_of(
        head.at("cluster"@),
        head.at("timeline"@),
        start,
        end,
        record,
        head.at("tail"@),
        chunk,
    );
    let walk = ChainView {
        tail: next.at("tail"@),
        end,
        owner: 0,
        anchored: false,
        chain: Seq::empty(),
    };
    assert(settled(nodes, walk.tail, end, 0) == Ok::<int, Seq<char>>(0));
    assert(discontinuous(nodes, walk, d, start, record) == Ok::<bool, Seq<char>>(false));
    assert(walk.chain.push(d) =~= seq![d]);
}

/// A timeline that was forked off a head with log behind it descends from that head.
pub proof fn lemma_forking_keeps_heads(
    parent: JsonView,
    t: u32,
    key: Seq<char>,
    epoch: Seq<char>,
    revision: Seq<char>,
)
    requires
        parent is Object,
        heads_from(parent, 1) is Ok,
        num_of(parent, "timeline"@) matches Ok(pt) && pt < t,
        num_of(parent, "start"@) matches Ok(s) && num_of(parent, "end"@) matches Ok(e) && s < e,
        num_of(parent, "record_start"@) matches Ok(r) && num_of(parent, "start"@)->Ok_0 <= r
            < num_of(parent, "end"@)->Ok_0,
        parent.at("tail"@) != JsonView::Null,
    ensures
        ({
            let fork = num_of(parent, "end"@)->Ok_0;
            let child = forked_head(parent, t, key, fork, epoch, revision);
            heads_of(child) == Ok::<Seq<JsonView>, Seq<char>>(
                seq![child] + heads_from(parent, 1)->Ok_0,
            )
        }),
{
    let fork = num_of(parent, "end"@)->Ok_0;
    let tr = transition_of(parent, key, fork);
    let child = forked_head(parent, t, key, fork, epoch, revision);
    let a = parent.with(names()[1], JsonView::Number(t as u64));
    let b = a.with(names()[7], tr);
    let c = b.with(names()[5], JsonView::Text(epoch));
    let d = c.with(names()[6], JsonView::Text(revision));
    assert(child == d);
    assert forall|i: int| 0 <= i < 16 implies #[trigger] d.at(names()[i]) == (if i == 1 {
        JsonView::Number(t as u64)
    } else if i == 7 {
        tr
    } else if i == 5 {
        JsonView::Text(epoch)
    } else if i == 6 {
        JsonView::Text(revision)
    } else {
        parent.at(names()[i])
    }) by {
        lemma_keeps(parent, 1, JsonView::Number(t as u64), i);
        lemma_keeps(a, 7, tr, i);
        lemma_keeps(b, 5, JsonView::Text(epoch), i);
        lemma_keeps(c, 6, JsonView::Text(revision), i);
    }
    assert(d.at(names()[0]) == parent.at(names()[0]));
    assert(d.at(names()[1]) == JsonView::Number(t as u64));
    assert(d.at(names()[2]) == parent.at(names()[2]));
    assert(d.at(names()[3]) == parent.at(names()[3]));
    assert(d.at(names()[4]) == parent.at(names()[4]));
    assert(d.at(names()[5]) == JsonView::Text(epoch));
    assert(d.at(names()[6]) == JsonView::Text(revision));
    assert(d.at(names()[7]) == tr);
    assert(d.at(names()[8]) == parent.at(names()[8]));
    assert(d.at(names()[9]) == parent.at(names()[9]));
    assert(d.at(names()[10]) == parent.at(names()[10]));
    let t0 = empty_object();
    let t1 = t0.with(names()[11], JsonView::Number(fork));
    let t2 = t1.with(names()[13], JsonView::Text(key));
    let t3 = t2.with(names()[12], parent);
    assert(tr == t3);
    lemma_keeps(t0, 11, JsonView::Number(fork), 11);
    lemma_keeps(t1, 13, JsonView::Text(key), 11);
    lemma_keeps(t2, 12, parent, 11);
    lemma_keeps(t2, 12, parent, 12);
    assert(t3.at(names()[11]) == JsonView::Number(fork));
    assert(t3.at(names()[12]) == parent);
    assert(parent_of(child) == parent);
    lemma_heads_fields(parent, 1, 0);
    assert(head_fault(child) is None);
    assert(parent_fault(parent, child) is None);
}

} // verus!
