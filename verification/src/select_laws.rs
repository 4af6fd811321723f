//! What a new archive and a renewed one can be restored from, and what is never retired.
use crate::archive::{head_fault, heads_of, num_of};
use crate::create::Founding;
use crate::json::{find, lemma_set_then_get, JsonView};
use crate::publish::{backup_of, empty_object, root_head};
use crate::renewal::retirable;
use crate::restore::{backup_fault, eligible, seed_fault};
use crate::select::{generation_of, retired_list, selection_fault, Selection};
use crate::http::is_owned;
use crate::manifest_text::body_of;
use crate::wire::digest_of;
use vstd::prelude::*;

verus! {

/// An object with these fields, set one after another.
spec fn built(fields: Seq<(Seq<char>, JsonView)>) -> JsonView
    decreases fields.len(),
{
    if fields.len() == 0 {
        empty_object()
    } else {
        built(fields.drop_last()).with(fields.last().0, fields.last().1)
    }
}

/// No name occurs twice.
spec fn distinct(fields: Seq<(Seq<char>, JsonView)>) -> bool {
    forall|i: int, j: int|
        0 <= i < j < fields.len() ==> (#[trigger] fields[i]).0 != (#[trigger] fields[j]).0
}

proof fn lemma_built(fields: Seq<(Seq<char>, JsonView)>, k: Seq<char>)
    requires
        distinct(fields),
    ensures
        built(fields) is Object,
        forall|i: int|
            0 <= i < fields.len() && (#[trigger] fields[i]).0 == k ==> built(fields).at(k)
                == fields[i].1,
        (forall|i: int| 0 <= i < fields.len() ==> (#[trigger] fields[i]).0 != k) ==> built(
            fields,
        ).at(k) == JsonView::Null,
    decreases fields.len(),
{
    if fields.len() == 0 {
        assert(find(empty_object()->Object_0, k) is None);
    } else {
        let head = fields.drop_last();
        assert(distinct(head)) by {
            assert forall|i: int, j: int| 0 <= i < j < head.len() implies (#[trigger] head[i]).0
                != (#[trigger] head[j]).0 by {
                assert(head[i] == fields[i] && head[j] == fields[j]);
            }
        }
        lemma_built(head, k);
        lemma_set_then_get(built(head), fields.last().0, fields.last().1, k);
        assert forall|i: int|
            0 <= i < fields.len() && (#[trigger] fields[i]).0 == k implies built(fields).at(k)
            == fields[i].1 by {
            if i < head.len() {
                assert(head[i] == fields[i]);
                assert(fields[i].0 != fields[fields.len() - 1].0);
            }
        }
        if forall|i: int| 0 <= i < fields.len() ==> (#[trigger] fields[i]).0 != k {
            assert(fields[fields.len() - 1].0 != k);
            assert forall|i: int| 0 <= i < head.len() implies (#[trigger] head[i]).0 != k by {
                assert(head[i] == fields[i]);
            }
        }
    }
}

/// How long a name is, how it begins and how it ends: enough to tell names apart.
spec fn mark(s: Seq<char>) -> (nat, char, char) {
    (s.len(), s[0], s.last())
}

proof fn lemma_marks()
    ensures
        mark("anchor"@) == (6nat, 'a', 'r'),
        mark("archive_start"@) == (13nat, 'a', 't'),
        mark("cluster"@) == (7nat, 'c', 'r'),
        mark("end"@) == (3nat, 'e', 'd'),
        mark("image"@) == (5nat, 'i', 'e'),
        mark("manifest"@) == (8nat, 'm', 't'),
        mark("root_history"@) == (12nat, 'r', 'y'),
        mark("seed_end"@) == (8nat, 's', 'd'),
        mark("seed_record_start"@) == (17nat, 's', 't'),
        mark("start"@) == (5nat, 's', 't'),
        mark("timeline"@) == (8nat, 't', 'e'),
        mark("version"@) == (7nat, 'v', 'n'),
        mark("parent"@) == (6nat, 'p', 't'),
        mark("backup"@) == (6nat, 'b', 'p'),
        mark("epoch"@) == (5nat, 'e', 'h'),
        mark("record_start"@) == (12nat, 'r', 't'),
        mark("revision"@) == (8nat, 'r', 'n'),
        mark("tail"@) == (4nat, 't', 'l'),
        mark("transition"@) == (10nat, 't', 'n'),
        mark("garbage"@) == (7nat, 'g', 'e'),
        mark("generation"@) == (10nat, 'g', 'n'),
{
    reveal_strlit("anchor");
    reveal_strlit("archive_start");
    reveal_strlit("cluster");
    reveal_strlit("end");
    reveal_strlit("image");
    reveal_strlit("manifest");
    reveal_strlit("root_history");
    reveal_strlit("seed_end");
    reveal_strlit("seed_record_start");
    reveal_strlit("start");
    reveal_strlit("timeline");
    reveal_strlit("version");
    reveal_strlit("parent");
    reveal_strlit("backup");
    reveal_strlit("epoch");
    reveal_strlit("record_start");
    reveal_strlit("revision");
    reveal_strlit("tail");
    reveal_strlit("transition");
    reveal_strlit("garbage");
    reveal_strlit("generation");
}

/// What the fields of a backup are.
pub proof fn lemma_backup_fields(
    cluster: JsonView,
    timeline: u32,
    start: u64,
    end: u64,
    manifest: Seq<char>,
    image: Seq<char>,
    archive_start: u64,
    seed_end: u64,
    seed_record_start: u64,
    anchor: JsonView,
    root_history: JsonView,
)
    ensures
        ({
            let b = backup_of(
                cluster,
                timeline,
                start,
                end,
                manifest,
                image,
                archive_start,
                seed_end,
                seed_record_start,
                anchor,
                root_history,
            );
            &&& b.at("parent"@) == JsonView::Null
            &&& b.at("anchor"@) == anchor
            &&& b.at("archive_start"@) == JsonView::Number(archive_start)
            &&& b.at("cluster"@) == cluster
            &&& b.at("end"@) == JsonView::Number(end)
            &&& b.at("image"@) == JsonView::Text(image)
            &&& b.at("manifest"@) == JsonView::Text(manifest)
            &&& b.at("root_history"@) == root_history
            &&& b.at("seed_end"@) == JsonView::Number(seed_end)
            &&& b.at("seed_record_start"@) == JsonView::Number(seed_record_start)
            &&& b.at("start"@) == JsonView::Number(start)
            &&& b.at("timeline"@) == JsonView::Number(timeline as u64)
            &&& b.at("version"@) == JsonView::Number(2)
        }),
{
    let f = seq![
        ("anchor"@, anchor),
        ("archive_start"@, JsonView::Number(archive_start)),
        ("cluster"@, cluster),
        ("end"@, JsonView::Number(end)),
        ("image"@, JsonView::Text(image)),
        ("manifest"@, JsonView::Text(manifest)),
        ("root_history"@, root_history),
        ("seed_end"@, JsonView::Number(seed_end)),
        ("seed_record_start"@, JsonView::Number(seed_record_start)),
        ("start"@, JsonView::Number(start)),
        ("timeline"@, JsonView::Number(timeline as u64)),
        ("version"@, JsonView::Number(2)),
    ];
    lemma_marks();
    assert(distinct(f)) by {
        assert forall|i: int, j: int| 0 <= i < j < f.len() implies (#[trigger] f[i]).0 != (
        #[trigger] f[j]).0 by {
            assert(mark(f[i].0) != mark(f[j].0));
        }
    }
    let b = backup_of(
        cluster,
        timeline,
        start,
        end,
        manifest,
        image,
        archive_start,
        seed_end,
        seed_record_start,
        anchor,
        root_history,
    );
    assert(b == built(f)) by {
        lemma_takes(f);
    }
    assert forall|i: int| 0 <= i < f.len() implies b.at((#[trigger] f[i]).0) == f[i].1 by {
        lemma_built(f, f[i].0);
    }
    assert(f[0] == ("anchor"@, anchor));
    assert(f[1].0 == "archive_start"@);
    assert(f[2].0 == "cluster"@);
    assert(f[3].0 == "end"@);
    assert(f[4].0 == "image"@);
    assert(f[5].0 == "manifest"@);
    assert(f[6].0 == "root_history"@);
    assert(f[7].0 == "seed_end"@);
    assert(f[8].0 == "seed_record_start"@);
    assert(f[9].0 == "start"@);
    assert(f[10].0 == "timeline"@);
    assert(f[11].0 == "version"@);
    assert(b.at("parent"@) == JsonView::Null) by {
        assert forall|i: int| 0 <= i < f.len() implies (#[trigger] f[i]).0 != "parent"@ by {
            assert(mark(f[i].0) != mark("parent"@));
        }
        lemma_built(f, "parent"@);
    }
}

/// Building up to field `n` is building up to the one before and setting one more.
proof fn lemma_takes(f: Seq<(Seq<char>, JsonView)>)
    ensures
        built(f.take(0)) == empty_object(),
        forall|n: int|
            0 < n <= f.len() ==> built(#[trigger] f.take(n)) == built(f.take(n - 1)).with(
                f[n - 1].0,
                f[n - 1].1,
            ),
        f.take(f.len() as int) == f,
{
    assert forall|n: int| 0 < n <= f.len() implies built(#[trigger] f.take(n)) == built(
        f.take(n - 1),
    ).with(f[n - 1].0, f[n - 1].1) by {
        assert(f.take(n).drop_last() =~= f.take(n - 1));
    }
    assert(f.take(f.len() as int) =~= f);
}

/// `h` has the fields of a root head.
spec fn is_root(
    h: JsonView,
    cluster: JsonView,
    timeline: JsonView,
    start: u64,
    end: u64,
    record: u64,
    epoch: JsonView,
    revision: Seq<char>,
) -> bool {
    &&& h is Object
    &&& h.at("transition"@) == JsonView::Null
    &&& h.at("cluster"@) == cluster
    &&& h.at("end"@) == JsonView::Number(end)
    &&& h.at("epoch"@) == epoch
    &&& h.at("record_start"@) == JsonView::Number(record)
    &&& h.at("revision"@) == JsonView::Text(revision)
    &&& h.at("start"@) == JsonView::Number(start)
    &&& h.at("timeline"@) == timeline
    &&& h.at("version"@) == JsonView::Number(2)
}

proof fn lemma_root_fields(
    cluster: JsonView,
    timeline: JsonView,
    start: u64,
    end: u64,
    record: u64,
    tail: JsonView,
    backup: Seq<char>,
    epoch: JsonView,
    revision: Seq<char>,
)
    ensures
        is_root(
            root_head(cluster, timeline, start, end, record, tail, backup, epoch, revision),
            cluster,
            timeline,
            start,
            end,
            record,
            epoch,
            revision,
        ),
{
    let f = seq![
        ("backup"@, JsonView::Text(backup)),
        ("cluster"@, cluster),
        ("end"@, JsonView::Number(end)),
        ("epoch"@, epoch),
        ("record_start"@, JsonView::Number(record)),
        ("revision"@, JsonView::Text(revision)),
        ("start"@, JsonView::Number(start)),
        ("tail"@, tail),
        ("timeline"@, timeline),
        ("version"@, JsonView::Number(2)),
    ];
    lemma_marks();
    assert(distinct(f)) by {
        assert forall|i: int, j: int| 0 <= i < j < f.len() implies (#[trigger] f[i]).0 != (
        #[trigger] f[j]).0 by {
            assert(mark(f[i].0) != mark(f[j].0));
        }
    }
    let h = root_head(cluster, timeline, start, end, record, tail, backup, epoch, revision);
    assert(h == built(f)) by {
        lemma_takes(f);
    }
    assert forall|i: int| 0 <= i < f.len() implies h.at((#[trigger] f[i]).0) == f[i].1 by {
        lemma_built(f, f[i].0);
    }
    assert(f[1].0 == "cluster"@);
    assert(f[2].0 == "end"@);
    assert(f[3].0 == "epoch"@);
    assert(f[4].0 == "record_start"@);
    assert(f[5].0 == "revision"@);
    assert(f[6].0 == "start"@);
    assert(f[8].0 == "timeline"@);
    assert(f[9].0 == "version"@);
    assert forall|i: int| 0 <= i < f.len() implies (#[trigger] f[i]).0 != "transition"@ by {
        assert(mark(f[i].0) != mark("transition"@));
    }
    lemma_built(f, "transition"@);
}

/// Setting the two fields that a renewal adds keeps those of a root head.
proof fn lemma_root_renewed(
    h: JsonView,
    garbage: JsonView,
    generation: JsonView,
    cluster: JsonView,
    timeline: JsonView,
    start: u64,
    end: u64,
    record: u64,
    epoch: JsonView,
    revision: Seq<char>,
)
    requires
        is_root(h, cluster, timeline, start, end, record, epoch, revision),
    ensures
        is_root(
            h.with("garbage"@, garbage).with("generation"@, generation),
            cluster,
            timeline,
            start,
            end,
            record,
            epoch,
            revision,
        ),
        h.with("garbage"@, garbage).with("generation"@, generation).at("garbage"@) == garbage,
{
    lemma_marks();
    let g = h.with("garbage"@, garbage);
    lemma_keeps_root(h, "garbage"@, garbage, cluster, timeline, start, end, record, epoch, revision);
    lemma_keeps_root(
        g,
        "generation"@,
        generation,
        cluster,
        timeline,
        start,
        end,
        record,
        epoch,
        revision,
    );
    lemma_set_then_get(h, "garbage"@, garbage, "end"@);
    lemma_set_then_get(g, "generation"@, generation, "garbage"@);
    assert(mark("garbage"@) != mark("generation"@));
}

proof fn lemma_keeps_root(
    h: JsonView,
    k: Seq<char>,
    x: JsonView,
    cluster: JsonView,
    timeline: JsonView,
    start: u64,
    end: u64,
    record: u64,
    epoch: JsonView,
    revision: Seq<char>,
)
    requires
        is_root(h, cluster, timeline, start, end, record, epoch, revision),
        mark(k).1 == 'g',
    ensures
        is_root(h.with(k, x), cluster, timeline, start, end, record, epoch, revision),
{
    lemma_marks();
    lemma_set_then_get(h, k, x, "transition"@);
    lemma_set_then_get(h, k, x, "cluster"@);
    lemma_set_then_get(h, k, x, "end"@);
    lemma_set_then_get(h, k, x, "epoch"@);
    lemma_set_then_get(h, k, x, "record_start"@);
    lemma_set_then_get(h, k, x, "revision"@);
    lemma_set_then_get(h, k, x, "start"@);
    lemma_set_then_get(h, k, x, "timeline"@);
    lemma_set_then_get(h, k, x, "version"@);
}

/// The head that an archive is founded or renewed with says where its log begins and ends, where its
/// last record begins, which descriptor is its last, and which backup it starts from.
pub proof fn lemma_root_head_fields(
    cluster: JsonView,
    timeline: JsonView,
    start: u64,
    end: u64,
    record: u64,
    tail: JsonView,
    backup: Seq<char>,
    epoch: JsonView,
    revision: Seq<char>,
)
    ensures
        ({
            let h = root_head(cluster, timeline, start, end, record, tail, backup, epoch, revision);
            &&& h is Object
            &&& h.at("version"@) == JsonView::Number(2)
            &&& h.at("cluster"@) == cluster
            &&& h.at("timeline"@) == timeline
            &&& h.at("start"@) == JsonView::Number(start)
            &&& h.at("end"@) == JsonView::Number(end)
            &&& h.at("record_start"@) == JsonView::Number(record)
            &&& h.at("tail"@) == tail
            &&& h.at("backup"@) == JsonView::Text(backup)
            &&& h.at("epoch"@) == epoch
            &&& h.at("revision"@) == JsonView::Text(revision)
            &&& h.at("transition"@) == JsonView::Null
        }),
{
    lemma_root_fields(cluster, timeline, start, end, record, tail, backup, epoch, revision);
    let f = seq![
        ("backup"@, JsonView::Text(backup)),
        ("cluster"@, cluster),
        ("end"@, JsonView::Number(end)),
        ("epoch"@, epoch),
        ("record_start"@, JsonView::Number(record)),
        ("revision"@, JsonView::Text(revision)),
        ("start"@, JsonView::Number(start)),
        ("tail"@, tail),
        ("timeline"@, timeline),
        ("version"@, JsonView::Number(2)),
    ];
    lemma_marks();
    assert(distinct(f)) by {
        assert forall|i: int, j: int| 0 <= i < j < f.len() implies (#[trigger] f[i]).0 != (
        #[trigger] f[j]).0 by {
            assert(mark(f[i].0) != mark(f[j].0));
        }
    }
    let h = root_head(cluster, timeline, start, end, record, tail, backup, epoch, revision);
    assert(h == built(f)) by {
        lemma_takes(f);
    }
    lemma_built(f, "backup"@);
    lemma_built(f, "tail"@);
    assert(f[0].0 == "backup"@ && f[7].0 == "tail"@);
}

/// The head of a selected archive: it begins where the snapshot's first segment does, ends where the
/// old head ended, names the last descriptor that was published anew, the backup and the journal of
/// what was retired, and counts one generation more.
pub proof fn lemma_selected_head_fields(
    s: Selection,
    head: JsonView,
    root: JsonView,
    revision: Seq<char>,
)
    ensures
        ({
            let h = s.selected_head(head, root, revision);
            &&& h.at("start"@) == JsonView::Number(s.base())
            &&& h.at("end"@) == JsonView::Number(s.frontier)
            &&& h.at("record_start"@) == JsonView::Number(s.record)
            &&& h.at("tail"@) == s.tail@
            &&& h.at("backup"@) == JsonView::Text(digest_of(body_of(s.info(head, root))))
            &&& h.at("timeline"@) == head.at("timeline"@)
            &&& h.at("cluster"@) == head.at("cluster"@)
            &&& h.at("epoch"@) == head.at("epoch"@)
            &&& h.at("garbage"@) == JsonView::Text(
                digest_of(
                    body_of(retired_list(s.old_objects.listed(), s.needed(head, root))),
                ),
            )
            &&& h.at("generation"@) == JsonView::Number((generation_of(head) + 1) as u64)
        }),
{
    let c = head.at("cluster"@);
    let t = head.at("timeline"@);
    let e = head.at("epoch"@);
    let backup = digest_of(body_of(s.info(head, root)));
    let gone = retired_list(s.old_objects.listed(), s.needed(head, root));
    let garbage = JsonView::Text(digest_of(body_of(gone)));
    let generation = JsonView::Number((generation_of(head) + 1) as u64);
    let h = root_head(c, t, s.base(), s.frontier, s.record, s.tail@, backup, e, revision);
    lemma_root_head_fields(c, t, s.base(), s.frontier, s.record, s.tail@, backup, e, revision);
    lemma_root_fields(c, t, s.base(), s.frontier, s.record, s.tail@, backup, e, revision);
    lemma_root_renewed(
        h,
        garbage,
        generation,
        c,
        t,
        s.base(),
        s.frontier,
        s.record,
        e,
        revision,
    );
    lemma_marks();
    let g = h.with("garbage"@, garbage);
    assert(mark("garbage"@) != mark("tail"@) && mark("garbage"@) != mark("backup"@));
    assert(mark("generation"@) != mark("tail"@) && mark("generation"@) != mark("backup"@));
    lemma_set_then_get(h, "garbage"@, garbage, "tail"@);
    lemma_set_then_get(h, "garbage"@, garbage, "backup"@);
    lemma_set_then_get(g, "generation"@, generation, "tail"@);
    lemma_set_then_get(g, "generation"@, generation, "backup"@);
    lemma_set_then_get(g, "generation"@, generation, "generation"@);
}

/// A root head and its backup stand the checks that a restore makes of them.
proof fn lemma_restorable(
    h: JsonView,
    cluster: Seq<char>,
    timeline: u32,
    start: u64,
    end: u64,
    manifest: Seq<char>,
    image: Seq<char>,
    base: u64,
    seed_end: u64,
    record: u64,
    tail: JsonView,
    root: JsonView,
    epoch: Seq<char>,
    revision: Seq<char>,
)
    requires
        is_root(
            h,
            JsonView::Text(cluster),
            JsonView::Number(timeline as u64),
            base,
            seed_end,
            record,
            JsonView::Text(epoch),
            revision,
        ),
        timeline > 0,
        0 < base <= start < end <= seed_end,
        start <= record < seed_end,
        if timeline > 1 {
            root is Text
        } else {
            root is Null
        },
    ensures
        heads_of(h) == Ok::<Seq<JsonView>, Seq<char>>(seq![h]),
        eligible(
            h,
            h,
            backup_of(
                JsonView::Text(cluster),
                timeline,
                start,
                end,
                manifest,
                image,
                base,
                seed_end,
                record,
                tail,
                root,
            ),
        ) == Ok::<Option<Seq<char>>, Seq<char>>(
            match root {
                JsonView::Text(k) => Some(k),
                _ => None,
            },
        ),
{
    lemma_backup_fields(
        JsonView::Text(cluster),
        timeline,
        start,
        end,
        manifest,
        image,
        base,
        seed_end,
        record,
        tail,
        root,
    );
    let info = backup_of(
        JsonView::Text(cluster),
        timeline,
        start,
        end,
        manifest,
        image,
        base,
        seed_end,
        record,
        tail,
        root,
    );
    assert(head_fault(h) is None);
    assert(seed_fault(h, info, start, end, seed_end) is None);
    assert(backup_fault(h, h, info) is None);
}

/// A new archive can be restored: its head stands alone and stands up to the checks of a
/// restore, and its backup is eligible for it.
pub proof fn lemma_founded_is_restorable(
    f: Founding,
    record: u64,
    end: u64,
    tail: Seq<char>,
    epoch: Seq<char>,
    revision: Seq<char>,
)
    requires
        f.segment > 0,
        f.timeline == 1,
        0 < f.base(),
        f.start < f.end <= end,
        f.start <= record < end,
    ensures
        ({
            let info = f.first_backup(record, end, tail);
            let h = root_head(
                f.cluster(),
                JsonView::Number(f.timeline as u64),
                f.base(),
                end,
                record,
                JsonView::Text(tail),
                digest_of(body_of(info)),
                JsonView::Text(epoch),
                revision,
            );
            &&& heads_of(h) == Ok::<Seq<JsonView>, Seq<char>>(seq![h])
            &&& eligible(h, h, info) == Ok::<Option<Seq<char>>, Seq<char>>(None)
        }),
{
    let c = f.cluster();
    let t = JsonView::Number(f.timeline as u64);
    let e = JsonView::Text(epoch);
    let l = JsonView::Text(tail);
    let backup = digest_of(body_of(f.first_backup(record, end, tail)));
    lemma_root_fields(c, t, f.base(), end, record, l, backup, e, revision);
    vstd::arithmetic::div_mod::lemma_mod_bound(f.start as int, f.segment as int);
    vstd::arithmetic::div_mod::lemma_mod_decreases(f.start as nat, f.segment as nat);
    lemma_restorable(
        root_head(c, t, f.base(), end, record, l, backup, e, revision),
        c->Text_0,
        f.timeline,
        f.start,
        f.end,
        f.manifest@,
        f.image@,
        f.base(),
        end,
        record,
        l,
        JsonView::Null,
        epoch,
        revision,
    );
}

/// A renewed archive can be restored: where a snapshot may be selected for a sound head and
/// the last record is behind its start, the head of the selected archive stands alone and
/// stands up to the checks of a restore, and its backup is eligible for it.
pub proof fn lemma_selected_is_restorable(
    s: Selection,
    head: JsonView,
    root: JsonView,
    revision: Seq<char>,
)
    requires
        s.segment > 0,
        head_fault(head) is None,
        selection_fault(head, s.timeline, s.start, s.end) is None,
        num_of(head, "end"@) == Ok::<u64, Seq<char>>(s.frontier),
        0 < s.base(),
        s.start < s.end,
        s.start <= s.record < s.frontier,
        if s.timeline > 1 {
            root is Text
        } else {
            root is Null
        },
    ensures
        ({
            let h = s.selected_head(head, root, revision);
            &&& heads_of(h) == Ok::<Seq<JsonView>, Seq<char>>(seq![h])
            &&& eligible(h, h, s.info(head, root)) == Ok::<Option<Seq<char>>, Seq<char>>(
                match root {
                    JsonView::Text(k) => Some(k),
                    _ => None,
                },
            )
        }),
{
    let c = head.at("cluster"@);
    let t = head.at("timeline"@);
    let e = head.at("epoch"@);
    assert(c is Text && e is Text && t == JsonView::Number(s.timeline as u64));
    let backup = digest_of(body_of(s.info(head, root)));
    let gone = retired_list(s.old_objects.listed(), s.needed(head, root));
    let h = root_head(c, t, s.base(), s.frontier, s.record, s.tail@, backup, e, revision);
    lemma_root_fields(c, t, s.base(), s.frontier, s.record, s.tail@, backup, e, revision);
    lemma_root_renewed(
        h,
        JsonView::Text(digest_of(body_of(gone))),
        JsonView::Number((generation_of(head) + 1) as u64),
        c,
        t,
        s.base(),
        s.frontier,
        s.record,
        e,
        revision,
    );
    vstd::arithmetic::div_mod::lemma_mod_bound(s.start as int, s.segment as int);
    vstd::arithmetic::div_mod::lemma_mod_decreases(s.start as nat, s.segment as nat);
    assert(s.base() <= s.start);
    lemma_restorable(
        s.selected_head(head, root, revision),
        c->Text_0,
        s.timeline,
        s.start,
        s.end,
        s.manifest@,
        s.image@,
        s.base(),
        s.frontier,
        s.record,
        s.tail@,
        root,
        e->Text_0,
        revision,
    );
}

/// Nothing that the selected archive needs is retired: the journal holds just what was needed
/// before and is not any more, and where that was content-addressed, a check of the journal
/// against what is needed accepts it.
pub proof fn lemma_needed_is_not_retired(s: Selection, head: JsonView, root: JsonView)
    requires
        forall|k: Seq<char>| #[trigger] s.old_objects.listed().contains(k) ==> is_owned(k),
    ensures
        ({
            let live = s.needed(head, root);
            let gone = s.old_objects.listed().filter(|k: Seq<char>| !live.contains(k));
            &&& retirable(gone, live)
            &&& forall|k: Seq<char>| #[trigger]
                gone.contains(k) <==> s.old_objects.listed().contains(k) && !live.contains(k)
        }),
{
    let live = s.needed(head, root);
    let all = s.old_objects.listed();
    let keep = |k: Seq<char>| !live.contains(k);
    let gone = all.filter(keep);
    assert forall|i: int| 0 <= i < gone.len() implies is_owned(#[trigger] gone[i])
        && !live.contains(gone[i]) by {
        all.lemma_filter_pred(keep, i);
        assert(gone.contains(gone[i]));
        all.lemma_filter_contains_rev(keep, gone[i]);
    }
    assert forall|k: Seq<char>| #[trigger]
        gone.contains(k) <==> all.contains(k) && !live.contains(k) by {
        if gone.contains(k) {
            let i = choose|i: int| 0 <= i < gone.len() && gone[i] == k;
            all.lemma_filter_pred(keep, i);
            all.lemma_filter_contains_rev(keep, k);
        }
        if all.contains(k) && keep(k) {
            let i = choose|i: int| 0 <= i < all.len() && all[i] == k;
            all.lemma_filter_contains(keep, i);
        }
    }
}

} // verus!
