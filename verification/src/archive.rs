//! The archive of a log in an object store: a head that names the last descriptor, descriptors
//! that each name a chunk of log and the descriptor before, and a backup to start from.
use crate::json::{field, list_view, same_field, Json, JsonView};
use crate::lines::{number_value, parse_number, split_chars, split_on, split_words, texts_view, utf8, words};
use crate::refusal::{refuse, refuse_naming, seen, Refusal};
use crate::text::chars_of;
use crate::wire::{lsn, lsn_value};
use vstd::prelude::*;
use vstd::utf8::{decode_utf8, valid_utf8};

verus! {

/// The most chunks a history may have.
pub const MAX_CHUNKS: usize = 10000;

/// The most timelines a history may have.
pub const MAX_TIMELINES: usize = 32;

/// The most bytes of archive metadata that are read.
pub const MAX_METADATA: usize = 1048576;

/// The most log that one chunk holds.
pub const MAX_CHUNK: u64 = 67108864;

/// The integer in field `k`.
pub open spec fn num_of(v: JsonView, k: Seq<char>) -> Result<u64, Seq<char>> {
    match v.at(k) {
        JsonView::Number(n) => Ok(n),
        _ => Err("invalid archive integer: "@ + k),
    }
}

/// The string in field `k`.
pub open spec fn text_of(v: JsonView, k: Seq<char>) -> Result<Seq<char>, Seq<char>> {
    match v.at(k) {
        JsonView::Text(s) => Ok(s),
        _ => Err("invalid archive string: "@ + k),
    }
}

/// The integer in field `k`.
pub fn num(v: &Json, k: &str) -> (r: Result<u64, Refusal>)
    ensures
        seen(r) == num_of(v@, k@),
{
    let n: Option<u64> = match v.get(k) {
        Some(x) => x.as_u64(),
        None => None,
    };
    match n {
        Some(n) => Ok(n),
        None => Err(refuse_naming("invalid archive integer: ", k)),
    }
}

/// The string in field `k`.
pub fn text<'a>(v: &'a Json, k: &str) -> (r: Result<&'a str, Refusal>)
    ensures
        match r {
            Ok(s) => text_of(v@, k@) == Ok::<Seq<char>, Seq<char>>(s@),
            Err(e) => text_of(v@, k@) == Err::<Seq<char>, Seq<char>>(e@),
        },
{
    let s: Option<&'a str> = match v.get(k) {
        Some(x) => x.as_str(),
        None => None,
    };
    match s {
        Some(s) => Ok(s),
        None => Err(refuse_naming("invalid archive string: ", k)),
    }
}

/// Metadata is refused unread where there is too much of it.
pub fn check_metadata(bytes: &[u8]) -> (r: Result<(), Refusal>)
    ensures
        seen(r) == (if bytes@.len() > MAX_METADATA {
            Err("archive metadata limit exceeded"@)
        } else {
            Ok(())
        }),
{
    if bytes.len() > MAX_METADATA {
        Err(refuse("archive metadata limit exceeded"))
    } else {
        Ok(())
    }
}

pub open spec fn bad_head() -> Seq<char> {
    "unsupported or invalid archive head: version 2 flat snapshots are required"@
}

pub open spec fn bad_parent() -> Seq<char> {
    "invalid parent history binding"@
}

/// What is wrong with a head by itself.
pub open spec fn head_fault(c: JsonView) -> Option<Seq<char>> {
    match num_of(c, "version"@) {
        Err(e) => Some(e),
        Ok(version) => if version != 2 {
            Some(bad_head())
        } else {
            match num_of(c, "timeline"@) {
                Err(e) => Some(e),
                Ok(t) => if t == 0 || t > u32::MAX {
                    Some(bad_head())
                } else {
                    match num_of(c, "start"@) {
                        Err(e) => Some(e),
                        Ok(start) => if start == 0 {
                            Some(bad_head())
                        } else {
                            match num_of(c, "end"@) {
                                Err(e) => Some(e),
                                Ok(end) => if start > end {
                                    Some(bad_head())
                                } else {
                                    names_fault(c)
                                },
                            }
                        },
                    }
                },
            }
        },
    }
}

/// What is wrong with the names in a head.
pub open spec fn names_fault(c: JsonView) -> Option<Seq<char>> {
    match text_of(c, "cluster"@) {
        Err(e) => Some(e),
        Ok(_) => match text_of(c, "epoch"@) {
            Err(e) => Some(e),
            Ok(_) => match text_of(c, "revision"@) {
                Err(e) => Some(e),
                Ok(_) => None,
            },
        },
    }
}

fn check_head(c: &Json) -> (r: Result<(), Refusal>)
    ensures
        match r {
            Ok(_) => head_fault(c@) is None,
            Err(e) => head_fault(c@) == Some(e@),
        },
{
    let version: u64 = match num(c, "version") {
        Ok(n) => n,
        Err(e) => return Err(e),
    };
    let bad = "unsupported or invalid archive head: version 2 flat snapshots are required";
    if version != 2 {
        return Err(refuse(bad));
    }
    let t: u64 = match num(c, "timeline") {
        Ok(n) => n,
        Err(e) => return Err(e),
    };
    if t == 0 || t > 0xffff_ffff {
        return Err(refuse(bad));
    }
    let start: u64 = match num(c, "start") {
        Ok(n) => n,
        Err(e) => return Err(e),
    };
    if start == 0 {
        return Err(refuse(bad));
    }
    let end: u64 = match num(c, "end") {
        Ok(n) => n,
        Err(e) => return Err(e),
    };
    if start > end {
        return Err(refuse(bad));
    }
    match text(c, "cluster") {
        Ok(_) => {},
        Err(e) => return Err(e),
    }
    match text(c, "epoch") {
        Ok(_) => {},
        Err(e) => return Err(e),
    }
    match text(c, "revision") {
        Ok(_) => {},
        Err(e) => return Err(e),
    }
    Ok(())
}

/// The two heads agree on everything a child takes over from its parent.
pub open spec fn same_root(parent: JsonView, child: JsonView) -> bool {
    &&& parent.at("version"@) == child.at("version"@)
    &&& parent.at("backup"@) == child.at("backup"@)
    &&& parent.at("cluster"@) == child.at("cluster"@)
    &&& parent.at("start"@) == child.at("start"@)
}

/// What is wrong with the parent that `child` names.
pub open spec fn parent_fault(parent: JsonView, child: JsonView) -> Option<Seq<char>> {
    if !same_root(parent, child) {
        Some(bad_parent())
    } else {
        match (num_of(parent, "timeline"@), num_of(child, "timeline"@)) {
            (Err(e), _) => Some(e),
            (_, Err(e)) => Some(e),
            (Ok(pt), Ok(ct)) => if pt >= ct {
                Some(bad_parent())
            } else {
                match (num_of(parent, "end"@), num_of(child.at("transition"@), "fork"@)) {
                    (Err(e), _) => Some(e),
                    (_, Err(e)) => Some(e),
                    (Ok(pe), Ok(fork)) => if pe != fork {
                        Some(bad_parent())
                    } else {
                        match num_of(child, "end"@) {
                            Err(e) => Some(e),
                            Ok(ce) => if pe > ce {
                                Some(bad_parent())
                            } else {
                                match num_of(child, "start"@) {
                                    Err(e) => Some(e),
                                    Ok(cs) => if pe <= cs || parent.at("tail"@)
                                        == JsonView::Null {
                                        Some(bad_parent())
                                    } else {
                                        record_fault(parent, child)
                                    },
                                }
                            },
                        }
                    },
                }
            },
        }
    }
}

/// What is wrong with the last record that `parent` names.
pub open spec fn record_fault(parent: JsonView, child: JsonView) -> Option<Seq<char>> {
    match num_of(parent, "record_start"@) {
        Err(e) => Some(e),
        Ok(rec) => match num_of(parent, "start"@) {
            Err(e) => Some(e),
            Ok(ps) => if rec < ps {
                Some(bad_parent())
            } else {
                match num_of(parent, "end"@) {
                    Err(e) => Some(e),
                    Ok(pe) => if rec >= pe || (parent.at("end"@) == child.at("end"@) && (parent.at(
                        "tail"@,
                    ) != child.at("tail"@) || parent.at("record_start"@) != child.at(
                        "record_start"@,
                    ))) {
                        Some(bad_parent())
                    } else {
                        None
                    },
                }
            },
        },
    }
}

fn check_parent(parent: &Json, child: &Json, transition: &Json) -> (r: Result<(), Refusal>)
    requires
        transition@ == child@.at("transition"@),
    ensures
        match r {
            Ok(_) => parent_fault(parent@, child@) is None,
            Err(e) => parent_fault(parent@, child@) == Some(e@),
        },
{
    let bad = "invalid parent history binding";
    if !same_field(parent, child, "version") || !same_field(parent, child, "backup") || !same_field(
        parent,
        child,
        "cluster",
    ) || !same_field(parent, child, "start") {
        return Err(refuse(bad));
    }
    let pt: u64 = match num(parent, "timeline") {
        Ok(n) => n,
        Err(e) => return Err(e),
    };
    let ct: u64 = match num(child, "timeline") {
        Ok(n) => n,
        Err(e) => return Err(e),
    };
    if pt >= ct {
        return Err(refuse(bad));
    }
    let pe: u64 = match num(parent, "end") {
        Ok(n) => n,
        Err(e) => return Err(e),
    };
    let fork: u64 = match num(transition, "fork") {
        Ok(n) => n,
        Err(e) => return Err(e),
    };
    if pe != fork {
        return Err(refuse(bad));
    }
    let ce: u64 = match num(child, "end") {
        Ok(n) => n,
        Err(e) => return Err(e),
    };
    if pe > ce {
        return Err(refuse(bad));
    }
    let cs: u64 = match num(child, "start") {
        Ok(n) => n,
        Err(e) => return Err(e),
    };
    if pe <= cs || field(parent, "tail").is_null() {
        return Err(refuse(bad));
    }
    let rec: u64 = match num(parent, "record_start") {
        Ok(n) => n,
        Err(e) => return Err(e),
    };
    let ps: u64 = match num(parent, "start") {
        Ok(n) => n,
        Err(e) => return Err(e),
    };
    if rec < ps {
        return Err(refuse(bad));
    }
    if rec >= pe || (same_field(parent, child, "end") && (!same_field(parent, child, "tail")
        || !same_field(parent, child, "record_start"))) {
        return Err(refuse(bad));
    }
    Ok(())
}

/// The parent that a head names.
pub open spec fn parent_of(c: JsonView) -> JsonView {
    c.at("transition"@).at("parent"@)
}

/// `c` and the heads it descends from, where `n` heads came before it.
pub open spec fn heads_from(c: JsonView, n: nat) -> Result<Seq<JsonView>, Seq<char>>
    decreases MAX_TIMELINES - n,
{
    match head_fault(c) {
        Some(e) => Err(e),
        None => if c.at("transition"@) == JsonView::Null {
            Ok(seq![c])
        } else if n + 1 >= MAX_TIMELINES {
            Err("timeline limit exceeded"@)
        } else {
            match parent_fault(parent_of(c), c) {
                Some(e) => Err(e),
                None => match heads_from(parent_of(c), n + 1) {
                    Err(e) => Err(e),
                    Ok(rest) => Ok(seq![c] + rest),
                },
            }
        },
    }
}

/// A head and the heads it descends from, newest first.
pub open spec fn heads_of(head: JsonView) -> Result<Seq<JsonView>, Seq<char>> {
    heads_from(head, 0)
}

pub open spec fn heads_result(r: Result<Vec<Json>, Refusal>) -> Result<Seq<JsonView>, Seq<char>> {
    match r {
        Ok(v) => Ok(list_view(v@)),
        Err(e) => Err(e@),
    }
}

/// A head and the heads it descends from, newest first.
pub fn heads(head: &Json) -> (r: Result<Vec<Json>, Refusal>)
    ensures
        heads_result(r) == heads_of(head@),
        r matches Ok(v) ==> 0 < v@.len() <= MAX_TIMELINES && v@[0]@ == head@,
{
    let mut nodes: Vec<Json> = Vec::new();
    let mut child = head.copy();
    proof {
        assert(list_view(nodes@) =~= Seq::empty());
        match heads_of(head@) {
            Ok(s) => {
                assert(list_view(nodes@) + s =~= s);
            },
            Err(_) => {},
        }
    }
    loop
        invariant
            nodes@.len() < MAX_TIMELINES,
            nodes@.len() == 0 ==> child@ == head@,
            nodes@.len() > 0 ==> nodes@[0]@ == head@,
            match heads_from(child@, nodes@.len()) {
                Ok(rest) => heads_of(head@) == Ok::<Seq<JsonView>, Seq<char>>(
                    list_view(nodes@) + rest,
                ),
                Err(e) => heads_of(head@) == Err::<Seq<JsonView>, Seq<char>>(e),
            },
        decreases MAX_TIMELINES - nodes@.len(),
    {
        match check_head(&child) {
            Ok(_) => {},
            Err(e) => return Err(e),
        }
        let transition = field(&child, "transition");
        let ghost was = list_view(nodes@);
        let ghost c = child@;
        if transition.is_null() {
            nodes.push(child);
            proof {
                assert(list_view(nodes@) =~= was + seq![c]);
            }
            return Ok(nodes);
        }
        if nodes.len() + 1 >= MAX_TIMELINES {
            return Err(refuse("timeline limit exceeded"));
        }
        let parent = field(&transition, "parent");
        match check_parent(&parent, &child, &transition) {
            Ok(_) => {},
            Err(e) => return Err(e),
        }
        let ghost n = nodes@.len();
        nodes.push(child);
        proof {
            assert(list_view(nodes@) =~= was.push(c));
            match heads_from(parent@, n + 1) {
                Ok(rest) => {
                    assert(was + (seq![c] + rest) =~= list_view(nodes@) + rest);
                },
                Err(_) => {},
            }
        }
        child = parent;
    }
}

/// One line of a timeline history: a timeline, and where the next one was forked off. Nothing
/// for an empty line or a comment.
pub open spec fn history_row(line: Seq<char>) -> Option<Result<(u64, u64), Seq<char>>> {
    let w = words(line);
    if w.len() == 0 || w[0][0] == '#' {
        None
    } else {
        Some(
            match number_value(w[0], 10) {
                Err(e) => Err(e),
                Ok(t) => if w.len() < 2 {
                    Err("missing fork LSN"@)
                } else {
                    match lsn_value(w[1]) {
                        Err(e) => Err(e),
                        Ok(l) => if t == 0 {
                            Err("invalid history timeline"@)
                        } else {
                            Ok((t as u64, l))
                        },
                    }
                },
            },
        )
    }
}

/// The rows of a timeline history, up to the first line that is none.
pub open spec fn history_lines(lines: Seq<Seq<char>>) -> Result<Seq<(u64, u64)>, Seq<char>>
    decreases lines.len(),
{
    if lines.len() == 0 {
        Ok(Seq::empty())
    } else {
        match history_lines(lines.drop_last()) {
            Err(e) => Err(e),
            Ok(rows) => match history_row(lines.last()) {
                None => Ok(rows),
                Some(Err(e)) => Err(e),
                Some(Ok(row)) => Ok(rows.push(row)),
            },
        }
    }
}

/// The rows of a timeline history file.
pub open spec fn history_of(bytes: Seq<u8>) -> Result<Seq<(u64, u64)>, Seq<char>> {
    if bytes.len() > 65536 {
        Err("timeline history limit"@)
    } else if !valid_utf8(bytes) {
        Err("timeline history is not UTF-8"@)
    } else {
        history_lines(split_on(decode_utf8(bytes), '\n'))
    }
}

pub open spec fn rows_result(r: Result<Vec<(u64, u64)>, Refusal>) -> Result<
    Seq<(u64, u64)>,
    Seq<char>,
> {
    match r {
        Ok(v) => Ok(v@),
        Err(e) => Err(e@),
    }
}

pub open spec fn row_result(r: Option<Result<(u64, u64), Refusal>>) -> Option<
    Result<(u64, u64), Seq<char>>,
> {
    match r {
        Some(x) => Some(seen(x)),
        None => None,
    }
}

fn read_row(line: &[char]) -> (r: Option<Result<(u64, u64), Refusal>>)
    ensures
        row_result(r) == history_row(line@),
{
    let w = split_words(line);
    proof {
        crate::lines::lemma_words(line@);
        assert(w@.len() == texts_view(w@).len());
    }
    if w.len() == 0 {
        return None;
    }
    proof {
        assert(texts_view(w@)[0] == w@[0]@);
        assert(words(line@)[0].len() > 0);
    }
    if w[0][0] == '#' {
        return None;
    }
    let t: u32 = match parse_number(w[0].as_slice(), 10) {
        Ok(t) => t,
        Err(e) => return Some(Err(e)),
    };
    if w.len() < 2 {
        return Some(Err(refuse("missing fork LSN")));
    }
    proof {
        assert(texts_view(w@)[1] == w@[1]@);
    }
    let l: u64 = match lsn(w[1].as_slice()) {
        Ok(l) => l,
        Err(e) => return Some(Err(e)),
    };
    if t == 0 {
        return Some(Err(refuse("invalid history timeline")));
    }
    Some(Ok((t as u64, l)))
}

proof fn lemma_history_err(lines: Seq<Seq<char>>, i: int)
    requires
        0 <= i <= lines.len(),
        history_lines(lines.take(i)) is Err,
    ensures
        history_lines(lines) == history_lines(lines.take(i)),
    decreases lines.len() - i,
{
    if i == lines.len() {
        assert(lines.take(i) =~= lines);
    } else {
        assert(lines.take(i + 1).drop_last() =~= lines.take(i));
        lemma_history_err(lines, i + 1);
    }
}

/// The rows of a timeline history file.
pub fn history_rows(bytes: &[u8]) -> (r: Result<Vec<(u64, u64)>, Refusal>)
    ensures
        rows_result(r) == history_of(bytes@),
{
    if bytes.len() > 65536 {
        return Err(refuse("timeline history limit"));
    }
    let s = match utf8(bytes) {
        Some(s) => s,
        None => return Err(refuse("timeline history is not UTF-8")),
    };
    let lines = split_chars(chars_of(s.as_str()).as_slice(), '\n');
    let ghost all = texts_view(lines@);
    let mut rows: Vec<(u64, u64)> = Vec::new();
    let mut i: usize = 0;
    proof {
        assert(all.take(0) =~= Seq::empty());
        assert(rows@ =~= Seq::empty());
    }
    while i < lines.len()
        invariant
            all == texts_view(lines@),
            all == split_on(decode_utf8(bytes@), '\n'),
            valid_utf8(bytes@),
            bytes@.len() <= 65536,
            i <= lines@.len(),
            history_lines(all.take(i as int)) == Ok::<Seq<(u64, u64)>, Seq<char>>(rows@),
        decreases lines@.len() - i,
    {
        proof {
            assert(all.take(i + 1).drop_last() =~= all.take(i as int));
            assert(all.take(i + 1).last() == lines@[i as int]@);
        }
        match read_row(lines[i].as_slice()) {
            None => {},
            Some(Ok(row)) => {
                rows.push(row);
            },
            Some(Err(e)) => {
                proof {
                    lemma_history_err(all, i + 1);
                }
                return Err(e);
            },
        }
        i += 1;
    }
    proof {
        assert(all.take(all.len() as int) =~= all);
    }
    Ok(rows)
}

/// The rows that a head adds to its root's history: the timeline and the end of every head it
/// descends from, oldest first, and its own.
pub open spec fn lineage(nodes: Seq<JsonView>, root: Seq<(u64, u64)>) -> Seq<(u64, u64)>
    decreases nodes.len(),
{
    if nodes.len() == 0 {
        root
    } else {
        lineage(nodes.skip(1), root).push(
            (num_of(nodes[0], "timeline"@)->Ok_0, num_of(nodes[0], "end"@)->Ok_0),
        )
    }
}

/// What is wrong with the history of a timeline that was forked off `parent`.
pub open spec fn history_fault(bytes: Seq<u8>, parent: JsonView, root: Seq<u8>) -> Option<
    Seq<char>,
> {
    match history_of(root) {
        Err(e) => Some(e),
        Ok(r) => match heads_of(parent) {
            Err(e) => Some(e),
            Ok(nodes) => match history_of(bytes) {
                Err(e) => Some(e),
                Ok(rows) => if rows == lineage(nodes, r) {
                    None
                } else {
                    Some("native timeline history differs from exact restored parent"@)
                },
            },
        },
    }
}

/// Each head of a history is sound by itself, and the one behind it is the parent it names.
pub proof fn lemma_heads_fields(c: JsonView, n: nat, i: int)
    requires
        heads_from(c, n) matches Ok(s) && 0 <= i < s.len(),
    ensures
        head_fault(heads_from(c, n)->Ok_0[i]) is None,
        i + 1 < heads_from(c, n)->Ok_0.len() ==> ({
            let s = heads_from(c, n)->Ok_0;
            s[i + 1] == parent_of(s[i]) && parent_fault(s[i + 1], s[i]) is None && s[i].at(
                "transition"@,
            ) != JsonView::Null
        }),
        i + 1 == heads_from(c, n)->Ok_0.len() ==> heads_from(c, n)->Ok_0[i].at(
            "transition"@,
        ) == JsonView::Null,
        heads_from(c, n)->Ok_0[0] == c,
        heads_from(c, n)->Ok_0.len() + n <= MAX_TIMELINES || heads_from(c, n)->Ok_0.len()
            == 1,
    decreases MAX_TIMELINES - n,
{
    let s = heads_from(c, n)->Ok_0;
    if c.at("transition"@) != JsonView::Null {
        let rest = heads_from(parent_of(c), n + 1)->Ok_0;
        assert(s == seq![c] + rest);
        if i > 0 {
            lemma_heads_fields(parent_of(c), n + 1, i - 1);
            assert(s[i] == rest[i - 1]);
        } else {
            lemma_heads_fields(parent_of(c), n + 1, 0);
            assert(s[1] == rest[0]);
        }
    }
}

/// Checks the history of a timeline that was forked off `parent` against what `parent` is.
pub fn check_history(bytes: &[u8], parent: &Json, root: &[u8]) -> (r: Result<(), Refusal>)
    ensures
        match r {
            Ok(_) => history_fault(bytes@, parent@, root@) is None,
            Err(e) => history_fault(bytes@, parent@, root@) == Some(e@),
        },
{
    let mut expected: Vec<(u64, u64)> = match history_rows(root) {
        Ok(v) => v,
        Err(e) => return Err(e),
    };
    let nodes = match heads(parent) {
        Ok(v) => v,
        Err(e) => return Err(e),
    };
    let ghost base = expected@;
    let ghost all = list_view(nodes@);
    let mut i: usize = nodes.len();
    proof {
        assert(all.skip(i as int) =~= Seq::empty());
    }
    while i > 0
        invariant
            all == list_view(nodes@),
            heads_of(parent@) == Ok::<Seq<JsonView>, Seq<char>>(all),
            i <= nodes@.len(),
            expected@ == lineage(all.skip(i as int), base),
        decreases i,
    {
        i -= 1;
        let ghost node = all[i as int];
        proof {
            lemma_heads_fields(parent@, 0, i as int);
            assert(all.skip(i as int).skip(1) =~= all.skip(i + 1));
            assert(all.skip(i as int)[0] == node);
            assert(node == nodes@[i as int]@);
        }
        let t = num(&nodes[i], "timeline");
        let e = num(&nodes[i], "end");
        match (t, e) {
            (Ok(t), Ok(e)) => {
                expected.push((t, e));
            },
            _ => {},
        }
    }
    proof {
        assert(all.skip(0) =~= all);
    }
    let rows = match history_rows(bytes) {
        Ok(v) => v,
        Err(e) => return Err(e),
    };
    if !same_rows(&rows, &expected) {
        return Err(refuse("native timeline history differs from exact restored parent"));
    }
    Ok(())
}

fn same_rows(a: &Vec<(u64, u64)>, b: &Vec<(u64, u64)>) -> (r: bool)
    ensures
        r == (a@ == b@),
{
    if a.len() != b.len() {
        return false;
    }
    let mut i: usize = 0;
    while i < a.len()
        invariant
            i <= a@.len() == b@.len(),
            forall|j: int| 0 <= j < i ==> a@[j] == b@[j],
        decreases a@.len() - i,
    {
        if a[i].0 != b[i].0 || a[i].1 != b[i].1 {
            proof {
                assert(a@[i as int] != b@[i as int]);
            }
            return false;
        }
        i += 1;
    }
    proof {
        assert(a@ =~= b@);
    }
    true
}

} // verus!
