//! What a timeline history file says of an archive, and which heads descend from one another.
use crate::archive::{
    head_fault, heads_from, heads_of, history_fault, history_lines, history_of, history_row,
    lemma_heads_fields, lineage, parent_fault, parent_of, MAX_TIMELINES,
};
use crate::json::JsonView;
use crate::lines::{digit_value, digits_value, split_on, white, words};
use crate::text::decimal;
use crate::text_laws::lemma_position_reads_back;
use crate::wire::{lsn_chars, upper_hex};
use vstd::prelude::*;
use vstd::utf8::{encode_utf8, encode_utf8_decode_utf8, encode_utf8_valid_utf8};

verus! {

/// A head that can be used: version two, a timeline, where its log begins and ends, and names.
pub open spec fn usable(h: JsonView) -> bool {
    &&& h.at("version"@) == JsonView::Number(2)
    &&& h.at("timeline"@) matches JsonView::Number(t) && 0 < t <= u32::MAX
    &&& h.at("start"@) matches JsonView::Number(s) && h.at("end"@) matches JsonView::Number(e)
        && 0 < s <= e
    &&& h.at("cluster"@) is Text
    &&& h.at("epoch"@) is Text
    &&& h.at("revision"@) is Text
}

/// `child` was forked off `parent`: it names it, it starts from the same backup of the same
/// cluster, its timeline is a later one, and it goes on where the parent ended, with a record of
/// the parent's own log last.
pub open spec fn forked_off(parent: JsonView, child: JsonView) -> bool {
    &&& child.at("transition"@).at("parent"@) == parent
    &&& parent.at("version"@) == child.at("version"@)
    &&& parent.at("backup"@) == child.at("backup"@)
    &&& parent.at("cluster"@) == child.at("cluster"@)
    &&& parent.at("start"@) == child.at("start"@)
    &&& parent.at("timeline"@)->Number_0 < child.at("timeline"@)->Number_0
    &&& child.at("transition"@).at("fork"@) == parent.at("end"@)
    &&& parent.at("start"@)->Number_0 < parent.at("end"@)->Number_0 <= child.at(
        "end"@,
    )->Number_0
    &&& parent.at("tail"@) != JsonView::Null
    &&& parent.at("record_start"@) matches JsonView::Number(r) && parent.at("start"@)->Number_0
        <= r < parent.at("end"@)->Number_0
    &&& parent.at("end"@) == child.at("end"@) ==> parent.at("tail"@) == child.at("tail"@)
        && parent.at("record_start"@) == child.at("record_start"@)
}

/// Heads, newest first, each forked off the next, down to one that was not forked off any.
pub open spec fn descent(nodes: Seq<JsonView>) -> bool {
    &&& nodes.len() > 0
    &&& forall|i: int| 0 <= i < nodes.len() ==> usable(#[trigger] nodes[i])
    &&& forall|i: int|
        0 <= i < nodes.len() - 1 ==> (#[trigger] nodes[i]).at("transition"@) != JsonView::Null
            && forked_off(nodes[i + 1], nodes[i])
    &&& nodes.last().at("transition"@) == JsonView::Null
}

/// A head is sound by itself exactly where it is usable.
proof fn lemma_usable(h: JsonView)
    ensures
        head_fault(h) is None <==> usable(h),
{
}

/// A parent is accepted exactly where the child was forked off it.
proof fn lemma_forked_off(parent: JsonView, child: JsonView)
    requires
        usable(child),
        usable(parent),
        parent_of(child) == parent,
    ensures
        parent_fault(parent, child) is None <==> forked_off(parent, child),
{
}

/// The heads that an archive head leads to are a descent from it, of at most as many timelines as
/// a history may have: the timelines fall, each head names the next and ends no earlier, and all
/// of them share the backup they start from.
pub proof fn lemma_heads_descend(head: JsonView)
    requires
        heads_of(head) is Ok,
    ensures
        descent(heads_of(head)->Ok_0),
        heads_of(head)->Ok_0[0] == head,
        heads_of(head)->Ok_0.len() <= MAX_TIMELINES,
{
    let s = heads_of(head)->Ok_0;
    lemma_heads_fields(head, 0, 0);
    assert forall|i: int| 0 <= i < s.len() implies usable(#[trigger] s[i]) by {
        lemma_heads_fields(head, 0, i);
        lemma_usable(s[i]);
    }
    assert forall|i: int| 0 <= i < s.len() - 1 implies (#[trigger] s[i]).at("transition"@)
        != JsonView::Null && forked_off(s[i + 1], s[i]) by {
        lemma_heads_fields(head, 0, i);
        assert(usable(s[i]) && usable(s[i + 1]));
        lemma_forked_off(s[i + 1], s[i]);
    }
    lemma_heads_fields(head, 0, s.len() - 1);
}

proof fn lemma_descent_from(nodes: Seq<JsonView>, n: nat)
    requires
        descent(nodes),
        nodes.len() + n <= MAX_TIMELINES,
    ensures
        heads_from(nodes[0], n) == Ok::<Seq<JsonView>, Seq<char>>(nodes),
    decreases nodes.len(),
{
    lemma_usable(nodes[0]);
    if nodes.len() == 1 {
        assert(seq![nodes[0]] =~= nodes);
    } else {
        let rest = nodes.skip(1);
        assert(nodes[0].at("transition"@) != JsonView::Null);
        assert(forked_off(nodes[1], nodes[0]));
        assert(usable(nodes[1]));
        lemma_forked_off(nodes[1], nodes[0]);
        assert forall|i: int| 0 <= i < rest.len() implies usable(#[trigger] rest[i]) by {
            assert(usable(nodes[i + 1]));
        }
        assert forall|i: int| 0 <= i < rest.len() - 1 implies (#[trigger] rest[i]).at(
            "transition"@,
        ) != JsonView::Null && forked_off(rest[i + 1], rest[i]) by {
            assert(nodes[i + 1].at("transition"@) != JsonView::Null);
            assert(rest[i] == nodes[i + 1] && rest[i + 1] == nodes[i + 2]);
        }
        assert(rest.last() == nodes.last());
        lemma_descent_from(rest, n + 1);
        assert(rest[0] == nodes[1]);
        assert(seq![nodes[0]] + rest =~= nodes);
    }
}

/// Every descent of at most as many timelines as a history may have is accepted, and gives the
/// heads it is made of.
pub proof fn lemma_descent_is_accepted(nodes: Seq<JsonView>)
    requires
        descent(nodes),
        nodes.len() <= MAX_TIMELINES,
    ensures
        heads_of(nodes[0]) == Ok::<Seq<JsonView>, Seq<char>>(nodes),
{
    lemma_descent_from(nodes, 0);
}

/// Newer heads have later timelines.
proof fn lemma_timelines_fall(nodes: Seq<JsonView>, i: int, j: int)
    requires
        descent(nodes),
        0 <= i < j < nodes.len(),
    ensures
        nodes[j].at("timeline"@)->Number_0 < nodes[i].at("timeline"@)->Number_0,
        nodes[j].at("end"@)->Number_0 <= nodes[i].at("end"@)->Number_0,
    decreases j - i,
{
    assert(nodes[j - 1].at("transition"@) != JsonView::Null);
    assert(usable(nodes[j - 1]) && usable(nodes[j]));
    if i < j - 1 {
        lemma_timelines_fall(nodes, i, j - 1);
    }
}

/// The timeline of a head and where its log ends.
pub open spec fn row_of(h: JsonView) -> (u64, u64) {
    (h.at("timeline"@)->Number_0, h.at("end"@)->Number_0)
}

proof fn lemma_lineage_rows(nodes: Seq<JsonView>, root: Seq<(u64, u64)>)
    requires
        forall|i: int| 0 <= i < nodes.len() ==> usable(#[trigger] nodes[i]),
    ensures
        ({
            let rows = lineage(nodes, root);
            &&& rows.len() == root.len() + nodes.len()
            &&& forall|i: int| 0 <= i < root.len() ==> #[trigger] rows[i] == root[i]
            &&& forall|k: int|
                root.len() <= k < rows.len() ==> #[trigger] rows[k] == row_of(
                    nodes[nodes.len() - 1 - (k - root.len())],
                )
        }),
    decreases nodes.len(),
{
    if nodes.len() > 0 {
        let rest = nodes.skip(1);
        assert forall|i: int| 0 <= i < rest.len() implies usable(#[trigger] rest[i]) by {
            assert(usable(nodes[i + 1]));
        }
        lemma_lineage_rows(rest, root);
        assert(usable(nodes[0]));
        let before = lineage(rest, root);
        let rows = lineage(nodes, root);
        assert forall|k: int| root.len() <= k < rows.len() implies #[trigger] rows[k] == row_of(
            nodes[nodes.len() - 1 - (k - root.len())],
        ) by {
            if k < before.len() {
                assert(rows[k] == before[k]);
                assert(rest[rest.len() - 1 - (k - root.len())] == nodes[nodes.len() - 1 - (k
                    - root.len())]);
            }
        }
        assert forall|i: int| 0 <= i < root.len() implies #[trigger] rows[i] == root[i] by {
            assert(rows[i] == before[i]);
        }
    }
}

/// A history file is accepted for a timeline forked off `parent` exactly where its rows are the
/// root's rows, and behind them one row for each head that `parent` descends from and for `parent`
/// itself, in order of rising timeline: the timeline, and where its log ends.
pub proof fn lemma_history_is_accepted(bytes: Seq<u8>, parent: JsonView, root: Seq<u8>)
    requires
        history_of(bytes) is Ok,
        heads_of(parent) is Ok,
        history_of(root) is Ok,
    ensures
        ({
            let rows = history_of(bytes)->Ok_0;
            let before = history_of(root)->Ok_0;
            let nodes = heads_of(parent)->Ok_0;
            history_fault(bytes, parent, root) is None <==> {
                &&& rows.len() == before.len() + nodes.len()
                &&& forall|i: int| 0 <= i < before.len() ==> #[trigger] rows[i] == before[i]
                &&& forall|k: int|
                    before.len() <= k < rows.len() ==> #[trigger] rows[k] == (
                        nodes[nodes.len() - 1 - (k - before.len())].at("timeline"@)->Number_0,
                        nodes[nodes.len() - 1 - (k - before.len())].at("end"@)->Number_0,
                    )
            }
        }),
{
    let rows = history_of(bytes)->Ok_0;
    let before = history_of(root)->Ok_0;
    let nodes = heads_of(parent)->Ok_0;
    lemma_heads_descend(parent);
    lemma_lineage_rows(nodes, before);
    let all = lineage(nodes, before);
    if rows.len() == before.len() + nodes.len() && (forall|i: int|
        0 <= i < before.len() ==> #[trigger] rows[i] == before[i]) && (forall|k: int|
        before.len() <= k < rows.len() ==> #[trigger] rows[k] == row_of(
            nodes[nodes.len() - 1 - (k - before.len())],
        )) {
        assert(rows =~= all);
    }
}

/// The rows that an accepted history has behind the root's rise by timeline, and no fork lies
/// before an earlier one. The last of them is the parent's own.
pub proof fn lemma_accepted_rows_rise(bytes: Seq<u8>, parent: JsonView, root: Seq<u8>, i: int, j: int)
    requires
        history_fault(bytes, parent, root) is None,
        history_of(root)->Ok_0.len() <= i < j < history_of(bytes)->Ok_0.len(),
    ensures
        history_of(bytes)->Ok_0[i].0 < history_of(bytes)->Ok_0[j].0,
        history_of(bytes)->Ok_0[i].1 <= history_of(bytes)->Ok_0[j].1,
        history_of(bytes)->Ok_0.last() == (
            parent.at("timeline"@)->Number_0,
            parent.at("end"@)->Number_0,
        ),
{
    let rows = history_of(bytes)->Ok_0;
    let n = history_of(root)->Ok_0.len();
    let nodes = heads_of(parent)->Ok_0;
    lemma_history_is_accepted(bytes, parent, root);
    lemma_heads_descend(parent);
    lemma_timelines_fall(nodes, nodes.len() - 1 - (j - n), nodes.len() - 1 - (i - n));
    assert(rows[i] == row_of(nodes[nodes.len() - 1 - (i - n)]));
    assert(rows[j] == row_of(nodes[nodes.len() - 1 - (j - n)]));
    assert(rows[rows.len() - 1] == row_of(nodes[0]));
}

/// A line of a history file: a timeline, where the next one was forked off, and why.
pub open spec fn line_of(row: (u64, u64), why: Seq<char>) -> Seq<char> {
    decimal(row.0 as nat) + seq!['\t'] + lsn_chars(row.1) + seq!['\t'] + why
}

/// A history file with a line for each row.
pub open spec fn file_of(rows: Seq<(u64, u64)>, why: Seq<char>) -> Seq<char>
    decreases rows.len(),
{
    if rows.len() == 0 {
        Seq::empty()
    } else {
        file_of(rows.drop_last(), why) + line_of(rows.last(), why) + seq!['\n']
    }
}

proof fn lemma_decimal(n: nat)
    requires
        n <= u32::MAX,
    ensures
        digits_value(decimal(n), 10) == Ok::<nat, Seq<char>>(n),
        decimal(n).len() > 0,
        decimal(n)[0] != '+',
        decimal(n)[0] != '#',
        forall|i: int| 0 <= i < decimal(n).len() ==> '0' <= #[trigger] decimal(n)[i] <= '9',
    decreases n,
{
    let d = n % 10;
    let c = (48 + d) as char;
    assert(digit_value(c, 10) == Some(d));
    let s = decimal(n);
    if n < 10 {
        assert(s.drop_last() =~= Seq::empty());
        assert(digits_value(s.drop_last(), 10) == Ok::<nat, Seq<char>>(0));
    } else {
        lemma_decimal(n / 10);
        let head = decimal(n / 10);
        assert(s.drop_last() =~= head);
        assert(s[0] == head[0]);
        assert forall|i: int| 0 <= i < s.len() implies '0' <= #[trigger] s[i] <= '9' by {
            if i < head.len() {
                assert(s[i] == head[i]);
            }
        }
    }
}

proof fn lemma_upper_hex_dark(n: nat)
    ensures
        upper_hex(n).len() > 0,
        forall|i: int| 0 <= i < upper_hex(n).len() ==> '0' <= #[trigger] upper_hex(n)[i] <= 'F',
    decreases n,
{
    if n >= 16 {
        lemma_upper_hex_dark(n / 16);
        let head = upper_hex(n / 16);
        assert forall|i: int| 0 <= i < upper_hex(n).len() implies '0' <= #[trigger] upper_hex(n)[i]
            <= 'F' by {
            if i < head.len() {
                assert(upper_hex(n)[i] == head[i]);
            }
        }
    }
}

/// A number in hexadecimal reads back as itself, and has no slash in it.
pub proof fn lemma_upper_hex_of(n: nat)
    requires
        n <= u32::MAX,
    ensures
        crate::lines::number_value(upper_hex(n), 16) == Ok::<nat, Seq<char>>(n),
        forall|i: int| 0 <= i < upper_hex(n).len() ==> #[trigger] upper_hex(n)[i] != '/',
    decreases n,
{
    lemma_upper_hex_digits(n);
    lemma_upper_hex_dark(n);
    assert('0' <= upper_hex(n)[0]);
    assert forall|i: int| 0 <= i < upper_hex(n).len() implies #[trigger] upper_hex(n)[i] != '/' by {
        assert('0' <= upper_hex(n)[i]);
    }
}

proof fn lemma_upper_hex_digits(n: nat)
    requires
        n <= u32::MAX,
    ensures
        digits_value(upper_hex(n), 16) == Ok::<nat, Seq<char>>(n),
    decreases n,
{
    let d = n % 16;
    assert(digit_value(crate::wire::upper_digit(d), 16) == Some(d));
    let s = upper_hex(n);
    if n < 16 {
        assert(s.drop_last() =~= Seq::empty());
        assert(digits_value(s.drop_last(), 16) == Ok::<nat, Seq<char>>(0));
    } else {
        lemma_upper_hex_digits(n / 16);
        assert(s.drop_last() =~= upper_hex(n / 16));
    }
}

/// A position in text is not empty and has nothing but digits and a slash in it.
proof fn lemma_position_dark(n: u64)
    ensures
        lsn_chars(n).len() > 0,
        forall|i: int| 0 <= i < lsn_chars(n).len() ==> '/' <= #[trigger] lsn_chars(n)[i] <= 'F',
{
    let a = upper_hex((n / 0x1_0000_0000) as nat);
    let b = upper_hex((n % 0x1_0000_0000) as nat);
    lemma_upper_hex_dark((n / 0x1_0000_0000) as nat);
    lemma_upper_hex_dark((n % 0x1_0000_0000) as nat);
    reveal_strlit("/");
    let s = lsn_chars(n);
    assert forall|i: int| 0 <= i < s.len() implies '/' <= #[trigger] s[i] <= 'F' by {
        if i < a.len() {
            assert(s[i] == a[i]);
        } else if i > a.len() {
            assert(s[i] == b[i - a.len() - 1]);
        }
    }
}

/// A run without white space is one word.
proof fn lemma_one_word(s: Seq<char>)
    requires
        s.len() > 0,
        forall|i: int| 0 <= i < s.len() ==> !white(#[trigger] s[i]),
    ensures
        words(s) == seq![s],
    decreases s.len(),
{
    let t = s.drop_last();
    if t.len() == 0 {
        assert(words(t) =~= Seq::empty());
        assert(seq![s.last()] =~= s);
        assert(words(s) =~= seq![s]);
    } else {
        assert forall|i: int| 0 <= i < t.len() implies !white(#[trigger] t[i]) by {
            assert(t[i] == s[i]);
        }
        lemma_one_word(t);
        assert(!white(s[s.len() - 2]) && !white(s[s.len() - 1]));
        assert(t.push(s.last()) =~= s);
        assert(words(s) =~= seq![s]);
    }
}

/// What stands before a blank and what stands behind it have the words between them.
proof fn lemma_words_part(a: Seq<char>, c: char, b: Seq<char>)
    requires
        white(c),
    ensures
        words(a + seq![c] + b) == words(a) + words(b),
    decreases b.len(),
{
    let s = a + seq![c] + b;
    if b.len() == 0 {
        assert(s.drop_last() =~= a);
        assert(s.last() == c);
        assert(words(a) + words(b) =~= words(a));
    } else {
        let t = b.drop_last();
        lemma_words_part(a, c, t);
        assert(s.drop_last() =~= a + seq![c] + t);
        assert(s.last() == b.last());
        if t.len() == 0 {
            assert(s[s.len() - 2] == c);
        } else {
            assert(s[s.len() - 2] == b[b.len() - 2]);
        }
        if !white(b.last()) && t.len() > 0 && !white(b[b.len() - 2]) {
            crate::lines::lemma_words(t);
            assert(t.last() == b[b.len() - 2]);
            assert(words(s) =~= words(a) + words(b));
        } else {
            assert(words(s) =~= words(a) + words(b));
        }
    }
}

/// A line that was written for a row reads back as the row.
pub proof fn lemma_row_reads_back(row: (u64, u64), why: Seq<char>)
    requires
        0 < row.0 <= u32::MAX,
    ensures
        history_row(line_of(row, why)) == Some(Ok::<(u64, u64), Seq<char>>(row)),
{
    let a = decimal(row.0 as nat);
    let b = lsn_chars(row.1);
    let line = line_of(row, why);
    lemma_decimal(row.0 as nat);
    lemma_position_dark(row.1);
    lemma_position_reads_back(row.1);
    assert forall|i: int| 0 <= i < a.len() implies !white(#[trigger] a[i]) by {
        assert('0' <= a[i] <= '9');
    }
    assert forall|i: int| 0 <= i < b.len() implies !white(#[trigger] b[i]) by {
        assert('/' <= b[i] <= 'F');
    }
    lemma_one_word(a);
    lemma_one_word(b);
    lemma_words_part(a, '\t', b);
    lemma_words_part(a + seq!['\t'] + b, '\t', why);
    assert(line =~= a + seq!['\t'] + b + seq!['\t'] + why);
    assert(words(line) =~= seq![a, b] + words(why));
    assert(words(line)[0] == a && words(line)[1] == b);
}

/// Splitting takes off a last line that has no break in it.
proof fn lemma_split_last(s: Seq<char>, line: Seq<char>)
    requires
        !line.contains('\n'),
    ensures
        split_on(s + line, '\n') == split_on(s, '\n').drop_last().push(
            split_on(s, '\n').last() + line,
        ),
    decreases line.len(),
{
    crate::lines::lemma_split_on(s, '\n');
    let head = split_on(s, '\n');
    if line.len() == 0 {
        assert(s + line =~= s);
        assert(head.last() + line =~= head.last());
        assert(head.drop_last().push(head.last()) =~= head);
    } else {
        let t = line.drop_last();
        assert(line[line.len() - 1] != '\n');
        assert forall|i: int| 0 <= i < t.len() implies t[i] != '\n' by {
            assert(t[i] == line[i]);
        }
        lemma_split_last(s, t);
        assert((s + line).drop_last() =~= s + t);
        assert((s + line).last() == line.last());
        assert(head.last() + line =~= (head.last() + t).push(line.last()));
        assert(split_on(s + line, '\n') =~= head.drop_last().push(head.last() + line));
    }
}

proof fn lemma_file_lines(rows: Seq<(u64, u64)>, why: Seq<char>)
    requires
        !why.contains('\n'),
        forall|i: int| 0 <= i < rows.len() ==> 0 < (#[trigger] rows[i]).0 <= u32::MAX,
    ensures
        split_on(file_of(rows, why), '\n') == Seq::new(
            rows.len(),
            |i: int| line_of(rows[i], why),
        ).push(Seq::empty()),
        history_lines(Seq::new(rows.len(), |i: int| line_of(rows[i], why))) == Ok::<
            Seq<(u64, u64)>,
            Seq<char>,
        >(rows),
    decreases rows.len(),
{
    let lines = Seq::new(rows.len(), |i: int| line_of(rows[i], why));
    if rows.len() == 0 {
        assert(lines =~= Seq::empty());
        assert(lines.push(Seq::empty()) =~= seq![Seq::empty()]);
        assert(rows =~= Seq::empty());
    } else {
        let before = rows.drop_last();
        let row = rows.last();
        assert forall|i: int| 0 <= i < before.len() implies 0 < (#[trigger] before[i]).0
            <= u32::MAX by {
            assert(before[i] == rows[i]);
        }
        lemma_file_lines(before, why);
        let front = Seq::new(before.len(), |i: int| line_of(before[i], why));
        let line = line_of(row, why);
        assert(0 < rows[rows.len() - 1].0);
        lemma_decimal(row.0 as nat);
        lemma_position_dark(row.1);
        let a = decimal(row.0 as nat);
        let b = lsn_chars(row.1);
        assert forall|i: int| 0 <= i < line.len() implies line[i] != '\n' by {
            if i < a.len() {
                assert(line[i] == a[i]);
            } else if a.len() < i < a.len() + 1 + b.len() {
                assert(line[i] == b[i - a.len() - 1]);
            } else if i > a.len() + 1 + b.len() {
                assert(line[i] == why[i - a.len() - b.len() - 2]);
            }
        }
        let text = file_of(before, why);
        lemma_split_last(text, line);
        assert(front.push(Seq::empty()).drop_last() =~= front);
        assert(Seq::empty() + line =~= line);
        assert(split_on(text + line, '\n') =~= front.push(line));
        assert((text + line + seq!['\n']).drop_last() =~= text + line);
        assert(lines =~= front.push(line));
        assert(split_on(file_of(rows, why), '\n') =~= lines.push(Seq::empty()));
        lemma_row_reads_back(row, why);
        assert(lines.drop_last() =~= front);
        assert(before.push(row) =~= rows);
    }
}

/// A history file that was written for some rows reads back as them.
pub proof fn lemma_history_reads_back(rows: Seq<(u64, u64)>, why: Seq<char>)
    requires
        !why.contains('\n'),
        forall|i: int| 0 <= i < rows.len() ==> 0 < (#[trigger] rows[i]).0 <= u32::MAX,
        encode_utf8(file_of(rows, why)).len() <= 65536,
    ensures
        history_of(encode_utf8(file_of(rows, why))) == Ok::<Seq<(u64, u64)>, Seq<char>>(rows),
{
    let text = file_of(rows, why);
    encode_utf8_valid_utf8(text);
    encode_utf8_decode_utf8(text);
    lemma_file_lines(rows, why);
    let lines = Seq::new(rows.len(), |i: int| line_of(rows[i], why));
    let all = lines.push(Seq::empty());
    assert(all.drop_last() =~= lines);
    assert(words(Seq::<char>::empty()) =~= Seq::empty());
}

proof fn lemma_digits_bounded(s: Seq<char>, base: nat)
    ensures
        digits_value(s, base) matches Ok(n) ==> n <= u32::MAX,
    decreases s.len(),
{
    if s.len() > 0 {
        lemma_digits_bounded(s.drop_last(), base);
    }
}

proof fn lemma_lines_timelines(lines: Seq<Seq<char>>)
    requires
        history_lines(lines) is Ok,
    ensures
        forall|i: int|
            0 <= i < history_lines(lines)->Ok_0.len() ==> 0 < (#[trigger] history_lines(
                lines,
            )->Ok_0[i]).0 <= u32::MAX,
    decreases lines.len(),
{
    if lines.len() > 0 {
        lemma_lines_timelines(lines.drop_last());
        let w = words(lines.last());
        if w.len() > 0 {
            lemma_digits_bounded(w[0], 10);
            lemma_digits_bounded(w[0].skip(1), 10);
        }
    }
}

/// A row of a history that was read names a timeline: none is zero, and 32 bits hold it.
pub proof fn lemma_rows_name_timelines(bytes: Seq<u8>, i: int)
    requires
        history_of(bytes) matches Ok(rows) && 0 <= i < rows.len(),
    ensures
        0 < history_of(bytes)->Ok_0[i].0 <= u32::MAX,
{
    lemma_lines_timelines(split_on(vstd::utf8::decode_utf8(bytes), '\n'));
}

/// The history that a server writes when it is promoted is accepted: the rows of the root, and
/// behind them the timelines it went through, oldest first, each with where it ended.
pub proof fn lemma_genuine_history_is_accepted(
    nodes: Seq<JsonView>,
    before: Seq<(u64, u64)>,
    rows: Seq<(u64, u64)>,
    why: Seq<char>,
    root: Seq<u8>,
)
    requires
        descent(nodes),
        nodes.len() <= MAX_TIMELINES,
        history_of(root) == Ok::<Seq<(u64, u64)>, Seq<char>>(before),
        !why.contains('\n'),
        rows.len() == before.len() + nodes.len(),
        forall|i: int| 0 <= i < before.len() ==> #[trigger] rows[i] == before[i],
        forall|k: int|
            before.len() <= k < rows.len() ==> #[trigger] rows[k] == (
                nodes[nodes.len() - 1 - (k - before.len())].at("timeline"@)->Number_0,
                nodes[nodes.len() - 1 - (k - before.len())].at("end"@)->Number_0,
            ),
        encode_utf8(file_of(rows, why)).len() <= 65536,
    ensures
        history_fault(encode_utf8(file_of(rows, why)), nodes[0], root) is None,
{
    lemma_descent_is_accepted(nodes);
    assert forall|i: int| 0 <= i < rows.len() implies 0 < (#[trigger] rows[i]).0 <= u32::MAX by {
        if i < before.len() {
            lemma_rows_name_timelines(root, i);
            assert(rows[i] == before[i]);
        } else {
            assert(usable(nodes[nodes.len() - 1 - (i - before.len())]));
        }
    }
    lemma_history_reads_back(rows, why);
    lemma_history_is_accepted(encode_utf8(file_of(rows, why)), nodes[0], root);
}

} // verus!
