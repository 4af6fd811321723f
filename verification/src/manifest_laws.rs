//! What is read of an uploaded manifest: what was written in it, and nothing that is unsound.
use crate::incremental_manifest::{
    decimal_value, file_entry, file_field, good_path, has_timeline, lookup,
    manifest_of, nibble, object_end, pair_value, pairs_value, parser_run, parser_step,
    place, position_value, put, range_entry, root_fault, scalar, unhexed,
    unsigned_value, with_field, EventView, FieldsView, Parser, ParserView, UploadedView, ValueView,
    WalRange,
};
use crate::text::decimal;
use crate::text_laws::lemma_position_reads_back;
use crate::wire::lsn_chars;
use vstd::prelude::*;
use vstd::utf8::{
    encode_utf8, encode_utf8_decode_utf8, encode_utf8_valid_utf8, is_ascii_chars,
    is_ascii_chars_encode_utf8,
};

verus! {

/// Field `i` is the first called `k`, and it holds `v`.
pub open spec fn field_at(f: FieldsView, i: int, k: Seq<u8>, v: ValueView) -> bool {
    &&& 0 <= i < f.len()
    &&& f[i] == (k, v)
    &&& forall|j: int| 0 <= j < i ==> (#[trigger] f[j]).0 != k
}

/// No field is called `k`.
pub open spec fn lacks(f: FieldsView, k: Seq<u8>) -> bool {
    forall|j: int| 0 <= j < f.len() ==> (#[trigger] f[j]).0 != k
}

proof fn lemma_place(f: FieldsView, k: Seq<u8>)
    ensures
        match place(f, k) {
            Some(i) => 0 <= i < f.len() && f[i].0 == k && forall|j: int|
                0 <= j < i ==> (#[trigger] f[j]).0 != k,
            None => lacks(f, k),
        },
    decreases f.len(),
{
    if f.len() > 0 {
        let t = f.drop_last();
        lemma_place(t, k);
        assert(forall|j: int| 0 <= j < t.len() ==> #[trigger] f[j] == t[j]);
        match place(t, k) {
            Some(i) => {
                assert(t[i] == f[i]);
            },
            None => {},
        }
    }
}

/// A field is looked up by its name: the first of that name is found, and nothing where there is
/// none.
pub proof fn lemma_field_is_found(f: FieldsView, i: int, k: Seq<u8>, v: ValueView)
    ensures
        field_at(f, i, k, v) ==> lookup(f, k) == Some(v),
        lacks(f, k) <==> lookup(f, k) is None,
{
    lemma_place(f, k);
    if field_at(f, i, k, v) {
        match place(f, k) {
            Some(j) => {
                if j < i {
                    assert(f[j].0 != k);
                }
                if i < j {
                    assert(f[i].0 != k);
                }
            },
            None => {
                assert(f[i].0 != k);
            },
        }
    }
    if lookup(f, k) is Some {
        let j = place(f, k)->0;
        assert(f[j].0 == k);
    }
}

/// A position that was written in a manifest reads back as itself.
pub proof fn lemma_manifest_position_reads_back(n: u64)
    ensures
        position_value(encode_utf8(lsn_chars(n))) == Ok::<u64, Seq<char>>(n),
{
    encode_utf8_valid_utf8(lsn_chars(n));
    encode_utf8_decode_utf8(lsn_chars(n));
    lemma_position_reads_back(n);
}

/// A stretch of log reads back: the entry that holds a timeline, and where its log begins and
/// ends, is read as that stretch, where no earlier entry has the timeline.
pub proof fn lemma_range_reads_back(
    f: FieldsView,
    before: Seq<WalRange>,
    w: WalRange,
    a: int,
    b: int,
    c: int,
)
    requires
        f.len() == 3,
        field_at(f, a, encode_utf8("Timeline"@), ValueView::Number(w.tli as u64)),
        field_at(f, b, encode_utf8("Start-LSN"@), ValueView::Text(encode_utf8(lsn_chars(w.start)))),
        field_at(f, c, encode_utf8("End-LSN"@), ValueView::Text(encode_utf8(lsn_chars(w.end)))),
        w.tli > 0,
        0 < w.start < w.end,
        forall|i: int| 0 <= i < before.len() ==> (#[trigger] before[i]).tli != w.tli,
    ensures
        range_entry(f, before) == Ok::<WalRange, Seq<char>>(w),
{
    lemma_field_is_found(f, a, encode_utf8("Timeline"@), ValueView::Number(w.tli as u64));
    lemma_field_is_found(
        f,
        b,
        encode_utf8("Start-LSN"@),
        ValueView::Text(encode_utf8(lsn_chars(w.start))),
    );
    lemma_field_is_found(
        f,
        c,
        encode_utf8("End-LSN"@),
        ValueView::Text(encode_utf8(lsn_chars(w.end))),
    );
    lemma_manifest_position_reads_back(w.start);
    lemma_manifest_position_reads_back(w.end);
}

/// A stretch of log that was read is sound: it has a timeline, which no earlier entry has, it begins
/// behind zero and ends behind where it begins; and it is what the entry's three fields say.
pub proof fn lemma_range_is_sound(f: FieldsView, before: Seq<WalRange>)
    requires
        range_entry(f, before) is Ok,
    ensures
        ({
            let w = range_entry(f, before)->Ok_0;
            &&& w.tli > 0
            &&& 0 < w.start < w.end
            &&& forall|i: int| 0 <= i < before.len() ==> (#[trigger] before[i]).tli != w.tli
            &&& f.len() == 3
            &&& lookup(f, encode_utf8("Timeline"@)) == Some(ValueView::Number(w.tli as u64))
            &&& lookup(f, encode_utf8("Start-LSN"@)) matches Some(ValueView::Text(a))
                && position_value(a) == Ok::<u64, Seq<char>>(w.start)
            &&& lookup(f, encode_utf8("End-LSN"@)) matches Some(ValueView::Text(b))
                && position_value(b) == Ok::<u64, Seq<char>>(w.end)
        }),
{
    let w = range_entry(f, before)->Ok_0;
    assert forall|i: int| 0 <= i < before.len() implies (#[trigger] before[i]).tli != w.tli by {
        assert(!has_timeline(before, w.tli));
    }
}

/// The entry of a file reads back: where the path is one that a manifest may list, the entry that
/// holds it and a size, and says nothing that is no file's to say, is read as both.
pub proof fn lemma_file_reads_back(f: FieldsView, path: Seq<u8>, size: u64, a: int, b: int)
    requires
        forall|i: int| 0 <= i < f.len() ==> file_field((#[trigger] f[i]).0),
        field_at(f, a, encode_utf8("Path"@), ValueView::Text(path)),
        field_at(f, b, encode_utf8("Size"@), ValueView::Number(size)),
        lacks(f, encode_utf8("Encoded-Path"@)),
        lacks(f, encode_utf8("Last-Modified"@)),
        lacks(f, encode_utf8("Checksum"@)),
        lacks(f, encode_utf8("Checksum-Algorithm"@)),
        good_path(path),
        size <= i64::MAX,
    ensures
        file_entry(f) == Ok::<(Seq<u8>, u64), Seq<char>>((path, size)),
{
    let any = ValueView::Pending;
    lemma_field_is_found(f, a, encode_utf8("Path"@), ValueView::Text(path));
    lemma_field_is_found(f, b, encode_utf8("Size"@), ValueView::Number(size));
    lemma_field_is_found(f, 0, encode_utf8("Encoded-Path"@), any);
    lemma_field_is_found(f, 0, encode_utf8("Last-Modified"@), any);
    lemma_field_is_found(f, 0, encode_utf8("Checksum"@), any);
    lemma_field_is_found(f, 0, encode_utf8("Checksum-Algorithm"@), any);
}

/// An entry of a file that was read is sound: a relative path without empty components or steps
/// up, and a size that 63 bits hold, which is the one that the entry names.
pub proof fn lemma_file_is_sound(f: FieldsView)
    requires
        file_entry(f) is Ok,
    ensures
        ({
            let (path, size) = file_entry(f)->Ok_0;
            &&& path.len() > 0 && path[0] != 47 && path.last() != 47
            &&& forall|i: int| 0 <= i < path.len() ==> #[trigger] path[i] != 0
            &&& size <= i64::MAX
            &&& lookup(f, encode_utf8("Size"@)) == Some(ValueView::Number(size))
            &&& lookup(f, encode_utf8("Path"@)) matches Some(v) ==> v == ValueView::Text(path)
            &&& lookup(f, encode_utf8("Path"@)) is None ==> (lookup(
                f,
                encode_utf8("Encoded-Path"@),
            ) matches Some(ValueView::Text(p)) && unhexed(p) == Ok::<Seq<u8>, Seq<char>>(path))
        }),
{
}

/// A digit of lower case, as a byte.
pub open spec fn hex_byte(d: int) -> u8 {
    if d < 10 {
        (48 + d) as u8
    } else {
        (87 + d) as u8
    }
}

/// Bytes as pairs of hexadecimal digits.
pub open spec fn hexed(b: Seq<u8>) -> Seq<u8> {
    Seq::new(
        2 * b.len(),
        |i: int|
            if i % 2 == 0 {
                hex_byte(b[i / 2] as int / 16)
            } else {
                hex_byte(b[i / 2] as int % 16)
            },
    )
}

/// Bytes that were written in hexadecimal read back as themselves.
pub proof fn lemma_hex_reads_back(b: Seq<u8>)
    ensures
        unhexed(hexed(b)) == Ok::<Seq<u8>, Seq<char>>(b),
{
    lemma_pairs_read_back(b);
}

proof fn lemma_pairs_read_back(b: Seq<u8>)
    ensures
        pairs_value(hexed(b)) == Ok::<Seq<u8>, Seq<char>>(b),
    decreases b.len(),
{
    if b.len() == 0 {
        assert(b =~= Seq::empty());
    } else {
        let t = b.drop_last();
        lemma_pairs_read_back(t);
        let s = hexed(b);
        let n = s.len();
        assert(s.take(n - 2) =~= hexed(t));
        let x = b.last() as int;
        assert(s[n - 2] == hex_byte(x / 16));
        assert(s[n - 1] == hex_byte(x % 16));
        assert(nibble(hex_byte(x / 16)) == Some((x / 16) as nat));
        assert(nibble(hex_byte(x % 16)) == Some((x % 16) as nat));
        assert(16 * (x / 16) + x % 16 == x);
        assert(pair_value(s[n - 2], s[n - 1]) == Some(b.last()));
        assert(t.push(b.last()) =~= b);
    }
}

proof fn lemma_decimal_bytes(n: nat)
    requires
        n <= u64::MAX,
    ensures
        decimal_value(encode_utf8(decimal(n))) == Some(n),
        encode_utf8(decimal(n)).len() == decimal(n).len() > 0,
        is_ascii_chars(decimal(n)),
        forall|i: int| 0 <= i < decimal(n).len() ==> '0' <= #[trigger] decimal(n)[i] <= '9',
    decreases n,
{
    let s = decimal(n);
    if n >= 10 {
        lemma_decimal_bytes(n / 10);
        let head = decimal(n / 10);
        assert forall|i: int| 0 <= i < s.len() implies '0' <= #[trigger] s[i] <= '9' by {
            if i < head.len() {
                assert(s[i] == head[i]);
            }
        }
    }
    assert(is_ascii_chars(s));
    is_ascii_chars_encode_utf8(s);
    let b = encode_utf8(s);
    assert(s[s.len() - 1] as u8 == b[b.len() - 1]);
    assert(b.last() == (48 + n % 10) as u8);
    if n >= 10 {
        let head = decimal(n / 10);
        is_ascii_chars_encode_utf8(head);
        assert forall|i: int| 0 <= i < head.len() implies b[i] == encode_utf8(head)[i] by {
            assert(s[i] == head[i]);
            assert(s[i] as u8 == b[i]);
            assert(head[i] as u8 == encode_utf8(head)[i]);
        }
        assert(b.drop_last() =~= encode_utf8(head));
    } else {
        assert(b.drop_last() =~= Seq::empty());
        assert(decimal_value(b.drop_last()) == Some(0nat));
    }
}

/// A number that was written in a manifest reads back as itself.
pub proof fn lemma_number_reads_back(n: u64)
    ensures
        unsigned_value(encode_utf8(decimal(n as nat))) == Some(n as nat),
{
    lemma_decimal_bytes(n as nat);
    let s = decimal(n as nat);
    is_ascii_chars_encode_utf8(s);
    assert(s[0] as u8 == encode_utf8(s)[0]);
    assert('0' <= s[0] <= '9');
}

/// The reader after these events, where it stood at `p` before them.
#[verifier::opaque]
pub open spec fn run_from(p: ParserView, events: Seq<EventView>) -> Result<ParserView, Seq<char>>
    decreases events.len(),
{
    if events.len() == 0 {
        Ok(p)
    } else {
        match run_from(p, events.drop_last()) {
            Err(e) => Err(e),
            Ok(q) => parser_step(q, events.last()),
        }
    }
}

proof fn lemma_run_from(events: Seq<EventView>, n: nat)
    requires
        n <= events.len(),
    ensures
        parser_run(events, n) == run_from(Parser::first(), events.take(n as int)),
    decreases n,
{
    reveal(run_from);
    if n > 0 {
        lemma_run_from(events, (n - 1) as nat);
        assert(events.take(n as int).drop_last() =~= events.take(n - 1));
    }
}

proof fn lemma_run_on(p: ParserView, a: Seq<EventView>, b: Seq<EventView>)
    requires
        run_from(p, a) is Ok,
    ensures
        run_from(p, a + b) == run_from(run_from(p, a)->Ok_0, b),
    decreases b.len(),
{
    reveal(run_from);
    if b.len() == 0 {
        assert(a + b =~= a);
    } else {
        lemma_run_on(p, a, b.drop_last());
        assert((a + b).drop_last() =~= a + b.drop_last());
        assert((a + b).last() == b.last());
    }
}

proof fn lemma_run_one(p: ParserView, e: EventView)
    ensures
        run_from(p, seq![e]) == parser_step(p, e),
{
    reveal(run_from);
    assert(seq![e].drop_last() =~= Seq::empty());
    assert(run_from(p, seq![e].drop_last()) == Ok::<ParserView, Seq<char>>(p));
}

proof fn lemma_run_two(p: ParserView, a: EventView, b: EventView)
    requires
        parser_step(p, a) is Ok,
    ensures
        run_from(p, seq![a, b]) == parser_step(parser_step(p, a)->Ok_0, b),
{
    lemma_run_one(p, a);
    lemma_run_on(p, seq![a], seq![b]);
    lemma_run_one(parser_step(p, a)->Ok_0, b);
    assert(seq![a] + seq![b] =~= seq![a, b]);
}

/// The value that a scalar is.
pub open spec fn value_of(e: EventView) -> Option<ValueView> {
    match e {
        EventView::Text(s) => Some(ValueView::Text(s)),
        EventView::Number(s) => match unsigned_value(s) {
            Some(n) => Some(ValueView::Number(n as u64)),
            None => None,
        },
        _ => None,
    }
}

/// A reader with one more field in the innermost object.
pub open spec fn with_new(p: ParserView, k: Seq<u8>, v: ValueView) -> ParserView {
    ParserView {
        stack: p.stack.drop_last().push((p.stack.last().0.push((k, v)), k)),
        ..p
    }
}

proof fn lemma_put_new(f: FieldsView, k: Seq<u8>, v: ValueView, w: ValueView)
    requires
        lacks(f, k),
    ensures
        put(f, k, v) == f.push((k, v)),
        put(f.push((k, v)), k, w) == f.push((k, w)),
        lookup(f, k) is None,
{
    lemma_field_is_found(f, 0, k, v);
    let g = f.push((k, v));
    lemma_place(g, k);
    match place(g, k) {
        Some(i) => {
            if i < f.len() {
                assert(g[i] == f[i]);
            }
            assert(g.update(i, (g[i].0, w)) =~= f.push((k, w)));
        },
        None => {
            assert(g[f.len() as int].0 == k);
        },
    }
}

/// A field that is named and then given a value is a new field of the object that is open.
proof fn lemma_field_events(p: ParserView, k: Seq<u8>, e: EventView)
    requires
        p.stack.len() > 0,
        p.array is None || p.stack.len() != 1,
        lacks(p.stack.last().0, k),
        value_of(e) is Some,
    ensures
        run_from(p, seq![EventView::Field(k), e]) == Ok::<ParserView, Seq<char>>(
            with_new(p, k, value_of(e)->0),
        ),
{
    let v = value_of(e)->0;
    let f = p.stack.last().0;
    lemma_put_new(f, k, ValueView::Pending, v);
    let q = parser_step(p, EventView::Field(k))->Ok_0;
    lemma_run_two(p, EventView::Field(k), e);
    assert(q.stack.last() == (f.push((k, ValueView::Pending)), k));
    assert(parser_step(q, e) == scalar(q, e));
    assert(with_field(q, k, v).stack =~= with_new(p, k, v).stack);
}

/// The events of an entry of a list of stretches of log.
pub open spec fn range_events(w: WalRange) -> Seq<EventView> {
    seq![EventView::ObjectStart] + seq![
        EventView::Field(encode_utf8("Timeline"@)),
        EventView::Number(encode_utf8(decimal(w.tli as nat))),
    ] + seq![
        EventView::Field(encode_utf8("Start-LSN"@)),
        EventView::Text(encode_utf8(lsn_chars(w.start))),
    ] + seq![
        EventView::Field(encode_utf8("End-LSN"@)),
        EventView::Text(encode_utf8(lsn_chars(w.end))),
    ] + seq![EventView::ObjectEnd]
}

/// The events of an entry of a list of files.
pub open spec fn file_events(path: Seq<u8>, size: u64) -> Seq<EventView> {
    seq![EventView::ObjectStart] + seq![
        EventView::Field(encode_utf8("Path"@)),
        EventView::Text(path),
    ] + seq![
        EventView::Field(encode_utf8("Size"@)),
        EventView::Number(encode_utf8(decimal(size as nat))),
    ] + seq![EventView::ObjectEnd]
}

proof fn lemma_distinct(a: Seq<char>, b: Seq<char>)
    requires
        a != b,
    ensures
        encode_utf8(a) != encode_utf8(b),
{
    encode_utf8_decode_utf8(a);
    encode_utf8_decode_utf8(b);
}

proof fn lemma_open(p: ParserView)
    requires
        p.stack.len() == 1,
        p.array is Some,
        p.root is None,
    ensures
        run_from(p, seq![EventView::ObjectStart]) == Ok::<ParserView, Seq<char>>(
            ParserView { stack: p.stack.push((Seq::empty(), Seq::empty())), ..p },
        ),
{
    lemma_run_one(p, EventView::ObjectStart);
}

/// The entry of a stretch of log adds that stretch.
proof fn lemma_range_events(p: ParserView, w: WalRange)
    requires
        p.stack.len() == 1,
        p.array == Some(encode_utf8("WAL-Ranges"@)),
        p.root is None,
        w.tli > 0,
        0 < w.start < w.end,
        forall|i: int|
            0 <= i < p.result.ranges.len() ==> (#[trigger] p.result.ranges[i]).tli != w.tli,
    ensures
        run_from(p, range_events(w)) == Ok::<ParserView, Seq<char>>(
            ParserView {
                result: UploadedView { ranges: p.result.ranges.push(w), ..p.result },
                ..p
            },
        ),
{
    reveal_strlit("Timeline");
    reveal_strlit("Start-LSN");
    reveal_strlit("End-LSN");
    reveal_strlit("Files");
    reveal_strlit("WAL-Ranges");
    let kt = encode_utf8("Timeline"@);
    let ks = encode_utf8("Start-LSN"@);
    let ke = encode_utf8("End-LSN"@);
    assert("Timeline"@.len() == 8 && "Start-LSN"@.len() == 9 && "End-LSN"@.len() == 7);
    assert("Files"@.len() == 5 && "WAL-Ranges"@.len() == 10);
    lemma_distinct("Timeline"@, "Start-LSN"@);
    lemma_distinct("Timeline"@, "End-LSN"@);
    lemma_distinct("Start-LSN"@, "End-LSN"@);
    lemma_distinct("Files"@, "WAL-Ranges"@);
    lemma_open(p);
    let p0 = ParserView { stack: p.stack.push((Seq::empty(), Seq::empty())), ..p };
    let et = EventView::Number(encode_utf8(decimal(w.tli as nat)));
    let es = EventView::Text(encode_utf8(lsn_chars(w.start)));
    let ee = EventView::Text(encode_utf8(lsn_chars(w.end)));
    lemma_number_reads_back(w.tli as u64);
    lemma_field_events(p0, kt, et);
    let p1 = with_new(p0, kt, value_of(et)->0);
    assert(lacks(p1.stack.last().0, ks));
    lemma_field_events(p1, ks, es);
    let p2 = with_new(p1, ks, value_of(es)->0);
    assert(lacks(p2.stack.last().0, ke));
    lemma_field_events(p2, ke, ee);
    let p3 = with_new(p2, ke, value_of(ee)->0);
    let a = seq![EventView::ObjectStart];
    let b = seq![EventView::Field(kt), et];
    let c = seq![EventView::Field(ks), es];
    let d = seq![EventView::Field(ke), ee];
    lemma_run_on(p, a, b);
    lemma_run_on(p, a + b, c);
    lemma_run_on(p, a + b + c, d);
    lemma_run_on(p, a + b + c + d, seq![EventView::ObjectEnd]);
    lemma_run_one(p3, EventView::ObjectEnd);
    let f = p3.stack.last().0;
    assert(f.len() == 3);
    assert(f[0] == (kt, value_of(et)->0) && f[1] == (ks, value_of(es)->0) && f[2] == (
        ke,
        value_of(ee)->0,
    ));
    lemma_range_reads_back(f, p.result.ranges, w, 0, 1, 2);
    assert(p3.stack.drop_last() =~= p.stack);
    assert(parser_step(p3, EventView::ObjectEnd) == object_end(p3));
}

/// The entry of a file adds that file.
proof fn lemma_file_events(p: ParserView, path: Seq<u8>, size: u64)
    requires
        p.stack.len() == 1,
        p.array == Some(encode_utf8("Files"@)),
        p.root is None,
        good_path(path),
        size <= i64::MAX,
        !p.result.files.dom().contains(path),
    ensures
        run_from(p, file_events(path, size)) == Ok::<ParserView, Seq<char>>(
            ParserView {
                result: UploadedView { files: p.result.files.insert(path, size), ..p.result },
                ..p
            },
        ),
{
    reveal_strlit("Path");
    reveal_strlit("Size");
    reveal_strlit("Encoded-Path");
    reveal_strlit("Last-Modified");
    reveal_strlit("Checksum");
    reveal_strlit("Checksum-Algorithm");
    let kp = encode_utf8("Path"@);
    let ks = encode_utf8("Size"@);
    assert("Path"@[0] == 'P' && "Size"@[0] == 'S');
    assert("Path"@.len() == 4 && "Size"@.len() == 4 && "Encoded-Path"@.len() == 12
        && "Last-Modified"@.len() == 13 && "Checksum"@.len() == 8 && "Checksum-Algorithm"@.len()
        == 18);
    lemma_distinct("Path"@, "Size"@);
    lemma_distinct("Path"@, "Encoded-Path"@);
    lemma_distinct("Path"@, "Last-Modified"@);
    lemma_distinct("Path"@, "Checksum"@);
    lemma_distinct("Path"@, "Checksum-Algorithm"@);
    lemma_distinct("Size"@, "Encoded-Path"@);
    lemma_distinct("Size"@, "Last-Modified"@);
    lemma_distinct("Size"@, "Checksum"@);
    lemma_distinct("Size"@, "Checksum-Algorithm"@);
    lemma_open(p);
    let p0 = ParserView { stack: p.stack.push((Seq::empty(), Seq::empty())), ..p };
    let ep = EventView::Text(path);
    let es = EventView::Number(encode_utf8(decimal(size as nat)));
    lemma_number_reads_back(size);
    lemma_field_events(p0, kp, ep);
    let p1 = with_new(p0, kp, value_of(ep)->0);
    assert(lacks(p1.stack.last().0, ks));
    lemma_field_events(p1, ks, es);
    let p2 = with_new(p1, ks, value_of(es)->0);
    let a = seq![EventView::ObjectStart];
    let b = seq![EventView::Field(kp), ep];
    let c = seq![EventView::Field(ks), es];
    lemma_run_on(p, a, b);
    lemma_run_on(p, a + b, c);
    lemma_run_on(p, a + b + c, seq![EventView::ObjectEnd]);
    lemma_run_one(p2, EventView::ObjectEnd);
    let f = p2.stack.last().0;
    assert(f.len() == 2 && f[0] == (kp, value_of(ep)->0) && f[1] == (ks, value_of(es)->0));
    lemma_file_reads_back(f, path, size, 0, 1);
    assert(p2.stack.drop_last() =~= p.stack);
    assert(parser_step(p2, EventView::ObjectEnd) == object_end(p2));
}

/// The entries of stretches of log, one after another.
pub open spec fn ranges_events(ranges: Seq<WalRange>) -> Seq<EventView>
    decreases ranges.len(),
{
    if ranges.len() == 0 {
        Seq::empty()
    } else {
        ranges_events(ranges.drop_last()) + range_events(ranges.last())
    }
}

/// The entries of files, one after another.
pub open spec fn files_events(files: Seq<(Seq<u8>, u64)>) -> Seq<EventView>
    decreases files.len(),
{
    if files.len() == 0 {
        Seq::empty()
    } else {
        files_events(files.drop_last()) + file_events(files.last().0, files.last().1)
    }
}

/// The files as a map from path to size.
pub open spec fn listed(files: Seq<(Seq<u8>, u64)>) -> Map<Seq<u8>, u64> {
    Map::new(
        |k: Seq<u8>| exists|i: int| 0 <= i < files.len() && (#[trigger] files[i]).0 == k,
        |k: Seq<u8>|
            files[choose|i: int| 0 <= i < files.len() && (#[trigger] files[i]).0 == k].1,
    )
}

/// Files that a manifest may list: sound paths, none twice, and sizes that 63 bits hold.
pub open spec fn sound_files(files: Seq<(Seq<u8>, u64)>) -> bool {
    &&& forall|i: int|
        0 <= i < files.len() ==> good_path((#[trigger] files[i]).0) && files[i].1 <= i64::MAX
    &&& forall|i: int, j: int|
        0 <= i < j < files.len() ==> (#[trigger] files[i]).0 != (#[trigger] files[j]).0
}

/// Stretches of log that a manifest may list: each of a timeline of its own, and not empty.
pub open spec fn sound_ranges(ranges: Seq<WalRange>) -> bool {
    &&& forall|i: int|
        0 <= i < ranges.len() ==> (#[trigger] ranges[i]).tli > 0 && 0 < ranges[i].start
            < ranges[i].end
    &&& forall|i: int, j: int|
        0 <= i < j < ranges.len() ==> (#[trigger] ranges[i]).tli != (#[trigger] ranges[j]).tli
}

proof fn lemma_listed_push(files: Seq<(Seq<u8>, u64)>)
    requires
        files.len() > 0,
        sound_files(files),
    ensures
        !listed(files.drop_last()).dom().contains(files.last().0),
        listed(files) == listed(files.drop_last()).insert(files.last().0, files.last().1),
        sound_files(files.drop_last()),
{
    let t = files.drop_last();
    let n = files.len() - 1;
    assert(forall|i: int| 0 <= i < n ==> #[trigger] t[i] == files[i]);
    assert forall|i: int, j: int| 0 <= i < j < t.len() implies (#[trigger] t[i]).0 != (
    #[trigger] t[j]).0 by {
        assert(files[i].0 != files[j].0);
    }
    if listed(t).dom().contains(files.last().0) {
        let i = choose|i: int| 0 <= i < t.len() && (#[trigger] t[i]).0 == files.last().0;
        assert(files[i].0 == files[n].0);
    }
    let a = listed(files);
    let b = listed(t).insert(files.last().0, files.last().1);
    assert forall|k: Seq<u8>| a.dom().contains(k) == b.dom().contains(k) by {
        if a.dom().contains(k) {
            let i = choose|i: int| 0 <= i < files.len() && (#[trigger] files[i]).0 == k;
            if i < n {
                assert(t[i].0 == k);
            }
        }
        if listed(t).dom().contains(k) {
            let i = choose|i: int| 0 <= i < t.len() && (#[trigger] t[i]).0 == k;
            assert(files[i].0 == k);
        }
        assert(files[n].0 == files.last().0);
    }
    assert forall|k: Seq<u8>| a.dom().contains(k) implies a[k] == b[k] by {
        let i = choose|i: int| 0 <= i < files.len() && (#[trigger] files[i]).0 == k;
        if k == files.last().0 {
            if i < n {
                assert(files[i].0 != files[n].0);
            }
        } else {
            assert(t[i].0 == k);
            let j = choose|j: int| 0 <= j < t.len() && (#[trigger] t[j]).0 == k;
            if i < j {
                assert(files[i].0 != files[j].0);
            }
            if j < i {
                assert(files[j].0 != files[i].0);
            }
        }
    }
    assert(a =~= b);
}

proof fn lemma_files_events(p: ParserView, files: Seq<(Seq<u8>, u64)>)
    requires
        p.stack.len() == 1,
        p.array == Some(encode_utf8("Files"@)),
        p.root is None,
        p.result.files == Map::<Seq<u8>, u64>::empty(),
        sound_files(files),
    ensures
        run_from(p, files_events(files)) == Ok::<ParserView, Seq<char>>(
            ParserView { result: UploadedView { files: listed(files), ..p.result }, ..p },
        ),
    decreases files.len(),
{
    reveal(run_from);
    if files.len() == 0 {
        assert(listed(files) =~= Map::<Seq<u8>, u64>::empty());
        assert(p.result =~= UploadedView { files: listed(files), ..p.result });
    } else {
        let t = files.drop_last();
        lemma_listed_push(files);
        lemma_files_events(p, t);
        let q = ParserView { result: UploadedView { files: listed(t), ..p.result }, ..p };
        let last = files[files.len() - 1];
        assert(good_path(last.0));
        lemma_file_events(q, last.0, last.1);
        lemma_run_on(p, files_events(t), file_events(last.0, last.1));
    }
}

proof fn lemma_ranges_events(p: ParserView, ranges: Seq<WalRange>)
    requires
        p.stack.len() == 1,
        p.array == Some(encode_utf8("WAL-Ranges"@)),
        p.root is None,
        p.result.ranges == Seq::<WalRange>::empty(),
        sound_ranges(ranges),
    ensures
        run_from(p, ranges_events(ranges)) == Ok::<ParserView, Seq<char>>(
            ParserView { result: UploadedView { ranges, ..p.result }, ..p },
        ),
    decreases ranges.len(),
{
    reveal(run_from);
    if ranges.len() == 0 {
        assert(ranges =~= Seq::empty());
    } else {
        let t = ranges.drop_last();
        let w = ranges[ranges.len() - 1];
        assert(forall|i: int| 0 <= i < t.len() ==> #[trigger] t[i] == ranges[i]);
        assert forall|i: int, j: int| 0 <= i < j < t.len() implies (#[trigger] t[i]).tli != (
        #[trigger] t[j]).tli by {
            assert(ranges[i].tli != ranges[j].tli);
        }
        lemma_ranges_events(p, t);
        let q = ParserView { result: UploadedView { ranges: t, ..p.result }, ..p };
        assert forall|i: int| 0 <= i < t.len() implies (#[trigger] t[i]).tli != w.tli by {
            assert(ranges[i].tli != ranges[ranges.len() - 1].tli);
        }
        lemma_range_events(q, w);
        lemma_run_on(p, ranges_events(t), range_events(w));
        assert(t.push(w) =~= ranges);
    }
}

/// The events of a list that is a field of the outermost object.
pub open spec fn list_events(k: Seq<u8>, entries: Seq<EventView>) -> Seq<EventView> {
    seq![EventView::Field(k), EventView::ArrayStart] + entries + seq![EventView::ArrayEnd]
}

/// A list is opened as a new field.
proof fn lemma_list_start(p: ParserView, k: Seq<u8>)
    requires
        p.stack.len() == 1,
        p.array is None,
        lacks(p.stack.last().0, k),
        k == encode_utf8("Files"@) || k == encode_utf8("WAL-Ranges"@),
    ensures
        run_from(p, seq![EventView::Field(k), EventView::ArrayStart]) == Ok::<
            ParserView,
            Seq<char>,
        >(ParserView { array: Some(k), ..with_new(p, k, ValueView::Array) }),
{
    let f = p.stack.last().0;
    lemma_put_new(f, k, ValueView::Pending, ValueView::Array);
    let q = parser_step(p, EventView::Field(k))->Ok_0;
    lemma_run_two(p, EventView::Field(k), EventView::ArrayStart);
    assert(q.stack.last() == (f.push((k, ValueView::Pending)), k));
    assert(q.stack[0] == q.stack.last());
    assert(with_field(q, k, ValueView::Array).stack =~= with_new(p, k, ValueView::Array).stack);
}

/// What a reader of JSON comes upon in a manifest of the database `system` that lists these files
/// and stretches of log and closes with the checksum `sum`, in hexadecimal.
pub open spec fn manifest_events(
    system: u64,
    files: Seq<(Seq<u8>, u64)>,
    ranges: Seq<WalRange>,
    sum: Seq<u8>,
) -> Seq<EventView> {
    seq![EventView::ObjectStart] + seq![
        EventView::Field(encode_utf8("PostgreSQL-Backup-Manifest-Version"@)),
        EventView::Number(encode_utf8(decimal(2))),
    ] + seq![
        EventView::Field(encode_utf8("System-Identifier"@)),
        EventView::Number(encode_utf8(decimal(system as nat))),
    ] + list_events(encode_utf8("Files"@), files_events(files)) + list_events(
        encode_utf8("WAL-Ranges"@),
        ranges_events(ranges),
    ) + seq![EventView::Field(encode_utf8("Manifest-Checksum"@)), EventView::Text(sum)] + seq![
        EventView::ObjectEnd,
    ]
}

/// The fields of the outermost object of a manifest.
pub open spec fn root_fields(system: u64, sum: Seq<u8>) -> FieldsView {
    seq![
        (encode_utf8("PostgreSQL-Backup-Manifest-Version"@), ValueView::Number(2)),
        (encode_utf8("System-Identifier"@), ValueView::Number(system)),
        (encode_utf8("Files"@), ValueView::Array),
        (encode_utf8("WAL-Ranges"@), ValueView::Array),
        (encode_utf8("Manifest-Checksum"@), ValueView::Text(sum)),
    ]
}

proof fn lemma_root_names()
    ensures
        ({
            let a = encode_utf8("PostgreSQL-Backup-Manifest-Version"@);
            let b = encode_utf8("System-Identifier"@);
            let c = encode_utf8("Files"@);
            let d = encode_utf8("WAL-Ranges"@);
            let e = encode_utf8("Manifest-Checksum"@);
            a != b && a != c && a != d && a != e && b != c && b != d && b != e && c != d && c != e
                && d != e
        }),
{
    reveal_strlit("PostgreSQL-Backup-Manifest-Version");
    reveal_strlit("System-Identifier");
    reveal_strlit("Files");
    reveal_strlit("WAL-Ranges");
    reveal_strlit("Manifest-Checksum");
    let a = "PostgreSQL-Backup-Manifest-Version"@;
    let b = "System-Identifier"@;
    let c = "Files"@;
    let d = "WAL-Ranges"@;
    let e = "Manifest-Checksum"@;
    assert(a.len() == 34 && b.len() == 17 && c.len() == 5 && d.len() == 10 && e.len() == 17);
    assert(b[0] == 'S' && e[0] == 'M');
    lemma_distinct(a, b);
    lemma_distinct(a, c);
    lemma_distinct(a, d);
    lemma_distinct(a, e);
    lemma_distinct(b, c);
    lemma_distinct(b, d);
    lemma_distinct(b, e);
    lemma_distinct(c, d);
    lemma_distinct(c, e);
    lemma_distinct(d, e);
}

/// A list adds what its entries add, and is one more field of the outermost object.
proof fn lemma_list_events(p: ParserView, k: Seq<u8>, entries: Seq<EventView>, result: UploadedView)
    requires
        p.stack.len() == 1,
        p.array is None,
        lacks(p.stack.last().0, k),
        k == encode_utf8("Files"@) || k == encode_utf8("WAL-Ranges"@),
        ({
            let q = ParserView { array: Some(k), ..with_new(p, k, ValueView::Array) };
            run_from(q, entries) == Ok::<ParserView, Seq<char>>(ParserView { result, ..q })
        }),
    ensures
        run_from(p, list_events(k, entries)) == Ok::<ParserView, Seq<char>>(
            ParserView { result, ..with_new(p, k, ValueView::Array) },
        ),
{
    let q = ParserView { array: Some(k), ..with_new(p, k, ValueView::Array) };
    let start = seq![EventView::Field(k), EventView::ArrayStart];
    lemma_list_start(p, k);
    lemma_run_on(p, start, entries);
    let r = ParserView { result, ..q };
    lemma_run_on(p, start + entries, seq![EventView::ArrayEnd]);
    lemma_run_one(r, EventView::ArrayEnd);
}

/// A reader in the outermost object, outside any list.
pub open spec fn in_root(f: FieldsView, key: Seq<u8>, result: UploadedView) -> ParserView {
    ParserView { stack: seq![(f, key)], root: None, array: None, result }
}

/// One more field of the outermost object.
proof fn lemma_root_field(f: FieldsView, key: Seq<u8>, result: UploadedView, k: Seq<u8>, e: EventView)
    requires
        lacks(f, k),
        value_of(e) is Some,
    ensures
        run_from(in_root(f, key, result), seq![EventView::Field(k), e]) == Ok::<
            ParserView,
            Seq<char>,
        >(in_root(f.push((k, value_of(e)->0)), k, result)),
{
    let p = in_root(f, key, result);
    lemma_field_events(p, k, e);
    let g = f.push((k, value_of(e)->0));
    assert(with_new(p, k, value_of(e)->0).stack =~= in_root(g, k, result).stack);
}

/// The list of files is one more field of the outermost object.
proof fn lemma_root_files(
    f: FieldsView,
    key: Seq<u8>,
    result: UploadedView,
    files: Seq<(Seq<u8>, u64)>,
)
    requires
        lacks(f, encode_utf8("Files"@)),
        sound_files(files),
        result.files == Map::<Seq<u8>, u64>::empty(),
    ensures
        run_from(
            in_root(f, key, result),
            list_events(encode_utf8("Files"@), files_events(files)),
        ) == Ok::<ParserView, Seq<char>>(
            in_root(
                f.push((encode_utf8("Files"@), ValueView::Array)),
                encode_utf8("Files"@),
                UploadedView { files: listed(files), ..result },
            ),
        ),
{
    let k = encode_utf8("Files"@);
    let p = in_root(f, key, result);
    let q = ParserView { array: Some(k), ..with_new(p, k, ValueView::Array) };
    let r = UploadedView { files: listed(files), ..result };
    lemma_files_events(q, files);
    lemma_list_events(p, k, files_events(files), r);
    let g = f.push((k, ValueView::Array));
    assert(with_new(p, k, ValueView::Array).stack =~= in_root(g, k, r).stack);
}

/// The list of stretches of log is one more field of the outermost object.
proof fn lemma_root_ranges(
    f: FieldsView,
    key: Seq<u8>,
    result: UploadedView,
    ranges: Seq<WalRange>,
)
    requires
        lacks(f, encode_utf8("WAL-Ranges"@)),
        sound_ranges(ranges),
        result.ranges == Seq::<WalRange>::empty(),
    ensures
        run_from(
            in_root(f, key, result),
            list_events(encode_utf8("WAL-Ranges"@), ranges_events(ranges)),
        ) == Ok::<ParserView, Seq<char>>(
            in_root(
                f.push((encode_utf8("WAL-Ranges"@), ValueView::Array)),
                encode_utf8("WAL-Ranges"@),
                UploadedView { ranges, ..result },
            ),
        ),
{
    let k = encode_utf8("WAL-Ranges"@);
    let p = in_root(f, key, result);
    let q = ParserView { array: Some(k), ..with_new(p, k, ValueView::Array) };
    let r = UploadedView { ranges, ..result };
    lemma_ranges_events(q, ranges);
    lemma_list_events(p, k, ranges_events(ranges), r);
    let g = f.push((k, ValueView::Array));
    assert(with_new(p, k, ValueView::Array).stack =~= in_root(g, k, r).stack);
}

/// The outermost object is opened and closed.
proof fn lemma_root_ends(f: FieldsView, key: Seq<u8>, result: UploadedView)
    ensures
        run_from(Parser::first(), seq![EventView::ObjectStart]) == Ok::<ParserView, Seq<char>>(
            in_root(
                Seq::empty(),
                Seq::empty(),
                UploadedView { files: Map::empty(), ranges: Seq::empty() },
            ),
        ),
        run_from(in_root(f, key, result), seq![EventView::ObjectEnd]) == Ok::<
            ParserView,
            Seq<char>,
        >(ParserView { stack: Seq::empty(), root: Some(f), array: None, result }),
{
    let first = Parser::first();
    lemma_run_one(first, EventView::ObjectStart);
    let e: FieldsView = Seq::empty();
    assert(first.stack.push((e, Seq::empty())) =~= seq![(e, Seq::empty())]);
    let p = in_root(f, key, result);
    lemma_run_one(p, EventView::ObjectEnd);
    assert(p.stack.drop_last() =~= Seq::empty());
    assert(p.stack.last() == (f, key));
}

/// A manifest reads back: what it lists of files and of log is what the reader has in the end,
/// nothing lost, added, shortened or changed.
pub proof fn lemma_listing_reads_back(
    system: u64,
    files: Seq<(Seq<u8>, u64)>,
    ranges: Seq<WalRange>,
    sum: Seq<u8>,
)
    requires
        sound_files(files),
        sound_ranges(ranges),
    ensures
        ({
            let events = manifest_events(system, files, ranges, sum);
            &&& parser_run(events, events.len()) matches Ok(p)
            &&& p.root == Some(root_fields(system, sum))
            &&& p.result.ranges == ranges
            &&& p.result.files == listed(files)
        }),
{
    let kv = encode_utf8("PostgreSQL-Backup-Manifest-Version"@);
    let ki = encode_utf8("System-Identifier"@);
    let kf = encode_utf8("Files"@);
    let kr = encode_utf8("WAL-Ranges"@);
    let kc = encode_utf8("Manifest-Checksum"@);
    lemma_root_names();
    let first = Parser::first();
    let ev = EventView::Number(encode_utf8(decimal(2)));
    let ei = EventView::Number(encode_utf8(decimal(system as nat)));
    let ec = EventView::Text(sum);
    lemma_number_reads_back(2);
    lemma_number_reads_back(system);
    let r0 = UploadedView { files: Map::empty(), ranges: Seq::empty() };
    let r3 = UploadedView { files: listed(files), ranges: Seq::empty() };
    let r4 = UploadedView { files: listed(files), ranges };
    let f0: FieldsView = Seq::empty();
    let f1 = f0.push((kv, ValueView::Number(2)));
    let f2 = f1.push((ki, ValueView::Number(system)));
    let f3 = f2.push((kf, ValueView::Array));
    let f4 = f3.push((kr, ValueView::Array));
    let f5 = f4.push((kc, ValueView::Text(sum)));
    let a = seq![EventView::ObjectStart];
    let b = seq![EventView::Field(kv), ev];
    let c = seq![EventView::Field(ki), ei];
    let d = list_events(kf, files_events(files));
    let e = list_events(kr, ranges_events(ranges));
    let g = seq![EventView::Field(kc), ec];
    let h = seq![EventView::ObjectEnd];
    lemma_root_ends(f5, kc, r4);
    lemma_root_field(f0, Seq::empty(), r0, kv, ev);
    lemma_root_field(f1, kv, r0, ki, ei);
    lemma_root_files(f2, ki, r0, files);
    lemma_root_ranges(f3, kf, r3, ranges);
    lemma_root_field(f4, kr, r4, kc, ec);
    lemma_run_on(first, a, b);
    lemma_run_on(first, a + b, c);
    lemma_run_on(first, a + b + c, d);
    lemma_run_on(first, a + b + c + d, e);
    lemma_run_on(first, a + b + c + d + e, g);
    lemma_run_on(first, a + b + c + d + e + g, h);
    let events = manifest_events(system, files, ranges, sum);
    lemma_run_from(events, events.len());
    assert(events.take(events.len() as int) =~= events);
    assert(events == a + b + c + d + e + g + h);
    assert(f5 =~= root_fields(system, sum));
}

/// The manifest of a backup of this database is accepted for what it lists, and that of another
/// database, or one without log, is refused; so far as its outermost object goes.
pub proof fn lemma_root_is_accepted(system: u64, sum: Seq<u8>, ranges: Seq<WalRange>, own: u64)
    ensures
        root_fault(root_fields(system, sum), ranges, own) is None <==> system == own
            && ranges.len() > 0,
{
    lemma_root_names();
    let f = root_fields(system, sum);
    lemma_field_is_found(f, 0, f[0].0, f[0].1);
    lemma_field_is_found(f, 1, f[1].0, f[1].1);
    lemma_field_is_found(f, 2, f[2].0, f[2].1);
    lemma_field_is_found(f, 3, f[3].0, f[3].1);
}

/// What a reader has at any time is sound.
proof fn lemma_run_is_sound(events: Seq<EventView>, n: nat)
    requires
        n <= events.len(),
        parser_run(events, n) is Ok,
    ensures
        ({
            let p = parser_run(events, n)->Ok_0;
            &&& sound_ranges(p.result.ranges)
            &&& forall|k: Seq<u8>| #[trigger]
                p.result.files.dom().contains(k) ==> good_path(k) && p.result.files[k] <= i64::MAX
        }),
    decreases n,
{
    if n > 0 {
        lemma_run_is_sound(events, (n - 1) as nat);
        let p = parser_run(events, (n - 1) as nat)->Ok_0;
        let q = parser_run(events, n)->Ok_0;
        let e = events[n - 1];
        if e is ObjectEnd && p.stack.len() > 1 {
            let f = p.stack.last().0;
            if p.array == Some(encode_utf8("Files"@)) {
                lemma_file_is_sound(f);
                assert(q.result.ranges == p.result.ranges);
            } else {
                lemma_range_is_sound(f, p.result.ranges);
                let w = range_entry(f, p.result.ranges)->Ok_0;
                assert(q.result.ranges == p.result.ranges.push(w));
                assert forall|i: int, j: int| 0 <= i < j < q.result.ranges.len() implies (
                #[trigger] q.result.ranges[i]).tli != (#[trigger] q.result.ranges[j]).tli by {
                    assert(p.result.ranges[i].tli != w.tli);
                    if j < p.result.ranges.len() {
                        assert(p.result.ranges[i].tli != p.result.ranges[j].tli);
                    }
                }
            }
        } else {
            assert(q.result == p.result);
        }
    }
}

/// An accepted manifest is sound: it lists log, each stretch of a timeline of its own and not
/// empty, and every path in it is relative, without empty components or steps up.
pub proof fn lemma_accepted_manifest_is_sound(
    input: Seq<u8>,
    events: Seq<EventView>,
    complete: bool,
    system: u64,
)
    requires
        manifest_of(input, events, complete, system) is Ok,
    ensures
        ({
            let u = manifest_of(input, events, complete, system)->Ok_0;
            &&& complete
            &&& u.ranges.len() > 0
            &&& sound_ranges(u.ranges)
            &&& forall|k: Seq<u8>| #[trigger]
                u.files.dom().contains(k) ==> good_path(k) && u.files[k] <= i64::MAX
        }),
{
    lemma_run_is_sound(events, events.len());
}

} // verus!
