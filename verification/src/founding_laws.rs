//! What an archive is founded on, what recovery is told, and how files and rows are named.
use crate::create::{seed_read, segment_file, Founding, Shutdown};
use crate::decode::Reading;
use crate::http::{endpoint_fault, good_prefix, url_parts};
use crate::incremental::{summary_file, Summary};
use crate::json::JsonView;
use crate::lines::{digit_value, digits_value, number_value, words};
use crate::publish_laws::{complete_records, lemma_last_complete_record, lemma_segment_start};
use crate::restore_laws::lemma_power_of_two;
use crate::row_key::{row_of_tid, Tid};
use crate::scan::{lifted, oid_in, oids_in, rows_at};
use crate::select::segment_start;
use crate::startup::{recovery_choices, required, Settings};
use crate::text::decimal;
use crate::text_laws::lemma_position_reads_back;
use crate::wire::{digest_of, lsn_chars, lsn_value, upper_digit, upper_hex_padded};
use vstd::arithmetic::power2::pow2;
use vstd::prelude::*;

verus! {

/// An archive is founded exactly on a database that was shut down cleanly on its first timeline,
/// with its last checkpoint where its log ends, of the expected versions, in no backup, whose
/// segments have a size of a power of two from one megabyte to one gigabyte, eight of which fit
/// into memory.
pub proof fn lemma_founded_on(c: Shutdown, version: u32, catalog: u32, limit: nat)
    ensures
        c.founds(version, catalog, limit) <==> {
            &&& c.valid && c.clean
            &&& c.version == version && c.catalog == catalog
            &&& c.timeline == 1
            &&& c.redo == c.checkpoint
            &&& c.backup_start == 0 && !c.backup_end_required
            &&& 1048576 <= c.segment_bytes <= 1073741824
            &&& exists|k: nat| c.segment_bytes as nat == #[trigger] pow2(k)
            &&& 8 * c.segment_bytes <= limit
        },
{
    lemma_power_of_two(c.segment_bytes as nat);
}

/// The first log of an archive is taken exactly where its first complete record is the checkpoint.
pub proof fn lemma_seed_begins_with_the_checkpoint(
    checkpoint: u64,
    size: nat,
    len: nat,
    reading: Reading,
    n: int,
)
    requires
        size > 0,
        segment_start(checkpoint, size) + len <= u64::MAX,
        checkpoint <= segment_start(checkpoint, size) + len,
        reading.error is None,
        reading.positioned,
        complete_records(
            reading.records@,
            (segment_start(checkpoint, size) + len) as u64,
            n,
        ),
    ensures
        n > 0 ==> (seed_read(checkpoint, size, len, reading) is Ok <==> reading.records@[0].0
            == checkpoint && checkpoint < reading.records@[0].1),
        n == 0 ==> seed_read(checkpoint, size, len, reading) is Err,
{
    let base = segment_start(checkpoint, size);
    lemma_segment_start(checkpoint, size);
    lemma_last_complete_record(
        len,
        base,
        (base + len) as u64,
        checkpoint,
        size,
        reading,
        n,
    );
}

/// What a new archive says: its first descriptor covers the log from the segment of the backup's
/// start, follows no other and names its chunk by its digest; its backup is the snapshot's, with
/// that descriptor for its anchor.
pub proof fn lemma_first_objects(f: Founding, record: u64, end: u64, chunk: Seq<u8>, tail: Seq<char>)
    ensures
        ({
            let d = f.first_descriptor(record, end, chunk);
            let b = f.first_backup(record, end, tail);
            &&& d.at("start"@) == JsonView::Number(segment_start(f.start, f.segment as nat))
            &&& d.at("end"@) == JsonView::Number(end)
            &&& d.at("record_start"@) == JsonView::Number(record)
            &&& d.at("previous"@) == JsonView::Null
            &&& d.at("chunk"@) == JsonView::Text(digest_of(chunk))
            &&& d.at("cluster"@) == JsonView::Text(decimal(f.system as nat))
            &&& d.at("timeline"@) == JsonView::Number(f.timeline as u64)
            &&& b.at("start"@) == JsonView::Number(f.start)
            &&& b.at("end"@) == JsonView::Number(f.end)
            &&& b.at("archive_start"@) == d.at("start"@)
            &&& b.at("seed_end"@) == JsonView::Number(end)
            &&& b.at("seed_record_start"@) == JsonView::Number(record)
            &&& b.at("anchor"@) == JsonView::Text(tail)
            &&& b.at("image"@) == JsonView::Text(f.image@)
            &&& b.at("manifest"@) == JsonView::Text(f.manifest@)
            &&& b.at("cluster"@) == d.at("cluster"@)
            &&& b.at("timeline"@) == d.at("timeline"@)
            &&& b.at("root_history"@) == JsonView::Null
            &&& b.at("parent"@) == JsonView::Null
        }),
{
    crate::archive_laws::lemma_descriptor_fields(
        f.cluster(),
        JsonView::Number(f.timeline as u64),
        f.base(),
        end,
        record,
        JsonView::Null,
        digest_of(chunk),
    );
    crate::select_laws::lemma_backup_fields(
        f.cluster(),
        f.timeline,
        f.start,
        f.end,
        f.manifest@,
        f.image@,
        f.base(),
        end,
        record,
        JsonView::Text(tail),
        JsonView::Null,
    );
}

/// Eight digits spell every number of 32 bits.
proof fn lemma_padded(n: nat, w: nat)
    requires
        w <= 8,
        n < pow16(w),
    ensures
        digits_value(upper_hex_padded(n, w), 16) == Ok::<nat, Seq<char>>(n),
        upper_hex_padded(n, w).len() == w,
        forall|i: int| 0 <= i < w ==> '0' <= #[trigger] upper_hex_padded(n, w)[i] <= 'F',
    decreases w,
{
    reveal_with_fuel(pow16, 10);
    if w > 0 {
        let d = n % 16;
        assert(digit_value(upper_digit(d), 16) == Some(d));
        lemma_padded(n / 16, (w - 1) as nat);
        let head = upper_hex_padded(n / 16, (w - 1) as nat);
        let s = upper_hex_padded(n, w);
        assert(s.drop_last() =~= head);
        assert forall|i: int| 0 <= i < w implies '0' <= #[trigger] s[i] <= 'F' by {
            if i < head.len() {
                assert(s[i] == head[i]);
            }
        }
    }
}

spec fn pow16(w: nat) -> nat
    decreases w,
{
    if w == 0 {
        1
    } else {
        16 * pow16((w - 1) as nat)
    }
}

proof fn lemma_eight_digits(n: nat)
    requires
        n <= u32::MAX,
    ensures
        number_value(upper_hex_padded(n, 8), 16) == Ok::<nat, Seq<char>>(n),
        upper_hex_padded(n, 8).len() == 8,
{
    reveal_with_fuel(pow16, 10);
    lemma_padded(n, 8);
    assert('0' <= upper_hex_padded(n, 8)[0]);
}

/// The name of a log file tells its segment: the first timeline, and then two numbers that give the
/// segment back.
pub proof fn lemma_segment_name_reads_back(seg: u64, size: nat)
    requires
        1048576 <= size <= 1073741824,
        0x1_0000_0000nat % size == 0,
        seg as nat * size <= u64::MAX,
    ensures
        ({
            let name = segment_file(seg, size);
            let per_id = 0x1_0000_0000nat / size;
            &&& name.len() == 24
            &&& name.take(8) == "00000001"@
            &&& number_value(name.subrange(8, 16), 16) matches Ok(hi) && number_value(
                name.subrange(16, 24),
                16,
            ) matches Ok(lo) && hi * per_id + lo == seg && lo < per_id
        }),
{
    let per_id = 0x1_0000_0000nat / size;
    reveal_strlit("00000001");
    assert(4 <= per_id <= 4096) by (nonlinear_arith)
        requires
            per_id == 0x1_0000_0000nat / size,
            1048576 <= size <= 1073741824,
    ;
    assert(seg as nat / per_id <= u32::MAX) by {
        assert(per_id * size == 0x1_0000_0000) by {
            vstd::arithmetic::div_mod::lemma_fundamental_div_mod(0x1_0000_0000, size as int);
            vstd::arithmetic::mul::lemma_mul_is_commutative(size as int, per_id as int);
        }
        lemma_high_word(seg as nat, per_id, size);
    }
    vstd::arithmetic::div_mod::lemma_fundamental_div_mod(seg as int, per_id as int);
    vstd::arithmetic::div_mod::lemma_mod_bound(seg as int, per_id as int);
    vstd::arithmetic::mul::lemma_mul_is_commutative(per_id as int, seg as int / per_id as int);
    lemma_eight_digits(seg as nat / per_id);
    lemma_eight_digits(seg as nat % per_id);
    let name = segment_file(seg, size);
    assert(name.take(8) =~= "00000001"@);
    assert(name.subrange(8, 16) =~= upper_hex_padded(seg as nat / per_id, 8));
    assert(name.subrange(16, 24) =~= upper_hex_padded(seg as nat % per_id, 8));
}

proof fn lemma_high_word(seg: nat, per_id: nat, size: nat)
    requires
        seg * size <= u64::MAX,
        4 <= per_id <= 4096,
        per_id * size == 0x1_0000_0000,
    ensures
        seg / per_id <= u32::MAX,
{
    let q = seg / per_id;
    vstd::arithmetic::div_mod::lemma_fundamental_div_mod(seg as int, per_id as int);
    assert(per_id * q <= seg);
    assert(q * (per_id * size) <= seg * size) by (nonlinear_arith)
        requires
            per_id * q <= seg,
    ;
    assert(q <= u32::MAX) by (nonlinear_arith)
        requires
            q * (per_id * size) <= u64::MAX,
            per_id * size == 0x1_0000_0000,
    ;
}

/// The name of a summary's file tells the summary: its timeline, and where it begins and ends.
pub proof fn lemma_summary_name_reads_back(s: Summary)
    ensures
        ({
            let name = summary_file(s);
            let n = "pg_wal/summaries/"@.len() as int;
            &&& name.take(n) == "pg_wal/summaries/"@
            &&& name.skip(n + 40) == ".summary"@
            &&& number_value(name.subrange(n, n + 8), 16) == Ok::<nat, Seq<char>>(s.tli as nat)
            &&& number_value(name.subrange(n + 8, n + 16), 16) matches Ok(a) && number_value(
                name.subrange(n + 16, n + 24),
                16,
            ) matches Ok(b) && a * 0x1_0000_0000 + b == s.start
            &&& number_value(name.subrange(n + 24, n + 32), 16) matches Ok(c) && number_value(
                name.subrange(n + 32, n + 40),
                16,
            ) matches Ok(d) && c * 0x1_0000_0000 + d == s.end
        }),
{
    let name = summary_file(s);
    let n = "pg_wal/summaries/"@.len() as int;
    let a = upper_hex_padded(s.tli as nat, 8);
    let b = upper_hex_padded((s.start / 0x1_0000_0000) as nat, 8);
    let c = upper_hex_padded((s.start % 0x1_0000_0000) as nat, 8);
    let d = upper_hex_padded((s.end / 0x1_0000_0000) as nat, 8);
    let e = upper_hex_padded((s.end % 0x1_0000_0000) as nat, 8);
    lemma_eight_digits(s.tli as nat);
    lemma_eight_digits((s.start / 0x1_0000_0000) as nat);
    lemma_eight_digits((s.start % 0x1_0000_0000) as nat);
    lemma_eight_digits((s.end / 0x1_0000_0000) as nat);
    lemma_eight_digits((s.end % 0x1_0000_0000) as nat);
    assert(name.take(n) =~= "pg_wal/summaries/"@);
    assert(name.subrange(n, n + 8) =~= a);
    assert(name.subrange(n + 8, n + 16) =~= b);
    assert(name.subrange(n + 16, n + 24) =~= c);
    assert(name.subrange(n + 24, n + 32) =~= d);
    assert(name.subrange(n + 32, n + 40) =~= e);
    assert(name.skip(n + 40) =~= ".summary"@);
}

/// Recovery is told to replay up to the last record of the archive, that one included, on the head's
/// timeline, and then to go on as a server of its own; no other target is left standing.
pub proof fn lemma_recovery_reaches_the_last_record(record: u64, timeline: u64)
    ensures
        ({
            let c = recovery_choices(record, timeline);
            &&& c.contains(("recovery_target_lsn"@, lsn_chars(record)))
            &&& lsn_value(lsn_chars(record)) == Ok::<u64, Seq<char>>(record)
            &&& c.contains(("recovery_target_timeline"@, decimal(timeline as nat)))
            &&& c.contains(("recovery_target_inclusive"@, "true"@))
            &&& c.contains(("recovery_target_action"@, "promote"@))
            &&& c.contains(("restore_command"@, Seq::<char>::empty()))
            &&& c.contains(("recovery_target"@, Seq::<char>::empty()))
            &&& c.contains(("recovery_target_name"@, Seq::<char>::empty()))
            &&& c.contains(("recovery_target_time"@, Seq::<char>::empty()))
            &&& c.contains(("recovery_target_xid"@, Seq::<char>::empty()))
            &&& c.len() == 9
        }),
{
    let c = recovery_choices(record, timeline);
    lemma_position_reads_back(record);
    assert(c[0] == ("restore_command"@, Seq::<char>::empty()));
    assert(c[1] == ("recovery_target_lsn"@, lsn_chars(record)));
    assert(c[2] == ("recovery_target_timeline"@, decimal(timeline as nat)));
    assert(c[3] == ("recovery_target_inclusive"@, "true"@));
    assert(c[4] == ("recovery_target_action"@, "promote"@));
    assert(c[5] == ("recovery_target"@, Seq::<char>::empty()));
    assert(c[6] == ("recovery_target_name"@, Seq::<char>::empty()));
    assert(c[7] == ("recovery_target_time"@, Seq::<char>::empty()));
    assert(c[8] == ("recovery_target_xid"@, Seq::<char>::empty()));
}

/// Where an archive is: endpoint, bucket and prefix as they were set, all three of them there and
/// sound, and the region that was set or the usual one.
pub proof fn lemma_where_the_archive_is(s: Settings)
    ensures
        s.located() is Ok <==> {
            &&& s.endpoint matches Some(e) && e@.len() > 0 && endpoint_fault(url_parts(e@)) is None
            &&& s.bucket matches Some(b) && b@.len() > 0
            &&& s.prefix matches Some(p) && p@.len() > 0 && good_prefix(p@)
        },
        s.located() matches Ok((endpoint, bucket, region, prefix)) ==> {
            &&& endpoint == s.endpoint->0@
            &&& bucket == s.bucket->0@
            &&& prefix == s.prefix->0@
            &&& s.region is Some && s.region->0@.len() > 0 ==> region == s.region->0@
            &&& !(s.region is Some && s.region->0@.len() > 0) ==> region == "us-east-1"@
        },
        s.suitable() <==> s.strict && s.memory_wal_mb > 0 && !s.restart_after_crash
            && !s.hot_standby && s.archive_mode == 0 && s.replica_wal,
        required(s.bucket, "pgrust.s3_bucket"@) is Ok <==> s.bucket is Some && s.bucket->0@.len()
            > 0,
{
}

/// The rows at some offsets of a block are those that the tuple identifiers stand for.
pub proof fn lemma_block_rows(block: u32, offsets: Seq<u16>, i: int)
    requires
        0 <= i < offsets.len(),
        offsets[i] > 0,
    ensures
        rows_at(block, offsets).len() == offsets.len(),
        rows_at(block, offsets)[i] == row_of_tid(Tid { block, offset: offsets[i] }),
{
}

/// A number that stands behind a field's name is read as itself.
pub proof fn lemma_oid_reads_back(field: Seq<char>, n: u32)
    requires
        n > 0,
    ensures
        oid_in(field + decimal(n as nat), field) == Some(n as nat),
{
    let word = field + decimal(n as nat);
    lemma_digits(n as nat);
    assert(word.take(field.len() as int) =~= field);
    assert(word.skip(field.len() as int) =~= decimal(n as nat));
}

/// The numbers that are found in some words are those that one of the words has after the field's
/// name.
proof fn lemma_found_in_words(ws: Seq<Seq<char>>, field: Seq<char>, n: u32)
    ensures
        oids_in(ws, field).contains(n) <==> exists|j: int|
            0 <= j < ws.len() && names_oid(#[trigger] ws[j], field, n),
    decreases ws.len(),
{
    if ws.len() > 0 {
        let head = ws.drop_last();
        let found = oids_in(head, field);
        let now = oids_in(ws, field);
        lemma_found_in_words(head, field, n);
        assert(ws[ws.len() - 1] == ws.last());
        if found.contains(n) {
            let j = choose|j: int| 0 <= j < head.len() && names_oid(#[trigger] head[j], field, n);
            assert(ws[j] == head[j]);
            let i = choose|i: int| 0 <= i < found.len() && found[i] == n;
            assert(now[i] == n);
        }
        if names_oid(ws.last(), field, n) {
            assert(now[now.len() - 1] == n);
        }
        if now.contains(n) && !found.contains(n) {
            let i = choose|i: int| 0 <= i < now.len() && now[i] == n;
            if i < found.len() {
                assert(found[i] == n);
            }
            assert(names_oid(ws[ws.len() - 1], field, n));
        }
        if exists|j: int| 0 <= j < ws.len() && names_oid(#[trigger] ws[j], field, n) {
            let j = choose|j: int| 0 <= j < ws.len() && names_oid(#[trigger] ws[j], field, n);
            if j < head.len() {
                assert(head[j] == ws[j]);
            }
        }
    } else {
        assert(!oids_in(ws, field).contains(n));
    }
}

/// The word has the number `n` after the field's name.
pub open spec fn names_oid(word: Seq<char>, field: Seq<char>, n: u32) -> bool {
    oid_in(word, field) is Some && oid_in(word, field)->0 as u32 == n
}

/// A word of some record has the number `n` after the field's name.
pub open spec fn record_names(record: Seq<char>, field: Seq<char>, n: u32) -> bool {
    exists|j: int| 0 <= j < words(record).len() && names_oid(#[trigger] words(record)[j], field, n)
}

/// The numbers that are lifted from records are those that a word of one of them has after the
/// field's name: none is lost, and none is made up.
pub proof fn lemma_every_number_is_lifted(records: Seq<Seq<char>>, field: Seq<char>, n: u32)
    ensures
        lifted(records, field).contains(n) <==> exists|i: int|
            0 <= i < records.len() && record_names(#[trigger] records[i], field, n),
    decreases records.len(),
{
    if records.len() > 0 {
        let head = records.drop_last();
        let a = lifted(head, field);
        let b = oids_in(words(records.last()), field);
        let now = lifted(records, field);
        lemma_every_number_is_lifted(head, field, n);
        lemma_found_in_words(words(records.last()), field, n);
        assert(records[records.len() - 1] == records.last());
        if a.contains(n) {
            let i = choose|i: int|
                0 <= i < head.len() && record_names(#[trigger] head[i], field, n);
            assert(records[i] == head[i]);
            let j = choose|j: int| 0 <= j < a.len() && a[j] == n;
            assert(now[j] == n);
        }
        if b.contains(n) {
            let j = choose|j: int| 0 <= j < b.len() && b[j] == n;
            assert(now[a.len() + j] == n);
            assert(record_names(records[records.len() - 1], field, n));
        }
        if now.contains(n) {
            let j = choose|j: int| 0 <= j < now.len() && now[j] == n;
            if j < a.len() {
                assert(a[j] == n);
            } else {
                assert(b[j - a.len()] == n);
            }
        }
        if exists|i: int| 0 <= i < records.len() && record_names(#[trigger] records[i], field, n) {
            let i = choose|i: int|
                0 <= i < records.len() && record_names(#[trigger] records[i], field, n);
            if i < head.len() {
                assert(head[i] == records[i]);
            }
        }
    } else {
        assert(!lifted(records, field).contains(n));
    }
}

proof fn lemma_digits(n: nat)
    requires
        n <= u32::MAX,
    ensures
        digits_value(decimal(n), 10) == Ok::<nat, Seq<char>>(n),
        decimal(n).len() > 0,
        decimal(n)[0] != '+',
    decreases n,
{
    let d = n % 10;
    let c = (48 + d) as char;
    assert(digit_value(c, 10) == Some(d));
    let s = decimal(n);
    if n < 10 {
        assert(s.drop_last() =~= Seq::empty());
        assert(digits_value(s.drop_last(), 10) == Ok::<nat, Seq<char>>(0));
    } else {
        lemma_digits(n / 10);
        assert(s.drop_last() =~= decimal(n / 10));
        assert(s[0] == decimal(n / 10)[0]);
    }
}

} // verus!
