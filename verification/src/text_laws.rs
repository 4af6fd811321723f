//! What is written can be read: positions, addresses and manifests.
use crate::archive::{num_of, text_of};
use crate::http::{address_char, is_address, is_owned, owned_kind};
use crate::inspect::{checksum_fault, last_break, last_line, trimmed_start};
use crate::json::JsonView;
use crate::lines::{digit_value, digits_value, first_of, number_value, white, words};
use crate::manifest_text::{all_escaped, escaped, json_quoted, manifest_body, manifest_chars};
use crate::text::{
    as_chars, has_prefix, hex_digit_value, hex_digits, hex_span, lemma_hex_digits_len,
    lemma_hex_value_digits,
};
use crate::wire::{digest_of, hex_of, lsn_chars, lsn_value, upper_digit, upper_hex};
use vstd::prelude::*;
use vstd::utf8::{
    encode_scalar, encode_utf8, encode_utf8_decode_utf8, encode_utf8_valid_utf8, is_ascii_chars,
    is_ascii_chars_encode_utf8,
};

verus! {

/// Bytes in hexadecimal are twice as many digits of lower case.
pub proof fn lemma_hex_of(b: Seq<u8>)
    ensures
        hex_of(b).len() == 2 * b.len(),
        forall|i: int| 0 <= i < hex_of(b).len() ==> address_char(#[trigger] hex_of(b)[i]),
    decreases b.len(),
{
    if b.len() > 0 {
        let head = b.drop_last();
        lemma_hex_of(head);
        let d = hex_digits(b.last() as nat, 2);
        lemma_hex_digits_len(b.last() as nat, 2);
        assert forall|i: int| 0 <= i < hex_of(b).len() implies address_char(
            #[trigger] hex_of(b)[i],
        ) by {
            if i < hex_of(head).len() {
                assert(hex_of(b)[i] == hex_of(head)[i]);
            } else {
                let j = i - hex_of(head).len();
                assert(hex_of(b)[i] == as_chars(d)[j]);
                assert(hex_digit_value(d[j]) is Some);
            }
        }
    }
}

proof fn lemma_first_slash(kind: Seq<char>, rest: Seq<char>)
    requires
        !kind.contains('/'),
    ensures
        first_of(kind + "/"@ + rest, '/') == Some(kind.len() as int),
    decreases rest.len(),
{
    reveal_strlit("/");
    let s = kind + "/"@ + rest;
    if rest.len() > 0 {
        assert(s.drop_last() =~= kind + "/"@ + rest.drop_last());
        lemma_first_slash(kind, rest.drop_last());
    } else {
        assert(s.drop_last() =~= kind);
        lemma_no_slash(kind);
        assert(s.last() == '/');
    }
}

proof fn lemma_no_slash(s: Seq<char>)
    requires
        !s.contains('/'),
    ensures
        first_of(s, '/') is None,
    decreases s.len(),
{
    if s.len() > 0 {
        assert(s[s.len() - 1] != '/');
        assert forall|i: int| 0 <= i < s.drop_last().len() implies s.drop_last()[i] != '/' by {
            assert(s[i] != '/');
        }
        lemma_no_slash(s.drop_last());
    }
}

/// Every object that an archive stores by content lies under a key that the archive owns.
pub proof fn lemma_stored_is_owned(kind: Seq<char>, address: Seq<char>)
    requires
        owned_kind(kind),
        is_address(address),
    ensures
        is_owned(kind + "/"@ + address),
{
    reveal_strlit("chunks");
    reveal_strlit("descriptors");
    reveal_strlit("backups");
    reveal_strlit("backup-chunks");
    reveal_strlit("snapshot-index");
    reveal_strlit("retired");
    reveal_strlit("histories");
    reveal_strlit("/");
    assert(!kind.contains('/'));
    let s = kind + "/"@ + address;
    lemma_first_slash(kind, address);
    assert(s.take(kind.len() as int) =~= kind);
    assert(s.skip(kind.len() as int + 1) =~= address);
}

proof fn lemma_upper_hex(n: nat)
    requires
        n <= u32::MAX,
    ensures
        digits_value(upper_hex(n), 16) == Ok::<nat, Seq<char>>(n),
        upper_hex(n).len() > 0,
        upper_hex(n)[0] != '+',
        forall|i: int| 0 <= i < upper_hex(n).len() ==> #[trigger] upper_hex(n)[i] != '/',
    decreases n,
{
    let d = n % 16;
    assert(digit_value(upper_digit(d), 16) == Some(d));
    assert(upper_digit(d) != '/' && upper_digit(d) != '+');
    let s = upper_hex(n);
    if n < 16 {
        assert(s.drop_last() =~= Seq::empty());
        assert(digits_value(s.drop_last(), 16) == Ok::<nat, Seq<char>>(0));
    } else {
        lemma_upper_hex(n / 16);
        let head = upper_hex(n / 16);
        assert(s.drop_last() =~= head);
        assert(s[0] == head[0]);
        assert forall|i: int| 0 <= i < s.len() implies #[trigger] s[i] != '/' by {
            if i < head.len() {
                assert(s[i] == head[i]);
            }
        }
    }
}

/// A log position that was written reads back as itself.
pub proof fn lemma_position_reads_back(n: u64)
    ensures
        lsn_value(lsn_chars(n)) == Ok::<u64, Seq<char>>(n),
{
    let a = (n / 0x1_0000_0000) as nat;
    let b = (n % 0x1_0000_0000) as nat;
    lemma_upper_hex(a);
    lemma_upper_hex(b);
    let s = lsn_chars(n);
    reveal_strlit("/");
    assert(!upper_hex(a).contains('/'));
    lemma_first_slash(upper_hex(a), upper_hex(b));
    assert(s.take(upper_hex(a).len() as int) =~= upper_hex(a));
    assert(s.skip(upper_hex(a).len() as int + 1) =~= upper_hex(b));
    assert(number_value(upper_hex(a), 16) == Ok::<nat, Seq<char>>(a));
    assert(number_value(upper_hex(b), 16) == Ok::<nat, Seq<char>>(b));
    assert(a * 0x1_0000_0000 + b == n);
}

/// The encoding of two texts one behind the other.
pub proof fn lemma_encode_concat(a: Seq<char>, b: Seq<char>)
    ensures
        encode_utf8(a + b) == encode_utf8(a) + encode_utf8(b),
    decreases a.len(),
{
    if a.len() == 0 {
        assert(a + b =~= b);
        assert(encode_utf8(a) + encode_utf8(b) =~= encode_utf8(b));
    } else {
        let t = a.drop_first();
        lemma_encode_concat(t, b);
        assert((a + b).drop_first() =~= t + b);
        assert((a + b)[0] == a[0]);
        let first = encode_scalar(a[0] as u32);
        assert(first + (encode_utf8(t) + encode_utf8(b)) =~= (first + encode_utf8(t))
            + encode_utf8(b));
    }
}

/// The line that closes a manifest.
spec fn closing(sum: Seq<char>) -> Seq<char> {
    "\"Manifest-Checksum\":\""@ + sum + "\"}\n"@
}

proof fn lemma_closing(sum: Seq<char>)
    requires
        is_address(sum),
    ensures
        is_ascii_chars(closing(sum)),
        closing(sum).len() > 1,
        closing(sum).last() == '\n',
        forall|i: int| 0 <= i < closing(sum).len() - 1 ==> #[trigger] closing(sum)[i] != '\n',
        has_prefix(trimmed_start(closing(sum)), "\"Manifest-Checksum\""@),
{
    reveal_strlit("\"Manifest-Checksum\":\"");
    reveal_strlit("\"Manifest-Checksum\"");
    reveal_strlit("\"}\n");
    let a = "\"Manifest-Checksum\":\""@;
    let c = "\"}\n"@;
    let s = closing(sum);
    assert forall|i: int| 0 <= i < s.len() implies '\0' <= #[trigger] s[i] <= '\u{7f}' && (i
        < s.len() - 1 ==> s[i] != '\n') by {
        if i < a.len() {
            assert(s[i] == a[i]);
        } else if i < a.len() + sum.len() {
            assert(s[i] == sum[i - a.len()]);
            assert(address_char(sum[i - a.len()]));
        } else {
            assert(s[i] == c[i - a.len() - sum.len()]);
        }
    }
    assert(s[0] == '"');
    assert(trimmed_start(s) == s);
    assert(s.take("\"Manifest-Checksum\""@.len() as int) =~= "\"Manifest-Checksum\""@);
}

proof fn lemma_last_break(b: Seq<u8>, at: int, end: int)
    requires
        0 < at <= end <= b.len(),
        b[at - 1] == 10,
        forall|i: int| at <= i < end ==> #[trigger] b[i] != 10,
    ensures
        last_break(b, end) == Some(at),
    decreases end - at,
{
    if at < end {
        lemma_last_break(b, at, end - 1);
    }
}

/// A manifest that was written is accepted by an inspection: its checksum is that of
/// everything before the line it stands in.
pub proof fn lemma_manifest_is_accepted(
    system: u64,
    files: JsonView,
    ranges: JsonView,
    value: JsonView,
)
    requires
        text_of(value, "Manifest-Checksum"@) == Ok::<Seq<char>, Seq<char>>(
            digest_of(encode_utf8(manifest_body(system, files, ranges))),
        ),
        num_of(value, "PostgreSQL-Backup-Manifest-Version"@) == Ok::<u64, Seq<char>>(2),
        is_address(digest_of(encode_utf8(manifest_body(system, files, ranges)))),
    ensures
        checksum_fault(encode_utf8(manifest_chars(system, files, ranges)), value) is None,
{
    let body = manifest_body(system, files, ranges);
    let covered = encode_utf8(body);
    let sum = digest_of(covered);
    let close = closing(sum);
    lemma_closing(sum);
    assert(manifest_chars(system, files, ranges) =~= body + close);
    lemma_encode_concat(body, close);
    let bytes = encode_utf8(manifest_chars(system, files, ranges));
    let line = encode_utf8(close);
    assert(bytes == covered + line);
    is_ascii_chars_encode_utf8(close);
    reveal_strlit(",\n");
    let front = body.drop_last();
    assert(body.last() == '\n') by {
        assert(",\n"@.len() == 2 && ",\n"@[1] == '\n');
        assert(body.last() == ",\n"@[1]);
    }
    assert(body =~= front + seq!['\n']);
    lemma_encode_concat(front, seq!['\n']);
    assert(is_ascii_chars(seq!['\n']));
    is_ascii_chars_encode_utf8(seq!['\n']);
    assert(seq!['\n'][0] as u8 == encode_utf8(seq!['\n'])[0]);
    assert(covered.len() > 0 && covered.last() == 10);
    assert(close[close.len() - 1] as u8 == line[line.len() - 1]);
    assert(bytes.last() == 10);
    assert forall|i: int| covered.len() <= i < bytes.len() - 1 implies #[trigger] bytes[i] != 10 by {
        let j = i - covered.len();
        assert(bytes[i] == line[j]);
        assert(close[j] as u8 == line[j]);
        assert(close[j] != '\n');
        assert('\0' <= close[j] <= '\u{7f}');
    }
    assert(bytes[covered.len() - 1] == 10);
    lemma_last_break(bytes, covered.len() as int, bytes.len() - 1);
    assert(last_line(bytes) == Some(covered.len() as int));
    assert(bytes.skip(covered.len() as int) =~= line);
    assert(bytes.take(covered.len() as int) =~= covered);
    encode_utf8_valid_utf8(close);
    encode_utf8_decode_utf8(close);
}

/// Characters none of which is white space.
pub open spec fn unbroken(w: Seq<char>) -> bool {
    forall|i: int| 0 <= i < w.len() ==> !white(#[trigger] w[i])
}

/// White space parts words and is in none: a word behind white space is one more word, white space at
/// the end adds none, and what has no white space in it is one word.
pub proof fn lemma_white_space_parts_words(s: Seq<char>, c: char, w: Seq<char>)
    requires
        white(c),
        unbroken(w),
        w.len() > 0,
    ensures
        words(s.push(c)) == words(s),
        words(s.push(c) + w) == words(s).push(w),
        words(w) == seq![w],
    decreases w.len(),
{
    let t = s.push(c);
    assert(t.drop_last() =~= s);
    assert(t.last() == c);
    let whole = t + w;
    let short = w.drop_last();
    assert(!white(w[w.len() - 1]));
    assert(whole.drop_last() =~= t + short);
    assert(whole.last() == w.last());
    assert(w.last() == w[w.len() - 1]);
    if w.len() == 1 {
        assert(whole[whole.len() - 2] == c);
        assert(t + short =~= t);
        assert(words(t) == words(s));
        assert(w =~= seq![w.last()]);
        assert(words(whole) =~= words(s).push(w));
        assert(short =~= Seq::empty());
        assert(words(short) =~= Seq::empty());
        assert(words(w) =~= seq![w]);
    } else {
        assert forall|i: int| 0 <= i < short.len() implies !white(#[trigger] short[i]) by {
            assert(short[i] == w[i]);
        }
        lemma_white_space_parts_words(s, c, short);
        assert(whole[whole.len() - 2] == w[w.len() - 2]);
        assert(words(s).push(short).drop_last() =~= words(s));
        assert(short.push(w.last()) =~= w);
        assert(words(t + short) == words(s).push(short));
        assert(words(whole) =~= words(s).push(w));
        assert(words(short) == seq![short]);
        assert(seq![short].drop_last() =~= Seq::<Seq<char>>::empty());
        assert(words(w) =~= seq![w]);
    }
}

/// A byte reads back from its two digits.
proof fn lemma_two_digits(x: u8, y: u8)
    ensures
        hex_of(seq![x]).len() == 2,
        hex_of(seq![x]) == hex_of(seq![y]) ==> x == y,
{
    reveal_with_fuel(hex_span, 3);
    lemma_hex_digits_len(x as nat, 2);
    lemma_hex_digits_len(y as nat, 2);
    lemma_hex_value_digits(x as nat, 2);
    lemma_hex_value_digits(y as nat, 2);
    let a = hex_digits(x as nat, 2);
    let b = hex_digits(y as nat, 2);
    assert(seq![x].drop_last() =~= Seq::empty() && seq![y].drop_last() =~= Seq::empty());
    assert(hex_of(seq![x].drop_last()) =~= Seq::empty());
    assert(hex_of(seq![x]) =~= as_chars(a));
    assert(hex_of(seq![y]) =~= as_chars(b));
    if hex_of(seq![x]) == hex_of(seq![y]) {
        assert forall|i: int| 0 <= i < 2 implies a[i] == b[i] by {
            assert(as_chars(a)[i] == as_chars(b)[i]);
        }
        assert(a =~= b);
    }
}

/// What stands for a character does not begin with a quote, and says where it ends and for which
/// character it stands.
proof fn lemma_escape_tells_its_end(c: char, d: char, u: Seq<char>, v: Seq<char>)
    ensures
        escaped(c).len() > 0,
        escaped(c)[0] != '"',
        escaped(c) + u == escaped(d) + v ==> c == d && u == v,
{
    lemma_two_digits(c as u8, d as u8);
    lemma_two_digits(d as u8, c as u8);
    let a = escaped(c);
    let b = escaped(d);
    if a + u == b + v {
        assert((a + u)[0] == a[0] && (b + v)[0] == b[0]);
        if a.len() > 1 && b.len() > 1 {
            assert((a + u)[1] == a[1] && (b + v)[1] == b[1]);
        }
        assert(a.len() == b.len());
        assert(a =~= (a + u).take(a.len() as int));
        assert(b =~= (b + v).take(b.len() as int));
        assert(u =~= (a + u).skip(a.len() as int));
        assert(v =~= (b + v).skip(b.len() as int));
        if a.len() == 6 {
            assert(a.skip(4) =~= hex_of(seq![c as u8]));
            assert(b.skip(4) =~= hex_of(seq![d as u8]));
        }
    }
}

proof fn lemma_escaped_from_the_front(s: Seq<char>)
    requires
        s.len() > 0,
    ensures
        all_escaped(s) == escaped(s[0]) + all_escaped(s.skip(1)),
    decreases s.len(),
{
    let t = s.drop_last();
    if s.len() == 1 {
        assert(t =~= Seq::empty() && s.skip(1) =~= Seq::empty());
        assert(all_escaped(t) =~= Seq::empty());
        assert(all_escaped(s.skip(1)) =~= Seq::empty());
        assert(all_escaped(s) =~= escaped(s[0]) + all_escaped(s.skip(1)));
    } else {
        lemma_escaped_from_the_front(t);
        assert(t.skip(1) =~= s.skip(1).drop_last());
        assert(s.skip(1).last() == s.last());
        assert(all_escaped(s) =~= escaped(s[0]) + all_escaped(s.skip(1)));
    }
}

proof fn lemma_inside_quotes(a: Seq<char>, b: Seq<char>, u: Seq<char>, v: Seq<char>)
    requires
        all_escaped(a) + seq!['"'] + u == all_escaped(b) + seq!['"'] + v,
    ensures
        a == b,
        u == v,
    decreases a.len(),
{
    let x = all_escaped(a) + seq!['"'] + u;
    let y = all_escaped(b) + seq!['"'] + v;
    if a.len() > 0 {
        lemma_escaped_from_the_front(a);
        lemma_escape_tells_its_end(a[0], a[0], u, u);
        assert(x[0] == escaped(a[0])[0]);
    }
    if b.len() > 0 {
        lemma_escaped_from_the_front(b);
        lemma_escape_tells_its_end(b[0], b[0], v, v);
        assert(y[0] == escaped(b[0])[0]);
    }
    if a.len() == 0 {
        assert(x[0] == '"');
        assert(b.len() == 0);
        assert(x.skip(1) =~= u && y.skip(1) =~= v);
        assert(a =~= b);
    } else {
        if b.len() == 0 {
            assert(y[0] == '"');
        }
        let p = all_escaped(a.skip(1)) + seq!['"'] + u;
        let q = all_escaped(b.skip(1)) + seq!['"'] + v;
        assert(x =~= escaped(a[0]) + p);
        assert(y =~= escaped(b[0]) + q);
        lemma_escape_tells_its_end(a[0], b[0], p, q);
        lemma_inside_quotes(a.skip(1), b.skip(1), u, v);
        assert(a =~= seq![a[0]] + a.skip(1));
        assert(b =~= seq![b[0]] + b.skip(1));
    }
}

/// A string in quotes can be read in one way only: what follows it does not run into it, and no two
/// strings are written alike.
pub proof fn lemma_quoted_reads_one_way(a: Seq<char>, b: Seq<char>, u: Seq<char>, v: Seq<char>)
    requires
        json_quoted(a) + u == json_quoted(b) + v,
    ensures
        a == b,
        u == v,
{
    let x = json_quoted(a) + u;
    let y = json_quoted(b) + v;
    assert(x.skip(1) =~= all_escaped(a) + seq!['"'] + u);
    assert(y.skip(1) =~= all_escaped(b) + seq!['"'] + v);
    lemma_inside_quotes(a, b, u, v);
}

/// A string without quotes, backslashes and control characters is written as it is, in quotes.
pub proof fn lemma_plain_text_stays(s: Seq<char>)
    requires
        forall|i: int|
            0 <= i < s.len() ==> (#[trigger] s[i]) != '"' && s[i] != '\\' && s[i] as u32 >= 32,
    ensures
        json_quoted(s) == seq!['"'] + s + seq!['"'],
{
    lemma_plain_stays(s);
}

proof fn lemma_plain_stays(s: Seq<char>)
    requires
        forall|i: int|
            0 <= i < s.len() ==> (#[trigger] s[i]) != '"' && s[i] != '\\' && s[i] as u32 >= 32,
    ensures
        all_escaped(s) == s,
    decreases s.len(),
{
    if s.len() > 0 {
        let t = s.drop_last();
        assert forall|i: int| 0 <= i < t.len() implies (#[trigger] t[i]) != '"' && t[i] != '\\'
            && t[i] as u32 >= 32 by {
            assert(t[i] == s[i]);
        }
        lemma_plain_stays(t);
        assert(s[s.len() - 1] == s.last());
        assert(escaped(s.last()) =~= seq![s.last()]);
        assert(all_escaped(s) =~= s);
    }
}

} // verus!
