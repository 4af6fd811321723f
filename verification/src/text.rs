//! Text: digits, and strings as sequences of characters.
use crate::order::{same_bytes, below};
use vstd::prelude::*;
use vstd::utf8::encode_utf8_decode_utf8;

verus! {

/// `String::push`: appends one character.
#[verifier::external_body]
pub(crate) fn push_char(out: &mut String, c: char)
    ensures
        final(out)@ == old(out)@.push(c),
{
    out.push(c)
}

/// The characters of `s`.
pub fn chars_of(s: &str) -> (r: Vec<char>)
    ensures
        r@ == s@,
{
    let mut r: Vec<char> = Vec::new();
    for c in it: s.chars()
        invariant
            it.seq() == s@,
            r@ == s@.take(it.index() as int),
    {
        proof {
            assert(s@.take(it.index() + 1) =~= s@.take(it.index() as int).push(s@[it.index() as int]));
        }
        r.push(c);
    }
    proof {
        assert(s@.take(s@.len() as int) =~= s@);
    }
    r
}

/// The string with the characters `cs`.
pub fn text_of(cs: &[char]) -> (r: String)
    ensures
        r@ == cs@,
{
    let mut r = String::new();
    let mut i: usize = 0;
    while i < cs.len()
        invariant
            i <= cs@.len(),
            r@ == cs@.take(i as int),
        decreases cs@.len() - i,
    {
        push_char(&mut r, cs[i]);
        proof {
            assert(cs@.take(i + 1) =~= cs@.take(i as int).push(cs@[i as int]));
        }
        i += 1;
    }
    proof {
        assert(cs@.take(cs@.len() as int) =~= cs@);
    }
    r
}

/// Two strings hold the same characters.
pub fn same_text(a: &str, b: &str) -> (r: bool)
    ensures
        r == (a@ == b@),
{
    proof {
        encode_utf8_decode_utf8(a@);
        encode_utf8_decode_utf8(b@);
    }
    same_bytes(a.as_bytes(), b.as_bytes())
}

/// `s` begins with `p`.
pub open spec fn has_prefix(s: Seq<char>, p: Seq<char>) -> bool {
    p.len() <= s.len() && s.take(p.len() as int) == p
}

/// `s` ends with `p`.
pub open spec fn has_suffix(s: Seq<char>, p: Seq<char>) -> bool {
    p.len() <= s.len() && s.skip(s.len() - p.len()) == p
}

/// What follows `p` in `s`, or nothing where `s` does not begin with `p`.
pub fn strip_prefix(s: &str, p: &str) -> (r: Option<String>)
    ensures
        match r {
            Some(t) => has_prefix(s@, p@) && t@ == s@.skip(p@.len() as int),
            None => !has_prefix(s@, p@),
        },
{
    let n: usize = s.unicode_len();
    let m: usize = p.unicode_len();
    if m > n {
        return None;
    }
    if same_text(s.substring_char(0, m), p) {
        Some(s.substring_char(m, n).to_owned())
    } else {
        None
    }
}

pub fn starts_with_text(s: &str, p: &str) -> (r: bool)
    ensures
        r == has_prefix(s@, p@),
{
    let n: usize = s.unicode_len();
    let m: usize = p.unicode_len();
    m <= n && same_text(s.substring_char(0, m), p)
}

pub fn ends_with_text(s: &str, p: &str) -> (r: bool)
    ensures
        r == has_suffix(s@, p@),
{
    let n: usize = s.unicode_len();
    let m: usize = p.unicode_len();
    m <= n && same_text(s.substring_char(n - m, n), p)
}

/// The lower-case hexadecimal digit of value `d`, as a byte.
pub open spec fn hex_digit(d: nat) -> u8 {
    if d < 10 {
        (48 + d) as u8
    } else {
        (87 + d) as u8
    }
}

/// The value of a lower-case hexadecimal digit.
pub open spec fn hex_digit_value(b: u8) -> Option<nat> {
    if 48 <= b <= 57 {
        Some((b - 48) as nat)
    } else if 97 <= b <= 102 {
        Some((b - 87) as nat)
    } else {
        None
    }
}

/// The last `w` hexadecimal digits of `x`, most significant first.
pub open spec fn hex_digits(x: nat, w: nat) -> Seq<u8>
    decreases w,
{
    if w == 0 {
        Seq::empty()
    } else {
        hex_digits(x / 16, (w - 1) as nat).push(hex_digit(x % 16))
    }
}

/// 16 to the power of `w`.
pub open spec fn hex_span(w: nat) -> nat
    decreases w,
{
    if w == 0 {
        1
    } else {
        16 * hex_span((w - 1) as nat)
    }
}

/// `s` is made of lower-case hexadecimal digits.
pub open spec fn all_hex(s: Seq<u8>) -> bool {
    forall|i: int| 0 <= i < s.len() ==> hex_digit_value(#[trigger] s[i]) is Some
}

/// The number that a run of hexadecimal digits spells.
pub open spec fn hex_value(s: Seq<u8>) -> nat
    decreases s.len(),
{
    if s.len() == 0 {
        0
    } else {
        16 * hex_value(s.drop_last()) + hex_digit_value(s.last()).unwrap_or(0)
    }
}

/// A number is written in as many digits as were asked for.
pub proof fn lemma_hex_digits_len(x: nat, w: nat)
    ensures
        hex_digits(x, w).len() == w,
        all_hex(hex_digits(x, w)),
    decreases w,
{
    if w > 0 {
        lemma_hex_digits_len(x / 16, (w - 1) as nat);
    }
}

/// A number written in enough digits reads back as itself.
pub proof fn lemma_hex_value_digits(x: nat, w: nat)
    requires
        x < hex_span(w),
    ensures
        hex_value(hex_digits(x, w)) == x,
    decreases w,
{
    if w > 0 {
        lemma_hex_value_digits(x / 16, (w - 1) as nat);
        let s = hex_digits(x, w);
        assert(s.drop_last() =~= hex_digits(x / 16, (w - 1) as nat));
    }
}

/// Digits read as a number are the digits of that number.
pub proof fn lemma_hex_digits_value(s: Seq<u8>)
    requires
        all_hex(s),
    ensures
        hex_digits(hex_value(s), s.len()) == s,
        hex_value(s) < hex_span(s.len()),
    decreases s.len(),
{
    if s.len() > 0 {
        let t = s.drop_last();
        assert(all_hex(t)) by {
            assert forall|i: int| 0 <= i < t.len() implies hex_digit_value(#[trigger] t[i]) is Some by {
                assert(hex_digit_value(s[i]) is Some);
            }
        }
        lemma_hex_digits_value(t);
        assert(hex_digit_value(s[s.len() - 1]) is Some);
        assert(hex_value(s) / 16 == hex_value(t));
        assert(hex_digits(hex_value(s), s.len()) =~= s);
    }
}

/// Where a string of equal length sorts is decided by its head, then its last byte.
pub proof fn lemma_below_push(a: Seq<u8>, b: Seq<u8>, x: u8, y: u8)
    requires
        a.len() == b.len(),
    ensures
        below(a.push(x), b.push(y)) == (below(a, b) || (a == b && x < y)),
    decreases a.len(),
{
    if a.len() == 0 {
        assert(a =~= b);
        let s = a.push(x);
        let t = b.push(y);
        assert(s.skip(1) =~= Seq::<u8>::empty());
        assert(t.skip(1) =~= Seq::<u8>::empty());
        assert(!below(s.skip(1), t.skip(1)));
    } else {
        assert(a.push(x).skip(1) =~= a.skip(1).push(x));
        assert(b.push(y).skip(1) =~= b.skip(1).push(y));
        lemma_below_push(a.skip(1), b.skip(1), x, y);
        if a[0] == b[0] && a.skip(1) == b.skip(1) {
            assert(a =~= seq![a[0]] + a.skip(1));
            assert(b =~= seq![b[0]] + b.skip(1));
        }
    }
}

/// Numbers written in the same number of digits sort as numbers.
pub proof fn lemma_hex_order(x: nat, y: nat, w: nat)
    requires
        x < hex_span(w),
        y < hex_span(w),
    ensures
        below(hex_digits(x, w), hex_digits(y, w)) == (x < y),
        (hex_digits(x, w) == hex_digits(y, w)) == (x == y),
    decreases w,
{
    lemma_hex_value_digits(x, w);
    lemma_hex_value_digits(y, w);
    if w > 0 {
        let v = (w - 1) as nat;
        lemma_hex_order(x / 16, y / 16, v);
        lemma_hex_digits_len(x / 16, v);
        lemma_hex_digits_len(y / 16, v);
        lemma_below_push(
            hex_digits(x / 16, v),
            hex_digits(y / 16, v),
            hex_digit(x % 16),
            hex_digit(y % 16),
        );
    }
}

/// Sixteen digits hold what 64 bits hold.
pub proof fn lemma_hex_span_16()
    ensures
        hex_span(16) == 0x1_0000_0000_0000_0000,
        hex_span(8) == 0x1_0000_0000,
{
    reveal_with_fuel(hex_span, 17);
}

fn digit_byte(d: u8) -> (r: u8)
    requires
        d < 16,
    ensures
        r == hex_digit(d as nat),
{
    if d < 10 {
        48 + d
    } else {
        87 + d
    }
}

/// Appends the last `w` hexadecimal digits of `x`.
pub fn put_hex(out: &mut Vec<u8>, x: u64, w: usize)
    ensures
        final(out)@ == old(out)@ + hex_digits(x as nat, w as nat),
    decreases w,
{
    let ghost before = out@;
    if w > 0 {
        put_hex(out, x / 16, w - 1);
        out.push(digit_byte((x % 16) as u8));
    }
    proof {
        assert(out@ =~= before + hex_digits(x as nat, w as nat));
    }
}

/// ASCII bytes as characters.
pub open spec fn as_chars(s: Seq<u8>) -> Seq<char> {
    Seq::new(s.len(), |i: int| s[i] as char)
}

/// Appends the last `w` hexadecimal digits of `x`.
pub fn push_hex(out: &mut String, x: u64, w: usize)
    ensures
        final(out)@ == old(out)@ + as_chars(hex_digits(x as nat, w as nat)),
    decreases w,
{
    let ghost before = out@;
    if w > 0 {
        push_hex(out, x / 16, w - 1);
        push_char(out, digit_byte((x % 16) as u8) as char);
        proof {
            let d = hex_digits((x / 16) as nat, (w - 1) as nat);
            lemma_hex_digits_len((x / 16) as nat, (w - 1) as nat);
        }
    }
    proof {
        assert(out@ =~= before + as_chars(hex_digits(x as nat, w as nat)));
    }
}

/// The value of one hexadecimal digit of lower case.
pub fn digit_of(b: u8) -> (r: Option<u8>)
    ensures
        match r {
            Some(v) => hex_digit_value(b) == Some(v as nat),
            None => hex_digit_value(b) is None,
        },
{
    if 48 <= b && b <= 57 {
        Some((b - 48) as u8)
    } else if 97 <= b && b <= 102 {
        Some((b - 87) as u8)
    } else {
        None
    }
}

/// More digits hold more numbers.
pub proof fn lemma_hex_span_mono(v: nat, w: nat)
    requires
        v <= w,
    ensures
        hex_span(v) <= hex_span(w),
    decreases w,
{
    if v < w {
        lemma_hex_span_mono(v, (w - 1) as nat);
    }
}

/// Reads up to sixteen hexadecimal digits as a number.
pub fn read_hex(s: &[u8]) -> (r: Option<u64>)
    requires
        s@.len() <= 16,
    ensures
        match r {
            Some(v) => all_hex(s@) && v as nat == hex_value(s@),
            None => !all_hex(s@),
        },
{
    let mut v: u64 = 0;
    let mut i: usize = 0;
    proof {
        assert(s@.take(0) =~= Seq::<u8>::empty());
    }
    while i < s.len()
        invariant
            i <= s@.len() <= 16,
            all_hex(s@.take(i as int)),
            v as nat == hex_value(s@.take(i as int)),
        decreases s@.len() - i,
    {
        let ghost head = s@.take(i as int);
        let ghost next = s@.take(i + 1);
        proof {
            assert(next.drop_last() =~= head);
            assert(next.last() == s@[i as int]);
            lemma_hex_digits_value(head);
            lemma_hex_span_mono(head.len(), 15);
            assert(hex_span(15) == 0x1000_0000_0000_0000) by {
                reveal_with_fuel(hex_span, 16);
            }
        }
        match digit_of(s[i]) {
            None => {
                proof {
                    assert(hex_digit_value(s@[i as int]) is None);
                }
                return None;
            },
            Some(d) => {
                v = v * 16 + d as u64;
                proof {
                    assert forall|j: int| 0 <= j < next.len() implies hex_digit_value(
                        #[trigger] next[j],
                    ) is Some by {
                        if j < i {
                            assert(hex_digit_value(head[j]) is Some);
                        }
                    }
                }
                i += 1;
            },
        }
    }
    proof {
        assert(s@.take(s@.len() as int) =~= s@);
    }
    Some(v)
}

/// `n` in decimal, without leading zeros.
pub open spec fn decimal(n: nat) -> Seq<char>
    decreases n,
{
    if n < 10 {
        seq![(48 + n) as char]
    } else {
        decimal(n / 10).push((48 + n % 10) as char)
    }
}

/// Appends `n` in decimal.
pub fn push_dec(out: &mut String, n: u64)
    ensures
        final(out)@ == old(out)@ + decimal(n as nat),
    decreases n,
{
    let ghost before = out@;
    if n >= 10 {
        push_dec(out, n / 10);
    }
    push_char(out, (48 + (n % 10) as u8) as char);
    proof {
        assert(out@ =~= before + decimal(n as nat));
    }
}

} // verus!
