//! Log positions and content addresses in text.
use crate::http::is_address;
use crate::lines::{find_char, first_of, number_value, parse_number};
use crate::refusal::{refuse, refuse_naming, seen, Refusal};
use crate::sums::{sha256, sha256_of};
use crate::text_laws::lemma_hex_of;
use crate::text::{as_chars, hex_digits, push_char, push_hex};
use vstd::prelude::*;
use vstd::slice::slice_subrange;

verus! {

/// A log position written as two hexadecimal numbers with a slash between.
pub open spec fn lsn_value(s: Seq<char>) -> Result<u64, Seq<char>> {
    match first_of(s, '/') {
        None => Err("invalid LSN"@),
        Some(i) => match number_value(s.take(i), 16) {
            Err(e) => Err(e),
            Ok(a) => match number_value(s.skip(i + 1), 16) {
                Err(e) => Err(e),
                Ok(b) => Ok((a * 0x1_0000_0000 + b) as u64),
            },
        },
    }
}

/// Reads a log position.
pub fn lsn(s: &[char]) -> (r: Result<u64, Refusal>)
    ensures
        seen(r) == lsn_value(s@),
{
    match find_char(s, '/') {
        None => Err(refuse("invalid LSN")),
        Some(i) => {
            assert(i < s.len());
            let head = slice_subrange(s, 0, i);
            let tail = slice_subrange(s, i + 1, s.len());
            proof {
                assert(head@ =~= s@.take(i as int));
                assert(tail@ =~= s@.skip(i + 1));
            }
            match parse_number(head, 16) {
                Err(e) => Err(e),
                Ok(a) => match parse_number(tail, 16) {
                    Err(e) => Err(e),
                    Ok(b) => Ok(a as u64 * 0x1_0000_0000 + b as u64),
                },
            }
        },
    }
}

/// The upper-case hexadecimal digit of value `d`.
pub open spec fn upper_digit(d: nat) -> char {
    if d < 10 {
        (48 + d) as char
    } else {
        (55 + d) as char
    }
}

/// `n` in upper-case hexadecimal, without leading zeros.
pub open spec fn upper_hex(n: nat) -> Seq<char>
    decreases n,
{
    if n < 16 {
        seq![upper_digit(n)]
    } else {
        upper_hex(n / 16).push(upper_digit(n % 16))
    }
}

/// The last `w` upper-case hexadecimal digits of `n`.
pub open spec fn upper_hex_padded(n: nat, w: nat) -> Seq<char>
    decreases w,
{
    if w == 0 {
        Seq::empty()
    } else {
        upper_hex_padded(n / 16, (w - 1) as nat).push(upper_digit(n % 16))
    }
}

fn upper_char(d: u8) -> (r: char)
    requires
        d < 16,
    ensures
        r == upper_digit(d as nat),
{
    if d < 10 {
        (48 + d) as char
    } else {
        (55 + d) as char
    }
}

fn push_upper_hex(out: &mut String, n: u64)
    ensures
        final(out)@ == old(out)@ + upper_hex(n as nat),
    decreases n,
{
    let ghost before = out@;
    if n >= 16 {
        push_upper_hex(out, n / 16);
    }
    push_char(out, upper_char((n % 16) as u8));
    proof {
        assert(out@ =~= before + upper_hex(n as nat));
    }
}

/// Appends the last `w` upper-case hexadecimal digits of `n`.
pub fn push_upper_hex_padded(out: &mut String, n: u64, w: usize)
    ensures
        final(out)@ == old(out)@ + upper_hex_padded(n as nat, w as nat),
    decreases w,
{
    let ghost before = out@;
    if w > 0 {
        push_upper_hex_padded(out, n / 16, w - 1);
        push_char(out, upper_char((n % 16) as u8));
    }
    proof {
        assert(out@ =~= before + upper_hex_padded(n as nat, w as nat));
    }
}

/// A log position in text.
pub open spec fn lsn_chars(n: u64) -> Seq<char> {
    upper_hex((n / 0x1_0000_0000) as nat) + "/"@ + upper_hex((n % 0x1_0000_0000) as nat)
}

/// Writes a log position.
pub fn lsn_text(n: u64) -> (r: String)
    ensures
        r@ == lsn_chars(n),
{
    let mut r = String::new();
    push_upper_hex(&mut r, n / 0x1_0000_0000);
    r.append("/");
    push_upper_hex(&mut r, n % 0x1_0000_0000);
    proof {
        assert(r@ =~= lsn_chars(n));
    }
    r
}

/// Bytes in lower-case hexadecimal.
pub open spec fn hex_of(b: Seq<u8>) -> Seq<char>
    decreases b.len(),
{
    if b.len() == 0 {
        Seq::empty()
    } else {
        hex_of(b.drop_last()) + as_chars(hex_digits(b.last() as nat, 2))
    }
}

/// Writes bytes in hexadecimal.
pub fn hex(b: &[u8]) -> (r: String)
    ensures
        r@ == hex_of(b@),
{
    let mut r = String::new();
    let mut i: usize = 0;
    proof {
        assert(b@.take(0) =~= Seq::empty());
    }
    while i < b.len()
        invariant
            i <= b@.len(),
            r@ == hex_of(b@.take(i as int)),
        decreases b@.len() - i,
    {
        push_hex(&mut r, b[i] as u64, 2);
        proof {
            assert(b@.take(i + 1).drop_last() =~= b@.take(i as int));
        }
        i += 1;
    }
    proof {
        assert(b@.take(b@.len() as int) =~= b@);
    }
    r
}

/// The content address of some bytes: their SHA-256 digest in hexadecimal.
pub open spec fn digest_of(bytes: Seq<u8>) -> Seq<char> {
    hex_of(sha256_of(bytes))
}

/// The content address of `bytes`.
pub fn digest(bytes: &[u8]) -> (r: String)
    ensures
        r@ == digest_of(bytes@),
        is_address(r@),
{
    let sum = sha256(bytes);
    proof {
        lemma_hex_of(sum@);
    }
    hex(sum.as_slice())
}

/// A setting that must be present and not empty.
pub fn setting(value: Option<String>, name: &str) -> (r: Result<String, Refusal>)
    ensures
        match r {
            Ok(s) => value matches Some(v) && v@ == s@ && s@.len() > 0,
            Err(e) => (value matches Some(v) ==> v@.len() == 0) && e@ == name@ + " is required"@,
        },
{
    match value {
        Some(v) => if v.as_str().is_empty() {
            Err(refuse_naming(name, " is required"))
        } else {
            Ok(v)
        },
        None => Err(refuse_naming(name, " is required")),
    }
}

} // verus!
