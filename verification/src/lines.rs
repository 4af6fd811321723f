//! Splitting text, and the numbers written in it.
use crate::refusal::{refuse, Refusal};
use vstd::prelude::*;
use vstd::slice::slice_subrange;
use vstd::utf8::{decode_utf8, valid_utf8};

verus! {

/// `std::str::from_utf8`: the text that valid UTF-8 spells, and nothing for other bytes.
#[verifier::external_body]
pub(crate) fn utf8(bytes: &[u8]) -> (r: Option<String>)
    ensures
        match r {
            Some(s) => valid_utf8(bytes@) && s@ == decode_utf8(bytes@),
            None => !valid_utf8(bytes@),
        },
{
    std::str::from_utf8(bytes).ok().map(|s| s.to_string())
}

/// The text of some bytes with what is no text replaced.
pub uninterp spec fn lossy_of(bytes: Seq<u8>) -> Seq<char>;

/// `String::from_utf8_lossy`: the text that the bytes encode; where they encode none, the parts
/// that encode nothing are replaced. What the replacements are is not stated, only that the
/// bytes determine the text and that bytes which encode a text give that text.
#[verifier::external_body]
pub(crate) fn lossy(bytes: &[u8]) -> (r: String)
    ensures
        r@ == lossy_of(bytes@),
        valid_utf8(bytes@) ==> r@ == decode_utf8(bytes@),
{
    String::from_utf8_lossy(bytes).into_owned()
}

/// The pieces of `s` between occurrences of `c`; one more than there are of these.
pub open spec fn split_on(s: Seq<char>, c: char) -> Seq<Seq<char>>
    decreases s.len(),
{
    if s.len() == 0 {
        seq![Seq::empty()]
    } else {
        let head = split_on(s.drop_last(), c);
        if s.last() == c {
            head.push(Seq::empty())
        } else {
            head.drop_last().push(head.last().push(s.last()))
        }
    }
}

pub open spec fn texts_view(v: Seq<Vec<char>>) -> Seq<Seq<char>> {
    Seq::new(v.len(), |i: int| v[i]@)
}

/// What is split has one piece at least.
pub proof fn lemma_split_on(s: Seq<char>, c: char)
    ensures
        split_on(s, c).len() > 0,
    decreases s.len(),
{
    if s.len() > 0 {
        lemma_split_on(s.drop_last(), c);
    }
}

/// The pieces of `s` between occurrences of `c`.
pub fn split_chars(s: &[char], c: char) -> (r: Vec<Vec<char>>)
    ensures
        texts_view(r@) == split_on(s@, c),
        r@.len() > 0,
{
    let mut done: Vec<Vec<char>> = Vec::new();
    let mut piece: Vec<char> = Vec::new();
    let mut i: usize = 0;
    proof {
        assert(s@.take(0) =~= Seq::empty());
        assert(texts_view(done@).push(piece@) =~= split_on(s@.take(0), c));
    }
    while i < s.len()
        invariant
            i <= s@.len(),
            texts_view(done@).push(piece@) == split_on(s@.take(i as int), c),
        decreases s@.len() - i,
    {
        let ghost was = texts_view(done@);
        let ghost old_piece = piece@;
        proof {
            let next = s@.take(i + 1);
            assert(next.drop_last() =~= s@.take(i as int));
            assert(next.last() == s@[i as int]);
            assert(was.push(old_piece).drop_last() =~= was);
        }
        if s[i] == c {
            done.push(piece);
            piece = Vec::new();
            proof {
                assert(texts_view(done@) =~= was.push(old_piece));
                assert(piece@ =~= Seq::empty());
            }
        } else {
            piece.push(s[i]);
        }
        i += 1;
        proof {
            assert(texts_view(done@).push(piece@) =~= split_on(s@.take(i as int), c));
        }
    }
    let ghost was = texts_view(done@);
    let ghost last = piece@;
    done.push(piece);
    proof {
        assert(s@.take(s@.len() as int) =~= s@);
        assert(texts_view(done@) =~= was.push(last));
    }
    done
}

/// A character with the Unicode property White_Space.
pub open spec fn white(c: char) -> bool {
    ||| '\u{9}' <= c <= '\u{d}'
    ||| c == ' '
    ||| c == '\u{85}'
    ||| c == '\u{a0}'
    ||| c == '\u{1680}'
    ||| '\u{2000}' <= c <= '\u{200a}'
    ||| c == '\u{2028}'
    ||| c == '\u{2029}'
    ||| c == '\u{202f}'
    ||| c == '\u{205f}'
    ||| c == '\u{3000}'
}

/// The character has the Unicode property White_Space.
pub fn is_white(c: char) -> (r: bool)
    ensures
        r == white(c),
{
    ('\u{9}' <= c && c <= '\u{d}') || c == ' ' || c == '\u{85}' || c == '\u{a0}' || c == '\u{1680}'
        || ('\u{2000}' <= c && c <= '\u{200a}') || c == '\u{2028}' || c == '\u{2029}' || c
        == '\u{202f}' || c == '\u{205f}' || c == '\u{3000}'
}

/// The runs of characters between white space.
pub open spec fn words(s: Seq<char>) -> Seq<Seq<char>>
    decreases s.len(),
{
    if s.len() == 0 {
        Seq::empty()
    } else if white(s.last()) {
        words(s.drop_last())
    } else if s.len() > 1 && !white(s[s.len() - 2]) {
        let head = words(s.drop_last());
        head.drop_last().push(head.last().push(s.last()))
    } else {
        words(s.drop_last()).push(seq![s.last()])
    }
}

/// No word is empty, and a text that does not end in white space has one.
pub proof fn lemma_words(s: Seq<char>)
    ensures
        s.len() > 0 && !white(s.last()) ==> words(s).len() > 0,
        forall|i: int| 0 <= i < words(s).len() ==> (#[trigger] words(s)[i]).len() > 0,
    decreases s.len(),
{
    if s.len() > 0 {
        lemma_words(s.drop_last());
        let head = words(s.drop_last());
        assert forall|i: int| 0 <= i < words(s).len() implies (#[trigger] words(s)[i]).len() > 0 by {
            if i < head.len() {
                assert(head[i].len() > 0);
            }
        }
    }
}

/// Splits at white space.
pub fn split_words(s: &[char]) -> (r: Vec<Vec<char>>)
    ensures
        texts_view(r@) == words(s@),
{
    let mut out: Vec<Vec<char>> = Vec::new();
    let mut inside: bool = false;
    let mut i: usize = 0;
    proof {
        assert(s@.take(0) =~= Seq::empty());
        assert(texts_view(out@) =~= Seq::empty());
    }
    while i < s.len()
        invariant
            i <= s@.len(),
            texts_view(out@) == words(s@.take(i as int)),
            inside == (i > 0 && !white(s@[i - 1])),
        decreases s@.len() - i,
    {
        let ghost was = texts_view(out@);
        let ghost next = s@.take(i + 1);
        proof {
            lemma_words(s@.take(i as int));
            assert(next.drop_last() =~= s@.take(i as int));
            assert(next.last() == s@[i as int]);
            if i > 0 {
                assert(next[next.len() - 2] == s@[i - 1]);
                assert(s@.take(i as int).last() == s@[i - 1]);
            }
            assert(was.len() == out@.len());
        }
        let c = s[i];
        if is_white(c) {
            inside = false;
        } else {
            if inside {
                let ghost n = out@.len() - 1;
                match out.pop() {
                    Some(w) => {
                        let mut w = w;
                        let ghost before = w@;
                        w.push(c);
                        out.push(w);
                        proof {
                            assert(before == was.last());
                            assert(texts_view(out@) =~= was.drop_last().push(
                                was.last().push(s@[i as int]),
                            ));
                        }
                    },
                    None => {},
                }
            } else {
                let mut w: Vec<char> = Vec::new();
                w.push(c);
                out.push(w);
                proof {
                    assert(w@ =~= seq![s@[i as int]]);
                    assert(texts_view(out@) =~= was.push(seq![s@[i as int]]));
                }
            }
            inside = true;
        }
        i += 1;
    }
    proof {
        assert(s@.take(s@.len() as int) =~= s@);
    }
    out
}

/// The value of a digit in a base up to sixteen, either case.
pub open spec fn digit_value(c: char, base: nat) -> Option<nat> {
    let v = if '0' <= c <= '9' {
        (c as nat - '0' as nat) as nat
    } else if 'a' <= c <= 'f' {
        (c as nat - 'a' as nat + 10) as nat
    } else if 'A' <= c <= 'F' {
        (c as nat - 'A' as nat + 10) as nat
    } else {
        16
    };
    if v < base {
        Some(v)
    } else {
        None
    }
}

/// The number that digits spell, read left to right until one of them is none or the number
/// passes what 32 bits hold.
pub open spec fn digits_value(s: Seq<char>, base: nat) -> Result<nat, Seq<char>>
    decreases s.len(),
{
    if s.len() == 0 {
        Ok(0)
    } else {
        match digits_value(s.drop_last(), base) {
            Err(e) => Err(e),
            Ok(v) => match digit_value(s.last(), base) {
                None => Err("invalid digit found in string"@),
                Some(d) => if v * base + d > u32::MAX {
                    Err("number too large to fit in target type"@)
                } else {
                    Ok(v * base + d)
                },
            },
        }
    }
}

/// A 32-bit number in base `base`: digits, with or without a plus sign before them.
pub open spec fn number_value(s: Seq<char>, base: nat) -> Result<nat, Seq<char>> {
    if s.len() == 0 {
        Err("cannot parse integer from empty string"@)
    } else if s[0] == '+' {
        if s.len() == 1 {
            Err("invalid digit found in string"@)
        } else {
            digits_value(s.skip(1), base)
        }
    } else {
        digits_value(s, base)
    }
}

pub open spec fn number_result(r: Result<u32, Refusal>) -> Result<nat, Seq<char>> {
    match r {
        Ok(n) => Ok(n as nat),
        Err(e) => Err(e@),
    }
}

fn digit_at(c: char, base: u32) -> (r: Option<u32>)
    requires
        2 <= base <= 16,
    ensures
        match r {
            Some(d) => digit_value(c, base as nat) == Some(d as nat) && d < 16,
            None => digit_value(c, base as nat) is None,
        },
{
    let v: u32 = if '0' <= c && c <= '9' {
        c as u32 - '0' as u32
    } else if 'a' <= c && c <= 'f' {
        c as u32 - 'a' as u32 + 10
    } else if 'A' <= c && c <= 'F' {
        c as u32 - 'A' as u32 + 10
    } else {
        16
    };
    if v < base {
        Some(v)
    } else {
        None
    }
}

proof fn lemma_digits_err(s: Seq<char>, i: int, base: nat)
    requires
        0 <= i <= s.len(),
        digits_value(s.take(i), base) is Err,
    ensures
        digits_value(s, base) == digits_value(s.take(i), base),
    decreases s.len() - i,
{
    if i == s.len() {
        assert(s.take(i) =~= s);
    } else {
        assert(s.take(i + 1).drop_last() =~= s.take(i));
        lemma_digits_err(s, i + 1, base);
    }
}

fn parse_digits(s: &[char], base: u32) -> (r: Result<u32, Refusal>)
    requires
        2 <= base <= 16,
    ensures
        number_result(r) == digits_value(s@, base as nat),
{
    let mut v: u32 = 0;
    let mut i: usize = 0;
    proof {
        assert(s@.take(0) =~= Seq::empty());
    }
    while i < s.len()
        invariant
            2 <= base <= 16,
            i <= s@.len(),
            digits_value(s@.take(i as int), base as nat) == Ok::<nat, Seq<char>>(v as nat),
        decreases s@.len() - i,
    {
        let ghost next = s@.take(i + 1);
        proof {
            assert(next.drop_last() =~= s@.take(i as int));
            assert(next.last() == s@[i as int]);
        }
        match digit_at(s[i], base) {
            None => {
                proof {
                    lemma_digits_err(s@, i + 1, base as nat);
                }
                return Err(refuse("invalid digit found in string"));
            },
            Some(d) => {
                proof {
                    assert(v * base <= 0xffff_ffff * 16) by (nonlinear_arith)
                        requires
                            v <= 0xffff_ffff,
                            base <= 16,
                    ;
                }
                let n: u64 = v as u64 * base as u64 + d as u64;
                if n > 0xffff_ffff {
                    proof {
                        lemma_digits_err(s@, i + 1, base as nat);
                    }
                    return Err(refuse("number too large to fit in target type"));
                }
                v = n as u32;
            },
        }
        i += 1;
    }
    proof {
        assert(s@.take(s@.len() as int) =~= s@);
    }
    Ok(v)
}

/// Reads a 32-bit number in base `base`.
pub fn parse_number(s: &[char], base: u32) -> (r: Result<u32, Refusal>)
    requires
        2 <= base <= 16,
    ensures
        number_result(r) == number_value(s@, base as nat),
{
    if s.len() == 0 {
        return Err(refuse("cannot parse integer from empty string"));
    }
    if s[0] == '+' {
        if s.len() == 1 {
            return Err(refuse("invalid digit found in string"));
        }
        let rest = slice_subrange(s, 1, s.len());
        proof {
            assert(rest@ =~= s@.skip(1));
        }
        parse_digits(rest, base)
    } else {
        parse_digits(s, base)
    }
}

/// The position of the first `c`.
pub open spec fn first_of(s: Seq<char>, c: char) -> Option<int>
    decreases s.len(),
{
    if s.len() == 0 {
        None
    } else {
        match first_of(s.drop_last(), c) {
            Some(i) => Some(i),
            None => if s.last() == c {
                Some(s.len() - 1)
            } else {
                None
            },
        }
    }
}

pub fn find_char(s: &[char], c: char) -> (r: Option<usize>)
    ensures
        match r {
            Some(i) => first_of(s@, c) == Some(i as int) && i < s@.len() && s@[i as int] == c,
            None => first_of(s@, c) is None,
        },
{
    let mut i: usize = 0;
    proof {
        assert(s@.take(0) =~= Seq::empty());
    }
    while i < s.len()
        invariant
            i <= s@.len(),
            first_of(s@.take(i as int), c) is None,
        decreases s@.len() - i,
    {
        proof {
            assert(s@.take(i + 1).drop_last() =~= s@.take(i as int));
            assert(s@.take(i + 1).last() == s@[i as int]);
        }
        if s[i] == c {
            proof {
                lemma_first_of(s@, c, i + 1);
            }
            return Some(i);
        }
        i += 1;
    }
    proof {
        assert(s@.take(s@.len() as int) =~= s@);
    }
    None
}

proof fn lemma_first_of(s: Seq<char>, c: char, i: int)
    requires
        0 <= i <= s.len(),
        first_of(s.take(i), c) is Some,
    ensures
        first_of(s, c) == first_of(s.take(i), c),
    decreases s.len() - i,
{
    if i == s.len() {
        assert(s.take(i) =~= s);
    } else {
        assert(s.take(i + 1).drop_last() =~= s.take(i));
        lemma_first_of(s, c, i + 1);
    }
}

} // verus!
