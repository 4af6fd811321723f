//! A look along the headers of a tar archive before it is read: whether the sizes that they state
//! can be counted.
use vstd::prelude::*;
use vstd::slice::slice_subrange;

verus! {

/// The length of a header, and what the length of each member is rounded up to.
pub const BLOCK: usize = 512;

/// The size that a header of 512 bytes states, if it states one.
pub uninterp spec fn stated_size(header: Seq<u8>) -> Option<u64>;

/// `tar::Header::entry_size`, on a header that `tar::Header::from_byte_slice` takes from 512
/// bytes: the size that it states, in octal or in binary, or nothing where the field holds no
/// number. The bytes alone determine it.
#[verifier::external_body]
fn entry_size(header: &[u8]) -> (r: Option<u64>)
    requires
        header@.len() == BLOCK,
    ensures
        r == stated_size(header@),
{
    tar::Header::from_byte_slice(header).entry_size().ok()
}

/// An attribute: its key and its value.
pub type RecordView = (Seq<u8>, Seq<u8>);

/// The extended attributes that some bytes list, nothing standing for what is no attribute.
pub uninterp spec fn attributes_in(data: Seq<u8>) -> Seq<Option<RecordView>>;

pub open spec fn records_view(v: Seq<Option<(Vec<u8>, Vec<u8>)>>) -> Seq<Option<RecordView>> {
    Seq::new(
        v.len(),
        |i: int|
            match v[i] {
                Some(r) => Some((r.0@, r.1@)),
                None => None,
            },
    )
}

/// `tar::PaxExtensions`: the extended attributes that the bytes list, each as
/// `tar::PaxExtension::key_bytes` and `value_bytes` give it. The bytes alone determine them.
#[verifier::external_body]
fn attributes(data: &[u8]) -> (r: Vec<Option<(Vec<u8>, Vec<u8>)>>)
    ensures
        records_view(r@) == attributes_in(data@),
{
    tar::PaxExtensions::new(data)
        .map(|e| e.ok().map(|e| (e.key_bytes().to_vec(), e.value_bytes().to_vec())))
        .collect()
}

/// The number that decimal digits spell, if 64 bits hold it.
pub open spec fn decimal_value(s: Seq<u8>) -> Option<nat>
    decreases s.len(),
{
    if s.len() == 0 {
        Some(0)
    } else {
        match decimal_value(s.drop_last()) {
            Some(v) => if 48 <= s.last() <= 57 && 10 * v + (s.last() - 48) <= u64::MAX {
                Some((10 * v + (s.last() - 48)) as nat)
            } else {
                None
            },
            None => None,
        }
    }
}

/// A decimal number: digits, with or without a plus sign before them.
pub open spec fn decimal_number(s: Seq<u8>) -> Option<nat> {
    let digits = if s.len() > 0 && s[0] == 43 {
        s.skip(1)
    } else {
        s
    };
    if digits.len() == 0 {
        None
    } else {
        decimal_value(digits)
    }
}

/// The bytes of `size`.
pub open spec fn is_size(key: Seq<u8>) -> bool {
    key.len() == 4 && key[0] == 115 && key[1] == 105 && key[2] == 122 && key[3] == 101
}

/// The size among some attributes: that of the first that has this key, if it is a number and
/// nothing before it is no attribute.
pub open spec fn listed_size(rs: Seq<Option<RecordView>>) -> Option<nat>
    decreases rs.len(),
{
    if rs.len() == 0 {
        None
    } else {
        match rs[0] {
            None => None,
            Some(r) => if is_size(r.0) {
                decimal_number(r.1)
            } else {
                listed_size(rs.skip(1))
            },
        }
    }
}

/// A header of zeros ends an archive.
pub open spec fn is_zero(h: Seq<u8>) -> bool {
    forall|i: int| 0 <= i < h.len() ==> #[trigger] h[i] == 0
}

/// The format is GNU's.
pub open spec fn is_gnu(h: Seq<u8>) -> bool {
    h[257] == 117 && h[258] == 115 && h[259] == 116 && h[260] == 97 && h[261] == 114 && h[262] == 32
        && h[263] == 32 && h[264] == 0
}

/// The format is that of POSIX.
pub open spec fn is_ustar(h: Seq<u8>) -> bool {
    h[257] == 117 && h[258] == 115 && h[259] == 116 && h[260] == 97 && h[261] == 114 && h[262] == 0
        && h[263] == 48 && h[264] == 48
}

/// What the header is of.
pub open spec fn kind_of(h: Seq<u8>) -> u8 {
    h[156]
}

/// The header of a long name, a long link name, or of extended attributes of the next member or
/// of all: `L`, `K`, `x`, `g`.
pub open spec fn describes_another(h: Seq<u8>) -> bool {
    kind_of(h) == 76 || kind_of(h) == 75 || kind_of(h) == 120 || kind_of(h) == 103
}

/// The size of a member: what the attributes before it say, or else its header.
pub open spec fn member_size(h: Seq<u8>, pax: Option<Seq<u8>>) -> Option<nat> {
    match stated_size(h) {
        None => None,
        Some(own) => match pax {
            Some(d) => if describes_another(h) {
                Some(own as nat)
            } else {
                match listed_size(attributes_in(d)) {
                    Some(n) => Some(n),
                    None => Some(own as nat),
                }
            },
            None => Some(own as nat),
        },
    }
}

/// The attributes that hold for what follows a member of `n` bytes at `p`.
pub open spec fn pax_after(b: Seq<u8>, p: int, n: nat, pax: Option<Seq<u8>>) -> Option<Seq<u8>> {
    let h = block_at(b, p);
    if !(is_gnu(h) || is_ustar(h)) {
        None
    } else if kind_of(h) == 120 {
        Some(b.subrange(p + BLOCK, p + BLOCK + n))
    } else if kind_of(h) == 76 || kind_of(h) == 75 {
        pax
    } else {
        None
    }
}

/// The block at `p`.
pub open spec fn block_at(b: Seq<u8>, p: int) -> Seq<u8> {
    b.subrange(p, p + BLOCK)
}

/// How many blocks from `at` on go on with the map of a sparse file.
pub open spec fn map_blocks(b: Seq<u8>, at: int) -> nat
    decreases b.len() - at,
{
    if at + BLOCK > b.len() {
        0
    } else if b[at + 504] == 1 {
        1 + map_blocks(b, at + BLOCK)
    } else {
        1
    }
}

/// How many blocks between a header and its member go on with the map of a sparse file.
pub open spec fn map_len(b: Seq<u8>, p: int) -> nat {
    let h = block_at(b, p);
    if kind_of(h) == 83 && is_gnu(h) && h[482] == 1 {
        map_blocks(b, p + BLOCK)
    } else {
        0
    }
}

/// A length rounded up to whole blocks.
pub open spec fn rounded(n: int) -> int {
    (n + 511) / 512 * 512
}

/// Where, from the header at `p` on, the first header is behind whose member the next one cannot
/// be counted in 64 bits because of the map between them. `pax` are the attributes of the next
/// member, if there are any.
pub open spec fn miscounted(b: Seq<u8>, p: int, pax: Option<Seq<u8>>) -> Option<int>
    decreases b.len() - p,
{
    let h = block_at(b, p);
    if p + BLOCK > b.len() || is_zero(h) {
        None
    } else {
        match member_size(h, pax) {
            None => None,
            Some(n) => {
                let end = p + BLOCK + rounded(n as int);
                let next = end + BLOCK * map_len(b, p);
                if n + 511 > u64::MAX || end > u64::MAX {
                    None
                } else if next > u64::MAX {
                    Some(p)
                } else if next > b.len() {
                    None
                } else {
                    miscounted(b, next, pax_after(b, p, n, pax))
                }
            },
        }
    }
}

proof fn lemma_map_of_prefix(b: Seq<u8>, at: int, p: int)
    requires
        0 <= at,
        at + BLOCK * map_blocks(b, at) <= p <= b.len(),
    ensures
        map_blocks(b.take(p), at) == map_blocks(b, at),
    decreases b.len() - at,
{
    if at + BLOCK <= b.len() {
        if b[at + 504] == 1 {
            lemma_map_of_prefix(b, at + BLOCK, p);
        }
        assert(at + BLOCK <= p);
        assert(b.take(p)[at + 504] == b[at + 504]);
    }
}

/// What lies before the first header that cannot be counted can be.
pub proof fn lemma_counted_before(b: Seq<u8>, from: int, pax: Option<Seq<u8>>, p: int)
    requires
        0 <= from,
        miscounted(b, from, pax) == Some(p),
    ensures
        from <= p <= b.len(),
        miscounted(b.take(p), from, pax) is None,
    decreases b.len() - from,
{
    let h = block_at(b, from);
    let n = member_size(h, pax)->0;
    let end = from + BLOCK + rounded(n as int);
    let next = end + BLOCK * map_len(b, from);
    if next <= u64::MAX {
        let after = pax_after(b, from, n, pax);
        lemma_counted_before(b, next, after, p);
        let t = b.take(p);
        assert(from + BLOCK <= next <= p);
        assert(block_at(t, from) =~= h);
        assert(map_len(t, from) == map_len(b, from)) by {
            if map_len(b, from) > 0 {
                lemma_map_of_prefix(b, from + BLOCK, p);
            } else if kind_of(h) == 83 && is_gnu(h) && h[482] == 1 {
                lemma_map_of_prefix(b, from + BLOCK, p);
            }
        }
        assert(t.subrange(from + BLOCK, from + BLOCK + n) =~= b.subrange(
            from + BLOCK,
            from + BLOCK + n,
        ));
        assert(pax_after(t, from, n, pax) == after);
    }
}

fn all_zero(h: &[u8]) -> (r: bool)
    ensures
        r == is_zero(h@),
{
    let mut i: usize = 0;
    while i < h.len()
        invariant
            i <= h@.len(),
            forall|j: int| 0 <= j < i ==> #[trigger] h@[j] == 0,
        decreases h@.len() - i,
    {
        if h[i] != 0 {
            return false;
        }
        i += 1;
    }
    true
}

fn gnu(h: &[u8]) -> (r: bool)
    requires
        h@.len() == BLOCK,
    ensures
        r == is_gnu(h@),
{
    h[257] == 117 && h[258] == 115 && h[259] == 116 && h[260] == 97 && h[261] == 114 && h[262] == 32
        && h[263] == 32 && h[264] == 0
}

fn ustar(h: &[u8]) -> (r: bool)
    requires
        h@.len() == BLOCK,
    ensures
        r == is_ustar(h@),
{
    h[257] == 117 && h[258] == 115 && h[259] == 116 && h[260] == 97 && h[261] == 114 && h[262] == 0
        && h[263] == 48 && h[264] == 48
}

proof fn lemma_no_decimal(s: Seq<u8>, i: int)
    requires
        0 <= i <= s.len(),
        decimal_value(s.take(i)) is None,
    ensures
        decimal_value(s) is None,
    decreases s.len() - i,
{
    if i == s.len() {
        assert(s.take(i) =~= s);
    } else {
        assert(s.take(i + 1).drop_last() =~= s.take(i));
        lemma_no_decimal(s, i + 1);
    }
}

fn parse_decimal(s: &[u8]) -> (r: Option<u64>)
    ensures
        match r {
            Some(n) => decimal_number(s@) == Some(n as nat),
            None => decimal_number(s@) is None,
        },
{
    let from: usize = if s.len() > 0 && s[0] == 43 {
        1
    } else {
        0
    };
    let digits = slice_subrange(s, from, s.len());
    proof {
        if from == 1 {
            assert(digits@ =~= s@.skip(1));
        } else {
            assert(digits@ =~= s@);
        }
    }
    if digits.len() == 0 {
        return None;
    }
    let mut v: u64 = 0;
    let mut i: usize = 0;
    proof {
        assert(digits@.take(0) =~= Seq::empty());
    }
    while i < digits.len()
        invariant
            i <= digits@.len(),
            decimal_value(digits@.take(i as int)) == Some(v as nat),
            decimal_number(s@) == decimal_value(digits@),
        decreases digits@.len() - i,
    {
        proof {
            assert(digits@.take(i + 1).drop_last() =~= digits@.take(i as int));
            assert(digits@.take(i + 1).last() == digits@[i as int]);
            if decimal_value(digits@.take(i + 1)) is None {
                lemma_no_decimal(digits@, i + 1);
            }
        }
        let c: u8 = digits[i];
        if c < 48 || c > 57 {
            return None;
        }
        let d: u64 = (c - 48) as u64;
        if v > 1844674407370955161 || 10 * v > u64::MAX - d {
            return None;
        }
        v = 10 * v + d;
        i += 1;
    }
    proof {
        assert(digits@.take(digits@.len() as int) =~= digits@);
    }
    Some(v)
}

fn find_size(data: &[u8]) -> (r: Option<u64>)
    ensures
        match r {
            Some(n) => listed_size(attributes_in(data@)) == Some(n as nat),
            None => listed_size(attributes_in(data@)) is None,
        },
{
    let found = attributes(data);
    let ghost all = records_view(found@);
    let mut i: usize = 0;
    proof {
        assert(all.skip(0) =~= all);
    }
    while i < found.len()
        invariant
            i <= found@.len(),
            all == records_view(found@),
            all == attributes_in(data@),
            listed_size(all) == listed_size(all.skip(i as int)),
        decreases found@.len() - i,
    {
        proof {
            assert(all.skip(i as int)[0] == all[i as int]);
            assert(all.skip(i as int).skip(1) =~= all.skip(i + 1));
        }
        match &found[i] {
            None => return None,
            Some(r) => {
                let key = r.0.as_slice();
                if key.len() == 4 && key[0] == 115 && key[1] == 105 && key[2] == 122 && key[3]
                    == 101 {
                    return parse_decimal(r.1.as_slice());
                }
            },
        }
        i += 1;
    }
    None
}

fn count_map(b: &[u8], from: usize) -> (r: usize)
    requires
        from <= b@.len(),
    ensures
        r == map_blocks(b@, from as int),
        from + BLOCK * r <= b@.len(),
{
    let mut at: usize = from;
    let mut k: usize = 0;
    while b.len() - at >= BLOCK
        invariant
            from <= at <= b@.len(),
            at == from + BLOCK * k,
            map_blocks(b@, from as int) == k + map_blocks(b@, at as int),
        decreases b@.len() - at,
    {
        if b[at + 504] != 1 {
            return k + 1;
        }
        at += BLOCK;
        k += 1;
    }
    k
}

/// The attributes that stand in a part of an archive.
pub open spec fn part_view(b: Seq<u8>, part: Option<(usize, usize)>) -> Option<Seq<u8>> {
    match part {
        Some((i, j)) => Some(b.subrange(i as int, j as int)),
        None => None,
    }
}

/// The position of the first header behind whose member the next one cannot be counted.
pub fn find_miscounted(b: &[u8]) -> (r: Option<usize>)
    ensures
        match r {
            Some(p) => miscounted(b@, 0, None) == Some(p as int) && p <= b@.len(),
            None => miscounted(b@, 0, None) is None,
        },
{
    let mut p: usize = 0;
    let mut part: Option<(usize, usize)> = None;
    while b.len() - p >= BLOCK
        invariant
            p <= b@.len(),
            part matches Some((i, j)) ==> i <= j <= b@.len(),
            miscounted(b@, 0, None) == miscounted(b@, p as int, part_view(b@, part)),
        decreases b@.len() - p,
    {
        let h = slice_subrange(b, p, p + BLOCK);
        if all_zero(h) {
            return None;
        }
        let own: u64 = match entry_size(h) {
            Some(n) => n,
            None => return None,
        };
        let kind: u8 = h[156];
        let another: bool = kind == 76 || kind == 75 || kind == 120 || kind == 103;
        let n: u64 = match part {
            Some((i, j)) => if another {
                own
            } else {
                match find_size(slice_subrange(b, i, j)) {
                    Some(n) => n,
                    None => own,
                }
            },
            None => own,
        };
        proof {
            assert(member_size(h@, part_view(b@, part)) == Some(n as nat));
        }
        if n > u64::MAX - 511 {
            return None;
        }
        let over: u64 = n % 512;
        let whole: u64 = if over == 0 {
            n
        } else {
            n + (512 - over)
        };
        proof {
            assert(whole == rounded(n as int));
        }
        let data: usize = p + BLOCK;
        if whole > u64::MAX - data as u64 {
            return None;
        }
        let end: u64 = data as u64 + whole;
        let k: usize = if kind == 83 && gnu(h) && h[482] == 1 {
            count_map(b, data)
        } else {
            0
        };
        let map: u64 = (BLOCK * k) as u64;
        if map > u64::MAX - end {
            return Some(p);
        }
        let next: u64 = end + map;
        if next > b.len() as u64 {
            return None;
        }
        let ghost was = part_view(b@, part);
        part = if !(gnu(h) || ustar(h)) {
            None
        } else if kind == 120 {
            Some((data, data + n as usize))
        } else if kind == 76 || kind == 75 {
            part
        } else {
            None
        };
        proof {
            assert(part_view(b@, part) == pax_after(b@, p as int, n as nat, was));
        }
        p = next as usize;
    }
    None
}

} // verus!
