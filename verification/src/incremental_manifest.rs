//! The manifest of a previous backup, as a client uploads it.
use crate::key_map::KeyMap;
use crate::inspect::{find_last_line, last_line};
use crate::lines::utf8;
use crate::order::same_bytes;
use crate::refusal::{refuse, seen, Refusal};
use crate::sums::{sha256, sha256_of};
use crate::text::chars_of;
use crate::wire::{lsn, lsn_value};
use vstd::prelude::*;
use vstd::slice::{slice_subrange, slice_to_vec};
use vstd::utf8::{decode_utf8, encode_utf8, valid_utf8};

verus! {

/// The most bytes that a manifest may have.
pub const MAX_MANIFEST_BYTES: usize = 67108864;

/// A stretch of the log of one timeline.
#[derive(Clone, Copy, Debug, PartialEq, Eq, Structural)]
pub struct WalRange {
    pub tli: u32,
    pub start: u64,
    pub end: u64,
}

/// What a manifest says: the files and their sizes, and the log that the backup needs.
pub struct Uploaded {
    pub files: KeyMap<u64>,
    pub ranges: Vec<WalRange>,
}

#[verifier::ext_equal]
pub struct UploadedView {
    pub files: Map<Seq<u8>, u64>,
    pub ranges: Seq<WalRange>,
}

impl View for Uploaded {
    type V = UploadedView;

    open spec fn view(&self) -> UploadedView {
        UploadedView { files: self.files@, ranges: self.ranges@ }
    }
}

/// What a field of a manifest holds.
pub enum Value {
    Text(Vec<u8>),
    Number(u64),
    /// The field was named and its value did not come yet.
    Pending,
    Array,
}

pub enum ValueView {
    Text(Seq<u8>),
    Number(u64),
    Pending,
    Array,
}

impl View for Value {
    type V = ValueView;

    open spec fn view(&self) -> ValueView {
        match self {
            Value::Text(s) => ValueView::Text(s@),
            Value::Number(n) => ValueView::Number(*n),
            Value::Pending => ValueView::Pending,
            Value::Array => ValueView::Array,
        }
    }
}

/// A field of an object.
pub struct Named {
    pub name: Vec<u8>,
    pub value: Value,
}

/// The fields of an object, in the order they came.
pub type FieldsView = Seq<(Seq<u8>, ValueView)>;

pub open spec fn fields_view(f: Seq<Named>) -> FieldsView {
    Seq::new(f.len(), |i: int| (f[i].name@, f[i].value@))
}

/// Where the field called `k` stands.
pub open spec fn place(f: FieldsView, k: Seq<u8>) -> Option<int>
    decreases f.len(),
{
    if f.len() == 0 {
        None
    } else {
        match place(f.drop_last(), k) {
            Some(i) => Some(i),
            None => if f.last().0 == k {
                Some(f.len() - 1)
            } else {
                None
            },
        }
    }
}

/// The field called `k`.
pub open spec fn lookup(f: FieldsView, k: Seq<u8>) -> Option<ValueView> {
    match place(f, k) {
        Some(i) => Some(f[i].1),
        None => None,
    }
}

/// The fields with the one called `k` set.
pub open spec fn put(f: FieldsView, k: Seq<u8>, v: ValueView) -> FieldsView {
    match place(f, k) {
        Some(i) => f.update(i, (f[i].0, v)),
        None => f.push((k, v)),
    }
}

proof fn lemma_place_first(f: FieldsView, k: Seq<u8>, n: int)
    requires
        0 <= n <= f.len(),
        place(f.take(n), k) is Some,
    ensures
        place(f, k) == place(f.take(n), k),
    decreases f.len() - n,
{
    if n == f.len() {
        assert(f.take(n) =~= f);
    } else {
        assert(f.take(n + 1).drop_last() =~= f.take(n));
        lemma_place_first(f, k, n + 1);
    }
}

fn find_field(f: &Vec<Named>, k: &[u8]) -> (r: Option<usize>)
    ensures
        match r {
            Some(i) => place(fields_view(f@), k@) == Some(i as int) && i < f@.len(),
            None => place(fields_view(f@), k@) is None,
        },
{
    let ghost v = fields_view(f@);
    let mut i: usize = 0;
    proof {
        assert(v.take(0) =~= Seq::empty());
    }
    while i < f.len()
        invariant
            v == fields_view(f@),
            i <= f@.len(),
            place(v.take(i as int), k@) is None,
        decreases f@.len() - i,
    {
        proof {
            assert(v.take(i + 1).drop_last() =~= v.take(i as int));
            assert(v.take(i + 1).last() == v[i as int]);
        }
        if same_bytes(f[i].name.as_slice(), k) {
            proof {
                lemma_place_first(v, k@, i + 1);
            }
            return Some(i);
        }
        i += 1;
    }
    proof {
        assert(v.take(v.len() as int) =~= v);
    }
    None
}

fn set_field(f: &mut Vec<Named>, k: &[u8], value: Value)
    ensures
        fields_view(final(f)@) == put(fields_view(old(f)@), k@, value@),
{
    let ghost was = fields_view(f@);
    match find_field(f, k) {
        Some(i) => {
            let name = slice_to_vec(f[i].name.as_slice());
            f[i] = Named { name, value };
            proof {
                assert(fields_view(f@) =~= was.update(i as int, (was[i as int].0, value@)));
            }
        },
        None => {
            f.push(Named { name: slice_to_vec(k), value });
            proof {
                assert(fields_view(f@) =~= was.push((k@, value@)));
            }
        },
    }
}

/// The bytes in the field called `k`.
pub open spec fn text_in(f: FieldsView, k: Seq<char>) -> Result<Seq<u8>, Seq<char>> {
    match lookup(f, encode_utf8(k)) {
        Some(ValueView::Text(s)) => Ok(s),
        _ => Err("invalid manifest string field"@),
    }
}

/// The number in the field called `k`.
pub open spec fn number_in(f: FieldsView, k: Seq<char>) -> Result<u64, Seq<char>> {
    match lookup(f, encode_utf8(k)) {
        Some(ValueView::Number(n)) => Ok(n),
        _ => Err("invalid manifest numeric field"@),
    }
}

fn text<'a>(f: &'a Vec<Named>, k: &str) -> (r: Result<&'a [u8], Refusal>)
    ensures
        match r {
            Ok(s) => text_in(fields_view(f@), k@) == Ok::<Seq<u8>, Seq<char>>(s@),
            Err(e) => text_in(fields_view(f@), k@) == Err::<Seq<u8>, Seq<char>>(e@),
        },
{
    match find_field(f, k.as_bytes()) {
        Some(i) => match &f[i].value {
            Value::Text(s) => Ok(s.as_slice()),
            _ => Err(refuse("invalid manifest string field")),
        },
        None => Err(refuse("invalid manifest string field")),
    }
}

fn number(f: &Vec<Named>, k: &str) -> (r: Result<u64, Refusal>)
    ensures
        seen(r) == number_in(fields_view(f@), k@),
{
    match find_field(f, k.as_bytes()) {
        Some(i) => match &f[i].value {
            Value::Number(n) => Ok(*n),
            _ => Err(refuse("invalid manifest numeric field")),
        },
        None => Err(refuse("invalid manifest numeric field")),
    }
}

/// The value of a hexadecimal digit of either case.
pub open spec fn nibble(b: u8) -> Option<nat> {
    if 48 <= b <= 57 {
        Some((b - 48) as nat)
    } else if 97 <= b <= 102 {
        Some((b - 87) as nat)
    } else if 65 <= b <= 70 {
        Some((b - 55) as nat)
    } else {
        None
    }
}

/// The value of two characters in hexadecimal: two digits, or a plus sign and one.
pub open spec fn pair_value(a: u8, b: u8) -> Option<u8> {
    match (if a == 43 {
        Some(0nat)
    } else {
        nibble(a)
    }, nibble(b)) {
        (Some(x), Some(y)) => Some((16 * x + y) as u8),
        _ => None,
    }
}

/// The bytes that pairs of hexadecimal digits spell.
pub open spec fn pairs_value(s: Seq<u8>) -> Result<Seq<u8>, Seq<char>>
    decreases s.len(),
{
    if s.len() < 2 {
        Ok(Seq::empty())
    } else {
        let n = s.len();
        match pairs_value(s.take(n - 2)) {
            Err(e) => Err(e),
            Ok(head) => match pair_value(s[n - 2], s[n - 1]) {
                Some(b) => Ok(head.push(b)),
                None => Err("invalid manifest hex"@),
            },
        }
    }
}

/// The bytes that a hexadecimal text spells.
pub open spec fn unhexed(s: Seq<u8>) -> Result<Seq<u8>, Seq<char>> {
    if s.len() % 2 != 0 {
        Err("invalid manifest hexadecimal value"@)
    } else {
        pairs_value(s)
    }
}

pub open spec fn bytes_result(r: Result<Vec<u8>, Refusal>) -> Result<Seq<u8>, Seq<char>> {
    match r {
        Ok(v) => Ok(v@),
        Err(e) => Err(e@),
    }
}

fn digit(b: u8) -> (r: Option<u8>)
    ensures
        match r {
            Some(d) => nibble(b) == Some(d as nat) && d < 16,
            None => nibble(b) is None,
        },
{
    if 48 <= b && b <= 57 {
        Some(b - 48)
    } else if 97 <= b && b <= 102 {
        Some(b - 87)
    } else if 65 <= b && b <= 70 {
        Some(b - 55)
    } else {
        None
    }
}

proof fn lemma_pairs_err(s: Seq<u8>, i: int)
    requires
        0 <= i <= s.len(),
        i % 2 == 0,
        s.len() % 2 == 0,
        pairs_value(s.take(i)) is Err,
    ensures
        pairs_value(s) == pairs_value(s.take(i)),
    decreases s.len() - i,
{
    if i == s.len() {
        assert(s.take(i) =~= s);
    } else {
        assert(s.take(i + 2).take(i) =~= s.take(i));
        lemma_pairs_err(s, i + 2);
    }
}

fn hex(s: &[u8]) -> (r: Result<Vec<u8>, Refusal>)
    ensures
        bytes_result(r) == unhexed(s@),
{
    if s.len() % 2 != 0 {
        return Err(refuse("invalid manifest hexadecimal value"));
    }
    let mut out: Vec<u8> = Vec::new();
    let mut i: usize = 0;
    proof {
        assert(out@ =~= Seq::empty());
    }
    while i < s.len()
        invariant
            i <= s@.len(),
            i % 2 == 0,
            s@.len() % 2 == 0,
            pairs_value(s@.take(i as int)) == Ok::<Seq<u8>, Seq<char>>(out@),
        decreases s@.len() - i,
    {
        assert(i + 1 < s.len());
        let x: Option<u8> = if s[i] == 43 {
            Some(0)
        } else {
            digit(s[i])
        };
        let y: Option<u8> = digit(s[i + 1]);
        proof {
            let t = s@.take(i + 2);
            assert(t.take(i as int) =~= s@.take(i as int));
            assert(t[i as int] == s@[i as int] && t[i + 1] == s@[i + 1]);
        }
        match (x, y) {
            (Some(a), Some(b)) => {
                let ghost was = out@;
                out.push(16 * a + b);
                proof {
                    assert(out@ =~= was.push((16 * a + b) as u8));
                }
            },
            _ => {
                proof {
                    lemma_pairs_err(s@, i + 2);
                }
                return Err(refuse("invalid manifest hex"));
            },
        }
        i += 2;
    }
    proof {
        assert(s@.take(s@.len() as int) =~= s@);
    }
    Ok(out)
}

/// A log position as a manifest writes it.
pub open spec fn position_value(s: Seq<u8>) -> Result<u64, Seq<char>> {
    if !valid_utf8(s) {
        Err("invalid manifest LSN"@)
    } else {
        match lsn_value(decode_utf8(s)) {
            Ok(n) => Ok(n),
            Err(_) => Err("invalid manifest LSN"@),
        }
    }
}

fn position(s: &[u8]) -> (r: Result<u64, Refusal>)
    ensures
        seen(r) == position_value(s@),
{
    let words = match utf8(s) {
        Some(w) => w,
        None => return Err(refuse("invalid manifest LSN")),
    };
    match lsn(chars_of(words.as_str()).as_slice()) {
        Ok(n) => Ok(n),
        Err(_) => Err(refuse("invalid manifest LSN")),
    }
}

/// The number that decimal digits spell, if 64 bits hold it.
pub open spec fn decimal_value(s: Seq<u8>) -> Option<nat>
    decreases s.len(),
{
    if s.len() == 0 {
        Some(0)
    } else {
        match decimal_value(s.drop_last()) {
            None => None,
            Some(v) => if 48 <= s.last() <= 57 && 10 * v + (s.last() - 48) <= u64::MAX {
                Some((10 * v + (s.last() - 48)) as nat)
            } else {
                None
            },
        }
    }
}

/// An unsigned integer in text: digits, with or without a plus sign before them.
pub open spec fn unsigned_value(s: Seq<u8>) -> Option<nat> {
    let digits = if s.len() > 0 && s[0] == 43 {
        s.skip(1)
    } else {
        s
    };
    if digits.len() == 0 {
        None
    } else {
        decimal_value(digits)
    }
}

proof fn lemma_decimal_none(s: Seq<u8>, i: int)
    requires
        0 <= i <= s.len(),
        decimal_value(s.take(i)) is None,
    ensures
        decimal_value(s) is None,
    decreases s.len() - i,
{
    if i == s.len() {
        assert(s.take(i) =~= s);
    } else {
        assert(s.take(i + 1).drop_last() =~= s.take(i));
        lemma_decimal_none(s, i + 1);
    }
}

fn unsigned(s: &[u8]) -> (r: Option<u64>)
    ensures
        match r {
            Some(n) => unsigned_value(s@) == Some(n as nat),
            None => unsigned_value(s@) is None,
        },
{
    let from: usize = if s.len() > 0 && s[0] == 43 {
        1
    } else {
        0
    };
    let digits = slice_subrange(s, from, s.len());
    proof {
        if from == 1 {
            assert(digits@ =~= s@.skip(1));
        } else {
            assert(digits@ =~= s@);
        }
    }
    if digits.len() == 0 {
        return None;
    }
    let mut v: u64 = 0;
    let mut i: usize = 0;
    proof {
        assert(digits@.take(0) =~= Seq::empty());
    }
    while i < digits.len()
        invariant
            i <= digits@.len(),
            decimal_value(digits@.take(i as int)) == Some(v as nat),
            unsigned_value(s@) == decimal_value(digits@),
        decreases digits@.len() - i,
    {
        let b: u8 = digits[i];
        proof {
            assert(digits@.take(i + 1).drop_last() =~= digits@.take(i as int));
            assert(digits@.take(i + 1).last() == b);
            if decimal_value(digits@.take(i + 1)) is None {
                lemma_decimal_none(digits@, i + 1);
            }
        }
        if b < 48 || b > 57 {
            return None;
        }
        let d: u64 = (b - 48) as u64;
        if v > (u64::MAX - d) / 10 {
            return None;
        }
        v = 10 * v + d;
        i += 1;
    }
    proof {
        assert(digits@.take(digits@.len() as int) =~= digits@);
    }
    Some(v)
}

/// What a reader of JSON comes upon, one after another.
pub enum Event {
    ObjectStart,
    ObjectEnd,
    /// The name of a field, unescaped.
    Field(Vec<u8>),
    ArrayStart,
    ArrayEnd,
    /// A string, unescaped.
    Text(Vec<u8>),
    /// A number as it is written.
    Number(Vec<u8>),
    /// A truth value or null.
    Other,
}

pub enum EventView {
    ObjectStart,
    ObjectEnd,
    Field(Seq<u8>),
    ArrayStart,
    ArrayEnd,
    Text(Seq<u8>),
    Number(Seq<u8>),
    Other,
}

impl View for Event {
    type V = EventView;

    open spec fn view(&self) -> EventView {
        match self {
            Event::ObjectStart => EventView::ObjectStart,
            Event::ObjectEnd => EventView::ObjectEnd,
            Event::Field(s) => EventView::Field(s@),
            Event::ArrayStart => EventView::ArrayStart,
            Event::ArrayEnd => EventView::ArrayEnd,
            Event::Text(s) => EventView::Text(s@),
            Event::Number(s) => EventView::Number(s@),
            Event::Other => EventView::Other,
        }
    }
}

pub open spec fn events_view(e: Seq<Event>) -> Seq<EventView> {
    Seq::new(e.len(), |i: int| e[i]@)
}

/// A field that the entry of a file may have.
pub open spec fn file_field(k: Seq<u8>) -> bool {
    k == encode_utf8("Path"@) || k == encode_utf8("Encoded-Path"@) || k == encode_utf8("Size"@)
        || k == encode_utf8("Last-Modified"@) || k == encode_utf8("Checksum-Algorithm"@) || k
        == encode_utf8("Checksum"@)
}

fn is_file_field(k: &[u8]) -> (r: bool)
    ensures
        r == file_field(k@),
{
    same_bytes(k, "Path".as_bytes()) || same_bytes(k, "Encoded-Path".as_bytes()) || same_bytes(
        k,
        "Size".as_bytes(),
    ) || same_bytes(k, "Last-Modified".as_bytes()) || same_bytes(
        k,
        "Checksum-Algorithm".as_bytes(),
    ) || same_bytes(k, "Checksum".as_bytes())
}

/// The path of a file, which is given in one of two ways.
pub open spec fn entry_path(f: FieldsView) -> Result<Seq<u8>, Seq<char>> {
    match (lookup(f, encode_utf8("Path"@)), lookup(f, encode_utf8("Encoded-Path"@))) {
        (Some(ValueView::Text(p)), None) => Ok(p),
        (None, Some(ValueView::Text(p))) => unhexed(p),
        _ => Err("manifest file requires exactly one pathname"@),
    }
}

/// A step up stands at `i`: two dots that make a whole component.
pub open spec fn step_up_at(p: Seq<u8>, i: int) -> bool {
    &&& 0 <= i <= p.len() - 2
    &&& p[i] == 46 && p[i + 1] == 46
    &&& i == 0 || p[i - 1] == 47
    &&& i + 2 == p.len() || p[i + 2] == 47
}

/// A path that a manifest may list: relative, without empty components or steps up.
pub open spec fn good_path(p: Seq<u8>) -> bool {
    &&& p.len() > 0
    &&& forall|i: int| 0 <= i < p.len() ==> #[trigger] p[i] != 0
    &&& p[0] != 47
    &&& p.last() != 47
    &&& forall|i: int| 0 < i < p.len() && p[i - 1] == 47 ==> #[trigger] p[i] != 47
    &&& forall|i: int| !#[trigger] step_up_at(p, i)
}

fn check_path(p: &[u8]) -> (r: bool)
    ensures
        r == good_path(p@),
{
    if p.len() == 0 || p[0] == 47 || p[p.len() - 1] == 47 {
        return false;
    }
    let n: usize = p.len();
    let mut i: usize = 0;
    while i < n
        invariant
            n == p@.len(),
            i <= n,
            forall|j: int| 0 <= j < i ==> #[trigger] p@[j] != 0,
            forall|j: int| 0 < j < i && p@[j - 1] == 47 ==> #[trigger] p@[j] != 47,
            forall|j: int| 0 <= j < i ==> !#[trigger] step_up_at(p@, j),
        decreases n - i,
    {
        if p[i] == 0 {
            return false;
        }
        if i > 0 && p[i - 1] == 47 && p[i] == 47 {
            return false;
        }
        if n >= 2 && i <= n - 2 && p[i] == 46 && p[i + 1] == 46 && (i == 0 || p[i - 1] == 47) && (
        i == n - 2 || p[i + 2] == 47) {
            proof {
                assert(step_up_at(p@, i as int));
            }
            return false;
        }
        i += 1;
    }
    true
}

/// How long the checksum of this algorithm is.
pub open spec fn sum_len(name: Seq<u8>) -> Option<nat> {
    if name == encode_utf8("CRC32C"@) {
        Some(4)
    } else if name == encode_utf8("SHA224"@) {
        Some(28)
    } else if name == encode_utf8("SHA256"@) {
        Some(32)
    } else if name == encode_utf8("SHA384"@) {
        Some(48)
    } else if name == encode_utf8("SHA512"@) {
        Some(64)
    } else {
        None
    }
}

fn checksum_len(name: &[u8]) -> (r: Option<usize>)
    ensures
        match r {
            Some(n) => sum_len(name@) == Some(n as nat),
            None => sum_len(name@) is None,
        },
{
    if same_bytes(name, "CRC32C".as_bytes()) {
        Some(4)
    } else if same_bytes(name, "SHA224".as_bytes()) {
        Some(28)
    } else if same_bytes(name, "SHA256".as_bytes()) {
        Some(32)
    } else if same_bytes(name, "SHA384".as_bytes()) {
        Some(48)
    } else if same_bytes(name, "SHA512".as_bytes()) {
        Some(64)
    } else {
        None
    }
}

/// What is wrong with the checksum in the entry of a file, which need not have one.
pub open spec fn sum_fault(f: FieldsView) -> Option<Seq<char>> {
    if lookup(f, encode_utf8("Checksum"@)) is None && lookup(
        f,
        encode_utf8("Checksum-Algorithm"@),
    ) is None {
        None
    } else {
        match text_in(f, "Checksum-Algorithm"@) {
            Err(e) => Some(e),
            Ok(name) => match sum_len(name) {
                None => Some("invalid manifest checksum algorithm"@),
                Some(n) => match text_in(f, "Checksum"@) {
                    Err(e) => Some(e),
                    Ok(sum) => match unhexed(sum) {
                        Err(e) => Some(e),
                        Ok(b) => if b.len() != n {
                            Some("invalid manifest file checksum"@)
                        } else {
                            None
                        },
                    },
                },
            },
        }
    }
}

fn check_sum(f: &Vec<Named>) -> (r: Result<(), Refusal>)
    ensures
        match r {
            Ok(_) => sum_fault(fields_view(f@)) is None,
            Err(e) => sum_fault(fields_view(f@)) == Some(e@),
        },
{
    if find_field(f, "Checksum".as_bytes()).is_none() && find_field(
        f,
        "Checksum-Algorithm".as_bytes(),
    ).is_none() {
        return Ok(());
    }
    let name = match text(f, "Checksum-Algorithm") {
        Ok(s) => s,
        Err(e) => return Err(e),
    };
    let n: usize = match checksum_len(name) {
        Some(n) => n,
        None => return Err(refuse("invalid manifest checksum algorithm")),
    };
    let sum = match text(f, "Checksum") {
        Ok(s) => s,
        Err(e) => return Err(e),
    };
    match hex(sum) {
        Ok(b) => if b.len() != n {
            return Err(refuse("invalid manifest file checksum"));
        },
        Err(e) => return Err(e),
    }
    Ok(())
}

/// The path and the size in the entry of a file.
pub open spec fn file_entry(f: FieldsView) -> Result<(Seq<u8>, u64), Seq<char>> {
    if exists|i: int| 0 <= i < f.len() && !file_field((#[trigger] f[i]).0) {
        Err("unrecognized manifest file field"@)
    } else {
        match entry_path(f) {
            Err(e) => Err(e),
            Ok(path) => if !good_path(path) {
                Err("invalid manifest pathname"@)
            } else {
                match number_in(f, "Size"@) {
                    Err(e) => Err(e),
                    Ok(size) => if size > i64::MAX {
                        Err("invalid manifest file size"@)
                    } else if lookup(f, encode_utf8("Last-Modified"@)) is Some && text_in(
                        f,
                        "Last-Modified"@,
                    ) is Err {
                        Err("invalid manifest string field"@)
                    } else {
                        match sum_fault(f) {
                            Some(e) => Err(e),
                            None => Ok((path, size)),
                        }
                    },
                }
            },
        }
    }
}

fn read_path(f: &Vec<Named>) -> (r: Result<Vec<u8>, Refusal>)
    ensures
        bytes_result(r) == entry_path(fields_view(f@)),
{
    match (find_field(f, "Path".as_bytes()), find_field(f, "Encoded-Path".as_bytes())) {
        (Some(i), None) => match &f[i].value {
            Value::Text(p) => Ok(slice_to_vec(p.as_slice())),
            _ => Err(refuse("manifest file requires exactly one pathname")),
        },
        (None, Some(i)) => match &f[i].value {
            Value::Text(p) => hex(p.as_slice()),
            _ => Err(refuse("manifest file requires exactly one pathname")),
        },
        _ => Err(refuse("manifest file requires exactly one pathname")),
    }
}

fn read_file(f: &Vec<Named>) -> (r: Result<(Vec<u8>, u64), Refusal>)
    ensures
        match file_entry(fields_view(f@)) {
            Ok((path, size)) => r matches Ok(x) && x.0@ == path && x.1 == size,
            Err(e) => r matches Err(x) && x@ == e,
        },
{
    let ghost v = fields_view(f@);
    let mut i: usize = 0;
    while i < f.len()
        invariant
            v == fields_view(f@),
            i <= f@.len(),
            forall|j: int| 0 <= j < i ==> file_field((#[trigger] v[j]).0),
        decreases f@.len() - i,
    {
        if !is_file_field(f[i].name.as_slice()) {
            proof {
                assert(!file_field(v[i as int].0));
            }
            return Err(refuse("unrecognized manifest file field"));
        }
        i += 1;
    }
    let path = match read_path(f) {
        Ok(p) => p,
        Err(e) => return Err(e),
    };
    if !check_path(path.as_slice()) {
        return Err(refuse("invalid manifest pathname"));
    }
    let size: u64 = match number(f, "Size") {
        Ok(n) => n,
        Err(e) => return Err(e),
    };
    if size > i64::MAX as u64 {
        return Err(refuse("invalid manifest file size"));
    }
    if find_field(f, "Last-Modified".as_bytes()).is_some() {
        match text(f, "Last-Modified") {
            Ok(_) => {},
            Err(e) => return Err(e),
        }
    }
    match check_sum(f) {
        Ok(_) => {},
        Err(e) => return Err(e),
    }
    Ok((path, size))
}

/// The stretch of log in an entry. No timeline comes twice.
pub open spec fn range_entry(f: FieldsView, before: Seq<WalRange>) -> Result<WalRange, Seq<char>> {
    if f.len() != 3 {
        Err("invalid manifest WAL range fields"@)
    } else {
        match number_in(f, "Timeline"@) {
            Err(e) => Err(e),
            Ok(t) => if t > u32::MAX {
                Err("invalid manifest timeline"@)
            } else {
                match text_in(f, "Start-LSN"@) {
                    Err(e) => Err(e),
                    Ok(a) => match position_value(a) {
                        Err(e) => Err(e),
                        Ok(start) => match text_in(f, "End-LSN"@) {
                            Err(e) => Err(e),
                            Ok(b) => match position_value(b) {
                                Err(e) => Err(e),
                                Ok(end) => if t == 0 || start == 0 || start >= end || has_timeline(
                                    before,
                                    t as u32,
                                ) {
                                    Err("invalid or duplicate manifest WAL range"@)
                                } else {
                                    Ok(WalRange { tli: t as u32, start, end })
                                },
                            },
                        },
                    },
                }
            },
        }
    }
}

pub open spec fn has_timeline(ranges: Seq<WalRange>, t: u32) -> bool {
    exists|i: int| 0 <= i < ranges.len() && (#[trigger] ranges[i]).tli == t
}

fn read_range(f: &Vec<Named>, before: &Vec<WalRange>) -> (r: Result<WalRange, Refusal>)
    ensures
        seen(r) == range_entry(fields_view(f@), before@),
{
    if f.len() != 3 {
        return Err(refuse("invalid manifest WAL range fields"));
    }
    let t: u64 = match number(f, "Timeline") {
        Ok(n) => n,
        Err(e) => return Err(e),
    };
    if t > 0xffff_ffff {
        return Err(refuse("invalid manifest timeline"));
    }
    let tli: u32 = t as u32;
    let a = match text(f, "Start-LSN") {
        Ok(s) => s,
        Err(e) => return Err(e),
    };
    let start: u64 = match position(a) {
        Ok(n) => n,
        Err(e) => return Err(e),
    };
    let b = match text(f, "End-LSN") {
        Ok(s) => s,
        Err(e) => return Err(e),
    };
    let end: u64 = match position(b) {
        Ok(n) => n,
        Err(e) => return Err(e),
    };
    let mut twice: bool = false;
    let mut i: usize = 0;
    while i < before.len()
        invariant
            i <= before@.len(),
            twice == exists|j: int| 0 <= j < i && (#[trigger] before@[j]).tli == tli,
        decreases before@.len() - i,
    {
        if before[i].tli == tli {
            twice = true;
        }
        i += 1;
    }
    if tli == 0 || start == 0 || start >= end || twice {
        return Err(refuse("invalid or duplicate manifest WAL range"));
    }
    Ok(WalRange { tli, start, end })
}

/// An object that is not closed yet, and the last field that was named in it.
pub struct Level {
    pub fields: Vec<Named>,
    pub key: Vec<u8>,
}

pub open spec fn levels_view(s: Seq<Level>) -> Seq<(FieldsView, Seq<u8>)> {
    Seq::new(s.len(), |i: int| (fields_view(s[i].fields@), s[i].key@))
}

/// A reader of manifests.
pub struct Parser {
    pub stack: Vec<Level>,
    pub root: Option<Vec<Named>>,
    pub array: Option<Vec<u8>>,
    pub result: Uploaded,
}

#[verifier::ext_equal]
pub struct ParserView {
    /// The objects that are not closed yet, outermost first.
    pub stack: Seq<(FieldsView, Seq<u8>)>,
    /// The outermost object, once it is closed.
    pub root: Option<FieldsView>,
    /// The list that is not closed yet.
    pub array: Option<Seq<u8>>,
    pub result: UploadedView,
}

impl View for Parser {
    type V = ParserView;

    open spec fn view(&self) -> ParserView {
        ParserView {
            stack: levels_view(self.stack@),
            root: match self.root {
                Some(f) => Some(fields_view(f@)),
                None => None,
            },
            array: match self.array {
                Some(a) => Some(a@),
                None => None,
            },
            result: self.result@,
        }
    }
}

/// The innermost object that is not closed with one of its fields set.
pub open spec fn with_field(p: ParserView, k: Seq<u8>, v: ValueView) -> ParserView {
    let top = p.stack.last();
    ParserView { stack: p.stack.update(p.stack.len() - 1, (put(top.0, k, v), top.1)), ..p }
}

/// An object is closed.
pub open spec fn object_end(p: ParserView) -> Result<ParserView, Seq<char>> {
    if p.stack.len() == 0 {
        Err("invalid manifest object"@)
    } else {
        let f = p.stack.last().0;
        let q = ParserView { stack: p.stack.drop_last(), ..p };
        if q.stack.len() == 0 {
            Ok(ParserView { root: Some(f), ..q })
        } else if p.array == Some(encode_utf8("Files"@)) {
            match file_entry(f) {
                Err(e) => Err(e),
                Ok((path, size)) => if p.result.files.dom().contains(path) {
                    Err("duplicate manifest pathname"@)
                } else {
                    Ok(
                        ParserView {
                            result: UploadedView {
                                files: p.result.files.insert(path, size),
                                ..p.result
                            },
                            ..q
                        },
                    )
                },
            }
        } else if p.array == Some(encode_utf8("WAL-Ranges"@)) {
            match range_entry(f, p.result.ranges) {
                Err(e) => Err(e),
                Ok(r) => Ok(
                    ParserView {
                        result: UploadedView { ranges: p.result.ranges.push(r), ..p.result },
                        ..q
                    },
                ),
            }
        } else {
            Err("unexpected manifest object"@)
        }
    }
}

/// A list is opened.
pub open spec fn array_start(p: ParserView) -> Result<ParserView, Seq<char>> {
    if p.stack.len() != 1 || p.array is Some {
        Err("unexpected manifest array"@)
    } else {
        let key = p.stack[0].1;
        if key != encode_utf8("Files"@) && key != encode_utf8("WAL-Ranges"@) {
            Err("unexpected manifest array field"@)
        } else {
            Ok(ParserView { array: Some(key), ..with_field(p, key, ValueView::Array) })
        }
    }
}

/// A value that is neither an object nor a list comes.
pub open spec fn scalar(p: ParserView, e: EventView) -> Result<ParserView, Seq<char>> {
    if p.array is Some && p.stack.len() == 1 {
        Err("manifest array requires objects"@)
    } else {
        let value: Result<ValueView, Seq<char>> = match e {
            EventView::Text(s) => Ok(ValueView::Text(s)),
            EventView::Number(s) => match unsigned_value(s) {
                Some(n) => Ok(ValueView::Number(n as u64)),
                None => Err("invalid manifest unsigned integer"@),
            },
            _ => Err("unexpected manifest scalar"@),
        };
        match value {
            Err(e) => Err(e),
            Ok(v) => if p.stack.len() == 0 {
                Err("manifest must be an object"@)
            } else {
                Ok(with_field(p, p.stack.last().1, v))
            },
        }
    }
}

/// The reader after one more event.
pub open spec fn parser_step(p: ParserView, e: EventView) -> Result<ParserView, Seq<char>> {
    match e {
        EventView::ObjectStart => if p.stack.len() > 1 || (p.stack.len() == 1 && p.array is None)
            || p.root is Some {
            Err("unexpected object in backup manifest"@)
        } else {
            Ok(ParserView { stack: p.stack.push((Seq::empty(), Seq::empty())), ..p })
        },
        EventView::ObjectEnd => object_end(p),
        EventView::Field(name) => if p.stack.len() == 0 {
            Err("invalid manifest field"@)
        } else if lookup(p.stack.last().0, name) is Some {
            Err("duplicate manifest field"@)
        } else {
            let top = p.stack.last();
            Ok(
                ParserView {
                    stack: p.stack.update(
                        p.stack.len() - 1,
                        (put(top.0, name, ValueView::Pending), name),
                    ),
                    ..p
                },
            )
        },
        EventView::ArrayStart => array_start(p),
        EventView::ArrayEnd => Ok(ParserView { array: None, ..p }),
        _ => scalar(p, e),
    }
}

impl Parser {
    pub open spec fn wf(&self) -> bool {
        self.result.files.wf()
    }

    pub open spec fn first() -> ParserView {
        ParserView {
            stack: Seq::empty(),
            root: None,
            array: None,
            result: UploadedView { files: Map::empty(), ranges: Seq::empty() },
        }
    }

    pub fn new() -> (r: Parser)
        ensures
            r.wf(),
            r@ == Parser::first(),
    {
        let r = Parser {
            stack: Vec::new(),
            root: None,
            array: None,
            result: Uploaded { files: KeyMap::new(), ranges: Vec::new() },
        };
        proof {
            assert(r@ =~= Parser::first());
        }
        r
    }

    fn close(&mut self) -> (r: Result<(), Refusal>)
        requires
            old(self).wf(),
        ensures
            final(self).wf(),
            match object_end(old(self)@) {
                Ok(n) => r is Ok && final(self)@ == n,
                Err(e) => r matches Err(x) && x@ == e,
            },
    {
        let ghost p = self@;
        let level = match self.stack.pop() {
            Some(l) => l,
            None => return Err(refuse("invalid manifest object")),
        };
        let fields = level.fields;
        proof {
            assert(p.stack.last() == (fields_view(fields@), level.key@));
            assert(levels_view(self.stack@) =~= p.stack.drop_last());
        }
        if self.stack.len() == 0 {
            self.root = Some(fields);
            proof {
                assert(self@ =~= object_end(p)->Ok_0);
            }
            return Ok(());
        }
        let (in_files, in_ranges) = match &self.array {
            Some(a) => (
                same_bytes(a.as_slice(), "Files".as_bytes()),
                same_bytes(a.as_slice(), "WAL-Ranges".as_bytes()),
            ),
            None => (false, false),
        };
        if in_files {
            let (path, size) = match read_file(&fields) {
                Ok(x) => x,
                Err(e) => return Err(e),
            };
            if !self.result.files.insert(path, size) {
                return Err(refuse("duplicate manifest pathname"));
            }
        } else if in_ranges {
            let range = match read_range(&fields, &self.result.ranges) {
                Ok(x) => x,
                Err(e) => return Err(e),
            };
            self.result.ranges.push(range);
        } else {
            return Err(refuse("unexpected manifest object"));
        }
        proof {
            assert(self@ =~= object_end(p)->Ok_0);
        }
        Ok(())
    }

    fn set_top(&mut self, k: &[u8], value: Value)
        requires
            old(self).wf(),
            old(self).stack@.len() > 0,
        ensures
            final(self).wf(),
            final(self)@ == with_field(old(self)@, k@, value@),
            final(self).stack@.len() == old(self).stack@.len(),
    {
        let ghost p = self@;
        let ghost v = value@;
        let level = self.stack.pop();
        match level {
            Some(l) => {
                let mut fields = l.fields;
                let ghost was = fields_view(fields@);
                set_field(&mut fields, k, value);
                let ghost key = l.key@;
                self.stack.push(Level { fields, key: l.key });
                proof {
                    assert(p.stack.last() == (was, key));
                    assert(levels_view(self.stack@) =~= p.stack.update(
                        p.stack.len() - 1,
                        (put(was, k@, v), key),
                    ));
                    assert(self@ =~= with_field(p, k@, v));
                }
            },
            None => {},
        }
    }

    fn name_field(&mut self, name: Vec<u8>) -> (r: Result<(), Refusal>)
        requires
            old(self).wf(),
        ensures
            final(self).wf(),
            match parser_step(old(self)@, EventView::Field(name@)) {
                Ok(n) => r is Ok && final(self)@ == n,
                Err(e) => r matches Err(x) && x@ == e,
            },
    {
        let ghost p = self@;
        let n: usize = self.stack.len();
        if n == 0 {
            return Err(refuse("invalid manifest field"));
        }
        proof {
            assert(p.stack.last().0 == fields_view(self.stack@[n - 1].fields@));
        }
        if find_field(&self.stack[n - 1].fields, name.as_slice()).is_some() {
            return Err(refuse("duplicate manifest field"));
        }
        self.set_top(name.as_slice(), Value::Pending);
        let ghost q = self@;
        let ghost k = name@;
        match self.stack.pop() {
            Some(l) => {
                self.stack.push(Level { fields: l.fields, key: name });
                proof {
                    assert(q.stack.last() == (fields_view(l.fields@), l.key@));
                    assert(levels_view(self.stack@) =~= q.stack.update(
                        q.stack.len() - 1,
                        (q.stack.last().0, k),
                    ));
                    assert(self@ =~= parser_step(p, EventView::Field(k))->Ok_0);
                }
            },
            None => {},
        }
        Ok(())
    }

    fn open_array(&mut self) -> (r: Result<(), Refusal>)
        requires
            old(self).wf(),
        ensures
            final(self).wf(),
            match array_start(old(self)@) {
                Ok(n) => r is Ok && final(self)@ == n,
                Err(e) => r matches Err(x) && x@ == e,
            },
    {
        let ghost p = self@;
        if self.stack.len() != 1 || self.array.is_some() {
            return Err(refuse("unexpected manifest array"));
        }
        let key = slice_to_vec(self.stack[0].key.as_slice());
        proof {
            assert(p.stack[0].1 == key@);
        }
        if !same_bytes(key.as_slice(), "Files".as_bytes()) && !same_bytes(
            key.as_slice(),
            "WAL-Ranges".as_bytes(),
        ) {
            return Err(refuse("unexpected manifest array field"));
        }
        self.set_top(key.as_slice(), Value::Array);
        self.array = Some(key);
        proof {
            assert(self@ =~= array_start(p)->Ok_0);
        }
        Ok(())
    }

    fn take_scalar(&mut self, value: Result<Value, Refusal>, Ghost(e): Ghost<EventView>) -> (r: Result<
        (),
        Refusal,
    >)
        requires
            old(self).wf(),
            match e {
                EventView::Text(s) => value matches Ok(v) && v@ == ValueView::Text(s),
                EventView::Number(s) => match unsigned_value(s) {
                    Some(n) => value matches Ok(v) && v@ == ValueView::Number(n as u64),
                    None => value matches Err(x) && x@ == "invalid manifest unsigned integer"@,
                },
                _ => value matches Err(x) && x@ == "unexpected manifest scalar"@,
            },
        ensures
            final(self).wf(),
            match scalar(old(self)@, e) {
                Ok(n) => r is Ok && final(self)@ == n,
                Err(e) => r matches Err(x) && x@ == e,
            },
    {
        let ghost p = self@;
        if self.array.is_some() && self.stack.len() == 1 {
            return Err(refuse("manifest array requires objects"));
        }
        let v = match value {
            Ok(v) => v,
            Err(e) => return Err(e),
        };
        let n: usize = self.stack.len();
        if n == 0 {
            return Err(refuse("manifest must be an object"));
        }
        let key = slice_to_vec(self.stack[n - 1].key.as_slice());
        proof {
            assert(p.stack.last().1 == key@);
        }
        self.set_top(key.as_slice(), v);
        Ok(())
    }

    /// Takes one more event.
    pub fn take(&mut self, e: &Event) -> (r: Result<(), Refusal>)
        requires
            old(self).wf(),
        ensures
            final(self).wf(),
            match parser_step(old(self)@, e@) {
                Ok(n) => r is Ok && final(self)@ == n,
                Err(e) => r matches Err(x) && x@ == e,
            },
    {
        let ghost p = self@;
        match e {
            Event::ObjectStart => {
                if self.stack.len() > 1 || (self.stack.len() == 1 && self.array.is_none())
                    || self.root.is_some() {
                    return Err(refuse("unexpected object in backup manifest"));
                }
                self.stack.push(Level { fields: Vec::new(), key: Vec::new() });
                proof {
                    assert(fields_view(self.stack@.last().fields@) =~= Seq::empty());
                    assert(levels_view(self.stack@) =~= p.stack.push((Seq::empty(), Seq::empty())));
                    assert(self@ =~= parser_step(p, e@)->Ok_0);
                }
                Ok(())
            },
            Event::ObjectEnd => self.close(),
            Event::Field(name) => self.name_field(slice_to_vec(name.as_slice())),
            Event::ArrayStart => self.open_array(),
            Event::ArrayEnd => {
                self.array = None;
                proof {
                    assert(self@ =~= parser_step(p, e@)->Ok_0);
                }
                Ok(())
            },
            Event::Text(s) => self.take_scalar(
                Ok(Value::Text(slice_to_vec(s.as_slice()))),
                Ghost(e@),
            ),
            Event::Number(s) => {
                let value = match unsigned(s.as_slice()) {
                    Some(n) => Ok(Value::Number(n)),
                    None => Err(refuse("invalid manifest unsigned integer")),
                };
                self.take_scalar(value, Ghost(e@))
            },
            Event::Other => self.take_scalar(
                Err(refuse("unexpected manifest scalar")),
                Ghost(e@),
            ),
        }
    }
}

/// The reader after the first `n` events.
pub open spec fn parser_run(events: Seq<EventView>, n: nat) -> Result<ParserView, Seq<char>>
    decreases n,
{
    if n == 0 {
        Ok(Parser::first())
    } else {
        match parser_run(events, (n - 1) as nat) {
            Err(e) => Err(e),
            Ok(p) => parser_step(p, events[n - 1]),
        }
    }
}

proof fn lemma_run_err(events: Seq<EventView>, n: nat)
    requires
        n <= events.len(),
        parser_run(events, n) is Err,
    ensures
        parser_run(events, events.len()) == parser_run(events, n),
    decreases events.len() - n,
{
    if n < events.len() {
        lemma_run_err(events, n + 1);
    }
}

/// White space in ASCII.
pub open spec fn ascii_white(b: u8) -> bool {
    b == 32 || b == 9 || b == 10 || b == 12 || b == 13
}

/// Bytes without the white space they begin with.
pub open spec fn trimmed(s: Seq<u8>) -> Seq<u8>
    decreases s.len(),
{
    if s.len() > 0 && ascii_white(s[0]) {
        trimmed(s.skip(1))
    } else {
        s
    }
}

/// What is wrong with the outermost object of a manifest of the database `system`.
pub open spec fn root_fault(f: FieldsView, ranges: Seq<WalRange>, system: u64) -> Option<Seq<char>> {
    let bad = "invalid backup manifest version, system identifier or inventory"@;
    if f.len() != 5 {
        Some(bad)
    } else {
        match number_in(f, "PostgreSQL-Backup-Manifest-Version"@) {
            Err(e) => Some(e),
            Ok(v) => if v != 2 {
                Some(bad)
            } else {
                match number_in(f, "System-Identifier"@) {
                    Err(e) => Some(e),
                    Ok(n) => if n != system || !(lookup(f, encode_utf8("Files"@)) matches Some(
                        ValueView::Array,
                    )) || !(lookup(f, encode_utf8("WAL-Ranges"@)) matches Some(ValueView::Array))
                        || ranges.len() == 0 {
                        Some(bad)
                    } else {
                        None
                    },
                }
            },
        }
    }
}

/// What is wrong with the checksum on the last line: it covers every byte before that line.
pub open spec fn closing_fault(input: Seq<u8>, f: FieldsView) -> Option<Seq<char>> {
    match last_line(input) {
        None => Some("manifest checksum line is missing"@),
        Some(start) => if !begins(
            trimmed(input.skip(start)),
            encode_utf8("\"Manifest-Checksum\""@),
        ) {
            Some("backup manifest checksum mismatch"@)
        } else {
            match text_in(f, "Manifest-Checksum"@) {
                Err(e) => Some(e),
                Ok(sum) => match unhexed(sum) {
                    Err(e) => Some(e),
                    Ok(b) => if b != sha256_of(input.take(start)) {
                        Some("backup manifest checksum mismatch"@)
                    } else {
                        None
                    },
                },
            }
        },
    }
}

/// `s` begins with `p`.
pub open spec fn begins(s: Seq<u8>, p: Seq<u8>) -> bool {
    p.len() <= s.len() && s.take(p.len() as int) == p
}

/// What a manifest comes to. `events` are what a reader of JSON came upon in it, and `complete`
/// whether it is JSON to the end.
pub open spec fn manifest_of(
    input: Seq<u8>,
    events: Seq<EventView>,
    complete: bool,
    system: u64,
) -> Result<UploadedView, Seq<char>> {
    if input.len() > MAX_MANIFEST_BYTES {
        Err("backup manifest exceeds 64 MiB input limit"@)
    } else if !valid_utf8(input) {
        Err("backup manifest is not UTF-8"@)
    } else {
        match parser_run(events, events.len()) {
            Err(e) => Err(e),
            Ok(p) => if !complete {
                Err("invalid JSON backup manifest"@)
            } else {
                match p.root {
                    None => Err("manifest must be an object"@),
                    Some(f) => match root_fault(f, p.result.ranges, system) {
                        Some(e) => Err(e),
                        None => match closing_fault(input, f) {
                            Some(e) => Err(e),
                            None => Ok(p.result),
                        },
                    },
                }
            },
        }
    }
}

pub open spec fn uploaded_result(r: Result<Uploaded, Refusal>) -> Result<UploadedView, Seq<char>> {
    match r {
        Ok(u) => Ok(u@),
        Err(e) => Err(e@),
    }
}

fn check_root(f: &Vec<Named>, ranges: &Vec<WalRange>, system: u64) -> (r: Result<(), Refusal>)
    ensures
        match r {
            Ok(_) => root_fault(fields_view(f@), ranges@, system) is None,
            Err(e) => root_fault(fields_view(f@), ranges@, system) == Some(e@),
        },
{
    let bad = "invalid backup manifest version, system identifier or inventory";
    if f.len() != 5 {
        return Err(refuse(bad));
    }
    let version: u64 = match number(f, "PostgreSQL-Backup-Manifest-Version") {
        Ok(n) => n,
        Err(e) => return Err(e),
    };
    if version != 2 {
        return Err(refuse(bad));
    }
    let id: u64 = match number(f, "System-Identifier") {
        Ok(n) => n,
        Err(e) => return Err(e),
    };
    if id != system || !is_array(f, "Files") || !is_array(f, "WAL-Ranges") || ranges.len() == 0 {
        return Err(refuse(bad));
    }
    Ok(())
}

fn is_array(f: &Vec<Named>, k: &str) -> (r: bool)
    ensures
        r == (lookup(fields_view(f@), encode_utf8(k@)) matches Some(ValueView::Array)),
{
    match find_field(f, k.as_bytes()) {
        Some(i) => match &f[i].value {
            Value::Array => true,
            _ => false,
        },
        None => false,
    }
}

fn names_checksum(line: &[u8]) -> (r: bool)
    ensures
        r == begins(trimmed(line@), encode_utf8("\"Manifest-Checksum\""@)),
{
    let mut i: usize = 0;
    proof {
        assert(line@.skip(0) =~= line@);
    }
    while i < line.len() && (line[i] == 32 || line[i] == 9 || line[i] == 10 || line[i] == 12
        || line[i] == 13)
        invariant
            i <= line@.len(),
            trimmed(line@) == trimmed(line@.skip(i as int)),
        decreases line@.len() - i,
    {
        proof {
            assert(line@.skip(i as int).skip(1) =~= line@.skip(i + 1));
            assert(line@.skip(i as int)[0] == line@[i as int]);
        }
        i += 1;
    }
    let name = "\"Manifest-Checksum\"".as_bytes();
    proof {
        if i < line@.len() {
            assert(line@.skip(i as int)[0] == line@[i as int]);
        }
        assert(trimmed(line@) == line@.skip(i as int));
    }
    if name.len() > line.len() - i {
        return false;
    }
    assert(i + name@.len() <= line.len());
    let head = slice_subrange(line, i, i + name.len());
    proof {
        assert(head@ =~= line@.skip(i as int).take(name@.len() as int));
    }
    same_bytes(head, name)
}

fn check_closing(input: &[u8], f: &Vec<Named>) -> (r: Result<(), Refusal>)
    ensures
        match r {
            Ok(_) => closing_fault(input@, fields_view(f@)) is None,
            Err(e) => closing_fault(input@, fields_view(f@)) == Some(e@),
        },
{
    let start: usize = match find_last_line(input) {
        Some(i) => i,
        None => return Err(refuse("manifest checksum line is missing")),
    };
    let line = slice_subrange(input, start, input.len());
    let covered = slice_subrange(input, 0, start);
    proof {
        assert(line@ =~= input@.skip(start as int));
        assert(covered@ =~= input@.take(start as int));
    }
    if !names_checksum(line) {
        return Err(refuse("backup manifest checksum mismatch"));
    }
    let sum = match text(f, "Manifest-Checksum") {
        Ok(s) => s,
        Err(e) => return Err(e),
    };
    let want = match hex(sum) {
        Ok(b) => b,
        Err(e) => return Err(e),
    };
    if !same_bytes(want.as_slice(), sha256(covered).as_slice()) {
        return Err(refuse("backup manifest checksum mismatch"));
    }
    Ok(())
}

/// Reads the manifest of a backup of the database `system`. `events` are what a reader of JSON
/// came upon in it, and `complete` whether it is JSON to the end.
pub fn parse(input: &[u8], events: &Vec<Event>, complete: bool, system: u64) -> (r: Result<
    Uploaded,
    Refusal,
>)
    ensures
        uploaded_result(r) == manifest_of(input@, events_view(events@), complete, system),
        r matches Ok(u) ==> u.files.wf(),
{
    if input.len() > MAX_MANIFEST_BYTES {
        return Err(refuse("backup manifest exceeds 64 MiB input limit"));
    }
    if utf8(input).is_none() {
        return Err(refuse("backup manifest is not UTF-8"));
    }
    let ghost all = events_view(events@);
    let mut parser = Parser::new();
    let mut i: usize = 0;
    while i < events.len()
        invariant
            input@.len() <= MAX_MANIFEST_BYTES,
            valid_utf8(input@),
            all == events_view(events@),
            i <= events@.len(),
            parser.wf(),
            parser_run(all, i as nat) == Ok::<ParserView, Seq<char>>(parser@),
        decreases events@.len() - i,
    {
        proof {
            assert(all[i as int] == events@[i as int]@);
            if parser_run(all, (i + 1) as nat) is Err {
                lemma_run_err(all, (i + 1) as nat);
            }
        }
        match parser.take(&events[i]) {
            Ok(_) => {},
            Err(e) => return Err(e),
        }
        i += 1;
    }
    proof {
        assert(all.len() == events@.len());
    }
    if !complete {
        return Err(refuse("invalid JSON backup manifest"));
    }
    let f = match parser.root {
        Some(f) => f,
        None => return Err(refuse("manifest must be an object")),
    };
    match check_root(&f, &parser.result.ranges, system) {
        Ok(_) => {},
        Err(e) => return Err(e),
    }
    match check_closing(input, &f) {
        Ok(_) => {},
        Err(e) => return Err(e),
    }
    Ok(parser.result)
}

/// A manifest as a client sends it, message by message.
pub struct Transfer {
    pub bytes: Vec<u8>,
}

/// How long a message of this kind may be; nothing where none of the kind may come.
pub open spec fn message_limit(kind: u8) -> Option<nat> {
    if kind == 100 {
        Some((MAX_MANIFEST_BYTES + 4) as nat)
    } else if kind == 99 || kind == 102 || kind == 72 || kind == 83 {
        Some(10000)
    } else {
        None
    }
}

/// How long a message of this kind may be. `kind` is negative where the client is gone.
pub fn limit_of(kind: i32) -> (r: Result<usize, Refusal>)
    ensures
        if kind < 0 {
            seen(r) == Err::<usize, Seq<char>>("EOF during manifest upload"@)
        } else if kind <= 255 {
            match message_limit(kind as u8) {
                Some(n) => r matches Ok(m) && m == n,
                None => seen(r) == Err::<usize, Seq<char>>(
                    "unexpected message during manifest upload"@,
                ),
            }
        } else {
            seen(r) == Err::<usize, Seq<char>>("unexpected message during manifest upload"@)
        },
{
    if kind < 0 {
        return Err(refuse("EOF during manifest upload"));
    }
    if kind == 100 {
        return Ok(MAX_MANIFEST_BYTES + 4);
    }
    if kind == 99 || kind == 102 || kind == 72 || kind == 83 {
        return Ok(10000);
    }
    Err(refuse("unexpected message during manifest upload"))
}

impl Transfer {
    pub fn new() -> (r: Transfer)
        ensures
            r.bytes@ == Seq::<u8>::empty(),
    {
        Transfer { bytes: Vec::new() }
    }

    /// Takes a message of this kind: data, the end, a flush or an abort. `true` where the
    /// manifest has ended.
    pub fn take(&mut self, kind: u8, data: &[u8]) -> (r: Result<bool, Refusal>)
        requires
            old(self).bytes@.len() <= MAX_MANIFEST_BYTES,
        ensures
            final(self).bytes@.len() <= MAX_MANIFEST_BYTES,
            if kind == 100 {
                if old(self).bytes@.len() + data@.len() > MAX_MANIFEST_BYTES {
                    seen(r) == Err::<bool, Seq<char>>(
                        "backup manifest exceeds 64 MiB input limit"@,
                    ) && final(self).bytes@ == old(self).bytes@
                } else {
                    r == Ok::<bool, Refusal>(false) && final(self).bytes@ == old(self).bytes@
                        + data@
                }
            } else {
                &&& final(self).bytes@ == old(self).bytes@
                &&& seen(r) == (if kind == 99 && data@.len() == 0 {
                    Ok(true)
                } else if (kind == 72 || kind == 83) && data@.len() == 0 {
                    Ok(false)
                } else if kind == 102 {
                    Err("client aborted manifest upload"@)
                } else {
                    Err("invalid manifest upload message"@)
                })
            },
    {
        if kind == 100 {
            if data.len() > MAX_MANIFEST_BYTES - self.bytes.len() {
                return Err(refuse("backup manifest exceeds 64 MiB input limit"));
            }
            let ghost before = self.bytes@;
            self.bytes.extend_from_slice(data);
            proof {
                assert(self.bytes@ =~= before + data@);
            }
            return Ok(false);
        }
        if kind == 99 && data.len() == 0 {
            return Ok(true);
        }
        if (kind == 72 || kind == 83) && data.len() == 0 {
            return Ok(false);
        }
        if kind == 102 {
            return Err(refuse("client aborted manifest upload"));
        }
        Err(refuse("invalid manifest upload message"))
    }
}

/// What a session keeps of the manifest that was uploaded in it.
pub struct Session {
    uploaded: Option<Uploaded>,
}

impl View for Session {
    type V = Option<UploadedView>;

    closed spec fn view(&self) -> Option<UploadedView> {
        match self.uploaded {
            Some(u) => Some(u@),
            None => None,
        }
    }
}

impl Session {
    pub closed spec fn wf(&self) -> bool {
        self.uploaded matches Some(u) ==> u.files.wf()
    }

    pub fn new() -> (r: Session)
        ensures
            r.wf(),
            r@ is None,
    {
        Session { uploaded: None }
    }

    /// A manifest was uploaded. It replaces the one before.
    pub fn keep(&mut self, manifest: Uploaded)
        requires
            manifest.files.wf(),
        ensures
            final(self).wf(),
            final(self)@ == Some(manifest@),
    {
        self.uploaded = Some(manifest);
    }

    /// The session ends.
    pub fn clear(&mut self)
        ensures
            final(self).wf(),
            final(self)@ is None,
    {
        self.uploaded = None;
    }
}

/// The manifest that was uploaded last in a session.
pub fn current(session: &Session) -> (r: Option<&Uploaded>)
    ensures
        match r {
            Some(u) => session@ == Some(u@) && (session.wf() ==> u.files.wf()),
            None => session@ is None,
        },
{
    match &session.uploaded {
        Some(u) => Some(u),
        None => None,
    }
}

} // verus!
