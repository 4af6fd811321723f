//! Faults for a store: which operation goes wrong, and how. Every random choice comes from a
//! seeded generator, so a run with the same seed goes wrong in the same way.
use crate::http::strings_view;
use crate::names::Names;
use crate::order::{below, lemma_below_asymmetric, lemma_below_transitive};
use crate::text::{decimal, has_prefix, push_char, push_dec, starts_with_text};
use vstd::prelude::*;
use vstd::slice::{slice_subrange, slice_to_vec};
use vstd::utf8::encode_utf8;

verus! {

/// Which operation of a store.
#[derive(Debug, Clone, Copy, PartialEq, Eq, Hash, Structural)]
pub enum OpKind {
    Put,
    Get,
    GetRange,
    List,
    Delete,
}

impl OpKind {
    pub open spec fn name_of(self) -> Seq<char> {
        match self {
            OpKind::Put => "put_if_absent"@,
            OpKind::Get => "get"@,
            OpKind::GetRange => "get_range"@,
            OpKind::List => "list"@,
            OpKind::Delete => "delete"@,
        }
    }

    /// The operation in words.
    pub fn name(self) -> (r: &'static str)
        ensures
            r@ == self.name_of(),
    {
        match self {
            OpKind::Put => "put_if_absent",
            OpKind::Get => "get",
            OpKind::GetRange => "get_range",
            OpKind::List => "list",
            OpKind::Delete => "delete",
        }
    }
}

/// What can go wrong with one operation.
#[derive(Debug, Clone, Copy, PartialEq, Eq, Structural)]
pub enum Fault {
    /// The write is performed, then an error is returned: the response was lost.
    ErrAfterLanded,
    /// An error is returned and nothing is written.
    ErrBeforeLanded,
    /// The operation is held up by this many milliseconds, then performed.
    Delay(u64),
    /// The object is written torn, and success is reported.
    TornObject,
    /// The object is reported to exist, and nothing is written.
    PhantomExists,
    /// A listing leaves out this many of the last objects.
    ListStale(u32),
    /// A read fails.
    GetErr,
    /// A ranged read returns fewer bytes than were asked for.
    GetRangeShort,
}

/// Whether a fault makes sense for an operation.
pub open spec fn applies(f: Fault, op: OpKind) -> bool {
    match f {
        Fault::ErrAfterLanded | Fault::ErrBeforeLanded => op == OpKind::Put || op
            == OpKind::Delete,
        Fault::Delay(_) => true,
        Fault::TornObject | Fault::PhantomExists => op == OpKind::Put,
        Fault::ListStale(_) => op == OpKind::List,
        Fault::GetErr => op == OpKind::Get || op == OpKind::GetRange || op == OpKind::List,
        Fault::GetRangeShort => op == OpKind::GetRange,
    }
}

/// Every kind of fault, with the parameters that random faults use.
pub open spec fn all_faults() -> Seq<Fault> {
    seq![
        Fault::ErrAfterLanded,
        Fault::ErrBeforeLanded,
        Fault::Delay(5),
        Fault::TornObject,
        Fault::PhantomExists,
        Fault::ListStale(1),
        Fault::GetErr,
        Fault::GetRangeShort,
    ]
}

/// A fault in words.
pub open spec fn fault_text(f: Fault) -> Seq<char> {
    match f {
        Fault::ErrAfterLanded => "ErrAfterLanded"@,
        Fault::ErrBeforeLanded => "ErrBeforeLanded"@,
        Fault::Delay(ms) => "Delay("@ + decimal(ms as nat) + "ms)"@,
        Fault::TornObject => "TornObject"@,
        Fault::PhantomExists => "PhantomExists"@,
        Fault::ListStale(n) => "ListStale("@ + decimal(n as nat) + ")"@,
        Fault::GetErr => "GetErr"@,
        Fault::GetRangeShort => "GetRangeShort"@,
    }
}

impl Fault {
    /// Whether this fault makes sense for the given operation.
    pub fn applies_to(self, op: OpKind) -> (r: bool)
        ensures
            r == applies(self, op),
    {
        match self {
            Fault::ErrAfterLanded | Fault::ErrBeforeLanded => op == OpKind::Put || op
                == OpKind::Delete,
            Fault::Delay(_) => true,
            Fault::TornObject | Fault::PhantomExists => op == OpKind::Put,
            Fault::ListStale(_) => op == OpKind::List,
            Fault::GetErr => op == OpKind::Get || op == OpKind::GetRange || op == OpKind::List,
            Fault::GetRangeShort => op == OpKind::GetRange,
        }
    }

    /// Every kind, with the parameters random faults use.
    pub fn all() -> (r: Vec<Fault>)
        ensures
            r@ == all_faults(),
    {
        let r = vec![
            Fault::ErrAfterLanded,
            Fault::ErrBeforeLanded,
            Fault::Delay(5),
            Fault::TornObject,
            Fault::PhantomExists,
            Fault::ListStale(1),
            Fault::GetErr,
            Fault::GetRangeShort,
        ];
        proof {
            assert(r@ =~= all_faults());
        }
        r
    }

    /// The fault in words.
    pub fn text(self) -> (r: String)
        ensures
            r@ == fault_text(self),
    {
        match self {
            Fault::ErrAfterLanded => "ErrAfterLanded".to_owned(),
            Fault::ErrBeforeLanded => "ErrBeforeLanded".to_owned(),
            Fault::Delay(ms) => {
                let mut s = "Delay(".to_owned();
                push_dec(&mut s, ms);
                s.append("ms)");
                s
            },
            Fault::TornObject => "TornObject".to_owned(),
            Fault::PhantomExists => "PhantomExists".to_owned(),
            Fault::ListStale(n) => {
                let mut s = "ListStale(".to_owned();
                push_dec(&mut s, n as u64);
                s.append(")");
                s
            },
            Fault::GetErr => "GetErr".to_owned(),
            Fault::GetRangeShort => "GetRangeShort".to_owned(),
        }
    }
}

/// A scripted fault: the `nth` operation of kind `op` on a key under `prefix` gets `fault`.
/// Without `nth` every matching operation does, up to `times` of them.
#[derive(Debug, Clone)]
pub struct Rule {
    pub op: OpKind,
    pub prefix: String,
    pub nth: Option<u64>,
    pub fault: Fault,
    pub times: Option<u32>,
    /// How many operations matched, and how many of them got the fault.
    pub seen: u64,
    pub fired: u32,
}

#[verifier::ext_equal]
pub struct RuleView {
    pub op: OpKind,
    pub prefix: Seq<char>,
    pub nth: Option<u64>,
    pub fault: Fault,
    pub times: Option<u32>,
    pub seen: u64,
    pub fired: u32,
}

impl View for Rule {
    type V = RuleView;

    open spec fn view(&self) -> RuleView {
        RuleView {
            op: self.op,
            prefix: self.prefix@,
            nth: self.nth,
            fault: self.fault,
            times: self.times,
            seen: self.seen,
            fired: self.fired,
        }
    }
}

impl RuleView {
    /// The rule concerns an operation on `key`, and has not run out.
    pub open spec fn concerns(self, op: OpKind, key: Seq<char>) -> bool {
        &&& op == self.op
        &&& has_prefix(key, self.prefix)
        &&& applies(self.fault, op)
        &&& self.times matches Some(t) ==> self.fired < t
    }

    /// An operation that the rule concerns gets the fault.
    pub open spec fn hits(self) -> bool {
        match self.nth {
            Some(n) => self.seen + 1 == n,
            None => true,
        }
    }

    /// The rule after an operation on `key`, and the fault that it gives.
    pub open spec fn step(self, op: OpKind, key: Seq<char>) -> (RuleView, Option<Fault>) {
        if !self.concerns(op, key) {
            (self, None)
        } else if self.hits() {
            (
                RuleView {
                    seen: (self.seen + 1) as u64,
                    fired: (self.fired + 1) as u32,
                    ..self
                },
                Some(self.fault),
            )
        } else {
            (RuleView { seen: (self.seen + 1) as u64, ..self }, None)
        }
    }

    /// The counts do not run over with one more operation.
    pub open spec fn countable(self) -> bool {
        self.seen < u64::MAX && self.fired < u32::MAX
    }
}

impl Rule {
    /// The `nth` (1-based) matching operation gets the fault, once.
    pub fn nth(op: OpKind, prefix: &str, nth: u64, fault: Fault) -> (r: Rule)
        ensures
            r@ == (RuleView {
                op,
                prefix: prefix@,
                nth: Some(nth),
                fault,
                times: Some(1),
                seen: 0,
                fired: 0,
            }),
    {
        Rule {
            op,
            prefix: prefix.to_owned(),
            nth: Some(nth),
            fault,
            times: Some(1),
            seen: 0,
            fired: 0,
        }
    }

    /// Every matching operation gets the fault.
    pub fn every(op: OpKind, prefix: &str, fault: Fault) -> (r: Rule)
        ensures
            r@ == (RuleView {
                op,
                prefix: prefix@,
                nth: None,
                fault,
                times: None,
                seen: 0,
                fired: 0,
            }),
    {
        Rule { op, prefix: prefix.to_owned(), nth: None, fault, times: None, seen: 0, fired: 0 }
    }

    /// Every matching operation gets the fault, the first `times` of them.
    pub fn first(op: OpKind, prefix: &str, times: u32, fault: Fault) -> (r: Rule)
        ensures
            r@ == (RuleView {
                op,
                prefix: prefix@,
                nth: None,
                fault,
                times: Some(times),
                seen: 0,
                fired: 0,
            }),
    {
        Rule {
            op,
            prefix: prefix.to_owned(),
            nth: None,
            fault,
            times: Some(times),
            seen: 0,
            fired: 0,
        }
    }

    /// The fault that this rule gives an operation on `key`, if any. Operations are counted.
    pub fn matches(&mut self, op: OpKind, key: &str) -> (r: Option<Fault>)
        requires
            old(self)@.countable(),
        ensures
            (final(self)@, r) == old(self)@.step(op, key@),
    {
        if op != self.op || !starts_with_text(key, self.prefix.as_str()) || !self.fault.applies_to(
            op,
        ) {
            return None;
        }
        match self.times {
            Some(t) => if self.fired >= t {
                return None;
            },
            None => {},
        }
        self.seen = self.seen + 1;
        let hit: bool = match self.nth {
            Some(n) => self.seen == n,
            None => true,
        };
        if hit {
            self.fired = self.fired + 1;
            Some(self.fault)
        } else {
            None
        }
    }
}

/// A small generator of numbers: xorshift64*.
#[derive(Debug, Clone)]
pub struct XorShift(pub u64);

/// The state that a seed gives: never zero, which would stay zero.
pub open spec fn seeded(seed: u64) -> u64 {
    (seed.wrapping_mul(0x9E37_79B9_7F4A_7C15) ^ 0xD1B5_4A32_D192_ED03) | 1
}

/// The next state.
pub open spec fn shifted(x: u64) -> u64 {
    let a = x ^ (x >> 12);
    let b = a ^ (a << 25);
    b ^ (b >> 27)
}

/// The number that a state gives.
pub open spec fn drawn(x: u64) -> u64 {
    shifted(x).wrapping_mul(0x2545_F491_4F6C_DD1D)
}

/// How many values a chance has.
pub const CERTAIN: u64 = 0x20_0000_0000_0000;

impl XorShift {
    /// A generator with this seed.
    pub fn new(seed: u64) -> (r: XorShift)
        ensures
            r.0 == seeded(seed),
    {
        XorShift((seed.wrapping_mul(0x9E37_79B9_7F4A_7C15) ^ 0xD1B5_4A32_D192_ED03) | 1)
    }

    /// The next number.
    pub fn next_u64(&mut self) -> (r: u64)
        ensures
            final(self).0 == shifted(old(self).0),
            r == drawn(old(self).0),
    {
        let x: u64 = self.0;
        let a: u64 = x ^ (x >> 12);
        let b: u64 = a ^ (a << 25);
        let c: u64 = b ^ (b >> 27);
        self.0 = c;
        c.wrapping_mul(0x2545_F491_4F6C_DD1D)
    }

    /// A number below `n`; zero when `n` is zero.
    pub fn below(&mut self, n: u64) -> (r: u64)
        ensures
            if n == 0 {
                r == 0 && final(self).0 == old(self).0
            } else {
                r == drawn(old(self).0) % n && final(self).0 == shifted(old(self).0)
            },
            n > 0 ==> r < n,
    {
        if n == 0 {
            0
        } else {
            self.next_u64() % n
        }
    }

    /// An event whose probability is `p` out of `CERTAIN`.
    pub fn chance(&mut self, p: u64) -> (r: bool)
        ensures
            r == ((drawn(old(self).0) >> 11) < p),
            final(self).0 == shifted(old(self).0),
    {
        (self.next_u64() >> 11) < p
    }
}

/// The generator never gets stuck at zero, whatever it was seeded with.
pub proof fn lemma_never_zero(seed: u64, x: u64)
    ensures
        seeded(seed) != 0,
        x != 0 ==> shifted(x) != 0,
{
    let m = seed.wrapping_mul(0x9E37_79B9_7F4A_7C15);
    assert(((m ^ 0xD1B5_4A32_D192_ED03u64) | 1) != 0) by (bit_vector);
    let a = x ^ (x >> 12);
    let b = a ^ (a << 25);
    let c = b ^ (b >> 27);
    assert(x != 0 ==> x ^ (x >> 12) != 0) by (bit_vector);
    assert(a != 0 ==> a ^ (a << 25) != 0) by (bit_vector);
    assert(b != 0 ==> b ^ (b >> 27) != 0) by (bit_vector);
}

/// A byte with one more bit of `was` flipped. A bit that is flipped already stays flipped.
pub open spec fn flip_bit(was: u8, now: u8, bit: u8) -> u8 {
    if (now ^ was) & bit == 0 {
        now ^ bit
    } else {
        now
    }
}

/// `now`, which is `body` with some bits flipped, with one more flipped, where `x` is the state
/// that the draws start from, and the state after them. A draw that meets a bit that is flipped
/// already changes nothing.
pub open spec fn flip_once(body: Seq<u8>, now: Seq<u8>, x: u64) -> (Seq<u8>, u64) {
    let i = drawn(x) % body.len() as u64;
    let y = shifted(x);
    let bit = 1u8 << (drawn(y) % 8);
    (now.update(i as int, flip_bit(body[i as int], now[i as int], bit)), shifted(y))
}

/// `body` with up to `n` bits flipped one after another, and the state after the draws.
pub open spec fn flip_bits(body: Seq<u8>, x: u64, n: nat) -> (Seq<u8>, u64)
    decreases n,
{
    if n == 0 {
        (body, x)
    } else {
        let (b, y) = flip_bits(body, x, (n - 1) as nat);
        flip_once(body, b, y)
    }
}

/// `body` torn: cut off, or with a few bits flipped. `x` is the state that the draws start from.
pub open spec fn torn(body: Seq<u8>, x: u64) -> (Seq<u8>, u64) {
    if body.len() == 0 {
        (body, x)
    } else {
        let y = shifted(x);
        if drawn(x) >> 11 < 0x10_0000_0000_0000u64 {
            (body.take((drawn(y) % body.len() as u64) as int), shifted(y))
        } else {
            flip_bits(body, shifted(y), (1 + drawn(y) % 3) as nat)
        }
    }
}

/// Tears `body`: cuts it off, or flips one to three of its bits, with equal chance. What comes
/// out is never what went in, unless there was nothing to tear.
pub fn tear(rng: &mut XorShift, body: &[u8]) -> (r: Vec<u8>)
    ensures
        (r@, final(rng).0) == torn(body@, old(rng).0),
        body@.len() > 0 ==> r@ != body@,
        r@.len() == body@.len() || (r@.len() < body@.len() && r@ == body@.take(r@.len() as int)),
{
    let ghost x = rng.0;
    if body.len() == 0 {
        let r: Vec<u8> = Vec::new();
        proof {
            assert(r@ =~= body@);
        }
        return r;
    }
    proof {
        lemma_torn_differs(body@, x);
    }
    if rng.chance(0x10_0000_0000_0000) {
        let at: u64 = rng.below(body.len() as u64);
        let head = slice_subrange(body, 0, at as usize);
        proof {
            assert(head@ =~= body@.take(at as int));
        }
        slice_to_vec(head)
    } else {
        let mut b = slice_to_vec(body);
        let flips: u64 = 1 + rng.below(3);
        let ghost y = rng.0;
        let mut k: u64 = 0;
        while k < flips
            invariant
                k <= flips,
                b@.len() == body@.len(),
                body@.len() > 0,
                (b@, rng.0) == flip_bits(body@, y, k as nat),
            decreases flips - k,
        {
            let n: usize = b.len();
            let ghost now = b@;
            let ghost z = rng.0;
            let i: u64 = rng.below(n as u64);
            let s: u64 = rng.below(8);
            let bit: u8 = 1u8 << s;
            let byte: u8 = b[i as usize];
            if (byte ^ body[i as usize]) & bit == 0 {
                b[i as usize] = byte ^ bit;
            }
            proof {
                assert(b@ =~= flip_once(body@, now, z).0);
            }
            k += 1;
        }
        b
    }
}

proof fn lemma_flips_keep_length(body: Seq<u8>, x: u64, n: nat)
    requires
        0 < body.len() <= u64::MAX,
    ensures
        flip_bits(body, x, n).0.len() == body.len(),
    decreases n,
{
    if n > 0 {
        lemma_flips_keep_length(body, x, (n - 1) as nat);
    }
}

/// A torn object is never what was sent: it is cut off, or as long as before with some bits
/// flipped.
pub proof fn lemma_torn_differs(body: Seq<u8>, x: u64)
    requires
        0 < body.len() <= u64::MAX,
    ensures
        torn(body, x).0 != body,
        ({
            let t = torn(body, x).0;
            t.len() == body.len() || (t.len() < body.len() && t == body.take(t.len() as int))
        }),
{
    let y = shifted(x);
    if drawn(x) >> 11 < 0x10_0000_0000_0000u64 {
        assert(torn(body, x).0.len() < body.len());
    } else {
        let n = (1 + drawn(y) % 3) as nat;
        let (b, z) = flip_bits(body, shifted(y), (n - 1) as nat);
        lemma_flips_keep_length(body, shifted(y), (n - 1) as nat);
        assert(torn(body, x) == flip_once(body, b, z));
        let i = drawn(z) % body.len() as u64;
        let s = drawn(shifted(z)) % 8;
        let was = body[i as int];
        let now = b[i as int];
        assert((now ^ was) & (1u8 << s) == 0 ==> now ^ (1u8 << s) != was) by (bit_vector)
            requires
                s < 8,
        ;
        assert((now ^ was) & (1u8 << s) != 0 ==> now != was) by (bit_vector);
        assert(torn(body, x).0[i as int] == flip_bit(was, now, 1u8 << s));
        assert(torn(body, x).0[i as int] != body[i as int]);
    }
}

/// One operation as the log records it.
#[derive(Debug, Clone)]
pub struct Event {
    /// Position in the log, from 1.
    pub n: u64,
    pub op: OpKind,
    pub key: String,
    /// Bytes written, or the range asked for, or nothing.
    pub detail: String,
    pub fault: Option<Fault>,
    /// What the caller was told.
    pub result: String,
}

#[verifier::ext_equal]
pub struct EventView {
    pub n: u64,
    pub op: OpKind,
    pub key: Seq<char>,
    pub detail: Seq<char>,
    pub fault: Option<Fault>,
    pub result: Seq<char>,
}

impl View for Event {
    type V = EventView;

    open spec fn view(&self) -> EventView {
        EventView {
            n: self.n,
            op: self.op,
            key: self.key@,
            detail: self.detail@,
            fault: self.fault,
            result: self.result@,
        }
    }
}

/// So many blanks.
pub open spec fn blanks(n: nat) -> Seq<char> {
    Seq::new(n, |i: int| ' ')
}

/// A number with blanks behind it, five characters at least.
pub open spec fn padded(n: nat) -> Seq<char> {
    let d = decimal(n);
    if d.len() < 5 {
        d + blanks((5 - d.len()) as nat)
    } else {
        d
    }
}

/// A line of the log.
pub open spec fn event_text(e: EventView) -> Seq<char> {
    "#"@ + padded(e.n as nat) + " "@ + e.op.name_of() + " "@ + e.key + (if e.detail.len() == 0 {
        Seq::empty()
    } else {
        " "@ + e.detail
    }) + (match e.fault {
        Some(f) => "  <<"@ + fault_text(f) + ">>"@,
        None => Seq::empty(),
    }) + "  -> "@ + e.result
}

fn push_padded(out: &mut String, n: u64)
    ensures
        final(out)@ == old(out)@ + padded(n as nat),
{
    let ghost before = out@;
    let mut d = String::new();
    push_dec(&mut d, n);
    proof {
        assert(d@ =~= decimal(n as nat));
    }
    let mut len: usize = d.as_str().unicode_len();
    out.append(d.as_str());
    let ghost full = out@;
    let ghost first = len;
    proof {
        assert(out@ =~= full + blanks(0));
        assert(full =~= before + decimal(n as nat));
    }
    while len < 5
        invariant
            first <= len,
            first < 5 ==> len <= 5,
            first >= 5 ==> len == first,
            out@ == full + blanks((len - first) as nat),
        decreases 5 - len,
    {
        push_char(out, ' ');
        len += 1;
        proof {
            assert(out@ =~= full + blanks((len - first) as nat));
        }
    }
    proof {
        assert(out@ =~= before + padded(n as nat));
    }
}

impl Event {
    /// The operation in a line.
    pub fn text(&self) -> (r: String)
        ensures
            r@ == event_text(self@),
    {
        let mut s = "#".to_owned();
        push_padded(&mut s, self.n);
        s.append(" ");
        s.append(self.op.name());
        s.append(" ");
        s.append(self.key.as_str());
        if !self.detail.as_str().is_empty() {
            s.append(" ");
            s.append(self.detail.as_str());
        }
        match self.fault {
            Some(f) => {
                s.append("  <<");
                s.append(f.text().as_str());
                s.append(">>");
            },
            None => {},
        }
        s.append("  -> ");
        s.append(self.result.as_str());
        proof {
            assert(s@ =~= event_text(self@));
        }
        s
    }

    pub fn copy(&self) -> (r: Event)
        ensures
            r@ == self@,
    {
        Event {
            n: self.n,
            op: self.op,
            key: self.key.clone(),
            detail: self.detail.clone(),
            fault: self.fault,
            result: self.result.clone(),
        }
    }
}

pub open spec fn rules_view(r: Seq<Rule>) -> Seq<RuleView> {
    Seq::new(r.len(), |i: int| r[i]@)
}

pub open spec fn log_view(l: Seq<Event>) -> Seq<EventView> {
    Seq::new(l.len(), |i: int| l[i]@)
}

/// The rules after an operation, and the fault that the first of them gives that hits it. The
/// rules behind that one do not count the operation.
pub open spec fn rules_step(rules: Seq<RuleView>, op: OpKind, key: Seq<char>) -> (
    Seq<RuleView>,
    Option<Fault>,
)
    decreases rules.len(),
{
    if rules.len() == 0 {
        (rules, None)
    } else {
        let (r, f) = rules[0].step(op, key);
        match f {
            Some(x) => (rules.update(0, r), Some(x)),
            None => {
                let (rest, g) = rules_step(rules.skip(1), op, key);
                (seq![r] + rest, g)
            },
        }
    }
}

/// Those of some faults that make sense for an operation.
pub open spec fn applicable(kinds: Seq<Fault>, op: OpKind) -> Seq<Fault>
    decreases kinds.len(),
{
    if kinds.len() == 0 {
        kinds
    } else {
        let head = applicable(kinds.drop_last(), op);
        if applies(kinds.last(), op) {
            head.push(kinds.last())
        } else {
            head
        }
    }
}

/// The random fault for an operation, and the state after the draws.
pub open spec fn random_fault(kinds: Seq<Fault>, rate: u64, op: OpKind, x: u64) -> (
    Option<Fault>,
    u64,
) {
    let may = applicable(kinds, op);
    if rate == 0 {
        (None, x)
    } else if drawn(x) >> 11 >= rate || may.len() == 0 {
        (None, shifted(x))
    } else {
        let y = shifted(x);
        (Some(may[(drawn(y) % may.len() as u64) as int]), shifted(y))
    }
}

/// The faults of a store, and what was done to it so far.
pub struct Faults {
    pub rng: XorShift,
    pub rules: Vec<Rule>,
    /// How likely a random fault is, out of `CERTAIN`, where no rule gives one.
    pub rate: u64,
    /// Which faults may come at random.
    pub kinds: Vec<Fault>,
    pub enabled: bool,
    pub log: Vec<Event>,
    /// The keys of objects that were written torn.
    pub torn: Names,
    pub injected: u64,
}

#[verifier::ext_equal]
pub struct FaultsView {
    pub rng: u64,
    pub rules: Seq<RuleView>,
    pub rate: u64,
    pub kinds: Seq<Fault>,
    pub enabled: bool,
    pub log: Seq<EventView>,
    pub torn: Set<Seq<char>>,
    pub injected: u64,
}

impl View for Faults {
    type V = FaultsView;

    open spec fn view(&self) -> FaultsView {
        FaultsView {
            rng: self.rng.0,
            rules: rules_view(self.rules@),
            rate: self.rate,
            kinds: self.kinds@,
            enabled: self.enabled,
            log: log_view(self.log@),
            torn: self.torn@,
            injected: self.injected,
        }
    }
}

/// The fault for an operation on `key`, and the state of the faults with the operation logged.
pub open spec fn planned(s: FaultsView, op: OpKind, key: Seq<char>, detail: Seq<char>) -> (
    FaultsView,
    Option<Fault>,
) {
    let e = EventView {
        n: (s.log.len() + 1) as u64,
        op,
        key,
        detail,
        fault: None,
        result: Seq::empty(),
    };
    if !s.enabled {
        (FaultsView { log: s.log.push(e), ..s }, None)
    } else {
        let (rules, scripted) = rules_step(s.rules, op, key);
        let (fault, rng) = match scripted {
            Some(f) => (Some(f), s.rng),
            None => random_fault(s.kinds, s.rate, op, s.rng),
        };
        (
            FaultsView {
                rng,
                rules,
                log: s.log.push(EventView { fault, ..e }),
                injected: if fault is Some {
                    (s.injected + 1) as u64
                } else {
                    s.injected
                },
                ..s
            },
            fault,
        )
    }
}

/// The log with the result of operation `n` filled in.
pub open spec fn recorded(s: FaultsView, n: u64, result: Seq<char>) -> FaultsView {
    if 0 < n <= s.log.len() {
        FaultsView {
            log: s.log.update(n - 1, EventView { result, ..s.log[n - 1] }),
            ..s
        }
    } else {
        s
    }
}

/// What an injected failure says.
pub open spec fn failure_text(n: u64, f: Fault, op: OpKind, key: Seq<char>) -> Seq<char> {
    "injected fault #"@ + decimal(n as nat) + ": "@ + fault_text(f) + " on "@ + op.name_of() + " "@
        + key
}

/// What an injected failure says.
pub fn failure(n: u64, fault: Fault, op: OpKind, key: &str) -> (r: String)
    ensures
        r@ == failure_text(n, fault, op, key@),
{
    let mut s = "injected fault #".to_owned();
    push_dec(&mut s, n);
    s.append(": ");
    s.append(fault.text().as_str());
    s.append(" on ");
    s.append(op.name());
    s.append(" ");
    s.append(key);
    proof {
        assert(s@ =~= failure_text(n, fault, op, key@));
    }
    s
}

/// Lines of the log from `from` on.
pub open spec fn log_lines(log: Seq<EventView>, from: int) -> Seq<char>
    decreases log.len() - from,
{
    if 0 <= from < log.len() {
        event_text(log[from]) + "\n"@ + log_lines(log, from + 1)
    } else {
        Seq::empty()
    }
}

/// The last `n` lines of the log, and how many were left out.
pub open spec fn log_tail(log: Seq<EventView>, n: nat) -> Seq<char> {
    if log.len() > n {
        "... "@ + decimal((log.len() - n) as nat) + " earlier operation(s) omitted ...\n"@
            + log_lines(log, log.len() - n)
    } else {
        log_lines(log, 0)
    }
}

fn push_lines(out: &mut String, log: &Vec<Event>, from: usize)
    requires
        from <= log@.len(),
    ensures
        final(out)@ == old(out)@ + log_lines(log_view(log@), from as int),
{
    let ghost all = log_view(log@);
    let ghost before = out@;
    let mut i: usize = from;
    proof {
        assert(out@ + log_lines(all, from as int) =~= before + log_lines(all, from as int));
    }
    while i < log.len()
        invariant
            all == log_view(log@),
            from <= i <= log@.len(),
            out@ + log_lines(all, i as int) == before + log_lines(all, from as int),
        decreases log@.len() - i,
    {
        let ghost was = out@;
        out.append(log[i].text().as_str());
        out.append("\n");
        proof {
            let line = event_text(all[i as int]) + "\n"@;
            assert(out@ =~= was + line);
            assert(was + (line + log_lines(all, i + 1)) =~= out@ + log_lines(all, i + 1));
        }
        i += 1;
    }
    proof {
        assert(out@ + Seq::<char>::empty() =~= out@);
    }
}

proof fn lemma_applicable_len(kinds: Seq<Fault>, op: OpKind)
    ensures
        applicable(kinds, op).len() <= kinds.len(),
    decreases kinds.len(),
{
    if kinds.len() > 0 {
        lemma_applicable_len(kinds.drop_last(), op);
    }
}

fn select(kinds: &Vec<Fault>, op: OpKind) -> (r: Vec<Fault>)
    ensures
        r@ == applicable(kinds@, op),
{
    let mut r: Vec<Fault> = Vec::new();
    let mut i: usize = 0;
    proof {
        assert(kinds@.take(0) =~= Seq::empty());
        assert(r@ =~= Seq::empty());
    }
    while i < kinds.len()
        invariant
            i <= kinds@.len(),
            r@ == applicable(kinds@.take(i as int), op),
        decreases kinds@.len() - i,
    {
        proof {
            assert(kinds@.take(i + 1).drop_last() =~= kinds@.take(i as int));
            assert(kinds@.take(i + 1).last() == kinds@[i as int]);
        }
        if kinds[i].applies_to(op) {
            let ghost was = r@;
            r.push(kinds[i]);
            proof {
                assert(r@ =~= was.push(kinds@[i as int]));
            }
        }
        i += 1;
    }
    proof {
        assert(kinds@.take(kinds@.len() as int) =~= kinds@);
    }
    r
}

/// The rules before `i` have counted the operation and none has hit it.
spec fn tried(first: Seq<RuleView>, now: Seq<RuleView>, op: OpKind, key: Seq<char>, i: int) -> bool {
    &&& now.len() == first.len()
    &&& forall|j: int|
        0 <= j < i ==> (#[trigger] now[j], None::<Fault>) == first[j].step(op, key)
    &&& forall|j: int| i <= j < first.len() ==> #[trigger] now[j] == first[j]
}

proof fn lemma_tried(
    first: Seq<RuleView>,
    now: Seq<RuleView>,
    op: OpKind,
    key: Seq<char>,
    i: int,
)
    requires
        0 <= i <= first.len(),
        tried(first, now, op, key, i),
    ensures
        rules_step(first, op, key) == (
            now.take(i) + rules_step(first.skip(i), op, key).0,
            rules_step(first.skip(i), op, key).1,
        ),
    decreases i,
{
    if i == 0 {
        assert(first.skip(0) =~= first);
        assert(now.take(0) + rules_step(first, op, key).0 =~= rules_step(first, op, key).0);
    } else {
        let rest = first.skip(1);
        let later = now.skip(1);
        assert(tried(rest, later, op, key, i - 1)) by {
            assert forall|j: int| 0 <= j < i - 1 implies (#[trigger] later[j], None::<Fault>)
                == rest[j].step(op, key) by {
                assert(later[j] == now[j + 1] && rest[j] == first[j + 1]);
            }
            assert forall|j: int| i - 1 <= j < rest.len() implies #[trigger] later[j] == rest[j] by {
                assert(later[j] == now[j + 1] && rest[j] == first[j + 1]);
            }
        }
        lemma_tried(rest, later, op, key, i - 1);
        assert(rest.skip(i - 1) =~= first.skip(i));
        assert((now[0], None::<Fault>) == first[0].step(op, key));
        let tail = rules_step(first.skip(i), op, key).0;
        assert(seq![now[0]] + (later.take(i - 1) + tail) =~= now.take(i) + tail);
    }
}

impl Faults {
    pub open spec fn wf(&self) -> bool {
        self.torn.wf()
    }

    /// The counts do not run over with one more operation.
    pub open spec fn countable(&self) -> bool {
        &&& self.injected < u64::MAX
        &&& self.log@.len() < u64::MAX
        &&& forall|i: int| 0 <= i < self.rules@.len() ==> (#[trigger] self.rules@[i])@.countable()
    }

    /// No faults until rules or a rate are set.
    pub fn new(seed: u64) -> (r: Faults)
        ensures
            r.wf(),
            r@ == (FaultsView {
                rng: seeded(seed),
                rules: Seq::empty(),
                rate: 0,
                kinds: all_faults(),
                enabled: true,
                log: Seq::empty(),
                torn: Set::empty(),
                injected: 0,
            }),
    {
        let r = Faults {
            rng: XorShift::new(seed),
            rules: Vec::new(),
            rate: 0,
            kinds: Fault::all(),
            enabled: true,
            log: Vec::new(),
            torn: Names::new(),
            injected: 0,
        };
        proof {
            assert(rules_view(r.rules@) =~= Seq::empty());
            assert(log_view(r.log@) =~= Seq::empty());
        }
        r
    }

    pub fn add_rule(&mut self, rule: Rule)
        requires
            old(self).wf(),
        ensures
            final(self).wf(),
            final(self)@ == (FaultsView { rules: old(self)@.rules.push(rule@), ..old(self)@ }),
    {
        let ghost was = self@.rules;
        self.rules.push(rule);
        proof {
            assert(rules_view(self.rules@) =~= was.push(rule@));
        }
    }

    pub fn clear_rules(&mut self)
        requires
            old(self).wf(),
        ensures
            final(self).wf(),
            final(self)@ == (FaultsView { rules: Seq::empty(), ..old(self)@ }),
    {
        self.rules = Vec::new();
        proof {
            assert(rules_view(self.rules@) =~= Seq::empty());
        }
    }

    /// How likely, out of `CERTAIN`, an operation without a scripted fault gets a random one of
    /// `kinds`. No kinds means all.
    pub fn set_random(&mut self, rate: u64, kinds: &[Fault])
        requires
            old(self).wf(),
        ensures
            final(self).wf(),
            final(self)@ == (FaultsView {
                rate,
                kinds: if kinds@.len() == 0 {
                    all_faults()
                } else {
                    kinds@
                },
                ..old(self)@
            }),
    {
        self.rate = rate;
        self.kinds = if kinds.len() == 0 {
            Fault::all()
        } else {
            slice_to_vec(kinds)
        };
    }

    /// Turns injection off (or on) without forgetting the rules.
    pub fn set_enabled(&mut self, on: bool)
        requires
            old(self).wf(),
        ensures
            final(self).wf(),
            final(self)@ == (FaultsView { enabled: on, ..old(self)@ }),
    {
        self.enabled = on;
    }

    pub fn clear_log(&mut self)
        requires
            old(self).wf(),
        ensures
            final(self).wf(),
            final(self)@ == (FaultsView { log: Seq::empty(), ..old(self)@ }),
    {
        self.log = Vec::new();
        proof {
            assert(log_view(self.log@) =~= Seq::empty());
        }
    }

    /// The whole log, one operation per line.
    pub fn log(&self) -> (r: String)
        ensures
            r@ == log_lines(self@.log, 0),
    {
        let mut out = String::new();
        push_lines(&mut out, &self.log, 0);
        proof {
            assert(out@ =~= log_lines(self@.log, 0));
        }
        out
    }

    /// The last `n` lines of the log.
    pub fn tail(&self, n: usize) -> (r: String)
        ensures
            r@ == log_tail(self@.log, n as nat),
    {
        let skip: usize = if self.log.len() > n {
            self.log.len() - n
        } else {
            0
        };
        let mut out = String::new();
        if skip > 0 {
            out.append("... ");
            push_dec(&mut out, skip as u64);
            out.append(" earlier operation(s) omitted ...\n");
        }
        push_lines(&mut out, &self.log, skip);
        proof {
            assert(out@ =~= log_tail(self@.log, n as nat));
        }
        out
    }

    /// Every operation.
    pub fn events(&self) -> (r: Vec<Event>)
        ensures
            log_view(r@) == self@.log,
    {
        let mut r: Vec<Event> = Vec::new();
        let mut i: usize = 0;
        while i < self.log.len()
            invariant
                i <= self.log@.len(),
                log_view(r@) == self@.log.take(i as int),
            decreases self.log@.len() - i,
        {
            let ghost was = log_view(r@);
            r.push(self.log[i].copy());
            i += 1;
            proof {
                assert(log_view(r@) =~= was.push(self@.log[i - 1]));
                assert(log_view(r@) =~= self@.log.take(i as int));
            }
        }
        proof {
            assert(self@.log.take(i as int) =~= self@.log);
        }
        r
    }

    /// How many operations had a fault injected.
    pub fn faults_injected(&self) -> (r: u64)
        ensures
            r == self@.injected,
    {
        self.injected
    }

    /// The keys that were written torn, in order.
    pub fn torn_keys(&self) -> (r: Vec<String>)
        requires
            self.wf(),
        ensures
            strings_view(r@) == self.torn.listed(),
            strings_view(r@).to_set() == self@.torn,
    {
        let mut r: Vec<String> = Vec::new();
        let mut i: usize = 0;
        let ghost all = self.torn.listed();
        proof {
            self.torn.lemma_listed();
        }
        while i < self.torn.len()
            invariant
                all == self.torn.listed(),
                i <= all.len(),
                strings_view(r@) == all.take(i as int),
            decreases all.len() - i,
        {
            let ghost was = strings_view(r@);
            r.push(self.torn.at(i).to_owned());
            i += 1;
            proof {
                assert(strings_view(r@) =~= was.push(all[i - 1]));
                assert(strings_view(r@) =~= all.take(i as int));
            }
        }
        proof {
            assert(all.take(i as int) =~= all);
            assert(all.to_set() =~= self.torn@);
        }
        r
    }

    /// Only the operations that had a fault injected.
    pub fn faults(&self) -> (r: Vec<Event>)
        ensures
            log_view(r@) == self@.log.filter(|e: EventView| e.fault is Some),
    {
        let ghost all = self@.log;
        let ghost keep = |e: EventView| e.fault is Some;
        let mut r: Vec<Event> = Vec::new();
        let mut i: usize = 0;
        proof {
            reveal(Seq::filter);
            assert(all.take(0) =~= Seq::empty());
            assert(log_view(r@) =~= Seq::empty());
        }
        while i < self.log.len()
            invariant
                all == self@.log,
                keep == (|e: EventView| e.fault is Some),
                i <= self.log@.len(),
                log_view(r@) == all.take(i as int).filter(keep),
            decreases self.log@.len() - i,
        {
            let ghost was = log_view(r@);
            proof {
                reveal(Seq::filter);
                assert(all.take(i + 1).drop_last() =~= all.take(i as int));
                assert(all.take(i + 1).last() == self.log@[i as int]@);
            }
            if self.log[i].fault.is_some() {
                r.push(self.log[i].copy());
                proof {
                    assert(log_view(r@) =~= was.push(all[i as int]));
                }
            }
            i += 1;
        }
        proof {
            assert(all.take(all.len() as int) =~= all);
        }
        r
    }

    /// The fault that the rules give an operation.
    fn scripted(&mut self, op: OpKind, key: &str) -> (r: Option<Fault>)
        requires
            old(self).wf(),
            old(self).countable(),
        ensures
            final(self).wf(),
            ({
                let (rules, f) = rules_step(old(self)@.rules, op, key@);
                r == f && final(self)@ == (FaultsView { rules, ..old(self)@ })
            }),
            final(self).injected == old(self).injected,
            final(self).log == old(self).log,
    {
        let ghost before = self@;
        let ghost first = self@.rules;
        let mut i: usize = 0;
        while i < self.rules.len()
            invariant
                self.wf(),
                before == old(self)@,
                first == before.rules,
                i <= self.rules@.len() == first.len(),
                tried(first, self@.rules, op, key@, i as int),
                forall|j: int| 0 <= j < first.len() ==> (#[trigger] first[j]).countable(),
                self@ == (FaultsView { rules: self@.rules, ..before }),
                self.injected == old(self).injected,
                self.log == old(self).log,
            decreases self.rules@.len() - i,
        {
            let ghost was = self@.rules;
            proof {
                assert(was[i as int] == first[i as int]);
                assert(first[i as int].countable());
            }
            let f = self.rules[i].matches(op, key);
            let ghost now = self@.rules;
            proof {
                assert(now =~= was.update(i as int, first[i as int].step(op, key@).0));
                assert forall|j: int| 0 <= j < first.len() && j != i implies #[trigger] now[j]
                    == was[j] by {}
            }
            if f.is_some() {
                proof {
                    assert(tried(first, was, op, key@, i as int));
                    lemma_tried(first, was, op, key@, i as int);
                    let rest = first.skip(i as int);
                    assert(rest[0] == first[i as int]);
                    let r0 = first[i as int].step(op, key@).0;
                    assert(rules_step(rest, op, key@) == (rest.update(0, r0), f));
                    assert(now =~= was.take(i as int) + rest.update(0, r0));
                    assert(self@ =~= (FaultsView { rules: now, ..before }));
                }
                return f;
            }
            proof {
                assert forall|j: int| 0 <= j < i + 1 implies (#[trigger] now[j], None::<Fault>)
                    == first[j].step(op, key@) by {
                    if j < i {
                        assert(now[j] == was[j]);
                    }
                }
                assert(tried(first, now, op, key@, i + 1));
            }
            i += 1;
        }
        proof {
            let now = self@.rules;
            lemma_tried(first, now, op, key@, first.len() as int);
            assert(first.skip(first.len() as int) =~= Seq::empty());
            assert(now.take(first.len() as int) + Seq::<RuleView>::empty() =~= now);
        }
        None
    }

    /// Decides the fault for one operation, if any, and logs the operation. The result of the
    /// operation is recorded under the number that comes back.
    pub fn plan(&mut self, op: OpKind, key: &str, detail: String) -> (r: (u64, Option<Fault>))
        requires
            old(self).wf(),
            old(self).countable(),
        ensures
            final(self).wf(),
            r.0 == old(self)@.log.len() + 1,
            (final(self)@, r.1) == planned(old(self)@, op, key@, detail@),
    {
        let ghost before = self@;
        let ghost d = detail@;
        let len: usize = self.log.len();
        let n: u64 = len as u64 + 1;
        let mut fault: Option<Fault> = None;
        if self.enabled {
            fault = self.scripted(op, key);
            if fault.is_none() && self.rate > 0 {
                if self.rng.chance(self.rate) {
                    let may = select(&self.kinds, op);
                    if may.len() > 0 {
                        let i: u64 = self.rng.below(may.len() as u64);
                        fault = Some(may[i as usize]);
                    }
                }
            }
            if fault.is_some() {
                self.injected = self.injected + 1;
            }
        }
        let ghost was = log_view(self.log@);
        self.log.push(
            Event { n, op, key: key.to_owned(), detail, fault, result: String::new() },
        );
        proof {
            let e = EventView { n, op, key: key@, detail: d, fault, result: Seq::empty() };
            assert(self.log@.last().result@ =~= Seq::empty());
            assert(self.log@.last()@ =~= e);
            assert(log_view(self.log@) =~= was.push(e));
            assert(self@ =~= planned(before, op, key@, d).0);
        }
        (n, fault)
    }

    /// Records what the caller of operation `n` was told.
    pub fn record(&mut self, n: u64, result: String)
        requires
            old(self).wf(),
        ensures
            final(self).wf(),
            final(self)@ == recorded(old(self)@, n, result@),
            final(self).rules == old(self).rules,
            final(self).injected == old(self).injected,
    {
        if n == 0 || n > self.log.len() as u64 {
            return;
        }
        let ghost was = self@.log;
        let ghost text = result@;
        let i: usize = (n - 1) as usize;
        let mut e = self.log[i].copy();
        e.result = result;
        self.log[i] = e;
        proof {
            assert(log_view(self.log@) =~= was.update(
                n - 1,
                EventView { result: text, ..was[n - 1] },
            ));
        }
    }
}

/// What is done about an operation.
pub enum Step {
    /// It is performed.
    Perform,
    /// It is held up by so many milliseconds, then performed.
    Hold(u64),
    /// It is performed, whatever comes of it, and then fails with these words.
    LandThenFail(String),
    /// It fails with these words.
    Fail(String),
    /// These bytes are written in place of those that were to be.
    Write(Vec<u8>),
    /// The object is said to exist.
    Exists,
    /// It is performed, and so many of the last objects are left out.
    Stale(u32),
    /// It is performed, and what it gives is cut short.
    Short,
}

pub enum StepView {
    Perform,
    Hold(u64),
    LandThenFail(Seq<char>),
    Fail(Seq<char>),
    Write(Seq<u8>),
    Exists,
    Stale(u32),
    Short,
}

impl View for Step {
    type V = StepView;

    open spec fn view(&self) -> StepView {
        match self {
            Step::Perform => StepView::Perform,
            Step::Hold(ms) => StepView::Hold(*ms),
            Step::LandThenFail(s) => StepView::LandThenFail(s@),
            Step::Fail(s) => StepView::Fail(s@),
            Step::Write(b) => StepView::Write(b@),
            Step::Exists => StepView::Exists,
            Step::Stale(k) => StepView::Stale(*k),
            Step::Short => StepView::Short,
        }
    }
}

/// What is done about an operation with this fault, where it is no torn write.
pub open spec fn step_of(n: u64, fault: Option<Fault>, op: OpKind, key: Seq<char>) -> StepView {
    match fault {
        None => StepView::Perform,
        Some(Fault::Delay(ms)) => StepView::Hold(ms),
        Some(f) => match (f, op) {
            (Fault::ErrAfterLanded, OpKind::Put) => StepView::LandThenFail(
                failure_text(n, f, op, key),
            ),
            (Fault::ErrAfterLanded, OpKind::Delete) => StepView::LandThenFail(
                failure_text(n, f, op, key),
            ),
            (Fault::PhantomExists, OpKind::Put) => StepView::Exists,
            (Fault::ListStale(k), OpKind::List) => StepView::Stale(k),
            (Fault::GetRangeShort, OpKind::GetRange) => StepView::Short,
            _ => StepView::Fail(failure_text(n, f, op, key)),
        },
    }
}

fn take_step(n: u64, fault: Option<Fault>, op: OpKind, key: &str) -> (r: Step)
    ensures
        r@ == step_of(n, fault, op, key@),
{
    match fault {
        None => Step::Perform,
        Some(f) => match (f, op) {
            (Fault::Delay(ms), _) => Step::Hold(ms),
            (Fault::ErrAfterLanded, OpKind::Put) => Step::LandThenFail(failure(n, f, op, key)),
            (Fault::ErrAfterLanded, OpKind::Delete) => Step::LandThenFail(failure(n, f, op, key)),
            (Fault::PhantomExists, OpKind::Put) => Step::Exists,
            (Fault::ListStale(k), OpKind::List) => Step::Stale(k),
            (Fault::GetRangeShort, OpKind::GetRange) => Step::Short,
            _ => Step::Fail(failure(n, f, op, key)),
        },
    }
}

/// A write of `len` bytes in words.
pub open spec fn put_detail(len: nat) -> Seq<char> {
    "("@ + decimal(len) + " bytes)"@
}

/// A range in words.
pub open spec fn range_detail(offset: u64, len: u64) -> Seq<char> {
    "["@ + decimal(offset as nat) + "..+"@ + decimal(len as nat) + "]"@
}

/// What is done about a write of `body`, and the state of the faults after it.
pub open spec fn put_step(s: FaultsView, key: Seq<char>, body: Seq<u8>) -> (FaultsView, StepView) {
    let n = (s.log.len() + 1) as u64;
    let (next, fault) = planned(s, OpKind::Put, key, put_detail(body.len()));
    if fault == Some(Fault::TornObject) {
        let (t, x) = torn(body, next.rng);
        (FaultsView { rng: x, ..next }, StepView::Write(t))
    } else {
        (next, step_of(n, fault, OpKind::Put, key))
    }
}

/// What a write came to.
#[derive(Debug, Clone, Copy, PartialEq, Eq, Structural)]
pub enum PutOutcome {
    Written,
    AlreadyExists,
}

/// The outcome of a write in words.
pub open spec fn put_text(r: Result<PutOutcome, String>) -> Seq<char> {
    match r {
        Ok(PutOutcome::Written) => "Written"@,
        Ok(PutOutcome::AlreadyExists) => "AlreadyExists"@,
        Err(e) => "Err("@ + e@ + ")"@,
    }
}

/// The outcome of a read in words.
pub open spec fn bytes_text(r: Result<Option<Vec<u8>>, String>) -> Seq<char> {
    match r {
        Ok(Some(b)) => "Some("@ + decimal(b@.len()) + " bytes)"@,
        Ok(None) => "None"@,
        Err(e) => "Err("@ + e@ + ")"@,
    }
}

fn error_text(e: &String) -> (r: String)
    ensures
        r@ == "Err("@ + e@ + ")"@,
{
    let mut s = "Err(".to_owned();
    s.append(e.as_str());
    s.append(")");
    s
}

/// An object in a listing.
#[derive(Debug, Clone)]
pub struct ObjectInfo {
    pub key: String,
    pub size: u64,
}

/// Objects in the order of their keys.
pub open spec fn listed_in_order(v: Seq<ObjectInfo>) -> bool {
    forall|i: int, j: int|
        0 <= i < j < v.len() ==> !below(
            encode_utf8((#[trigger] v[j]).key@),
            encode_utf8((#[trigger] v[i]).key@),
        )
}

fn sort_objects(objects: Vec<ObjectInfo>) -> (r: Vec<ObjectInfo>)
    ensures
        listed_in_order(r@),
        r@.to_multiset() == objects@.to_multiset(),
        r@.len() == objects@.len(),
{
    let mut rest = objects;
    let mut out: Vec<ObjectInfo> = Vec::new();
    let ghost all = objects@;
    let total: usize = rest.len();
    let mut i: usize = 0;
    proof {
        assert(all.take(0) =~= Seq::empty());
        assert(out@ =~= Seq::empty());
        assert(rest@ =~= all.skip(0));
    }
    while i < total
        invariant
            total == all.len(),
            i <= total,
            rest@ == all.skip(i as int),
            listed_in_order(out@),
            out@.len() == i,
            out@.to_multiset() == all.take(i as int).to_multiset(),
        decreases total - i,
    {
        let x = rest.remove(0);
        proof {
            assert(x == all[i as int]);
            assert(rest@ =~= all.skip(i + 1));
        }
        let mut p: usize = out.len();
        while p > 0 && crate::order::is_below(
            x.key.as_str().as_bytes(),
            out[p - 1].key.as_str().as_bytes(),
        )
            invariant
                p <= out@.len(),
                listed_in_order(out@),
                forall|j: int|
                    p <= j < out@.len() ==> below(
                        encode_utf8(x.key@),
                        encode_utf8((#[trigger] out@[j]).key@),
                    ),
            decreases p,
        {
            p -= 1;
        }
        let ghost was = out@;
        out.insert(p, x);
        proof {
            let now = out@;
            assert forall|a: int, b: int| 0 <= a < b < now.len() implies !below(
                encode_utf8((#[trigger] now[b]).key@),
                encode_utf8((#[trigger] now[a]).key@),
            ) by {
                let pa = if a < p {
                    a
                } else {
                    a - 1
                };
                let pb = if b < p {
                    b
                } else {
                    b - 1
                };
                if a != p {
                    assert(now[a] == was[pa]);
                }
                if b != p {
                    assert(now[b] == was[pb]);
                }
                let k = encode_utf8(x.key@);
                if a == p {
                    lemma_below_asymmetric(k, encode_utf8(was[pb].key@));
                }
                if b == p {
                    let last = encode_utf8(was[p - 1].key@);
                    assert(!below(k, last));
                    let first = encode_utf8(was[pa].key@);
                    if below(k, first) {
                        if pa < p - 1 {
                            assert(!below(last, first));
                            crate::order::lemma_below_total(first, last);
                            if below(first, last) {
                                lemma_below_transitive(k, first, last);
                            }
                        }
                    }
                }
            }
            vstd::seq_lib::to_multiset_insert(was, p as int, x);
            assert(now =~= was.insert(p as int, x));
            assert(all.take(i + 1) =~= all.take(i as int).push(x));
            vstd::seq_lib::to_multiset_build(all.take(i as int), x);
        }
        i += 1;
    }
    proof {
        assert(all.take(all.len() as int) =~= all);
    }
    out
}

impl Faults {
    /// What is to be done about a write. Its outcome is reported to `put_done`.
    pub fn put(&mut self, key: &str, body: &[u8]) -> (r: (u64, Step))
        requires
            old(self).wf(),
            old(self).countable(),
        ensures
            final(self).wf(),
            r.0 == old(self)@.log.len() + 1,
            (final(self)@, r.1@) == put_step(old(self)@, key@, body@),
    {
        let mut detail = "(".to_owned();
        push_dec(&mut detail, body.len() as u64);
        detail.append(" bytes)");
        proof {
            assert(detail@ =~= put_detail(body@.len()));
        }
        let (n, fault) = self.plan(OpKind::Put, key, detail);
        match fault {
            Some(Fault::TornObject) => {
                let t = tear(&mut self.rng, body);
                (n, Step::Write(t))
            },
            _ => (n, take_step(n, fault, OpKind::Put, key)),
        }
    }

    /// The write under number `n` came to `outcome`. `torn` says that it was torn on purpose.
    pub fn put_done(&mut self, n: u64, key: &str, torn: bool, outcome: &Result<PutOutcome, String>)
        requires
            old(self).wf(),
        ensures
            final(self).wf(),
            final(self)@ == ({
                let s = if torn && *outcome == Ok::<PutOutcome, String>(PutOutcome::Written) {
                    FaultsView { torn: old(self)@.torn.insert(key@), ..old(self)@ }
                } else {
                    old(self)@
                };
                recorded(s, n, put_text(*outcome))
            }),
    {
        let text = match outcome {
            Ok(PutOutcome::Written) => {
                if torn {
                    self.torn.insert(key.to_owned());
                }
                "Written".to_owned()
            },
            Ok(PutOutcome::AlreadyExists) => "AlreadyExists".to_owned(),
            Err(e) => error_text(e),
        };
        self.record(n, text);
    }

    /// What is to be done about a read of an object.
    pub fn get(&mut self, key: &str) -> (r: (u64, Step))
        requires
            old(self).wf(),
            old(self).countable(),
        ensures
            final(self).wf(),
            r.0 == old(self)@.log.len() + 1,
            ({
                let (next, fault) = planned(old(self)@, OpKind::Get, key@, Seq::empty());
                final(self)@ == next && r.1@ == step_of(r.0, fault, OpKind::Get, key@)
            }),
    {
        let none = String::new();
        proof {
            assert(none@ =~= Seq::empty());
        }
        let (n, fault) = self.plan(OpKind::Get, key, none);
        (n, take_step(n, fault, OpKind::Get, key))
    }

    /// What is to be done about a read of `len` bytes of an object from `offset` on.
    pub fn get_range(&mut self, key: &str, offset: u64, len: u64) -> (r: (u64, Step))
        requires
            old(self).wf(),
            old(self).countable(),
        ensures
            final(self).wf(),
            r.0 == old(self)@.log.len() + 1,
            ({
                let (next, fault) = planned(
                    old(self)@,
                    OpKind::GetRange,
                    key@,
                    range_detail(offset, len),
                );
                final(self)@ == next && r.1@ == step_of(r.0, fault, OpKind::GetRange, key@)
            }),
    {
        let mut detail = "[".to_owned();
        push_dec(&mut detail, offset);
        detail.append("..+");
        push_dec(&mut detail, len);
        detail.append("]");
        proof {
            assert(detail@ =~= range_detail(offset, len));
        }
        let (n, fault) = self.plan(OpKind::GetRange, key, detail);
        (n, take_step(n, fault, OpKind::GetRange, key))
    }

    /// Cuts what a read gave short, where there is anything to cut.
    pub fn shorten(&mut self, bytes: Vec<u8>) -> (r: Vec<u8>)
        requires
            old(self).wf(),
        ensures
            final(self).wf(),
            if bytes@.len() == 0 {
                r@ == bytes@ && final(self)@ == old(self)@
            } else {
                r@ == bytes@.take((drawn(old(self)@.rng) % bytes@.len() as u64) as int)
                    && final(self)@ == (FaultsView { rng: shifted(old(self)@.rng), ..old(self)@ })
            },
    {
        if bytes.len() == 0 {
            return bytes;
        }
        let keep: u64 = self.rng.below(bytes.len() as u64);
        let head = slice_subrange(bytes.as_slice(), 0, keep as usize);
        proof {
            assert(head@ =~= bytes@.take(keep as int));
        }
        slice_to_vec(head)
    }

    /// The read under number `n` came to `outcome`.
    pub fn read_done(&mut self, n: u64, outcome: &Result<Option<Vec<u8>>, String>)
        requires
            old(self).wf(),
        ensures
            final(self).wf(),
            final(self)@ == recorded(old(self)@, n, bytes_text(*outcome)),
    {
        let text = match outcome {
            Ok(Some(b)) => {
                let mut s = "Some(".to_owned();
                push_dec(&mut s, b.len() as u64);
                s.append(" bytes)");
                proof {
                    assert(s@ =~= bytes_text(*outcome));
                }
                s
            },
            Ok(None) => "None".to_owned(),
            Err(e) => error_text(e),
        };
        self.record(n, text);
    }

    /// What is to be done about a listing of the keys under `prefix`.
    pub fn list(&mut self, prefix: &str) -> (r: (u64, Step))
        requires
            old(self).wf(),
            old(self).countable(),
        ensures
            final(self).wf(),
            r.0 == old(self)@.log.len() + 1,
            ({
                let (next, fault) = planned(old(self)@, OpKind::List, prefix@, Seq::empty());
                final(self)@ == next && r.1@ == step_of(r.0, fault, OpKind::List, prefix@)
            }),
    {
        let none = String::new();
        proof {
            assert(none@ =~= Seq::empty());
        }
        let (n, fault) = self.plan(OpKind::List, prefix, none);
        (n, take_step(n, fault, OpKind::List, prefix))
    }

    /// The listing under number `n` came to `outcome`.
    pub fn list_done(&mut self, n: u64, outcome: &Result<Vec<ObjectInfo>, String>)
        requires
            old(self).wf(),
        ensures
            final(self).wf(),
            final(self)@ == recorded(
                old(self)@,
                n,
                match *outcome {
                    Ok(v) => decimal(v@.len()) + " object(s)"@,
                    Err(e) => "Err("@ + e@ + ")"@,
                },
            ),
    {
        let text = match outcome {
            Ok(v) => {
                let mut s = String::new();
                push_dec(&mut s, v.len() as u64);
                s.append(" object(s)");
                proof {
                    assert(s@ =~= decimal(v@.len()) + " object(s)"@);
                }
                s
            },
            Err(e) => error_text(e),
        };
        self.record(n, text);
    }

    /// What is to be done about a deletion.
    pub fn delete(&mut self, key: &str) -> (r: (u64, Step))
        requires
            old(self).wf(),
            old(self).countable(),
        ensures
            final(self).wf(),
            r.0 == old(self)@.log.len() + 1,
            ({
                let (next, fault) = planned(old(self)@, OpKind::Delete, key@, Seq::empty());
                final(self)@ == next && r.1@ == step_of(r.0, fault, OpKind::Delete, key@)
            }),
    {
        let none = String::new();
        proof {
            assert(none@ =~= Seq::empty());
        }
        let (n, fault) = self.plan(OpKind::Delete, key, none);
        (n, take_step(n, fault, OpKind::Delete, key))
    }

    /// The deletion under number `n` came to `outcome`.
    pub fn delete_done(&mut self, n: u64, outcome: &Result<(), String>)
        requires
            old(self).wf(),
        ensures
            final(self).wf(),
            final(self)@ == recorded(
                old(self)@,
                n,
                match *outcome {
                    Ok(_) => "Ok"@,
                    Err(e) => "Err("@ + e@ + ")"@,
                },
            ),
    {
        let text = match outcome {
            Ok(_) => "Ok".to_owned(),
            Err(e) => error_text(e),
        };
        self.record(n, text);
    }
}

/// A listing without the last `k` objects, in the order of their keys.
pub fn stale(objects: Vec<ObjectInfo>, k: u32) -> (r: Vec<ObjectInfo>)
    ensures
        exists|all: Seq<ObjectInfo>|
            listed_in_order(all) && #[trigger] all.to_multiset() == objects@.to_multiset() && r@
                == all.take(
                if all.len() > k {
                    all.len() - k
                } else {
                    0
                },
            ),
{
    let mut all = sort_objects(objects);
    let ghost sorted = all@;
    let keep: usize = if all.len() as u64 > k as u64 {
        all.len() - k as usize
    } else {
        0
    };
    all.truncate(keep);
    proof {
        let n = if sorted.len() > k {
            sorted.len() - k
        } else {
            0
        };
        assert(keep == n);
        assert(all@ =~= sorted.take(n));
        assert(listed_in_order(sorted) && sorted.to_multiset() == objects@.to_multiset());
    }
    all
}

} // verus!
