//! Which faults a store is given, and that nothing else is changed by them.
use crate::faults::{
    applicable, applies, failure_text, planned, put_step, random_fault, recorded, rules_step,
    step_of, torn, Fault, FaultsView, OpKind, RuleView, StepView,
};
use crate::text::has_prefix;
use vstd::prelude::*;

verus! {

/// A rule gives its fault to operations of its kind under its prefix and to no others, to the one
/// with its number or to every one, and not more often than it says; and it counts them.
pub proof fn lemma_rule_gives_its_fault(r: RuleView, op: OpKind, key: Seq<char>)
    requires
        r.countable(),
    ensures
        ({
            let (n, f) = r.step(op, key);
            let meant = op == r.op && has_prefix(key, r.prefix) && applies(r.fault, op) && (r.times
                is Some ==> r.fired < r.times->0);
            &&& f is Some ==> f == Some(r.fault)
            &&& f is Some <==> meant && (r.nth is Some ==> r.seen + 1 == r.nth->0)
            &&& n.seen == (if meant {
                r.seen + 1
            } else {
                r.seen as int
            })
            &&& n.fired == (if f is Some {
                r.fired + 1
            } else {
                r.fired as int
            })
            &&& n.op == r.op && n.prefix == r.prefix && n.nth == r.nth && n.fault == r.fault
                && n.times == r.times
        }),
{
}

/// The fault of an operation is that of the first rule that gives one, and the rules behind it are
/// left alone.
pub proof fn lemma_first_rule_decides(rules: Seq<RuleView>, op: OpKind, key: Seq<char>, k: int)
    requires
        0 <= k <= rules.len(),
        forall|j: int| 0 <= j < k ==> (#[trigger] rules[j]).step(op, key).1 is None,
        k < rules.len() ==> rules[k].step(op, key).1 is Some,
    ensures
        ({
            let (now, f) = rules_step(rules, op, key);
            &&& now.len() == rules.len()
            &&& f == (if k < rules.len() {
                rules[k].step(op, key).1
            } else {
                None
            })
            &&& forall|j: int|
                0 <= j < rules.len() && j <= k ==> #[trigger] now[j] == rules[j].step(op, key).0
            &&& forall|j: int| k < j < rules.len() ==> #[trigger] now[j] == rules[j]
        }),
    decreases rules.len(),
{
    if rules.len() > 0 && k > 0 {
        let rest = rules.skip(1);
        assert(rules[0].step(op, key).1 is None);
        assert forall|j: int| 0 <= j < k - 1 implies (#[trigger] rest[j]).step(op, key).1 is None by {
            assert(rules[j + 1].step(op, key).1 is None);
        }
        if k < rules.len() {
            assert(rest[k - 1] == rules[k]);
        }
        lemma_first_rule_decides(rest, op, key, k - 1);
        let (now, f) = rules_step(rules, op, key);
        let (later, g) = rules_step(rest, op, key);
        assert forall|j: int| 0 <= j < rules.len() && j <= k implies #[trigger] now[j]
            == rules[j].step(op, key).0 by {
            if j > 0 {
                assert(now[j] == later[j - 1]);
                assert(rest[j - 1] == rules[j]);
            }
        }
        assert forall|j: int| k < j < rules.len() implies #[trigger] now[j] == rules[j] by {
            assert(now[j] == later[j - 1]);
            assert(rest[j - 1] == rules[j]);
        }
    }
}

/// Random faults are drawn from those that make sense for the operation.
pub proof fn lemma_random_faults_apply(kinds: Seq<Fault>, rate: u64, op: OpKind, x: u64, f: Fault)
    ensures
        applicable(kinds, op).contains(f) <==> kinds.contains(f) && applies(f, op),
        rate == 0 ==> random_fault(kinds, rate, op, x) == (None::<Fault>, x),
        applicable(kinds, op).len() <= kinds.len(),
        kinds.len() <= u64::MAX ==> (random_fault(kinds, rate, op, x).0 matches Some(g)
            ==> kinds.contains(g) && applies(g, op)),
{
    lemma_applicable(kinds, op, f);
    let may = applicable(kinds, op);
    if kinds.len() <= u64::MAX && random_fault(kinds, rate, op, x).0 is Some {
        let g = random_fault(kinds, rate, op, x).0->0;
        assert(may.contains(g));
        lemma_applicable(kinds, op, g);
    }
}

proof fn lemma_applicable(kinds: Seq<Fault>, op: OpKind, f: Fault)
    ensures
        applicable(kinds, op).contains(f) <==> kinds.contains(f) && applies(f, op),
        applicable(kinds, op).len() <= kinds.len(),
    decreases kinds.len(),
{
    if kinds.len() > 0 {
        let t = kinds.drop_last();
        lemma_applicable(t, op, f);
        let head = applicable(t, op);
        let now = applicable(kinds, op);
        if t.contains(f) {
            let i = choose|i: int| 0 <= i < t.len() && t[i] == f;
            assert(kinds[i] == f);
        }
        if kinds.contains(f) {
            let i = choose|i: int| 0 <= i < kinds.len() && kinds[i] == f;
            if i < t.len() {
                assert(t[i] == f);
            }
        }
        assert(kinds[kinds.len() - 1] == kinds.last());
        if applies(kinds.last(), op) {
            assert(now[now.len() - 1] == kinds.last());
            if head.contains(f) {
                let i = choose|i: int| 0 <= i < head.len() && head[i] == f;
                assert(now[i] == f);
            }
            if now.contains(f) {
                let i = choose|i: int| 0 <= i < now.len() && now[i] == f;
                if i < head.len() {
                    assert(head[i] == f);
                }
            }
        }
    }
}

/// Every operation is logged, in order, with the fault it was given; one is given only where faults
/// are on; the count of faults goes up with each.
pub proof fn lemma_operation_is_logged(s: FaultsView, op: OpKind, key: Seq<char>, detail: Seq<char>)
    requires
        s.log.len() < u64::MAX,
        s.injected < u64::MAX,
    ensures
        ({
            let (n, f) = planned(s, op, key, detail);
            &&& n.log.len() == s.log.len() + 1
            &&& forall|i: int| 0 <= i < s.log.len() ==> #[trigger] n.log[i] == s.log[i]
            &&& n.log.last().n == s.log.len() + 1
            &&& n.log.last().op == op && n.log.last().key == key && n.log.last().detail == detail
            &&& n.log.last().fault == f
            &&& !s.enabled ==> f is None && n.rules == s.rules && n.rng == s.rng
            &&& n.injected == s.injected + (if f is Some {
                1int
            } else {
                0int
            })
            &&& n.torn == s.torn && n.enabled == s.enabled && n.rate == s.rate && n.kinds == s.kinds
            &&& s.rules.len() == 0 && s.rate == 0 ==> f is None
        }),
{
}

/// The outcome of an operation is written down with it, and with no other.
pub proof fn lemma_outcome_is_recorded(s: FaultsView, n: u64, result: Seq<char>, i: int)
    requires
        0 <= i < s.log.len(),
    ensures
        recorded(s, n, result).log.len() == s.log.len(),
        i + 1 == n ==> recorded(s, n, result).log[i].result == result && recorded(
            s,
            n,
            result,
        ).log[i].fault == s.log[i].fault,
        i + 1 != n ==> recorded(s, n, result).log[i] == s.log[i],
{
}

/// What is done about an operation: without a fault it is performed. A write or a deletion whose
/// answer is lost has landed all the same; one that fails before has not; an object that only
/// seems to exist is not written; a torn write writes something else under the key.
pub proof fn lemma_step_of_fault(n: u64, op: OpKind, key: Seq<char>, f: Fault)
    requires
        applies(f, op),
    ensures
        step_of(n, None, op, key) == StepView::Perform,
        f matches Fault::Delay(ms) ==> step_of(n, Some(f), op, key) == StepView::Hold(ms),
        f is ErrAfterLanded ==> step_of(n, Some(f), op, key) == StepView::LandThenFail(
            failure_text(n, f, op, key),
        ),
        f is ErrBeforeLanded || f is GetErr ==> step_of(n, Some(f), op, key) == StepView::Fail(
            failure_text(n, f, op, key),
        ),
        f is PhantomExists ==> step_of(n, Some(f), op, key) == StepView::Exists,
        f matches Fault::ListStale(k) ==> step_of(n, Some(f), op, key) == StepView::Stale(k),
        f is GetRangeShort ==> step_of(n, Some(f), op, key) == StepView::Short,
{
}

/// A write is torn only where that fault was planned for it, and what is written then is never the
/// body that was sent.
pub proof fn lemma_torn_write(s: FaultsView, key: Seq<char>, body: Seq<u8>)
    requires
        0 < body.len() <= u64::MAX,
    ensures
        put_step(s, key, body).1 matches StepView::Write(b) ==> b != body && planned(
            s,
            OpKind::Put,
            key,
            crate::faults::put_detail(body.len()),
        ).1 == Some(Fault::TornObject),
{
    let (next, fault) = planned(s, OpKind::Put, key, crate::faults::put_detail(body.len()));
    crate::faults::lemma_torn_differs(body, next.rng);
    assert(torn(body, next.rng).0 != body);
}

} // verus!
