use vstd::prelude::*;
use crate::store::{LedgerError, balances_valid};
use crate::withdraw::{DeclineReason, WithdrawalOutcome, WithdrawalRequest, withdraw_spec};
use crate::harness::{Phase, Strategy, advance, run_spec, complete_from, all_waiting, interleave};

verus! {

/// The new balance reported by a finished, successful withdrawal.
pub open spec fn succeeded_with(p: Phase) -> Option<int> {
    match p {
        Phase::Finished(Ok(WithdrawalOutcome::Succeeded { new_balance })) => Some(
            new_balance as int,
        ),
        _ => None,
    }
}

/// A finished withdrawal declined for want of funds.
pub open spec fn declined_short(p: Phase) -> bool {
    p == Phase::Finished(
        Ok(WithdrawalOutcome::Declined { reason: DeclineReason::InsufficientFunds }),
    )
}

/// Sum of the amounts of the first `n` requests on account `id` whose
/// withdrawal succeeded.
pub open spec fn debited(reqs: Seq<WithdrawalRequest>, ph: Seq<Phase>, id: u64, n: nat) -> int
    decreases n,
{
    if n == 0 {
        0
    } else {
        debited(reqs, ph, id, (n - 1) as nat) + if succeeded_with(ph[n - 1]) is Some
            && reqs[n - 1].account == id {
            reqs[n - 1].amount as int
        } else {
            0
        }
    }
}

/// Sum of the amounts of the first `n` requests.
pub open spec fn requested(reqs: Seq<WithdrawalRequest>, n: nat) -> int
    decreases n,
{
    if n == 0 {
        0
    } else {
        requested(reqs, (n - 1) as nat) + reqs[n - 1].amount as int
    }
}

/// The result a finished request may have, by its amount and whether its
/// account was there at the start.
pub open spec fn outcome_fits(init: Map<u64, int>, req: WithdrawalRequest, p: Phase) -> bool {
    p is Finished ==> {
        if req.amount <= 0 {
            p == Phase::Finished(
                Ok(WithdrawalOutcome::Declined { reason: DeclineReason::InvalidAmount }),
            )
        } else if !init.contains_key(req.account) {
            p == Phase::Finished(Err(LedgerError::AccountNotFound))
        } else {
            succeeded_with(p) is Some || declined_short(p)
        }
    }
}

/// What holds of a serialized run at every step: the accounts stay the
/// same, no balance is negative, each balance is its starting value less
/// what succeeded on it, every success reported a balance no lower than the
/// current one and no two on one account reported the same, and every
/// decline for want of funds asked more than the account now holds.
pub open spec fn serial_facts(
    init: Map<u64, int>,
    m: Map<u64, int>,
    reqs: Seq<WithdrawalRequest>,
    ph: Seq<Phase>,
) -> bool {
    &&& ph.len() == reqs.len()
    &&& m.dom() == init.dom()
    &&& balances_valid(m)
    &&& forall|id: u64| #[trigger]
        m.contains_key(id) ==> m[id] == init[id] - debited(reqs, ph, id, ph.len())
    &&& forall|k: int| 0 <= k < ph.len() ==> !(#[trigger] ph[k] is Observed)
    &&& forall|k: int| 0 <= k < ph.len() ==> outcome_fits(init, reqs[k], #[trigger] ph[k])
    &&& forall|k: int|
        0 <= k < ph.len() && (#[trigger] succeeded_with(ph[k])) is Some ==> {
            &&& m.contains_key(reqs[k].account)
            &&& succeeded_with(ph[k]).unwrap() >= m[reqs[k].account]
        }
    &&& forall|j: int, k: int|
        0 <= j < ph.len() && 0 <= k < ph.len() && j != k && (#[trigger] succeeded_with(ph[j]))
            is Some && (#[trigger] succeeded_with(ph[k])) is Some && reqs[j].account
            == reqs[k].account ==> succeeded_with(ph[j]) != succeeded_with(ph[k])
    &&& forall|k: int|
        0 <= k < ph.len() && #[trigger] declined_short(ph[k]) ==> {
            &&& m.contains_key(reqs[k].account)
            &&& reqs[k].amount > m[reqs[k].account]
        }
}

proof fn lemma_debited_update(
    reqs: Seq<WithdrawalRequest>,
    ph: Seq<Phase>,
    id: u64,
    n: nat,
    k: int,
    p: Phase,
)
    requires
        n <= ph.len(),
        0 <= k < ph.len(),
        succeeded_with(ph[k]) is None,
    ensures
        debited(reqs, ph.update(k, p), id, n) == debited(reqs, ph, id, n) + if k < n
            && succeeded_with(p) is Some && reqs[k].account == id {
            reqs[k].amount as int
        } else {
            0
        },
    decreases n,
{
    if n > 0 {
        lemma_debited_update(reqs, ph, id, (n - 1) as nat, k, p);
    }
}

proof fn lemma_debited_frame(reqs: Seq<WithdrawalRequest>, ph: Seq<Phase>, id: u64, n: nat)
    requires
        n <= ph.len(),
        forall|k: int| 0 <= k < n ==> (#[trigger] reqs[k]).account != id,
    ensures
        debited(reqs, ph, id, n) == 0,
    decreases n,
{
    if n > 0 {
        lemma_debited_frame(reqs, ph, id, (n - 1) as nat);
    }
}

proof fn lemma_advance_serial(
    init: Map<u64, int>,
    m: Map<u64, int>,
    reqs: Seq<WithdrawalRequest>,
    ph: Seq<Phase>,
    k: int,
)
    requires
        serial_facts(init, m, reqs, ph),
    ensures
        ({
            let (m2, p2) = advance(m, ph, reqs, k, Strategy::Serialized);
            serial_facts(init, m2, reqs, p2)
        }),
{
    if !(0 <= k < ph.len() && k < reqs.len()) {
        return;
    }
    if !(ph[k] is Waiting) {
        return;
    }
    let req = reqs[k];
    let (m2, r) = withdraw_spec(m, req.account, req.amount as int);
    let p2 = ph.update(k, Phase::Finished(r));
    assert(succeeded_with(ph[k]) is None);
    assert forall|id: u64| #[trigger] m2.contains_key(id) implies m2[id] == init[id] - debited(
        reqs,
        p2,
        id,
        p2.len(),
    ) by {
        lemma_debited_update(reqs, ph, id, ph.len(), k, Phase::Finished(r));
    }
    assert(m2.dom() =~= init.dom());
    assert forall|q: int| 0 <= q < p2.len() implies outcome_fits(init, reqs[q], #[trigger] p2[q]) by {
        if q != k {
            assert(p2[q] == ph[q]);
        }
    }
    assert forall|q: int|
        0 <= q < p2.len() && (#[trigger] succeeded_with(p2[q])) is Some implies {
        &&& m2.contains_key(reqs[q].account)
        &&& succeeded_with(p2[q]).unwrap() >= m2[reqs[q].account]
    } by {
        if q != k {
            assert(p2[q] == ph[q]);
        }
    }
    assert forall|i: int, j: int|
        0 <= i < p2.len() && 0 <= j < p2.len() && i != j && (#[trigger] succeeded_with(p2[i]))
            is Some && (#[trigger] succeeded_with(p2[j])) is Some && reqs[i].account
            == reqs[j].account implies succeeded_with(p2[i]) != succeeded_with(p2[j]) by {
        if i != k {
            assert(p2[i] == ph[i]);
        }
        if j != k {
            assert(p2[j] == ph[j]);
        }
    }
    assert forall|q: int| 0 <= q < p2.len() && #[trigger] declined_short(p2[q]) implies {
        &&& m2.contains_key(reqs[q].account)
        &&& reqs[q].amount > m2[reqs[q].account]
    } by {
        if q != k {
            assert(p2[q] == ph[q]);
        }
    }
    assert forall|q: int| 0 <= q < p2.len() implies !(#[trigger] p2[q] is Observed) by {
        if q != k {
            assert(p2[q] == ph[q]);
        }
    }
}

proof fn lemma_run_serial(
    init: Map<u64, int>,
    m: Map<u64, int>,
    reqs: Seq<WithdrawalRequest>,
    ph: Seq<Phase>,
    sched: Seq<usize>,
)
    requires
        serial_facts(init, m, reqs, ph),
    ensures
        ({
            let (m2, p2) = run_spec(m, ph, reqs, sched, Strategy::Serialized);
            serial_facts(init, m2, reqs, p2)
        }),
    decreases sched.len(),
{
    if sched.len() > 0 {
        lemma_advance_serial(init, m, reqs, ph, sched[0] as int);
        let (m2, p2) = advance(m, ph, reqs, sched[0] as int, Strategy::Serialized);
        lemma_run_serial(init, m2, reqs, p2, sched.drop_first());
    }
}

proof fn lemma_complete_serial(
    init: Map<u64, int>,
    m: Map<u64, int>,
    reqs: Seq<WithdrawalRequest>,
    ph: Seq<Phase>,
    i: int,
)
    requires
        serial_facts(init, m, reqs, ph),
        0 <= i,
    ensures
        ({
            let (m2, p2) = complete_from(m, ph, reqs, i, Strategy::Serialized);
            serial_facts(init, m2, reqs, p2)
        }),
    decreases reqs.len() - i,
{
    if i < reqs.len() {
        lemma_advance_serial(init, m, reqs, ph, i);
        let (m1, p1) = advance(m, ph, reqs, i, Strategy::Serialized);
        lemma_advance_serial(init, m1, reqs, p1, i);
        let (m2, p2) = advance(m1, p1, reqs, i, Strategy::Serialized);
        lemma_complete_serial(init, m2, reqs, p2, i + 1);
    }
}

/// Waiting for the requests from `i` on finishes every one of them, under
/// either strategy.
pub proof fn lemma_complete_finishes(
    m: Map<u64, int>,
    reqs: Seq<WithdrawalRequest>,
    ph: Seq<Phase>,
    i: int,
    strategy: Strategy,
)
    requires
        ph.len() == reqs.len(),
        0 <= i <= reqs.len(),
        forall|q: int| 0 <= q < i ==> (#[trigger] ph[q]) is Finished,
    ensures
        ({
            let (m2, p2) = complete_from(m, ph, reqs, i, strategy);
            &&& p2.len() == reqs.len()
            &&& forall|q: int| 0 <= q < p2.len() ==> (#[trigger] p2[q]) is Finished
        }),
    decreases reqs.len() - i,
{
    if i < reqs.len() {
        let (m1, p1) = advance(m, ph, reqs, i, strategy);
        let (m2, p2) = advance(m1, p1, reqs, i, strategy);
        assert(p2[i] is Finished);
        assert forall|q: int| 0 <= q < i + 1 implies (#[trigger] p2[q]) is Finished by {
            if q != i {
                assert(p1[q] == ph[q]);
                assert(p2[q] == p1[q]);
            }
        }
        lemma_complete_finishes(m2, reqs, p2, i + 1, strategy);
    }
}

proof fn lemma_start_serial(m: Map<u64, int>, reqs: Seq<WithdrawalRequest>)
    requires
        balances_valid(m),
    ensures
        serial_facts(m, m, reqs, all_waiting(reqs.len())),
{
    let ph = all_waiting(reqs.len());
    assert forall|id: u64| #[trigger] m.contains_key(id) implies m[id] == m[id] - debited(
        reqs,
        ph,
        id,
        ph.len(),
    ) by {
        lemma_debited_none(reqs, ph, id, ph.len());
    }
}

proof fn lemma_debited_none(reqs: Seq<WithdrawalRequest>, ph: Seq<Phase>, id: u64, n: nat)
    requires
        n <= ph.len(),
        forall|k: int| 0 <= k < n ==> (#[trigger] succeeded_with(ph[k])) is None,
    ensures
        debited(reqs, ph, id, n) == 0,
    decreases n,
{
    if n > 0 {
        assert(succeeded_with(ph[n - 1]) is None);
        lemma_debited_none(reqs, ph, id, (n - 1) as nat);
    }
}

/// Under the serialized withdrawer, whatever the interleaving: every
/// request finishes, each balance ends as its starting value less the
/// amounts of the withdrawals on it that succeeded, no balance is negative,
/// no two successes on one account report the same new balance, and each
/// decline for want of funds asked more than its account ends with.
pub proof fn lemma_serialized_conserves(
    m: Map<u64, int>,
    reqs: Seq<WithdrawalRequest>,
    sched: Seq<usize>,
)
    requires
        balances_valid(m),
    ensures
        ({
            let (fm, ph) = interleave(m, reqs, sched, Strategy::Serialized);
            &&& serial_facts(m, fm, reqs, ph)
            &&& forall|q: int| 0 <= q < ph.len() ==> (#[trigger] ph[q]) is Finished
        }),
{
    lemma_start_serial(m, reqs);
    let w = all_waiting(reqs.len());
    lemma_run_serial(m, m, reqs, w, sched);
    let (m1, p1) = run_spec(m, w, reqs, sched, Strategy::Serialized);
    lemma_complete_serial(m, m1, reqs, p1, 0);
    lemma_complete_finishes(m1, reqs, p1, 0, Strategy::Serialized);
}

/// Under the serialized withdrawer no balance is ever negative: after any
/// number of steps of any interleaving the ledger holds valid balances only.
pub proof fn lemma_serialized_never_negative(
    m: Map<u64, int>,
    reqs: Seq<WithdrawalRequest>,
    sched: Seq<usize>,
    t: int,
)
    requires
        balances_valid(m),
        0 <= t <= sched.len(),
    ensures
        balances_valid(
            run_spec(m, all_waiting(reqs.len()), reqs, sched.take(t), Strategy::Serialized).0,
        ),
{
    lemma_start_serial(m, reqs);
    lemma_run_serial(m, m, reqs, all_waiting(reqs.len()), sched.take(t));
}

proof fn lemma_debited_below(
    reqs: Seq<WithdrawalRequest>,
    ph: Seq<Phase>,
    id: u64,
    n: nat,
    k: int,
)
    requires
        n <= ph.len(),
        n <= reqs.len(),
        0 <= k < ph.len(),
        succeeded_with(ph[k]) is None,
        forall|q: int| 0 <= q < n ==> (#[trigger] reqs[q]).amount > 0,
    ensures
        debited(reqs, ph, id, n) <= requested(reqs, n) - if k < n {
            reqs[k].amount as int
        } else {
            0
        },
    decreases n,
{
    if n > 0 {
        assert(reqs[n - 1].amount > 0);
        lemma_debited_below(reqs, ph, id, (n - 1) as nat, k);
    }
}

proof fn lemma_debited_all(reqs: Seq<WithdrawalRequest>, ph: Seq<Phase>, id: u64, n: nat)
    requires
        n <= ph.len(),
        n <= reqs.len(),
        forall|q: int|
            0 <= q < n ==> (#[trigger] succeeded_with(ph[q])) is Some && reqs[q].account == id,
    ensures
        debited(reqs, ph, id, n) == requested(reqs, n),
    decreases n,
{
    if n > 0 {
        assert(succeeded_with(ph[n - 1]) is Some);
        lemma_debited_all(reqs, ph, id, (n - 1) as nat);
    }
}

/// Two withdrawals on one account, each within its balance but together
/// beyond it: under the serialized withdrawer, whatever the interleaving,
/// exactly one succeeds and the other is declined for want of funds, and the
/// balance ends less the amount of the one that succeeded.
pub proof fn lemma_overdraft_pair(acct: u64, b: int, x: i64, y: i64, sched: Seq<usize>)
    requires
        0 <= b <= i64::MAX,
        0 < x <= b,
        0 < y <= b,
        x + y > b,
    ensures
        ({
            let reqs = seq![
                WithdrawalRequest { account: acct, amount: x },
                WithdrawalRequest { account: acct, amount: y },
            ];
            let (fm, ph) = interleave(map![acct => b], reqs, sched, Strategy::Serialized);
            &&& ph.len() == 2
            &&& fm.dom() == set![acct]
            &&& {
                ||| succeeded_with(ph[0]) is Some && declined_short(ph[1]) && fm[acct] == b - x
                ||| declined_short(ph[0]) && succeeded_with(ph[1]) is Some && fm[acct] == b - y
            }
        }),
{
    let m = map![acct => b];
    let reqs = seq![
        WithdrawalRequest { account: acct, amount: x },
        WithdrawalRequest { account: acct, amount: y },
    ];
    assert(balances_valid(m));
    lemma_serialized_conserves(m, reqs, sched);
    let (fm, ph) = interleave(m, reqs, sched, Strategy::Serialized);
    assert(fm.contains_key(acct));
    assert(ph[0] is Finished && ph[1] is Finished);
    assert(outcome_fits(m, reqs[0], ph[0]));
    assert(outcome_fits(m, reqs[1], ph[1]));
    assert(fm.dom() =~= set![acct]);
    let d = debited(reqs, ph, acct, 2);
    assert(reqs[0].account == acct && reqs[0].amount == x);
    assert(reqs[1].account == acct && reqs[1].amount == y);
    let d1 = debited(reqs, ph, acct, 1);
    assert(debited(reqs, ph, acct, 0) == 0);
    assert(d1 == if succeeded_with(ph[0]) is Some { x as int } else { 0 });
    assert(d == d1 + if succeeded_with(ph[1]) is Some { y as int } else { 0 });
    assert(fm[acct] == b - d);
    if succeeded_with(ph[0]) is Some {
        assert(declined_short(ph[0]) == false);
    }
    if succeeded_with(ph[1]) is Some {
        assert(declined_short(ph[1]) == false);
    }
}

/// Withdrawals on one account whose amounts are all positive and together
/// within its balance: under the serialized withdrawer, whatever the
/// interleaving, every one succeeds, the balance ends less their sum, and
/// no two report the same new balance.
pub proof fn lemma_no_lost_updates(
    m: Map<u64, int>,
    reqs: Seq<WithdrawalRequest>,
    sched: Seq<usize>,
    acct: u64,
)
    requires
        balances_valid(m),
        m.contains_key(acct),
        forall|k: int| 0 <= k < reqs.len() ==> (#[trigger] reqs[k]).account == acct,
        forall|k: int| 0 <= k < reqs.len() ==> (#[trigger] reqs[k]).amount > 0,
        requested(reqs, reqs.len()) <= m[acct],
    ensures
        ({
            let (fm, ph) = interleave(m, reqs, sched, Strategy::Serialized);
            &&& ph.len() == reqs.len()
            &&& forall|k: int| 0 <= k < ph.len() ==> (#[trigger] succeeded_with(ph[k])) is Some
            &&& fm == m.insert(acct, m[acct] - requested(reqs, reqs.len()))
            &&& forall|j: int, k: int|
                0 <= j < ph.len() && 0 <= k < ph.len() && j != k ==> #[trigger] succeeded_with(
                    ph[j],
                ) != #[trigger] succeeded_with(ph[k])
        }),
{
    lemma_serialized_conserves(m, reqs, sched);
    let (fm, ph) = interleave(m, reqs, sched, Strategy::Serialized);
    assert forall|k: int| 0 <= k < ph.len() implies (#[trigger] succeeded_with(ph[k])) is Some by {
        assert(ph[k] is Finished);
        assert(outcome_fits(m, reqs[k], ph[k]));
        if succeeded_with(ph[k]) is None {
            assert(declined_short(ph[k]));
            lemma_debited_below(reqs, ph, acct, ph.len(), k);
            assert(fm.contains_key(acct));
        }
    }
    assert forall|q: int| 0 <= q < ph.len() implies (#[trigger] succeeded_with(ph[q])) is Some
        && reqs[q].account == acct by {
        assert(reqs[q].account == acct);
    }
    lemma_debited_all(reqs, ph, acct, ph.len());
    assert(fm.contains_key(acct));
    assert forall|id: u64| #[trigger] fm.contains_key(id) && id != acct implies fm[id] == m[id] by {
        assert forall|k: int| 0 <= k < reqs.len() implies (#[trigger] reqs[k]).account != id by {
            assert(reqs[k].account == acct);
        }
        lemma_debited_frame(reqs, ph, id, ph.len());
    }
    assert(fm =~= m.insert(acct, m[acct] - requested(reqs, reqs.len())));
    assert forall|j: int, k: int|
        0 <= j < ph.len() && 0 <= k < ph.len() && j != k implies #[trigger] succeeded_with(ph[j])
        != #[trigger] succeeded_with(ph[k]) by {
        assert(succeeded_with(ph[j]) is Some);
        assert(succeeded_with(ph[k]) is Some);
        assert(reqs[j].account == reqs[k].account);
    }
}

/// The naive withdrawer loses an update: when two withdrawals on one
/// account, each within its balance, both read the balance before either
/// writes, both succeed, yet the balance ends less only the second amount,
/// not less their sum.
pub proof fn lemma_naive_lost_update(acct: u64, b: int, x: i64, y: i64)
    requires
        0 <= b <= i64::MAX,
        0 < x <= b,
        0 < y <= b,
    ensures
        ({
            let reqs = seq![
                WithdrawalRequest { account: acct, amount: x },
                WithdrawalRequest { account: acct, amount: y },
            ];
            let (fm, ph) = interleave(map![acct => b], reqs, seq![0usize, 1usize], Strategy::Naive);
            &&& ph.len() == 2
            &&& succeeded_with(ph[0]) == Some(b - x)
            &&& succeeded_with(ph[1]) == Some(b - y)
            &&& fm == map![acct => b - y]
            &&& fm[acct] != b - (x + y)
        }),
{
    let m = map![acct => b];
    let reqs = seq![
        WithdrawalRequest { account: acct, amount: x },
        WithdrawalRequest { account: acct, amount: y },
    ];
    let sched = seq![0usize, 1usize];
    let w = all_waiting(2);
    assert(reqs.len() == 2);
    let (m1, p1) = advance(m, w, reqs, 0, Strategy::Naive);
    let (m2, p2) = advance(m1, p1, reqs, 1, Strategy::Naive);
    let s1 = sched.drop_first();
    assert(s1 =~= seq![1usize]);
    assert(s1.drop_first() =~= Seq::<usize>::empty());
    assert(run_spec(m2, p2, reqs, s1.drop_first(), Strategy::Naive) == (m2, p2));
    assert(run_spec(m1, p1, reqs, s1, Strategy::Naive) == (m2, p2));
    assert(run_spec(m, w, reqs, sched, Strategy::Naive) == (m2, p2));
    let (m3, p3) = advance(m2, p2, reqs, 0, Strategy::Naive);
    let (m4, p4) = advance(m3, p3, reqs, 0, Strategy::Naive);
    let (m5, p5) = advance(m4, p4, reqs, 1, Strategy::Naive);
    let (m6, p6) = advance(m5, p5, reqs, 1, Strategy::Naive);
    assert(complete_from(m6, p6, reqs, 2, Strategy::Naive) == (m6, p6));
    assert(complete_from(m4, p4, reqs, 1, Strategy::Naive) == (m6, p6));
    assert(complete_from(m2, p2, reqs, 0, Strategy::Naive) == (m6, p6));
    assert(m3 =~= map![acct => b - x]);
    assert(m5 =~= map![acct => b - y]);
}

spec fn invalid_rejected(reqs: Seq<WithdrawalRequest>, ph: Seq<Phase>) -> bool {
    &&& ph.len() == reqs.len()
    &&& forall|k: int|
        0 <= k < ph.len() && (#[trigger] reqs[k]).amount <= 0 ==> ph[k] is Waiting || ph[k]
            == Phase::Finished(
            Ok(WithdrawalOutcome::Declined { reason: DeclineReason::InvalidAmount }),
        )
}

proof fn lemma_advance_invalid(
    m: Map<u64, int>,
    reqs: Seq<WithdrawalRequest>,
    ph: Seq<Phase>,
    k: int,
    strategy: Strategy,
)
    requires
        invalid_rejected(reqs, ph),
    ensures
        invalid_rejected(reqs, advance(m, ph, reqs, k, strategy).1),
{
    let p2 = advance(m, ph, reqs, k, strategy).1;
    assert forall|q: int| 0 <= q < p2.len() && (#[trigger] reqs[q]).amount <= 0 implies p2[q]
        is Waiting || p2[q] == Phase::Finished(
        Ok(WithdrawalOutcome::Declined { reason: DeclineReason::InvalidAmount }),
    ) by {
        if q != k {
            assert(p2[q] == ph[q]);
        }
    }
}

proof fn lemma_run_invalid(
    m: Map<u64, int>,
    reqs: Seq<WithdrawalRequest>,
    ph: Seq<Phase>,
    sched: Seq<usize>,
    strategy: Strategy,
)
    requires
        invalid_rejected(reqs, ph),
    ensures
        invalid_rejected(reqs, run_spec(m, ph, reqs, sched, strategy).1),
    decreases sched.len(),
{
    if sched.len() > 0 {
        lemma_advance_invalid(m, reqs, ph, sched[0] as int, strategy);
        let (m2, p2) = advance(m, ph, reqs, sched[0] as int, strategy);
        lemma_run_invalid(m2, reqs, p2, sched.drop_first(), strategy);
    }
}

proof fn lemma_complete_invalid(
    m: Map<u64, int>,
    reqs: Seq<WithdrawalRequest>,
    ph: Seq<Phase>,
    i: int,
    strategy: Strategy,
)
    requires
        invalid_rejected(reqs, ph),
    ensures
        invalid_rejected(reqs, complete_from(m, ph, reqs, i, strategy).1),
    decreases reqs.len() - i,
{
    if i < reqs.len() {
        lemma_advance_invalid(m, reqs, ph, i, strategy);
        let (m1, p1) = advance(m, ph, reqs, i, strategy);
        lemma_advance_invalid(m1, reqs, p1, i, strategy);
        let (m2, p2) = advance(m1, p1, reqs, i, strategy);
        lemma_complete_invalid(m2, reqs, p2, i + 1, strategy);
    }
}

/// Under either withdrawer and whatever the interleaving, every request for
/// a zero or negative amount ends declined as an invalid amount.
pub proof fn lemma_invalid_amounts_declined(
    m: Map<u64, int>,
    reqs: Seq<WithdrawalRequest>,
    sched: Seq<usize>,
    strategy: Strategy,
)
    ensures
        ({
            let ph = interleave(m, reqs, sched, strategy).1;
            &&& ph.len() == reqs.len()
            &&& forall|k: int|
                0 <= k < ph.len() && (#[trigger] reqs[k]).amount <= 0 ==> ph[k] == Phase::Finished(
                    Ok(WithdrawalOutcome::Declined { reason: DeclineReason::InvalidAmount }),
                )
        }),
{
    let w = all_waiting(reqs.len());
    lemma_run_invalid(m, reqs, w, sched, strategy);
    let (m1, p1) = run_spec(m, w, reqs, sched, strategy);
    lemma_complete_invalid(m1, reqs, p1, 0, strategy);
    lemma_complete_finishes(m1, reqs, p1, 0, strategy);
}

} // verus!
