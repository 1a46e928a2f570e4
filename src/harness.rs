use vstd::prelude::*;
use crate::store::{LedgerError, LedgerStore};
use crate::withdraw::{
    ReadStep, PendingWithdrawal, WithdrawalOutcome, WithdrawalRequest, begin_spec, finish_spec,
    withdraw_spec, begin_withdrawal, finish_withdrawal, withdraw,
};

verus! {

/// Which withdrawer the requests run against.
#[derive(Clone, Copy, Debug, PartialEq, Eq, Structural)]
pub enum Strategy {
    /// Read, check and write as separate steps that others may come between.
    Naive,
    /// Read, check and write as one indivisible step.
    Serialized,
}

/// Where one in-flight withdrawal stands.
#[derive(Clone, Copy, Debug)]
pub enum Phase {
    /// Not yet started.
    Waiting,
    /// A naive withdrawal that has read the balance but not yet written.
    Observed(PendingWithdrawal),
    /// Completed with this result.
    Finished(Result<WithdrawalOutcome, LedgerError>),
}

/// One step of request `k`: starts it, or lets a naive one that has read
/// the balance check and write. Other requests and out-of-range indices
/// are left alone.
pub open spec fn advance(
    m: Map<u64, int>,
    phases: Seq<Phase>,
    reqs: Seq<WithdrawalRequest>,
    k: int,
    strategy: Strategy,
) -> (Map<u64, int>, Seq<Phase>) {
    if !(0 <= k < phases.len() && k < reqs.len()) {
        (m, phases)
    } else {
        match phases[k] {
            Phase::Waiting => match strategy {
                Strategy::Serialized => {
                    let (m2, r) = withdraw_spec(m, reqs[k].account, reqs[k].amount as int);
                    (m2, phases.update(k, Phase::Finished(r)))
                },
                Strategy::Naive => match begin_spec(m, reqs[k].account, reqs[k].amount as int) {
                    ReadStep::Pending(p) => (m, phases.update(k, Phase::Observed(p))),
                    ReadStep::Done(r) => (m, phases.update(k, Phase::Finished(r))),
                },
            },
            Phase::Observed(p) => {
                let (m2, r) = finish_spec(m, p);
                (m2, phases.update(k, Phase::Finished(r)))
            },
            Phase::Finished(_) => (m, phases),
        }
    }
}

/// The steps of a schedule, taken in order.
pub open spec fn run_spec(
    m: Map<u64, int>,
    phases: Seq<Phase>,
    reqs: Seq<WithdrawalRequest>,
    sched: Seq<usize>,
    strategy: Strategy,
) -> (Map<u64, int>, Seq<Phase>)
    decreases sched.len(),
{
    if sched.len() == 0 {
        (m, phases)
    } else {
        let (m2, p2) = advance(m, phases, reqs, sched[0] as int, strategy);
        run_spec(m2, p2, reqs, sched.drop_first(), strategy)
    }
}

/// Runs every request from index `i` on to completion, one after another:
/// the wait for all withdrawals to end.
pub open spec fn complete_from(
    m: Map<u64, int>,
    phases: Seq<Phase>,
    reqs: Seq<WithdrawalRequest>,
    i: int,
    strategy: Strategy,
) -> (Map<u64, int>, Seq<Phase>)
    decreases reqs.len() - i,
{
    if i >= reqs.len() {
        (m, phases)
    } else {
        let (m1, p1) = advance(m, phases, reqs, i, strategy);
        let (m2, p2) = advance(m1, p1, reqs, i, strategy);
        complete_from(m2, p2, reqs, i + 1, strategy)
    }
}

/// All requests waiting, none started.
pub open spec fn all_waiting(n: nat) -> Seq<Phase> {
    Seq::new(n, |i: int| Phase::Waiting)
}

/// A run of the requests interleaved as the schedule says, each schedule
/// entry being one step of the request it names, and then waited on until
/// every request has finished.
pub open spec fn interleave(
    m: Map<u64, int>,
    reqs: Seq<WithdrawalRequest>,
    sched: Seq<usize>,
    strategy: Strategy,
) -> (Map<u64, int>, Seq<Phase>) {
    let (m1, p1) = run_spec(m, all_waiting(reqs.len()), reqs, sched, strategy);
    complete_from(m1, p1, reqs, 0, strategy)
}

fn advance_exec(
    store: &mut LedgerStore,
    phases: &mut Vec<Phase>,
    reqs: &Vec<WithdrawalRequest>,
    k: usize,
    strategy: Strategy,
)
    requires
        old(store).wf(),
    ensures
        final(store).wf(),
        (final(store)@, final(phases)@) == advance(old(store)@, old(phases)@, reqs@, k as int, strategy),
{
    if k >= phases.len() || k >= reqs.len() {
        return;
    }
    let req = reqs[k];
    match phases[k] {
        Phase::Waiting => match strategy {
            Strategy::Serialized => {
                let r = withdraw(store, req.account, req.amount);
                phases.set(k, Phase::Finished(r));
            },
            Strategy::Naive => match begin_withdrawal(store, req.account, req.amount) {
                ReadStep::Pending(p) => {
                    phases.set(k, Phase::Observed(p));
                },
                ReadStep::Done(r) => {
                    phases.set(k, Phase::Finished(r));
                },
            },
        },
        Phase::Observed(p) => {
            let r = finish_withdrawal(store, p);
            phases.set(k, Phase::Finished(r));
        },
        Phase::Finished(_) => {},
    }
}

/// Drives the requests through the given interleaving against the chosen
/// withdrawer, waits until all have finished, and returns their results in
/// request order.
pub fn run_interleaved(
    store: &mut LedgerStore,
    requests: &Vec<WithdrawalRequest>,
    schedule: &Vec<usize>,
    strategy: Strategy,
) -> (r: Vec<Result<WithdrawalOutcome, LedgerError>>)
    requires
        old(store).wf(),
    ensures
        final(store).wf(),
        ({
            let (m, ph) = interleave(old(store)@, requests@, schedule@, strategy);
            &&& final(store)@ == m
            &&& r@.len() == requests@.len()
            &&& ph.len() == requests@.len()
            &&& forall|i: int| 0 <= i < r@.len() ==> ph[i] == Phase::Finished(#[trigger] r@[i])
        }),
{
    let n = requests.len();
    let mut phases: Vec<Phase> = Vec::new();
    let mut i: usize = 0;
    while i < n
        invariant
            i <= n,
            n == requests@.len(),
            phases@ == all_waiting(i as nat),
        decreases n - i,
    {
        phases.push(Phase::Waiting);
        i = i + 1;
        proof {
            assert(phases@ =~= all_waiting(i as nat));
        }
    }
    let ghost m0 = store@;
    let ghost p0 = phases@;
    let mut t: usize = 0;
    proof {
        assert(schedule@.skip(0) =~= schedule@);
    }
    while t < schedule.len()
        invariant
            t <= schedule@.len(),
            store.wf(),
            phases@.len() == n,
            n == requests@.len(),
            run_spec(store@, phases@, requests@, schedule@.skip(t as int), strategy) == run_spec(
                m0,
                p0,
                requests@,
                schedule@,
                strategy,
            ),
        decreases schedule@.len() - t,
    {
        proof {
            assert(schedule@.skip(t as int).drop_first() =~= schedule@.skip(t + 1));
        }
        advance_exec(store, &mut phases, requests, schedule[t], strategy);
        t = t + 1;
    }
    proof {
        assert(schedule@.skip(t as int) =~= Seq::<usize>::empty());
    }
    let ghost m1 = store@;
    let ghost p1 = phases@;
    let mut j: usize = 0;
    while j < n
        invariant
            j <= n,
            store.wf(),
            phases@.len() == n,
            n == requests@.len(),
            complete_from(store@, phases@, requests@, j as int, strategy) == complete_from(
                m1,
                p1,
                requests@,
                0,
                strategy,
            ),
            forall|q: int| 0 <= q < j ==> (#[trigger] phases@[q]) is Finished,
        decreases n - j,
    {
        advance_exec(store, &mut phases, requests, j, strategy);
        advance_exec(store, &mut phases, requests, j, strategy);
        j = j + 1;
    }
    let mut out: Vec<Result<WithdrawalOutcome, LedgerError>> = Vec::new();
    let mut q: usize = 0;
    while q < n
        invariant
            q <= n,
            phases@.len() == n,
            forall|x: int| 0 <= x < n ==> (#[trigger] phases@[x]) is Finished,
            out@.len() == q,
            forall|x: int| 0 <= x < q ==> phases@[x] == Phase::Finished(#[trigger] out@[x]),
        decreases n - q,
    {
        match phases[q] {
            Phase::Finished(r) => {
                out.push(r);
            },
            _ => {
                proof {
                    assert(phases@[q as int] is Finished);
                }
                out.push(Err(LedgerError::AccountNotFound));
            },
        }
        q = q + 1;
    }
    out
}

/// Opens one account with a starting balance, runs the requests against it
/// through the given interleaving, and reports the account's final balance
/// with the results in request order.
pub fn run_scenario(
    account: u64,
    initial_balance: i64,
    requests: &Vec<WithdrawalRequest>,
    schedule: &Vec<usize>,
    strategy: Strategy,
) -> (r: Result<(i64, Vec<Result<WithdrawalOutcome, LedgerError>>), LedgerError>)
    ensures
        initial_balance < 0 <==> r == Err::<
            (i64, Vec<Result<WithdrawalOutcome, LedgerError>>),
            LedgerError,
        >(LedgerError::InvalidBalance),
        initial_balance >= 0 ==> r is Ok,
        r matches Ok((fb, outs)) ==> {
            let (m, ph) = interleave(
                map![account => initial_balance as int],
                requests@,
                schedule@,
                strategy,
            );
            &&& m.contains_key(account)
            &&& fb == m[account]
            &&& outs@.len() == requests@.len()
            &&& forall|i: int| 0 <= i < outs@.len() ==> ph[i] == Phase::Finished(#[trigger] outs@[i])
        },
{
    let mut store = match LedgerStore::with_account(account, initial_balance) {
        Ok(s) => s,
        Err(e) => return Err(e),
    };
    let ghost m0 = store@;
    let outs = run_interleaved(&mut store, requests, schedule, strategy);
    proof {
        lemma_accounts_kept(m0, requests@, schedule@, strategy);
        store.lemma_wf_balances_valid();
    }
    match store.get_balance(account) {
        Ok(fb) => Ok((fb, outs)),
        Err(e) => Err(e),
    }
}

proof fn lemma_advance_keeps_accounts(
    m: Map<u64, int>,
    ph: Seq<Phase>,
    reqs: Seq<WithdrawalRequest>,
    k: int,
    strategy: Strategy,
)
    ensures
        advance(m, ph, reqs, k, strategy).0.dom() == m.dom(),
        advance(m, ph, reqs, k, strategy).1.len() == ph.len(),
{
    let m2 = advance(m, ph, reqs, k, strategy).0;
    assert(m2.dom() =~= m.dom());
}

proof fn lemma_run_keeps_accounts(
    m: Map<u64, int>,
    ph: Seq<Phase>,
    reqs: Seq<WithdrawalRequest>,
    sched: Seq<usize>,
    strategy: Strategy,
)
    ensures
        run_spec(m, ph, reqs, sched, strategy).0.dom() == m.dom(),
    decreases sched.len(),
{
    if sched.len() > 0 {
        lemma_advance_keeps_accounts(m, ph, reqs, sched[0] as int, strategy);
        let (m2, p2) = advance(m, ph, reqs, sched[0] as int, strategy);
        lemma_run_keeps_accounts(m2, p2, reqs, sched.drop_first(), strategy);
    }
}

proof fn lemma_complete_keeps_accounts(
    m: Map<u64, int>,
    ph: Seq<Phase>,
    reqs: Seq<WithdrawalRequest>,
    i: int,
    strategy: Strategy,
)
    ensures
        complete_from(m, ph, reqs, i, strategy).0.dom() == m.dom(),
    decreases reqs.len() - i,
{
    if i < reqs.len() {
        lemma_advance_keeps_accounts(m, ph, reqs, i, strategy);
        let (m1, p1) = advance(m, ph, reqs, i, strategy);
        lemma_advance_keeps_accounts(m1, p1, reqs, i, strategy);
        let (m2, p2) = advance(m1, p1, reqs, i, strategy);
        lemma_complete_keeps_accounts(m2, p2, reqs, i + 1, strategy);
    }
}

/// No interleaving opens or closes an account.
pub proof fn lemma_accounts_kept(
    m: Map<u64, int>,
    reqs: Seq<WithdrawalRequest>,
    sched: Seq<usize>,
    strategy: Strategy,
)
    ensures
        interleave(m, reqs, sched, strategy).0.dom() == m.dom(),
{
    let w = all_waiting(reqs.len());
    lemma_run_keeps_accounts(m, w, reqs, sched, strategy);
    let (m1, p1) = run_spec(m, w, reqs, sched, strategy);
    lemma_complete_keeps_accounts(m1, p1, reqs, 0, strategy);
}

} // verus!
