use vstd::prelude::*;
use crate::store::{LedgerError, LedgerStore, balance_result, balances_valid};

verus! {

/// Why a withdrawal was declined.
#[derive(Clone, Copy, Debug, PartialEq, Eq, Structural)]
pub enum DeclineReason {
    InsufficientFunds,
    InvalidAmount,
}

/// The business result of one withdrawal.
#[derive(Clone, Copy, Debug, PartialEq, Eq, Structural)]
pub enum WithdrawalOutcome {
    Succeeded { new_balance: i64 },
    Declined { reason: DeclineReason },
}

/// A request to debit `amount` from `account`.
#[derive(Clone, Copy, Debug, PartialEq, Eq, Structural)]
pub struct WithdrawalRequest {
    pub account: u64,
    pub amount: i64,
}

/// A naive withdrawal between its read and its write: the balance it
/// observed may be stale by the time it is written back.
#[derive(Clone, Copy, Debug, PartialEq, Eq, Structural)]
pub struct PendingWithdrawal {
    pub account: u64,
    pub amount: i64,
    pub observed: i64,
}

/// What the read step of a naive withdrawal produced.
#[derive(Clone, Copy, Debug)]
pub enum ReadStep {
    /// The balance was read; the check and the write are still to come.
    Pending(PendingWithdrawal),
    /// The withdrawal ended without reaching the check.
    Done(Result<WithdrawalOutcome, LedgerError>),
}

/// The check of a withdrawal of a positive amount against a balance.
pub open spec fn decide(balance: int, amount: int) -> WithdrawalOutcome {
    if amount > balance {
        WithdrawalOutcome::Declined { reason: DeclineReason::InsufficientFunds }
    } else {
        WithdrawalOutcome::Succeeded { new_balance: (balance - amount) as i64 }
    }
}

/// An indivisible withdrawal on a ledger view: the new view and the result.
pub open spec fn withdraw_spec(m: Map<u64, int>, id: u64, amount: int) -> (
    Map<u64, int>,
    Result<WithdrawalOutcome, LedgerError>,
) {
    if amount <= 0 {
        (m, Ok(WithdrawalOutcome::Declined { reason: DeclineReason::InvalidAmount }))
    } else if !m.contains_key(id) {
        (m, Err(LedgerError::AccountNotFound))
    } else if amount > m[id] {
        (m, Ok(decide(m[id], amount)))
    } else {
        (m.insert(id, m[id] - amount), Ok(decide(m[id], amount)))
    }
}

/// The read step of a naive withdrawal on a ledger view.
pub open spec fn begin_spec(m: Map<u64, int>, id: u64, amount: int) -> ReadStep {
    if amount <= 0 {
        ReadStep::Done(Ok(WithdrawalOutcome::Declined { reason: DeclineReason::InvalidAmount }))
    } else {
        match balance_result(m, id) {
            Ok(b) => ReadStep::Pending(PendingWithdrawal { account: id, amount: amount as i64, observed: b }),
            Err(e) => ReadStep::Done(Err(e)),
        }
    }
}

/// The check and write steps of a naive withdrawal, made against the
/// balance observed earlier rather than the one stored now.
pub open spec fn finish_spec(m: Map<u64, int>, p: PendingWithdrawal) -> (
    Map<u64, int>,
    Result<WithdrawalOutcome, LedgerError>,
) {
    let nb = p.observed - p.amount;
    if p.amount > p.observed {
        (m, Ok(WithdrawalOutcome::Declined { reason: DeclineReason::InsufficientFunds }))
    } else if nb > i64::MAX {
        (m, Err(LedgerError::InvalidBalance))
    } else if !m.contains_key(p.account) {
        (m, Err(LedgerError::AccountNotFound))
    } else if nb < 0 {
        (m, Err(LedgerError::InvalidBalance))
    } else {
        (m.insert(p.account, nb), Ok(WithdrawalOutcome::Succeeded { new_balance: nb as i64 }))
    }
}

/// Serialized withdrawal: the exclusive borrow of the store is the critical
/// section, so the read, the check and the write form one indivisible step.
pub fn withdraw(store: &mut LedgerStore, id: u64, amount: i64) -> (r: Result<
    WithdrawalOutcome,
    LedgerError,
>)
    requires
        old(store).wf(),
    ensures
        final(store).wf(),
        (final(store)@, r) == withdraw_spec(old(store)@, id, amount as int),
{
    if amount <= 0 {
        return Ok(WithdrawalOutcome::Declined { reason: DeclineReason::InvalidAmount });
    }
    let balance = match store.get_balance(id) {
        Ok(b) => b,
        Err(e) => return Err(e),
    };
    proof {
        store.lemma_wf_balances_valid();
    }
    if amount > balance {
        return Ok(WithdrawalOutcome::Declined { reason: DeclineReason::InsufficientFunds });
    }
    let new_balance = balance - amount;
    match store.set_balance(id, new_balance) {
        Ok(()) => Ok(WithdrawalOutcome::Succeeded { new_balance }),
        Err(e) => Err(e),
    }
}

/// Read step of the naive withdrawer: rejects a non-positive amount, then
/// reads the balance and hands it on without checking it.
pub fn begin_withdrawal(store: &LedgerStore, id: u64, amount: i64) -> (r: ReadStep)
    requires
        store.wf(),
    ensures
        r == begin_spec(store@, id, amount as int),
{
    if amount <= 0 {
        return ReadStep::Done(
            Ok(WithdrawalOutcome::Declined { reason: DeclineReason::InvalidAmount }),
        );
    }
    match store.get_balance(id) {
        Ok(observed) => ReadStep::Pending(PendingWithdrawal { account: id, amount, observed }),
        Err(e) => ReadStep::Done(Err(e)),
    }
}

/// Check and write steps of the naive withdrawer: checks the amount
/// against the balance observed earlier and writes that balance less the
/// amount, whatever happened to the account in between.
pub fn finish_withdrawal(store: &mut LedgerStore, p: PendingWithdrawal) -> (r: Result<
    WithdrawalOutcome,
    LedgerError,
>)
    requires
        old(store).wf(),
    ensures
        final(store).wf(),
        (final(store)@, r) == finish_spec(old(store)@, p),
{
    if p.amount > p.observed {
        return Ok(WithdrawalOutcome::Declined { reason: DeclineReason::InsufficientFunds });
    }
    let new_balance = match p.observed.checked_sub(p.amount) {
        Some(nb) => nb,
        None => return Err(LedgerError::InvalidBalance),
    };
    match store.set_balance(p.account, new_balance) {
        Ok(()) => Ok(WithdrawalOutcome::Succeeded { new_balance }),
        Err(e) => Err(e),
    }
}

/// Naive withdrawal run by one caller alone: the read step followed at once
/// by the check and write steps. Alone it acts as the serialized one does.
pub fn withdraw_naive(store: &mut LedgerStore, id: u64, amount: i64) -> (r: Result<
    WithdrawalOutcome,
    LedgerError,
>)
    requires
        old(store).wf(),
    ensures
        final(store).wf(),
        (final(store)@, r) == withdraw_spec(old(store)@, id, amount as int),
{
    proof {
        store.lemma_wf_balances_valid();
    }
    match begin_withdrawal(store, id, amount) {
        ReadStep::Done(r) => r,
        ReadStep::Pending(p) => finish_withdrawal(store, p),
    }
}

/// A non-positive amount is declined as invalid and leaves the ledger as it
/// was, whatever account it names.
pub proof fn lemma_invalid_amount_rejected(m: Map<u64, int>, id: u64, amount: int)
    requires
        amount <= 0,
    ensures
        withdraw_spec(m, id, amount) == (
            m,
            Ok::<WithdrawalOutcome, LedgerError>(
                WithdrawalOutcome::Declined { reason: DeclineReason::InvalidAmount },
            ),
        ),
        begin_spec(m, id, amount) == ReadStep::Done(
            Ok(WithdrawalOutcome::Declined { reason: DeclineReason::InvalidAmount }),
        ),
{
}

/// Withdrawals on two distinct accounts do not interfere: run in either
/// order they give the same two results and the same ledger, and neither
/// touches the other account's balance.
pub proof fn lemma_distinct_accounts_commute(
    m: Map<u64, int>,
    a: u64,
    x: int,
    b: u64,
    y: int,
)
    requires
        a != b,
    ensures
        ({
            let (m1, ra) = withdraw_spec(m, a, x);
            let (m2, rb) = withdraw_spec(m1, b, y);
            let (n1, sb) = withdraw_spec(m, b, y);
            let (n2, sa) = withdraw_spec(n1, a, x);
            &&& ra == sa
            &&& rb == sb
            &&& m2 == n2
            &&& m1.contains_key(b) == m.contains_key(b)
            &&& m1.contains_key(b) ==> m1[b] == m[b]
            &&& n1.contains_key(a) == m.contains_key(a)
            &&& n1.contains_key(a) ==> n1[a] == m[a]
        }),
{
    let (m1, ra) = withdraw_spec(m, a, x);
    let (m2, rb) = withdraw_spec(m1, b, y);
    let (n1, sb) = withdraw_spec(m, b, y);
    let (n2, sa) = withdraw_spec(n1, a, x);
    assert(m2 =~= n2);
}

/// No withdrawal leaves a negative balance behind.
pub proof fn lemma_withdraw_keeps_nonneg(m: Map<u64, int>, id: u64, amount: int)
    requires
        balances_valid(m),
    ensures
        balances_valid(withdraw_spec(m, id, amount).0),
{
}

} // verus!
