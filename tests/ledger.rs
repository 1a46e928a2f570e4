use ledger::harness::{run_interleaved, run_scenario, Strategy};
use ledger::store::{LedgerError, LedgerStore};
use ledger::withdraw::{
    begin_withdrawal, finish_withdrawal, withdraw, withdraw_naive, DeclineReason,
    PendingWithdrawal, ReadStep, WithdrawalOutcome, WithdrawalRequest,
};

fn declined(reason: DeclineReason) -> Result<WithdrawalOutcome, LedgerError> {
    Ok(WithdrawalOutcome::Declined { reason })
}

fn succeeded(new_balance: i64) -> Result<WithdrawalOutcome, LedgerError> {
    Ok(WithdrawalOutcome::Succeeded { new_balance })
}

fn requests(account: u64, amounts: &[i64]) -> Vec<WithdrawalRequest> {
    amounts.iter().map(|&amount| WithdrawalRequest { account, amount }).collect()
}

/// Every schedule of exactly `len` steps over `n` requests.
fn all_schedules(n: usize, len: usize) -> Vec<Vec<usize>> {
    let mut out = vec![Vec::new()];
    for _ in 0..len {
        let mut next = Vec::new();
        for s in &out {
            for k in 0..n {
                let mut t = s.clone();
                t.push(k);
                next.push(t);
            }
        }
        out = next;
    }
    out
}

#[test]
fn store_reads_and_writes_one_balance() {
    let mut store = LedgerStore::with_account(7, 1000).unwrap();
    assert_eq!(store.get_balance(7), Ok(1000));
    assert_eq!(store.set_balance(7, 250), Ok(()));
    assert_eq!(store.get_balance(7), Ok(250));
    assert!(store.contains(7));
    assert!(!store.contains(8));
}

#[test]
fn store_reports_unknown_account() {
    let mut store = LedgerStore::with_account(1, 10).unwrap();
    assert_eq!(store.get_balance(2), Err(LedgerError::AccountNotFound));
    assert_eq!(store.set_balance(2, 5), Err(LedgerError::AccountNotFound));
    assert_eq!(store.get_balance(1), Ok(10));
}

#[test]
fn store_rejects_negative_balance() {
    let mut store = LedgerStore::with_account(1, 10).unwrap();
    assert_eq!(store.set_balance(1, -1), Err(LedgerError::InvalidBalance));
    assert_eq!(store.get_balance(1), Ok(10));
    assert!(matches!(LedgerStore::with_account(1, -3), Err(LedgerError::InvalidBalance)));
}

#[test]
fn store_rejects_duplicate_account() {
    let mut store = LedgerStore::new();
    assert_eq!(store.open_account(3, 40), Ok(()));
    assert_eq!(store.open_account(4, 0), Ok(()));
    assert_eq!(store.open_account(3, 99), Err(LedgerError::DuplicateAccount));
    assert_eq!(store.get_balance(3), Ok(40));
    assert_eq!(store.get_balance(4), Ok(0));
}

#[test]
fn withdraw_debits_when_funds_suffice() {
    let mut store = LedgerStore::with_account(1, 1000).unwrap();
    assert_eq!(withdraw(&mut store, 1, 700), succeeded(300));
    assert_eq!(store.get_balance(1), Ok(300));
    assert_eq!(withdraw(&mut store, 1, 300), succeeded(0));
    assert_eq!(store.get_balance(1), Ok(0));
}

#[test]
fn withdraw_declines_overdraft_without_writing() {
    let mut store = LedgerStore::with_account(1, 1000).unwrap();
    assert_eq!(withdraw(&mut store, 1, 1001), declined(DeclineReason::InsufficientFunds));
    assert_eq!(store.get_balance(1), Ok(1000));
}

#[test]
fn withdraw_rejects_zero_and_negative_amounts() {
    for amount in [0, -5, i64::MIN] {
        let mut store = LedgerStore::with_account(1, 1000).unwrap();
        assert_eq!(withdraw(&mut store, 1, amount), declined(DeclineReason::InvalidAmount));
        assert_eq!(withdraw_naive(&mut store, 1, amount), declined(DeclineReason::InvalidAmount));
        assert_eq!(store.get_balance(1), Ok(1000));
    }
    // The amount is checked before the account is looked up.
    let mut store = LedgerStore::with_account(1, 1000).unwrap();
    assert_eq!(withdraw(&mut store, 9, 0), declined(DeclineReason::InvalidAmount));
}

#[test]
fn withdraw_reports_unknown_account() {
    let mut store = LedgerStore::with_account(1, 1000).unwrap();
    assert_eq!(withdraw(&mut store, 2, 10), Err(LedgerError::AccountNotFound));
    assert_eq!(withdraw_naive(&mut store, 2, 10), Err(LedgerError::AccountNotFound));
    assert_eq!(store.get_balance(1), Ok(1000));
}

#[test]
fn withdraw_on_one_account_leaves_the_other() {
    let mut store = LedgerStore::new();
    store.open_account(1, 500).unwrap();
    store.open_account(2, 800).unwrap();
    assert_eq!(withdraw(&mut store, 1, 200), succeeded(300));
    assert_eq!(store.get_balance(2), Ok(800));
    assert_eq!(withdraw(&mut store, 2, 800), succeeded(0));
    assert_eq!(store.get_balance(1), Ok(300));
}

#[test]
fn distinct_accounts_give_the_same_results_in_either_order() {
    let mut a = LedgerStore::new();
    a.open_account(1, 100).unwrap();
    a.open_account(2, 100).unwrap();
    let mut b = LedgerStore::new();
    b.open_account(1, 100).unwrap();
    b.open_account(2, 100).unwrap();
    let a1 = withdraw(&mut a, 1, 60);
    let a2 = withdraw(&mut a, 2, 150);
    let b2 = withdraw(&mut b, 2, 150);
    let b1 = withdraw(&mut b, 1, 60);
    assert_eq!(a1, b1);
    assert_eq!(a2, b2);
    assert_eq!(a1, succeeded(40));
    assert_eq!(a2, declined(DeclineReason::InsufficientFunds));
    assert_eq!(a.get_balance(1), b.get_balance(1));
    assert_eq!(a.get_balance(2), b.get_balance(2));
}

#[test]
fn naive_steps_use_the_observed_balance() {
    let mut store = LedgerStore::with_account(1, 1000).unwrap();
    let first = match begin_withdrawal(&store, 1, 700) {
        ReadStep::Pending(p) => p,
        ReadStep::Done(r) => panic!("unexpected end {:?}", r),
    };
    let second = match begin_withdrawal(&store, 1, 700) {
        ReadStep::Pending(p) => p,
        ReadStep::Done(r) => panic!("unexpected end {:?}", r),
    };
    assert_eq!(first, PendingWithdrawal { account: 1, amount: 700, observed: 1000 });
    assert_eq!(finish_withdrawal(&mut store, first), succeeded(300));
    assert_eq!(finish_withdrawal(&mut store, second), succeeded(300));
    assert_eq!(store.get_balance(1), Ok(300));
}

#[test]
fn naive_read_step_ends_early() {
    let store = LedgerStore::with_account(1, 1000).unwrap();
    assert!(matches!(
        begin_withdrawal(&store, 1, -5),
        ReadStep::Done(Ok(WithdrawalOutcome::Declined { reason: DeclineReason::InvalidAmount }))
    ));
    assert!(matches!(
        begin_withdrawal(&store, 2, 5),
        ReadStep::Done(Err(LedgerError::AccountNotFound))
    ));
}

#[test]
fn naive_write_step_rejects_bad_values() {
    let mut store = LedgerStore::with_account(1, 1000).unwrap();
    let short = PendingWithdrawal { account: 1, amount: 50, observed: 40 };
    assert_eq!(finish_withdrawal(&mut store, short), declined(DeclineReason::InsufficientFunds));
    let overflow = PendingWithdrawal { account: 1, amount: i64::MIN, observed: 0 };
    assert_eq!(finish_withdrawal(&mut store, overflow), Err(LedgerError::InvalidBalance));
    let missing = PendingWithdrawal { account: 2, amount: 5, observed: 10 };
    assert_eq!(finish_withdrawal(&mut store, missing), Err(LedgerError::AccountNotFound));
    assert_eq!(store.get_balance(1), Ok(1000));
}

#[test]
fn naive_interleaving_loses_an_update() {
    let reqs = requests(1, &[700, 700]);
    let (fb, outs) = run_scenario(1, 1000, &reqs, &vec![0, 1], Strategy::Naive).unwrap();
    assert_eq!(outs, vec![succeeded(300), succeeded(300)]);
    assert_eq!(fb, 300);
    assert_ne!(fb, 1000 - 1400);
}

#[test]
fn naive_without_overlap_matches_serialized() {
    let reqs = requests(1, &[700, 700]);
    let (fb, outs) = run_scenario(1, 1000, &reqs, &vec![0, 0, 1, 1], Strategy::Naive).unwrap();
    assert_eq!(outs, vec![succeeded(300), declined(DeclineReason::InsufficientFunds)]);
    assert_eq!(fb, 300);
}

#[test]
fn serialized_pair_never_overdraws() {
    let reqs = requests(1, &[700, 700]);
    for len in 0..=4 {
        for sched in all_schedules(2, len) {
            let (fb, outs) = run_scenario(1, 1000, &reqs, &sched, Strategy::Serialized).unwrap();
            let wins = outs.iter().filter(|o| matches!(o, Ok(WithdrawalOutcome::Succeeded { .. }))).count();
            let shorts = outs
                .iter()
                .filter(|o| **o == declined(DeclineReason::InsufficientFunds))
                .count();
            assert_eq!((wins, shorts), (1, 1), "schedule {:?}", sched);
            assert_eq!(fb, 300, "schedule {:?}", sched);
        }
    }
}

#[test]
fn serialized_order_follows_first_step() {
    let reqs = requests(1, &[700, 700]);
    let (_, outs) = run_scenario(1, 1000, &reqs, &vec![1, 0], Strategy::Serialized).unwrap();
    assert_eq!(outs, vec![declined(DeclineReason::InsufficientFunds), succeeded(300)]);
}

#[test]
fn serialized_fifty_withdrawals_all_succeed() {
    let reqs = requests(1, &[100; 50]);
    let backwards: Vec<usize> = (0..50).rev().collect();
    let scattered: Vec<usize> = (0..200).map(|i| (i * 37 + 11) % 50).collect();
    for sched in [Vec::new(), backwards, scattered] {
        let (fb, outs) = run_scenario(1, 10_000, &reqs, &sched, Strategy::Serialized).unwrap();
        assert_eq!(fb, 5000);
        let mut seen: Vec<i64> = outs
            .iter()
            .map(|o| match o {
                Ok(WithdrawalOutcome::Succeeded { new_balance }) => *new_balance,
                other => panic!("unexpected {:?}", other),
            })
            .collect();
        seen.sort();
        seen.dedup();
        assert_eq!(seen.len(), 50);
        assert_eq!(seen[0], 5000);
        assert_eq!(seen[49], 9900);
    }
}

#[test]
fn serialized_balance_is_start_less_successes() {
    let amounts = [300, -5, 450, 0, 200, 900, 50];
    let reqs = requests(4, &amounts);
    let sched = vec![6, 2, 2, 5, 0, 1, 3, 4, 6];
    let (fb, outs) = run_scenario(4, 1000, &reqs, &sched, Strategy::Serialized).unwrap();
    let mut spent = 0;
    for (o, a) in outs.iter().zip(amounts.iter()) {
        match o {
            Ok(WithdrawalOutcome::Succeeded { new_balance }) => {
                spent += a;
                assert!(*new_balance >= fb);
            }
            Ok(WithdrawalOutcome::Declined { reason: DeclineReason::InsufficientFunds }) => {
                assert!(*a > fb)
            }
            Ok(WithdrawalOutcome::Declined { reason: DeclineReason::InvalidAmount }) => {
                assert!(*a <= 0)
            }
            Err(e) => panic!("unexpected {:?}", e),
        }
    }
    assert_eq!(fb, 1000 - spent);
    assert_eq!(fb, 0);
}

#[test]
fn harness_reports_unknown_account_per_request() {
    let mut store = LedgerStore::with_account(1, 100).unwrap();
    let reqs = vec![
        WithdrawalRequest { account: 1, amount: 30 },
        WithdrawalRequest { account: 2, amount: 30 },
        WithdrawalRequest { account: 2, amount: 0 },
    ];
    for strategy in [Strategy::Naive, Strategy::Serialized] {
        let mut s = LedgerStore::with_account(1, 100).unwrap();
        let outs = run_interleaved(&mut s, &reqs, &vec![2, 1, 0], strategy);
        assert_eq!(
            outs,
            vec![
                succeeded(70),
                Err(LedgerError::AccountNotFound),
                declined(DeclineReason::InvalidAmount),
            ]
        );
        assert_eq!(s.get_balance(1), Ok(70));
    }
    let outs = run_interleaved(&mut store, &Vec::new(), &vec![0, 3], Strategy::Serialized);
    assert!(outs.is_empty());
    assert_eq!(store.get_balance(1), Ok(100));
}

#[test]
fn harness_two_accounts_do_not_interfere() {
    let mut store = LedgerStore::new();
    store.open_account(1, 1000).unwrap();
    store.open_account(2, 1000).unwrap();
    let reqs = vec![
        WithdrawalRequest { account: 1, amount: 700 },
        WithdrawalRequest { account: 2, amount: 700 },
    ];
    for strategy in [Strategy::Naive, Strategy::Serialized] {
        let mut s = LedgerStore::new();
        s.open_account(1, 1000).unwrap();
        s.open_account(2, 1000).unwrap();
        let outs = run_interleaved(&mut s, &reqs, &vec![0, 1, 1, 0], strategy);
        assert_eq!(outs, vec![succeeded(300), succeeded(300)]);
        assert_eq!(s.get_balance(1), Ok(300));
        assert_eq!(s.get_balance(2), Ok(300));
    }
    assert_eq!(store.get_balance(2), Ok(1000));
}

#[test]
fn scenario_rejects_negative_start() {
    let reqs = requests(1, &[10]);
    assert_eq!(
        run_scenario(1, -1, &reqs, &Vec::new(), Strategy::Serialized),
        Err(LedgerError::InvalidBalance)
    );
}
