use std::collections::HashMap;

use transaction::process::{Error, Journal, TransactionStatus};
use transaction::{AccountStatus, Amount, Processor, Transaction, TransactionID, TransactionType};

fn deposit_amount() -> Amount {
    Amount::raw(50000)
}

fn withdrawal_amount() -> Amount {
    Amount::raw(20000)
}

#[test]
fn test_rollout_transactions() {
    let mut transactions: Journal = HashMap::from_iter([
        (1, TransactionStatus(TransactionType::Deposit, Amount::min_value())),
        (2, TransactionStatus(TransactionType::Withdrawal, Amount::min_value())),
        (3, TransactionStatus(TransactionType::Dispute, Amount::min_value())),
        (4, TransactionStatus(TransactionType::Resolve, Amount::min_value())),
        (5, TransactionStatus(TransactionType::Chargeback, Amount::min_value())),
    ]);

    Processor::rollout_transactions(&mut transactions, 6, 6);
    assert!(transactions.len() == 5);

    Processor::rollout_transactions(&mut transactions, 5, 6);
    assert!(transactions.len() == 3 && [1, 2, 3].iter().all(|id| transactions.contains_key(id)));

    Processor::rollout_transactions(&mut transactions, 0, 6);
    assert!(transactions.len() == 3);

    Processor::rollout_transactions(&mut transactions, 0, 3);
    assert!(transactions.len() == 2 && !transactions.contains_key(&1));

    Processor::rollout_transactions(&mut transactions, 0, 1);
    assert!(transactions.is_empty());
}

#[test]
fn test_register_transaction() {
    let mut transactions: Journal = HashMap::default();
    let mut account_status = AccountStatus::default();

    let transaction = Transaction::deposit(1, deposit_amount());
    Processor::register_transaction(&mut transactions, transaction, &mut account_status).unwrap();
    assert_eq!(account_status, AccountStatus::from(deposit_amount()));

    let transaction = Transaction::withdrawal(2, withdrawal_amount());
    Processor::register_transaction(&mut transactions, transaction, &mut account_status).unwrap();
    assert_eq!(account_status, AccountStatus::from(deposit_amount() - withdrawal_amount()));

    let ref_account_status = account_status.clone();

    // Test: existing transaction
    let transaction = Transaction::deposit(2, Default::default());
    let err = Processor::register_transaction(&mut transactions, transaction, &mut account_status).unwrap_err();
    assert!(matches!(err, Error::TransactionAlreadyExists(2)));
    assert_eq!(account_status, ref_account_status);

    // Test: register anything else than `Deposit` or `Withdrawal`
    for transaction_type in [TransactionType::Dispute, TransactionType::Resolve, TransactionType::Chargeback] {
        let transaction = Transaction::new(transaction_type, 3, Default::default());
        let err = Processor::register_transaction(&mut transactions, transaction, &mut account_status).unwrap_err();
        assert!(matches!(err, Error::OperationNotSupported(3, None, t) if t == transaction_type));
        assert_eq!(account_status, ref_account_status);
    }
}

fn assert_dispute_not_supported(
    transaction_id: TransactionID,
    transaction_types: &[TransactionType],
    transactions: &mut Journal,
    account_status: &mut AccountStatus,
) {
    let not_supported = [TransactionType::Deposit, TransactionType::Withdrawal];

    let ref_account_status = account_status.clone();

    for transaction_type in not_supported.iter().chain(transaction_types) {
        let err = Processor::dispute_transaction(transactions, transaction_id, *transaction_type, account_status).unwrap_err();
        assert!(
            matches!(err, Error::OperationNotSupported(id, Some(_), t) if id == transaction_id && t == *transaction_type)
        );
        assert_eq!(*account_status, ref_account_status);
    }
}

#[test]
fn test_dispute_transaction_failure() {
    let mut transactions: Journal = HashMap::from_iter([
        (1, TransactionStatus(TransactionType::Deposit, deposit_amount())),
        (2, TransactionStatus(TransactionType::Withdrawal, withdrawal_amount())),
        (3, TransactionStatus(TransactionType::Dispute, withdrawal_amount())),
    ]);
    let mut account_status = AccountStatus::from(deposit_amount() - withdrawal_amount());

    // Test: dispute a `Deposit`
    assert_dispute_not_supported(
        1,
        &[TransactionType::Dispute, TransactionType::Resolve, TransactionType::Chargeback],
        &mut transactions,
        &mut account_status,
    );

    // Test: dispute a `Withdrawal`
    assert_dispute_not_supported(
        2,
        &[TransactionType::Resolve, TransactionType::Chargeback],
        &mut transactions,
        &mut account_status,
    );

    // Test: dispute a `Dispute`
    assert_dispute_not_supported(3, &[TransactionType::Dispute], &mut transactions, &mut account_status);

    // Test: not existing transaction
    let err = Processor::dispute_transaction(&mut transactions, 42, TransactionType::Deposit, &mut account_status).unwrap_err();
    assert!(matches!(err, Error::TransactionNotFound(42)));
    assert_eq!(account_status, AccountStatus::from(deposit_amount() - withdrawal_amount()));
}

#[test]
fn test_dispute_transaction_resolve() {
    let mut transactions: Journal = HashMap::from_iter([
        (1, TransactionStatus(TransactionType::Deposit, deposit_amount())),
        (2, TransactionStatus(TransactionType::Withdrawal, withdrawal_amount())),
    ]);
    let mut account_status = AccountStatus::from(deposit_amount() - withdrawal_amount());

    Processor::dispute_transaction(&mut transactions, 2, TransactionType::Dispute, &mut account_status).unwrap();
    assert_eq!(account_status, AccountStatus::from(deposit_amount() - withdrawal_amount()).held(withdrawal_amount()));

    Processor::dispute_transaction(&mut transactions, 2, TransactionType::Resolve, &mut account_status).unwrap();
    assert_eq!(account_status, AccountStatus::from(deposit_amount()));

    assert_dispute_not_supported(
        2,
        &[TransactionType::Dispute, TransactionType::Chargeback],
        &mut transactions,
        &mut account_status,
    );
}

#[test]
fn test_dispute_transaction_chargeback() {
    let mut transactions: Journal = HashMap::from_iter([
        (1, TransactionStatus(TransactionType::Deposit, deposit_amount())),
        (2, TransactionStatus(TransactionType::Withdrawal, withdrawal_amount())),
    ]);
    let mut account_status = AccountStatus::from(deposit_amount() - withdrawal_amount());

    Processor::dispute_transaction(&mut transactions, 2, TransactionType::Dispute, &mut account_status).unwrap();
    assert_eq!(account_status, AccountStatus::from(deposit_amount() - withdrawal_amount()).held(withdrawal_amount()));

    Processor::dispute_transaction(&mut transactions, 2, TransactionType::Chargeback, &mut account_status).unwrap();
    assert_eq!(account_status, AccountStatus::from(deposit_amount() - withdrawal_amount()).locked());

    assert_dispute_not_supported(
        2,
        &[TransactionType::Dispute, TransactionType::Resolve, TransactionType::Chargeback],
        &mut transactions,
        &mut account_status,
    );
}

#[test]
fn test_process_transaction() {
    let mut processor = Processor::default();

    processor.process_transaction(Transaction::deposit(1, deposit_amount())).unwrap();
    assert_eq!(processor.account(0).unwrap(), AccountStatus::from(deposit_amount()));

    assert!(matches!(
        processor.process_transaction(Transaction::deposit(1, deposit_amount())),
        Err(Error::TransactionAlreadyExists(1))
    ));

    assert!(matches!(
        processor.process_transaction(Transaction::dispute(42)),
        Err(Error::TransactionNotFound(42))
    ));

    processor.process_transaction(Transaction::withdrawal(2, withdrawal_amount())).unwrap();
    assert_eq!(processor.account(0).unwrap(), AccountStatus::from(deposit_amount() - withdrawal_amount()));

    processor.process_transaction(Transaction::dispute(2)).unwrap();
    assert_eq!(
        processor.account(0).unwrap(),
        AccountStatus::from(deposit_amount() - withdrawal_amount()).held(withdrawal_amount())
    );

    processor.process_transaction(Transaction::resolve(2)).unwrap();
    assert_eq!(processor.account(0).unwrap(), AccountStatus::from(deposit_amount()));

    processor.process_transaction(Transaction::withdrawal(3, withdrawal_amount())).unwrap();

    processor.process_transaction(Transaction::dispute(3)).unwrap();
    assert_eq!(
        processor.account(0).unwrap(),
        AccountStatus::from(deposit_amount() - withdrawal_amount()).held(withdrawal_amount())
    );

    processor.process_transaction(Transaction::chargeback(3)).unwrap();
    assert_eq!(processor.account(0).unwrap(), AccountStatus::from(deposit_amount() - withdrawal_amount()).locked());

    for t in [
        TransactionType::Deposit,
        TransactionType::Withdrawal,
        TransactionType::Dispute,
        TransactionType::Resolve,
        TransactionType::Chargeback,
    ] {
        assert!(matches!(
            processor.process_transaction(Transaction::new(t, 4, None)),
            Err(Error::AccountLocked(4, 0))
        ));
    }
}

#[test]
fn rollout_below_capacity_keeps_everything() {
    // one short of the capacity: nothing is dropped, room is left for one more
    let mut transactions: Journal = (1..=4u32)
        .map(|id| (id, TransactionStatus(TransactionType::Deposit, Amount::raw(id as u64))))
        .collect();
    Processor::rollout_transactions(&mut transactions, 100, 5);
    assert_eq!(transactions.len(), 4);
    transactions.insert(9, TransactionStatus(TransactionType::Withdrawal, Amount::raw(1)));
    assert_eq!(transactions.len(), 5);
}

#[test]
fn rollout_at_capacity_drops_the_smallest_id() {
    let mut transactions: Journal = [7u32, 3, 11, 5, 9]
        .iter()
        .map(|&id| (id, TransactionStatus(TransactionType::Deposit, Amount::raw(id as u64))))
        .collect();
    Processor::rollout_transactions(&mut transactions, 100, 5);
    assert_eq!(transactions.len(), 4);
    assert!(!transactions.contains_key(&3));
    for id in [5, 7, 9, 11] {
        assert!(transactions.contains_key(&id));
    }
}

#[test]
fn rollout_prunes_ended_disputes_first() {
    let mut transactions: Journal = HashMap::from_iter([
        (1, TransactionStatus(TransactionType::Withdrawal, Amount::raw(1))),
        (2, TransactionStatus(TransactionType::Resolve, Amount::raw(1))),
        (3, TransactionStatus(TransactionType::Chargeback, Amount::raw(1))),
        (4, TransactionStatus(TransactionType::Dispute, Amount::raw(1))),
    ]);
    Processor::rollout_transactions(&mut transactions, 4, 4);
    assert_eq!(transactions.len(), 2);
    assert!(transactions.contains_key(&1) && transactions.contains_key(&4));
}

#[test]
fn register_reports_missing_amount() {
    let mut transactions: Journal = HashMap::default();
    let mut status = AccountStatus::default();
    for t in [TransactionType::Deposit, TransactionType::Withdrawal] {
        let err = Processor::register_transaction(&mut transactions, Transaction::new(t, 5, None), &mut status).unwrap_err();
        assert_eq!(err, Error::MissingAmount(5));
    }
    assert!(transactions.is_empty());
    assert_eq!(status, AccountStatus::default());
}

#[test]
fn deposit_up_to_the_largest_amount() {
    let mut processor = Processor::default();
    let available = Amount::raw(1_0000);
    processor.process_transaction(Transaction::deposit(1, available).with_client(7)).unwrap();

    let room = Amount::max_value() - available;
    let one_more = room + Amount::raw(1);
    assert_eq!(
        processor.process_transaction(Transaction::deposit(2, one_more).with_client(7)),
        Err(Error::TooManyFunds(2, 7))
    );
    assert_eq!(processor.account(7).unwrap(), AccountStatus::from(available));

    processor.process_transaction(Transaction::deposit(3, room).with_client(7)).unwrap();
    assert_eq!(processor.account(7).unwrap(), AccountStatus::from(Amount::max_value()));
}

#[test]
fn withdrawal_down_to_zero() {
    let mut processor = Processor::default();
    let available = Amount::raw(3_0000);
    processor.process_transaction(Transaction::deposit(1, available).with_client(2)).unwrap();

    assert_eq!(
        processor.process_transaction(Transaction::withdrawal(2, available + Amount::raw(1)).with_client(2)),
        Err(Error::NotEnoughFunds(2, 2))
    );
    assert_eq!(processor.account(2).unwrap(), AccountStatus::from(available));

    processor.process_transaction(Transaction::withdrawal(3, available).with_client(2)).unwrap();
    assert_eq!(processor.account(2).unwrap(), AccountStatus::from(Amount::min_value()));
}

#[test]
fn dispute_that_would_overflow_the_total_is_refused() {
    let mut processor = Processor::default();
    let big = Amount::max_value();
    processor.process_transaction(Transaction::deposit(1, big)).unwrap();
    processor.process_transaction(Transaction::withdrawal(2, big)).unwrap();
    processor.process_transaction(Transaction::deposit(3, big)).unwrap();
    assert_eq!(processor.process_transaction(Transaction::dispute(2)), Err(Error::TooManyFunds(2, 0)));
    assert_eq!(processor.account(0).unwrap(), AccountStatus::from(big));
}

#[test]
fn resolve_by_another_client_without_held_funds_is_refused() {
    let mut processor = Processor::default();
    processor.process_transaction(Transaction::deposit(1, Amount::raw(5_0000)).with_client(1)).unwrap();
    processor.process_transaction(Transaction::withdrawal(2, Amount::raw(2_0000)).with_client(1)).unwrap();
    processor.process_transaction(Transaction::dispute(2).with_client(1)).unwrap();
    assert_eq!(
        processor.process_transaction(Transaction::resolve(2).with_client(3)),
        Err(Error::NotEnoughFunds(2, 3))
    );
    assert_eq!(
        processor.process_transaction(Transaction::chargeback(2).with_client(3)),
        Err(Error::NotEnoughFunds(2, 3))
    );
    // the account of the client that was mentioned exists all the same
    assert_eq!(processor.account(3).unwrap(), AccountStatus::default());
}

#[test]
fn failed_transaction_still_opens_the_account() {
    let mut processor = Processor::default();
    assert_eq!(processor.process_transaction(Transaction::dispute(9).with_client(4)), Err(Error::TransactionNotFound(9)));
    assert_eq!(processor.account(4), Some(AccountStatus::default()));
    assert_eq!(processor.account(5), None);
}

#[test]
fn total_adds_available_and_held() {
    let status = AccountStatus::from(Amount::raw(3_0000)).held(Amount::raw(2_0000));
    assert_eq!(status.total(), Amount::raw(5_0000));
}
