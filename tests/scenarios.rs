use transaction::{AccountRecord, Amount, Processor, Transaction, TransactionType};

fn record(kind: TransactionType, client: u16, tx: u32, amount: &str) -> Transaction {
    let amount = if amount.is_empty() { None } else { Some(Amount::parse(amount).unwrap()) };
    Transaction::new(kind, tx, amount).with_client(client)
}

/// Runs the records through a processor, skipping those that fail, and
/// writes the final sheet as `client,available,held,total,locked` rows.
fn run(records: &[Transaction]) -> Vec<String> {
    let mut processor = Processor::default();
    for r in records {
        let _ = processor.process_transaction(*r);
    }
    let mut rows: Vec<String> = processor
        .into_accounts()
        .into_iter()
        .map(|a| {
            let r = AccountRecord::from(a);
            format!(
                "{},{},{},{},{}",
                r.client,
                r.available.to_string(),
                r.held.to_string(),
                r.total.to_string(),
                r.locked
            )
        })
        .collect();
    rows.sort();
    rows
}

use TransactionType::{Chargeback, Deposit, Dispute, Resolve, Withdrawal};

#[test]
fn deposit_then_withdraw() {
    let rows = run(&[record(Deposit, 1, 1, "5.1"), record(Deposit, 1, 2, "0.2"), record(Withdrawal, 1, 3, "4.2")]);
    assert_eq!(rows, vec!["1,1.1,0,1.1,false"]);
}

#[test]
fn dispute_then_resolve_a_withdrawal() {
    let rows = run(&[
        record(Deposit, 1, 1, "5"),
        record(Withdrawal, 1, 2, "2"),
        record(Dispute, 1, 2, ""),
        record(Resolve, 1, 2, ""),
    ]);
    assert_eq!(rows, vec!["1,5,0,5,false"]);
}

#[test]
fn dispute_then_chargeback_a_withdrawal() {
    let rows = run(&[
        record(Deposit, 1, 1, "5"),
        record(Withdrawal, 1, 2, "2"),
        record(Dispute, 1, 2, ""),
        record(Chargeback, 1, 2, ""),
    ]);
    assert_eq!(rows, vec!["1,3,0,3,true"]);
}

#[test]
fn locked_account_rejects_further_activity() {
    let rows = run(&[
        record(Deposit, 1, 1, "5"),
        record(Withdrawal, 1, 2, "2"),
        record(Dispute, 1, 2, ""),
        record(Chargeback, 1, 2, ""),
        record(Deposit, 1, 3, "1"),
    ]);
    assert_eq!(rows, vec!["1,3,0,3,true"]);
}

#[test]
fn disputing_a_deposit_is_not_supported() {
    let rows = run(&[record(Deposit, 1, 1, "5"), record(Dispute, 1, 1, "")]);
    assert_eq!(rows, vec!["1,5,0,5,false"]);
}

#[test]
fn sample_from_the_suite() {
    // The disputes here reference deposits, which are skipped: the account
    // ends unlocked under the transition table of this library.
    let rows = run(&[
        record(Deposit, 1, 1, "5.1"),
        record(Deposit, 1, 2, "0.2"),
        record(Deposit, 1, 3, "1.0"),
        record(Withdrawal, 1, 4, "4.2"),
        record(Dispute, 1, 2, ""),
        record(Resolve, 1, 2, ""),
        record(Dispute, 1, 3, ""),
        record(Chargeback, 1, 3, ""),
    ]);
    assert_eq!(rows, vec!["1,2.1,0,2.1,false"]);
}

#[test]
fn one_row_per_client_seen() {
    let rows = run(&[
        record(Deposit, 2, 1, "1.5"),
        record(Deposit, 1, 2, "2"),
        record(Dispute, 3, 9, ""),
        record(Withdrawal, 2, 3, "0.5"),
    ]);
    assert_eq!(rows, vec!["1,2,0,2,false", "2,1,0,1,false", "3,0,0,0,false"]);
}
