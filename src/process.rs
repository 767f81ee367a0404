//! The transaction processor: per-client accounts, a bounded journal of
//! disputable transactions and the state machine between them.
use std::collections::HashMap;
use std::hash::Hash;

use vstd::prelude::*;
use vstd::std_specs::hash::obeys_key_model;
use vstd::std_specs::iter::IteratorSpec;

use crate::{Account, AccountStatus, Amount, ClientID, Transaction, TransactionID, TransactionType};

verus! {

broadcast use {vstd::std_specs::hash::group_hash_axioms, crate::num::group_decimal};

/// The journal capacity reserved up front.
pub const DEFAULT_TRANSACTION_CAPACITY: usize = 10_000;

/// The most entries that the journal holds.
pub const MAX_TRANSACTION_CAPACITY: usize = 1_000_000;

/// From this many entries on, ended disputes are dropped from the journal.
pub const ROLLOUT_TRANSACTION_THRESHOLD: usize = 1_000;

/// A transaction process error.
#[derive(Clone, Copy, Debug, PartialEq, Eq, Structural)]
pub enum Error {
    /// A deposit or a withdrawal without an amount.
    MissingAmount(TransactionID),
    /// A deposit or a withdrawal that reuses a journaled ID.
    TransactionAlreadyExists(TransactionID),
    /// A dispute, resolve or chargeback of an ID that is not journaled.
    TransactionNotFound(TransactionID),
    /// A transition that the journal entry (if any) does not allow.
    OperationNotSupported(TransactionID, Option<TransactionType>, TransactionType),
    /// Funds that would pass the largest amount.
    TooManyFunds(TransactionID, ClientID),
    /// Funds that are not there to take.
    NotEnoughFunds(TransactionID, ClientID),
    /// Any transaction on a locked account.
    AccountLocked(TransactionID, ClientID),
}

/// A journal entry: the current state of a registered transaction, and its
/// amount.
#[derive(Clone, Copy, Debug)]
pub struct TransactionStatus(pub TransactionType, pub Amount);

/// The journal: transaction IDs to their entries.
pub type Journal = HashMap<TransactionID, TransactionStatus>;

/// An entry in one of these states can never be referenced again.
pub open spec fn is_terminal(k: TransactionType) -> bool {
    k is Resolve || k is Chargeback
}

/// `before` without its terminal entries when it holds at least `threshold`
/// entries, else `before` itself.
pub open spec fn pruned(before: Map<TransactionID, TransactionStatus>, threshold: nat) -> Map<
    TransactionID,
    TransactionStatus,
> {
    if before.len() >= threshold {
        before.restrict(before.dom().filter(|k: TransactionID| !is_terminal(before[k].0)))
    } else {
        before
    }
}

/// `after` is `before` rolled out with these thresholds: terminal entries are
/// pruned, then the smallest IDs are dropped until fewer than `max` are left.
pub open spec fn rolled_out(
    before: Map<TransactionID, TransactionStatus>,
    after: Map<TransactionID, TransactionStatus>,
    threshold: nat,
    max: nat,
) -> bool {
    let p = pruned(before, threshold);
    &&& after.submap_of(p)
    &&& p.len() < max ==> after == p
    &&& after.len() == if p.len() >= max {
        (max - 1) as nat
    } else {
        p.len()
    }
    &&& forall|d: TransactionID, k: TransactionID|
        p.contains_key(d) && !after.contains_key(d) && after.contains_key(k) ==> d < k
}

/// The status of `client` in `accounts`; a new account where it is absent.
pub open spec fn account_of(accounts: Map<ClientID, AccountStatus>, client: ClientID) -> AccountStatus {
    if accounts.contains_key(client) {
        accounts[client]
    } else {
        AccountStatus::spec_default()
    }
}

/// What registering `t` (a deposit or a withdrawal) does to `a`, or the
/// error it fails with. A deposit must keep the total within the largest
/// amount: with nothing held, that is `amount <= MAX - available`.
pub open spec fn register_outcome(
    journal: Map<TransactionID, TransactionStatus>,
    t: Transaction,
    a: AccountStatus,
) -> Result<AccountStatus, Error> {
    if journal.contains_key(t.tx) {
        Err(Error::TransactionAlreadyExists(t.tx))
    } else {
        match t.kind {
            TransactionType::Deposit => match t.amount {
                None => Err(Error::MissingAmount(t.tx)),
                Some(x) => if a.spec_total() + x@ > u64::MAX {
                    Err(Error::TooManyFunds(t.tx, t.client))
                } else {
                    Ok(AccountStatus { available: Amount::from_units(a.available@ + x@), ..a })
                },
            },
            TransactionType::Withdrawal => match t.amount {
                None => Err(Error::MissingAmount(t.tx)),
                Some(x) => if x@ > a.available@ {
                    Err(Error::NotEnoughFunds(t.tx, t.client))
                } else {
                    Ok(
                        AccountStatus {
                            available: Amount::from_units((a.available@ - x@) as nat),
                            ..a
                        },
                    )
                },
            },
            k => Err(Error::OperationNotSupported(t.tx, None, k)),
        }
    }
}

/// The transitions of a journal entry: a withdrawal may be disputed, and a
/// dispute resolved or charged back.
pub open spec fn transition_allowed(current: TransactionType, incoming: TransactionType) -> bool {
    ||| incoming is Dispute && current is Withdrawal
    ||| incoming is Resolve && current is Dispute
    ||| incoming is Chargeback && current is Dispute
}

/// What an allowed transition on an entry of amount `x` does to `a`.
pub open spec fn dispute_effect(a: AccountStatus, incoming: TransactionType, x: Amount) -> AccountStatus {
    match incoming {
        TransactionType::Dispute => AccountStatus { held: Amount::from_units(a.held@ + x@), ..a },
        TransactionType::Resolve => AccountStatus {
            available: Amount::from_units(a.available@ + x@),
            held: Amount::from_units((a.held@ - x@) as nat),
            ..a
        },
        _ => AccountStatus { held: Amount::from_units((a.held@ - x@) as nat), locked: true, ..a },
    }
}

/// Whether that effect can be made: a dispute keeps the total within the
/// largest amount, and a resolve or a chargeback finds `x` held.
pub open spec fn effect_fits(a: AccountStatus, incoming: TransactionType, x: Amount) -> bool {
    match incoming {
        TransactionType::Dispute => a.spec_total() + x@ <= u64::MAX,
        _ => x@ <= a.held@,
    }
}

/// What referencing transaction `tx` with `incoming` does to `a`, or the
/// error it fails with.
pub open spec fn dispute_outcome(
    journal: Map<TransactionID, TransactionStatus>,
    tx: TransactionID,
    incoming: TransactionType,
    a: AccountStatus,
) -> Result<AccountStatus, Error> {
    if !journal.contains_key(tx) {
        Err(Error::TransactionNotFound(tx))
    } else if !transition_allowed(journal[tx].0, incoming) {
        Err(Error::OperationNotSupported(tx, Some(journal[tx].0), incoming))
    } else {
        Ok(dispute_effect(a, incoming, journal[tx].1))
    }
}

/// What processing `t` does to its client's status `a`, or the error it
/// fails with.
pub open spec fn outcome(
    journal: Map<TransactionID, TransactionStatus>,
    t: Transaction,
    a: AccountStatus,
) -> Result<AccountStatus, Error> {
    if a.locked {
        Err(Error::AccountLocked(t.tx, t.client))
    } else if t.kind is Deposit || t.kind is Withdrawal {
        register_outcome(journal, t, a)
    } else if journal.contains_key(t.tx) && transition_allowed(journal[t.tx].0, t.kind)
        && !effect_fits(a, t.kind, journal[t.tx].1) {
        if t.kind is Dispute {
            Err(Error::TooManyFunds(t.tx, t.client))
        } else {
            Err(Error::NotEnoughFunds(t.tx, t.client))
        }
    } else {
        dispute_outcome(journal, t.tx, t.kind, a)
    }
}

/// How processing `t` with success moves the journal: a registered
/// transaction is journaled after a rollout, a referencing one moves its entry
/// to the incoming state.
pub open spec fn journal_step(
    before: Map<TransactionID, TransactionStatus>,
    after: Map<TransactionID, TransactionStatus>,
    t: Transaction,
) -> bool {
    if t.kind is Deposit || t.kind is Withdrawal {
        &&& after.contains_key(t.tx)
        &&& after[t.tx] == TransactionStatus(t.kind, t.amount->Some_0)
        &&& rolled_out(
            before,
            after.remove(t.tx),
            ROLLOUT_TRANSACTION_THRESHOLD as nat,
            MAX_TRANSACTION_CAPACITY as nat,
        )
    } else {
        after == before.insert(t.tx, TransactionStatus(t.kind, before[t.tx].1))
    }
}

/// Every entry of `after` is an entry of `before` with the same amount, in
/// the same state or moved one allowed transition on, or the deposit or
/// withdrawal `t` newly journaled.
pub open spec fn entries_advance(
    before: Map<TransactionID, TransactionStatus>,
    after: Map<TransactionID, TransactionStatus>,
    t: Transaction,
) -> bool {
    forall|tx: TransactionID| #[trigger]
        after.contains_key(tx) ==> if before.contains_key(tx) {
            &&& after[tx].1 == before[tx].1
            &&& after[tx].0 == before[tx].0 || transition_allowed(before[tx].0, after[tx].0)
        } else {
            &&& tx == t.tx
            &&& after[tx].0 is Deposit || after[tx].0 is Withdrawal
        }
}

/// The status of the client after processing `t` on status `a`.
pub open spec fn status_after(
    journal: Map<TransactionID, TransactionStatus>,
    t: Transaction,
    a: AccountStatus,
) -> AccountStatus {
    match outcome(journal, t, a) {
        Ok(b) => b,
        Err(_) => a,
    }
}

/// The journal after processing the dispute, resolve or chargeback `t` on
/// status `a`.
pub open spec fn journal_after_reference(
    journal: Map<TransactionID, TransactionStatus>,
    t: Transaction,
    a: AccountStatus,
) -> Map<TransactionID, TransactionStatus> {
    if outcome(journal, t, a) is Ok {
        journal.insert(t.tx, TransactionStatus(t.kind, journal[t.tx].1))
    } else {
        journal
    }
}

/// Disputing a withdrawal that is not under dispute and then resolving it
/// gives back the held funds of before the dispute. Where the dispute is
/// taken, the available funds grow by the withdrawn amount (the withdrawal is
/// reversed); else they stay as they were.
pub proof fn lemma_dispute_resolve(
    journal: Map<TransactionID, TransactionStatus>,
    a: AccountStatus,
    dispute: Transaction,
    resolve: Transaction,
)
    requires
        a.wf(),
        dispute.kind is Dispute,
        resolve.kind is Resolve,
        resolve.tx == dispute.tx,
        resolve.client == dispute.client,
        journal.contains_key(dispute.tx),
        journal[dispute.tx].0 is Withdrawal,
    ensures
        ({
            let a1 = status_after(journal, dispute, a);
            let j1 = journal_after_reference(journal, dispute, a);
            let a2 = status_after(j1, resolve, a1);
            &&& a2.held@ == a.held@
            &&& a2.locked == a.locked
            &&& a2.available@ == if outcome(journal, dispute, a) is Ok {
                a.available@ + journal[dispute.tx].1@
            } else {
                a.available@
            }
        }),
{
    let x = journal[dispute.tx].1;
    if outcome(journal, dispute, a) is Ok {
        let a1 = status_after(journal, dispute, a);
        let j1 = journal_after_reference(journal, dispute, a);
        assert(a1.held@ == a.held@ + x@);
        assert(j1[dispute.tx] == TransactionStatus(TransactionType::Dispute, x));
        assert(effect_fits(a1, TransactionType::Resolve, x));
    }
}

/// Processing `t` with success moves each journal entry one allowed
/// transition at most, and journals nothing but `t` itself.
pub proof fn lemma_step_advances(
    before: Map<TransactionID, TransactionStatus>,
    after: Map<TransactionID, TransactionStatus>,
    t: Transaction,
    a: AccountStatus,
)
    requires
        outcome(before, t, a) is Ok,
        journal_step(before, after, t),
    ensures
        entries_advance(before, after, t),
{
    if t.kind is Deposit || t.kind is Withdrawal {
        let rolled = after.remove(t.tx);
        let p = pruned(before, ROLLOUT_TRANSACTION_THRESHOLD as nat);
        assert forall|tx: TransactionID| #[trigger] after.contains_key(tx) && tx != t.tx implies before.contains_key(tx) && after[tx] == before[tx] by {
            assert(rolled.contains_key(tx));
            assert(p.contains_key(tx));
        }
    }
}

/// A deposit of exactly the room left (the largest amount less the
/// available funds, with nothing held) is taken; one unit more fails with
/// `TooManyFunds` and leaves the account as it was.
pub proof fn lemma_deposit_boundary(
    journal: Map<TransactionID, TransactionStatus>,
    a: AccountStatus,
    t: Transaction,
)
    requires
        a.wf(),
        !a.locked,
        a.held@ == 0,
        t.kind is Deposit,
        t.amount is Some,
        !journal.contains_key(t.tx),
    ensures
        t.amount->Some_0@ == u64::MAX - a.available@ ==> (outcome(journal, t, a) matches Ok(b)
            && b.available@ == u64::MAX),
        t.amount->Some_0@ == u64::MAX - a.available@ + 1 ==> outcome(journal, t, a) == Err::<
            AccountStatus,
            Error,
        >(Error::TooManyFunds(t.tx, t.client)) && status_after(journal, t, a) == a,
{
}

/// A withdrawal of exactly the available funds is taken and leaves nothing
/// available; one unit more fails with `NotEnoughFunds`.
pub proof fn lemma_withdrawal_boundary(
    journal: Map<TransactionID, TransactionStatus>,
    a: AccountStatus,
    t: Transaction,
)
    requires
        a.wf(),
        !a.locked,
        t.kind is Withdrawal,
        t.amount is Some,
        !journal.contains_key(t.tx),
    ensures
        t.amount->Some_0@ == a.available@ ==> (outcome(journal, t, a) matches Ok(b)
            && b.available@ == 0),
        t.amount->Some_0@ == a.available@ + 1 ==> outcome(journal, t, a) == Err::<
            AccountStatus,
            Error,
        >(Error::NotEnoughFunds(t.tx, t.client)) && status_after(journal, t, a) == a,
{
}

/// At a rollout, a pruned journal of fewer than `max` entries is kept whole;
/// one of exactly `max` entries loses the entry with the smallest ID, and
/// that one alone.
pub proof fn lemma_rollout_boundary(
    before: Map<TransactionID, TransactionStatus>,
    after: Map<TransactionID, TransactionStatus>,
    threshold: nat,
    max: nat,
)
    requires
        rolled_out(before, after, threshold, max),
        max > 0,
        before.dom().finite(),
    ensures
        pruned(before, threshold).len() < max ==> after == pruned(before, threshold),
        pruned(before, threshold).len() == max ==> exists|m: TransactionID|
            {
                &&& #[trigger] pruned(before, threshold).contains_key(m)
                &&& forall|k: TransactionID|
                    pruned(before, threshold).contains_key(k) ==> m <= k
                &&& after == pruned(before, threshold).remove(m)
            },
{
    let p = pruned(before, threshold);
    assert(p.dom().subset_of(before.dom()));
    vstd::set_lib::lemma_len_subset(p.dom(), before.dom());
    assert(after.dom().subset_of(p.dom()));
    vstd::set_lib::lemma_len_subset(after.dom(), p.dom());
    if p.len() < max {
        vstd::set_lib::lemma_subset_equality(after.dom(), p.dom());
        assert(after =~= p);
    }
    if p.len() == max {
        assert(exists|m: TransactionID| p.contains_key(m) && !after.contains_key(m)) by {
            if forall|m: TransactionID| p.contains_key(m) ==> after.contains_key(m) {
                assert(p.dom() =~= after.dom());
            }
        }
        let m = choose|m: TransactionID| p.contains_key(m) && !after.contains_key(m);
        assert(after.dom().subset_of(p.dom().remove(m)));
        vstd::set_lib::lemma_subset_equality(after.dom(), p.dom().remove(m));
        assert(after =~= p.remove(m));
        assert forall|k: TransactionID| p.contains_key(k) implies m <= k by {
            if k != m {
                assert(after.contains_key(k));
            }
        }
    }
}

/// The keys of a map, each once.
fn keys_of<K: Copy + Eq + Hash, V>(m: &HashMap<K, V>) -> (r: Vec<K>)
    requires
        obeys_key_model::<K>(),
    ensures
        r@.to_set() == m@.dom(),
        r@.no_duplicates(),
        r@.len() == m@.len(),
{
    let mut out: Vec<K> = Vec::new();
    let ghost all = m.keys().remaining().unref();
    for k in it: m.keys()
        invariant
            out@ == it.seq().unref().take(it.index() as int),
            it.seq().unref().to_set() == m@.dom(),
            it.seq().unref().no_duplicates(),
            all == it.seq().unref(),
            out@.len() <= all.len(),
    {
        assert(it.seq().unref().take(it.index() + 1) == it.seq().unref().take(
            it.index() as int,
        ).push(*k));
        out.push(*k);
    }
    assert(out@ == all);
    proof {
        all.unique_seq_to_set();
    }
    out
}

/// The smallest key of a non-empty journal.
fn min_key(m: &Journal) -> (r: TransactionID)
    requires
        m@.len() > 0,
    ensures
        m@.contains_key(r),
        forall|k: TransactionID| m@.contains_key(k) ==> r <= k,
{
    let keys = keys_of(m);
    assert(keys@.contains(keys@[0]));
    let mut best = keys[0];
    let mut i: usize = 1;
    while i < keys.len()
        invariant
            1 <= i <= keys@.len(),
            keys@.to_set() == m@.dom(),
            keys@.contains(best),
            forall|j: int| 0 <= j < i ==> best <= keys@[j],
        decreases keys.len() - i,
    {
        if keys[i] < best {
            best = keys[i];
        }
        i = i + 1;
    }
    assert forall|k: TransactionID| m@.contains_key(k) implies best <= k by {
        assert(keys@.to_set().contains(k));
        let j = keys@.index_of(k);
    }
    assert(keys@.to_set().contains(best));
    best
}

/// A transaction processor.
#[derive(Debug)]
pub struct Processor {
    accounts: HashMap<ClientID, AccountStatus>,
    transactions: Journal,
}

impl Processor {
    /// Registers a deposit or a withdrawal: checks it against the journal and
    /// the account, applies it to the account, then journals it after a
    /// rollout. On an error neither the journal nor the account changes.
    pub fn register_transaction(
        transactions: &mut Journal,
        transaction: Transaction,
        account_status: &mut AccountStatus,
    ) -> (r: Result<(), Error>)
        requires
            old(account_status).wf(),
        ensures
            match register_outcome(old(transactions)@, transaction, *old(account_status)) {
                Ok(a) => {
                    &&& r is Ok
                    &&& *final(account_status) == a
                    &&& final(transactions)@.contains_key(transaction.tx)
                    &&& final(transactions)@[transaction.tx] == TransactionStatus(
                        transaction.kind,
                        transaction.amount->Some_0,
                    )
                    &&& rolled_out(
                        old(transactions)@,
                        final(transactions)@.remove(transaction.tx),
                        ROLLOUT_TRANSACTION_THRESHOLD as nat,
                        MAX_TRANSACTION_CAPACITY as nat,
                    )
                },
                Err(e) => {
                    &&& r == Err::<(), Error>(e)
                    &&& *final(account_status) == *old(account_status)
                    &&& final(transactions)@ == old(transactions)@
                },
            },
            old(transactions)@.len() <= MAX_TRANSACTION_CAPACITY ==> final(transactions)@.len()
                <= MAX_TRANSACTION_CAPACITY,
    {
        if transactions.contains_key(&transaction.tx) {
            return Err(Error::TransactionAlreadyExists(transaction.tx));
        }
        let ghost before = *account_status;
        let amount = match transaction.kind {
            TransactionType::Deposit => {
                let amount = match transaction.amount {
                    Some(amount) => amount,
                    None => {
                        return Err(Error::MissingAmount(transaction.tx));
                    },
                };
                if account_status.total().checked_add(amount).is_none() {
                    return Err(Error::TooManyFunds(transaction.tx, transaction.client));
                }
                account_status.credit(amount);
                proof {
                    crate::num::lemma_decimal_ext(
                        account_status.available,
                        Amount::from_units(before.available@ + amount@),
                    );
                }
                amount
            },
            TransactionType::Withdrawal => {
                let amount = match transaction.amount {
                    Some(amount) => amount,
                    None => {
                        return Err(Error::MissingAmount(transaction.tx));
                    },
                };
                if account_status.available.checked_sub(amount).is_none() {
                    return Err(Error::NotEnoughFunds(transaction.tx, transaction.client));
                }
                account_status.debit(amount);
                proof {
                    crate::num::lemma_decimal_ext(
                        account_status.available,
                        Amount::from_units((before.available@ - amount@) as nat),
                    );
                }
                amount
            },
            t => {
                return Err(Error::OperationNotSupported(transaction.tx, None, t));
            },
        };
        let ghost journal = transactions@;
        Self::rollout_transactions(
            transactions,
            ROLLOUT_TRANSACTION_THRESHOLD,
            MAX_TRANSACTION_CAPACITY,
        );
        let ghost rolled = transactions@;
        assert(!rolled.contains_key(transaction.tx)) by {
            if rolled.contains_key(transaction.tx) {
                assert(pruned(journal, ROLLOUT_TRANSACTION_THRESHOLD as nat).contains_key(
                    transaction.tx,
                ));
            }
        }
        transactions.insert(transaction.tx, TransactionStatus(transaction.kind, amount));
        assert(transactions@.remove(transaction.tx) =~= rolled);
        Ok(())
    }

    /// Moves the journal entry of `transaction_id` along a dispute: a
    /// withdrawal is disputed (its amount held), a dispute resolved (the
    /// amount released) or charged back (the amount dropped, the account
    /// locked). On an error neither the journal nor the account changes.
    pub fn dispute_transaction(
        transactions: &mut Journal,
        transaction_id: TransactionID,
        transaction_type: TransactionType,
        account_status: &mut AccountStatus,
    ) -> (r: Result<(), Error>)
        requires
            old(account_status).wf(),
            old(transactions)@.contains_key(transaction_id) && transition_allowed(
                old(transactions)@[transaction_id].0,
                transaction_type,
            ) ==> effect_fits(
                *old(account_status),
                transaction_type,
                old(transactions)@[transaction_id].1,
            ),
        ensures
            match dispute_outcome(
                old(transactions)@,
                transaction_id,
                transaction_type,
                *old(account_status),
            ) {
                Ok(a) => {
                    &&& r is Ok
                    &&& *final(account_status) == a
                    &&& final(transactions)@ == old(transactions)@.insert(
                        transaction_id,
                        TransactionStatus(transaction_type, old(transactions)@[transaction_id].1),
                    )
                },
                Err(e) => {
                    &&& r == Err::<(), Error>(e)
                    &&& *final(account_status) == *old(account_status)
                    &&& final(transactions)@ == old(transactions)@
                },
            },
            final(transactions)@.len() == old(transactions)@.len(),
            r is Ok ==> {
                &&& old(transactions)@.contains_key(transaction_id)
                &&& transition_allowed(old(transactions)@[transaction_id].0, transaction_type)
                &&& final(transactions)@ == old(transactions)@.insert(
                    transaction_id,
                    TransactionStatus(transaction_type, old(transactions)@[transaction_id].1),
                )
            },
            r is Err ==> final(transactions)@ == old(transactions)@,
    {
        let status = match transactions.get(&transaction_id) {
            Some(status) => *status,
            None => {
                return Err(Error::TransactionNotFound(transaction_id));
            },
        };
        let ghost before = *account_status;
        let TransactionStatus(current, amount) = status;
        match (transaction_type, current) {
            (TransactionType::Dispute, TransactionType::Withdrawal) => {
                account_status.hold(amount);
                proof {
                    crate::num::lemma_decimal_ext(
                        account_status.held,
                        Amount::from_units(before.held@ + amount@),
                    );
                }
            },
            (TransactionType::Resolve, TransactionType::Dispute) => {
                account_status.release(amount);
                proof {
                    crate::num::lemma_decimal_ext(
                        account_status.held,
                        Amount::from_units((before.held@ - amount@) as nat),
                    );
                    crate::num::lemma_decimal_ext(
                        account_status.available,
                        Amount::from_units(before.available@ + amount@),
                    );
                }
            },
            (TransactionType::Chargeback, TransactionType::Dispute) => {
                account_status.lock(amount);
                proof {
                    crate::num::lemma_decimal_ext(
                        account_status.held,
                        Amount::from_units((before.held@ - amount@) as nat),
                    );
                }
            },
            _ => {
                return Err(Error::OperationNotSupported(transaction_id, Some(current), transaction_type));
            },
        }
        transactions.insert(transaction_id, TransactionStatus(transaction_type, amount));
        Ok(())
    }
    /// Makes room for incoming transactions, rolling out old ones.
    ///
    /// Once it holds at least `rollout_threshold` entries, the journal
    /// drops its ended disputes; then, while it holds `max_capacity` entries
    /// or more, it drops the entry with the smallest ID. Room is then left
    /// for at least one more entry.
    pub fn rollout_transactions(
        transactions: &mut Journal,
        rollout_threshold: usize,
        max_capacity: usize,
    )
        requires
            max_capacity > 0,
        ensures
            rolled_out(
                old(transactions)@,
                final(transactions)@,
                rollout_threshold as nat,
                max_capacity as nat,
            ),
            final(transactions)@.len() < max_capacity,
    {
        let ghost before = transactions@;
        let ghost p = pruned(before, rollout_threshold as nat);
        if transactions.len() >= rollout_threshold {
            let keys = keys_of(transactions);
            let mut i: usize = 0;
            while i < keys.len()
                invariant
                    i <= keys@.len(),
                    keys@.to_set() == before.dom(),
                    keys@.no_duplicates(),
                    forall|k: TransactionID| #[trigger]
                        transactions@.contains_key(k) <==> before.contains_key(k) && !(
                        keys@.take(i as int).contains(k) && is_terminal(before[k].0)),
                    forall|k: TransactionID| #[trigger]
                        transactions@.contains_key(k) ==> transactions@[k] == before[k],
                decreases keys.len() - i,
            {
                let k = keys[i];
                assert(keys@.take(i + 1) == keys@.take(i as int).push(k));
                assert(!keys@.take(i as int).contains(k)) by {
                    if keys@.take(i as int).contains(k) {
                        let j = choose|j: int| 0 <= j < i && keys@[j] == k;
                        assert(keys@[j] == keys@[i as int]);
                    }
                }
                assert(keys@.to_set().contains(k));
                let ghost prev = transactions@;
                match transactions.get(&k) {
                    Some(status) => {
                        if matches!(status.0, TransactionType::Resolve | TransactionType::Chargeback) {
                            transactions.remove(&k);
                        }
                    },
                    None => {},
                }
                assert forall|x: TransactionID| #[trigger]
                    transactions@.contains_key(x) <==> before.contains_key(x) && !(keys@.take(
                        i + 1,
                    ).contains(x) && is_terminal(before[x].0)) by {
                    assert(keys@.take(i + 1).contains(x) <==> (keys@.take(i as int).contains(x)
                        || x == k)) by {
                        if x == k {
                            assert(keys@.take(i + 1)[i as int] == k);
                        }
                        if keys@.take(i + 1).contains(x) && x != k {
                            let j = choose|j: int| 0 <= j < i + 1 && #[trigger] keys@.take(i + 1)[j] == x;
                            assert(keys@.take(i as int)[j] == x);
                        }
                    }
                }
                i = i + 1;
            }
            assert(transactions@ =~= p) by {
                assert(keys@.take(keys@.len() as int) == keys@);
                assert forall|k: TransactionID| before.contains_key(k) implies keys@.contains(k) by {
                    assert(keys@.to_set().contains(k));
                }
            }
        }
        assert(transactions@ == p);
        while transactions.len() >= max_capacity
            invariant
                max_capacity > 0,
                transactions@.submap_of(p),
                p.len() >= max_capacity ==> transactions@.len() >= max_capacity - 1,
                p.len() < max_capacity ==> transactions@ == p,
                forall|d: TransactionID, k: TransactionID|
                    p.contains_key(d) && !transactions@.contains_key(d)
                        && transactions@.contains_key(k) ==> d < k,
            decreases transactions@.len(),
        {
            let k = min_key(transactions);
            let ghost prev = transactions@;
            transactions.remove(&k);
            assert(transactions@.len() == prev.len() - 1);
        }
    }
}

impl Processor {
    /// The status of each client seen.
    pub closed spec fn accounts(self) -> Map<ClientID, AccountStatus> {
        self.accounts@
    }

    /// The journal of disputable transactions.
    pub closed spec fn journal(self) -> Map<TransactionID, TransactionStatus> {
        self.transactions@
    }

    /// Every account keeps its total within the largest amount, and the
    /// journal within its capacity.
    pub open spec fn wf(self) -> bool {
        &&& forall|c: ClientID| #[trigger]
            self.accounts().contains_key(c) ==> self.accounts()[c].wf()
        &&& self.journal().len() <= MAX_TRANSACTION_CAPACITY
    }

    /// Whether a transition on an entry can be made on `account` (vacuously
    /// where the transition is not allowed).
    fn check_effect(status: TransactionStatus, incoming: TransactionType, account: &AccountStatus) -> (r:
        bool)
        requires
            account.wf(),
        ensures
            r == (transition_allowed(status.0, incoming) ==> effect_fits(*account, incoming, status.1)),
    {
        match (incoming, status.0) {
            (TransactionType::Dispute, TransactionType::Withdrawal) => account.total().checked_add(
                status.1,
            ).is_some(),
            (TransactionType::Resolve, TransactionType::Dispute) | (
                TransactionType::Chargeback,
                TransactionType::Dispute,
            ) => account.held.checked_sub(status.1).is_some(),
            _ => true,
        }
    }

    /// Processes a single transaction.
    ///
    /// The client's account is created on first mention, whatever comes of
    /// the transaction. A locked account takes no transaction. A deposit or a
    /// withdrawal is registered; a dispute, a resolve or a chargeback moves
    /// the journal entry it references. On an error nothing else changes.
    pub fn process_transaction(&mut self, transaction: Transaction) -> (r: Result<(), Error>)
        requires
            old(self).wf(),
        ensures
            final(self).wf(),
            match outcome(
                old(self).journal(),
                transaction,
                account_of(old(self).accounts(), transaction.client),
            ) {
                Ok(a) => {
                    &&& r is Ok
                    &&& final(self).accounts() == old(self).accounts().insert(transaction.client, a)
                    &&& journal_step(old(self).journal(), final(self).journal(), transaction)
                },
                Err(e) => {
                    &&& r == Err::<(), Error>(e)
                    &&& final(self).accounts() == old(self).accounts().insert(
                        transaction.client,
                        account_of(old(self).accounts(), transaction.client),
                    )
                    &&& final(self).journal() == old(self).journal()
                },
            },
            forall|c: ClientID| #[trigger]
                old(self).accounts().contains_key(c) && old(self).accounts()[c].locked
                    ==> final(self).accounts().contains_key(c) && final(self).accounts()[c]
                    == old(self).accounts()[c],
            entries_advance(old(self).journal(), final(self).journal(), transaction),
    {
        let mut account = match self.accounts.get(&transaction.client) {
            Some(status) => *status,
            None => AccountStatus::default(),
        };
        let r = if account.locked {
            Err(Error::AccountLocked(transaction.tx, transaction.client))
        } else {
            match transaction.kind {
                TransactionType::Deposit | TransactionType::Withdrawal => {
                    Self::register_transaction(&mut self.transactions, transaction, &mut account)
                },
                t => {
                    let fits = match self.transactions.get(&transaction.tx) {
                        Some(status) => Self::check_effect(*status, t, &account),
                        None => true,
                    };
                    if !fits {
                        if matches!(t, TransactionType::Dispute) {
                            Err(Error::TooManyFunds(transaction.tx, transaction.client))
                        } else {
                            Err(Error::NotEnoughFunds(transaction.tx, transaction.client))
                        }
                    } else {
                        Self::dispute_transaction(&mut self.transactions, transaction.tx, t, &mut account)
                    }
                },
            }
        };
        self.accounts.insert(transaction.client, account);
        proof {
            if r is Ok {
                lemma_step_advances(old(self).journal(), self.journal(), transaction, account_of(old(self).accounts(), transaction.client));
            }
        }
        r
    }

    /// The current status of `client`, if it was seen.
    pub fn account(&self, client: ClientID) -> (r: Option<AccountStatus>)
        ensures
            r == if self.accounts().contains_key(client) {
                Some(self.accounts()[client])
            } else {
                None
            },
    {
        match self.accounts.get(&client) {
            Some(status) => Some(*status),
            None => None,
        }
    }

    /// The final account of each client seen, each once, in no given order.
    pub fn into_accounts(self) -> (r: Vec<Account>)
        requires
            self.wf(),
        ensures
            r@.len() == self.accounts().len(),
            forall|i: int| #![trigger r@[i]]
                0 <= i < r@.len() ==> self.accounts().contains_key(r@[i]@.0)
                    && self.accounts()[r@[i]@.0] == r@[i]@.1,
            forall|i: int, j: int|
                0 <= i < j < r@.len() ==> #[trigger] r@[i]@.0 != #[trigger] r@[j]@.0,
            forall|c: ClientID| #[trigger]
                self.accounts().contains_key(c) ==> exists|i: int|
                    0 <= i < r@.len() && #[trigger] r@[i]@.0 == c,
    {
        let keys = keys_of(&self.accounts);
        let mut out: Vec<Account> = Vec::new();
        let mut i: usize = 0;
        while i < keys.len()
            invariant
                self.wf(),
                i <= keys@.len(),
                keys@.to_set() == self.accounts@.dom(),
                keys@.no_duplicates(),
                keys@.len() == self.accounts@.len(),
                out@.len() == i,
                forall|j: int| #![trigger out@[j]]
                    0 <= j < i ==> out@[j]@ == (keys@[j], self.accounts@[keys@[j]]),
            decreases keys.len() - i,
        {
            let c = keys[i];
            assert(keys@.to_set().contains(c));
            assert(self.accounts().contains_key(c));
            match self.accounts.get(&c) {
                Some(status) => {
                    out.push(Account::new(c, *status));
                },
                None => {},
            }
            i = i + 1;
        }
        assert forall|c: ClientID| #[trigger]
            self.accounts().contains_key(c) implies exists|i: int|
                0 <= i < out@.len() && #[trigger] out@[i]@.0 == c by {
            assert(keys@.to_set().contains(c));
            let j = keys@.index_of(c);
            assert(out@[j]@.0 == c);
        }
        assert forall|i: int| #![trigger out@[i]] 0 <= i < out@.len() implies self.accounts().contains_key(out@[i]@.0) by {
            assert(keys@.to_set().contains(keys@[i]));
        }
        out
    }
}

impl Default for Processor {
    fn default() -> (r: Self)
        ensures
            r.wf(),
            r.accounts() == Map::<ClientID, AccountStatus>::empty(),
            r.journal() == Map::<TransactionID, TransactionStatus>::empty(),
    {
        Processor {
            accounts: HashMap::new(),
            transactions: HashMap::with_capacity(DEFAULT_TRANSACTION_CAPACITY),
        }
    }
}

} // verus!
