//! Payment transactions: a fixed-precision decimal amount type, per-client
//! account balances and the dispute state machine that moves them.
use vstd::prelude::*;

pub mod num;
pub mod process;

pub use process::Processor;

use num::Decimal;

verus! {

broadcast use num::group_decimal;

/// Decimal precision used for transaction amounts.
pub const PREC: u8 = 4;

/// A client ID.
pub type ClientID = u16;

/// A transaction ID.
pub type TransactionID = u32;

/// A transaction amount.
pub type Amount = Decimal<PREC>;

/// A transaction type.
#[derive(Clone, Copy, Debug, PartialEq, Eq, Structural)]
pub enum TransactionType {
    Deposit,
    Withdrawal,
    Dispute,
    Resolve,
    Chargeback,
}

/// Whether `s` is spelled like `lower`, each letter either as in `lower` or
/// as in `upper`.
pub open spec fn eq_ignore_case(s: Seq<char>, lower: Seq<char>, upper: Seq<char>) -> bool {
    &&& s.len() == lower.len()
    &&& forall|i: int| 0 <= i < s.len() ==> (s[i] == lower[i] || s[i] == upper[i])
}

/// The transaction type that `s` names, each letter in either case.
pub open spec fn type_of_name(s: Seq<char>) -> Option<TransactionType> {
    if eq_ignore_case(s, seq!['d', 'e', 'p', 'o', 's', 'i', 't'], seq!['D', 'E', 'P', 'O', 'S', 'I', 'T']) {
        Some(TransactionType::Deposit)
    } else if eq_ignore_case(s, seq!['w', 'i', 't', 'h', 'd', 'r', 'a', 'w', 'a', 'l'], seq!['W', 'I', 'T', 'H', 'D', 'R', 'A', 'W', 'A', 'L']) {
        Some(TransactionType::Withdrawal)
    } else if eq_ignore_case(s, seq!['d', 'i', 's', 'p', 'u', 't', 'e'], seq!['D', 'I', 'S', 'P', 'U', 'T', 'E']) {
        Some(TransactionType::Dispute)
    } else if eq_ignore_case(s, seq!['r', 'e', 's', 'o', 'l', 'v', 'e'], seq!['R', 'E', 'S', 'O', 'L', 'V', 'E']) {
        Some(TransactionType::Resolve)
    } else if eq_ignore_case(s, seq!['c', 'h', 'a', 'r', 'g', 'e', 'b', 'a', 'c', 'k'], seq!['C', 'H', 'A', 'R', 'G', 'E', 'B', 'A', 'C', 'K']) {
        Some(TransactionType::Chargeback)
    } else {
        None
    }
}

/// Whether `c` is spelled like `lower`, each letter either as in `lower` or
/// as in `upper`.
fn matches_name(c: &Vec<char>, lower: &[char], upper: &[char]) -> (r: bool)
    requires
        lower@.len() == upper@.len(),
    ensures
        r == eq_ignore_case(c@, lower@, upper@),
{
    if c.len() != lower.len() {
        return false;
    }
    let mut i: usize = 0;
    while i < c.len()
        invariant
            i <= c@.len() == lower@.len() == upper@.len(),
            forall|j: int| 0 <= j < i ==> (c@[j] == lower@[j] || c@[j] == upper@[j]),
        decreases c.len() - i,
    {
        if !(c[i] == lower[i] || c[i] == upper[i]) {
            return false;
        }
        i = i + 1;
    }
    true
}

impl TransactionType {
    /// The transaction type named `name`, whatever the case of its letters:
    /// `deposit`, `withdrawal`, `dispute`, `resolve` or `chargeback`.
    pub fn from_name(name: &str) -> (r: Option<TransactionType>)
        ensures
            r == type_of_name(name@),
    {
        let c = num::chars_of(name);
        let deposit = ['d', 'e', 'p', 'o', 's', 'i', 't'];
        let deposit_upper = ['D', 'E', 'P', 'O', 'S', 'I', 'T'];
        let withdrawal = ['w', 'i', 't', 'h', 'd', 'r', 'a', 'w', 'a', 'l'];
        let withdrawal_upper = ['W', 'I', 'T', 'H', 'D', 'R', 'A', 'W', 'A', 'L'];
        let dispute = ['d', 'i', 's', 'p', 'u', 't', 'e'];
        let dispute_upper = ['D', 'I', 'S', 'P', 'U', 'T', 'E'];
        let resolve = ['r', 'e', 's', 'o', 'l', 'v', 'e'];
        let resolve_upper = ['R', 'E', 'S', 'O', 'L', 'V', 'E'];
        let chargeback = ['c', 'h', 'a', 'r', 'g', 'e', 'b', 'a', 'c', 'k'];
        let chargeback_upper = ['C', 'H', 'A', 'R', 'G', 'E', 'B', 'A', 'C', 'K'];
        assert(deposit@ =~= seq!['d', 'e', 'p', 'o', 's', 'i', 't']);
        assert(deposit_upper@ =~= seq!['D', 'E', 'P', 'O', 'S', 'I', 'T']);
        assert(withdrawal@ =~= seq!['w', 'i', 't', 'h', 'd', 'r', 'a', 'w', 'a', 'l']);
        assert(withdrawal_upper@ =~= seq!['W', 'I', 'T', 'H', 'D', 'R', 'A', 'W', 'A', 'L']);
        assert(dispute@ =~= seq!['d', 'i', 's', 'p', 'u', 't', 'e']);
        assert(dispute_upper@ =~= seq!['D', 'I', 'S', 'P', 'U', 'T', 'E']);
        assert(resolve@ =~= seq!['r', 'e', 's', 'o', 'l', 'v', 'e']);
        assert(resolve_upper@ =~= seq!['R', 'E', 'S', 'O', 'L', 'V', 'E']);
        assert(chargeback@ =~= seq!['c', 'h', 'a', 'r', 'g', 'e', 'b', 'a', 'c', 'k']);
        assert(chargeback_upper@ =~= seq!['C', 'H', 'A', 'R', 'G', 'E', 'B', 'A', 'C', 'K']);
        if matches_name(&c, &deposit, &deposit_upper) {
            Some(TransactionType::Deposit)
        } else if matches_name(&c, &withdrawal, &withdrawal_upper) {
            Some(TransactionType::Withdrawal)
        } else if matches_name(&c, &dispute, &dispute_upper) {
            Some(TransactionType::Dispute)
        } else if matches_name(&c, &resolve, &resolve_upper) {
            Some(TransactionType::Resolve)
        } else if matches_name(&c, &chargeback, &chargeback_upper) {
            Some(TransactionType::Chargeback)
        } else {
            None
        }
    }
}

/// A transaction.
#[derive(Clone, Copy, Debug)]
pub struct Transaction {
    pub kind: TransactionType,
    pub client: ClientID,
    pub tx: TransactionID,
    pub amount: Option<Amount>,
}

impl Transaction {
    /// Creates a new transaction for the default client.
    pub fn new(kind: TransactionType, tx: TransactionID, amount: Option<Amount>) -> (r: Self)
        ensures
            r.kind == kind,
            r.client == 0,
            r.tx == tx,
            r.amount == amount,
    {
        Transaction { kind, client: 0, tx, amount }
    }

    /// This transaction, for the given client.
    pub fn with_client(self, client: ClientID) -> (r: Self)
        ensures
            r.kind == self.kind,
            r.client == client,
            r.tx == self.tx,
            r.amount == self.amount,
    {
        Transaction { client, ..self }
    }

    /// A `Deposit` transaction.
    pub fn deposit(tx: TransactionID, amount: Amount) -> (r: Self)
        ensures
            r == (Transaction { kind: TransactionType::Deposit, client: 0, tx, amount: Some(amount) }),
    {
        Self::new(TransactionType::Deposit, tx, Some(amount))
    }

    /// A `Withdrawal` transaction.
    pub fn withdrawal(tx: TransactionID, amount: Amount) -> (r: Self)
        ensures
            r == (Transaction { kind: TransactionType::Withdrawal, client: 0, tx, amount: Some(amount) }),
    {
        Self::new(TransactionType::Withdrawal, tx, Some(amount))
    }

    /// A `Dispute` transaction.
    pub fn dispute(tx: TransactionID) -> (r: Self)
        ensures
            r == (Transaction { kind: TransactionType::Dispute, client: 0, tx, amount: None }),
    {
        Self::new(TransactionType::Dispute, tx, None)
    }

    /// A `Resolve` transaction.
    pub fn resolve(tx: TransactionID) -> (r: Self)
        ensures
            r == (Transaction { kind: TransactionType::Resolve, client: 0, tx, amount: None }),
    {
        Self::new(TransactionType::Resolve, tx, None)
    }

    /// A `Chargeback` transaction.
    pub fn chargeback(tx: TransactionID) -> (r: Self)
        ensures
            r == (Transaction { kind: TransactionType::Chargeback, client: 0, tx, amount: None }),
    {
        Self::new(TransactionType::Chargeback, tx, None)
    }
}

/// A client's account status.
#[derive(Clone, Copy, Debug)]
pub struct AccountStatus {
    /// Available funds for this account.
    pub available: Amount,
    /// Held funds for this account, ie. disputed amounts.
    pub held: Amount,
    /// An account is locked (frozen) once a transaction has been charged back.
    pub locked: bool,
}

impl AccountStatus {
    /// The total of available and held funds fits an amount.
    pub open spec fn wf(self) -> bool {
        self.available@ + self.held@ <= u64::MAX
    }

    /// The total funds, in units.
    pub open spec fn spec_total(self) -> nat {
        self.available@ + self.held@
    }

    /// A new account: no funds, unlocked.
    pub open spec fn spec_default() -> Self {
        AccountStatus { available: Amount::from_units(0), held: Amount::from_units(0), locked: false }
    }

    /// Sets held funds for this account status.
    pub fn held(self, held: Amount) -> (r: Self)
        ensures
            r == (AccountStatus { held, ..self }),
    {
        AccountStatus { held, ..self }
    }

    /// Sets this account status as locked.
    pub fn locked(self) -> (r: Self)
        ensures
            r == (AccountStatus { locked: true, ..self }),
    {
        AccountStatus { locked: true, ..self }
    }

    /// Computes total funds for this account status.
    pub fn total(&self) -> (r: Amount)
        requires
            self.wf(),
        ensures
            r@ == self.spec_total(),
    {
        self.available + self.held
    }

    /// Adds `a` to the available funds.
    pub fn credit(&mut self, a: Amount)
        requires
            old(self).available@ + a@ <= u64::MAX,
        ensures
            final(self).available@ == old(self).available@ + a@,
            final(self).held == old(self).held,
            final(self).locked == old(self).locked,
    {
        self.available = self.available + a;
    }

    /// Takes `a` from the available funds.
    pub fn debit(&mut self, a: Amount)
        requires
            a@ <= old(self).available@,
        ensures
            final(self).available@ == old(self).available@ - a@,
            final(self).held == old(self).held,
            final(self).locked == old(self).locked,
    {
        self.available = self.available - a;
    }

    /// Holds `a` more; available funds are left as they are.
    pub fn hold(&mut self, a: Amount)
        requires
            old(self).held@ + a@ <= u64::MAX,
        ensures
            final(self).held@ == old(self).held@ + a@,
            final(self).available == old(self).available,
            final(self).locked == old(self).locked,
    {
        self.held = self.held + a;
    }

    /// Moves `a` from held back to available funds.
    pub fn release(&mut self, a: Amount)
        requires
            a@ <= old(self).held@,
            old(self).available@ + a@ <= u64::MAX,
        ensures
            final(self).available@ == old(self).available@ + a@,
            final(self).held@ == old(self).held@ - a@,
            final(self).locked == old(self).locked,
    {
        self.available = self.available + a;
        self.held = self.held - a;
    }

    /// Drops `a` from held funds and locks the account.
    pub fn lock(&mut self, a: Amount)
        requires
            a@ <= old(self).held@,
        ensures
            final(self).held@ == old(self).held@ - a@,
            final(self).available == old(self).available,
            final(self).locked,
    {
        self.held = self.held - a;
        self.locked = true;
    }
}

impl Default for AccountStatus {
    fn default() -> (r: Self)
        ensures
            r == AccountStatus::spec_default(),
    {
        let zero = Amount::min_value();
        proof {
            num::lemma_decimal_ext(zero, Amount::from_units(0));
        }
        AccountStatus { available: zero, held: zero, locked: false }
    }
}

impl PartialEq for AccountStatus {
    fn eq(&self, o: &Self) -> (r: bool) {
        self.available == o.available && self.held == o.held && self.locked == o.locked
    }
}

impl vstd::std_specs::cmp::PartialEqSpecImpl for AccountStatus {
    open spec fn obeys_eq_spec() -> bool {
        true
    }

    open spec fn eq_spec(&self, o: &Self) -> bool {
        &&& self.available@ == o.available@
        &&& self.held@ == o.held@
        &&& self.locked == o.locked
    }
}

impl Eq for AccountStatus {

}

impl From<Amount> for AccountStatus {
    /// A new account status with available funds.
    fn from(available: Amount) -> (r: Self) {
        let held = Amount::min_value();
        proof {
            num::lemma_decimal_ext(held, Amount::from_units(0));
        }
        AccountStatus { available, held, locked: false }
    }
}

impl vstd::std_specs::convert::FromSpecImpl<Amount> for AccountStatus {
    open spec fn obeys_from_spec() -> bool {
        true
    }

    open spec fn from_spec(available: Amount) -> Self {
        AccountStatus { available, held: Amount::from_units(0), locked: false }
    }
}

/// A client's account: its ID and a well-formed status.
#[derive(Clone, Copy, Debug)]
pub struct Account {
    client: ClientID,
    status: AccountStatus,
}

impl View for Account {
    type V = (ClientID, AccountStatus);

    closed spec fn view(&self) -> (ClientID, AccountStatus) {
        (self.client, self.status)
    }
}

impl Account {
    #[verifier::type_invariant]
    spec fn inv(self) -> bool {
        self.status.wf()
    }

    /// The account of `client` with the given status.
    pub fn new(client: ClientID, status: AccountStatus) -> (r: Self)
        requires
            status.wf(),
        ensures
            r@ == (client, status),
    {
        Account { client, status }
    }

    /// The client of this account.
    pub fn client(&self) -> (r: ClientID)
        ensures
            r == self@.0,
    {
        self.client
    }

    /// The status of this account.
    pub fn status(&self) -> (r: AccountStatus)
        ensures
            r == self@.1,
            r.wf(),
    {
        proof {
            use_type_invariant(self);
        }
        self.status
    }
}

/// A client's account as it is written out, total included.
#[derive(Clone, Copy, Debug)]
pub struct AccountRecord {
    pub client: ClientID,
    pub available: Amount,
    pub held: Amount,
    pub total: Amount,
    pub locked: bool,
}

impl From<Account> for AccountRecord {
    fn from(account: Account) -> (r: Self) {
        let status = account.status();
        let total = status.total();
        proof {
            num::lemma_decimal_ext(total, Amount::from_units(status.spec_total()));
        }
        AccountRecord {
            client: account.client(),
            available: status.available,
            held: status.held,
            total,
            locked: status.locked,
        }
    }
}

impl vstd::std_specs::convert::FromSpecImpl<Account> for AccountRecord {
    open spec fn obeys_from_spec() -> bool {
        true
    }

    open spec fn from_spec(account: Account) -> Self {
        AccountRecord {
            client: account@.0,
            available: account@.1.available,
            held: account@.1.held,
            total: Amount::from_units(account@.1.spec_total()),
            locked: account@.1.locked,
        }
    }
}

} // verus!
