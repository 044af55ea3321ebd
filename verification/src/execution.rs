//! Executing transactions against an overlay of changed accounts: the
//! checks every transaction passes, a complete transfer, the settlement of
//! a deployment or call once the contract runtime has run it, and the
//! summary of a block executed in order.
use vstd::prelude::*;
use vstd::string::StringExecFns;
use crate::hashing::{Address, copy_bytes};
use crate::parallel_schedule::{deploy_address, compute_deploy_address};
use crate::kv::{keys_distinct, kv_has, kv_map, lemma_kv_set, lemma_kv_push, find_address_key};
use crate::transaction::{Transaction, TxPayload, tx_valid_basic, tx_hash_spec};

verus! {

/// The part of an account that execution reads and writes.
#[derive(Debug, Clone, Copy, PartialEq, Eq, Structural)]
pub struct Account {
    pub balance: u64,
    pub nonce: u64,
}

impl Account {
    /// An account with the given balance and nonce.
    pub fn new(balance: u64, nonce: u64) -> (r: Account)
        ensures
            r.balance == balance,
            r.nonce == nonce,
    {
        Account { balance, nonce }
    }
}

/// The account the global state holds, or an empty one when it holds none.
pub open spec fn account_or_empty(base: Option<Account>) -> Account {
    match base {
        Some(a) => a,
        None => Account { balance: 0, nonce: 0 },
    }
}

/// The account of `a` as seen through the overlay `m`: its changed value,
/// else what the global state holds (`base`).
pub open spec fn account_in(m: Map<Address, Account>, a: Address, base: Option<Account>) -> Account {
    if m.contains_key(a) {
        m[a]
    } else {
        account_or_empty(base)
    }
}

/// The accounts one transaction changed, kept apart from the global state
/// until they are merged into it.
pub struct StateOverlay {
    modified_accounts: Vec<(Address, Account)>,
}

impl StateOverlay {
    /// No address is listed twice.
    pub closed spec fn wf(&self) -> bool {
        keys_distinct(self.modified_accounts@)
    }

    /// The changed accounts by address.
    pub closed spec fn accounts(&self) -> Map<Address, Account> {
        kv_map(self.modified_accounts@)
    }

    /// An overlay with no changes.
    pub fn new() -> (r: StateOverlay)
        ensures
            r.wf(),
            r.accounts() == Map::<Address, Account>::empty(),
    {
        let r = StateOverlay { modified_accounts: Vec::new() };
        assert(r.accounts() =~= Map::<Address, Account>::empty());
        r
    }

    /// The account of `address`: its changed value, else `base`, the value
    /// in the global state, else an empty account.
    pub fn read_account(&self, address: &Address, base: Option<Account>) -> (r: Account)
        requires
            self.wf(),
        ensures
            r == account_in(self.accounts(), *address, base),
    {
        match find_address_key(&self.modified_accounts, address) {
            Some(i) => {
                proof { crate::kv::lemma_kv_at(self.modified_accounts@, i as int); }
                self.modified_accounts[i].1
            },
            None => match base {
                Some(a) => a,
                None => Account { balance: 0, nonce: 0 },
            },
        }
    }

    /// Records `account` as the new value of `address`.
    pub fn write_account(&mut self, address: Address, account: Account)
        requires
            old(self).wf(),
        ensures
            final(self).wf(),
            final(self).accounts() == old(self).accounts().insert(address, account),
    {
        let ghost v = self.modified_accounts@;
        match find_address_key(&self.modified_accounts, &address) {
            Some(i) => {
                proof { lemma_kv_set(v, i as int, account); }
                self.modified_accounts.set(i, (address, account));
            },
            None => {
                proof { lemma_kv_push(v, address, account); }
                self.modified_accounts.push((address, account));
            },
        }
    }

    /// The changed accounts, each address once.
    pub fn modified(&self) -> (r: Vec<(Address, Account)>)
        requires
            self.wf(),
        ensures
            keys_distinct(r@),
            kv_map(r@) == self.accounts(),
    {
        let mut r: Vec<(Address, Account)> = Vec::new();
        let mut i: usize = 0;
        while i < self.modified_accounts.len()
            invariant
                0 <= i <= self.modified_accounts@.len(),
                r@ == self.modified_accounts@.subrange(0, i as int),
            decreases self.modified_accounts@.len() - i,
        {
            r.push(self.modified_accounts[i]);
            i = i + 1;
            proof {
                assert(r@ =~= self.modified_accounts@.subrange(0, i as int));
            }
        }
        proof {
            assert(r@ =~= self.modified_accounts@);
        }
        r
    }
}

/// `a * b`, or `u64::MAX` when the product does not fit.
pub open spec fn sat_mul(a: u64, b: u64) -> u64 {
    if a * b > u64::MAX { u64::MAX } else { (a * b) as u64 }
}

/// `a + b`, or `u64::MAX` when the sum does not fit.
pub open spec fn sat_add(a: u64, b: u64) -> u64 {
    if a + b > u64::MAX { u64::MAX } else { (a + b) as u64 }
}

fn saturating_product(a: u64, b: u64) -> (r: u64)
    ensures
        r == sat_mul(a, b),
{
    match a.checked_mul(b) {
        Some(p) => p,
        None => u64::MAX,
    }
}

/// What executing one transaction reported.
#[derive(Debug, Clone)]
pub struct TransactionReceipt {
    pub tx_hash: [u8; 32],
    pub success: bool,
    pub gas_used: u64,
    pub error: Option<String>,
}

/// A receipt for a transaction that failed with `error`.
fn failed(tx_hash: [u8; 32], error: String) -> (r: TransactionReceipt)
    ensures
        r.tx_hash == tx_hash,
        !r.success,
        r.gas_used == 0,
        r.error == Some(error),
{
    TransactionReceipt { tx_hash, success: false, gas_used: 0, error: Some(error) }
}

/// The transaction may start: it passes basic validation and its nonce is
/// the sender's.
pub open spec fn may_start(m: Map<Address, Account>, tx: Transaction, base_from: Option<Account>) -> bool {
    tx_valid_basic(tx) && account_in(m, tx.from, base_from).nonce == tx.nonce
}

/// The checks every transaction passes first: basic validation, then the
/// sender's nonce. On success, the sender's account as the overlay reads
/// it; otherwise the reason.
pub fn begin_execution(tx: &Transaction, overlay: &StateOverlay, base_from: Option<Account>) -> (r: Result<Account, String>)
    requires
        overlay.wf(),
    ensures
        r is Ok <==> may_start(overlay.accounts(), *tx, base_from),
        r matches Ok(a) ==> a == account_in(overlay.accounts(), tx.from, base_from),
{
    match tx.validate_basic() {
        Err(e) => return Err(e),
        Ok(()) => {},
    }
    let sender = overlay.read_account(&tx.from, base_from);
    if sender.nonce != tx.nonce {
        let mut msg = String::from_str("Invalid nonce: expected ");
        msg.append(sender.nonce.to_string().as_str());
        msg.append(" got ");
        msg.append(tx.nonce.to_string().as_str());
        return Err(msg);
    }
    Ok(sender)
}

/// The recipient and amount of a transfer.
pub open spec fn transfer_parts(tx: Transaction) -> (Address, u64) {
    match tx.payload {
        TxPayload::Transfer { to, amount } => (to, amount),
        _ => (tx.from, 0),
    }
}

/// The sender's balance must cover the amount plus the whole gas allowance
/// at its price (both sums saturating).
pub open spec fn transfer_cost(tx: Transaction) -> u64 {
    sat_add(transfer_parts(tx).1, sat_mul(tx.gas_limit, tx.gas_price))
}

/// The sender after paying the amount and taking the nonce.
pub open spec fn debited(sender: Account, tx: Transaction) -> Account {
    Account { balance: (sender.balance - transfer_parts(tx).1) as u64, nonce: (sender.nonce + 1) as u64 }
}

/// The overlay once the sender is debited and the recipient, read after
/// that, credited (saturating).
pub open spec fn after_credit(m: Map<Address, Account>, tx: Transaction, sender: Account, base_to: Option<Account>) -> Map<Address, Account> {
    let (to, amount) = transfer_parts(tx);
    let m1 = m.insert(tx.from, debited(sender, tx));
    let recv = account_in(m1, to, base_to);
    m1.insert(to, Account { balance: sat_add(recv.balance, amount), nonce: recv.nonce })
}

/// Whether a started transfer is funded.
pub open spec fn transfer_funded(sender: Account, tx: Transaction) -> bool {
    sender.balance >= transfer_cost(tx)
}

/// Whether the debited sender can pay the fee for the whole gas allowance.
pub open spec fn transfer_fee_paid(sender: Account, tx: Transaction) -> bool {
    debited(sender, tx).balance >= sat_mul(tx.gas_limit, tx.gas_price)
}

/// The overlay after a transfer, and whether it succeeded. The sender is
/// written back last, from its value before the credit: a transfer to
/// oneself ends with the sender's debited value less the fee.
pub open spec fn transfer_result(
    m: Map<Address, Account>,
    tx: Transaction,
    base_from: Option<Account>,
    base_to: Option<Account>,
) -> (Map<Address, Account>, bool) {
    let sender = account_in(m, tx.from, base_from);
    if !may_start(m, tx, base_from) || !transfer_funded(sender, tx) {
        (m, false)
    } else if !transfer_fee_paid(sender, tx) {
        (after_credit(m, tx, sender, base_to), false)
    } else {
        let d = debited(sender, tx);
        let fee = sat_mul(tx.gas_limit, tx.gas_price);
        (after_credit(m, tx, sender, base_to).insert(tx.from, Account { balance: (d.balance - fee) as u64, nonce: d.nonce }), true)
    }
}

/// Executes a transfer against the overlay; `base_from` and `base_to` are
/// what the global state holds for the sender and the recipient. A funded
/// transfer consumes its whole gas allowance.
pub fn execute_transfer(
    tx: &Transaction,
    overlay: &mut StateOverlay,
    base_from: Option<Account>,
    base_to: Option<Account>,
) -> (r: TransactionReceipt)
    requires
        old(overlay).wf(),
        tx.payload is Transfer,
        tx.nonce < u64::MAX,
    ensures
        final(overlay).wf(),
        (final(overlay).accounts(), r.success) == transfer_result(old(overlay).accounts(), *tx, base_from, base_to),
        r.tx_hash@ == tx_hash_spec(*tx),
        r.gas_used == (if r.success { tx.gas_limit } else { 0 }),
        r.error is None <==> r.success,
        may_start(old(overlay).accounts(), *tx, base_from)
            && !transfer_funded(account_in(old(overlay).accounts(), tx.from, base_from), *tx)
            ==> (r.error matches Some(e) && e@ == "Insufficient balance for transfer"@),
        may_start(old(overlay).accounts(), *tx, base_from)
            && transfer_funded(account_in(old(overlay).accounts(), tx.from, base_from), *tx)
            && !transfer_fee_paid(account_in(old(overlay).accounts(), tx.from, base_from), *tx)
            ==> (r.error matches Some(e) && e@ == "Insufficient balance for fee"@),
{
    let tx_hash = tx.hash();
    let ghost m0 = overlay.accounts();
    let sender = match begin_execution(tx, overlay, base_from) {
        Ok(a) => a,
        Err(e) => return failed(tx_hash, e),
    };
    let (to, amount) = match &tx.payload {
        TxPayload::Transfer { to, amount } => (*to, *amount),
        _ => {
            assert(false);
            return failed(tx_hash, String::from_str("not a transfer"));
        },
    };
    let allowance = saturating_product(tx.gas_limit, tx.gas_price);
    let total = amount.saturating_add(allowance);
    if sender.balance < total {
        return failed(tx_hash, String::from_str("Insufficient balance for transfer"));
    }
    let mut sender_acc = Account { balance: sender.balance - amount, nonce: sender.nonce + 1 };
    overlay.write_account(tx.from, sender_acc);
    let recv = overlay.read_account(&to, base_to);
    let credited = Account { balance: recv.balance.saturating_add(amount), nonce: recv.nonce };
    overlay.write_account(to, credited);
    proof {
        assert(overlay.accounts() == after_credit(m0, *tx, sender, base_to));
    }
    let used = tx.gas_limit;
    let fee = saturating_product(used, tx.gas_price);
    if sender_acc.balance < fee {
        return failed(tx_hash, String::from_str("Insufficient balance for fee"));
    }
    sender_acc.balance = sender_acc.balance - fee;
    overlay.write_account(tx.from, sender_acc);
    TransactionReceipt { tx_hash, success: true, gas_used: used, error: None }
}

/// A successful transfer between two different accounts moves the amount
/// from the sender to the recipient and burns the fee: when the credit does
/// not saturate, their combined balance falls by exactly the fee; the
/// sender's nonce advances by one, the recipient's stays, and no other
/// account changes.
pub proof fn lemma_transfer_conserves(
    m: Map<Address, Account>,
    tx: Transaction,
    base_from: Option<Account>,
    base_to: Option<Account>,
)
    requires
        tx.payload is Transfer,
        tx.nonce < u64::MAX,
        transfer_parts(tx).0 != tx.from,
        transfer_result(m, tx, base_from, base_to).1,
        account_in(m, transfer_parts(tx).0, base_to).balance + transfer_parts(tx).1 <= u64::MAX,
    ensures
        ({
            let after = transfer_result(m, tx, base_from, base_to).0;
            let to = transfer_parts(tx).0;
            let before_from = account_in(m, tx.from, base_from);
            let before_to = account_in(m, to, base_to);
            &&& after[tx.from].balance + after[to].balance
                == before_from.balance + before_to.balance - sat_mul(tx.gas_limit, tx.gas_price)
            &&& after[tx.from].nonce == before_from.nonce + 1
            &&& after[to].nonce == before_to.nonce
            &&& forall|a: Address| a != tx.from && a != to ==> #[trigger] after.contains_key(a) == m.contains_key(a)
                && (m.contains_key(a) ==> after[a] == m[a])
        }),
{
    let (to, amount) = transfer_parts(tx);
    let sender = account_in(m, tx.from, base_from);
    let d = debited(sender, tx);
    let fee = sat_mul(tx.gas_limit, tx.gas_price);
    let m1 = m.insert(tx.from, d);
    assert(account_in(m1, to, base_to) == account_in(m, to, base_to));
    let recv = account_in(m, to, base_to);
    let credited = Account { balance: sat_add(recv.balance, amount), nonce: recv.nonce };
    assert(after_credit(m, tx, sender, base_to) == m1.insert(to, credited));
    let after = transfer_result(m, tx, base_from, base_to).0;
    assert(after == m1.insert(to, credited).insert(tx.from, Account { balance: (d.balance - fee) as u64, nonce: d.nonce }));
    assert(after[tx.from].balance == d.balance - fee);
    assert(after[to] == credited);
    assert(credited.balance == recv.balance + amount);
    assert(d.balance == sender.balance - amount);
}

/// What the contract runtime reported for a deployment or a call.
#[derive(Debug, Clone)]
pub enum RuntimeOutcome {
    /// The code could not be loaded: the runtime's message.
    InstantiateFailed(String),
    /// The code ran and used `gas_used`; `failure` holds the runtime's
    /// message when the entry point failed.
    Ran { gas_used: u64, failure: Option<String> },
}

/// The sender after paying for `used` gas and taking the nonce.
pub open spec fn charged(sender: Account, used: u64, tx: Transaction) -> Account {
    Account { balance: (sender.balance - sat_mul(used, tx.gas_price)) as u64, nonce: (sender.nonce + 1) as u64 }
}

/// The sender can pay for `used` gas.
pub open spec fn fee_covered(sender: Account, used: u64, tx: Transaction) -> bool {
    sender.balance >= sat_mul(used, tx.gas_price)
}

/// `prefix` followed by `tail`.
fn joined(prefix: &str, tail: &str) -> (r: String)
    ensures
        r@ == prefix@ + tail@,
{
    let mut r = String::from_str(prefix);
    r.append(tail);
    r
}

/// Charges the sender for `used` gas, takes its nonce and writes it back;
/// `Err` when the balance does not cover the fee, the overlay unchanged.
fn charge(tx: &Transaction, overlay: &mut StateOverlay, sender: Account, used: u64) -> (r: Result<(), String>)
    requires
        old(overlay).wf(),
        sender.nonce < u64::MAX,
    ensures
        final(overlay).wf(),
        r is Ok <==> fee_covered(sender, used, *tx),
        r is Ok ==> final(overlay).accounts() == old(overlay).accounts().insert(tx.from, charged(sender, used, *tx)),
        r matches Err(e) ==> final(overlay).accounts() == old(overlay).accounts() && e@ == "Insufficient balance for fee"@,
{
    let fee = saturating_product(used, tx.gas_price);
    if sender.balance < fee {
        return Err(String::from_str("Insufficient balance for fee"));
    }
    overlay.write_account(tx.from, Account { balance: sender.balance - fee, nonce: sender.nonce + 1 });
    Ok(())
}

/// Registrations of deployed code waiting to be merged: address and code.
pub struct Overlay {
    pub state: StateOverlay,
    pub registry_updates: Vec<(Address, Vec<u8>)>,
}

impl Overlay {
    /// An overlay with no changes.
    pub fn new() -> (r: Overlay)
        ensures
            r.state.wf(),
            r.state.accounts() == Map::<Address, Account>::empty(),
            r.registry_updates@.len() == 0,
    {
        Overlay { state: StateOverlay::new(), registry_updates: Vec::new() }
    }
}

/// Settles a deployment once the runtime has loaded the code and run its
/// `init` entry point (`outcome`). The fee for the gas used is charged and
/// the nonce taken whether or not `init` succeeded; only a successful
/// deployment registers the code and creates the contract's empty account
/// at the address derived from the code.
pub fn settle_deployment(
    tx: &Transaction,
    overlay: &mut Overlay,
    base_from: Option<Account>,
    outcome: RuntimeOutcome,
) -> (r: TransactionReceipt)
    requires
        old(overlay).state.wf(),
        tx.payload is ContractDeploy,
        tx.nonce < u64::MAX,
    ensures
        final(overlay).state.wf(),
        r.tx_hash@ == tx_hash_spec(*tx),
        r.error is None <==> r.success,
        !may_start(old(overlay).state.accounts(), *tx, base_from) ==> {
            &&& !r.success && r.gas_used == 0
            &&& final(overlay).state.accounts() == old(overlay).state.accounts()
            &&& final(overlay).registry_updates@ == old(overlay).registry_updates@
        },
        may_start(old(overlay).state.accounts(), *tx, base_from) ==> {
            let sender = account_in(old(overlay).state.accounts(), tx.from, base_from);
            match outcome {
                RuntimeOutcome::InstantiateFailed(msg) => {
                    &&& !r.success && r.gas_used == 0
                    &&& (r.error matches Some(e) && e@ == "WASM instantiate error: "@ + msg@)
                    &&& final(overlay).state.accounts() == old(overlay).state.accounts()
                    &&& final(overlay).registry_updates@ == old(overlay).registry_updates@
                },
                RuntimeOutcome::Ran { gas_used, failure } => {
                    &&& !fee_covered(sender, gas_used, *tx) ==> {
                        &&& !r.success && r.gas_used == 0
                        &&& (r.error matches Some(e) && e@ == "Insufficient balance for fee"@)
                        &&& final(overlay).state.accounts() == old(overlay).state.accounts()
                        &&& final(overlay).registry_updates@ == old(overlay).registry_updates@
                    }
                    &&& fee_covered(sender, gas_used, *tx) && failure is Some ==> {
                        &&& !r.success && r.gas_used == 0
                        &&& (r.error matches Some(e) && e@ == "contract init failed"@)
                        &&& final(overlay).state.accounts()
                            == old(overlay).state.accounts().insert(tx.from, charged(sender, gas_used, *tx))
                        &&& final(overlay).registry_updates@ == old(overlay).registry_updates@
                    }
                    &&& fee_covered(sender, gas_used, *tx) && failure is None ==> {
                        let code = match tx.payload { TxPayload::ContractDeploy { wasm_code, .. } => wasm_code@, _ => Seq::empty() };
                        let n = old(overlay).registry_updates@.len();
                        &&& r.success && r.gas_used == gas_used
                        &&& final(overlay).registry_updates@.len() == n + 1
                        &&& final(overlay).registry_updates@.subrange(0, n as int) == old(overlay).registry_updates@
                        &&& final(overlay).registry_updates@[n as int].0@ == deploy_address(code)
                        &&& final(overlay).registry_updates@[n as int].1@ == code
                        &&& final(overlay).state.accounts() == old(overlay).state.accounts()
                            .insert(tx.from, charged(sender, gas_used, *tx))
                            .insert(final(overlay).registry_updates@[n as int].0, Account { balance: 0, nonce: 0 })
                    }
                },
            }
        },
{
    let tx_hash = tx.hash();
    let sender = match begin_execution(tx, &overlay.state, base_from) {
        Ok(a) => a,
        Err(e) => return failed(tx_hash, e),
    };
    let code = match &tx.payload {
        TxPayload::ContractDeploy { wasm_code, .. } => wasm_code,
        _ => {
            assert(false);
            return failed(tx_hash, String::from_str("not a deployment"));
        },
    };
    let address = compute_deploy_address(code);
    let (used, init_failed) = match outcome {
        RuntimeOutcome::InstantiateFailed(msg) => {
            return failed(tx_hash, joined("WASM instantiate error: ", msg.as_str()));
        },
        RuntimeOutcome::Ran { gas_used, failure } => (gas_used, failure.is_some()),
    };
    match charge(tx, &mut overlay.state, sender, used) {
        Err(e) => return failed(tx_hash, e),
        Ok(()) => {},
    }
    if init_failed {
        return failed(tx_hash, String::from_str("contract init failed"));
    }
    let ghost before = overlay.registry_updates@;
    overlay.registry_updates.push((address, copy_bytes(code)));
    assert(overlay.registry_updates@.subrange(0, before.len() as int) =~= before);
    overlay.state.write_account(address, Account { balance: 0, nonce: 0 });
    TransactionReceipt { tx_hash, success: true, gas_used: used, error: None }
}

/// Settles a call: refused when the contract is not registered
/// (`contract_known`), else once the runtime has run the method
/// (`outcome`). The fee for the gas used is charged and the nonce taken
/// whether or not the method succeeded.
pub fn settle_call(
    tx: &Transaction,
    overlay: &mut StateOverlay,
    base_from: Option<Account>,
    contract_known: bool,
    outcome: RuntimeOutcome,
) -> (r: TransactionReceipt)
    requires
        old(overlay).wf(),
        tx.payload is ContractCall,
        tx.nonce < u64::MAX,
    ensures
        final(overlay).wf(),
        r.tx_hash@ == tx_hash_spec(*tx),
        r.error is None <==> r.success,
        !may_start(old(overlay).accounts(), *tx, base_from) ==> !r.success && r.gas_used == 0
            && final(overlay).accounts() == old(overlay).accounts(),
        may_start(old(overlay).accounts(), *tx, base_from) && !contract_known ==> {
            &&& !r.success && r.gas_used == 0
            &&& (r.error matches Some(e) && e@ == "Contract not found"@)
            &&& final(overlay).accounts() == old(overlay).accounts()
        },
        may_start(old(overlay).accounts(), *tx, base_from) && contract_known ==> {
            let sender = account_in(old(overlay).accounts(), tx.from, base_from);
            match outcome {
                RuntimeOutcome::InstantiateFailed(msg) => {
                    &&& !r.success && r.gas_used == 0
                    &&& (r.error matches Some(e) && e@ == "WASM instantiate error: "@ + msg@)
                    &&& final(overlay).accounts() == old(overlay).accounts()
                },
                RuntimeOutcome::Ran { gas_used, failure } => {
                    &&& !fee_covered(sender, gas_used, *tx) ==> {
                        &&& !r.success && r.gas_used == 0
                        &&& (r.error matches Some(e) && e@ == "Insufficient balance for fee"@)
                        &&& final(overlay).accounts() == old(overlay).accounts()
                    }
                    &&& fee_covered(sender, gas_used, *tx) ==> {
                        &&& final(overlay).accounts() == old(overlay).accounts().insert(tx.from, charged(sender, gas_used, *tx))
                        &&& match failure {
                            None => r.success && r.gas_used == gas_used,
                            Some(msg) => !r.success && r.gas_used == 0
                                && (r.error matches Some(e) && e@ == "Contract call failed: "@ + msg@),
                        }
                    }
                },
            }
        },
{
    let tx_hash = tx.hash();
    let sender = match begin_execution(tx, overlay, base_from) {
        Ok(a) => a,
        Err(e) => return failed(tx_hash, e),
    };
    if !contract_known {
        return failed(tx_hash, String::from_str("Contract not found"));
    }
    let (used, failure) = match outcome {
        RuntimeOutcome::InstantiateFailed(msg) => {
            return failed(tx_hash, joined("WASM instantiate error: ", msg.as_str()));
        },
        RuntimeOutcome::Ran { gas_used, failure } => (gas_used, failure),
    };
    match charge(tx, overlay, sender, used) {
        Err(e) => return failed(tx_hash, e),
        Ok(()) => {},
    }
    match failure {
        None => TransactionReceipt { tx_hash, success: true, gas_used: used, error: None },
        Some(msg) => failed(tx_hash, joined("Contract call failed: ", msg.as_str())),
    }
}

/// The outcome of executing a block's transactions in order.
#[derive(Debug, Clone)]
pub struct ExecutionResult {
    pub new_state_root: [u8; 32],
    pub executed_transactions: usize,
    pub success: bool,
    pub total_fees: u64,
}

/// The fees of the first `n` transactions: gas used times gas price, summed
/// (each step saturating).
pub open spec fn fees_of(txs: Seq<Transaction>, outcomes: Seq<Result<u64, String>>, n: nat) -> u64
    decreases n,
{
    if n == 0 {
        0
    } else {
        sat_add(fees_of(txs, outcomes, (n - 1) as nat), sat_mul(outcomes[n - 1]->Ok_0, txs[n - 1].gas_price))
    }
}

/// Summarises a block executed in order: `outcomes` holds, for each
/// transaction from the first, the gas it used or why it failed; execution
/// stops at the first failure, and what follows it is not counted.
/// `new_state_root` is the state root once done.
pub fn block_execution_result(
    txs: &Vec<Transaction>,
    outcomes: &Vec<Result<u64, String>>,
    new_state_root: [u8; 32],
) -> (r: ExecutionResult)
    requires
        outcomes@.len() <= txs@.len(),
    ensures
        r.new_state_root == new_state_root,
        r.executed_transactions <= outcomes@.len(),
        forall|i: int| 0 <= i < r.executed_transactions ==> (#[trigger] outcomes@[i]) is Ok,
        r.success <==> r.executed_transactions == outcomes@.len(),
        !r.success ==> outcomes@[r.executed_transactions as int] is Err,
        r.total_fees == fees_of(txs@, outcomes@, r.executed_transactions as nat),
{
    let mut executed: usize = 0;
    let mut total_fees: u64 = 0;
    let mut success = true;
    while executed < outcomes.len() && success
        invariant
            outcomes@.len() <= txs@.len(),
            0 <= executed <= outcomes@.len(),
            forall|i: int| 0 <= i < executed ==> (#[trigger] outcomes@[i]) is Ok,
            success ==> total_fees == fees_of(txs@, outcomes@, executed as nat),
            !success ==> executed < outcomes@.len() && outcomes@[executed as int] is Err
                && total_fees == fees_of(txs@, outcomes@, executed as nat),
        decreases outcomes@.len() - executed + (if success { 1int } else { 0int }),
    {
        match &outcomes[executed] {
            Ok(used) => {
                let fee = saturating_product(*used, txs[executed].gas_price);
                total_fees = total_fees.saturating_add(fee);
                executed = executed + 1;
            },
            Err(_) => {
                success = false;
            },
        }
    }
    ExecutionResult { new_state_root, executed_transactions: executed, success, total_fees }
}

} // verus!
