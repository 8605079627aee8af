//! The authority and transfer layer over an explicit ledger.
//!
//! The host's ambient account store is modelled as an explicit key-value
//! ledger: balances keyed by address, records keyed by the derived state
//! address. Every operation re-derives the owner's addresses, validates the
//! stored nonces against them, and only then moves value; each operation
//! either commits in full or returns an error with the ledger unchanged.

use vstd::prelude::*;

use crate::derivation::bytes_eq;
use crate::derivation::create_address;
use crate::derivation::pda_of;
use crate::derivation::spec_derive;
use crate::derivation::state_tag;
use crate::derivation::state_tag_bytes;
use crate::derivation::validate;
use crate::derivation::vault_tag;
use crate::derivation::vault_tag_bytes;
use crate::error::VaultError;

verus! {

/// The per-owner record: the two derivation nonces, fixed at creation.
#[derive(Clone, Copy, Debug, PartialEq, Eq, Structural)]
pub struct VaultState {
    /// Makes the vault address a valid program-derived address.
    pub vault_bump: u8,
    /// Makes the record's own address a valid program-derived address.
    pub state_bump: u8,
}

/// One account of the ledger: an address and the value it holds.
pub struct AccountEntry {
    pub addr: Vec<u8>,
    pub balance: u64,
}

/// One persisted record, stored at its derived state address.
pub struct RecordEntry {
    pub addr: Vec<u8>,
    pub record: VaultState,
}

/// The balance held at `addr`: the balance of the first entry with that
/// address, or zero where no entry has it.
pub open spec fn balance_in(s: Seq<AccountEntry>, addr: Seq<u8>) -> u64
    decreases s.len(),
{
    if s.len() == 0 {
        0u64
    } else if s[0].addr@ == addr {
        s[0].balance
    } else {
        balance_in(s.drop_first(), addr)
    }
}

/// The sum of all balances in the ledger.
pub open spec fn total_in(s: Seq<AccountEntry>) -> int
    decreases s.len(),
{
    if s.len() == 0 {
        0
    } else {
        s[0].balance + total_in(s.drop_first())
    }
}

/// The record stored at `addr`, if any.
pub open spec fn record_in(s: Seq<RecordEntry>, addr: Seq<u8>) -> Option<VaultState>
    decreases s.len(),
{
    if s.len() == 0 {
        None
    } else if s[0].addr@ == addr {
        Some(s[0].record)
    } else {
        record_in(s.drop_first(), addr)
    }
}

/// No two account entries share an address.
pub open spec fn unique_account_keys(s: Seq<AccountEntry>) -> bool {
    forall|i: int, j: int| 0 <= i < j < s.len() ==> s[i].addr@ != s[j].addr@
}

/// No two records share an address.
pub open spec fn unique_record_keys(s: Seq<RecordEntry>) -> bool {
    forall|i: int, j: int| 0 <= i < j < s.len() ==> s[i].addr@ != s[j].addr@
}

proof fn lemma_unique_account_drop(s: Seq<AccountEntry>)
    requires
        s.len() > 0,
        unique_account_keys(s),
    ensures
        unique_account_keys(s.drop_first()),
{
    assert forall|i: int, j: int|
        0 <= i < j < s.drop_first().len() implies s.drop_first()[i].addr@
        != s.drop_first()[j].addr@ by {
        assert(s.drop_first()[i] == s[i + 1]);
        assert(s.drop_first()[j] == s[j + 1]);
    }
}

proof fn lemma_unique_record_drop(s: Seq<RecordEntry>)
    requires
        s.len() > 0,
        unique_record_keys(s),
    ensures
        unique_record_keys(s.drop_first()),
{
    assert forall|i: int, j: int|
        0 <= i < j < s.drop_first().len() implies s.drop_first()[i].addr@
        != s.drop_first()[j].addr@ by {
        assert(s.drop_first()[i] == s[i + 1]);
        assert(s.drop_first()[j] == s[j + 1]);
    }
}

proof fn lemma_balance_at_index(s: Seq<AccountEntry>, i: int)
    requires
        unique_account_keys(s),
        0 <= i < s.len(),
    ensures
        balance_in(s, s[i].addr@) == s[i].balance,
    decreases s.len(),
{
    if i > 0 {
        lemma_unique_account_drop(s);
        lemma_balance_at_index(s.drop_first(), i - 1);
        assert(s.drop_first()[i - 1] == s[i]);
    }
}

proof fn lemma_balance_absent(s: Seq<AccountEntry>, addr: Seq<u8>)
    requires
        forall|j: int| 0 <= j < s.len() ==> s[j].addr@ != addr,
    ensures
        balance_in(s, addr) == 0,
    decreases s.len(),
{
    if s.len() > 0 {
        assert forall|j: int| 0 <= j < s.drop_first().len() implies s.drop_first()[j].addr@
            != addr by {
            assert(s.drop_first()[j] == s[j + 1]);
        }
        lemma_balance_absent(s.drop_first(), addr);
    }
}

proof fn lemma_record_at_index(s: Seq<RecordEntry>, i: int)
    requires
        unique_record_keys(s),
        0 <= i < s.len(),
    ensures
        record_in(s, s[i].addr@) == Some(s[i].record),
    decreases s.len(),
{
    if i > 0 {
        lemma_unique_record_drop(s);
        lemma_record_at_index(s.drop_first(), i - 1);
        assert(s.drop_first()[i - 1] == s[i]);
    }
}

proof fn lemma_record_absent(s: Seq<RecordEntry>, addr: Seq<u8>)
    requires
        forall|j: int| 0 <= j < s.len() ==> s[j].addr@ != addr,
    ensures
        record_in(s, addr) is None,
    decreases s.len(),
{
    if s.len() > 0 {
        assert forall|j: int| 0 <= j < s.drop_first().len() implies s.drop_first()[j].addr@
            != addr by {
            assert(s.drop_first()[j] == s[j + 1]);
        }
        lemma_record_absent(s.drop_first(), addr);
    }
}

proof fn lemma_balance_update(s: Seq<AccountEntry>, i: int, e: AccountEntry, a: Seq<u8>)
    requires
        unique_account_keys(s),
        0 <= i < s.len(),
        e.addr@ == s[i].addr@,
    ensures
        balance_in(s.update(i, e), a) == if a == e.addr@ {
            e.balance
        } else {
            balance_in(s, a)
        },
    decreases s.len(),
{
    let t = s.update(i, e);
    if i == 0 {
        assert(t.drop_first() =~= s.drop_first());
    } else {
        assert(t[0] == s[0]);
        assert(t.drop_first() =~= s.drop_first().update(i - 1, e));
        lemma_unique_account_drop(s);
        assert(s.drop_first()[i - 1] == s[i]);
        lemma_balance_update(s.drop_first(), i - 1, e, a);
    }
}

proof fn lemma_total_update(s: Seq<AccountEntry>, i: int, e: AccountEntry)
    requires
        0 <= i < s.len(),
    ensures
        total_in(s.update(i, e)) == total_in(s) - s[i].balance + e.balance,
    decreases s.len(),
{
    let t = s.update(i, e);
    if i == 0 {
        assert(t.drop_first() =~= s.drop_first());
    } else {
        assert(t[0] == s[0]);
        assert(t.drop_first() =~= s.drop_first().update(i - 1, e));
        assert(s.drop_first()[i - 1] == s[i]);
        lemma_total_update(s.drop_first(), i - 1, e);
    }
}

proof fn lemma_balance_push(s: Seq<AccountEntry>, e: AccountEntry, a: Seq<u8>)
    requires
        forall|j: int| 0 <= j < s.len() ==> s[j].addr@ != e.addr@,
    ensures
        balance_in(s.push(e), a) == if a == e.addr@ {
            e.balance
        } else {
            balance_in(s, a)
        },
    decreases s.len(),
{
    let t = s.push(e);
    if s.len() == 0 {
        assert(t[0] == e);
        assert(t.drop_first() =~= Seq::<AccountEntry>::empty());
        if a == e.addr@ {
            assert(balance_in(t, a) == e.balance);
        } else {
            assert(balance_in(t, a) == balance_in(t.drop_first(), a));
            assert(balance_in(t.drop_first(), a) == 0);
        }
    } else {
        assert(t[0] == s[0]);
        assert(t.drop_first() =~= s.drop_first().push(e));
        assert forall|j: int| 0 <= j < s.drop_first().len() implies s.drop_first()[j].addr@
            != e.addr@ by {
            assert(s.drop_first()[j] == s[j + 1]);
        }
        lemma_balance_push(s.drop_first(), e, a);
        assert(s[0].addr@ != e.addr@);
        if a == s[0].addr@ {
            assert(balance_in(t, a) == s[0].balance);
            assert(balance_in(s, a) == s[0].balance);
        } else {
            assert(balance_in(t, a) == balance_in(t.drop_first(), a));
            assert(balance_in(s, a) == balance_in(s.drop_first(), a));
        }
    }
}

proof fn lemma_total_push(s: Seq<AccountEntry>, e: AccountEntry)
    ensures
        total_in(s.push(e)) == total_in(s) + e.balance,
    decreases s.len(),
{
    let t = s.push(e);
    if s.len() == 0 {
        assert(t[0] == e);
        assert(t.drop_first() =~= Seq::<AccountEntry>::empty());
        assert(total_in(t.drop_first()) == 0);
        assert(total_in(t) == e.balance + 0);
    } else {
        assert(t[0] == s[0]);
        assert(t.drop_first() =~= s.drop_first().push(e));
        lemma_total_push(s.drop_first(), e);
        assert(total_in(t) == s[0].balance + total_in(t.drop_first()));
        assert(total_in(s) == s[0].balance + total_in(s.drop_first()));
    }
}

proof fn lemma_balance_le_total(s: Seq<AccountEntry>, a: Seq<u8>)
    ensures
        0 <= total_in(s),
        balance_in(s, a) <= total_in(s),
    decreases s.len(),
{
    if s.len() > 0 {
        lemma_balance_le_total(s.drop_first(), a);
    }
}

proof fn lemma_record_push(s: Seq<RecordEntry>, e: RecordEntry, a: Seq<u8>)
    requires
        forall|j: int| 0 <= j < s.len() ==> s[j].addr@ != e.addr@,
    ensures
        record_in(s.push(e), a) == if a == e.addr@ {
            Some(e.record)
        } else {
            record_in(s, a)
        },
    decreases s.len(),
{
    let t = s.push(e);
    if s.len() == 0 {
        assert(t[0] == e);
        assert(t.drop_first() =~= Seq::<RecordEntry>::empty());
        if a == e.addr@ {
            assert(record_in(t, a) == Some(e.record));
        } else {
            assert(record_in(t, a) == record_in(t.drop_first(), a));
            assert(record_in(t.drop_first(), a) is None);
        }
    } else {
        assert(t[0] == s[0]);
        assert(t.drop_first() =~= s.drop_first().push(e));
        assert forall|j: int| 0 <= j < s.drop_first().len() implies s.drop_first()[j].addr@
            != e.addr@ by {
            assert(s.drop_first()[j] == s[j + 1]);
        }
        lemma_record_push(s.drop_first(), e, a);
        assert(s[0].addr@ != e.addr@);
        if a == s[0].addr@ {
            assert(record_in(t, a) == Some(s[0].record));
            assert(record_in(s, a) == Some(s[0].record));
        } else {
            assert(record_in(t, a) == record_in(t.drop_first(), a));
            assert(record_in(s, a) == record_in(s.drop_first(), a));
        }
    }
}

proof fn lemma_record_remove(s: Seq<RecordEntry>, i: int, a: Seq<u8>)
    requires
        unique_record_keys(s),
        0 <= i < s.len(),
    ensures
        record_in(s.remove(i), a) == if a == s[i].addr@ {
            None::<VaultState>
        } else {
            record_in(s, a)
        },
    decreases s.len(),
{
    let t = s.remove(i);
    if i == 0 {
        assert(t =~= s.drop_first());
        if a == s[0].addr@ {
            lemma_unique_record_drop(s);
            assert forall|j: int| 0 <= j < s.drop_first().len() implies s.drop_first()[j].addr@
                != a by {
                assert(s.drop_first()[j] == s[j + 1]);
            }
            lemma_record_absent(s.drop_first(), a);
        }
    } else {
        assert(t[0] == s[0]);
        assert(t.drop_first() =~= s.drop_first().remove(i - 1));
        lemma_unique_record_drop(s);
        assert(s.drop_first()[i - 1] == s[i]);
        lemma_record_remove(s.drop_first(), i - 1, a);
    }
}

/// The explicit store the host would otherwise supply: balances keyed by
/// address, records keyed by the derived state address, and the two
/// configured costs — the vault's reserve floor and the record's storage
/// rent.
pub struct Ledger {
    /// The program identity all derivations are bound to.
    pub program_id: Vec<u8>,
    /// The minimum balance the vault must retain to stay a valid account.
    pub reserve_floor: u64,
    /// The storage cost of the record, held at the state address while the
    /// record exists and returned to the owner on close.
    pub record_rent: u64,
    /// All accounts, each address at most once.
    pub accounts: Vec<AccountEntry>,
    /// All records, each address at most once.
    pub records: Vec<RecordEntry>,
}

impl Ledger {
    /// The balance held at `a`; an address without an account holds zero.
    pub open spec fn balance_of(self, a: Seq<u8>) -> u64 {
        balance_in(self.accounts@, a)
    }

    /// The record stored at `a`, if any.
    pub open spec fn record_of(self, a: Seq<u8>) -> Option<VaultState> {
        record_in(self.records@, a)
    }

    /// The sum of all balances.
    pub open spec fn total(self) -> int {
        total_in(self.accounts@)
    }

    /// Well-formedness: addresses are unique on both sides and the total
    /// value in circulation fits the balance type, so a transfer can never
    /// overflow its destination.
    pub open spec fn wf(self) -> bool {
        &&& self.program_id@.len() == 32
        &&& unique_account_keys(self.accounts@)
        &&& unique_record_keys(self.records@)
        &&& total_in(self.accounts@) <= u64::MAX
    }

    /// The derivation of the owner's record address.
    pub open spec fn state_derivation(self, owner: Seq<u8>) -> Option<(Seq<u8>, u8)> {
        spec_derive(state_tag(), owner, self.program_id@)
    }

    /// The derivation of the vault address from the record's address.
    pub open spec fn vault_derivation(self, state_addr: Seq<u8>) -> Option<(Seq<u8>, u8)> {
        spec_derive(vault_tag(), state_addr, self.program_id@)
    }

    /// The access check every balance-moving operation performs: the
    /// owner's record exists at the derived state address, its stored state
    /// nonce reproduces that address, and its stored vault nonce derives a
    /// valid vault address. Yields the state and vault addresses.
    pub open spec fn validated(self, owner: Seq<u8>) -> Option<(Seq<u8>, Seq<u8>)> {
        match self.state_derivation(owner) {
            None => None,
            Some(sp) => match self.record_of(sp.0) {
                None => None,
                Some(rec) => if pda_of(state_tag(), owner, rec.state_bump, self.program_id@)
                    != Some(sp.0) {
                    None
                } else {
                    match pda_of(vault_tag(), sp.0, rec.vault_bump, self.program_id@) {
                        None => None,
                        Some(v) => Some((sp.0, v)),
                    }
                },
            },
        }
    }

    /// The configuration — program id and the two cost constants — of
    /// `self` and `other` agree.
    pub open spec fn same_config(self, other: Ledger) -> bool {
        &&& self.program_id@ == other.program_id@
        &&& self.reserve_floor == other.reserve_floor
        &&& self.record_rent == other.record_rent
    }
}

/// A balance function after sweeping the whole balance at `from` into `to`.
pub open spec fn sweep(b: spec_fn(Seq<u8>) -> int, from: Seq<u8>, to: Seq<u8>) -> spec_fn(
    Seq<u8>,
) -> int {
    (|a: Seq<u8>|
        if from == to {
            b(a)
        } else if a == from {
            0
        } else if a == to {
            b(to) + b(from)
        } else {
            b(a)
        })
}

/// Everything `initialize` promises, as a relation between the ledger
/// before, the ledger after, and the result.
pub open spec fn initialize_post(
    pre: Ledger,
    post: Ledger,
    owner: Seq<u8>,
    r: Result<(), VaultError>,
) -> bool {
    match pre.state_derivation(owner) {
        None => r == Err::<(), VaultError>(VaultError::InvalidDerivation) && post == pre,
        Some(sp) => if pre.record_of(sp.0) is Some {
            r == Err::<(), VaultError>(VaultError::AlreadyInitialized) && post == pre
        } else {
            match pre.vault_derivation(sp.0) {
                None => r == Err::<(), VaultError>(VaultError::InvalidDerivation) && post == pre,
                Some(vp) => if pre.balance_of(owner) < pre.record_rent + pre.reserve_floor {
                    r == Err::<(), VaultError>(VaultError::InsufficientFunds) && post == pre
                } else {
                    &&& r == Ok::<(), VaultError>(())
                    &&& post.same_config(pre)
                    &&& post.record_of(sp.0) == Some(
                        VaultState { vault_bump: vp.1, state_bump: sp.1 },
                    )
                    &&& (forall|a: Seq<u8>|
                        a != sp.0 ==> #[trigger] post.record_of(a) == pre.record_of(a))
                    &&& (forall|a: Seq<u8>|
                        #[trigger] post.balance_of(a) == pre.balance_of(a) - (
                        if a == owner {
                            pre.record_rent + pre.reserve_floor
                        } else {
                            0
                        }) + (if a == sp.0 {
                            pre.record_rent as int
                        } else {
                            0
                        }) + (if a == vp.0 {
                            pre.reserve_floor as int
                        } else {
                            0
                        }))
                    &&& post.total() == pre.total()
                }
            }
        },
    }
}

/// Everything `deposit` promises.
pub open spec fn deposit_post(
    pre: Ledger,
    post: Ledger,
    owner: Seq<u8>,
    amount: u64,
    r: Result<(), VaultError>,
) -> bool {
    match pre.validated(owner) {
        None => r == Err::<(), VaultError>(VaultError::InvalidDerivation) && post == pre,
        Some(sv) => if pre.balance_of(owner) < amount {
            r == Err::<(), VaultError>(VaultError::InsufficientFunds) && post == pre
        } else {
            &&& r == Ok::<(), VaultError>(())
            &&& post.same_config(pre)
            &&& post.records@ == pre.records@
            &&& (forall|a: Seq<u8>|
                #[trigger] post.balance_of(a) == pre.balance_of(a) - (if a == owner {
                    amount as int
                } else {
                    0
                }) + (if a == sv.1 {
                    amount as int
                } else {
                    0
                }))
            &&& post.total() == pre.total()
        },
    }
}

/// Everything `withdraw` promises: in particular, it fails with
/// `InsufficientFunds` exactly when the amount would take the vault below
/// the reserve floor.
pub open spec fn withdraw_post(
    pre: Ledger,
    post: Ledger,
    owner: Seq<u8>,
    amount: u64,
    r: Result<(), VaultError>,
) -> bool {
    match pre.validated(owner) {
        None => r == Err::<(), VaultError>(VaultError::InvalidDerivation) && post == pre,
        Some(sv) => if pre.balance_of(sv.1) < amount + pre.reserve_floor {
            r == Err::<(), VaultError>(VaultError::InsufficientFunds) && post == pre
        } else {
            &&& r == Ok::<(), VaultError>(())
            &&& post.same_config(pre)
            &&& post.records@ == pre.records@
            &&& (forall|a: Seq<u8>|
                #[trigger] post.balance_of(a) == pre.balance_of(a) - (if a == sv.1 {
                    amount as int
                } else {
                    0
                }) + (if a == owner {
                    amount as int
                } else {
                    0
                }))
            &&& post.total() == pre.total()
        },
    }
}

/// Everything `close` promises: the vault is swept into the owner first,
/// then the record's rent, then the record is deallocated.
pub open spec fn close_post(
    pre: Ledger,
    post: Ledger,
    owner: Seq<u8>,
    r: Result<(), VaultError>,
) -> bool {
    match pre.validated(owner) {
        None => r == Err::<(), VaultError>(VaultError::InvalidDerivation) && post == pre,
        Some(sv) => {
            let b0 = (|a: Seq<u8>| pre.balance_of(a) as int);
            let b1 = sweep(b0, sv.1, owner);
            let b2 = sweep(b1, sv.0, owner);
            &&& r == Ok::<(), VaultError>(())
            &&& post.same_config(pre)
            &&& post.record_of(sv.0) is None
            &&& (forall|a: Seq<u8>| a != sv.0 ==> #[trigger] post.record_of(a) == pre.record_of(a))
            &&& (forall|a: Seq<u8>| #[trigger] post.balance_of(a) == b2(a))
            &&& post.total() == pre.total()
        },
    }
}

/// Byte-for-byte copy of an address.
fn copy_bytes(a: &Vec<u8>) -> (r: Vec<u8>)
    ensures
        r@ == a@,
{
    let mut r: Vec<u8> = Vec::new();
    let mut i: usize = 0;
    while i < a.len()
        invariant
            i <= a@.len(),
            r@ == a@.take(i as int),
        decreases a@.len() - i,
    {
        r.push(a[i]);
        proof {
            assert(r@ =~= a@.take(i + 1));
        }
        i = i + 1;
    }
    proof {
        assert(a@.take(a@.len() as int) =~= a@);
    }
    r
}

impl Ledger {
    /// An empty ledger bound to a program identity, with the host's two
    /// cost constants.
    pub fn new(program_id: Vec<u8>, reserve_floor: u64, record_rent: u64) -> (r: Ledger)
        requires
            program_id@.len() == 32,
        ensures
            r.wf(),
            r.program_id@ == program_id@,
            r.reserve_floor == reserve_floor,
            r.record_rent == record_rent,
            forall|a: Seq<u8>| #[trigger] r.balance_of(a) == 0,
            forall|a: Seq<u8>| #[trigger] r.record_of(a) is None,
            r.total() == 0,
    {
        Ledger { program_id, reserve_floor, record_rent, accounts: Vec::new(), records: Vec::new() }
    }

    fn find_account(&self, addr: &Vec<u8>) -> (r: Option<usize>)
        ensures
            r matches Some(i) ==> i < self.accounts@.len() && self.accounts@[i as int].addr@
                == addr@,
            r is None ==> forall|j: int|
                0 <= j < self.accounts@.len() ==> self.accounts@[j].addr@ != addr@,
    {
        let mut i: usize = 0;
        while i < self.accounts.len()
            invariant
                i <= self.accounts@.len(),
                forall|j: int| 0 <= j < i ==> self.accounts@[j].addr@ != addr@,
            decreases self.accounts@.len() - i,
        {
            if bytes_eq(&self.accounts[i].addr, addr) {
                return Some(i);
            }
            i = i + 1;
        }
        None
    }

    fn find_record(&self, addr: &Vec<u8>) -> (r: Option<usize>)
        ensures
            r matches Some(i) ==> i < self.records@.len() && self.records@[i as int].addr@
                == addr@,
            r is None ==> forall|j: int|
                0 <= j < self.records@.len() ==> self.records@[j].addr@ != addr@,
    {
        let mut i: usize = 0;
        while i < self.records.len()
            invariant
                i <= self.records@.len(),
                forall|j: int| 0 <= j < i ==> self.records@[j].addr@ != addr@,
            decreases self.records@.len() - i,
        {
            if bytes_eq(&self.records[i].addr, addr) {
                return Some(i);
            }
            i = i + 1;
        }
        None
    }

    /// The balance held at an address; an address without an account holds
    /// zero.
    pub fn balance(&self, addr: &Vec<u8>) -> (r: u64)
        requires
            self.wf(),
        ensures
            r == self.balance_of(addr@),
    {
        match self.find_account(addr) {
            Some(i) => {
                proof {
                    lemma_balance_at_index(self.accounts@, i as int);
                }
                self.accounts[i].balance
            },
            None => {
                proof {
                    lemma_balance_absent(self.accounts@, addr@);
                }
                0
            },
        }
    }

    /// The record stored at an address, if any.
    pub fn record(&self, addr: &Vec<u8>) -> (r: Option<VaultState>)
        requires
            self.wf(),
        ensures
            r == self.record_of(addr@),
    {
        match self.find_record(addr) {
            Some(i) => {
                proof {
                    lemma_record_at_index(self.records@, i as int);
                }
                Some(self.records[i].record)
            },
            None => {
                proof {
                    lemma_record_absent(self.records@, addr@);
                }
                None
            },
        }
    }

    fn credit(&mut self, addr: &Vec<u8>, amount: u64)
        requires
            old(self).wf(),
            old(self).total() + amount <= u64::MAX,
        ensures
            final(self).wf(),
            final(self).balance_of(addr@) == old(self).balance_of(addr@) + amount,
            forall|a: Seq<u8>|
                a != addr@ ==> #[trigger] final(self).balance_of(a) == old(self).balance_of(a),
            final(self).total() == old(self).total() + amount,
            final(self).records@ == old(self).records@,
            final(self).program_id@ == old(self).program_id@,
            final(self).reserve_floor == old(self).reserve_floor,
            final(self).record_rent == old(self).record_rent,
    {
        proof {
            lemma_balance_le_total(self.accounts@, addr@);
        }
        match self.find_account(addr) {
            Some(i) => {
                proof {
                    lemma_balance_at_index(self.accounts@, i as int);
                }
                let ghost s = self.accounts@;
                let entry = &mut self.accounts[i];
                entry.balance = entry.balance + amount;
                proof {
                    let e = self.accounts@[i as int];
                    assert forall|a: Seq<u8>| true implies #[trigger] balance_in(
                        self.accounts@,
                        a,
                    ) == (if a == s[i as int].addr@ {
                        e.balance
                    } else {
                        balance_in(s, a)
                    }) by {
                        lemma_balance_update(s, i as int, e, a);
                    }
                    lemma_total_update(s, i as int, e);
                    assert forall|x: int, y: int|
                        0 <= x < y < self.accounts@.len() implies self.accounts@[x].addr@
                        != self.accounts@[y].addr@ by {
                        assert(self.accounts@[x].addr@ == s[x].addr@);
                        assert(self.accounts@[y].addr@ == s[y].addr@);
                    }
                }
            },
            None => {
                let ghost s = self.accounts@;
                proof {
                    lemma_balance_absent(s, addr@);
                }
                let e = AccountEntry { addr: copy_bytes(addr), balance: amount };
                self.accounts.push(e);
                proof {
                    let e = self.accounts@[s.len() as int];
                    assert forall|a: Seq<u8>| true implies #[trigger] balance_in(
                        self.accounts@,
                        a,
                    ) == (if a == addr@ {
                        e.balance
                    } else {
                        balance_in(s, a)
                    }) by {
                        lemma_balance_push(s, e, a);
                    }
                    lemma_total_push(s, e);
                    assert forall|x: int, y: int|
                        0 <= x < y < self.accounts@.len() implies self.accounts@[x].addr@
                        != self.accounts@[y].addr@ by {
                        if y < s.len() {
                            assert(self.accounts@[x].addr@ == s[x].addr@);
                            assert(self.accounts@[y].addr@ == s[y].addr@);
                        } else {
                            assert(self.accounts@[x].addr@ == s[x].addr@);
                            assert(self.accounts@[y].addr@ == addr@);
                        }
                    }
                }
            },
        }
    }

    fn debit(&mut self, addr: &Vec<u8>, amount: u64)
        requires
            old(self).wf(),
            amount <= old(self).balance_of(addr@),
        ensures
            final(self).wf(),
            final(self).balance_of(addr@) == old(self).balance_of(addr@) - amount,
            forall|a: Seq<u8>|
                a != addr@ ==> #[trigger] final(self).balance_of(a) == old(self).balance_of(a),
            final(self).total() == old(self).total() - amount,
            final(self).records@ == old(self).records@,
            final(self).program_id@ == old(self).program_id@,
            final(self).reserve_floor == old(self).reserve_floor,
            final(self).record_rent == old(self).record_rent,
    {
        match self.find_account(addr) {
            Some(i) => {
                proof {
                    lemma_balance_at_index(self.accounts@, i as int);
                }
                let ghost s = self.accounts@;
                let entry = &mut self.accounts[i];
                entry.balance = entry.balance - amount;
                proof {
                    let e = self.accounts@[i as int];
                    assert forall|a: Seq<u8>| true implies #[trigger] balance_in(
                        self.accounts@,
                        a,
                    ) == (if a == s[i as int].addr@ {
                        e.balance
                    } else {
                        balance_in(s, a)
                    }) by {
                        lemma_balance_update(s, i as int, e, a);
                    }
                    lemma_total_update(s, i as int, e);
                    lemma_balance_le_total(s, addr@);
                    assert forall|x: int, y: int|
                        0 <= x < y < self.accounts@.len() implies self.accounts@[x].addr@
                        != self.accounts@[y].addr@ by {
                        assert(self.accounts@[x].addr@ == s[x].addr@);
                        assert(self.accounts@[y].addr@ == s[y].addr@);
                    }
                }
            },
            None => {
                proof {
                    lemma_balance_absent(self.accounts@, addr@);
                }
            },
        }
    }

    fn move_value(&mut self, from: &Vec<u8>, to: &Vec<u8>, amount: u64)
        requires
            old(self).wf(),
            amount <= old(self).balance_of(from@),
        ensures
            final(self).wf(),
            forall|a: Seq<u8>|
                #[trigger] final(self).balance_of(a) == old(self).balance_of(a) - (if a == from@ {
                    amount as int
                } else {
                    0
                }) + (if a == to@ {
                    amount as int
                } else {
                    0
                }),
            final(self).total() == old(self).total(),
            final(self).records@ == old(self).records@,
            final(self).program_id@ == old(self).program_id@,
            final(self).reserve_floor == old(self).reserve_floor,
            final(self).record_rent == old(self).record_rent,
    {
        proof {
            lemma_balance_le_total(self.accounts@, from@);
        }
        self.debit(from, amount);
        self.credit(to, amount);
    }

    /// Value entering the model from outside: credit `amount` at `addr`.
    /// This is how an owner's external balance is introduced.
    pub fn fund(&mut self, addr: &Vec<u8>, amount: u64)
        requires
            old(self).wf(),
            old(self).total() + amount <= u64::MAX,
        ensures
            final(self).wf(),
            final(self).balance_of(addr@) == old(self).balance_of(addr@) + amount,
            forall|a: Seq<u8>|
                a != addr@ ==> #[trigger] final(self).balance_of(a) == old(self).balance_of(a),
            final(self).total() == old(self).total() + amount,
            final(self).records@ == old(self).records@,
            final(self).same_config(*old(self)),
    {
        self.credit(addr, amount);
    }

    fn validate_access(&self, owner: &Vec<u8>) -> (r: Option<(Vec<u8>, Vec<u8>)>)
        requires
            self.wf(),
        ensures
            r matches Some(p) ==> self.validated(owner@) == Some((p.0@, p.1@)) && p.0@.len() == 32
                && p.1@.len() == 32,
            r is None ==> self.validated(owner@) is None,
    {
        let tag_s = state_tag_bytes();
        let sd = crate::derivation::derive(&tag_s, owner, &self.program_id);
        let (s_addr, _s_bump) = match sd {
            Some(p) => p,
            None => {
                return None;
            },
        };
        let rec = match self.record(&s_addr) {
            Some(rc) => rc,
            None => {
                return None;
            },
        };
        if !validate(&tag_s, owner, rec.state_bump, &s_addr, &self.program_id) {
            return None;
        }
        let tag_v = vault_tag_bytes();
        let v_addr = match create_address(&tag_v, &s_addr, rec.vault_bump, &self.program_id) {
            Some(a) => a,
            None => {
                return None;
            },
        };
        Some((s_addr, v_addr))
    }

    /// Allocate the owner's record at the derived state address, fixing both
    /// nonces for the life of the vault, and seed the vault with the reserve
    /// floor. Fails with `AlreadyInitialized` where a record already exists,
    /// with `InvalidDerivation` where no nonce in the search space is valid,
    /// and with `InsufficientFunds` where the owner cannot cover the
    /// record's rent and the reserve seed; on any failure the ledger is
    /// unchanged.
    pub fn initialize(&mut self, owner: &Vec<u8>) -> (r: Result<(), VaultError>)
        requires
            old(self).wf(),
        ensures
            final(self).wf(),
            initialize_post(*old(self), *final(self), owner@, r),
    {
        let tag_s = state_tag_bytes();
        let sd = crate::derivation::derive(&tag_s, owner, &self.program_id);
        let (s_addr, s_bump) = match sd {
            Some(p) => p,
            None => {
                return Err(VaultError::InvalidDerivation);
            },
        };
        if self.record(&s_addr).is_some() {
            return Err(VaultError::AlreadyInitialized);
        }
        let tag_v = vault_tag_bytes();
        let vd = crate::derivation::derive(&tag_v, &s_addr, &self.program_id);
        let (v_addr, v_bump) = match vd {
            Some(p) => p,
            None => {
                return Err(VaultError::InvalidDerivation);
            },
        };
        let rent = self.record_rent;
        let reserve = self.reserve_floor;
        let bal = self.balance(owner);
        if bal < rent || bal - rent < reserve {
            return Err(VaultError::InsufficientFunds);
        }
        let ghost pre = *self;
        self.move_value(owner, &s_addr, rent);
        let ghost mid = *self;
        proof {
            assert(mid.balance_of(owner@) >= reserve);
        }
        self.move_value(owner, &v_addr, reserve);
        let ghost moved = *self;
        let ghost recs = self.records@;
        proof {
            assert forall|j: int| 0 <= j < recs.len() implies recs[j].addr@ != s_addr@ by {
                if recs[j].addr@ == s_addr@ {
                    lemma_record_at_index(recs, j);
                }
            }
        }
        let entry = RecordEntry {
            addr: s_addr,
            record: VaultState { vault_bump: v_bump, state_bump: s_bump },
        };
        self.records.push(entry);
        proof {
            let sp = pre.state_derivation(owner@).unwrap();
            let vp = pre.vault_derivation(sp.0).unwrap();
            let e = self.records@[recs.len() as int];
            assert forall|a: Seq<u8>| true implies #[trigger] record_in(self.records@, a) == (
            if a == sp.0 {
                Some(e.record)
            } else {
                record_in(recs, a)
            }) by {
                lemma_record_push(recs, e, a);
            }
            assert forall|x: int, y: int|
                0 <= x < y < self.records@.len() implies self.records@[x].addr@
                != self.records@[y].addr@ by {
                if y < recs.len() {
                    assert(self.records@[x].addr@ == recs[x].addr@);
                    assert(self.records@[y].addr@ == recs[y].addr@);
                } else {
                    assert(self.records@[x].addr@ == recs[x].addr@);
                    assert(self.records@[y].addr@ == sp.0);
                }
            }
            assert forall|a: Seq<u8>| true implies #[trigger] self.balance_of(a)
                == pre.balance_of(a) - (if a == owner@ {
                pre.record_rent + pre.reserve_floor
            } else {
                0
            }) + (if a == sp.0 {
                pre.record_rent as int
            } else {
                0
            }) + (if a == vp.0 {
                pre.reserve_floor as int
            } else {
                0
            }) by {
                assert(mid.balance_of(a) == pre.balance_of(a) - (if a == owner@ {
                    rent as int
                } else {
                    0
                }) + (if a == s_addr@ {
                    rent as int
                } else {
                    0
                }));
                assert(moved.balance_of(a) == mid.balance_of(a) - (if a == owner@ {
                    reserve as int
                } else {
                    0
                }) + (if a == v_addr@ {
                    reserve as int
                } else {
                    0
                }));
            }
        }
        Ok(())
    }

    /// Move `amount` from the owner's external account into the vault,
    /// authorized by the owner alone. Fails with `InvalidDerivation` where
    /// the record is missing or a stored nonce no longer validates, and
    /// with `InsufficientFunds` where the owner's balance is short; on any
    /// failure the ledger is unchanged.
    pub fn deposit(&mut self, owner: &Vec<u8>, amount: u64) -> (r: Result<(), VaultError>)
        requires
            old(self).wf(),
            amount > 0,
        ensures
            final(self).wf(),
            deposit_post(*old(self), *final(self), owner@, amount, r),
    {
        let sv = match self.validate_access(owner) {
            Some(p) => p,
            None => {
                return Err(VaultError::InvalidDerivation);
            },
        };
        let bal = self.balance(owner);
        if bal < amount {
            return Err(VaultError::InsufficientFunds);
        }
        self.move_value(owner, &sv.1, amount);
        Ok(())
    }

    /// Move `amount` from the vault to the owner, authorized by the program
    /// as the vault's issuer through the stored nonce. Fails with
    /// `InsufficientFunds` exactly when the vault would be left below the
    /// reserve floor, and with `InvalidDerivation` where the record is
    /// missing or a stored nonce no longer validates; on any failure the
    /// ledger is unchanged.
    pub fn withdraw(&mut self, owner: &Vec<u8>, amount: u64) -> (r: Result<(), VaultError>)
        requires
            old(self).wf(),
            amount > 0,
        ensures
            final(self).wf(),
            withdraw_post(*old(self), *final(self), owner@, amount, r),
    {
        let sv = match self.validate_access(owner) {
            Some(p) => p,
            None => {
                return Err(VaultError::InvalidDerivation);
            },
        };
        let vbal = self.balance(&sv.1);
        let reserve = self.reserve_floor;
        if vbal < reserve || vbal - reserve < amount {
            return Err(VaultError::InsufficientFunds);
        }
        self.move_value(&sv.1, owner, amount);
        Ok(())
    }

    /// Sweep the vault's whole balance to the owner, return the record's
    /// rent, and deallocate the record, atomically. Fails only with
    /// `InvalidDerivation`, where the record is missing or a stored nonce no
    /// longer validates; the ledger is then unchanged. A zero-balance vault
    /// closes as a sweep of zero.
    pub fn close(&mut self, owner: &Vec<u8>) -> (r: Result<(), VaultError>)
        requires
            old(self).wf(),
        ensures
            final(self).wf(),
            close_post(*old(self), *final(self), owner@, r),
    {
        let sv = match self.validate_access(owner) {
            Some(p) => p,
            None => {
                return Err(VaultError::InvalidDerivation);
            },
        };
        let ghost pre = *self;
        let vbal = self.balance(&sv.1);
        self.move_value(&sv.1, owner, vbal);
        let ghost mid = *self;
        let sbal = self.balance(&sv.0);
        self.move_value(&sv.0, owner, sbal);
        let ghost moved = *self;
        let idx = match self.find_record(&sv.0) {
            Some(i) => i,
            None => {
                proof {
                    lemma_record_absent(self.records@, sv.0@);
                }
                return Err(VaultError::InvalidDerivation);
            },
        };
        let ghost recs = self.records@;
        self.records.remove(idx);
        proof {
            assert forall|a: Seq<u8>| true implies #[trigger] record_in(self.records@, a) == (
            if a == sv.0@ {
                None::<VaultState>
            } else {
                record_in(recs, a)
            }) by {
                lemma_record_remove(recs, idx as int, a);
            }
            assert forall|x: int, y: int|
                0 <= x < y < self.records@.len() implies self.records@[x].addr@
                != self.records@[y].addr@ by {
                assert(self.records@ == recs.remove(idx as int));
                if y < idx {
                    assert(self.records@[x] == recs[x]);
                    assert(self.records@[y] == recs[y]);
                } else if x < idx {
                    assert(self.records@[x] == recs[x]);
                    assert(self.records@[y] == recs[y + 1]);
                } else {
                    assert(self.records@[x] == recs[x + 1]);
                    assert(self.records@[y] == recs[y + 1]);
                }
            }
            let b0 = (|a: Seq<u8>| pre.balance_of(a) as int);
            let b1 = sweep(b0, sv.1@, owner@);
            let b2 = sweep(b1, sv.0@, owner@);
            assert forall|a: Seq<u8>| true implies #[trigger] self.balance_of(a) == b2(a) by {
                assert(mid.balance_of(a) == pre.balance_of(a) - (if a == sv.1@ {
                    vbal as int
                } else {
                    0
                }) + (if a == owner@ {
                    vbal as int
                } else {
                    0
                }));
                assert(moved.balance_of(a) == mid.balance_of(a) - (if a == sv.0@ {
                    sbal as int
                } else {
                    0
                }) + (if a == owner@ {
                    sbal as int
                } else {
                    0
                }));
                assert(b1(a) == (if sv.1@ == owner@ {
                    b0(a)
                } else if a == sv.1@ {
                    0
                } else if a == owner@ {
                    b0(owner@) + b0(sv.1@)
                } else {
                    b0(a)
                }));
                assert(b2(a) == (if sv.0@ == owner@ {
                    b1(a)
                } else if a == sv.0@ {
                    0
                } else if a == owner@ {
                    b1(owner@) + b1(sv.0@)
                } else {
                    b1(a)
                }));
                assert(b1(sv.0@) == mid.balance_of(sv.0@));
                assert(b1(owner@) == mid.balance_of(owner@));
            }
        }
        Ok(())
    }
}

} // verus!
