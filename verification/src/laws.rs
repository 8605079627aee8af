//! The laws the vault obeys, stated over the contracts of the derivation
//! and ledger operations and proved once and for all.

use vstd::prelude::*;

use crate::derivation::lemma_derive_from_props;
use crate::derivation::spec_derive;
use crate::derivation::state_tag;
use crate::derivation::vault_tag;
use crate::error::VaultError;
use crate::ledger::close_post;
use crate::ledger::deposit_post;
use crate::ledger::initialize_post;
use crate::ledger::sweep;
use crate::ledger::withdraw_post;
use crate::ledger::Ledger;

verus! {

/// Derivation determinism: the derivation search is a function of the tag,
/// the seed material and the program id alone, so any two results of it on
/// the same inputs agree. `derive` pins its result to this function, so
/// repeated calls yield the same pair.
pub proof fn lemma_derivation_deterministic(
    tag: Seq<u8>,
    seed: Seq<u8>,
    program_id: Seq<u8>,
    r1: Option<(Seq<u8>, u8)>,
    r2: Option<(Seq<u8>, u8)>,
)
    ensures
        r1 == spec_derive(tag, seed, program_id) && r2 == spec_derive(tag, seed, program_id)
            ==> r1 == r2,
{
    if r1 == spec_derive(tag, seed, program_id) && r2 == spec_derive(tag, seed, program_id) {
        assert(r1 == r2);
    }
}

/// Binding, as far as determinism carries it: vault derivations that
/// disagree can only have come from distinct record addresses. The converse
/// — that distinct record addresses never collide on one vault address —
/// is a property of the underlying hash that no contract here states; the
/// tests check it on concrete values.
pub proof fn lemma_vault_binding(state1: Seq<u8>, state2: Seq<u8>, program_id: Seq<u8>)
    ensures
        spec_derive(vault_tag(), state1, program_id) != spec_derive(vault_tag(), state2, program_id)
            ==> state1 != state2,
{
    if state1 == state2 {
        assert(spec_derive(vault_tag(), state1, program_id) == spec_derive(
            vault_tag(),
            state2,
            program_id,
        ));
    }
}

/// Round-trip balance conservation: a successful deposit of `amount`
/// followed by a successful withdrawal of the same `amount` restores every
/// balance — the owner's net change is zero and the vault is back at its
/// pre-deposit balance — and leaves records and configuration untouched.
pub proof fn lemma_round_trip(l0: Ledger, l1: Ledger, l2: Ledger, owner: Seq<u8>, amount: u64)
    requires
        deposit_post(l0, l1, owner, amount, Ok(())),
        withdraw_post(l1, l2, owner, amount, Ok(())),
    ensures
        forall|a: Seq<u8>| #[trigger] l2.balance_of(a) == l0.balance_of(a),
        l2.records@ == l0.records@,
        l2.same_config(l0),
{
    assert(l1.program_id@ == l0.program_id@);
    assert(l1.state_derivation(owner) == l0.state_derivation(owner));
    assert(l1.validated(owner) == l0.validated(owner));
    let sv = l0.validated(owner).unwrap();
    assert forall|a: Seq<u8>| #[trigger] l2.balance_of(a) == l0.balance_of(a) by {
        assert(l1.balance_of(a) == l0.balance_of(a) - (if a == owner {
            amount as int
        } else {
            0
        }) + (if a == sv.1 {
            amount as int
        } else {
            0
        }));
        assert(l2.balance_of(a) == l1.balance_of(a) - (if a == sv.1 {
            amount as int
        } else {
            0
        }) + (if a == owner {
            amount as int
        } else {
            0
        }));
    }
}

/// Reserve floor enforcement: a withdrawal fails with `InsufficientFunds`
/// exactly when the amount would take the vault below the reserve floor,
/// and at the boundary — the amount that leaves exactly the floor — it
/// succeeds and the vault is left holding precisely the floor.
pub proof fn lemma_reserve_floor(
    pre: Ledger,
    post: Ledger,
    owner: Seq<u8>,
    amount: u64,
    r: Result<(), VaultError>,
)
    requires
        withdraw_post(pre, post, owner, amount, r),
    ensures
        pre.validated(owner) matches Some(sv) ==> {
            &&& (r == Err::<(), VaultError>(VaultError::InsufficientFunds) <==> amount
                + pre.reserve_floor > pre.balance_of(sv.1))
            &&& (amount + pre.reserve_floor <= pre.balance_of(sv.1) ==> r == Ok::<(), VaultError>(
                (),
            ))
            &&& (amount == pre.balance_of(sv.1) - pre.reserve_floor && owner != sv.1 ==> r
                == Ok::<(), VaultError>(()) && post.balance_of(sv.1) == pre.reserve_floor)
        },
{
    if pre.validated(owner) is Some {
        let sv = pre.validated(owner).unwrap();
        if amount + pre.reserve_floor <= pre.balance_of(sv.1) {
            assert(post.balance_of(sv.1) == pre.balance_of(sv.1) - (if sv.1 == sv.1 {
                amount as int
            } else {
                0
            }) + (if sv.1 == owner {
                amount as int
            } else {
                0
            }));
        }
    }
}

/// Close sweeps fully: after a successful close the record is gone, the
/// vault and state addresses hold nothing, and — where the three addresses
/// are distinct — the owner has gained the vault's whole prior balance plus
/// the record's rent, whatever the prior vault balance was.
pub proof fn lemma_close_sweeps(pre: Ledger, post: Ledger, owner: Seq<u8>)
    requires
        close_post(pre, post, owner, Ok(())),
    ensures
        pre.validated(owner) matches Some(sv) ==> {
            &&& post.record_of(sv.0) is None
            &&& (owner != sv.1 ==> post.balance_of(sv.1) == 0)
            &&& (owner != sv.0 ==> post.balance_of(sv.0) == 0)
            &&& (owner != sv.0 && owner != sv.1 && sv.0 != sv.1 ==> post.balance_of(owner)
                == pre.balance_of(owner) + pre.balance_of(sv.1) + pre.balance_of(sv.0))
        },
{
    let sv = pre.validated(owner).unwrap();
    let b0 = (|a: Seq<u8>| pre.balance_of(a) as int);
    let b1 = sweep(b0, sv.1, owner);
    let b2 = sweep(b1, sv.0, owner);
    assert(post.balance_of(sv.1) == b2(sv.1));
    assert(post.balance_of(sv.0) == b2(sv.0));
    assert(post.balance_of(owner) == b2(owner));
}

/// A record written by `initialize` passes the access check of every later
/// operation: the stored nonces re-validate against the derived addresses,
/// and the pair the check yields is exactly the derived state and vault
/// address.
pub proof fn lemma_initialize_validates(pre: Ledger, post: Ledger, owner: Seq<u8>)
    requires
        initialize_post(pre, post, owner, Ok(())),
    ensures
        pre.state_derivation(owner) matches Some(sp) ==> {
            &&& pre.vault_derivation(sp.0) is Some
            &&& post.validated(owner) == Some((sp.0, pre.vault_derivation(sp.0).unwrap().0))
        },
{
    let sp = pre.state_derivation(owner).unwrap();
    let vp = pre.vault_derivation(sp.0).unwrap();
    lemma_derive_from_props(state_tag(), owner, 255u8, pre.program_id@);
    lemma_derive_from_props(vault_tag(), sp.0, 255u8, pre.program_id@);
    assert(post.state_derivation(owner) == pre.state_derivation(owner));
    assert(post.record_of(sp.0) == Some(
        crate::ledger::VaultState { vault_bump: vp.1, state_bump: sp.1 },
    ));
}

/// No double-initialize: after one successful `initialize` for an owner, a
/// second `initialize` for the same owner fails with `AlreadyInitialized`
/// and changes nothing.
pub proof fn lemma_no_double_initialize(
    l0: Ledger,
    l1: Ledger,
    l2: Ledger,
    owner: Seq<u8>,
    r2: Result<(), VaultError>,
)
    requires
        initialize_post(l0, l1, owner, Ok(())),
        initialize_post(l1, l2, owner, r2),
    ensures
        r2 == Err::<(), VaultError>(VaultError::AlreadyInitialized),
        l2 == l1,
{
    assert(l1.program_id@ == l0.program_id@);
    assert(l1.state_derivation(owner) == l0.state_derivation(owner));
    let sp = l0.state_derivation(owner).unwrap();
    assert(l1.record_of(sp.0) is Some);
}

} // verus!
