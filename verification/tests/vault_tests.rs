use vault::derivation::state_tag_bytes;
use vault::derivation::validate;
use vault::derivation::vault_tag_bytes;
use vault::error::VaultError;
use vault::ledger::Ledger;

fn pid() -> Vec<u8> {
    vec![7u8; 32]
}

fn owner_a() -> Vec<u8> {
    vec![1u8; 32]
}

fn owner_b() -> Vec<u8> {
    vec![2u8; 32]
}

const RESERVE: u64 = 1_000;
const RENT: u64 = 50;

fn funded_ledger(owner: &Vec<u8>, amount: u64) -> Ledger {
    let mut l = Ledger::new(pid(), RESERVE, RENT);
    l.fund(owner, amount);
    l
}

fn state_addr_of(owner: &Vec<u8>) -> (Vec<u8>, u8) {
    vault::derivation::derive(&state_tag_bytes(), owner, &pid()).unwrap()
}

fn vault_addr_of(state_addr: &Vec<u8>) -> (Vec<u8>, u8) {
    vault::derivation::derive(&vault_tag_bytes(), state_addr, &pid()).unwrap()
}

#[test]
fn derive_is_deterministic() {
    let owner = owner_a();
    let r1 = vault::derivation::derive(&state_tag_bytes(), &owner, &pid());
    let r2 = vault::derivation::derive(&state_tag_bytes(), &owner, &pid());
    assert!(r1.is_some());
    assert_eq!(r1, r2);
}

#[test]
fn derive_matches_host_search() {
    // The search must agree with the host's own search over the same seeds.
    let owner = owner_a();
    let (addr, bump) = state_addr_of(&owner);
    let mut pid_bytes = [0u8; 32];
    pid_bytes.copy_from_slice(&pid());
    let program = anchor_lang::prelude::Pubkey::new_from_array(pid_bytes);
    let (expected, expected_bump) = anchor_lang::prelude::Pubkey::find_program_address(
        &[b"state", owner.as_slice()],
        &program,
    );
    assert_eq!(addr, expected.to_bytes().to_vec());
    assert_eq!(bump, expected_bump);
}

#[test]
fn distinct_owners_distinct_vaults() {
    let (s1, _) = state_addr_of(&owner_a());
    let (s2, _) = state_addr_of(&owner_b());
    assert_ne!(s1, s2);
    let (v1, _) = vault_addr_of(&s1);
    let (v2, _) = vault_addr_of(&s2);
    assert_ne!(v1, v2);
    assert_ne!(v1, s1);
    assert_ne!(v2, s2);
}

#[test]
fn validate_rejects_wrong_nonce() {
    let owner = owner_a();
    let (addr, bump) = state_addr_of(&owner);
    assert!(validate(&state_tag_bytes(), &owner, bump, &addr, &pid()));
    assert!(!validate(&state_tag_bytes(), &owner, bump.wrapping_sub(1), &addr, &pid()));
    assert!(!validate(&vault_tag_bytes(), &owner, bump, &addr, &pid()));
}

#[test]
fn initialize_creates_record_and_seeds_vault() {
    let owner = owner_a();
    let mut l = funded_ledger(&owner, 10_000);
    assert_eq!(l.initialize(&owner), Ok(()));
    let (s_addr, s_bump) = state_addr_of(&owner);
    let (v_addr, v_bump) = vault_addr_of(&s_addr);
    let rec = l.record(&s_addr).unwrap();
    assert_eq!(rec.state_bump, s_bump);
    assert_eq!(rec.vault_bump, v_bump);
    assert_eq!(l.balance(&v_addr), RESERVE);
    assert_eq!(l.balance(&s_addr), RENT);
    assert_eq!(l.balance(&owner), 10_000 - RESERVE - RENT);
}

#[test]
fn initialize_insufficient_funds() {
    let owner = owner_a();
    let mut l = funded_ledger(&owner, RESERVE + RENT - 1);
    assert_eq!(l.initialize(&owner), Err(VaultError::InsufficientFunds));
    let (s_addr, _) = state_addr_of(&owner);
    assert!(l.record(&s_addr).is_none());
    assert_eq!(l.balance(&owner), RESERVE + RENT - 1);
}

#[test]
fn no_double_initialize() {
    let owner = owner_a();
    let mut l = funded_ledger(&owner, 10_000);
    assert_eq!(l.initialize(&owner), Ok(()));
    let before = l.balance(&owner);
    assert_eq!(l.initialize(&owner), Err(VaultError::AlreadyInitialized));
    assert_eq!(l.balance(&owner), before);
}

#[test]
fn deposit_without_initialize_is_rejected() {
    let owner = owner_a();
    let mut l = funded_ledger(&owner, 10_000);
    assert_eq!(l.deposit(&owner, 100), Err(VaultError::InvalidDerivation));
    assert_eq!(l.balance(&owner), 10_000);
}

#[test]
fn deposit_insufficient_owner_funds() {
    let owner = owner_a();
    let mut l = funded_ledger(&owner, RESERVE + RENT + 100);
    assert_eq!(l.initialize(&owner), Ok(()));
    assert_eq!(l.deposit(&owner, 101), Err(VaultError::InsufficientFunds));
    assert_eq!(l.deposit(&owner, 100), Ok(()));
    assert_eq!(l.balance(&owner), 0);
}

#[test]
fn withdraw_reserve_floor_boundary() {
    let owner = owner_a();
    let mut l = funded_ledger(&owner, 10_000);
    assert_eq!(l.initialize(&owner), Ok(()));
    assert_eq!(l.deposit(&owner, 500), Ok(()));
    let (s_addr, _) = state_addr_of(&owner);
    let (v_addr, _) = vault_addr_of(&s_addr);
    assert_eq!(l.balance(&v_addr), RESERVE + 500);
    // one unit over the floor fails, the exact boundary succeeds
    assert_eq!(l.withdraw(&owner, 501), Err(VaultError::InsufficientFunds));
    assert_eq!(l.balance(&v_addr), RESERVE + 500);
    assert_eq!(l.withdraw(&owner, 500), Ok(()));
    assert_eq!(l.balance(&v_addr), RESERVE);
    // nothing above the floor is left
    assert_eq!(l.withdraw(&owner, 1), Err(VaultError::InsufficientFunds));
}

#[test]
fn round_trip_preserves_balances() {
    let owner = owner_a();
    let mut l = funded_ledger(&owner, 10_000);
    assert_eq!(l.initialize(&owner), Ok(()));
    let (s_addr, _) = state_addr_of(&owner);
    let (v_addr, _) = vault_addr_of(&s_addr);
    let owner_before = l.balance(&owner);
    let vault_before = l.balance(&v_addr);
    assert_eq!(l.deposit(&owner, 777), Ok(()));
    assert_eq!(l.withdraw(&owner, 777), Ok(()));
    assert_eq!(l.balance(&owner), owner_before);
    assert_eq!(l.balance(&v_addr), vault_before);
}

#[test]
fn close_sweeps_fully() {
    let owner = owner_a();
    let mut l = funded_ledger(&owner, 10_000);
    assert_eq!(l.initialize(&owner), Ok(()));
    assert_eq!(l.deposit(&owner, 2_000), Ok(()));
    let (s_addr, _) = state_addr_of(&owner);
    let (v_addr, _) = vault_addr_of(&s_addr);
    assert_eq!(l.close(&owner), Ok(()));
    assert_eq!(l.balance(&v_addr), 0);
    assert_eq!(l.balance(&s_addr), 0);
    assert!(l.record(&s_addr).is_none());
    assert_eq!(l.balance(&owner), 10_000);
    // with the record gone, further operations are rejected
    assert_eq!(l.withdraw(&owner, 1), Err(VaultError::InvalidDerivation));
}

#[test]
fn close_with_empty_vault_is_a_zero_sweep() {
    let owner = owner_b();
    let mut l = funded_ledger(&owner, RESERVE + RENT);
    assert_eq!(l.initialize(&owner), Ok(()));
    assert_eq!(l.balance(&owner), 0);
    assert_eq!(l.close(&owner), Ok(()));
    assert_eq!(l.balance(&owner), RESERVE + RENT);
    let (s_addr, _) = state_addr_of(&owner);
    assert!(l.record(&s_addr).is_none());
}

#[test]
fn scenario_full_lifecycle() {
    let owner = owner_a();
    let mut l = funded_ledger(&owner, 10_000);
    assert_eq!(l.initialize(&owner), Ok(()));
    let (s_addr, _) = state_addr_of(&owner);
    let (v_addr, _) = vault_addr_of(&s_addr);
    assert_eq!(l.balance(&v_addr), RESERVE);
    assert_eq!(l.deposit(&owner, 1_000), Ok(()));
    assert_eq!(l.balance(&v_addr), 1_000 + RESERVE);
    assert_eq!(l.withdraw(&owner, 1_000), Ok(()));
    assert_eq!(l.balance(&v_addr), RESERVE);
    assert_eq!(l.close(&owner), Ok(()));
    assert!(l.record(&s_addr).is_none());
    assert_eq!(l.balance(&v_addr), 0);
    assert_eq!(l.balance(&owner), 10_000);
}

#[test]
fn two_owners_are_independent() {
    let a = owner_a();
    let b = owner_b();
    let mut l = Ledger::new(pid(), RESERVE, RENT);
    l.fund(&a, 5_000);
    l.fund(&b, 5_000);
    assert_eq!(l.initialize(&a), Ok(()));
    assert_eq!(l.initialize(&b), Ok(()));
    assert_eq!(l.deposit(&a, 100), Ok(()));
    let (sb, _) = state_addr_of(&b);
    let (vb, _) = vault_addr_of(&sb);
    assert_eq!(l.balance(&vb), RESERVE);
    assert_eq!(l.close(&b), Ok(()));
    let (sa, _) = state_addr_of(&a);
    let (va, _) = vault_addr_of(&sa);
    assert_eq!(l.balance(&va), RESERVE + 100);
    assert!(l.record(&sa).is_some());
}
