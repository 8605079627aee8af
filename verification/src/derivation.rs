//! Deterministic derivation of the two per-owner addresses.
//!
//! An address is derived from a domain tag, seed material and a one-byte
//! nonce; the derivation is valid only when the resulting address falls
//! outside the set of addresses that could have a private key. The search
//! walks the nonce space from the top down and takes the first valid nonce,
//! so the pair `(address, nonce)` is a function of the tag, the seed and the
//! program id alone.

use vstd::prelude::*;

verus! {

/// What `Pubkey::create_program_address([tag, seed, [nonce]], program_id)`
/// returns: `Some(address)` when the hashed candidate falls outside the
/// space of addresses with a private key, `None` when it does not or when a
/// seed is over the host's length cap. The result is a function of the
/// arguments alone.
pub uninterp spec fn pda_of(tag: Seq<u8>, seed: Seq<u8>, nonce: u8, program_id: Seq<u8>) -> Option<Seq<u8>>;

/// Relies on `Pubkey::create_program_address` (re-exported by anchor_lang):
/// it hashes the seeds and the program id, returns `Err` exactly when the
/// candidate lies on the signing curve or a seed exceeds the host's length
/// cap, and otherwise returns the 32-byte derived address. The result
/// depends on the arguments alone.
#[verifier::external_body]
pub(crate) fn create_address(tag: &Vec<u8>, seed: &Vec<u8>, nonce: u8, program_id: &Vec<u8>) -> (r: Option<Vec<u8>>)
    requires
        program_id@.len() == 32,
    ensures
        r is Some <==> pda_of(tag@, seed@, nonce, program_id@) is Some,
        r matches Some(a) ==> pda_of(tag@, seed@, nonce, program_id@) == Some(a@) && a@.len() == 32,
{
    let mut pid_bytes = [0u8; 32];
    pid_bytes.copy_from_slice(program_id.as_slice());
    let pid = anchor_lang::prelude::Pubkey::new_from_array(pid_bytes);
    let bump = [nonce];
    let seeds: [&[u8]; 3] = [tag.as_slice(), seed.as_slice(), &bump];
    match anchor_lang::prelude::Pubkey::create_program_address(&seeds, &pid) {
        Ok(a) => Some(a.to_bytes().to_vec()),
        Err(_) => None,
    }
}

/// The domain tag of the per-owner record.
pub open spec fn state_tag() -> Seq<u8> {
    seq![115u8, 116u8, 97u8, 116u8, 101u8]
}

/// The domain tag of the fund-holding account.
pub open spec fn vault_tag() -> Seq<u8> {
    seq![118u8, 97u8, 117u8, 108u8, 116u8]
}

/// The record's domain tag as bytes.
pub fn state_tag_bytes() -> (r: Vec<u8>)
    ensures
        r@ == state_tag(),
{
    let mut v: Vec<u8> = Vec::new();
    v.push(115u8);
    v.push(116u8);
    v.push(97u8);
    v.push(116u8);
    v.push(101u8);
    proof {
        assert(v@ =~= state_tag());
    }
    v
}

/// The vault's domain tag as bytes.
pub fn vault_tag_bytes() -> (r: Vec<u8>)
    ensures
        r@ == vault_tag(),
{
    let mut v: Vec<u8> = Vec::new();
    v.push(118u8);
    v.push(97u8);
    v.push(117u8);
    v.push(108u8);
    v.push(116u8);
    proof {
        assert(v@ =~= vault_tag());
    }
    v
}

/// The first valid derivation at or below `from`: the highest nonce
/// `n <= from` for which `pda_of` yields an address, with that address.
pub open spec fn derive_from(tag: Seq<u8>, seed: Seq<u8>, from: u8, program_id: Seq<u8>) -> Option<(Seq<u8>, u8)>
    decreases from,
{
    match pda_of(tag, seed, from, program_id) {
        Some(addr) => Some((addr, from)),
        None => if from == 0 {
            None
        } else {
            derive_from(tag, seed, (from - 1) as u8, program_id)
        },
    }
}

/// The derivation search over the whole one-byte nonce space, from the top
/// down.
pub open spec fn spec_derive(tag: Seq<u8>, seed: Seq<u8>, program_id: Seq<u8>) -> Option<(Seq<u8>, u8)> {
    derive_from(tag, seed, 255u8, program_id)
}

/// What the search result means: a hit is the highest valid nonce at or
/// below the starting point, and a miss means no nonce at or below it is
/// valid.
pub proof fn lemma_derive_from_props(tag: Seq<u8>, seed: Seq<u8>, from: u8, program_id: Seq<u8>)
    ensures
        derive_from(tag, seed, from, program_id) matches Some(p) ==> {
            &&& p.1 <= from
            &&& pda_of(tag, seed, p.1, program_id) == Some(p.0)
            &&& forall|n: u8| p.1 < n <= from ==> #[trigger] pda_of(tag, seed, n, program_id) is None
        },
        derive_from(tag, seed, from, program_id) is None ==> forall|n: u8|
            n <= from ==> #[trigger] pda_of(tag, seed, n, program_id) is None,
    decreases from,
{
    if pda_of(tag, seed, from, program_id) is None && from > 0 {
        lemma_derive_from_props(tag, seed, (from - 1) as u8, program_id);
    }
}

/// Search the one-byte nonce space from the top down for the first nonce
/// that yields a valid derived address. Returns the address and the nonce,
/// or nothing when no nonce in the space is valid.
pub fn derive(tag: &Vec<u8>, seed: &Vec<u8>, program_id: &Vec<u8>) -> (r: Option<(Vec<u8>, u8)>)
    requires
        program_id@.len() == 32,
    ensures
        r matches Some(p) ==> spec_derive(tag@, seed@, program_id@) == Some((p.0@, p.1)) && p.0@.len() == 32
            && pda_of(tag@, seed@, p.1, program_id@) == Some(p.0@) && (forall|n: u8|
            n > p.1 ==> #[trigger] pda_of(tag@, seed@, n, program_id@) is None),
        r is None ==> spec_derive(tag@, seed@, program_id@) is None && (forall|n: u8|
            #[trigger] pda_of(tag@, seed@, n, program_id@) is None),
{
    let mut nonce: u8 = 255;
    loop
        invariant
            program_id@.len() == 32,
            spec_derive(tag@, seed@, program_id@) == derive_from(tag@, seed@, nonce, program_id@),
        decreases nonce,
    {
        proof {
            lemma_derive_from_props(tag@, seed@, 255u8, program_id@);
        }
        match create_address(tag, seed, nonce, program_id) {
            Some(addr) => {
                return Some((addr, nonce));
            },
            None => {
                if nonce == 0 {
                    return None;
                }
                nonce = nonce - 1;
            },
        }
    }
}

/// Byte-for-byte equality of two byte strings.
pub fn bytes_eq(a: &Vec<u8>, b: &Vec<u8>) -> (r: bool)
    ensures
        r == (a@ == b@),
{
    if a.len() != b.len() {
        return false;
    }
    let mut i: usize = 0;
    while i < a.len()
        invariant
            i <= a@.len(),
            a@.len() == b@.len(),
            forall|j: int| 0 <= j < i ==> a@[j] == b@[j],
        decreases a@.len() - i,
    {
        if a[i] != b[i] {
            return false;
        }
        i = i + 1;
    }
    proof {
        assert(a@ =~= b@);
    }
    true
}

/// The sole authenticity check binding a record to its owner: re-derive the
/// address for a claimed nonce and require equality with the supplied
/// address.
pub fn validate(tag: &Vec<u8>, seed: &Vec<u8>, nonce: u8, expected: &Vec<u8>, program_id: &Vec<u8>) -> (r: bool)
    requires
        program_id@.len() == 32,
    ensures
        r == (pda_of(tag@, seed@, nonce, program_id@) == Some(expected@)),
{
    match create_address(tag, seed, nonce, program_id) {
        Some(a) => bytes_eq(&a, expected),
        None => false,
    }
}

} // verus!
