//! Program-derived addresses of the program's accounts, derived by the
//! runtime's address functions.

use vstd::prelude::*;
use crate::lifecycle::{byte_strings, pda_seeds, seeds_for};
use crate::program::ProgramError;
use crate::state::PROGRAM_ID;

verus! {

/// The address and bump seed that `try_find_program_address` derives from
/// `seeds` under `program`; None when no bump gives a valid address or the
/// seeds are too many or too long.
pub uninterp spec fn found_address(seeds: Seq<Seq<u8>>, program: Seq<u8>) -> Option<(Seq<u8>, u8)>;

/// The address that `create_program_address` derives from `seeds` under
/// `program`; None when the hash lies on the curve or the seeds are too
/// many or too long.
pub uninterp spec fn created_address(seeds: Seq<Seq<u8>>, program: Seq<u8>) -> Option<Seq<u8>>;

/// The delegation program's undelegation buffer for `delegated`: the
/// address `try_find_program_address` derives from the crate's
/// `UndelegateBuffer` seeds under the delegation program; None when no bump
/// gives a valid address.
pub uninterp spec fn undelegate_buffer_address(delegated: Seq<u8>) -> Option<Seq<u8>>;

/// `pinocchio::Address::try_find_program_address`: the canonical program
/// address and bump for `seeds` under `program`, named by `found_address`
/// (a SHA-256 search over bump seeds from 255 down).
#[verifier::external_body]
fn try_find_program_address(seeds: &Vec<Vec<u8>>, program: &[u8; 32]) -> (r: Option<([u8; 32], u8)>)
    ensures
        match r {
            Some(f) => found_address(byte_strings(seeds@), program@) == Some((f.0@, f.1)),
            None => found_address(byte_strings(seeds@), program@) is None,
        },
{
    let refs: Vec<&[u8]> = seeds.iter().map(|s| s.as_slice()).collect();
    pinocchio::Address::try_find_program_address(&refs, &pinocchio::Address::new_from_array(*program))
        .map(|(address, bump)| (*address.as_array(), bump))
}

/// `pinocchio::Address::create_program_address`: the program address for
/// `seeds` (bump included) under `program`, named by `created_address`;
/// its error becomes None.
#[verifier::external_body]
fn create_program_address(seeds: &Vec<Vec<u8>>, program: &[u8; 32]) -> (r: Option<[u8; 32]>)
    ensures
        match r {
            Some(a) => created_address(byte_strings(seeds@), program@) == Some(a@),
            None => created_address(byte_strings(seeds@), program@) is None,
        },
{
    let refs: Vec<&[u8]> = seeds.iter().map(|s| s.as_slice()).collect();
    pinocchio::Address::create_program_address(&refs, &pinocchio::Address::new_from_array(*program))
        .ok()
        .map(|address| *address.as_array())
}

/// The undelegation buffer address of `delegated`, derived as
/// `ephemeral_rollups_pinocchio::pda::undelegate_buffer_pda_from_delegated_account`
/// derives it (the crate's `Seed::UndelegateBuffer` seeds under its program
/// id), but through `Address::try_find_program_address`, which returns None
/// where that function would panic; named by `undelegate_buffer_address`.
#[verifier::external_body]
fn undelegate_buffer_pda(delegated: &[u8; 32]) -> (r: Option<[u8; 32]>)
    ensures
        match r {
            Some(a) => undelegate_buffer_address(delegated@) == Some(a@),
            None => undelegate_buffer_address(delegated@) is None,
        },
{
    let address = pinocchio::Address::new_from_array(*delegated);
    let seed = ephemeral_rollups_pinocchio::seeds::Seed::UndelegateBuffer(&address);
    let mut buf: [&[u8]; 3] = [&[]; 3];
    let mut index_buf = [0u8; 1];
    let seeds = seed.fill_seed_slice(&mut buf, &mut index_buf);
    pinocchio::Address::try_find_program_address(seeds, ephemeral_rollups_pinocchio::id())
        .map(|(found, _bump)| *found.as_array())
}

/// The canonical address and bump of this program for `seeds`;
/// InvalidSeeds when none exists.
pub fn find_pda(seeds: &Vec<Vec<u8>>) -> (r: Result<([u8; 32], u8), ProgramError>)
    ensures
        match found_address(byte_strings(seeds@), PROGRAM_ID@) {
            Some(f) => r matches Ok(a) && (a.0@, a.1) == f,
            None => r == Err::<([u8; 32], u8), ProgramError>(ProgramError::InvalidSeeds),
        },
{
    let program = PROGRAM_ID;
    match try_find_program_address(seeds, &program) {
        Some(found) => Ok(found),
        None => Err(ProgramError::InvalidSeeds),
    }
}

/// The canonical address and bump of the account with bump index `which`.
pub fn pda_for(which: usize) -> (r: Result<([u8; 32], u8), ProgramError>)
    ensures
        match pda_seeds(which as int) {
            None => r == Err::<([u8; 32], u8), ProgramError>(ProgramError::InvalidInstructionData),
            Some(s) => match found_address(s, PROGRAM_ID@) {
                Some(f) => r matches Ok(a) && (a.0@, a.1) == f,
                None => r == Err::<([u8; 32], u8), ProgramError>(ProgramError::InvalidSeeds),
            },
        },
{
    let seeds = seeds_for(which)?;
    find_pda(&seeds)
}

/// Fail with InvalidSeeds unless `address` is the canonical address for
/// `seeds`.
pub fn expect_pda(address: &[u8; 32], seeds: &Vec<Vec<u8>>) -> (r: Result<u8, ProgramError>)
    ensures
        match found_address(byte_strings(seeds@), PROGRAM_ID@) {
            Some(f) => if f.0 == address@ {
                r == Ok::<u8, ProgramError>(f.1)
            } else {
                r == Err::<u8, ProgramError>(ProgramError::InvalidSeeds)
            },
            None => r == Err::<u8, ProgramError>(ProgramError::InvalidSeeds),
        },
{
    let (expected, bump) = find_pda(seeds)?;
    if !same_address(&expected, address) {
        return Err(ProgramError::InvalidSeeds);
    }
    Ok(bump)
}

/// Byte-wise address equality.
pub fn same_address(a: &[u8; 32], b: &[u8; 32]) -> (r: bool)
    ensures
        r == (a@ == b@),
{
    let mut i: usize = 0;
    while i < 32
        invariant
            i <= 32,
            forall|j: int| 0 <= j < i ==> a@[j] == b@[j],
        decreases 32 - i,
    {
        if a[i] != b[i] {
            return false;
        }
        i = i + 1;
    }
    assert(a@ =~= b@);
    true
}

/// Fail with InvalidSeeds unless `address` is this program's address for
/// `seed` with the stored `bump`.
pub fn check_pda(address: &[u8; 32], seed: &[u8], bump: u8) -> (r: Result<(), ProgramError>)
    ensures
        r is Ok <==> created_address(seq![seed@, seq![bump]], PROGRAM_ID@) == Some(address@),
        r is Err ==> r == Err::<(), ProgramError>(ProgramError::InvalidSeeds),
{
    let mut seeds: Vec<Vec<u8>> = Vec::new();
    let mut first: Vec<u8> = Vec::new();
    let mut i: usize = 0;
    while i < seed.len()
        invariant
            i <= seed@.len(),
            first@ == seed@.subrange(0, i as int),
        decreases seed@.len() - i,
    {
        first.push(seed[i]);
        i = i + 1;
        assert(first@ =~= seed@.subrange(0, i as int));
    }
    assert(first@ =~= seed@);
    seeds.push(first);
    let mut bump_seed: Vec<u8> = Vec::new();
    bump_seed.push(bump);
    seeds.push(bump_seed);
    assert(byte_strings(seeds@) =~= seq![seed@, seq![bump]]);
    let program = PROGRAM_ID;
    match create_program_address(&seeds, &program) {
        None => Err(ProgramError::InvalidSeeds),
        Some(expected) => {
            if same_address(&expected, address) {
                Ok(())
            } else {
                Err(ProgramError::InvalidSeeds)
            }
        },
    }
}

/// Fail with InvalidSeeds unless `buffer` is the delegation program's
/// undelegation buffer for `delegated` (also when no such address exists).
pub fn check_undelegate_buffer(buffer: &[u8; 32], delegated: &[u8; 32]) -> (r: Result<(), ProgramError>)
    ensures
        r is Ok <==> undelegate_buffer_address(delegated@) == Some(buffer@),
        r is Err ==> r == Err::<(), ProgramError>(ProgramError::InvalidSeeds),
{
    match undelegate_buffer_pda(delegated) {
        Some(expected) => {
            if same_address(&expected, buffer) {
                Ok(())
            } else {
                Err(ProgramError::InvalidSeeds)
            }
        },
        None => Err(ProgramError::InvalidSeeds),
    }
}

} // verus!
