use p_gpt::pda::{check_pda, check_undelegate_buffer, expect_pda, find_pda, pda_for};
use p_gpt::program::ProgramError;
use p_gpt::state::PROGRAM_ID;
use solana_pubkey::Pubkey;

#[test]
fn canonical_addresses_match_the_runtime() {
    let program = Pubkey::new_from_array(PROGRAM_ID);
    let names: [&[u8]; 6] = [b"model", b"opt", b"scratch", b"data", b"community", b"gen"];
    for (which, name) in names.iter().enumerate() {
        let (expected, bump) = Pubkey::find_program_address(&[name], &program);
        let (address, got_bump) = pda_for(which).unwrap();
        assert_eq!(address, expected.to_bytes());
        assert_eq!(got_bump, bump);
        assert_eq!(check_pda(&address, name, bump), Ok(()));
        assert_eq!(check_pda(&address, name, bump.wrapping_sub(1)), Err(ProgramError::InvalidSeeds));
        assert_eq!(expect_pda(&address, &vec![name.to_vec()]), Ok(bump));
        assert_eq!(expect_pda(&[0; 32], &vec![name.to_vec()]), Err(ProgramError::InvalidSeeds));
    }
    assert_eq!(pda_for(11), Err(ProgramError::InvalidInstructionData));
    let (buffer, _) = find_pda(&vec![b"buffer".to_vec(), vec![1; 32]]).unwrap();
    let expected = Pubkey::find_program_address(&[b"buffer", &[1; 32]], &program).0;
    assert_eq!(buffer, expected.to_bytes());
}

#[test]
fn undelegate_buffer_is_the_delegation_programs() {
    let delegation = Pubkey::new_from_array(*ephemeral_rollups_pinocchio::consts::DELEGATION_PROGRAM_ID.as_array());
    let delegated = [5u8; 32];
    let expected = Pubkey::find_program_address(&[b"undelegate-buffer", &delegated], &delegation).0;
    assert_eq!(check_undelegate_buffer(&expected.to_bytes(), &delegated), Ok(()));
    assert_eq!(check_undelegate_buffer(&delegated, &delegated), Err(ProgramError::InvalidSeeds));
}
