use p_gpt::lifecycle::seeds_for;
use p_gpt::state::{PROGRAM_ID, SHARD_COUNT};
use solana_pubkey::Pubkey;

#[test]
fn shard_seeds_match() {
    let program = Pubkey::new_from_array(PROGRAM_ID);
    for k in 0..SHARD_COUNT {
        let expected = Pubkey::find_program_address(&[b"shard", &[k as u8]], &program).0;
        let seeds = seeds_for(6 + k).unwrap();
        println!("k={k} seeds={:?}", seeds);
        let refs: Vec<&[u8]> = seeds.iter().map(|s| s.as_slice()).collect();
        let got = pinocchio::Address::find_program_address(&refs, &pinocchio::Address::new_from_array(PROGRAM_ID)).0;
        assert_eq!(got.as_array(), &expected.to_bytes(), "shard {k}");
    }
}

#[test]
fn singleton_seeds_are_the_account_names() {
    let names: [&[u8]; 6] = [b"model", b"opt", b"scratch", b"data", b"community", b"gen"];
    for (which, name) in names.iter().enumerate() {
        let seeds = seeds_for(which).unwrap();
        assert_eq!(seeds, vec![name.to_vec()]);
    }
    assert!(seeds_for(10).is_err());
}
