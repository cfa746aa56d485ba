use p_gpt::generation::GenLog;
use p_gpt::layout::{
    decode_docs, decode_genlog, decode_model_header, decode_moments, decode_scratch, decode_weights,
    encode_docs, encode_genlog, encode_model_header, encode_moments, encode_scratch, encode_weights,
};
use p_gpt::lifecycle::{checkpoint_ready, write_shard};
use p_gpt::model::{Moments, Scratch, Weights, N_PARAMS};
use p_gpt::program::{DocSet, ProgramError};
use p_gpt::rng::Rng;
use p_gpt::setup::{new_docs_header, new_model_header};
use p_gpt::state::{GenRecord, MODEL_ACCOUNT_LEN, MODEL_HEADER_LEN, PHASE_ADAM, SCRATCH_LEN, SHARD_COUNT, SHARD_LEN};

#[test]
fn header_bytes_round_trip() {
    let mut h = new_model_header(0x0102_0304_0506_0708, [1, 2, 3, 4, 5, 6], [9; 32]);
    h.step = 77;
    h.loss_ring[3] = -12345;
    h.doc[5] = 7;
    h.pending_loss = -1;
    let mut account = vec![0xAAu8; MODEL_HEADER_LEN];
    let bytes = encode_model_header(&h, &account);
    assert_eq!(bytes.len(), MODEL_HEADER_LEN);
    assert_eq!(&bytes[0..4], b"pGPT");
    assert_eq!(&bytes[48..56], &0x0102_0304_0506_0708u64.to_le_bytes());
    assert_eq!(&bytes[72..80], &77u64.to_le_bytes());
    assert_eq!(&bytes[128 + 24..128 + 32], &(-12345i64).to_le_bytes());
    assert_eq!(&bytes[12..16], &[0xAA; 4]);
    account.copy_from_slice(&bytes);
    let back = decode_model_header(&account);
    assert_eq!(back.step, 77);
    assert_eq!(back.loss_ring, h.loss_ring);
    assert_eq!(back.doc, h.doc);
    assert_eq!(back.authority, h.authority);
    assert_eq!(encode_model_header(&back, &account), account);
}

#[test]
fn parameter_images_round_trip() {
    let mut w = Weights::new();
    let mut rng = Rng::new(5);
    w.init_range(0, N_PARAMS, &mut rng);
    let bytes = encode_weights(&w);
    assert_eq!(bytes.len(), 8 * N_PARAMS);
    assert_eq!(decode_weights(&bytes, 0).params, w.params);
    let m = Moments { m: w.params.clone(), v: w.params.iter().map(|x| x / 3).collect() };
    let mb = encode_moments(&m);
    let back = decode_moments(&mb);
    assert_eq!((back.m, back.v), (m.m, m.v));
    let mut s = Scratch::new();
    s.x1[2][3] = 11;
    s.att[63][15] = -4;
    s.probs[15][26] = 99;
    s.grads.params[N_PARAMS - 1] = 5;
    let sb = encode_scratch(&s);
    assert_eq!(sb.len(), SCRATCH_LEN);
    let back = decode_scratch(&sb, 0);
    assert_eq!(back.x1[2][3], 11);
    assert_eq!(back.att[63][15], -4);
    assert_eq!(back.probs[15][26], 99);
    assert_eq!(back.grads.params[N_PARAMS - 1], 5);
    assert_eq!(encode_scratch(&back), sb);
}

#[test]
fn store_and_log_images_round_trip() {
    let mut bytes = vec![0u8; 24 + 32];
    bytes[..4].copy_from_slice(b"pGPT");
    bytes[8..16].copy_from_slice(&2u64.to_le_bytes());
    bytes[16..24].copy_from_slice(&1u64.to_le_bytes());
    bytes[24] = 3;
    let d: DocSet = decode_docs(&bytes).unwrap();
    assert_eq!((d.header.capacity, d.header.count, d.records.len()), (2, 1, 32));
    assert_eq!(encode_docs(&d, &bytes), bytes);
    assert!(decode_docs(&bytes[..10]).is_none());
    let e = DocSet { header: new_docs_header(2), records: vec![0; 32] };
    assert_eq!(&encode_docs(&e, &bytes)[8..16], &2u64.to_le_bytes());

    let mut log = vec![0u8; 32 + 2 * 32 + 5];
    log[8..16].copy_from_slice(&2u64.to_le_bytes());
    let mut g: GenLog = decode_genlog(&log).unwrap();
    assert_eq!(g.records.len(), 2);
    g.records[1] = GenRecord { step: 4, len: 2, name: [1; 16] };
    g.header.total = 1;
    let out = encode_genlog(&g, &log);
    assert_eq!(out.len(), log.len());
    assert_eq!(&out[64..72], &4u64.to_le_bytes());
    assert_eq!(out[72], 2);
    let back = decode_genlog(&out).unwrap();
    assert_eq!(back.records[1].name, [1; 16]);
    assert_eq!(back.header.total, 1);
}

#[test]
fn checkpoint_shards_tile_the_model() {
    let image: Vec<u8> = (0..MODEL_ACCOUNT_LEN).map(|i| (i % 251) as u8).collect();
    let mut rebuilt = Vec::new();
    for k in 0..SHARD_COUNT {
        let mut shard = vec![0u8; SHARD_LEN];
        write_shard(&image, k, &mut shard);
        let start = k * SHARD_LEN;
        let end = MODEL_ACCOUNT_LEN.min(start + SHARD_LEN);
        rebuilt.extend_from_slice(&shard[..end - start]);
    }
    assert_eq!(rebuilt, image);
    let mut h = new_model_header(1, [0; 6], [0; 32]);
    assert_eq!(checkpoint_ready(&h), Ok(()));
    h.phase = PHASE_ADAM;
    assert_eq!(checkpoint_ready(&h), Err(ProgramError::InvalidAccountData));
}
