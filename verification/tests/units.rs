use p_gpt::adam::{lr_at_step, LR, LR_FLOOR};
use p_gpt::dispatch::{decode_instruction, Instruction};
use p_gpt::fixed::{fdiv, fmul, from_int, ONE};
use p_gpt::generation::{gen_seed, process_generate, GenLog, GEN_COUNT_MUL};
use p_gpt::instruction::{GenerateArgs, InitModelArgs, Reader, ScheduleArgs, TRAIN_MICRO};
use p_gpt::lifecycle::{
    buffer_step, delegate_path, grow_len, initial_len, parse_callback_seeds, rent_top_up, target_len,
    BufferStep, DelegatePath, MAX_GROW,
};
use p_gpt::math::{isqrt_u64, ln_fx, sqrt_fx};
use p_gpt::model::{detokenize, tokenize, Scratch, Weights, BOS};
use p_gpt::program::{record_doc, land_step, pick_doc_index, process_train_micro, DocSet, ProgramError};
use p_gpt::rng::Rng;
use p_gpt::setup::{
    check_authority, contribute, load_docs, new_docs_header, new_genlog_header, new_model_header,
    process_init_weights,
};
use p_gpt::model::Moments;
use p_gpt::state::{
    GenRecord, COMMUNITY_CAPACITY, DOC_RECORD_LEN, FLAG_WEIGHTS_READY, GENLOG_CAPACITY, MODEL_ACCOUNT_LEN,
    OPTIMIZER_ACCOUNT_LEN, SCRATCH_ACCOUNT_LEN, SHARD_LEN,
};

fn record(name: &str) -> [u8; DOC_RECORD_LEN] {
    let mut r = [0u8; DOC_RECORD_LEN];
    r[0] = name.len() as u8;
    for (i, b) in name.bytes().enumerate() {
        r[1 + i] = b - b'a';
    }
    r
}

fn store(capacity: u64) -> DocSet {
    DocSet { header: new_docs_header(capacity), records: vec![0u8; capacity as usize * DOC_RECORD_LEN] }
}

#[test]
fn fixed_point_formulas() {
    assert_eq!(fmul(ONE * 3 / 2, ONE * 5 / 4), 8_053_063_680);
    assert_eq!(fdiv(ONE, 2 * ONE), ONE / 2);
    assert_eq!(from_int(-3), -3 * ONE);
    assert_eq!(isqrt_u64(10), 3);
    assert_eq!(isqrt_u64(u64::MAX), 4_294_967_295);
    assert_eq!(sqrt_fx(4 * ONE), 2 * ONE);
    assert_eq!(sqrt_fx(2 * ONE), 6_074_000_999);
    assert_eq!(ln_fx(ONE), 0);
}

#[test]
fn learning_rate_schedule() {
    assert_eq!(lr_at_step(0), LR);
    assert_eq!(lr_at_step(500), 21_474_836);
    assert_eq!(lr_at_step(1000), LR_FLOOR);
    assert_eq!(lr_at_step(u64::MAX), LR_FLOOR);
    let mut prev = lr_at_step(0);
    for s in 1..1200 {
        let lr = lr_at_step(s);
        assert!(lr <= prev && lr >= LR_FLOOR);
        prev = lr;
    }
}

#[test]
fn rng_is_xorshift_star() {
    let mut rng = Rng::new(1);
    let mut x: u64 = 1;
    for _ in 0..5 {
        x ^= x >> 12;
        x ^= x << 25;
        x ^= x >> 27;
        assert_eq!(rng.next_u64(), x.wrapping_mul(0x2545_F491_4F6C_DD1D));
    }
    assert_ne!(Rng::new(0).0, 0);
}

#[test]
fn generation_seed_mixes_slot_and_counter() {
    let (seed, slot, count) = (0x1234_5678_9abc_def0u64, 987_654_321u64, 77u64);
    assert_eq!(gen_seed(seed, slot, count), seed ^ slot.rotate_left(17) ^ count.wrapping_mul(GEN_COUNT_MUL));
}

#[test]
fn tokens_round_trip() {
    for c in b'a'..=b'z' {
        let t = tokenize(c).unwrap();
        assert!(t < BOS);
        assert_eq!(detokenize(t), c);
    }
    assert_eq!(tokenize(b'A'), None);
}

#[test]
fn curriculum_picks_community_every_eighth_step() {
    assert_eq!(pick_doc_index(7, 64, 3), (true, 0));
    assert_eq!(pick_doc_index(15, 64, 3), (true, 1));
    assert_eq!(pick_doc_index(7, 64, 0), (false, (7 * 9973) % 64));
    assert_eq!(pick_doc_index(3, 64, 3), (false, (3 * 9973) % 64));
}

#[test]
fn record_doc_frames_with_bos() {
    assert_eq!(record_doc(&record("ab")), Some(vec![BOS, 0, 1, BOS]));
    assert_eq!(record_doc(&[0u8; 16]), None);
    let mut bad = record("ab");
    bad[2] = BOS;
    assert_eq!(record_doc(&bad), None);
}

#[test]
fn landing_updates_loss_statistics() {
    let mut h = new_model_header(1, [0; 6], [0; 32]);
    land_step(&mut h, 5 * ONE);
    assert_eq!(h.step, 1);
    assert_eq!(h.loss_ema, 5 * ONE);
    assert_eq!(h.loss_ring[0], 5 * ONE);
    land_step(&mut h, 3 * ONE);
    assert_eq!(h.loss_ema, 5 * ONE + ((3 * ONE - 5 * ONE) >> 6));
    assert_eq!(h.ring_pos, 2);
    assert_eq!(h.last_loss, 3 * ONE);
}

#[test]
fn init_weights_chunking_is_invisible() {
    let mut h1 = new_model_header(9, [0; 6], [0; 32]);
    let mut w1 = Weights::new();
    process_init_weights(&100u32.to_le_bytes(), &mut h1, &mut w1).unwrap();
    process_init_weights(&250u32.to_le_bytes(), &mut h1, &mut w1).unwrap();
    let mut h2 = new_model_header(9, [0; 6], [0; 32]);
    let mut w2 = Weights::new();
    process_init_weights(&350u32.to_le_bytes(), &mut h2, &mut w2).unwrap();
    assert_eq!(w1.params, w2.params);
    assert_eq!(h1.rng_state, h2.rng_state);
    assert_eq!(h1.init_cursor, 350);
    // A count of zero still initializes one parameter.
    process_init_weights(&0u32.to_le_bytes(), &mut h2, &mut w2).unwrap();
    assert_eq!(h2.init_cursor, 351);
}

#[test]
fn init_weights_errors() {
    let mut h = new_model_header(9, [0; 6], [0; 32]);
    let mut w = Weights::new();
    assert_eq!(process_init_weights(&[1, 0], &mut h, &mut w), Err(ProgramError::InvalidInstructionData));
    while h.flags & FLAG_WEIGHTS_READY == 0 {
        process_init_weights(&5000u32.to_le_bytes(), &mut h, &mut w).unwrap();
    }
    assert_eq!(process_init_weights(&5u32.to_le_bytes(), &mut h, &mut w), Err(ProgramError::AccountAlreadyInitialized));
    h.magic = *b"xGPT";
    assert_eq!(process_init_weights(&5u32.to_le_bytes(), &mut h, &mut w), Err(ProgramError::InvalidAccountData));
}

#[test]
fn load_docs_errors_and_append() {
    let mut d = store(2);
    assert_eq!(load_docs(&[], &mut d), Err(ProgramError::InvalidInstructionData));
    assert_eq!(load_docs(&[1, 2, 3], &mut d), Err(ProgramError::InvalidInstructionData));
    assert_eq!(load_docs(&[0u8; 16], &mut d), Err(ProgramError::InvalidInstructionData));
    let mut data = Vec::new();
    data.extend_from_slice(&record("bob"));
    data.extend_from_slice(&record("al"));
    load_docs(&data, &mut d).unwrap();
    assert_eq!(d.header.count, 2);
    assert_eq!(&d.records[16..32], &record("al"));
    assert_eq!(load_docs(&record("x"), &mut d), Err(ProgramError::AccountDataTooSmall));
    // The whole batch is refused when a later record is invalid.
    let mut d = store(4);
    let mut data = Vec::new();
    data.extend_from_slice(&record("bob"));
    data.extend_from_slice(&[16u8; 16]);
    assert_eq!(load_docs(&data, &mut d), Err(ProgramError::InvalidInstructionData));
    assert_eq!(d.header.count, 0);
}

#[test]
fn contribute_errors_and_slot() {
    let mut c = store(COMMUNITY_CAPACITY);
    assert_eq!(contribute(&[], &mut c), Err(ProgramError::InvalidInstructionData));
    assert_eq!(contribute(&[1u8; 16], &mut c), Err(ProgramError::InvalidInstructionData));
    contribute(&[6, 0, 1], &mut c).unwrap();
    assert_eq!(c.header.count, 1);
    assert_eq!(&c.records[0..4], &[3, 6, 0, 1]);
    assert!(c.records[4..16].iter().all(|b| *b == 0));
    c.header.count = COMMUNITY_CAPACITY;
    assert_eq!(contribute(&[1], &mut c), Err(ProgramError::AccountDataTooSmall));
    let mut small = store(3);
    assert_eq!(contribute(&[1], &mut small), Err(ProgramError::InvalidAccountData));
}

#[test]
fn authority_check() {
    let h = new_model_header(1, [0; 6], [9; 32]);
    assert_eq!(check_authority(&h, &[9; 32]), Ok(()));
    assert_eq!(check_authority(&h, &[8; 32]), Err(ProgramError::IncorrectAuthority));
}

#[test]
fn micro_guards() {
    let mut h = new_model_header(1, [0; 6], [0; 32]);
    let mut w = Weights::new();
    let mut m = Moments::new();
    let mut s = Scratch::new();
    let docs = store(4);
    let comm = store(4);
    assert_eq!(process_train_micro(&mut h, &mut w, &mut m, &mut s, &docs, &comm), Err(ProgramError::UninitializedAccount));
    h.flags = FLAG_WEIGHTS_READY;
    assert_eq!(process_train_micro(&mut h, &mut w, &mut m, &mut s, &docs, &comm), Err(ProgramError::UninitializedAccount));
    h.phase = 9;
    assert_eq!(process_train_micro(&mut h, &mut w, &mut m, &mut s, &docs, &comm), Err(ProgramError::InvalidAccountData));
    h.phase = 1;
    assert_eq!(process_train_micro(&mut h, &mut w, &mut m, &mut s, &docs, &comm), Err(ProgramError::InvalidAccountData));
}

#[test]
fn generate_guards_and_record() {
    let mut h = new_model_header(3, [0; 6], [0; 32]);
    let w = Weights::new();
    let mut s = Scratch::new();
    let mut log = GenLog {
        header: new_genlog_header(),
        records: vec![GenRecord { step: 0, len: 0, name: [0; 16] }; GENLOG_CAPACITY as usize],
    };
    let mut data = Vec::new();
    data.extend_from_slice(&(ONE / 2).to_le_bytes());
    data.extend_from_slice(&5u64.to_le_bytes());
    data.push(2);
    data.extend_from_slice(&[3, 4]);
    assert_eq!(process_generate(&data, 1, &mut h, &w, &mut s, &mut log), Err(ProgramError::UninitializedAccount));
    h.flags = FLAG_WEIGHTS_READY;
    process_generate(&data, 1, &mut h, &w, &mut s, &mut log).unwrap();
    assert_eq!(h.gen_count, 1);
    assert_eq!(log.header.total, 1);
    assert!(log.records[0].len >= 2);
    assert_eq!(&log.records[0].name[..2], &[3, 4]);
    let mut bad = data.clone();
    bad[17] = BOS;
    assert_eq!(process_generate(&bad, 1, &mut h, &w, &mut s, &mut log), Err(ProgramError::InvalidInstructionData));
    let mut hot = data.clone();
    hot[..8].copy_from_slice(&(ONE + 1).to_le_bytes());
    assert_eq!(process_generate(&hot, 1, &mut h, &w, &mut s, &mut log), Err(ProgramError::InvalidInstructionData));
    log.records.truncate(10);
    assert_eq!(process_generate(&data, 1, &mut h, &w, &mut s, &mut log), Err(ProgramError::InvalidAccountData));
}

#[test]
fn instruction_decoding() {
    let mut cb = vec![196u8, 28, 41, 206, 48, 37, 51, 167];
    cb.extend_from_slice(&[1, 2]);
    let (ins, rest) = decode_instruction(&cb).unwrap();
    assert_eq!(ins, Instruction::UndelegateCallback);
    assert_eq!(rest, &[1, 2]);
    let (ins, rest) = decode_instruction(&[TRAIN_MICRO, 9]).unwrap();
    assert_eq!(ins, Instruction::TrainMicro);
    assert_eq!(rest, &[9]);
    assert_eq!(decode_instruction(&[6]), Err(ProgramError::InvalidInstructionData));
    assert_eq!(decode_instruction(&[]), Err(ProgramError::InvalidInstructionData));
}

#[test]
fn argument_parsing() {
    assert!(InitModelArgs::parse(&[1, 2, 3]).is_none());
    assert_eq!(InitModelArgs::parse(&7u64.to_le_bytes()).unwrap().seed, 7);
    let mut d = Vec::new();
    d.extend_from_slice(&1u64.to_le_bytes());
    d.extend_from_slice(&2u64.to_le_bytes());
    d.extend_from_slice(&u64::MAX.to_le_bytes());
    d.push(4);
    let a = ScheduleArgs::parse(&d).unwrap();
    assert_eq!((a.task_id, a.interval_ms, a.iterations, a.steps_per_tick), (1, 2, u64::MAX, 4));
    let mut g = Vec::new();
    g.extend_from_slice(&(-5i64).to_le_bytes());
    g.extend_from_slice(&6u64.to_le_bytes());
    g.push(3);
    g.extend_from_slice(&[1, 2]);
    assert!(GenerateArgs::parse(&g).is_none());
    g.push(3);
    let a = GenerateArgs::parse(&g).unwrap();
    assert_eq!((a.temperature, a.seed, a.prefix), (-5, 6, &[1u8, 2, 3][..]));
    let mut r = Reader(&[1, 2, 3]);
    assert_eq!(r.u8(), Some(1));
    assert_eq!(r.u32(), None);
    assert_eq!(r.rest(), &[2, 3]);
}

#[test]
fn account_growth_and_delegation_routes() {
    assert_eq!(target_len(0), Ok(MODEL_ACCOUNT_LEN));
    assert_eq!(target_len(1), Ok(OPTIMIZER_ACCOUNT_LEN));
    assert_eq!(target_len(2), Ok(SCRATCH_ACCOUNT_LEN));
    assert_eq!(target_len(9), Ok(SHARD_LEN));
    assert_eq!(target_len(10), Err(ProgramError::InvalidInstructionData));
    assert_eq!(grow_len(0, 35_832), Some(MAX_GROW));
    assert_eq!(grow_len(30_720, 35_832), Some(35_832));
    assert_eq!(grow_len(35_832, 35_832), None);
    assert_eq!(initial_len(8_958), 8_958);
    assert_eq!(initial_len(35_832), MAX_GROW);
    assert_eq!(rent_top_up(10, 3), Some(7));
    assert_eq!(rent_top_up(3, 10), None);
    assert_eq!(delegate_path(6, SHARD_LEN, false, 0), Ok(DelegatePath::Direct));
    assert_eq!(delegate_path(0, MODEL_ACCOUNT_LEN, true, MODEL_ACCOUNT_LEN), Ok(DelegatePath::Buffered));
    assert_eq!(delegate_path(0, MODEL_ACCOUNT_LEN, true, 10), Err(ProgramError::UninitializedAccount));
    assert_eq!(delegate_path(0, 10_240, true, 10_240), Err(ProgramError::InvalidAccountData));
    assert_eq!(delegate_path(12, 1, true, 1), Err(ProgramError::InvalidInstructionData));
    assert_eq!(buffer_step(35_832, true, false, 0), BufferStep::Create(MAX_GROW));
    assert_eq!(buffer_step(35_832, false, true, 10_240), BufferStep::Grow(20_480));
    assert_eq!(buffer_step(35_832, false, true, 35_832), BufferStep::Done);
}

#[test]
fn callback_seed_parsing() {
    let mut a = Vec::new();
    a.extend_from_slice(&2u32.to_le_bytes());
    a.extend_from_slice(&5u32.to_le_bytes());
    a.extend_from_slice(b"shard");
    a.extend_from_slice(&1u32.to_le_bytes());
    a.push(3);
    assert_eq!(parse_callback_seeds(&a).unwrap(), vec![b"shard".to_vec(), vec![3]]);
    let mut trailing = a.clone();
    trailing.push(0);
    assert_eq!(parse_callback_seeds(&trailing), Err(ProgramError::InvalidInstructionData));
    assert_eq!(parse_callback_seeds(&0u32.to_le_bytes()), Err(ProgramError::InvalidInstructionData));
    assert_eq!(parse_callback_seeds(&5u32.to_le_bytes()), Err(ProgramError::InvalidInstructionData));
    let mut short = 1u32.to_le_bytes().to_vec();
    short.extend_from_slice(&9u32.to_le_bytes());
    assert_eq!(parse_callback_seeds(&short), Err(ProgramError::InvalidInstructionData));
}

#[test]
fn name_doc_tokens() {
    assert_eq!(p_gpt::model::doc_tokens("gabriele"), vec![BOS, 6, 0, 1, 17, 8, 4, 11, 4, BOS]);
    assert_eq!(p_gpt::model::doc_tokens(""), vec![BOS, BOS]);
}

#[test]
fn loss_ring_holds_the_last_loss() {
    let mut h = new_model_header(1, [0; 6], [0; 32]);
    for k in 0..300i64 {
        land_step(&mut h, k * ONE);
        let slot = ((h.ring_pos - 1) % 256) as usize;
        assert_eq!(h.loss_ring[slot], h.last_loss);
        assert_eq!(h.ring_pos, h.step);
    }
    assert_eq!(h.loss_ring[299 % 256], 299 * ONE);
}

#[test]
fn chunked_init_equals_one_pass_from_the_seed() {
    for chunks in [&[1u32, 4191][..], &[0, 5000], &[1000, 1000, 1000, 1000, 1000], &[7, 300, 2048, 4096]] {
        let mut h = new_model_header(42, [0; 6], [0; 32]);
        let mut w = Weights::new();
        for c in chunks {
            let before = h.init_cursor;
            process_init_weights(&c.to_le_bytes(), &mut h, &mut w).unwrap();
            let expect = (before + (*c).max(1) as u64).min(p_gpt::model::N_PARAMS as u64);
            assert_eq!(h.init_cursor, expect);
            assert_eq!(h.flags & FLAG_WEIGHTS_READY != 0, expect == p_gpt::model::N_PARAMS as u64);
        }
        let mut one_pass = Weights::new();
        let mut rng = Rng::new(42);
        one_pass.init_range(0, p_gpt::model::N_PARAMS, &mut rng);
        assert_eq!(w.params, one_pass.params);
        assert_eq!(process_init_weights(&1u32.to_le_bytes(), &mut h, &mut w), Err(ProgramError::AccountAlreadyInitialized));
    }
}
