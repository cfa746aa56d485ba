use p_gpt::adam::train_doc;
use p_gpt::fixed::ONE;
use p_gpt::generation::{process_generate, GenLog};
use p_gpt::model::{Moments, Scratch, Weights, BOS, N_PARAMS};
use p_gpt::program::{process_train_micro, process_train_step, DocSet, ProgramError};
use p_gpt::rng::Rng;
use p_gpt::setup::{contribute, load_docs, new_docs_header, new_genlog_header, new_model_header, process_init_weights};
use p_gpt::state::{
    GenRecord, ModelHeader, COMMUNITY_CAPACITY, DATASET_CAPACITY, DOC_RECORD_LEN, DOC_STRIDE, FLAG_WEIGHTS_READY,
    GENLOG_CAPACITY, PHASE_PICK,
};

const SEED: u64 = 42;

/// Names of the training set used by these tests (lowercase, at most 15
/// letters).
const NAMES: [&str; 64] = [
    "emma", "olivia", "ava", "isabella", "sophia", "charlotte", "mia", "amelia", "harper", "evelyn",
    "abigail", "emily", "elizabeth", "mila", "ella", "avery", "sofia", "camila", "aria", "scarlett",
    "victoria", "madison", "luna", "grace", "chloe", "penelope", "layla", "riley", "zoey", "nora",
    "lily", "eleanor", "hannah", "lillian", "addison", "aubrey", "ellie", "stella", "natalie", "zoe",
    "leah", "hazel", "violet", "aurora", "savannah", "audrey", "brooklyn", "bella", "claire", "skylar",
    "lucy", "paisley", "everly", "anna", "caroline", "nova", "genesis", "emilia", "kennedy", "samantha",
    "maya", "willow", "kinsley", "naomi",
];

struct Harness {
    header: ModelHeader,
    weights: Weights,
    moments: Moments,
    scratch: Scratch,
    gen_scratch: Scratch,
    dataset: DocSet,
    community: DocSet,
    genlog: GenLog,
}

fn empty_docs(capacity: u64) -> DocSet {
    DocSet { header: new_docs_header(capacity), records: vec![0u8; capacity as usize * DOC_RECORD_LEN] }
}

impl Harness {
    fn new() -> Self {
        let genlog = GenLog {
            header: new_genlog_header(),
            records: vec![GenRecord { step: 0, len: 0, name: [0u8; 16] }; GENLOG_CAPACITY as usize],
        };
        Harness {
            header: new_model_header(SEED, [0u8; 6], [7u8; 32]),
            weights: Weights::new(),
            moments: Moments::new(),
            scratch: Scratch::new(),
            gen_scratch: Scratch::new(),
            dataset: empty_docs(DATASET_CAPACITY),
            community: empty_docs(COMMUNITY_CAPACITY),
            genlog,
        }
    }

    fn init_weights(&mut self, count: u32) {
        process_init_weights(&count.to_le_bytes(), &mut self.header, &mut self.weights).unwrap();
    }

    fn init_all_weights(&mut self, count: u32) {
        while self.header.flags & FLAG_WEIGHTS_READY == 0 {
            self.init_weights(count);
        }
    }

    fn load_docs(&mut self, names: &[&str]) {
        let mut data = Vec::new();
        for name in names {
            let mut record = [0u8; DOC_RECORD_LEN];
            record[0] = name.len() as u8;
            for (i, b) in name.bytes().enumerate() {
                record[1 + i] = b - b'a';
            }
            data.extend_from_slice(&record);
        }
        load_docs(&data, &mut self.dataset).unwrap();
    }

    fn train_step(&mut self, count: u8) -> Result<(), ProgramError> {
        process_train_step(
            &[count],
            &mut self.header,
            &mut self.weights,
            &mut self.moments,
            &mut self.scratch,
            &self.dataset,
            &self.community,
        )
    }

    fn train_micro(&mut self) -> Result<(), ProgramError> {
        process_train_micro(
            &mut self.header,
            &mut self.weights,
            &mut self.moments,
            &mut self.scratch,
            &self.dataset,
            &self.community,
        )
    }

    fn generate(&mut self, prefix: &[u8], seed: u64, slot: u64) -> Result<(), ProgramError> {
        let mut data = Vec::new();
        data.extend_from_slice(&(ONE / 2).to_le_bytes());
        data.extend_from_slice(&seed.to_le_bytes());
        data.push(prefix.len() as u8);
        data.extend_from_slice(prefix);
        process_generate(&data, slot, &mut self.header, &self.weights, &mut self.gen_scratch, &mut self.genlog)
    }

    fn contribute(&mut self, name: &str) -> Result<(), ProgramError> {
        let data: Vec<u8> = name.bytes().map(|b| b - b'a').collect();
        contribute(&data, &mut self.community)
    }
}

#[test]
fn full_lifecycle_and_parity() {
    let mut h = Harness::new();
    assert_eq!(h.header.magic, *b"pGPT");
    assert_eq!(h.header.seed, SEED);
    assert_eq!(h.header.pow_beta1, ONE);

    // Weights, chunked.
    h.init_all_weights(1024);
    assert_eq!(h.header.init_cursor as usize, N_PARAMS);

    // Dataset.
    let refs: Vec<&str> = NAMES.to_vec();
    for chunk in refs.chunks(48) {
        h.load_docs(chunk);
    }
    assert_eq!(h.dataset.header.count, 64);

    // Train.
    let steps = 10u64;
    for _ in 0..steps {
        h.train_step(1).unwrap();
    }
    assert_eq!(h.header.step, steps);
    assert!(h.header.last_loss > 0);
    assert_eq!(h.header.ring_pos, steps);

    // Host replay of the same computation.
    let mut w = Weights::new();
    let mut mom = Moments::new();
    let mut scr = Scratch::new();
    let mut rng = Rng::new(SEED);
    w.init_range(0, N_PARAMS, &mut rng);
    let (mut pb1, mut pb2) = (ONE, ONE);
    for step in 0..steps {
        let idx = (step.wrapping_mul(DOC_STRIDE) % refs.len() as u64) as usize;
        let name = refs[idx];
        let mut tokens = vec![BOS];
        tokens.extend(name.bytes().map(|b| b - b'a'));
        tokens.push(BOS);
        train_doc(&mut w, &mut mom, &mut scr, &tokens, step, &mut pb1, &mut pb2);
    }
    assert_eq!(w.params, h.weights.params, "on-chain weights diverge from host replay — determinism broken");

    // Generate: a 15-token prefix forces all 16 positions.
    h.generate(&[0, 1, 2, 3, 4, 5, 6, 7, 8, 9, 10, 11, 12, 13, 14], 7, 100).unwrap();
    h.generate(&[], 7, 101).unwrap();
    assert_eq!(h.genlog.header.total, 2);
    assert!(h.genlog.records[0].len as usize <= 16);

    // Contribute, then the community step.
    h.contribute("gabriele").unwrap();
    for _ in 0..6 {
        h.train_step(1).unwrap();
    }
    assert_eq!(h.header.step, 16);

    // Batched steps.
    h.train_step(4).unwrap();
    assert_eq!(h.header.step, 20);
}

#[test]
fn train_step_fails_without_docs() {
    let mut h = Harness::new();
    h.init_all_weights(2048);
    let r = h.train_step(1);
    assert!(r.is_err());
}

#[test]
fn rejects_bad_contribution() {
    let mut h = Harness::new();
    // BOS is not a valid name token.
    let r = contribute(&[26], &mut h.community);
    assert!(r.is_err());
}

#[test]
fn micro_path_matches_fused() {
    let refs: Vec<&str> = NAMES.to_vec();

    // Path A: fused steps.
    let mut fused = Harness::new();
    fused.init_all_weights(2048);
    for chunk in refs.chunks(48) {
        fused.load_docs(chunk);
    }
    for _ in 0..3 {
        fused.train_step(1).unwrap();
    }

    // Path B: the same three steps as micro transactions.
    let mut micro = Harness::new();
    micro.init_all_weights(2048);
    for chunk in refs.chunks(48) {
        micro.load_docs(chunk);
    }
    let mut txs = 0;
    while micro.header.step < 3 {
        micro.train_micro().unwrap();
        txs += 1;
        assert!(txs < 400, "micro path not converging to 3 steps");
    }

    assert_eq!(fused.header.step, micro.header.step);
    assert_eq!(fused.weights.params, micro.weights.params, "split path diverges from fused path");
    assert_eq!(fused.header.last_loss, micro.header.last_loss);
}

#[test]
fn negative_coverage_for_guards() {
    let mut h = Harness::new();
    h.init_all_weights(2048);
    let refs: Vec<&str> = NAMES[..8].to_vec();
    h.load_docs(&refs);

    // Start a split step (pick phase runs), leaving the state machine mid-step.
    h.train_micro().unwrap();
    assert_ne!(h.header.phase, PHASE_PICK);

    // A fused TrainStep over the in-flight split step is rejected.
    assert_eq!(h.train_step(1), Err(ProgramError::InvalidAccountData));

    // Contribute rejects a store that is not the community store (the
    // dataset shares the magic but not the capacity).
    let r = contribute(&[6u8, 0, 1], &mut h.dataset);
    assert_eq!(r, Err(ProgramError::InvalidAccountData));

    // Generate rejects a temperature that would overflow the reciprocal.
    let mut data = Vec::new();
    data.extend_from_slice(&1i64.to_le_bytes()); // raw 1 => ~2e-10, far below 1/64
    data.extend_from_slice(&7u64.to_le_bytes());
    data.push(0);
    let r = process_generate(&data, 5, &mut h.header, &h.weights, &mut h.gen_scratch, &mut h.genlog);
    assert_eq!(r, Err(ProgramError::InvalidInstructionData));
}

#[test]
fn batched_steps_match_single_steps() {
    let refs: Vec<&str> = NAMES.to_vec();
    let mut batched = Harness::new();
    batched.init_all_weights(4096);
    batched.load_docs(&refs[..48]);
    batched.contribute("gabriele").unwrap();
    let mut single = Harness::new();
    single.init_all_weights(4096);
    single.load_docs(&refs[..48]);
    single.contribute("gabriele").unwrap();

    batched.train_step(9).unwrap();
    for _ in 0..9 {
        single.train_step(1).unwrap();
    }
    assert_eq!(batched.header.step, 9);
    assert_eq!(batched.weights.params, single.weights.params);
    assert_eq!(batched.moments.m, single.moments.m);
    assert_eq!(batched.header.loss_ring, single.header.loss_ring);
    assert_eq!(batched.header.loss_ema, single.header.loss_ema);
    // Counts are clamped to 1..=16.
    batched.train_step(0).unwrap();
    assert_eq!(batched.header.step, 10);
    batched.train_step(200).unwrap();
    assert_eq!(batched.header.step, 26);
}

#[test]
fn community_step_trains_the_contributed_name() {
    let refs: Vec<&str> = NAMES.to_vec();
    let mut h = Harness::new();
    h.init_all_weights(4096);
    h.load_docs(&refs[..48]);
    h.contribute("gabriele").unwrap();
    for _ in 0..7 {
        h.train_step(1).unwrap();
    }
    // Step 7 is a community step: replay it on the host with "gabriele".
    let mut w = Weights { params: h.weights.params.clone() };
    let mut mom = Moments { m: h.moments.m.clone(), v: h.moments.v.clone() };
    let mut scr = Scratch::new();
    let (mut pb1, mut pb2) = (h.header.pow_beta1, h.header.pow_beta2);
    let mut tokens = vec![BOS];
    tokens.extend("gabriele".bytes().map(|b| b - b'a'));
    tokens.push(BOS);
    let loss = train_doc(&mut w, &mut mom, &mut scr, &tokens, 7, &mut pb1, &mut pb2);
    h.train_step(1).unwrap();
    assert_eq!(h.header.last_loss, loss);
    assert_eq!(h.weights.params, w.params);
    // Step 8 is a dataset step again: record (8 * 9973) % 48.
    let idx = (8u64 * DOC_STRIDE % 48) as usize;
    let mut tokens = vec![BOS];
    tokens.extend(refs[idx].bytes().map(|b| b - b'a'));
    tokens.push(BOS);
    let loss = train_doc(&mut w, &mut mom, &mut scr, &tokens, 8, &mut pb1, &mut pb2);
    h.train_step(1).unwrap();
    assert_eq!(h.header.last_loss, loss);
    assert_eq!(h.weights.params, w.params);
}

#[test]
fn training_step_ignores_earlier_workspace_contents() {
    let init = || {
        let mut w = Weights::new();
        w.init_range(0, N_PARAMS, &mut Rng::new(SEED));
        w
    };
    let doc = |name: &str| {
        let mut t = vec![BOS];
        t.extend(name.bytes().map(|b| b - b'a'));
        t.push(BOS);
        t
    };
    // Workspace A is fresh; workspace B has already trained on another,
    // longer document with other weights.
    let mut scr_a = Scratch::new();
    let mut scr_b = Scratch::new();
    {
        let mut w = Weights::new();
        w.init_range(0, N_PARAMS, &mut Rng::new(7));
        let mut mom = Moments::new();
        let (mut p1, mut p2) = (ONE, ONE);
        train_doc(&mut w, &mut mom, &mut scr_b, &doc("christopher"), 0, &mut p1, &mut p2);
    }
    let (mut wa, mut wb) = (init(), init());
    let (mut ma, mut mb) = (Moments::new(), Moments::new());
    let (mut a1, mut a2, mut b1, mut b2) = (ONE, ONE, ONE, ONE);
    for (step, name) in ["emma", "olivia", "mia"].iter().enumerate() {
        let la = train_doc(&mut wa, &mut ma, &mut scr_a, &doc(name), step as u64, &mut a1, &mut a2);
        let lb = train_doc(&mut wb, &mut mb, &mut scr_b, &doc(name), step as u64, &mut b1, &mut b2);
        assert_eq!(la, lb);
        assert_eq!(scr_a.grads.params, scr_b.grads.params);
        assert_eq!(wa.params, wb.params);
        assert_eq!(ma.m, mb.m);
        assert_eq!(ma.v, mb.v);
        assert_eq!((a1, a2), (b1, b2));
    }
}

#[test]
fn train_step_stops_at_an_untrainable_record() {
    let refs: Vec<&str> = NAMES[..8].to_vec();
    let mut h = Harness::new();
    h.init_all_weights(2048);
    h.load_docs(&refs);
    let mut one = Harness::new();
    one.init_all_weights(2048);
    one.load_docs(&refs);
    one.train_step(1).unwrap();

    // Step 1 reads record (1 * 9973) % 8 = 5: make it an empty name.
    let bad = (DOC_STRIDE % 8) as usize;
    assert_eq!(bad, 5);
    h.dataset.records[bad * DOC_RECORD_LEN] = 0;
    assert_eq!(h.train_step(3), Err(ProgramError::InvalidAccountData));
    // The step before the bad record ran; nothing after it did.
    assert_eq!(h.header.step, 1);
    assert_eq!(h.header.last_loss, one.header.last_loss);
    assert_eq!(h.weights.params, one.weights.params);
    assert_eq!(h.moments.m, one.moments.m);
    // A bad first record changes nothing.
    let before = h.weights.params.clone();
    assert_eq!(h.train_step(1), Err(ProgramError::InvalidAccountData));
    assert_eq!(h.header.step, 1);
    assert_eq!(h.weights.params, before);
}
