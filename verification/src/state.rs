//! Program constants and account layouts: the model header, the document
//! stores and the generation log, with their abstract views.

use vstd::prelude::*;
use crate::fixed::{Fx, ONE};
use crate::model::{BLOCK, BOS, VOCAB};

verus! {

/// Program id: 6wPpJuYKKPbLYfYZpVeytPwxcq7TdGsgEHwyhYBangEC.
pub const PROGRAM_ID: [u8; 32] = [
    0x58, 0x39, 0x98, 0x98, 0xa9, 0x63, 0x8d, 0xfe, 0x62, 0xa2, 0x35, 0xf1, 0x69, 0xf5, 0x52, 0x9d,
    0xef, 0x8b, 0x94, 0xf3, 0xc4, 0x68, 0xd6, 0x18, 0x54, 0x80, 0x37, 0x7a, 0x91, 0x12, 0x55, 0x91,
];

/// PDA seed "model".
pub const SEED_MODEL: [u8; 5] = [0x6d, 0x6f, 0x64, 0x65, 0x6c];
/// PDA seed "opt".
pub const SEED_OPTIMIZER: [u8; 3] = [0x6f, 0x70, 0x74];
/// PDA seed "scratch".
pub const SEED_SCRATCH: [u8; 7] = [0x73, 0x63, 0x72, 0x61, 0x74, 0x63, 0x68];
/// PDA seed "data".
pub const SEED_DATASET: [u8; 4] = [0x64, 0x61, 0x74, 0x61];
/// PDA seed "community".
pub const SEED_COMMUNITY: [u8; 9] = [0x63, 0x6f, 0x6d, 0x6d, 0x75, 0x6e, 0x69, 0x74, 0x79];
/// PDA seed "gen".
pub const SEED_GENLOG: [u8; 3] = [0x67, 0x65, 0x6e];
/// PDA seed "shard" (followed by the one-byte shard index).
pub const SEED_SHARD: [u8; 5] = [0x73, 0x68, 0x61, 0x72, 0x64];

/// Checkpoint shards: slices of the model image, each under 10,240 bytes.
pub const SHARD_COUNT: usize = 4;
/// Bytes per checkpoint shard: ceil(MODEL_ACCOUNT_LEN / SHARD_COUNT).
pub const SHARD_LEN: usize = 8958;

/// Index of each PDA's bump in `ModelHeader::bumps`; 6..10 address the
/// checkpoint shards.
pub const BUMP_MODEL: usize = 0;
pub const BUMP_OPTIMIZER: usize = 1;
pub const BUMP_SCRATCH: usize = 2;
pub const BUMP_DATASET: usize = 3;
pub const BUMP_COMMUNITY: usize = 4;
pub const BUMP_GENLOG: usize = 5;
pub const BUMP_SHARD0: usize = 6;

/// Deterministic pseudo-shuffle stride, co-prime with the dataset size.
pub const DOC_STRIDE: u64 = 9973;
/// Every Nth step trains on a community-contributed doc (when any exist).
pub const COMMUNITY_EVERY: u64 = 8;
/// EMA shift for the reported loss: ema += (loss - ema) >> 6.
pub const LOSS_EMA_SHIFT: u32 = 6;

pub const DATASET_CAPACITY: u64 = 32_768;
/// Sized so the community account stays under 10,240 bytes.
pub const COMMUNITY_CAPACITY: u64 = 512;
pub const GENLOG_CAPACITY: u64 = 256;
pub const LOSS_RING_LEN: usize = 256;

/// A name, padded: byte 0 = length (1..=15), bytes 1..=15 = token ids.
pub const DOC_RECORD_LEN: usize = 16;
pub const MAX_NAME_LEN: usize = 15;

/// Byte sizes of the accounts.
pub const MODEL_HEADER_LEN: usize = 2296;
pub const WEIGHTS_LEN: usize = 33_536;
pub const MODEL_ACCOUNT_LEN: usize = 35_832;
pub const OPTIMIZER_ACCOUNT_LEN: usize = 67_072;
pub const SCRATCH_LEN: usize = 86_528;
/// Two independent workspaces: training (first half) and generation.
pub const SCRATCH_ACCOUNT_LEN: usize = 173_056;
pub const GEN_SCRATCH_OFFSET: usize = 86_528;
pub const DOCS_HEADER_LEN: usize = 24;
pub const DATASET_ACCOUNT_LEN: usize = 524_312;
pub const COMMUNITY_ACCOUNT_LEN: usize = 8216;
pub const GEN_RECORD_LEN: usize = 32;
pub const GENLOG_HEADER_LEN: usize = 32;
pub const GENLOG_ACCOUNT_LEN: usize = 8224;

/// "pGPT".
pub const MODEL_MAGIC: [u8; 4] = [0x70, 0x47, 0x50, 0x54];
pub const STATE_VERSION: u8 = 1;

/// Bit 0 of `flags`: weights fully initialized.
pub const FLAG_WEIGHTS_READY: u8 = 1;

/// Split-training phases.
pub const PHASE_PICK: u8 = 0;
pub const PHASE_FORWARD: u8 = 1;
pub const PHASE_BACKWARD: u8 = 2;
pub const PHASE_ADAM: u8 = 3;

/// Adam parameters processed per micro transaction.
pub const ADAM_CHUNK: usize = 256;

/// Header of the model account; followed by the weights.
pub struct ModelHeader {
    pub magic: [u8; 4],
    pub version: u8,
    /// PDA bumps, indexed by the `BUMP_*` constants.
    pub bumps: [u8; 6],
    /// Bit 0: weights fully initialized.
    pub flags: u8,
    pub authority: [u8; 32],
    /// Init seed: with the transaction history, this determines the weights.
    pub seed: u64,
    /// PRNG state for chunked weight init.
    pub rng_state: u64,
    /// Number of parameters initialized so far.
    pub init_cursor: u64,
    /// Completed training steps.
    pub step: u64,
    /// beta1^step, beta2^step (Q32.32) for Adam bias correction.
    pub pow_beta1: Fx,
    pub pow_beta2: Fx,
    /// Exponential moving average of the training loss (Q32.32).
    pub loss_ema: Fx,
    pub last_loss: Fx,
    /// Total names sampled via `Generate`.
    pub gen_count: u64,
    /// Next write slot in `loss_ring` (monotonic; index is `% LOSS_RING_LEN`).
    pub ring_pos: u64,
    /// Recent per-step losses (Q32.32).
    pub loss_ring: Vec<Fx>,
    /// Current split-training phase.
    pub phase: u8,
    /// PHASE_FORWARD / PHASE_BACKWARD: position; PHASE_ADAM: chunk index.
    pub phase_cursor: u8,
    /// Length in tokens of `doc` (doc length + 2 BOS delimiters).
    pub doc_tokens_len: u8,
    /// The BOS-delimited document of the in-flight step.
    pub doc: [u8; 18],
    /// Loss of the in-flight step, applied to the ring when the step lands.
    pub pending_loss: Fx,
}

/// Abstract model header.
#[verifier::ext_equal]
pub ghost struct HeaderV {
    pub magic: Seq<u8>,
    pub version: u8,
    pub bumps: Seq<u8>,
    pub flags: u8,
    pub authority: Seq<u8>,
    pub seed: u64,
    pub rng_state: u64,
    pub init_cursor: u64,
    pub step: u64,
    pub pow_beta1: Fx,
    pub pow_beta2: Fx,
    pub loss_ema: Fx,
    pub last_loss: Fx,
    pub gen_count: u64,
    pub ring_pos: u64,
    pub loss_ring: Seq<Fx>,
    pub phase: u8,
    pub phase_cursor: u8,
    pub doc_tokens_len: u8,
    pub doc: Seq<u8>,
    pub pending_loss: Fx,
}

impl View for ModelHeader {
    type V = HeaderV;

    open spec fn view(&self) -> HeaderV {
        HeaderV {
            magic: self.magic@,
            version: self.version,
            bumps: self.bumps@,
            flags: self.flags,
            authority: self.authority@,
            seed: self.seed,
            rng_state: self.rng_state,
            init_cursor: self.init_cursor,
            step: self.step,
            pow_beta1: self.pow_beta1,
            pow_beta2: self.pow_beta2,
            loss_ema: self.loss_ema,
            last_loss: self.last_loss,
            gen_count: self.gen_count,
            ring_pos: self.ring_pos,
            loss_ring: self.loss_ring@,
            phase: self.phase,
            phase_cursor: self.phase_cursor,
            doc_tokens_len: self.doc_tokens_len,
            doc: self.doc@,
            pending_loss: self.pending_loss,
        }
    }
}

impl HeaderV {
    /// The invariants the program maintains on the header: buffer sizes,
    /// bias-correction powers in [0, 1] (below 1 once Adam chunks run), and
    /// an in-flight document made of token ids.
    pub open spec fn wf(self) -> bool {
        &&& self.loss_ring.len() == LOSS_RING_LEN
        &&& self.doc.len() == BLOCK + 2
        &&& 0 <= self.pow_beta1 <= ONE
        &&& 0 <= self.pow_beta2 <= ONE
        &&& self.phase == PHASE_ADAM ==> self.pow_beta1 < ONE && self.pow_beta2 < ONE
        &&& self.doc_tokens_len <= BLOCK + 2
        &&& forall|i: int| 0 <= i < self.doc.len() ==> #[trigger] self.doc[i] < VOCAB
    }
}

/// Header shared by the dataset and community accounts; followed by
/// `capacity` fixed 16-byte doc records.
#[derive(Clone, Copy)]
pub struct DocsHeader {
    pub magic: [u8; 4],
    pub capacity: u64,
    pub count: u64,
}

/// One generated name.
#[derive(Clone, Copy)]
pub struct GenRecord {
    /// Training step at which this name was sampled.
    pub step: u64,
    pub len: u8,
    /// Token ids, valid up to `len`.
    pub name: [u8; 16],
}

/// Header of the generation log; followed by `capacity` records used as a
/// ring buffer.
#[derive(Clone, Copy)]
pub struct GenLogHeader {
    pub magic: [u8; 4],
    pub capacity: u64,
    /// Total generations ever; the ring index is `total % capacity`.
    pub total: u64,
}

} // verus!
