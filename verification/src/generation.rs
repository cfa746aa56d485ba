//! The `Generate` instruction: sample a name from the live model and record
//! it in the generation log ring.

use vstd::prelude::*;
use crate::fixed::{Fx, ONE};
use crate::model::{Weights, Scratch, ScratchV, generate, generate_spec, BLOCK, BOS, N_PARAMS};
use crate::rng::{Rng, ZERO_SEED_REPLACEMENT};
use crate::instruction::{GenerateArgs, le_u64};
use crate::state::{ModelHeader, HeaderV, GenLogHeader, GenRecord, MAX_NAME_LEN};
use crate::program::{ProgramError, check_ready, model_ok, weights_ready};

verus! {

/// Contents of the generation log account: its header and the record ring
/// (`capacity` slots).
pub struct GenLog {
    pub header: GenLogHeader,
    pub records: Vec<GenRecord>,
}

/// `x` rotated left by 17 bits.
pub open spec fn rotl17(x: u64) -> u64 {
    (x << 17u64) | (x >> 47u64)
}

/// Golden-ratio multiplier that spreads the generation counter.
pub const GEN_COUNT_MUL: u64 = 0x9E37_79B9_7F4A_7C15;

/// Seed of a generation: caller entropy, mixed with the slot and the
/// generation counter.
pub open spec fn gen_seed_spec(seed: u64, slot: u64, gen_count: u64) -> u64 {
    seed ^ rotl17(slot) ^ vstd::wrapping::u64_specs::wrapping_mul(gen_count, GEN_COUNT_MUL)
}

/// Mix caller entropy with the slot and the generation counter.
pub fn gen_seed(seed: u64, slot: u64, gen_count: u64) -> (r: u64)
    ensures
        r == gen_seed_spec(seed, slot, gen_count),
{
    seed ^ ((slot << 17u64) | (slot >> 47u64)) ^ gen_count.wrapping_mul(GEN_COUNT_MUL)
}

/// Smallest accepted temperature, 1/64: below it the Q32.32 reciprocal
/// overflows (and sampling is effectively greedy anyway).
pub const MIN_TEMPERATURE: Fx = 67_108_864;

/// Temperature in [1/64, 1].
pub open spec fn temperature_ok(t: Fx) -> bool {
    MIN_TEMPERATURE <= t <= ONE
}

/// A prefix of at most 15 letters.
pub open spec fn prefix_ok(p: Seq<u8>) -> bool {
    p.len() <= MAX_NAME_LEN && forall|i: int| 0 <= i < p.len() ==> p[i] < BOS
}

/// Temperature field of `Generate` instruction data.
pub open spec fn gen_temperature(data: Seq<u8>) -> Fx {
    le_u64(data) as i64
}

/// Entropy field of `Generate` instruction data.
pub open spec fn gen_entropy(data: Seq<u8>) -> u64 {
    le_u64(data.subrange(8, 16))
}

/// Prefix field of `Generate` instruction data.
pub open spec fn gen_prefix(data: Seq<u8>) -> Seq<u8> {
    data.subrange(17, 17 + data[16])
}

/// Well-formed `Generate` instruction data with acceptable arguments.
pub open spec fn gen_args_ok(data: Seq<u8>) -> bool {
    &&& data.len() >= 17
    &&& data.len() >= 17 + data[16]
    &&& temperature_ok(gen_temperature(data))
    &&& prefix_ok(gen_prefix(data))
}

/// The 16-byte name field of a record: the tokens, zero padded.
pub open spec fn name_image(toks: Seq<u8>) -> Seq<u8> {
    Seq::new(16, |i: int| if i < toks.len() { toks[i] } else { 0u8 })
}

/// Check the arguments of a `Generate` instruction.
pub fn check_gen_args(data: &[u8]) -> (r: Result<GenerateArgs, ProgramError>)
    ensures
        r is Ok <==> gen_args_ok(data@),
        r matches Ok(a) ==> a.temperature == gen_temperature(data@) && a.seed == gen_entropy(data@)
            && a.prefix@ == gen_prefix(data@),
        r is Err ==> r == Err::<GenerateArgs, ProgramError>(ProgramError::InvalidInstructionData),
{
    let args = match GenerateArgs::parse(data) {
        Some(a) => a,
        None => {
            return Err(ProgramError::InvalidInstructionData);
        },
    };
    if args.temperature < MIN_TEMPERATURE || args.temperature > ONE {
        return Err(ProgramError::InvalidInstructionData);
    }
    if args.prefix.len() > MAX_NAME_LEN {
        return Err(ProgramError::InvalidInstructionData);
    }
    let mut i: usize = 0;
    while i < args.prefix.len()
        invariant
            i <= args.prefix@.len(),
            args.prefix@ == gen_prefix(data@),
            forall|j: int| 0 <= j < i ==> args.prefix@[j] < BOS,
        decreases args.prefix@.len() - i,
    {
        if args.prefix[i] >= BOS {
            assert(gen_prefix(data@)[i as int] >= BOS);
            return Err(ProgramError::InvalidInstructionData);
        }
        i = i + 1;
    }
    Ok(args)
}

/// Generator state after seeding with `seed`.
pub open spec fn seeded(seed: u64) -> u64 {
    if seed == 0 { ZERO_SEED_REPLACEMENT } else { seed }
}

/// Workspace, generator state and tokens of the generation that
/// instruction `data` asks for at `slot` from a model with header `h`.
pub open spec fn gen_result(data: Seq<u8>, slot: u64, h: HeaderV, w: Seq<Fx>, sv: ScratchV) -> (ScratchV, u64, Seq<u8>) {
    generate_spec(
        sv,
        w,
        gen_prefix(data),
        gen_temperature(data),
        seeded(gen_seed_spec(gen_entropy(data), slot, h.gen_count)),
    )
}

/// Everything `Generate` checks before sampling holds.
pub open spec fn gen_accepted(data: Seq<u8>, h: HeaderV, log: &GenLog) -> bool {
    &&& gen_args_ok(data)
    &&& model_ok(h)
    &&& weights_ready(h)
    &&& log.records@.len() >= log.header.capacity
}

/// Ring slot the next generation is written to.
pub open spec fn gen_slot(log: &GenLog) -> int {
    (log.header.total % log.header.capacity) as int
}

/// Sample a name from the live model, optionally continuing a prefix, with
/// randomness mixed from the caller's entropy, the slot and the generation
/// counter, and append it to the generation log ring. Rejects malformed
/// arguments (InvalidInstructionData), a foreign or not yet ready model and
/// a log shorter than its capacity; nothing changes then.
pub fn process_generate(
    data: &[u8],
    slot: u64,
    h: &mut ModelHeader,
    w: &Weights,
    s: &mut Scratch,
    log: &mut GenLog,
) -> (r: Result<(), ProgramError>)
    requires
        old(s)@.wf(),
        w.params@.len() == N_PARAMS,
        old(h).gen_count < u64::MAX,
        old(log).header.total < u64::MAX,
        old(log).header.capacity > 0,
    ensures
        r is Ok <==> gen_accepted(data@, old(h)@, old(log)),
        !gen_args_ok(data@) ==> r == Err::<(), ProgramError>(ProgramError::InvalidInstructionData),
        gen_args_ok(data@) && !model_ok(old(h)@) ==> r == Err::<(), ProgramError>(ProgramError::InvalidAccountData),
        gen_args_ok(data@) && model_ok(old(h)@) && !weights_ready(old(h)@)
            ==> r == Err::<(), ProgramError>(ProgramError::UninitializedAccount),
        gen_args_ok(data@) && model_ok(old(h)@) && weights_ready(old(h)@) && old(log).records@.len() < old(log).header.capacity
            ==> r == Err::<(), ProgramError>(ProgramError::InvalidAccountData),
        r is Err ==> final(h)@ == old(h)@ && final(s)@ == old(s)@ && final(log).header == old(log).header
            && final(log).records@ == old(log).records@,
        r is Ok ==> ({
            let g = gen_result(data@, slot, old(h)@, w.params@, old(s)@);
            let k = gen_slot(old(log));
            &&& final(s)@ == g.0
            &&& final(h)@ == (HeaderV { gen_count: (old(h).gen_count + 1) as u64, ..old(h)@ })
            &&& final(log).header == (GenLogHeader { total: (old(log).header.total + 1) as u64, ..old(log).header })
            &&& final(log).records@.len() == old(log).records@.len()
            &&& forall|j: int| 0 <= j < old(log).records@.len() && j != k ==> final(log).records@[j] == old(log).records@[j]
            &&& final(log).records@[k].step == old(h).step
            &&& final(log).records@[k].len == g.2.len()
            &&& final(log).records@[k].name@ == name_image(g.2)
            &&& g.2.len() <= BLOCK
            &&& g.2.len() >= gen_prefix(data@).len()
            &&& g.2.subrange(0, gen_prefix(data@).len() as int) == gen_prefix(data@)
            &&& forall|j: int| 0 <= j < g.2.len() ==> g.2[j] < BOS
        }),
{
    let args = check_gen_args(data)?;
    check_ready(h)?;
    if (log.records.len() as u64) < log.header.capacity {
        return Err(ProgramError::InvalidAccountData);
    }
    let mut rng = Rng::new(gen_seed(args.seed, slot, h.gen_count));
    let mut out: Vec<u8> = Vec::new();
    while out.len() < BLOCK
        invariant
            out@.len() <= BLOCK,
        decreases BLOCK - out@.len(),
    {
        out.push(0u8);
    }
    let n = generate(w, s, args.prefix, args.temperature, &mut rng, &mut out);
    h.gen_count = h.gen_count + 1;
    let ghost toks = out@.subrange(0, n as int);
    let mut name: [u8; 16] = [0u8; 16];
    let mut i: usize = 0;
    while i < n
        invariant
            i <= n <= BLOCK,
            out@.len() == BLOCK,
            toks == out@.subrange(0, n as int),
            forall|j: int| 0 <= j < i ==> name@[j] == toks[j],
            forall|j: int| i <= j < 16 ==> name@[j] == 0u8,
        decreases n - i,
    {
        name[i] = out[i];
        i = i + 1;
    }
    assert(name@ =~= name_image(toks));
    let k = (log.header.total % log.header.capacity) as usize;
    log.records.set(k, GenRecord { step: h.step, len: n as u8, name });
    log.header.total = log.header.total + 1;
    Ok(())
}

} // verus!
