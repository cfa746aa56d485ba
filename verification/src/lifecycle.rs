//! Account lifecycle decisions: PDA seeds and target sizes, growing
//! accounts in 10 KiB steps, the delegation routes, checkpoint shards and
//! the seeds of an undelegation callback.

use vstd::prelude::*;
use crate::state::{
    ModelHeader, SEED_MODEL, SEED_OPTIMIZER, SEED_SCRATCH, SEED_DATASET, SEED_COMMUNITY, SEED_GENLOG,
    SEED_SHARD, SHARD_COUNT, SHARD_LEN, BUMP_SHARD0, MODEL_ACCOUNT_LEN, OPTIMIZER_ACCOUNT_LEN,
    SCRATCH_ACCOUNT_LEN, DATASET_ACCOUNT_LEN, COMMUNITY_ACCOUNT_LEN, GENLOG_ACCOUNT_LEN, PHASE_ADAM,
};
use crate::program::{ProgramError, check_model, model_ok};

verus! {

/// The runtime caps account data growth at this many bytes per instruction.
pub const MAX_GROW: usize = 10_240;

/// Target size of the account with bump index `which`.
pub open spec fn target_len_spec(which: int) -> Option<usize> {
    if which == 0 {
        Some(MODEL_ACCOUNT_LEN)
    } else if which == 1 {
        Some(OPTIMIZER_ACCOUNT_LEN)
    } else if which == 2 {
        Some(SCRATCH_ACCOUNT_LEN)
    } else if which == 3 {
        Some(DATASET_ACCOUNT_LEN)
    } else if which == 4 {
        Some(COMMUNITY_ACCOUNT_LEN)
    } else if which == 5 {
        Some(GENLOG_ACCOUNT_LEN)
    } else if BUMP_SHARD0 <= which < BUMP_SHARD0 + SHARD_COUNT {
        Some(SHARD_LEN)
    } else {
        None
    }
}

/// Target size of each program account; InvalidInstructionData for an
/// index that names none.
pub fn target_len(which: usize) -> (r: Result<usize, ProgramError>)
    ensures
        match target_len_spec(which as int) {
            Some(n) => r == Ok::<usize, ProgramError>(n),
            None => r == Err::<usize, ProgramError>(ProgramError::InvalidInstructionData),
        },
{
    if which == 0 {
        Ok(MODEL_ACCOUNT_LEN)
    } else if which == 1 {
        Ok(OPTIMIZER_ACCOUNT_LEN)
    } else if which == 2 {
        Ok(SCRATCH_ACCOUNT_LEN)
    } else if which == 3 {
        Ok(DATASET_ACCOUNT_LEN)
    } else if which == 4 {
        Ok(COMMUNITY_ACCOUNT_LEN)
    } else if which == 5 {
        Ok(GENLOG_ACCOUNT_LEN)
    } else if BUMP_SHARD0 <= which && which < BUMP_SHARD0 + SHARD_COUNT {
        Ok(SHARD_LEN)
    } else {
        Err(ProgramError::InvalidInstructionData)
    }
}

/// PDA seeds of the account with bump index `which`: one seed for the
/// singletons, the shard seed and the shard's index byte for the shards.
pub open spec fn pda_seeds(which: int) -> Option<Seq<Seq<u8>>> {
    if which == 0 {
        Some(seq![SEED_MODEL@])
    } else if which == 1 {
        Some(seq![SEED_OPTIMIZER@])
    } else if which == 2 {
        Some(seq![SEED_SCRATCH@])
    } else if which == 3 {
        Some(seq![SEED_DATASET@])
    } else if which == 4 {
        Some(seq![SEED_COMMUNITY@])
    } else if which == 5 {
        Some(seq![SEED_GENLOG@])
    } else if BUMP_SHARD0 <= which < BUMP_SHARD0 + SHARD_COUNT {
        Some(seq![SEED_SHARD@, seq![(which - BUMP_SHARD0) as u8]])
    } else {
        None
    }
}

/// Contents of a list of byte strings.
pub open spec fn byte_strings(v: Seq<Vec<u8>>) -> Seq<Seq<u8>> {
    v.map_values(|s: Vec<u8>| s@)
}

fn seed_vec(a: &[u8]) -> (r: Vec<u8>)
    ensures
        r@ == a@,
{
    let mut r: Vec<u8> = Vec::new();
    let mut i: usize = 0;
    while i < a.len()
        invariant
            i <= a@.len(),
            r@ == a@.subrange(0, i as int),
        decreases a@.len() - i,
    {
        r.push(a[i]);
        i = i + 1;
        assert(r@ =~= a@.subrange(0, i as int));
    }
    assert(r@ =~= a@);
    r
}

/// The PDA seeds for each bump-table slot; InvalidInstructionData for an
/// index that names no account.
pub fn seeds_for(which: usize) -> (r: Result<Vec<Vec<u8>>, ProgramError>)
    ensures
        match pda_seeds(which as int) {
            Some(s) => r matches Ok(v) && byte_strings(v@) == s,
            None => r == Err::<Vec<Vec<u8>>, ProgramError>(ProgramError::InvalidInstructionData),
        },
{
    let first: &[u8] = if which == 0 {
        SEED_MODEL.as_slice()
    } else if which == 1 {
        SEED_OPTIMIZER.as_slice()
    } else if which == 2 {
        SEED_SCRATCH.as_slice()
    } else if which == 3 {
        SEED_DATASET.as_slice()
    } else if which == 4 {
        SEED_COMMUNITY.as_slice()
    } else if which == 5 {
        SEED_GENLOG.as_slice()
    } else if BUMP_SHARD0 <= which && which < BUMP_SHARD0 + SHARD_COUNT {
        SEED_SHARD.as_slice()
    } else {
        return Err(ProgramError::InvalidInstructionData);
    };
    let mut v: Vec<Vec<u8>> = Vec::new();
    v.push(seed_vec(first));
    if which >= BUMP_SHARD0 {
        let mut index: Vec<u8> = Vec::new();
        index.push((which - BUMP_SHARD0) as u8);
        v.push(index);
    }
    assert(byte_strings(v@) =~= pda_seeds(which as int)->Some_0);
    Ok(v)
}

/// Next size of an account growing from `current` toward `target`, or
/// None once it is there.
pub fn grow_len(current: usize, target: usize) -> (r: Option<usize>)
    ensures
        current >= target ==> r is None,
        current < target ==> r == Some(if target - current < MAX_GROW { target } else { (current + MAX_GROW) as usize }),
{
    if current >= target {
        None
    } else if target - current < MAX_GROW {
        Some(target)
    } else {
        Some(current + MAX_GROW)
    }
}

/// Size an account is created with: the runtime caps creation at
/// `MAX_GROW` bytes, so large accounts start there and grow.
pub fn initial_len(space: usize) -> (r: usize)
    ensures
        r == if space < MAX_GROW { space } else { MAX_GROW },
{
    if space < MAX_GROW { space } else { MAX_GROW }
}

/// Lamports to transfer so an account holding `lamports` reaches the
/// `required` rent-exempt balance; None when it already does.
pub fn rent_top_up(required: u64, lamports: u64) -> (r: Option<u64>)
    ensures
        required > lamports ==> r == Some((required - lamports) as u64),
        required <= lamports ==> r is None,
{
    if required > lamports { Some(required - lamports) } else { None }
}

/// Rent-exempt minimum from the runtime's per-byte minimum balance, scaled
/// by the exemption threshold of 2.
pub fn exempt_minimum(minimum_balance: u64) -> (r: u64)
    requires
        minimum_balance * 2 <= u64::MAX,
    ensures
        r == minimum_balance * 2,
{
    minimum_balance * 2
}

/// How `Delegate` hands an account over.
#[derive(Debug, Clone, Copy, PartialEq, Eq, Structural)]
pub enum DelegatePath {
    /// Small enough for the delegation SDK's own buffer creation.
    Direct,
    /// Through the buffer `DelegatePrep` created.
    Buffered,
}

/// Delegation route for the account with bump index `which` and data size
/// `data_len`: a partially grown account is refused (InvalidAccountData),
/// an account above 10 KiB needs a program-owned buffer of its exact size
/// (UninitializedAccount until `DelegatePrep` made it).
pub fn delegate_path(which: usize, data_len: usize, buffer_owned: bool, buffer_len: usize) -> (r: Result<DelegatePath, ProgramError>)
    ensures
        match target_len_spec(which as int) {
            None => r == Err::<DelegatePath, ProgramError>(ProgramError::InvalidInstructionData),
            Some(t) => if data_len != t {
                r == Err::<DelegatePath, ProgramError>(ProgramError::InvalidAccountData)
            } else if data_len <= MAX_GROW {
                r == Ok::<DelegatePath, ProgramError>(DelegatePath::Direct)
            } else if !buffer_owned || buffer_len != data_len {
                r == Err::<DelegatePath, ProgramError>(ProgramError::UninitializedAccount)
            } else {
                r == Ok::<DelegatePath, ProgramError>(DelegatePath::Buffered)
            },
        },
{
    let target = target_len(which)?;
    if data_len != target {
        return Err(ProgramError::InvalidAccountData);
    }
    if data_len <= MAX_GROW {
        return Ok(DelegatePath::Direct);
    }
    if !buffer_owned || buffer_len != data_len {
        return Err(ProgramError::UninitializedAccount);
    }
    Ok(DelegatePath::Buffered)
}

/// What `DelegatePrep` does to the delegate buffer of an account of
/// `target` bytes.
#[derive(Debug, Clone, Copy, PartialEq, Eq, Structural)]
pub enum BufferStep {
    /// Create the buffer with this many bytes.
    Create(usize),
    /// Grow the buffer to this many bytes.
    Grow(usize),
    /// The buffer already has the account's size.
    Done,
}

/// The next step of preparing a delegate buffer: create it (capped at
/// 10 KiB) when it does not exist yet, else grow it by up to 10 KiB toward
/// the account's size.
pub fn buffer_step(target: usize, buffer_empty: bool, buffer_owned: bool, current: usize) -> (r: BufferStep)
    ensures
        buffer_empty && !buffer_owned ==> r == BufferStep::Create(if target < MAX_GROW { target } else { MAX_GROW }),
        !(buffer_empty && !buffer_owned) && current >= target ==> r == BufferStep::Done,
        !(buffer_empty && !buffer_owned) && current < target ==> r == BufferStep::Grow(
            if target - current < MAX_GROW { target } else { (current + MAX_GROW) as usize },
        ),
{
    if buffer_empty && !buffer_owned {
        return BufferStep::Create(initial_len(target));
    }
    match grow_len(current, target) {
        None => BufferStep::Done,
        Some(n) => BufferStep::Grow(n),
    }
}

// -- Checkpoint shards --------------------------------------------------------

/// Byte range of the model image that shard `k` holds.
pub open spec fn shard_start(k: int) -> int {
    k * SHARD_LEN
}

pub open spec fn shard_end(k: int) -> int {
    if MODEL_ACCOUNT_LEN < k * SHARD_LEN + SHARD_LEN { MODEL_ACCOUNT_LEN as int } else { k * SHARD_LEN + SHARD_LEN }
}

/// The part of the model image shard `k` holds.
pub open spec fn shard_image(image: Seq<u8>, k: int) -> Seq<u8> {
    image.subrange(shard_start(k), shard_end(k))
}

/// The shards tile the model image: in order, their parts are the whole
/// image, so the model can be rebuilt from a checkpoint.
pub proof fn lemma_shards_tile(image: Seq<u8>)
    requires
        image.len() >= MODEL_ACCOUNT_LEN,
    ensures
        shard_image(image, 0) + shard_image(image, 1) + shard_image(image, 2) + shard_image(image, 3)
            == image.subrange(0, MODEL_ACCOUNT_LEN as int),
        forall|k: int| 0 <= k < SHARD_COUNT ==> #[trigger] shard_image(image, k).len() <= SHARD_LEN,
{
    assert(shard_image(image, 0) + shard_image(image, 1) + shard_image(image, 2) + shard_image(image, 3)
        =~= image.subrange(0, MODEL_ACCOUNT_LEN as int));
}

/// Byte range `[start, end)` of the model image that shard `k` holds.
pub fn shard_range(k: usize) -> (r: (usize, usize))
    requires
        k < SHARD_COUNT,
    ensures
        r.0 == shard_start(k as int),
        r.1 == shard_end(k as int),
        r.0 <= r.1 <= MODEL_ACCOUNT_LEN,
{
    let start = k * SHARD_LEN;
    let end = if MODEL_ACCOUNT_LEN < start + SHARD_LEN { MODEL_ACCOUNT_LEN } else { start + SHARD_LEN };
    (start, end)
}

/// A model header may be checkpointed unless Adam chunks are in flight
/// (the weights would be torn).
pub fn checkpoint_ready(h: &ModelHeader) -> (r: Result<(), ProgramError>)
    ensures
        r is Ok <==> model_ok(h@) && h.phase != PHASE_ADAM,
        r is Err ==> r == Err::<(), ProgramError>(ProgramError::InvalidAccountData),
{
    check_model(h)?;
    if h.phase == PHASE_ADAM {
        return Err(ProgramError::InvalidAccountData);
    }
    Ok(())
}

/// Copy shard `k`'s part of the model image to the front of the shard's
/// data.
pub fn write_shard(image: &[u8], k: usize, out: &mut Vec<u8>)
    requires
        image@.len() >= MODEL_ACCOUNT_LEN,
        k < SHARD_COUNT,
        old(out)@.len() >= shard_end(k as int) - shard_start(k as int),
    ensures
        final(out)@ == shard_image(image@, k as int) + old(out)@.subrange(
            shard_end(k as int) - shard_start(k as int),
            old(out)@.len() as int,
        ),
{
    let start = k * SHARD_LEN;
    let end = if MODEL_ACCOUNT_LEN < start + SHARD_LEN { MODEL_ACCOUNT_LEN } else { start + SHARD_LEN };
    let ghost o0 = out@;
    let mut i: usize = start;
    while i < end
        invariant
            start <= i <= end,
            start == shard_start(k as int),
            end == shard_end(k as int),
            end <= image@.len(),
            out@.len() == o0.len(),
            o0.len() >= end - start,
            forall|j: int| 0 <= j < out@.len() ==> #[trigger] out@[j] ==
                if j < i - start { image@[start + j] } else { o0[j] },
        decreases end - i,
    {
        out.set(i - start, image[i]);
        i = i + 1;
    }
    assert(out@ =~= shard_image(image@, k as int) + o0.subrange(end - start, o0.len() as int));
}

// -- Undelegation callback -----------------------------------------------------

/// Little-endian u32 at `off`.
pub open spec fn le32_at(b: Seq<u8>, off: int) -> int {
    b[off] + 256 * b[off + 1] + 65536 * b[off + 2] + 16777216 * b[off + 3]
}

/// The seeds serialized in an undelegation callback: a u32 count in 1..=4,
/// then each seed as a u32 length and its bytes, with nothing after the
/// last; None for anything else.
pub open spec fn callback_seeds(args: Seq<u8>) -> Option<Seq<Seq<u8>>> {
    if args.len() < 4 || le32_at(args, 0) < 1 || le32_at(args, 0) > 4 {
        None
    } else {
        callback_seeds_from(args, 4, le32_at(args, 0), seq![])
    }
}

/// Parse `left` more seeds from offset `off`, after `acc`.
pub open spec fn callback_seeds_from(args: Seq<u8>, off: int, left: int, acc: Seq<Seq<u8>>) -> Option<Seq<Seq<u8>>>
    decreases left,
{
    if left <= 0 {
        if off == args.len() { Some(acc) } else { None }
    } else if args.len() < off + 4 {
        None
    } else if args.len() < off + 4 + le32_at(args, off) {
        None
    } else {
        callback_seeds_from(
            args,
            off + 4 + le32_at(args, off),
            left - 1,
            acc.push(args.subrange(off + 4, off + 4 + le32_at(args, off))),
        )
    }
}

fn read_le32(args: &[u8], off: usize) -> (r: usize)
    requires
        off + 4 <= args@.len(),
    ensures
        r == le32_at(args@, off as int),
{
    let v: u64 = (args[off] as u64) + 256 * (args[off + 1] as u64) + 65536 * (args[off + 2] as u64)
        + 16777216 * (args[off + 3] as u64);
    assert(v <= 0xffff_ffff);
    v as usize
}

/// Parse the serialized PDA seeds of an undelegation callback.
pub fn parse_callback_seeds(args: &[u8]) -> (r: Result<Vec<Vec<u8>>, ProgramError>)
    ensures
        match callback_seeds(args@) {
            Some(s) => r matches Ok(v) && byte_strings(v@) == s,
            None => r == Err::<Vec<Vec<u8>>, ProgramError>(ProgramError::InvalidInstructionData),
        },
{
    if args.len() < 4 {
        return Err(ProgramError::InvalidInstructionData);
    }
    let count = read_le32(args, 0);
    if count < 1 || count > 4 {
        return Err(ProgramError::InvalidInstructionData);
    }
    let mut seeds: Vec<Vec<u8>> = Vec::new();
    let mut off: usize = 4;
    let mut left: usize = count;
    assert(byte_strings(seeds@) =~= Seq::<Seq<u8>>::empty());
    while left > 0
        invariant
            left <= 4,
            off <= args@.len(),
            callback_seeds(args@) == callback_seeds_from(args@, off as int, left as int, byte_strings(seeds@)),
        decreases left,
    {
        if args.len() - off < 4 {
            return Err(ProgramError::InvalidInstructionData);
        }
        let len = read_le32(args, off);
        if args.len() - off - 4 < len {
            return Err(ProgramError::InvalidInstructionData);
        }
        let seed = seed_vec(&args[off + 4..off + 4 + len]);
        let ghost before = byte_strings(seeds@);
        seeds.push(seed);
        assert(byte_strings(seeds@) =~= before.push(args@.subrange(off + 4, off + 4 + len)));
        off = off + 4 + len;
        left = left - 1;
    }
    if off != args.len() {
        return Err(ProgramError::InvalidInstructionData);
    }
    Ok(seeds)
}

} // verus!
