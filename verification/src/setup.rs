//! Account setup logic: the initial headers, chunked weight initialization,
//! dataset loading and community contributions.

use vstd::prelude::*;
use crate::fixed::{Fx, ONE};
use crate::model::{Weights, init_spec, init_value, lemma_advance_add, N_PARAMS, BOS};
use crate::rng::{Rng, advance};
use crate::instruction::{InitWeightsArgs, le_value};
use crate::state::{
    ModelHeader, HeaderV, DocsHeader, GenLogHeader, FLAG_WEIGHTS_READY, MODEL_MAGIC, STATE_VERSION,
    LOSS_RING_LEN, DOC_RECORD_LEN, MAX_NAME_LEN, COMMUNITY_CAPACITY, GENLOG_CAPACITY,
};
use crate::program::{ProgramError, DocSet, check_model, model_ok, weights_ready, record_valid, docs_cover};
use crate::generation::seeded;

verus! {

/// Requested chunk size, at least one parameter.
pub open spec fn chunk_count(count: u32) -> int {
    if count < 1 { 1 } else { count as int }
}

/// End of the chunk that starts at `cursor`.
pub open spec fn init_end(cursor: u64, count: u32) -> int {
    if N_PARAMS < cursor + chunk_count(count) { N_PARAMS as int } else { cursor + chunk_count(count) }
}

/// Header and parameters after initializing the chunk of `count`
/// parameters at the cursor.
pub open spec fn init_chunk_spec(count: u32, h: HeaderV, w: Seq<Fx>) -> (HeaderV, Seq<Fx>) {
    let start = h.init_cursor as int;
    let end = init_end(h.init_cursor, count);
    (
        HeaderV {
            rng_state: advance(h.rng_state, (12 * (end - start)) as nat),
            init_cursor: end as u64,
            flags: if end == N_PARAMS { h.flags | FLAG_WEIGHTS_READY } else { h.flags },
            ..h
        },
        init_spec(w, start, end, h.rng_state),
    )
}

/// Initializing `[a, b)` and then `[b, c)`, the second pass continuing from
/// the generator state the first left behind, is initializing `[a, c)` in
/// one pass.
pub proof fn lemma_init_chunks(w: Seq<Fx>, s: u64, a: int, b: int, c: int)
    requires
        0 <= a <= b <= c,
    ensures
        init_spec(init_spec(w, a, b, s), b, c, advance(s, (12 * (b - a)) as nat)) == init_spec(w, a, c, s),
        advance(advance(s, (12 * (b - a)) as nat), (12 * (c - b)) as nat) == advance(s, (12 * (c - a)) as nat),
{
    lemma_advance_add(s, (12 * (b - a)) as nat, (12 * (c - b)) as nat);
    assert forall|p: int| b <= p < c implies
        #[trigger] init_value(advance(s, (12 * (b - a)) as nat), b, p) == init_value(s, a, p) by {
        lemma_advance_add(s, (12 * (b - a)) as nat, (12 * (p - b)) as nat);
        assert((12 * (b - a)) as nat + (12 * (p - b)) as nat == (12 * (p - a)) as nat);
    }
    assert((12 * (b - a)) as nat + (12 * (c - b)) as nat == (12 * (c - a)) as nat);
    assert(init_spec(init_spec(w, a, b, s), b, c, advance(s, (12 * (b - a)) as nat)) =~= init_spec(w, a, c, s));
}

/// Chunking law of weight initialization: two `InitWeights` calls of
/// `c1` and `c2` parameters, the first stopping short of the end, leave the
/// same weights and header as one call of `c1 + c2`; so the initialized
/// model is a function of the seed alone, however the work is split.
pub proof fn lemma_init_weights_chunking(c1: u32, c2: u32, h: HeaderV, w: Seq<Fx>)
    requires
        c1 >= 1,
        c2 >= 1,
        c1 + c2 <= u32::MAX,
        h.init_cursor + c1 < N_PARAMS,
    ensures
        ({
            let first = init_chunk_spec(c1, h, w);
            init_chunk_spec(c2, first.0, first.1) == init_chunk_spec((c1 + c2) as u32, h, w)
        }),
{
    let a = h.init_cursor as int;
    let b = a + c1;
    let c = init_end(h.init_cursor, (c1 + c2) as u32);
    lemma_init_chunks(w, h.rng_state, a, b, c);
    let first = init_chunk_spec(c1, h, w);
    assert(init_chunk_spec(c2, first.0, first.1).0 =~= init_chunk_spec((c1 + c2) as u32, h, w).0);
}

/// Header and parameters after a sequence of `InitWeights` calls with the
/// given counts: each call initializes the next chunk; once the weights are
/// ready a call is refused and changes nothing.
pub open spec fn init_run(counts: Seq<u32>, h: HeaderV, w: Seq<Fx>) -> (HeaderV, Seq<Fx>)
    decreases counts.len(),
{
    if counts.len() == 0 {
        (h, w)
    } else {
        let prev = init_run(counts.drop_last(), h, w);
        if weights_ready(prev.0) { prev } else { init_chunk_spec(counts.last(), prev.0, prev.1) }
    }
}

/// Whole-sequence law of weight initialization: from a fresh model (cursor
/// 0, not ready), after any sequence of `InitWeights` calls the cursor has
/// advanced by the chunks taken, the generator state is the seed's advanced
/// by twelve draws per parameter, the initialized prefix equals the one-pass
/// initialization from the seed, and the weights are ready exactly when the
/// cursor reached the end; then they are the one-pass initialization of all
/// parameters, whatever the chunking.
pub proof fn lemma_init_run(counts: Seq<u32>, h: HeaderV, w: Seq<Fx>)
    requires
        h.init_cursor == 0,
        !weights_ready(h),
    ensures
        ({
            let r = init_run(counts, h, w);
            let cur = r.0.init_cursor as int;
            &&& 0 <= cur <= N_PARAMS
            &&& r.0.rng_state == advance(h.rng_state, (12 * cur) as nat)
            &&& r.1 == init_spec(w, 0, cur, h.rng_state)
            &&& weights_ready(r.0) <==> cur == N_PARAMS
            &&& cur == N_PARAMS ==> r.1 == init_spec(w, 0, N_PARAMS as int, h.rng_state)
        }),
    decreases counts.len(),
{
    if counts.len() == 0 {
        assert(init_spec(w, 0, 0, h.rng_state) =~= w);
        assert(advance(h.rng_state, 0) == h.rng_state);
    } else {
        lemma_init_run(counts.drop_last(), h, w);
        let prev = init_run(counts.drop_last(), h, w);
        if !weights_ready(prev.0) {
            let b = prev.0.init_cursor as int;
            let c = init_end(prev.0.init_cursor, counts.last());
            lemma_init_chunks(w, h.rng_state, 0, b, c);
            let f = prev.0.flags;
            assert((f | 1u8) & 1u8 != 0) by (bit_vector);
        }
    }
}

/// PRNG-initialize the next chunk of weights (Gaussian, std 0.08). Chunks
/// are applied in order from the generator state kept in the header, so the
/// full init is a pure function of the seed regardless of chunking; the
/// last chunk marks the weights ready. Rejects short instruction data, a
/// foreign header and an already initialized model, changing nothing.
pub fn process_init_weights(data: &[u8], h: &mut ModelHeader, w: &mut Weights) -> (r: Result<(), ProgramError>)
    requires
        old(w).params@.len() == N_PARAMS,
        old(h).init_cursor <= N_PARAMS,
    ensures
        r is Ok <==> data@.len() >= 4 && model_ok(old(h)@) && !weights_ready(old(h)@),
        data@.len() < 4 ==> r == Err::<(), ProgramError>(ProgramError::InvalidInstructionData),
        data@.len() >= 4 && !model_ok(old(h)@) ==> r == Err::<(), ProgramError>(ProgramError::InvalidAccountData),
        data@.len() >= 4 && model_ok(old(h)@) && weights_ready(old(h)@)
            ==> r == Err::<(), ProgramError>(ProgramError::AccountAlreadyInitialized),
        r is Err ==> final(h)@ == old(h)@ && final(w).params@ == old(w).params@,
        r is Ok ==> ({
            let count = le_value(data@.subrange(0, 4)) as u32;
            (final(h)@, final(w).params@) == init_chunk_spec(count, old(h)@, old(w).params@)
        }),
        final(w).params@.len() == N_PARAMS,
        final(h).init_cursor <= N_PARAMS,
        old(h)@.wf() ==> final(h)@.wf(),
{
    let args = match InitWeightsArgs::parse(data) {
        Some(a) => a,
        None => {
            return Err(ProgramError::InvalidInstructionData);
        },
    };
    check_model(h)?;
    if h.flags & FLAG_WEIGHTS_READY != 0 {
        return Err(ProgramError::AccountAlreadyInitialized);
    }
    let start = h.init_cursor as usize;
    let count: usize = if args.count < 1 { 1 } else { args.count as usize };
    let end = if N_PARAMS - start < count { N_PARAMS } else { start + count };
    let mut rng = Rng(h.rng_state);
    w.init_range(start, end, &mut rng);
    h.rng_state = rng.0;
    h.init_cursor = end as u64;
    if end == N_PARAMS {
        h.flags = h.flags | FLAG_WEIGHTS_READY;
    }
    assert(h@ =~= init_chunk_spec(args.count, old(h)@, old(w).params@).0);
    Ok(())
}

/// The header `InitModel` writes: magic and version, the PDA bumps, the
/// initializing payer as authority, the seed and the generator seeded from
/// it, bias-correction powers at 1 and everything else zero.
pub open spec fn initial_header(seed: u64, bumps: Seq<u8>, authority: Seq<u8>) -> HeaderV {
    HeaderV {
        magic: MODEL_MAGIC@,
        version: STATE_VERSION,
        bumps: bumps,
        flags: 0,
        authority: authority,
        seed: seed,
        rng_state: seeded(seed),
        init_cursor: 0,
        step: 0,
        pow_beta1: ONE,
        pow_beta2: ONE,
        loss_ema: 0,
        last_loss: 0,
        gen_count: 0,
        ring_pos: 0,
        loss_ring: Seq::new(LOSS_RING_LEN as nat, |i: int| 0i64),
        phase: 0,
        phase_cursor: 0,
        doc_tokens_len: 0,
        doc: Seq::new(18, |i: int| 0u8),
        pending_loss: 0,
    }
}

/// The initial model header.
pub fn new_model_header(seed: u64, bumps: [u8; 6], authority: [u8; 32]) -> (h: ModelHeader)
    ensures
        h@ == initial_header(seed, bumps@, authority@),
        h@.wf(),
        model_ok(h@),
        !weights_ready(h@),
{
    let mut ring: Vec<Fx> = Vec::new();
    while ring.len() < LOSS_RING_LEN
        invariant
            ring@.len() <= LOSS_RING_LEN,
            forall|i: int| 0 <= i < ring@.len() ==> ring@[i] == 0,
        decreases LOSS_RING_LEN - ring@.len(),
    {
        ring.push(0);
    }
    let h = ModelHeader {
        magic: MODEL_MAGIC,
        version: STATE_VERSION,
        bumps,
        flags: 0,
        authority,
        seed,
        rng_state: Rng::new(seed).0,
        init_cursor: 0,
        step: 0,
        pow_beta1: ONE,
        pow_beta2: ONE,
        loss_ema: 0,
        last_loss: 0,
        gen_count: 0,
        ring_pos: 0,
        loss_ring: ring,
        phase: 0,
        phase_cursor: 0,
        doc_tokens_len: 0,
        doc: [0u8; 18],
        pending_loss: 0,
    };
    assert(h@.loss_ring =~= Seq::new(LOSS_RING_LEN as nat, |i: int| 0i64));
    assert(h@.doc =~= Seq::new(18, |i: int| 0u8));
    assert(h@ =~= initial_header(seed, bumps@, authority@));
    assert(0u8 & FLAG_WEIGHTS_READY == 0) by (bit_vector);
    h
}

/// An empty document store of the given capacity.
pub fn new_docs_header(capacity: u64) -> (d: DocsHeader)
    ensures
        d.magic@ == MODEL_MAGIC@,
        d.capacity == capacity,
        d.count == 0,
{
    DocsHeader { magic: MODEL_MAGIC, capacity, count: 0 }
}

/// An empty generation log.
pub fn new_genlog_header() -> (g: GenLogHeader)
    ensures
        g.magic@ == MODEL_MAGIC@,
        g.capacity == GENLOG_CAPACITY,
        g.total == 0,
{
    GenLogHeader { magic: MODEL_MAGIC, capacity: GENLOG_CAPACITY, total: 0 }
}

/// Fail unless the header is a valid model header whose authority is
/// `signer`.
pub fn check_authority(h: &ModelHeader, signer: &[u8; 32]) -> (r: Result<(), ProgramError>)
    ensures
        r is Ok <==> model_ok(h@) && signer@ == h.authority@,
        !model_ok(h@) ==> r == Err::<(), ProgramError>(ProgramError::InvalidAccountData),
        model_ok(h@) && signer@ != h.authority@ ==> r == Err::<(), ProgramError>(ProgramError::IncorrectAuthority),
{
    check_model(h)?;
    let mut i: usize = 0;
    while i < 32
        invariant
            i <= 32,
            model_ok(h@),
            forall|j: int| 0 <= j < i ==> signer@[j] == h.authority@[j],
        decreases 32 - i,
    {
        if signer[i] != h.authority[i] {
            return Err(ProgramError::IncorrectAuthority);
        }
        i = i + 1;
    }
    assert(signer@ =~= h.authority@);
    Ok(())
}

/// A record as a store keeps it: the length byte and the letters, zero
/// padded.
pub open spec fn stored_record(rec: Seq<u8>) -> Seq<u8> {
    Seq::new(DOC_RECORD_LEN as nat, |j: int| if j <= rec[0] { rec[j] } else { 0u8 })
}

/// Record `i` of packed record data.
pub open spec fn data_record(data: Seq<u8>, i: int) -> Seq<u8> {
    data.subrange(16 * i, 16 * i + 16)
}

/// Number of packed records in `data`.
pub open spec fn record_count(data: Seq<u8>) -> int {
    (data.len() / 16) as int
}

/// The error of the first record from `i` on that cannot be appended to a
/// store holding `count` of `capacity` records: an invalid record, or a
/// full store.
pub open spec fn load_error(data: Seq<u8>, count: u64, capacity: u64, i: int) -> Option<ProgramError>
    decreases record_count(data) - i,
{
    if i < 0 || i >= record_count(data) {
        None
    } else if !record_valid(data_record(data, i)) {
        Some(ProgramError::InvalidInstructionData)
    } else if count + i >= capacity {
        Some(ProgramError::AccountDataTooSmall)
    } else {
        load_error(data, count, capacity, i + 1)
    }
}

/// Record bytes after appending the `k` records of `data` at slot `count`.
pub open spec fn appended(recs: Seq<u8>, data: Seq<u8>, count: int, k: int) -> Seq<u8> {
    Seq::new(
        recs.len(),
        |j: int| {
            let slot = j / 16;
            if count <= slot < count + k { stored_record(data_record(data, slot - count))[j % 16] } else { recs[j] }
        },
    )
}

/// No error from record `i` on means every record from `i` on is valid and
/// fits.
proof fn lemma_load_error_none(data: Seq<u8>, count: u64, capacity: u64, i: int)
    requires
        0 <= i <= record_count(data),
        load_error(data, count, capacity, i) is None,
    ensures
        forall|j: int| i <= j < record_count(data) ==> #[trigger] record_valid(data_record(data, j)) && count + j < capacity,
    decreases record_count(data) - i,
{
    if i < record_count(data) {
        lemma_load_error_none(data, count, capacity, i + 1);
    }
}

/// The first error among the records from `i` on, or None.
fn first_load_error(data: &[u8], count: u64, capacity: u64) -> (r: Option<ProgramError>)
    requires
        data@.len() % 16 == 0,
    ensures
        r == load_error(data@, count, capacity, 0),
{
    let n_data = data.len();
    let k = n_data / 16;
    let mut i = k;
    let mut result: Option<ProgramError> = None;
    while i > 0
        invariant
            i <= k,
            n_data == data@.len(),
            k == record_count(data@),
            data@.len() == 16 * k,
            result == load_error(data@, count, capacity, i as int),
        decreases i,
    {
        i = i - 1;
        assert(16 * i + 16 <= 16 * k) by (nonlinear_arith)
            requires
                i < k,
        ;
        let rec = &data[16 * i..16 * i + 16];
        assert(rec@ =~= data_record(data@, i as int));
        let len = rec[0] as usize;
        let mut valid = 1 <= len && len <= MAX_NAME_LEN;
        if valid {
            let mut j: usize = 1;
            while j <= len
                invariant
                    1 <= j <= len + 1,
                    len <= MAX_NAME_LEN,
                    rec@.len() == 16,
                    len == rec@[0],
                    valid == (forall|q: int| 1 <= q < j ==> rec@[q] < BOS),
                decreases len + 1 - j,
            {
                valid = valid && rec[j] < BOS;
                j = j + 1;
            }
        }
        assert(valid == record_valid(data_record(data@, i as int)));
        if !valid {
            result = Some(ProgramError::InvalidInstructionData);
        } else if (count as u128) + (i as u128) >= capacity as u128 {
            result = Some(ProgramError::AccountDataTooSmall);
        }
    }
    result
}

/// Append packed 16-byte records (`[len, token ids...]`, len in 1..=15,
/// letters only) to a document store. Empty or ragged data is
/// InvalidInstructionData; otherwise the first record that is invalid
/// (InvalidInstructionData) or finds the store full (AccountDataTooSmall)
/// rejects the whole batch. Nothing changes on an error.
pub fn load_docs(data: &[u8], docs: &mut DocSet) -> (r: Result<(), ProgramError>)
    requires
        docs_cover(old(docs)),
    ensures
        (data@.len() == 0 || data@.len() % 16 != 0) ==> r == Err::<(), ProgramError>(ProgramError::InvalidInstructionData),
        (data@.len() > 0 && data@.len() % 16 == 0) ==> match load_error(data@, old(docs).header.count, old(docs).header.capacity, 0) {
            Some(e) => r == Err::<(), ProgramError>(e),
            None => r is Ok,
        },
        r is Err ==> final(docs).header == old(docs).header && final(docs).records@ == old(docs).records@,
        r is Ok ==> final(docs).header == (DocsHeader { count: (old(docs).header.count + record_count(data@)) as u64, ..old(docs).header })
            && final(docs).records@ == appended(old(docs).records@, data@, old(docs).header.count as int, record_count(data@)),
{
    if data.len() == 0 || data.len() % 16 != 0 {
        return Err(ProgramError::InvalidInstructionData);
    }
    match first_load_error(data, docs.header.count, docs.header.capacity) {
        Some(e) => {
            return Err(e);
        },
        None => {},
    }
    let k = data.len() / 16;
    proof {
        lemma_load_error_none(data@, docs.header.count, docs.header.capacity, 0);
        if k > 0 {
            assert(record_valid(data_record(data@, (k - 1) as int)));
            assert(docs.header.count + (k - 1) < docs.header.capacity);
        }
    }
    let n_rec = docs.records.len();
    let n_data = data.len();
    let ghost recs0 = docs.records@;
    let ghost count0 = docs.header.count as int;
    let mut i: usize = 0;
    while i < k
        invariant
            i <= k,
            k == record_count(data@),
            data@.len() == 16 * k,
            docs.header.count == count0 + i,
            docs.header.magic == old(docs).header.magic,
            docs.header.capacity == old(docs).header.capacity,
            count0 + k <= docs.header.capacity,
            docs.records@.len() == recs0.len(),
            n_rec == recs0.len(),
            n_data == data@.len(),
            recs0.len() >= docs.header.capacity * 16,
            forall|j: int| 0 <= j < k ==> #[trigger] record_valid(data_record(data@, j)),
            docs.records@ == appended(recs0, data@, count0, i as int),
        decreases k - i,
    {
        proof {
            assert((count0 + i) * 16 + 16 <= docs.header.capacity * 16) by (nonlinear_arith)
                requires
                    count0 + i < docs.header.capacity,
            ;
            assert(16 * i + 16 <= 16 * k) by (nonlinear_arith)
                requires
                    i < k,
            ;
        }
        let cnt = docs.header.count;
        assert(cnt == count0 + i);
        assert(cnt * 16 + 16 <= docs.header.capacity * 16);
        assert(cnt * 16 + 16 <= n_rec);
        let offset = (cnt as usize) * DOC_RECORD_LEN;
        assert(record_valid(data_record(data@, i as int)));
        let len = data[16 * i] as usize;
        let mut j: usize = 0;
        while j < 16
            invariant
                j <= 16,
                i < k,
                docs.header.count == count0 + i,
                docs.header.magic == old(docs).header.magic,
                docs.header.capacity == old(docs).header.capacity,
                count0 + k <= docs.header.capacity,
                k == record_count(data@),
                data@.len() == 16 * k,
                offset == (count0 + i) * 16,
                offset + 16 <= docs.records@.len(),
                docs.records@.len() == recs0.len(),
                16 * i + 16 <= n_data,
                n_data == data@.len(),
                len == data@[16 * i],
                forall|q: int| 0 <= q < docs.records@.len() ==> #[trigger] docs.records@[q] ==
                    if offset <= q < offset + j { stored_record(data_record(data@, i as int))[q - offset] }
                    else { appended(recs0, data@, count0, i as int)[q] },
            decreases 16 - j,
        {
            let b = if j <= len { data[16 * i + j] } else { 0u8 };
            docs.records.set(offset + j, b);
            j = j + 1;
        }
        docs.header.count = docs.header.count + 1;
        i = i + 1;
        proof {
            assert forall|q: int| 0 <= q < docs.records@.len() implies #[trigger] docs.records@[q]
                == appended(recs0, data@, count0, i as int)[q] by {
                let slot = q / 16;
                if offset <= q < offset + 16 {
                    assert(slot == count0 + i - 1);
                    assert(q % 16 == q - offset);
                }
            }
            assert(docs.records@ =~= appended(recs0, data@, count0, i as int));
        }
    }
    Ok(())
}

/// A contributable name: 1..=15 letters.
pub open spec fn name_ok(name: Seq<u8>) -> bool {
    1 <= name.len() <= MAX_NAME_LEN && forall|i: int| 0 <= i < name.len() ==> name[i] < BOS
}

/// The record a contributed name is stored as.
pub open spec fn contributed_record(name: Seq<u8>) -> Seq<u8> {
    Seq::new(
        DOC_RECORD_LEN as nat,
        |j: int| if j == 0 { name.len() as u8 } else if j <= name.len() { name[j - 1] } else { 0u8 },
    )
}

/// A well-formed community store.
pub open spec fn community_ok(d: &DocSet) -> bool {
    &&& d.header.magic@ == MODEL_MAGIC@
    &&& d.header.capacity == COMMUNITY_CAPACITY
    &&& d.header.count <= d.header.capacity
    &&& docs_cover(d)
}

/// Record bytes with slot `slot` replaced by `rec`.
pub open spec fn with_slot(recs: Seq<u8>, slot: int, rec: Seq<u8>) -> Seq<u8> {
    Seq::new(recs.len(), |j: int| if slot * 16 <= j < slot * 16 + 16 { rec[j - slot * 16] } else { recs[j] })
}

/// Contribute a name to the community store: it becomes training data on
/// the next community step. Rejects an invalid name
/// (InvalidInstructionData), a malformed store (InvalidAccountData) and a
/// full one (AccountDataTooSmall), changing nothing.
pub fn contribute(data: &[u8], community: &mut DocSet) -> (r: Result<(), ProgramError>)
    ensures
        r is Ok <==> name_ok(data@) && community_ok(old(community)) && old(community).header.count < old(community).header.capacity,
        !name_ok(data@) ==> r == Err::<(), ProgramError>(ProgramError::InvalidInstructionData),
        name_ok(data@) && !community_ok(old(community)) ==> r == Err::<(), ProgramError>(ProgramError::InvalidAccountData),
        name_ok(data@) && community_ok(old(community)) && old(community).header.count >= old(community).header.capacity
            ==> r == Err::<(), ProgramError>(ProgramError::AccountDataTooSmall),
        r is Err ==> final(community).header == old(community).header && final(community).records@ == old(community).records@,
        r is Ok ==> final(community).header == (DocsHeader { count: (old(community).header.count + 1) as u64, ..old(community).header })
            && final(community).records@ == with_slot(old(community).records@, old(community).header.count as int, contributed_record(data@)),
{
    if data.len() == 0 || data.len() > MAX_NAME_LEN {
        return Err(ProgramError::InvalidInstructionData);
    }
    let mut i: usize = 0;
    while i < data.len()
        invariant
            i <= data@.len(),
            forall|j: int| 0 <= j < i ==> data@[j] < BOS,
        decreases data@.len() - i,
    {
        if data[i] >= BOS {
            return Err(ProgramError::InvalidInstructionData);
        }
        i = i + 1;
    }
    let magic_ok = community.header.magic[0] == MODEL_MAGIC[0] && community.header.magic[1] == MODEL_MAGIC[1]
        && community.header.magic[2] == MODEL_MAGIC[2] && community.header.magic[3] == MODEL_MAGIC[3];
    proof {
        if magic_ok {
            assert(community.header.magic@ =~= MODEL_MAGIC@);
        }
    }
    if !magic_ok || community.header.capacity != COMMUNITY_CAPACITY || community.header.count > community.header.capacity
        || (community.records.len() as u128) < (community.header.capacity as u128) * 16
    {
        return Err(ProgramError::InvalidAccountData);
    }
    if community.header.count >= community.header.capacity {
        return Err(ProgramError::AccountDataTooSmall);
    }
    let ghost recs0 = community.records@;
    let offset = (community.header.count as usize) * DOC_RECORD_LEN;
    let len = data.len();
    let mut j: usize = 0;
    while j < 16
        invariant
            j <= 16,
            offset == old(community).header.count * 16,
            community.header == old(community).header,
            community.header.count < community.header.capacity,
            offset + 16 <= community.records@.len(),
            community.records@.len() == recs0.len(),
            len == data@.len(),
            1 <= len <= MAX_NAME_LEN,
            forall|q: int| 0 <= q < community.records@.len() ==> #[trigger] community.records@[q] ==
                if offset <= q < offset + j { contributed_record(data@)[q - offset] } else { recs0[q] },
        decreases 16 - j,
    {
        let b = if j == 0 { len as u8 } else if j <= len { data[j - 1] } else { 0u8 };
        community.records.set(offset + j, b);
        j = j + 1;
    }
    community.header.count = community.header.count + 1;
    assert(community.records@ =~= with_slot(recs0, old(community).header.count as int, contributed_record(data@)));
    Ok(())
}

} // verus!
