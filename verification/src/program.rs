//! The training and sampling logic of the on-chain program: document
//! curriculum, the fused training step, the split (micro-transaction)
//! training state machine and name generation, over already-loaded account
//! contents. Account loading, signer and address checks and the runtime
//! calls are the caller's.

use vstd::prelude::*;
use crate::fixed::{Fx, ONE, wadd, wsub, shr, tdiv, fmul, div_trunc, lemma_shr_i64};
use crate::model::{Weights, Moments, Scratch, ScratchV, BLOCK, BOS, VOCAB, N_PARAMS};
use crate::backprop::{
    train_fwd_bwd_spec, valid_doc, forward_pos_loss, fwd_loss_spec, backward_position,
    backward_position_spec, zero_grads, zero_grads_spec,
};
use crate::adam::{
    AdamParams, BETA1, BETA2, train_doc, adam_range, adam_w_range, adam_m_range, adam_v_range,
    lr_at_step, lr_spec, next_pow, lemma_next_pow_range,
};
use crate::state::{
    ModelHeader, HeaderV, DocsHeader, MODEL_MAGIC, STATE_VERSION, FLAG_WEIGHTS_READY, PHASE_PICK,
    PHASE_FORWARD, PHASE_BACKWARD, PHASE_ADAM, ADAM_CHUNK, DOC_STRIDE, COMMUNITY_EVERY,
    LOSS_EMA_SHIFT, LOSS_RING_LEN, DOC_RECORD_LEN,
};

verus! {

/// Errors the program logic reports (a subset of the runtime's program
/// errors).
#[derive(Debug, Clone, Copy, PartialEq, Eq, Structural)]
pub enum ProgramError {
    InvalidInstructionData,
    InvalidAccountData,
    UninitializedAccount,
    AccountAlreadyInitialized,
    AccountDataTooSmall,
    IncorrectAuthority,
    InvalidSeeds,
}

/// Contents of a document store (dataset or community account).
pub struct DocSet {
    pub header: DocsHeader,
    /// Packed 16-byte records: length byte, then up to 15 token ids.
    pub records: Vec<u8>,
}

/// The store's record area covers its declared capacity.
pub open spec fn docs_cover(d: &DocSet) -> bool {
    d.records@.len() >= d.header.capacity * DOC_RECORD_LEN
}

/// The stored count is within capacity.
pub open spec fn docs_count_ok(d: &DocSet) -> bool {
    d.header.count <= d.header.capacity
}

/// Fail unless the record area covers the declared capacity.
pub fn check_docs(d: &DocSet) -> (r: Result<(), ProgramError>)
    ensures
        r is Ok <==> docs_cover(d),
        r is Err ==> r == Err::<(), ProgramError>(ProgramError::InvalidAccountData),
{
    if (d.records.len() as u128) < (d.header.capacity as u128) * (DOC_RECORD_LEN as u128) {
        return Err(ProgramError::InvalidAccountData);
    }
    Ok(())
}

/// The model header carries the magic and the current layout version.
pub open spec fn model_ok(h: HeaderV) -> bool {
    h.magic == MODEL_MAGIC@ && h.version == STATE_VERSION
}

/// Fail unless the header carries the magic and the current layout
/// version.
pub fn check_model(h: &ModelHeader) -> (r: Result<(), ProgramError>)
    ensures
        r is Ok <==> model_ok(h@),
        r is Err ==> r == Err::<(), ProgramError>(ProgramError::InvalidAccountData),
{
    let ok = h.magic[0] == MODEL_MAGIC[0] && h.magic[1] == MODEL_MAGIC[1] && h.magic[2] == MODEL_MAGIC[2]
        && h.magic[3] == MODEL_MAGIC[3] && h.version == STATE_VERSION;
    proof {
        if ok {
            assert(h.magic@ =~= MODEL_MAGIC@);
        }
    }
    if !ok {
        return Err(ProgramError::InvalidAccountData);
    }
    Ok(())
}

/// Whether the header satisfies the invariants the program maintains
/// (`HeaderV::wf`): a header this program wrote always does.
pub fn header_wf(h: &ModelHeader) -> (r: bool)
    ensures
        r == h@.wf(),
{
    if h.loss_ring.len() != LOSS_RING_LEN {
        return false;
    }
    if h.pow_beta1 < 0 || h.pow_beta1 > ONE || h.pow_beta2 < 0 || h.pow_beta2 > ONE {
        return false;
    }
    if h.phase == PHASE_ADAM && (h.pow_beta1 >= ONE || h.pow_beta2 >= ONE) {
        return false;
    }
    if h.doc_tokens_len as usize > BLOCK + 2 {
        return false;
    }
    let mut i: usize = 0;
    while i < 18
        invariant
            i <= 18,
            h.doc@.len() == 18,
            forall|j: int| 0 <= j < i ==> h.doc@[j] < VOCAB,
        decreases 18 - i,
    {
        if h.doc[i] as usize >= VOCAB {
            assert(!h@.wf());
            return false;
        }
        i = i + 1;
    }
    true
}

/// Fail unless the header is a valid model whose weights are initialized.
pub fn check_ready(h: &ModelHeader) -> (r: Result<(), ProgramError>)
    ensures
        r is Ok <==> model_ok(h@) && weights_ready(h@),
        !model_ok(h@) ==> r == Err::<(), ProgramError>(ProgramError::InvalidAccountData),
        model_ok(h@) && !weights_ready(h@) ==> r == Err::<(), ProgramError>(ProgramError::UninitializedAccount),
{
    check_model(h)?;
    if h.flags & FLAG_WEIGHTS_READY == 0 {
        return Err(ProgramError::UninitializedAccount);
    }
    Ok(())
}

/// Fail unless the header is a ready model with no split step in flight:
/// a fused step over an in-flight split step would mix its activations and
/// gradients into the state machine.
pub fn check_at_rest(h: &ModelHeader) -> (r: Result<(), ProgramError>)
    ensures
        r is Ok <==> model_ok(h@) && weights_ready(h@) && h.phase == PHASE_PICK,
        !model_ok(h@) ==> r == Err::<(), ProgramError>(ProgramError::InvalidAccountData),
        model_ok(h@) && !weights_ready(h@) ==> r == Err::<(), ProgramError>(ProgramError::UninitializedAccount),
        model_ok(h@) && weights_ready(h@) && h.phase != PHASE_PICK ==> r == Err::<(), ProgramError>(ProgramError::InvalidAccountData),
{
    check_ready(h)?;
    if h.phase != PHASE_PICK {
        return Err(ProgramError::InvalidAccountData);
    }
    Ok(())
}

// -- Curriculum --------------------------------------------------------------

/// Whether step `step` trains on a community document.
pub open spec fn community_turn(step: u64, community_count: u64) -> bool {
    community_count > 0 && step % COMMUNITY_EVERY == COMMUNITY_EVERY - 1
}

/// Record index used by step `step`: community docs in order every Nth
/// step, otherwise a stride walk over the pseudo-shuffled dataset.
pub open spec fn doc_index(step: u64, docs_count: u64, community_count: u64) -> u64 {
    if community_turn(step, community_count) {
        ((step / COMMUNITY_EVERY) % community_count) as u64
    } else {
        (vstd::wrapping::u64_specs::wrapping_mul(step, DOC_STRIDE) % docs_count) as u64
    }
}

/// Greatest common divisor (Euclid).
pub open spec fn gcd(a: nat, b: nat) -> nat
    decreases b,
{
    if b == 0 { a } else { gcd(b, a % b) }
}

/// Bezout coefficients: a * x + b * y == gcd(a, b).
proof fn lemma_bezout(a: nat, b: nat) -> (r: (int, int))
    ensures
        a * r.0 + b * r.1 == gcd(a, b),
    decreases b,
{
    if b == 0 {
        assert(a * 1int + b * 0int == gcd(a, b));
        (1, 0)
    } else {
        let rm: nat = a % b;
        let (x, y) = lemma_bezout(b, rm);
        assert(b * x + rm * y == gcd(b, rm));
        assert(gcd(a, b) == gcd(b, rm));
        let q: int = (a / b) as int;
        vstd::arithmetic::div_mod::lemma_fundamental_div_mod(a as int, b as int);
        let ai: int = a as int;
        let bi: int = b as int;
        let ri: int = rm as int;
        assert(ai * y + bi * (x - q * y) == bi * x + ri * y) by (nonlinear_arith)
            requires
                ai == bi * q + ri,
        ;
        assert(a * y + b * (x - q * y) == gcd(a, b));
        (y, x - q * y)
    }
}

/// The dataset walk visits distinct records: when the record count is
/// co-prime with the stride, any two steps less than one record count apart
/// (before the step product wraps) pick different records.
pub proof fn lemma_stride_walk_distinct(s1: u64, s2: u64, n: u64)
    requires
        n > 0,
        gcd(n as nat, DOC_STRIDE as nat) == 1,
        s1 < s2 < s1 + n,
        s2 * DOC_STRIDE <= u64::MAX,
    ensures
        doc_index(s1, n, 0) != doc_index(s2, n, 0),
{
    let p: int = DOC_STRIDE as int;
    let nn: int = n as int;
    assert(s1 * p <= s2 * p) by (nonlinear_arith)
        requires
            s1 < s2,
            p > 0,
    ;
    let a1: int = s1 * p;
    let a2: int = s2 * p;
    assert(vstd::wrapping::u64_specs::wrapping_mul(s1, DOC_STRIDE) == a1);
    assert(vstd::wrapping::u64_specs::wrapping_mul(s2, DOC_STRIDE) == a2);
    if doc_index(s1, n, 0) == doc_index(s2, n, 0) {
        let (x, y) = lemma_bezout(n as nat, DOC_STRIDE as nat);
        vstd::arithmetic::div_mod::lemma_fundamental_div_mod(a1, nn);
        vstd::arithmetic::div_mod::lemma_fundamental_div_mod(a2, nn);
        assert(a1 % nn == a2 % nn);
        let d: int = s2 - s1;
        let k: int = a2 / nn - a1 / nn;
        assert(d * p == nn * k) by (nonlinear_arith)
            requires
                a1 == nn * (a1 / nn) + a1 % nn,
                a2 == nn * (a2 / nn) + a2 % nn,
                a1 % nn == a2 % nn,
                a1 == s1 * p,
                a2 == s2 * p,
                d == s2 - s1,
                k == a2 / nn - a1 / nn,
        ;
        assert(d == nn * (d * x + k * y)) by (nonlinear_arith)
            requires
                nn * x + p * y == 1,
                d * p == nn * k,
        ;
        let j: int = d * x + k * y;
        assert(false) by (nonlinear_arith)
            requires
                d == nn * j,
                0 < d < nn,
        ;
    }
}

/// The dataset walk reaches every record: when the record count `n` is
/// co-prime with the stride, every record is picked by some step among any
/// `n` consecutive steps (before the step product wraps). With
/// `lemma_stride_walk_distinct`, each such run visits every record exactly
/// once.
pub proof fn lemma_stride_walk_covers(a: u64, n: u64, r: u64) -> (s: u64)
    requires
        n > 0,
        gcd(n as nat, DOC_STRIDE as nat) == 1,
        r < n,
        (a + n) * DOC_STRIDE <= u64::MAX,
    ensures
        a <= s < a + n,
        doc_index(s, n, 0) == r,
{
    let p: int = DOC_STRIDE as int;
    let nn: int = n as int;
    let (x, y) = lemma_bezout(n as nat, DOC_STRIDE as nat);
    let c: int = r - a * p;
    let u: int = c * y;
    let off: int = u % nn;
    let q: int = u / nn;
    vstd::arithmetic::div_mod::lemma_fundamental_div_mod(u, nn);
    vstd::arithmetic::div_mod::lemma_mod_bound(u, nn);
    let s: int = a + off;
    let kk: int = -(c * x) - q * p;
    assert(u * p == c - nn * (c * x)) by (nonlinear_arith)
        requires
            u == c * y,
            nn * x + p * y == 1,
    ;
    assert(off * p == u * p - nn * (q * p)) by (nonlinear_arith)
        requires
            u == nn * q + off,
    ;
    assert(s * p == a * p + off * p) by (nonlinear_arith)
        requires
            s == a + off,
    ;
    assert(s * p == r + nn * kk) by (nonlinear_arith)
        requires
            s * p == a * p + off * p,
            off * p == u * p - nn * (q * p),
            u * p == c - nn * (c * x),
            c == r - a * p,
            kk == -(c * x) - q * p,
    ;
    assert(0 <= s * p <= (a + n) * p) by (nonlinear_arith)
        requires
            a <= s < a + n,
            p > 0,
    ;
    vstd::arithmetic::div_mod::lemma_fundamental_div_mod_converse(s * p, nn, kk, r as int);
    let su = s as u64;
    assert(vstd::wrapping::u64_specs::wrapping_mul(su, DOC_STRIDE) == s * p);
    su
}

/// Deterministic curriculum: (from the community store?, record index).
pub fn pick_doc_index(step: u64, docs_count: u64, community_count: u64) -> (r: (bool, u64))
    requires
        docs_count > 0,
    ensures
        r.0 == community_turn(step, community_count),
        r.1 == doc_index(step, docs_count, community_count),
        r.0 ==> r.1 < community_count,
        !r.0 ==> r.1 < docs_count,
{
    if community_count > 0 && step % COMMUNITY_EVERY == COMMUNITY_EVERY - 1 {
        (true, (step / COMMUNITY_EVERY) % community_count)
    } else {
        (false, step.wrapping_mul(DOC_STRIDE) % docs_count)
    }
}

/// A stored record is a trainable name: length 1..=15, letters only.
pub open spec fn record_valid(r: Seq<u8>) -> bool {
    &&& 1 <= r[0] < BLOCK
    &&& forall|i: int| 1 <= i <= r[0] ==> r[i] < BOS
}

/// BOS-delimited token sequence of a record.
pub open spec fn record_tokens(r: Seq<u8>) -> Seq<u8> {
    seq![BOS] + r.subrange(1, r[0] + 1) + seq![BOS]
}

/// Token sequence of a valid record, None for an invalid one.
pub fn record_doc(record: &[u8]) -> (r: Option<Vec<u8>>)
    requires
        record@.len() == DOC_RECORD_LEN,
    ensures
        r is Some <==> record_valid(record@),
        r matches Some(t) ==> t@ == record_tokens(record@) && valid_doc(t@),
{
    let len = record[0] as usize;
    if len == 0 || len >= BLOCK {
        return None;
    }
    let mut tokens: Vec<u8> = Vec::new();
    tokens.push(BOS);
    let mut i: usize = 1;
    while i <= len
        invariant
            1 <= i <= len + 1,
            len < BLOCK,
            len == record@[0],
            record@.len() == DOC_RECORD_LEN,
            forall|j: int| 1 <= j < i ==> record@[j] < BOS,
            tokens@ == seq![BOS] + record@.subrange(1, i as int),
        decreases len + 1 - i,
    {
        if record[i] >= BOS {
            return None;
        }
        tokens.push(record[i]);
        i = i + 1;
        assert(tokens@ =~= seq![BOS] + record@.subrange(1, i as int));
    }
    tokens.push(BOS);
    proof {
        assert(tokens@ =~= record_tokens(record@));
        assert forall|j: int| 0 <= j < tokens@.len() implies tokens@[j] < VOCAB by {
            if 1 <= j <= len {
                assert(tokens@[j] == record@[j]);
            }
        }
    }
    Some(tokens)
}

/// The record used by step `step`.
pub open spec fn step_record(step: u64, docs: Seq<u8>, dcount: u64, comm: Seq<u8>, ccount: u64) -> Seq<u8> {
    let i = doc_index(step, dcount, ccount) as int;
    if community_turn(step, ccount) {
        comm.subrange(i * 16, i * 16 + 16)
    } else {
        docs.subrange(i * 16, i * 16 + 16)
    }
}

/// Both document stores are loaded consistently.
pub open spec fn stores_ok(docs: &DocSet, community: &DocSet) -> bool {
    &&& docs_cover(docs)
    &&& docs_count_ok(docs)
    &&& docs_cover(community)
    &&& docs_count_ok(community)
}

/// Tokens of the record scheduled for `step`, or InvalidAccountData.
pub fn select_doc(step: u64, docs: &DocSet, community: &DocSet) -> (r: Result<Vec<u8>, ProgramError>)
    requires
        docs.header.count > 0,
        stores_ok(docs, community),
    ensures
        ({
            let rec = step_record(step, docs.records@, docs.header.count, community.records@, community.header.count);
            &&& r is Ok <==> record_valid(rec)
            &&& r matches Ok(t) ==> t@ == record_tokens(rec) && valid_doc(t@)
            &&& r is Err ==> r == Err::<Vec<u8>, ProgramError>(ProgramError::InvalidAccountData)
        }),
{
    let (from_community, idx) = pick_doc_index(step, docs.header.count, community.header.count);
    let store = if from_community { community } else { docs };
    proof {
        assert(idx * 16 + 16 <= store.header.capacity * 16) by (nonlinear_arith)
            requires
                idx < store.header.count,
                store.header.count <= store.header.capacity,
        ;
        assert(idx * 16 + 16 <= store.records@.len());
    }
    let n_bytes = store.records.len();
    assert(idx * 16 + 16 <= n_bytes);
    let start = (idx as usize) * DOC_RECORD_LEN;
    let record = &store.records.as_slice()[start..start + DOC_RECORD_LEN];
    match record_doc(record) {
        Some(t) => Ok(t),
        None => Err(ProgramError::InvalidAccountData),
    }
}

// -- Landing a step ----------------------------------------------------------

/// Header after a step with loss `loss` lands: step counter, last loss,
/// loss EMA (seeded by the first loss) and the loss ring.
pub open spec fn land_spec(h: HeaderV, loss: Fx) -> HeaderV {
    HeaderV {
        step: (h.step + 1) as u64,
        last_loss: loss,
        loss_ema: if h.step == 0 { loss } else { wadd(h.loss_ema, shr(wsub(loss, h.loss_ema), 6)) },
        loss_ring: h.loss_ring.update((h.ring_pos % LOSS_RING_LEN as u64) as int, loss),
        ring_pos: (h.ring_pos + 1) as u64,
        ..h
    }
}

/// Room for another step in the counters.
pub open spec fn counters_ok(h: HeaderV, k: int) -> bool {
    h.step + k <= u64::MAX && h.ring_pos + k <= u64::MAX
}

/// Loss-ring law: once a step lands, the ring entry just before `ring_pos`
/// holds that step's loss, every other entry is kept, and step counter and
/// ring position advance together; so while they are equal (as from
/// `InitModel` on), the entry at `(ring_pos - 1) % LOSS_RING_LEN` is the loss
/// of step `step - 1`.
pub proof fn lemma_land_records_loss(h: HeaderV, loss: Fx)
    requires
        h.wf(),
        counters_ok(h, 1),
    ensures
        ({
            let n = land_spec(h, loss);
            let slot = ((n.ring_pos - 1) as u64 % LOSS_RING_LEN as u64) as int;
            &&& n.loss_ring[slot] == n.last_loss
            &&& n.last_loss == loss
            &&& forall|i: int| 0 <= i < LOSS_RING_LEN && i != slot ==> n.loss_ring[i] == h.loss_ring[i]
            &&& n.step == h.step + 1
            &&& n.ring_pos == h.ring_pos + 1
            &&& (h.ring_pos == h.step ==> n.ring_pos == n.step)
            &&& n.wf()
        }),
{
}

/// Record a completed step's loss in the header.
pub fn land_step(h: &mut ModelHeader, loss: Fx)
    requires
        old(h)@.wf(),
        counters_ok(old(h)@, 1),
    ensures
        final(h)@ == land_spec(old(h)@, loss),
        final(h)@.wf(),
{
    let step = h.step;
    h.step = h.step + 1;
    h.last_loss = loss;
    proof {
        lemma_shr_i64(wsub(loss, h.loss_ema), LOSS_EMA_SHIFT as u64);
    }
    h.loss_ema = if step == 0 {
        loss
    } else {
        h.loss_ema.wrapping_add(loss.wrapping_sub(h.loss_ema) >> LOSS_EMA_SHIFT)
    };
    let slot = (h.ring_pos % (LOSS_RING_LEN as u64)) as usize;
    h.loss_ring.set(slot, loss);
    h.ring_pos = h.ring_pos + 1;
    assert(h@ =~= land_spec(old(h)@, loss));
}

// -- Fused training step ----------------------------------------------------

/// Abstract training state: model header, parameters, Adam moments and the
/// activation workspace.
#[verifier::ext_equal]
pub ghost struct TrainState {
    pub h: HeaderV,
    pub w: Seq<Fx>,
    pub m: Seq<Fx>,
    pub v: Seq<Fx>,
    pub s: ScratchV,
}

/// The training state held by the given buffers.
pub open spec fn train_state(h: &ModelHeader, w: &Weights, mom: &Moments, s: &Scratch) -> TrainState {
    TrainState { h: h@, w: w.params@, m: mom.m@, v: mom.v@, s: s@ }
}

/// Buffers of model shape and a header satisfying its invariants.
pub open spec fn state_ok(st: TrainState) -> bool {
    &&& st.h.wf()
    &&& st.w.len() == N_PARAMS
    &&& st.m.len() == N_PARAMS
    &&& st.v.len() == N_PARAMS
    &&& st.s.wf()
}

/// The record scheduled for `step` in the two stores.
pub open spec fn rec_at(step: u64, docs: &DocSet, community: &DocSet) -> Seq<u8> {
    step_record(step, docs.records@, docs.header.count, community.records@, community.header.count)
}

/// Adam's learning rate and bias-correction terms for the step that starts
/// from header `h`.
pub open spec fn step_params(h: HeaderV) -> AdamParams {
    AdamParams {
        lr_t: lr_spec(h.step),
        pow_beta1: next_pow(h.pow_beta1, BETA1),
        pow_beta2: next_pow(h.pow_beta2, BETA2),
    }
}

/// One fused step (forward, backward, Adam over every parameter, landing
/// the loss) on the record scheduled for the current step.
pub open spec fn fused_step(st: TrainState, docs: &DocSet, community: &DocSet) -> TrainState {
    let toks = record_tokens(rec_at(st.h.step, docs, community));
    let fb = train_fwd_bwd_spec(st.s, st.w, toks);
    let p = step_params(st.h);
    let h1 = HeaderV { pow_beta1: p.pow_beta1, pow_beta2: p.pow_beta2, ..st.h };
    TrainState {
        h: land_spec(h1, fb.1),
        w: adam_w_range(st.w, st.m, st.v, fb.0.grads, 0, N_PARAMS as int, p),
        m: adam_m_range(st.m, fb.0.grads, 0, N_PARAMS as int),
        v: adam_v_range(st.v, fb.0.grads, 0, N_PARAMS as int),
        s: fb.0,
    }
}

/// `k` fused steps in a row.
pub open spec fn fused_run(st: TrainState, docs: &DocSet, community: &DocSet, k: nat) -> TrainState
    decreases k,
{
    if k == 0 {
        st
    } else {
        fused_step(fused_run(st, docs, community, (k - 1) as nat), docs, community)
    }
}

/// The first of the steps `step + j .. step + c` whose scheduled record is
/// not a trainable name, counted from `step`; `c` when there is none.
pub open spec fn first_bad(step: u64, docs: &DocSet, community: &DocSet, j: int, c: int) -> int
    decreases c - j,
{
    if j >= c {
        c
    } else if !record_valid(rec_at((step + j) as u64, docs, community)) {
        j
    } else {
        first_bad(step, docs, community, j + 1, c)
    }
}

/// Requested step count, clamped to 1..=16.
pub open spec fn clamp_count(c: u8) -> u8 {
    if c < 1 { 1 } else if c > 16 { 16 } else { c }
}

/// Weights-ready bit of the header flags.
pub open spec fn weights_ready(h: HeaderV) -> bool {
    h.flags & FLAG_WEIGHTS_READY != 0
}

/// Outcome of `TrainStep` with instruction data `data` on state `st`: the
/// result and the state it leaves. The checks come first and change
/// nothing; then the steps run one by one, and a step whose record is not a
/// trainable name fails with the earlier steps applied.
pub open spec fn train_step_spec(data: Seq<u8>, st: TrainState, docs: &DocSet, community: &DocSet) -> (Result<(), ProgramError>, TrainState) {
    if data.len() < 1 {
        (Err(ProgramError::InvalidInstructionData), st)
    } else if !model_ok(st.h) {
        (Err(ProgramError::InvalidAccountData), st)
    } else if !weights_ready(st.h) {
        (Err(ProgramError::UninitializedAccount), st)
    } else if st.h.phase != PHASE_PICK {
        (Err(ProgramError::InvalidAccountData), st)
    } else if !docs_cover(docs) || !docs_cover(community) {
        (Err(ProgramError::InvalidAccountData), st)
    } else if docs.header.count == 0 {
        (Err(ProgramError::UninitializedAccount), st)
    } else {
        let c = clamp_count(data[0]) as int;
        let j = first_bad(st.h.step, docs, community, 0, c);
        if j < c {
            (Err(ProgramError::InvalidAccountData), fused_run(st, docs, community, j as nat))
        } else {
            (Ok(()), fused_run(st, docs, community, c as nat))
        }
    }
}

/// One fused step on the current state; InvalidAccountData, with nothing
/// changed, when the scheduled record is not a trainable name.
fn fused_step_exec(
    h: &mut ModelHeader,
    w: &mut Weights,
    mom: &mut Moments,
    s: &mut Scratch,
    docs: &DocSet,
    community: &DocSet,
) -> (r: Result<(), ProgramError>)
    requires
        state_ok(train_state(old(h), old(w), old(mom), old(s))),
        old(h).phase == PHASE_PICK,
        counters_ok(old(h)@, 1),
        docs.header.count > 0,
        stores_ok(docs, community),
    ensures
        record_valid(rec_at(old(h).step, docs, community)) ==> {
            &&& r is Ok
            &&& train_state(final(h), final(w), final(mom), final(s))
                == fused_step(train_state(old(h), old(w), old(mom), old(s)), docs, community)
            &&& final(h).step == old(h).step + 1
            &&& final(h).ring_pos == old(h).ring_pos + 1
        },
        !record_valid(rec_at(old(h).step, docs, community)) ==> {
            &&& r == Err::<(), ProgramError>(ProgramError::InvalidAccountData)
            &&& train_state(final(h), final(w), final(mom), final(s)) == train_state(old(h), old(w), old(mom), old(s))
        },
        state_ok(train_state(final(h), final(w), final(mom), final(s))),
        final(h).phase == PHASE_PICK,
{
    let ghost cur = train_state(h, w, mom, s);
    let tokens = match select_doc(h.step, docs, community) {
        Ok(t) => t,
        Err(e) => {
            return Err(e);
        },
    };
    let step = h.step;
    let mut p1 = h.pow_beta1;
    let mut p2 = h.pow_beta2;
    proof {
        lemma_next_pow_range(p1, BETA1);
        lemma_next_pow_range(p2, BETA2);
    }
    let loss = train_doc(w, mom, s, tokens.as_slice(), step, &mut p1, &mut p2);
    h.pow_beta1 = p1;
    h.pow_beta2 = p2;
    land_step(h, loss);
    assert(train_state(h, w, mom, s) =~= fused_step(cur, docs, community));
    Ok(())
}

/// Fused steps advance the counters one by one and keep the header's
/// identity, readiness and phase.
proof fn lemma_fused_run_header(st: TrainState, docs: &DocSet, community: &DocSet, k: nat)
    requires
        counters_ok(st.h, k as int),
    ensures
        fused_run(st, docs, community, k).h.step == st.h.step + k,
        fused_run(st, docs, community, k).h.ring_pos == st.h.ring_pos + k,
        fused_run(st, docs, community, k).h.magic == st.h.magic,
        fused_run(st, docs, community, k).h.version == st.h.version,
        fused_run(st, docs, community, k).h.flags == st.h.flags,
        fused_run(st, docs, community, k).h.phase == st.h.phase,
    decreases k,
{
    if k > 0 {
        lemma_fused_run_header(st, docs, community, (k - 1) as nat);
    }
}

/// `a` fused steps and then `b` more are `a + b` fused steps.
proof fn lemma_fused_run_add(st: TrainState, docs: &DocSet, community: &DocSet, a: nat, b: nat)
    ensures
        fused_run(fused_run(st, docs, community, a), docs, community, b) == fused_run(st, docs, community, a + b),
    decreases b,
{
    if b > 0 {
        lemma_fused_run_add(st, docs, community, a, (b - 1) as nat);
        assert((a + b - 1) as nat == a + (b - 1) as nat);
    }
}

/// `first_bad` lies in [j, c], and every step before it has a trainable
/// record.
proof fn lemma_first_bad_range(step: u64, docs: &DocSet, community: &DocSet, j: int, c: int)
    requires
        j <= c,
    ensures
        j <= first_bad(step, docs, community, j, c) <= c,
        forall|i: int|
            j <= i < first_bad(step, docs, community, j, c) ==> #[trigger] record_valid(rec_at((step + i) as u64, docs, community)),
    decreases c - j,
{
    if j < c && record_valid(rec_at((step + j) as u64, docs, community)) {
        lemma_first_bad_range(step, docs, community, j + 1, c);
    }
}

/// A longer schedule fails where its prefix fails, or after the prefix.
proof fn lemma_first_bad_prefix(step: u64, docs: &DocSet, community: &DocSet, j: int, c1: int, c: int)
    requires
        j <= c1 <= c,
    ensures
        first_bad(step, docs, community, j, c1) < c1 ==> first_bad(step, docs, community, j, c) == first_bad(step, docs, community, j, c1),
        first_bad(step, docs, community, j, c1) >= c1 ==> first_bad(step, docs, community, j, c) == first_bad(step, docs, community, c1, c),
    decreases c1 - j,
{
    if j < c1 && record_valid(rec_at((step + j) as u64, docs, community)) {
        lemma_first_bad_prefix(step, docs, community, j + 1, c1, c);
    }
}

/// The schedule from `step` after `c1` steps is the schedule from
/// `step + c1`.
proof fn lemma_first_bad_shift(step: u64, docs: &DocSet, community: &DocSet, c1: int, i: int, c2: int)
    requires
        0 <= c1,
        0 <= i <= c2,
        step + c1 + c2 <= u64::MAX,
    ensures
        first_bad(step, docs, community, c1 + i, c1 + c2) == c1 + first_bad((step + c1) as u64, docs, community, i, c2),
    decreases c2 - i,
{
    assert((step + (c1 + i)) as u64 == (((step + c1) as u64) + i) as u64);
    if i < c2 && record_valid(rec_at((step + (c1 + i)) as u64, docs, community)) {
        lemma_first_bad_shift(step, docs, community, c1, i + 1, c2);
        assert(c1 + i + 1 == c1 + (i + 1));
    }
}

/// Batching law: one `TrainStep` of `c1 + c2` steps ends exactly where a
/// `TrainStep` of `c1` steps followed by one of `c2` steps ends, result and
/// state, and where the first one fails, the whole fails the same way.
pub proof fn lemma_train_step_batches(c1: u8, c2: u8, st: TrainState, docs: &DocSet, community: &DocSet)
    requires
        1 <= c1,
        1 <= c2,
        c1 + c2 <= 16,
        counters_ok(st.h, c1 + c2),
    ensures
        ({
            let whole = train_step_spec(seq![(c1 + c2) as u8], st, docs, community);
            let first = train_step_spec(seq![c1], st, docs, community);
            if first.0 is Ok {
                whole == train_step_spec(seq![c2], first.1, docs, community)
            } else {
                whole == first
            }
        }),
{
    let c = (c1 + c2) as u8;
    assert(clamp_count(c1) == c1);
    assert(clamp_count(c2) == c2);
    assert(clamp_count(c) == c);
    assert(seq![c1][0] == c1);
    assert(seq![c2][0] == c2);
    assert(seq![c][0] == c);
    let step = st.h.step;
    let whole = train_step_spec(seq![c], st, docs, community);
    let first = train_step_spec(seq![c1], st, docs, community);
    let checks = model_ok(st.h) && weights_ready(st.h) && st.h.phase == PHASE_PICK && docs_cover(docs)
        && docs_cover(community) && docs.header.count != 0;
    if checks {
        let mid = fused_run(st, docs, community, c1 as nat);
        lemma_fused_run_header(st, docs, community, c1 as nat);
        lemma_first_bad_range(step, docs, community, 0, c1 as int);
        lemma_first_bad_prefix(step, docs, community, 0, c1 as int, c as int);
        let j1 = first_bad(step, docs, community, 0, c1 as int);
        if j1 < c1 {
            assert(first_bad(step, docs, community, 0, c as int) == j1);
            assert(whole == first);
        } else {
            assert(first == (Ok::<(), ProgramError>(()), mid));
            lemma_first_bad_shift(step, docs, community, c1 as int, 0, c2 as int);
            assert(mid.h.step == (step + c1) as u64);
            let j2 = first_bad(mid.h.step, docs, community, 0, c2 as int);
            lemma_first_bad_range(mid.h.step, docs, community, 0, c2 as int);
            assert(first_bad(step, docs, community, 0, c as int) == c1 + j2);
            lemma_fused_run_add(st, docs, community, c1 as nat, j2 as nat);
            assert((c1 + j2) as nat == c1 as nat + j2 as nat);
            let second = train_step_spec(seq![c2], mid, docs, community);
            if j2 < c2 {
                assert(second == (Err::<(), ProgramError>(ProgramError::InvalidAccountData), fused_run(mid, docs, community, j2 as nat)));
                assert(whole == second);
            } else {
                lemma_fused_run_add(st, docs, community, c1 as nat, c2 as nat);
                assert(c as nat == c1 as nat + c2 as nat);
                assert(whole == second);
            }
        }
    }
}

/// The permissionless heartbeat: run 1..=16 fused training steps (forward,
/// backward, Adam) on the next documents of the deterministic schedule.
/// Fails without changing anything when the header is not a ready model at
/// rest or a store is malformed or empty. A scheduled record that is not a
/// trainable name fails the call with InvalidAccountData after the steps
/// before it have run (the runtime discards a failed transaction's writes).
pub fn process_train_step(
    data: &[u8],
    h: &mut ModelHeader,
    w: &mut Weights,
    mom: &mut Moments,
    s: &mut Scratch,
    docs: &DocSet,
    community: &DocSet,
) -> (r: Result<(), ProgramError>)
    requires
        state_ok(train_state(old(h), old(w), old(mom), old(s))),
        data@.len() >= 1 ==> counters_ok(old(h)@, clamp_count(data@[0]) as int),
        docs_count_ok(docs),
        docs_count_ok(community),
    ensures
        r == train_step_spec(data@, train_state(old(h), old(w), old(mom), old(s)), docs, community).0,
        train_state(final(h), final(w), final(mom), final(s))
            == train_step_spec(data@, train_state(old(h), old(w), old(mom), old(s)), docs, community).1,
        state_ok(train_state(final(h), final(w), final(mom), final(s))),
{
    let ghost st0 = train_state(h, w, mom, s);
    if data.len() < 1 {
        return Err(ProgramError::InvalidInstructionData);
    }
    let count: u8 = if data[0] < 1 { 1 } else if data[0] > 16 { 16 } else { data[0] };
    check_at_rest(h)?;
    check_docs(docs)?;
    check_docs(community)?;
    if docs.header.count == 0 {
        return Err(ProgramError::UninitializedAccount);
    }
    let ghost c = count as int;
    let mut j: u8 = 0;
    while j < count
        invariant
            j <= count <= 16,
            c == count as int,
            data@.len() >= 1,
            st0 == train_state(old(h), old(w), old(mom), old(s)),
            c == clamp_count(data@[0]) as int,
            model_ok(st0.h),
            weights_ready(st0.h),
            st0.h.phase == PHASE_PICK,
            docs_cover(docs),
            docs_cover(community),
            stores_ok(docs, community),
            docs.header.count > 0,
            st0.h.step + count <= u64::MAX,
            st0.h.ring_pos + count <= u64::MAX,
            state_ok(train_state(h, w, mom, s)),
            h.phase == PHASE_PICK,
            h.step == st0.h.step + j,
            h.ring_pos == st0.h.ring_pos + j,
            train_state(h, w, mom, s) == fused_run(st0, docs, community, j as nat),
            first_bad(st0.h.step, docs, community, 0, c) == first_bad(st0.h.step, docs, community, j as int, c),
        decreases count - j,
    {
        assert((st0.h.step + j) as u64 == h.step);
        let ghost at = h.step;
        let r = fused_step_exec(h, w, mom, s, docs, community);
        if r.is_err() {
            proof {
                assert(!record_valid(rec_at(at, docs, community)));
                assert(first_bad(st0.h.step, docs, community, j as int, c) == j as int);
                assert(r == Err::<(), ProgramError>(ProgramError::InvalidAccountData));
                assert(train_state(h, w, mom, s) == fused_run(st0, docs, community, j as nat));
                assert(train_step_spec(data@, st0, docs, community) == (
                    Err::<(), ProgramError>(ProgramError::InvalidAccountData),
                    fused_run(st0, docs, community, j as nat),
                ));
            }
            return r;
        }
        proof {
            assert(record_valid(rec_at(at, docs, community)));
            assert(first_bad(st0.h.step, docs, community, j as int, c) == first_bad(st0.h.step, docs, community, j + 1, c));
        }
        j = j + 1;
    }
    Ok(())
}

// -- Split training: the micro-transaction state machine --------------------

/// Positions of an in-flight document of `tokens_len` tokens:
/// min(BLOCK, tokens_len - 1), none for an empty one.
pub open spec fn micro_positions(tokens_len: u8) -> int {
    if tokens_len < 1 {
        0
    } else if BLOCK < tokens_len - 1 {
        BLOCK as int
    } else {
        tokens_len - 1
    }
}

/// The header's 18-byte document image of a record: BOS, the letters, then
/// BOS to the end.
pub open spec fn doc_image(rec: Seq<u8>) -> Seq<u8> {
    Seq::new((BLOCK + 2) as nat, |i: int| if 1 <= i <= rec[0] { rec[i] } else { BOS })
}

/// PICK: load the scheduled document into the header, zero the gradients,
/// start the forward pass.
pub open spec fn pick_state(st: TrainState, rec: Seq<u8>) -> TrainState {
    TrainState {
        h: HeaderV {
            doc: doc_image(rec),
            doc_tokens_len: (rec[0] + 2) as u8,
            pending_loss: 0,
            phase: PHASE_FORWARD,
            phase_cursor: 0,
            ..st.h
        },
        s: zero_grads_spec(st.s),
        ..st
    }
}

/// FORWARD: one position; the last one turns the negated loss sum into the
/// mean loss and starts the backward pass from the top.
pub open spec fn forward_state(st: TrainState) -> TrainState {
    let n = micro_positions(st.h.doc_tokens_len);
    let t = st.h.phase_cursor as int;
    let fl = fwd_loss_spec(st.s, st.w, t, st.h.doc[t] as int, st.h.doc[t + 1] as int);
    let pl = wsub(st.h.pending_loss, fl.1);
    TrainState {
        h: if t + 1 == n {
            HeaderV {
                pending_loss: tdiv(pl as int, n) as i64,
                phase: PHASE_BACKWARD,
                phase_cursor: (n - 1) as u8,
                ..st.h
            }
        } else {
            HeaderV { pending_loss: pl, phase_cursor: (t + 1) as u8, ..st.h }
        },
        s: fl.0,
        ..st
    }
}

/// BACKWARD: one position, top down; the last one advances the
/// bias-correction powers once and starts the Adam chunks.
pub open spec fn backward_state(st: TrainState) -> TrainState {
    let n = micro_positions(st.h.doc_tokens_len);
    let t = st.h.phase_cursor as int;
    TrainState {
        h: if t == 0 {
            HeaderV {
                pow_beta1: next_pow(st.h.pow_beta1, BETA1),
                pow_beta2: next_pow(st.h.pow_beta2, BETA2),
                phase: PHASE_ADAM,
                phase_cursor: 0,
                ..st.h
            }
        } else {
            HeaderV { phase_cursor: (t - 1) as u8, ..st.h }
        },
        s: backward_position_spec(st.s, st.w, t, st.h.doc[t] as int, st.h.doc[t + 1] as int, n),
        ..st
    }
}

/// End of the Adam chunk `chunk`.
pub open spec fn chunk_end(chunk: int) -> int {
    if N_PARAMS < chunk * ADAM_CHUNK + ADAM_CHUNK { N_PARAMS as int } else { chunk * ADAM_CHUNK + ADAM_CHUNK }
}

/// Adam parameters of the in-flight step (powers already advanced).
pub open spec fn header_params(h: HeaderV) -> AdamParams {
    AdamParams { lr_t: lr_spec(h.step), pow_beta1: h.pow_beta1, pow_beta2: h.pow_beta2 }
}

/// ADAM: one chunk of parameters; the last chunk lands the step.
pub open spec fn adam_state(st: TrainState) -> TrainState {
    let c = st.h.phase_cursor as int;
    let start = c * ADAM_CHUNK;
    let end = chunk_end(c);
    let p = header_params(st.h);
    TrainState {
        h: if end == N_PARAMS {
            HeaderV { phase: PHASE_PICK, phase_cursor: 0, ..land_spec(st.h, st.h.pending_loss) }
        } else {
            HeaderV { phase_cursor: (c + 1) as u8, ..st.h }
        },
        w: adam_w_range(st.w, st.m, st.v, st.s.grads, start, end, p),
        m: adam_m_range(st.m, st.s.grads, start, end),
        v: adam_v_range(st.v, st.s.grads, start, end),
        ..st
    }
}

/// Outcome of one `TrainMicro` transaction on state `st`.
pub open spec fn micro_spec(st: TrainState, docs: &DocSet, community: &DocSet) -> Result<TrainState, ProgramError> {
    let h = st.h;
    let n = micro_positions(h.doc_tokens_len);
    let t = h.phase_cursor as int;
    if !model_ok(h) {
        Err(ProgramError::InvalidAccountData)
    } else if !weights_ready(h) {
        Err(ProgramError::UninitializedAccount)
    } else if h.phase == PHASE_PICK {
        if !docs_cover(docs) || !docs_cover(community) {
            Err(ProgramError::InvalidAccountData)
        } else if docs.header.count == 0 {
            Err(ProgramError::UninitializedAccount)
        } else if !record_valid(rec_at(h.step, docs, community)) {
            Err(ProgramError::InvalidAccountData)
        } else {
            Ok(pick_state(st, rec_at(h.step, docs, community)))
        }
    } else if h.phase == PHASE_FORWARD {
        if n == 0 || t >= n {
            Err(ProgramError::InvalidAccountData)
        } else {
            Ok(forward_state(st))
        }
    } else if h.phase == PHASE_BACKWARD {
        if n == 0 || t >= n {
            Err(ProgramError::InvalidAccountData)
        } else {
            Ok(backward_state(st))
        }
    } else if h.phase == PHASE_ADAM {
        if t * ADAM_CHUNK >= N_PARAMS {
            Err(ProgramError::InvalidAccountData)
        } else {
            Ok(adam_state(st))
        }
    } else {
        Err(ProgramError::InvalidAccountData)
    }
}

/// Positions of the in-flight document.
fn positions(tokens_len: u8) -> (n: usize)
    ensures
        n == micro_positions(tokens_len),
        n <= BLOCK,
{
    if tokens_len < 1 {
        0
    } else if BLOCK < (tokens_len - 1) as usize {
        BLOCK
    } else {
        (tokens_len - 1) as usize
    }
}

/// The PICK transaction.
fn micro_pick(h: &mut ModelHeader, w: &Weights, mom: &Moments, s: &mut Scratch, docs: &DocSet, community: &DocSet) -> (r: Result<(), ProgramError>)
    requires
        state_ok(train_state(old(h), w, mom, old(s))),
        model_ok(old(h)@),
        weights_ready(old(h)@),
        old(h).phase == PHASE_PICK,
        docs_count_ok(docs),
        docs_count_ok(community),
    ensures
        match micro_spec(train_state(old(h), w, mom, old(s)), docs, community) {
            Ok(st) => r is Ok && train_state(final(h), w, mom, final(s)) == st,
            Err(e) => r == Err::<(), ProgramError>(e) && final(h)@ == old(h)@ && final(s)@ == old(s)@,
        },
        r is Ok ==> state_ok(train_state(final(h), w, mom, final(s))),
{
    let ghost st = train_state(h, w, mom, s);
    check_docs(docs)?;
    check_docs(community)?;
    if docs.header.count == 0 {
        return Err(ProgramError::UninitializedAccount);
    }
    let tokens = select_doc(h.step, docs, community)?;
    let ghost rec = rec_at(h.step, docs, community);
    let mut doc: [u8; 18] = [26u8; 18];
    assert(tokens@.len() == rec[0] + 2 <= 17);
    let mut i: usize = 0;
    while i < tokens.len()
        invariant
            i <= tokens@.len() <= 17,
            tokens@ == record_tokens(rec),
            record_valid(rec),
            forall|j: int| 0 <= j < i ==> doc@[j] == tokens@[j],
            forall|j: int| i <= j < 18 ==> doc@[j] == BOS,
        decreases tokens.len() - i,
    {
        doc[i] = tokens[i];
        i = i + 1;
    }
    proof {
        assert forall|j: int| 0 <= j < 18 implies doc@[j] == #[trigger] doc_image(rec)[j] by {
            if j <= rec[0] + 1 {
                assert(doc@[j] == tokens@[j]);
            }
        }
        assert(doc@ =~= doc_image(rec));
    }
    h.doc = doc;
    h.doc_tokens_len = (tokens.len()) as u8;
    h.pending_loss = 0;
    zero_grads(s);
    h.phase = PHASE_FORWARD;
    h.phase_cursor = 0;
    assert(train_state(h, w, mom, s) =~= pick_state(st, rec));
    Ok(())
}

/// The FORWARD transaction.
fn micro_forward(h: &mut ModelHeader, w: &Weights, mom: &Moments, s: &mut Scratch, docs: &DocSet, community: &DocSet) -> (r: Result<(), ProgramError>)
    requires
        state_ok(train_state(old(h), w, mom, old(s))),
        model_ok(old(h)@),
        weights_ready(old(h)@),
        old(h).phase == PHASE_FORWARD,
    ensures
        match micro_spec(train_state(old(h), w, mom, old(s)), docs, community) {
            Ok(st) => r is Ok && train_state(final(h), w, mom, final(s)) == st,
            Err(e) => r == Err::<(), ProgramError>(e) && final(h)@ == old(h)@ && final(s)@ == old(s)@,
        },
        r is Ok ==> state_ok(train_state(final(h), w, mom, final(s))),
{
    let ghost st = train_state(h, w, mom, s);
    let n = positions(h.doc_tokens_len);
    let t = h.phase_cursor as usize;
    if n == 0 || t >= n {
        return Err(ProgramError::InvalidAccountData);
    }
    let l = forward_pos_loss(w, s, t, h.doc[t], h.doc[t + 1]);
    let pl = h.pending_loss.wrapping_sub(l);
    if t + 1 == n {
        h.pending_loss = div_trunc(pl, n as i64);
        h.phase = PHASE_BACKWARD;
        h.phase_cursor = (n - 1) as u8;
    } else {
        h.pending_loss = pl;
        h.phase_cursor = (t + 1) as u8;
    }
    assert(train_state(h, w, mom, s) =~= forward_state(st));
    Ok(())
}

/// The BACKWARD transaction.
fn micro_backward(h: &mut ModelHeader, w: &Weights, mom: &Moments, s: &mut Scratch, docs: &DocSet, community: &DocSet) -> (r: Result<(), ProgramError>)
    requires
        state_ok(train_state(old(h), w, mom, old(s))),
        model_ok(old(h)@),
        weights_ready(old(h)@),
        old(h).phase == PHASE_BACKWARD,
    ensures
        match micro_spec(train_state(old(h), w, mom, old(s)), docs, community) {
            Ok(st) => r is Ok && train_state(final(h), w, mom, final(s)) == st,
            Err(e) => r == Err::<(), ProgramError>(e) && final(h)@ == old(h)@ && final(s)@ == old(s)@,
        },
        r is Ok ==> state_ok(train_state(final(h), w, mom, final(s))),
{
    let ghost st = train_state(h, w, mom, s);
    let n = positions(h.doc_tokens_len);
    let t = h.phase_cursor as usize;
    if n == 0 || t >= n {
        return Err(ProgramError::InvalidAccountData);
    }
    backward_position(w, s, t, h.doc[t], h.doc[t + 1], n);
    if t == 0 {
        proof {
            lemma_next_pow_range(h.pow_beta1, BETA1);
            lemma_next_pow_range(h.pow_beta2, BETA2);
        }
        h.pow_beta1 = fmul(h.pow_beta1, BETA1);
        h.pow_beta2 = fmul(h.pow_beta2, BETA2);
        h.phase = PHASE_ADAM;
        h.phase_cursor = 0;
    } else {
        h.phase_cursor = (t - 1) as u8;
    }
    assert(train_state(h, w, mom, s) =~= backward_state(st));
    Ok(())
}

/// The ADAM transaction.
fn micro_adam(h: &mut ModelHeader, w: &mut Weights, mom: &mut Moments, s: &Scratch, docs: &DocSet, community: &DocSet) -> (r: Result<(), ProgramError>)
    requires
        state_ok(train_state(old(h), old(w), old(mom), s)),
        model_ok(old(h)@),
        weights_ready(old(h)@),
        old(h).phase == PHASE_ADAM,
        counters_ok(old(h)@, 1),
    ensures
        match micro_spec(train_state(old(h), old(w), old(mom), s), docs, community) {
            Ok(st) => r is Ok && train_state(final(h), final(w), final(mom), s) == st,
            Err(e) => r == Err::<(), ProgramError>(e) && final(h)@ == old(h)@ && final(w).params@ == old(w).params@
                && final(mom).m@ == old(mom).m@ && final(mom).v@ == old(mom).v@,
        },
        r is Ok ==> state_ok(train_state(final(h), final(w), final(mom), s)),
{
    let ghost st = train_state(h, w, mom, s);
    let chunk = h.phase_cursor as usize;
    let start = chunk * ADAM_CHUNK;
    if start >= N_PARAMS {
        return Err(ProgramError::InvalidAccountData);
    }
    let end = if N_PARAMS < start + ADAM_CHUNK { N_PARAMS } else { start + ADAM_CHUNK };
    let p = AdamParams { lr_t: lr_at_step(h.step), pow_beta1: h.pow_beta1, pow_beta2: h.pow_beta2 };
    adam_range(w, mom, s.grads.params.as_slice(), start, end, p);
    if end == N_PARAMS {
        let loss = h.pending_loss;
        land_step(h, loss);
        h.phase = PHASE_PICK;
        h.phase_cursor = 0;
    } else {
        h.phase_cursor = (chunk + 1) as u8;
    }
    assert(train_state(h, w, mom, s) =~= adam_state(st));
    Ok(())
}

/// One micro-op of the split training path, driven by the phase state
/// machine in the model header: pick the scheduled document, forward one
/// position, backward one position (top down), or update one chunk of
/// parameters with Adam; the last chunk lands the step. Fails without
/// changing anything on a header that is not a ready model, on malformed
/// stores or records (PICK), or on an out-of-range cursor or phase.
pub fn process_train_micro(
    h: &mut ModelHeader,
    w: &mut Weights,
    mom: &mut Moments,
    s: &mut Scratch,
    docs: &DocSet,
    community: &DocSet,
) -> (r: Result<(), ProgramError>)
    requires
        state_ok(train_state(old(h), old(w), old(mom), old(s))),
        counters_ok(old(h)@, 1),
        docs_count_ok(docs),
        docs_count_ok(community),
    ensures
        match micro_spec(train_state(old(h), old(w), old(mom), old(s)), docs, community) {
            Ok(st) => r is Ok && train_state(final(h), final(w), final(mom), final(s)) == st,
            Err(e) => r == Err::<(), ProgramError>(e) && train_state(final(h), final(w), final(mom), final(s))
                == train_state(old(h), old(w), old(mom), old(s)),
        },
        r is Ok ==> state_ok(train_state(final(h), final(w), final(mom), final(s))),
{
    check_ready(h)?;
    if h.phase == PHASE_PICK {
        micro_pick(h, w, mom, s, docs, community)
    } else if h.phase == PHASE_FORWARD {
        micro_forward(h, w, mom, s, docs, community)
    } else if h.phase == PHASE_BACKWARD {
        micro_backward(h, w, mom, s, docs, community)
    } else if h.phase == PHASE_ADAM {
        micro_adam(h, w, mom, s, docs, community)
    } else {
        Err(ProgramError::InvalidAccountData)
    }
}

} // verus!
