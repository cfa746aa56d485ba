//! The split training path computes exactly the fused step: a PICK
//! transaction, one FORWARD per position, one BACKWARD per position and the
//! Adam chunks leave the parameters, moments, workspace and loss statistics
//! where one `TrainStep` would.

use vstd::prelude::*;
use crate::fixed::Fx;
use crate::model::{ScratchV, BLOCK, BOS, N_PARAMS};
use crate::backprop::{
    fwd_run, bwd_run, begin_doc_spec, train_fwd_bwd_spec, n_positions, backward_position_spec,
};
use crate::adam::{adam_w_range, adam_m_range, adam_v_range, lemma_adam_chunks};
use crate::state::{HeaderV, PHASE_PICK, PHASE_FORWARD, PHASE_BACKWARD, PHASE_ADAM, ADAM_CHUNK, DOC_RECORD_LEN};
use crate::program::{
    TrainState, DocSet, ProgramError, micro_spec, pick_state, forward_state, backward_state,
    adam_state, fused_step, rec_at, record_valid, record_tokens, doc_image, model_ok,
    weights_ready, stores_ok, step_params, header_params, land_spec, doc_index, community_turn,
};

verus! {

/// The state after `k` micro transactions, or the first error.
pub open spec fn micro_run(st: TrainState, docs: &DocSet, community: &DocSet, k: nat) -> Result<TrainState, ProgramError>
    decreases k,
{
    if k == 0 {
        Ok(st)
    } else {
        match micro_run(st, docs, community, (k - 1) as nat) {
            Ok(x) => micro_spec(x, docs, community),
            Err(e) => Err(e),
        }
    }
}

/// Running `a + b` transactions is running `a`, then `b` from there.
pub proof fn lemma_micro_run_split(st: TrainState, docs: &DocSet, community: &DocSet, a: nat, b: nat)
    ensures
        micro_run(st, docs, community, a + b) == match micro_run(st, docs, community, a) {
            Ok(x) => micro_run(x, docs, community, b),
            Err(e) => Err(e),
        },
    decreases b,
{
    if b > 0 {
        lemma_micro_run_split(st, docs, community, a, (b - 1) as nat);
        assert((a + b - 1) as nat == a + (b - 1) as nat);
    }
}

/// A scheduled record is a full 16-byte slot of its store.
proof fn lemma_rec_len(step: u64, docs: &DocSet, community: &DocSet)
    requires
        stores_ok(docs, community),
        docs.header.count > 0,
    ensures
        rec_at(step, docs, community).len() == DOC_RECORD_LEN,
{
    let i = doc_index(step, docs.header.count, community.header.count) as int;
    let store = if community_turn(step, community.header.count) { community } else { docs };
    assert(0 <= i < store.header.count);
    assert(i * 16 + 16 <= store.header.capacity * 16) by (nonlinear_arith)
        requires
            0 <= i < store.header.count,
            store.header.count <= store.header.capacity,
    ;
}

/// The header's document image agrees with the record's token sequence.
proof fn lemma_doc_image(rec: Seq<u8>)
    requires
        rec.len() == DOC_RECORD_LEN,
        record_valid(rec),
    ensures
        record_tokens(rec).len() == rec[0] + 2,
        forall|i: int| 0 <= i <= rec[0] + 1 ==> #[trigger] doc_image(rec)[i] == record_tokens(rec)[i],
        n_positions(record_tokens(rec).len() as int) == rec[0] + 1,
{
}

/// State after the first `k` FORWARD transactions.
pub open spec fn fwd_state_at(p: TrainState, s0: ScratchV, toks: Seq<u8>, k: int) -> TrainState {
    let fr = fwd_run(s0, p.w, toks, k);
    TrainState { h: HeaderV { pending_loss: fr.1, phase_cursor: k as u8, ..p.h }, s: fr.0, ..p }
}

/// Conditions for the split path to run the step scheduled at `st`.
pub open spec fn split_ready(st: TrainState, docs: &DocSet, community: &DocSet) -> bool {
    &&& model_ok(st.h)
    &&& weights_ready(st.h)
    &&& st.h.phase == PHASE_PICK
    &&& stores_ok(docs, community)
    &&& docs.header.count > 0
    &&& record_valid(rec_at(st.h.step, docs, community))
}

/// Forward phase of the split path: after the PICK transaction, the first
/// `k` FORWARD transactions (k < n) succeed, each running position k - 1
/// with cursor k and accumulating the negated loss sum, with parameters and
/// moments untouched.
pub proof fn lemma_forward_phase(st: TrainState, docs: &DocSet, community: &DocSet, k: nat)
    requires
        split_ready(st, docs, community),
        k < rec_at(st.h.step, docs, community)[0] + 1,
    ensures
        ({
            let rec = rec_at(st.h.step, docs, community);
            micro_run(pick_state(st, rec), docs, community, k)
                == Ok::<TrainState, ProgramError>(fwd_state_at(pick_state(st, rec), st.s, record_tokens(rec), k as int))
        }),
    decreases k,
{
    let rec = rec_at(st.h.step, docs, community);
    let toks = record_tokens(rec);
    let p = pick_state(st, rec);
    lemma_rec_len(st.h.step, docs, community);
    lemma_doc_image(rec);
    if k == 0 {
        assert(fwd_state_at(p, st.s, toks, 0) =~= p);
    } else {
        lemma_forward_phase(st, docs, community, (k - 1) as nat);
        let prev = fwd_state_at(p, st.s, toks, k - 1);
        let kk = k - 1;
        assert(prev.h.doc[kk] == toks[kk]);
        assert(prev.h.doc[kk + 1] == toks[kk + 1]);
        assert(micro_spec(prev, docs, community) == Ok::<TrainState, ProgramError>(forward_state(prev)));
        assert(forward_state(prev) =~= fwd_state_at(p, st.s, toks, k as int));
    }
}

/// The workspace after the BACKWARD transactions for the top `j`
/// positions of an `n`-position document.
pub open spec fn bwd_top(sv: ScratchV, w: Seq<Fx>, toks: Seq<u8>, n: int, j: int) -> ScratchV
    decreases j,
{
    if j <= 0 {
        sv
    } else {
        backward_position_spec(bwd_top(sv, w, toks, n, j - 1), w, n - j, toks[n - j] as int, toks[n - j + 1] as int, n)
    }
}

/// Backward from the top, `j` positions at a time, reaches the same
/// workspace as the descending backward run.
proof fn lemma_bwd_top(sv: ScratchV, w: Seq<Fx>, toks: Seq<u8>, n: int, j: int)
    requires
        0 <= j <= n,
    ensures
        bwd_run(bwd_top(sv, w, toks, n, j), w, toks, n - j, n) == bwd_run(sv, w, toks, n, n),
    decreases j,
{
    if j > 0 {
        lemma_bwd_top(sv, w, toks, n, j - 1);
    }
}

/// State after the first `j` BACKWARD transactions.
pub open spec fn bwd_state_at(b: TrainState, toks: Seq<u8>, n: int, j: int) -> TrainState {
    TrainState { h: HeaderV { phase_cursor: (n - 1 - j) as u8, ..b.h }, s: bwd_top(b.s, b.w, toks, n, j), ..b }
}

/// The state that starts the backward pass.
pub open spec fn backward_start(st: TrainState, docs: &DocSet, community: &DocSet) -> TrainState {
    let rec = rec_at(st.h.step, docs, community);
    let n = rec[0] + 1;
    forward_state(fwd_state_at(pick_state(st, rec), st.s, record_tokens(rec), n - 1))
}

/// PICK then n FORWARD transactions succeed and start the backward pass:
/// the workspace and mean loss of the whole forward pass, cursor at the top
/// position, parameters and moments untouched.
pub proof fn lemma_backward_start(st: TrainState, docs: &DocSet, community: &DocSet)
    requires
        split_ready(st, docs, community),
    ensures
        ({
            let rec = rec_at(st.h.step, docs, community);
            let toks = record_tokens(rec);
            let n = rec[0] + 1;
            let b = backward_start(st, docs, community);
            let bd = begin_doc_spec(st.s, st.w, toks);
            &&& micro_run(st, docs, community, (n + 1) as nat) == Ok::<TrainState, ProgramError>(b)
            &&& b == (TrainState {
                h: HeaderV {
                    doc: doc_image(rec),
                    doc_tokens_len: (rec[0] + 2) as u8,
                    pending_loss: bd.1,
                    phase: PHASE_BACKWARD,
                    phase_cursor: (n - 1) as u8,
                    ..st.h
                },
                s: bd.0,
                ..st
            })
        }),
{
    let rec = rec_at(st.h.step, docs, community);
    let toks = record_tokens(rec);
    let n = rec[0] + 1;
    let p = pick_state(st, rec);
    lemma_rec_len(st.h.step, docs, community);
    lemma_doc_image(rec);
    assert(micro_run(st, docs, community, 0) == Ok::<TrainState, ProgramError>(st));
    assert(micro_spec(st, docs, community) == Ok::<TrainState, ProgramError>(p));
    assert(micro_run(st, docs, community, 1) == Ok::<TrainState, ProgramError>(p));
    lemma_forward_phase(st, docs, community, (n - 1) as nat);
    let f = fwd_state_at(p, st.s, toks, n - 1);
    assert(f.h.doc[n - 1] == toks[n - 1]);
    assert(f.h.doc[n] == toks[n]);
    assert(micro_spec(f, docs, community) == Ok::<TrainState, ProgramError>(forward_state(f)));
    lemma_micro_run_split(p, docs, community, (n - 1) as nat, 1);
    assert(micro_run(p, docs, community, n as nat) == Ok::<TrainState, ProgramError>(forward_state(f)));
    lemma_micro_run_split(st, docs, community, 1, n as nat);
    assert((1 + n) as nat == (n + 1) as nat);
    let b = backward_start(st, docs, community);
    let bd = begin_doc_spec(st.s, st.w, toks);
    assert(b =~= (TrainState {
        h: HeaderV {
            doc: doc_image(rec),
            doc_tokens_len: (rec[0] + 2) as u8,
            pending_loss: bd.1,
            phase: PHASE_BACKWARD,
            phase_cursor: (n - 1) as u8,
            ..st.h
        },
        s: bd.0,
        ..st
    }));
}

/// Backward phase of the split path: from the start of the backward pass,
/// the first `j` BACKWARD transactions (j < n) succeed, running positions
/// n - 1 down to n - j, with parameters, moments and bias-correction powers
/// untouched.
pub proof fn lemma_backward_phase(st: TrainState, docs: &DocSet, community: &DocSet, j: nat)
    requires
        split_ready(st, docs, community),
        j < rec_at(st.h.step, docs, community)[0] + 1,
    ensures
        ({
            let rec = rec_at(st.h.step, docs, community);
            let b = backward_start(st, docs, community);
            micro_run(b, docs, community, j)
                == Ok::<TrainState, ProgramError>(bwd_state_at(b, record_tokens(rec), rec[0] + 1, j as int))
        }),
    decreases j,
{
    let rec = rec_at(st.h.step, docs, community);
    let toks = record_tokens(rec);
    let n = rec[0] + 1;
    let b = backward_start(st, docs, community);
    lemma_rec_len(st.h.step, docs, community);
    lemma_doc_image(rec);
    lemma_backward_start(st, docs, community);
    if j == 0 {
        assert(bwd_state_at(b, toks, n, 0) =~= b);
    } else {
        lemma_backward_phase(st, docs, community, (j - 1) as nat);
        let prev = bwd_state_at(b, toks, n, j - 1);
        let t = n - j;
        assert(prev.h.doc[t] == toks[t]);
        assert(prev.h.doc[t + 1] == toks[t + 1]);
        assert(micro_spec(prev, docs, community) == Ok::<TrainState, ProgramError>(backward_state(prev)));
        assert(backward_state(prev) =~= bwd_state_at(b, toks, n, j as int));
    }
}

/// The state that starts the Adam chunks.
pub open spec fn adam_start(st: TrainState, docs: &DocSet, community: &DocSet) -> TrainState {
    let rec = rec_at(st.h.step, docs, community);
    let n = rec[0] + 1;
    backward_state(bwd_state_at(backward_start(st, docs, community), record_tokens(rec), n, n - 1))
}

/// PICK, n FORWARD and n BACKWARD transactions (2n + 1 in all) succeed and
/// reach the Adam phase: the workspace and loss of the fused step's forward
/// and backward passes, the bias-correction powers advanced exactly once,
/// chunk cursor 0, parameters and moments untouched.
pub proof fn lemma_adam_start(st: TrainState, docs: &DocSet, community: &DocSet)
    requires
        split_ready(st, docs, community),
    ensures
        ({
            let rec = rec_at(st.h.step, docs, community);
            let toks = record_tokens(rec);
            let n = rec[0] + 1;
            let fb = train_fwd_bwd_spec(st.s, st.w, toks);
            let p = step_params(st.h);
            let a = adam_start(st, docs, community);
            &&& micro_run(st, docs, community, (2 * n + 1) as nat) == Ok::<TrainState, ProgramError>(a)
            &&& a == (TrainState {
                h: HeaderV {
                    doc: doc_image(rec),
                    doc_tokens_len: (rec[0] + 2) as u8,
                    pending_loss: fb.1,
                    pow_beta1: p.pow_beta1,
                    pow_beta2: p.pow_beta2,
                    phase: PHASE_ADAM,
                    phase_cursor: 0,
                    ..st.h
                },
                s: fb.0,
                ..st
            })
        }),
{
    let rec = rec_at(st.h.step, docs, community);
    let toks = record_tokens(rec);
    let n = rec[0] + 1;
    let b = backward_start(st, docs, community);
    lemma_rec_len(st.h.step, docs, community);
    lemma_doc_image(rec);
    lemma_backward_start(st, docs, community);
    lemma_backward_phase(st, docs, community, (n - 1) as nat);
    let last = bwd_state_at(b, toks, n, n - 1);
    assert(last.h.doc[0] == toks[0]);
    assert(last.h.doc[1] == toks[1]);
    assert(micro_spec(last, docs, community) == Ok::<TrainState, ProgramError>(backward_state(last)));
    lemma_micro_run_split(b, docs, community, (n - 1) as nat, 1);
    assert((n - 1 + 1) as nat == n as nat);
    lemma_micro_run_split(st, docs, community, (n + 1) as nat, n as nat);
    assert((n + 1 + n) as nat == (2 * n + 1) as nat);
    let a = adam_start(st, docs, community);
    assert(backward_state(last).s == bwd_top(b.s, b.w, toks, n, n));
    lemma_bwd_top(b.s, b.w, toks, n, n);
    let fb = train_fwd_bwd_spec(st.s, st.w, toks);
    let p = step_params(st.h);
    assert(a =~= (TrainState {
        h: HeaderV {
            doc: doc_image(rec),
            doc_tokens_len: (rec[0] + 2) as u8,
            pending_loss: fb.1,
            pow_beta1: p.pow_beta1,
            pow_beta2: p.pow_beta2,
            phase: PHASE_ADAM,
            phase_cursor: 0,
            ..st.h
        },
        s: fb.0,
        ..st
    }));
}

/// State after the first `c` Adam chunks.
pub open spec fn adam_state_at(a: TrainState, c: int) -> TrainState {
    let p = header_params(a.h);
    let end = c * ADAM_CHUNK;
    TrainState {
        h: HeaderV { phase_cursor: c as u8, ..a.h },
        w: adam_w_range(a.w, a.m, a.v, a.s.grads, 0, end, p),
        m: adam_m_range(a.m, a.s.grads, 0, end),
        v: adam_v_range(a.v, a.s.grads, 0, end),
        ..a
    }
}

/// Adam phase of the split path: from its start, the first `c` chunks
/// (c <= 16) succeed and update parameters [0, 256c) only, step counter
/// unchanged; the 17th chunk lands the step (`lemma_split_matches_fused`).
pub proof fn lemma_adam_phase(st: TrainState, docs: &DocSet, community: &DocSet, c: nat)
    requires
        st.m.len() == st.w.len(),
        st.v.len() == st.w.len(),
        split_ready(st, docs, community),
        c <= 16,
    ensures
        ({
            let a = adam_start(st, docs, community);
            micro_run(a, docs, community, c) == Ok::<TrainState, ProgramError>(adam_state_at(a, c as int))
        }),
    decreases c,
{
    let a = adam_start(st, docs, community);
    lemma_adam_start(st, docs, community);
    if c == 0 {
        assert(adam_state_at(a, 0) =~= a);
    } else {
        lemma_adam_phase(st, docs, community, (c - 1) as nat);
        let prev = adam_state_at(a, c - 1);
        assert(micro_spec(prev, docs, community) == Ok::<TrainState, ProgramError>(adam_state(prev)));
        lemma_adam_chunks(a.w, a.m, a.v, a.s.grads, 0, (c - 1) * 256, (c * 256) as int, header_params(a.h));
        assert(adam_state(prev) =~= adam_state_at(a, c as int));
    }
}

/// Split-training law: from a ready model at rest, the PICK transaction,
/// one FORWARD and one BACKWARD transaction per position of the scheduled
/// document and the 17 Adam chunks (2n + 18 `TrainMicro` transactions for
/// an n-position document) end exactly where one fused step ends: the same
/// parameters, Adam moments, workspace, step counter, bias-correction
/// powers, losses and loss ring. Only the header's in-flight bookkeeping
/// differs: it still holds the document image, its length and the step's
/// loss, and the phase cursor is back at 0.
pub proof fn lemma_split_matches_fused(st: TrainState, docs: &DocSet, community: &DocSet)
    requires
        st.m.len() == st.w.len(),
        st.v.len() == st.w.len(),
        split_ready(st, docs, community),
    ensures
        ({
            let rec = rec_at(st.h.step, docs, community);
            let n = n_positions(record_tokens(rec).len() as int);
            let f = fused_step(st, docs, community);
            micro_run(st, docs, community, (2 * n + 18) as nat) == Ok::<TrainState, ProgramError>(TrainState {
                h: HeaderV {
                    doc: doc_image(rec),
                    doc_tokens_len: (rec[0] + 2) as u8,
                    pending_loss: f.h.last_loss,
                    phase_cursor: 0,
                    ..f.h
                },
                ..f
            })
        }),
{
    let rec = rec_at(st.h.step, docs, community);
    let toks = record_tokens(rec);
    let n = rec[0] + 1;
    lemma_rec_len(st.h.step, docs, community);
    lemma_doc_image(rec);
    lemma_adam_start(st, docs, community);
    lemma_adam_phase(st, docs, community, 16);
    let a = adam_start(st, docs, community);
    let last = adam_state_at(a, 16);
    assert(micro_spec(last, docs, community) == Ok::<TrainState, ProgramError>(adam_state(last)));
    lemma_adam_chunks(a.w, a.m, a.v, a.s.grads, 0, 4096, N_PARAMS as int, header_params(a.h));
    lemma_micro_run_split(a, docs, community, 16, 1);
    lemma_micro_run_split(st, docs, community, (2 * n + 1) as nat, 17);
    assert((2 * n + 1 + 17) as nat == (2 * n + 18) as nat);
    let f = fused_step(st, docs, community);
    assert(adam_state(last) =~= (TrainState {
        h: HeaderV {
            doc: doc_image(rec),
            doc_tokens_len: (rec[0] + 2) as u8,
            pending_loss: f.h.last_loss,
            phase_cursor: 0,
            ..f.h
        },
        ..f
    }));
}

/// Snapshot law: only an Adam chunk changes the parameters and moments, and
/// it runs only in the ADAM phase; so outside that phase (the only phase a
/// checkpoint refuses) the parameters are those a whole step left.
pub proof fn lemma_weights_change_only_in_adam(st: TrainState, docs: &DocSet, community: &DocSet)
    requires
        micro_spec(st, docs, community) is Ok,
        st.h.phase != PHASE_ADAM,
    ensures
        ({
            let n = micro_spec(st, docs, community)->Ok_0;
            &&& n.w == st.w
            &&& n.m == st.m
            &&& n.v == st.v
        }),
{
}

} // verus!
