//! Hand-derived backward pass through the full transformer.
//!
//! No autograd graph: cross-entropy + softmax fuse to `probs - onehot`, and
//! each block's gradients are written directly into the workspace's
//! gradient buffer. The attention KV cache couples positions (k[s], v[s]
//! receive gradient from every later position t >= s), so backward walks
//! positions in descending order accumulating `dk`/`dv`; by the time
//! position t is processed, its own cache gradients are complete.

use vstd::prelude::*;
use crate::fixed::{Fx, ONE, LOSS_SCALE_SHIFT, wadd, wsub, shr, tdiv, fmul16, fmul16_spec, div_trunc, lemma_shr_i64, lemma_shl_i64};
use crate::math::{ln_fx, ln_spec, lemma_ln_range, LN2};
use crate::model::{
    Weights, Scratch, ScratchV, BLOCK, VOCAB, N_EMBD, N_HEAD, HEAD_DIM, MLP_DIM, N_PARAMS,
    WTE, WPE, WQ, WK, WV, WO, W1, W2, LM, rows, is_mat, forward_pos, forward_pos_spec, softmax_inplace,
    softmax_spec, lemma_softmax_range, diffs_fit, int_sum, set_row, row_copy, zeros, lemma_rows_index, outer_acc, outer_spec, linear_t,
    linear_t_spec, rmsnorm_bwd, rmsnorm_bwd_spec, vadd, head_dot, head_dot_exec,
};

verus! {

// -- Forward with loss -------------------------------------------------------

/// Probability floored at the smallest positive Q32.32 value (ln(0) is -inf).
pub open spec fn clamp_prob(p: Fx) -> Fx {
    if p >= 1 { p } else { 1 }
}

/// Forward one position and store the softmax probabilities: the new
/// workspace and ln(p_target).
pub open spec fn fwd_loss_spec(sv: ScratchV, w: Seq<Fx>, t: int, token: int, target: int) -> (ScratchV, Fx) {
    let fp = forward_pos_spec(sv, w, t, token);
    let p = softmax_spec(fp.1, VOCAB as int);
    (ScratchV { probs: fp.0.probs.update(t, p), ..fp.0 }, ln_spec(clamp_prob(p[target])))
}

/// Forward one position and store softmax probs; returns ln(p_target).
pub fn forward_pos_loss(w: &Weights, s: &mut Scratch, t: usize, token: u8, target: u8) -> (r: Fx)
    requires
        old(s)@.wf(),
        w.params@.len() == N_PARAMS,
        t < BLOCK,
        token < VOCAB,
        target < VOCAB,
    ensures
        (final(s)@, r) == fwd_loss_spec(old(s)@, w.params@, t as int, token as int, target as int),
        final(s)@.wf(),
{
    let mut logits = forward_pos(w, s, t, token as usize);
    softmax_inplace(&mut logits, VOCAB);
    let p = logits[target as usize];
    let clamped = if p >= 1 { p } else { 1 }; // clamp: ln(0) is -inf
    set_row(&mut s.probs, t, logits);
    let r = ln_fx(clamped);
    assert(s@ =~= fwd_loss_spec(old(s)@, w.params@, t as int, token as int, target as int).0);
    r
}

/// Zeroed gradient accumulators of `sv`.
pub open spec fn zero_grads_spec(sv: ScratchV) -> ScratchV {
    ScratchV {
        grads: Seq::new(sv.grads.len(), |i: int| 0i64),
        dk: Seq::new(sv.dk.len(), |r: int| Seq::new(N_EMBD as nat, |c: int| 0i64)),
        dv: Seq::new(sv.dv.len(), |r: int| Seq::new(N_EMBD as nat, |c: int| 0i64)),
        ..sv
    }
}

/// Reset the gradient and KV-cache-gradient accumulators for a new step.
pub fn zero_grads(s: &mut Scratch)
    requires
        old(s)@.wf(),
    ensures
        final(s)@ == zero_grads_spec(old(s)@),
        final(s)@.wf(),
{
    s.grads.zero();
    let mut t: usize = 0;
    while t < BLOCK
        invariant
            t <= BLOCK,
            s@.wf(),
            s@ == (ScratchV {
                grads: Seq::new(old(s)@.grads.len(), |i: int| 0i64),
                dk: Seq::new(BLOCK as nat, |r: int| if r < t { Seq::new(N_EMBD as nat, |c: int| 0i64) } else { old(s)@.dk[r] }),
                dv: Seq::new(BLOCK as nat, |r: int| if r < t { Seq::new(N_EMBD as nat, |c: int| 0i64) } else { old(s)@.dv[r] }),
                ..old(s)@
            }),
        decreases BLOCK - t,
    {
        let zk = zeros(N_EMBD);
        proof {
            assert(zk@ =~= Seq::new(N_EMBD as nat, |c: int| 0i64));
        }
        set_row(&mut s.dk, t, zk);
        let zv = zeros(N_EMBD);
        proof {
            assert(zv@ =~= Seq::new(N_EMBD as nat, |c: int| 0i64));
        }
        set_row(&mut s.dv, t, zv);
        t = t + 1;
        assert(s@.dk =~= Seq::new(BLOCK as nat, |r: int| if r < t { Seq::new(N_EMBD as nat, |c: int| 0i64) } else { old(s)@.dk[r] }));
        assert(s@.dv =~= Seq::new(BLOCK as nat, |r: int| if r < t { Seq::new(N_EMBD as nat, |c: int| 0i64) } else { old(s)@.dv[r] }));
    }
    assert(s@ =~= zero_grads_spec(old(s)@));
}

/// Number of positions trained on for a BOS-delimited token sequence.
pub open spec fn n_positions(len: int) -> int {
    if BLOCK < len - 1 { BLOCK as int } else { len - 1 }
}

/// Workspace and negated loss sum after forwarding positions [0, k).
pub open spec fn fwd_run(sv: ScratchV, w: Seq<Fx>, toks: Seq<u8>, k: int) -> (ScratchV, Fx)
    decreases k,
{
    if k <= 0 {
        (zero_grads_spec(sv), 0)
    } else {
        let prev = fwd_run(sv, w, toks, k - 1);
        let step = fwd_loss_spec(prev.0, w, k - 1, toks[k - 1] as int, toks[k] as int);
        (step.0, wsub(prev.1, step.1))
    }
}

/// Phase 0 of a training step: the workspace after the forward pass and
/// the mean loss.
pub open spec fn begin_doc_spec(sv: ScratchV, w: Seq<Fx>, toks: Seq<u8>) -> (ScratchV, Fx) {
    let n = n_positions(toks.len() as int);
    let r = fwd_run(sv, w, toks, n);
    (r.0, tdiv(r.1 as int, n) as i64)
}

/// A valid document: BOS-delimited, at least one position, all token ids.
pub open spec fn valid_doc(toks: Seq<u8>) -> bool {
    &&& toks.len() >= 2
    &&& forall|i: int| 0 <= i < toks.len() ==> toks[i] < VOCAB
}

/// Phase 0 of a training step: zero the gradient accumulators and run the
/// forward pass over the whole document, keeping every activation in the
/// scratch. Returns the mean loss. `tokens` is the BOS-delimited sequence;
/// position t consumes `tokens[t]` and predicts `tokens[t + 1]`, for t < n
/// where n = min(BLOCK, tokens.len() - 1).
pub fn begin_doc(w: &Weights, s: &mut Scratch, tokens: &[u8]) -> (loss: Fx)
    requires
        old(s)@.wf(),
        w.params@.len() == N_PARAMS,
        valid_doc(tokens@),
    ensures
        (final(s)@, loss) == begin_doc_spec(old(s)@, w.params@, tokens@),
        final(s)@.wf(),
{
    let n = if BLOCK < tokens.len() - 1 { BLOCK } else { tokens.len() - 1 };
    zero_grads(s);
    let mut loss: Fx = 0;
    let mut t: usize = 0;
    while t < n
        invariant
            t <= n,
            n == n_positions(tokens@.len() as int),
            1 <= n <= BLOCK,
            w.params@.len() == N_PARAMS,
            valid_doc(tokens@),
            s@.wf(),
            (s@, loss) == fwd_run(old(s)@, w.params@, tokens@, t as int),
        decreases n - t,
    {
        let l = forward_pos_loss(w, s, t, tokens[t], tokens[t + 1]);
        loss = loss.wrapping_sub(l);
        t = t + 1;
    }
    div_trunc(loss, n as i64)
}


// -- Backward ----------------------------------------------------------------

/// Fused softmax + cross-entropy gradient (mean over `n` positions),
/// loss-scaled by 2^LOSS_SCALE_SHIFT so small gradients survive the Q16.16
/// kernels.
pub open spec fn dlogits_spec(probs: Seq<Fx>, target: int, n: int) -> Seq<Fx> {
    Seq::new(
        VOCAB as nat,
        |i: int| {
            let d = if i == target { wsub(probs[i], ONE) } else { probs[i] };
            tdiv((d << 12u32) as int, n) as i64
        },
    )
}

/// MLP-path backward of position `t`: w1/w2 gradients accumulated, and
/// dx2 = dx3 + the MLP-path gradient.
pub open spec fn bwd_mlp_spec(sv: ScratchV, w: Seq<Fx>, t: int, dx3: Seq<Fx>) -> (ScratchV, Seq<Fx>) {
    let g1 = outer_spec(sv.grads, W2 as int, 16, 64, dx3, sv.h[t]);
    let dh = linear_t_spec(w, W2 as int, 16, 64, dx3);
    let dhpre = Seq::new(MLP_DIM as nat, |i: int| if sv.hpre[t][i] > 0 { dh[i] } else { 0 });
    let g2 = outer_spec(g1, W1 as int, 64, 16, dhpre, sv.xm[t]);
    let dxm = linear_t_spec(w, W1 as int, 64, 16, dhpre);
    let dn = rmsnorm_bwd_spec(sv.x2[t], sv.s_mlp[t], dxm);
    (ScratchV { grads: g2, ..sv }, vadd(dx3, dn))
}

/// da[p] = do_h . v_h[p] for head `h`.
pub open spec fn da_spec(vr: Seq<Seq<Fx>>, do_: Seq<Fx>, h: int, p: int) -> Fx {
    head_dot(do_, vr[p], h * 4, 4)
}

/// Wrapping sum of att[p] * da[p] over p < n.
pub open spec fn dsum_spec(att: Seq<Fx>, vr: Seq<Seq<Fx>>, do_: Seq<Fx>, h: int, n: int) -> Fx
    decreases n,
{
    if n <= 0 {
        0
    } else {
        wadd(dsum_spec(att, vr, do_, h, n - 1), fmul16_spec(att[n - 1], da_spec(vr, do_, h, n - 1)))
    }
}

/// Softmax-backward score gradient of head `h` for key position `p`
/// (scaled by 1/sqrt(head_dim)).
pub open spec fn dscore_spec(att: Seq<Fx>, vr: Seq<Seq<Fx>>, do_: Seq<Fx>, h: int, t: int, p: int) -> Fx {
    shr(fmul16_spec(att[p], wsub(da_spec(vr, do_, h, p), dsum_spec(att, vr, do_, h, t + 1))), 1)
}

/// Attention weights of position `t`, head `h`.
pub open spec fn att_of(sv: ScratchV, t: int, h: int) -> Seq<Fx> {
    sv.att[t * 4 + h]
}

/// Score gradient for key position `p`, column `c` (head c/4).
pub open spec fn dscore_at(sv: ScratchV, do_: Seq<Fx>, t: int, c: int, p: int) -> Fx {
    dscore_spec(att_of(sv, t, c / 4), sv.v, do_, c / 4, t, p)
}

/// Query gradient column `c`, summed over key positions p < n.
pub open spec fn dq_col(sv: ScratchV, do_: Seq<Fx>, t: int, c: int, n: int) -> Fx
    decreases n,
{
    if n <= 0 {
        0
    } else {
        wadd(dq_col(sv, do_, t, c, n - 1), fmul16_spec(dscore_at(sv, do_, t, c, n - 1), sv.k[n - 1][c]))
    }
}

/// Query gradient of position `t`.
pub open spec fn dq_spec(sv: ScratchV, do_: Seq<Fx>, t: int) -> Seq<Fx> {
    Seq::new(N_EMBD as nat, |c: int| dq_col(sv, do_, t, c, t + 1))
}

/// Key-cache gradients after position `t` adds its contribution to the
/// columns of heads below `hmax`.
pub open spec fn dk_partial(sv: ScratchV, do_: Seq<Fx>, t: int, hmax: int) -> Seq<Seq<Fx>> {
    Seq::new(
        sv.dk.len(),
        |p: int|
            if p <= t {
                Seq::new(
                    N_EMBD as nat,
                    |c: int|
                        if c < hmax * 4 {
                            wadd(sv.dk[p][c], fmul16_spec(dscore_at(sv, do_, t, c, p), sv.q[t][c]))
                        } else {
                            sv.dk[p][c]
                        },
                )
            } else {
                sv.dk[p]
            },
    )
}

/// Value-cache gradients after position `t` adds its contribution to the
/// columns of heads below `hmax`.
pub open spec fn dv_partial(sv: ScratchV, do_: Seq<Fx>, t: int, hmax: int) -> Seq<Seq<Fx>> {
    Seq::new(
        sv.dv.len(),
        |p: int|
            if p <= t {
                Seq::new(
                    N_EMBD as nat,
                    |c: int|
                        if c < hmax * 4 {
                            wadd(sv.dv[p][c], fmul16_spec(att_of(sv, t, c / 4)[p], do_[c]))
                        } else {
                            sv.dv[p][c]
                        },
                )
            } else {
                sv.dv[p]
            },
    )
}

/// Attention-path backward of position `t`: wq/wk/wv/wo gradients and the
/// KV-cache gradients accumulated, and dx1 = dx2 + the attention-path
/// gradient.
pub open spec fn bwd_attn_spec(sv: ScratchV, w: Seq<Fx>, t: int, dx2: Seq<Fx>) -> (ScratchV, Seq<Fx>) {
    let g1 = outer_spec(sv.grads, WO as int, 16, 16, dx2, sv.o[t]);
    let do_ = linear_t_spec(w, WO as int, 16, 16, dx2);
    let dq = dq_spec(sv, do_, t);
    let dk = dk_partial(sv, do_, t, 4);
    let dv = dv_partial(sv, do_, t, 4);
    let g2 = outer_spec(g1, WQ as int, 16, 16, dq, sv.xa[t]);
    let dxa = linear_t_spec(w, WQ as int, 16, 16, dq);
    let g3 = outer_spec(g2, WK as int, 16, 16, dk[t], sv.xa[t]);
    let dxa_k = linear_t_spec(w, WK as int, 16, 16, dk[t]);
    let g4 = outer_spec(g3, WV as int, 16, 16, dv[t], sv.xa[t]);
    let dxa_v = linear_t_spec(w, WV as int, 16, 16, dv[t]);
    let dxa_all = Seq::new(N_EMBD as nat, |i: int| wadd(dxa[i], wadd(dxa_k[i], dxa_v[i])));
    let dn = rmsnorm_bwd_spec(sv.x1[t], sv.s_att[t], dxa_all);
    (ScratchV { grads: g4, dk: dk, dv: dv, ..sv }, vadd(dx2, dn))
}

/// Embedding backward: dx0 through the first RMSNorm, added to the rows of
/// wte (token) and wpe (position).
pub open spec fn bwd_embed_spec(sv: ScratchV, t: int, token: int, dx1: Seq<Fx>) -> ScratchV {
    let dx0 = rmsnorm_bwd_spec(sv.x0[t], sv.s_emb[t], dx1);
    let te = WTE + token * 16;
    let pe = WPE + t * 16;
    ScratchV {
        grads: Seq::new(
            sv.grads.len(),
            |p: int|
                if te <= p < te + 16 {
                    wadd(sv.grads[p], dx0[p - te])
                } else if pe <= p < pe + 16 {
                    wadd(sv.grads[p], dx0[p - pe])
                } else {
                    sv.grads[p]
                },
        ),
        ..sv
    }
}

/// Backward through one position.
pub open spec fn backward_position_spec(sv: ScratchV, w: Seq<Fx>, t: int, token: int, target: int, n: int) -> ScratchV {
    let dl = dlogits_spec(sv.probs[t], target, n);
    let sv1 = ScratchV { grads: outer_spec(sv.grads, LM as int, 27, 16, dl, sv.x3[t]), ..sv };
    let dx3 = linear_t_spec(w, LM as int, 27, 16, dl);
    let m = bwd_mlp_spec(sv1, w, t, dx3);
    let a = bwd_attn_spec(m.0, w, t, m.1);
    bwd_embed_spec(a.0, t, token, a.1)
}

/// dLoss/dx2 += MLP-path gradient; accumulates w1/w2 grads.
fn mlp_backward(w: &Weights, s: &mut Scratch, t: usize, dx3: &[Fx], dx2: &mut Vec<Fx>)
    requires
        old(s)@.wf(),
        w.params@.len() == N_PARAMS,
        t < BLOCK,
        dx3@.len() == N_EMBD,
        old(dx2)@ == dx3@,
    ensures
        (final(s)@, final(dx2)@) == bwd_mlp_spec(old(s)@, w.params@, t as int, dx3@),
        final(s)@.wf(),
{
    proof {
        lemma_rows_index(s.h@, t as int);
        lemma_rows_index(s.hpre@, t as int);
        lemma_rows_index(s.xm@, t as int);
        lemma_rows_index(s.x2@, t as int);
    }
    outer_acc(&mut s.grads.params, W2, N_EMBD, MLP_DIM, dx3, s.h[t].as_slice());
    let dh = linear_t(w.params.as_slice(), W2, N_EMBD, MLP_DIM, dx3);
    let mut dhpre: Vec<Fx> = Vec::new();
    let mut i: usize = 0;
    while i < MLP_DIM
        invariant
            i <= MLP_DIM,
            t < BLOCK,
            s@.wf(),
            s.hpre@[t as int]@ == s@.hpre[t as int],
            dh@.len() == MLP_DIM,
            dhpre@.len() == i,
            forall|j: int| 0 <= j < i ==> dhpre@[j] == (if s@.hpre[t as int][j] > 0 { dh@[j] } else { 0 }),
        decreases MLP_DIM - i,
    {
        dhpre.push(if s.hpre[t][i] > 0 { dh[i] } else { 0 });
        i = i + 1;
    }
    outer_acc(&mut s.grads.params, W1, MLP_DIM, N_EMBD, dhpre.as_slice(), s.xm[t].as_slice());
    let dxm = linear_t(w.params.as_slice(), W1, MLP_DIM, N_EMBD, dhpre.as_slice());
    let dn = rmsnorm_bwd(s.x2[t].as_slice(), s.s_mlp[t], dxm.as_slice());
    let mut i: usize = 0;
    while i < N_EMBD
        invariant
            i <= N_EMBD,
            dx2@.len() == N_EMBD,
            dn@.len() == N_EMBD,
            forall|j: int| 0 <= j < i ==> dx2@[j] == wadd(dx3@[j], dn@[j]),
            forall|j: int| i <= j < N_EMBD ==> dx2@[j] == dx3@[j],
        decreases N_EMBD - i,
    {
        let v = dx2[i].wrapping_add(dn[i]);
        dx2.set(i, v);
        i = i + 1;
    }
    let ghost sv = old(s)@;
    let ghost dhp = Seq::new(MLP_DIM as nat, |j: int| if sv.hpre[t as int][j] > 0 { dh@[j] } else { 0 });
    assert(dhpre@ =~= dhp);
    assert(dx2@ =~= vadd(dx3@, dn@));
    assert(s@ =~= bwd_mlp_spec(sv, w.params@, t as int, dx3@).0);
}


/// Backward through the softmax of one head of position `t`: adds its
/// query-gradient sums into the head's columns of `dq` (which start at zero)
/// and its key/value-cache gradients into the head's columns of `dk`/`dv`
/// for positions <= t.
fn attention_head_backward(s: &mut Scratch, do_: &[Fx], t: usize, head: usize, dq: &mut Vec<Fx>)
    requires
        old(s)@.wf(),
        t < BLOCK,
        head < N_HEAD,
        do_@.len() == N_EMBD,
        old(dq)@.len() == N_EMBD,
        forall|c: int| head * 4 <= c < head * 4 + 4 ==> old(dq)@[c] == 0,
    ensures
        final(s)@.wf(),
        final(s)@ == (ScratchV {
            dk: Seq::new(
                old(s)@.dk.len(),
                |p: int|
                    if p <= t {
                        Seq::new(
                            N_EMBD as nat,
                            |c: int|
                                if head * 4 <= c < head * 4 + 4 {
                                    wadd(old(s)@.dk[p][c], fmul16_spec(dscore_at(old(s)@, do_@, t as int, c, p), old(s)@.q[t as int][c]))
                                } else {
                                    old(s)@.dk[p][c]
                                },
                        )
                    } else {
                        old(s)@.dk[p]
                    },
            ),
            dv: Seq::new(
                old(s)@.dv.len(),
                |p: int|
                    if p <= t {
                        Seq::new(
                            N_EMBD as nat,
                            |c: int|
                                if head * 4 <= c < head * 4 + 4 {
                                    wadd(old(s)@.dv[p][c], fmul16_spec(att_of(old(s)@, t as int, c / 4)[p], do_@[c]))
                                } else {
                                    old(s)@.dv[p][c]
                                },
                        )
                    } else {
                        old(s)@.dv[p]
                    },
            ),
            ..old(s)@
        }),
        final(dq)@.len() == N_EMBD,
        forall|c: int| head * 4 <= c < head * 4 + 4 ==> final(dq)@[c] == dq_col(old(s)@, do_@, t as int, c, t + 1),
        forall|c: int| 0 <= c < N_EMBD && !(head * 4 <= c < head * 4 + 4) ==> final(dq)@[c] == old(dq)@[c],
{
    let ghost sv = s@;
    let hs = head * HEAD_DIM;
    let ridx = t * N_HEAD + head;
    proof {
        lemma_rows_index(s.att@, ridx as int);
    }
    let att = row_copy(s.att[ridx].as_slice());
    assert(att@ == att_of(sv, t as int, head as int));
    // da[p] = do_h . v_h[p]; softmax backward gives the score grads.
    let mut da: Vec<Fx> = Vec::new();
    let mut dsum: Fx = 0;
    let mut past: usize = 0;
    while past <= t
        invariant
            past <= t + 1,
            t < BLOCK,
            hs == head * 4,
            head < N_HEAD,
            s@ == sv,
            sv.wf(),
            do_@.len() == N_EMBD,
            att@ == att_of(sv, t as int, head as int),
            att@.len() == BLOCK,
            da@.len() == past,
            forall|p: int| 0 <= p < past ==> da@[p] == da_spec(sv.v, do_@, head as int, p),
            dsum == dsum_spec(att@, sv.v, do_@, head as int, past as int),
        decreases t + 1 - past,
    {
        proof {
            lemma_rows_index(s.v@, past as int);
        }
        let a = head_dot_exec(do_, s.v[past].as_slice(), hs);
        da.push(a);
        dsum = dsum.wrapping_add(fmul16(att[past], a));
        past = past + 1;
    }
    let mut past: usize = 0;
    while past <= t
        invariant
            past <= t + 1,
            t < BLOCK,
            hs == head * 4,
            head < N_HEAD,
            sv.wf(),
            s@.wf(),
            do_@.len() == N_EMBD,
            att@ == att_of(sv, t as int, head as int),
            att@.len() == BLOCK,
            da@.len() == t + 1,
            forall|p: int| 0 <= p <= t ==> da@[p] == da_spec(sv.v, do_@, head as int, p),
            dsum == dsum_spec(att@, sv.v, do_@, head as int, t + 1),
            dq@.len() == N_EMBD,
            forall|c: int| hs <= c < hs + 4 ==> dq@[c] == dq_col(sv, do_@, t as int, c, past as int),
            forall|c: int| 0 <= c < N_EMBD && !(hs <= c < hs + 4) ==> dq@[c] == old(dq)@[c],
            s@ == (ScratchV {
                dk: Seq::new(
                    sv.dk.len(),
                    |p: int|
                        if p < past {
                            Seq::new(
                                N_EMBD as nat,
                                |c: int|
                                    if hs <= c < hs + 4 {
                                        wadd(sv.dk[p][c], fmul16_spec(dscore_at(sv, do_@, t as int, c, p), sv.q[t as int][c]))
                                    } else {
                                        sv.dk[p][c]
                                    },
                            )
                        } else {
                            sv.dk[p]
                        },
                ),
                dv: Seq::new(
                    sv.dv.len(),
                    |p: int|
                        if p < past {
                            Seq::new(
                                N_EMBD as nat,
                                |c: int|
                                    if hs <= c < hs + 4 {
                                        wadd(sv.dv[p][c], fmul16_spec(att_of(sv, t as int, c / 4)[p], do_@[c]))
                                    } else {
                                        sv.dv[p][c]
                                    },
                            )
                        } else {
                            sv.dv[p]
                        },
                ),
                ..sv
            }),
        decreases t + 1 - past,
    {
        proof {
            lemma_shr_i64(fmul16_spec(att@[past as int], wsub(da@[past as int], dsum)), 1);
        }
        let dscore = fmul16(att[past], da[past].wrapping_sub(dsum)) >> 1; // * 1/sqrt(hd)
        proof {
            assert forall|c: int| hs <= c < hs + 4 implies dscore == dscore_at(sv, do_@, t as int, c, past as int) by {
                assert(c / 4 == head);
            }
            lemma_rows_index(s.dk@, past as int);
            lemma_rows_index(s.dv@, past as int);
            lemma_rows_index(s.k@, past as int);
            lemma_rows_index(s.q@, t as int);
        }
        let mut krow = row_copy(s.dk[past].as_slice());
        let mut vrow = row_copy(s.dv[past].as_slice());
        let ghost krow0 = krow@;
        let ghost vrow0 = vrow@;
        let ghost dq0 = dq@;
        let mut j: usize = 0;
        while j < HEAD_DIM
            invariant
                j <= HEAD_DIM,
                past <= t,
                t < BLOCK,
                hs == head * 4,
                head < N_HEAD,
                s@.wf(),
                do_@.len() == N_EMBD,
                att@.len() == BLOCK,
                krow@.len() == N_EMBD,
                vrow@.len() == N_EMBD,
                dq@.len() == N_EMBD,
                krow0.len() == N_EMBD,
                vrow0.len() == N_EMBD,
                dq0.len() == N_EMBD,
                s.k@[past as int]@ == s@.k[past as int],
                s.q@[t as int]@ == s@.q[t as int],
                forall|c: int| hs <= c < hs + j ==> krow@[c] == wadd(krow0[c], fmul16_spec(dscore, s@.q[t as int][c])),
                forall|c: int| 0 <= c < N_EMBD && !(hs <= c < hs + j) ==> krow@[c] == krow0[c],
                forall|c: int| hs <= c < hs + j ==> vrow@[c] == wadd(vrow0[c], fmul16_spec(att@[past as int], do_@[c])),
                forall|c: int| 0 <= c < N_EMBD && !(hs <= c < hs + j) ==> vrow@[c] == vrow0[c],
                forall|c: int| hs <= c < hs + j ==> dq@[c] == wadd(dq0[c], fmul16_spec(dscore, s@.k[past as int][c])),
                forall|c: int| 0 <= c < N_EMBD && !(hs <= c < hs + j) ==> dq@[c] == dq0[c],
            decreases HEAD_DIM - j,
        {
            let c = hs + j;
            let dqc = dq[c].wrapping_add(fmul16(dscore, s.k[past][c]));
            dq.set(c, dqc);
            let kc = krow[c].wrapping_add(fmul16(dscore, s.q[t][c]));
            krow.set(c, kc);
            let vc = vrow[c].wrapping_add(fmul16(att[past], do_[c]));
            vrow.set(c, vc);
            j = j + 1;
        }
        proof {
            assert(krow0 == sv.dk[past as int]);
            assert(vrow0 == sv.dv[past as int]);
            assert forall|c: int| hs <= c < hs + 4 implies #[trigger] att_of(sv, t as int, c / 4) == att@ by {
                assert(c / 4 == head);
            }
            assert(krow@ =~= Seq::new(
                N_EMBD as nat,
                |c: int|
                    if hs <= c < hs + 4 {
                        wadd(sv.dk[past as int][c], fmul16_spec(dscore_at(sv, do_@, t as int, c, past as int), sv.q[t as int][c]))
                    } else {
                        sv.dk[past as int][c]
                    },
            ));
            assert(vrow@ =~= Seq::new(
                N_EMBD as nat,
                |c: int|
                    if hs <= c < hs + 4 {
                        wadd(sv.dv[past as int][c], fmul16_spec(att_of(sv, t as int, c / 4)[past as int], do_@[c]))
                    } else {
                        sv.dv[past as int][c]
                    },
            ));
        }
        set_row(&mut s.dk, past, krow);
        set_row(&mut s.dv, past, vrow);
        past = past + 1;
        proof {
            assert(s@.dk =~= Seq::new(
                sv.dk.len(),
                |p: int|
                    if p < past {
                        Seq::new(
                            N_EMBD as nat,
                            |c: int|
                                if hs <= c < hs + 4 {
                                    wadd(sv.dk[p][c], fmul16_spec(dscore_at(sv, do_@, t as int, c, p), sv.q[t as int][c]))
                                } else {
                                    sv.dk[p][c]
                                },
                        )
                    } else {
                        sv.dk[p]
                    },
            ));
            assert(s@.dv =~= Seq::new(
                sv.dv.len(),
                |p: int|
                    if p < past {
                        Seq::new(
                            N_EMBD as nat,
                            |c: int|
                                if hs <= c < hs + 4 {
                                    wadd(sv.dv[p][c], fmul16_spec(att_of(sv, t as int, c / 4)[p], do_@[c]))
                                } else {
                                    sv.dv[p][c]
                                },
                        )
                    } else {
                        sv.dv[p]
                    },
            ));
        }
    }
}


/// The query-gradient sums only read the attention weights and the caches.
proof fn lemma_dq_col_frame(a: ScratchV, b: ScratchV, do_: Seq<Fx>, t: int, c: int, n: int)
    requires
        a.att == b.att,
        a.v == b.v,
        a.k == b.k,
    ensures
        dq_col(a, do_, t, c, n) == dq_col(b, do_, t, c, n),
    decreases n,
{
    if n > 0 {
        lemma_dq_col_frame(a, b, do_, t, c, n - 1);
    }
}

/// dLoss/dx1 += attention-path gradient; accumulates wq/wk/wv/wo grads and
/// the KV-cache gradients for earlier positions.
fn attention_backward(w: &Weights, s: &mut Scratch, t: usize, dx2: &[Fx], dx1: &mut Vec<Fx>)
    requires
        old(s)@.wf(),
        w.params@.len() == N_PARAMS,
        t < BLOCK,
        dx2@.len() == N_EMBD,
        old(dx1)@ == dx2@,
    ensures
        (final(s)@, final(dx1)@) == bwd_attn_spec(old(s)@, w.params@, t as int, dx2@),
        final(s)@.wf(),
{
    let ghost sv = s@;
    proof {
        lemma_rows_index(s.o@, t as int);
    }
    outer_acc(&mut s.grads.params, WO, N_EMBD, N_EMBD, dx2, s.o[t].as_slice());
    let do_ = linear_t(w.params.as_slice(), WO, N_EMBD, N_EMBD, dx2);
    let ghost sv1 = s@;
    let mut dq = zeros(N_EMBD);
    let mut head: usize = 0;
    assert(dk_partial(sv1, do_@, t as int, 0) =~~= sv1.dk);
    assert(dv_partial(sv1, do_@, t as int, 0) =~~= sv1.dv);
    while head < N_HEAD
        invariant
            head <= N_HEAD,
            t < BLOCK,
            sv1.wf(),
            s@.wf(),
            do_@.len() == N_EMBD,
            s@ == (ScratchV { dk: dk_partial(sv1, do_@, t as int, head as int), dv: dv_partial(sv1, do_@, t as int, head as int), ..sv1 }),
            dq@.len() == N_EMBD,
            forall|c: int| 0 <= c < head * 4 ==> dq@[c] == dq_col(sv1, do_@, t as int, c, t + 1),
            forall|c: int| head * 4 <= c < N_EMBD ==> dq@[c] == 0,
        decreases N_HEAD - head,
    {
        let ghost cur = s@;
        attention_head_backward(s, do_.as_slice(), t, head, &mut dq);
        proof {
            assert forall|c: int| head * 4 <= c < head * 4 + 4 implies dq@[c] == dq_col(sv1, do_@, t as int, c, t + 1) by {
                lemma_dq_col_frame(cur, sv1, do_@, t as int, c, t + 1);
            }
            assert(s@.dk =~~= dk_partial(sv1, do_@, t as int, head + 1));
            assert(s@.dv =~~= dv_partial(sv1, do_@, t as int, head + 1));
        }
        head = head + 1;
    }
    assert(dq@ =~= dq_spec(sv1, do_@, t as int));
    proof {
        assert forall|c: int| 0 <= c < N_EMBD implies #[trigger] dq_col(sv1, do_@, t as int, c, t + 1) == dq_col(sv, do_@, t as int, c, t + 1) by {
            lemma_dq_col_frame(sv1, sv, do_@, t as int, c, t + 1);
        }
        assert(dq_spec(sv1, do_@, t as int) =~= dq_spec(sv, do_@, t as int));
        assert(dk_partial(sv1, do_@, t as int, 4) =~~= dk_partial(sv, do_@, t as int, 4));
        assert(dv_partial(sv1, do_@, t as int, 4) =~~= dv_partial(sv, do_@, t as int, 4));
    }
    // Project cache gradients for position t (now complete) and the query
    // gradient back through the input projections.
    proof {
        lemma_rows_index(s.xa@, t as int);
        lemma_rows_index(s.dk@, t as int);
        lemma_rows_index(s.dv@, t as int);
        lemma_rows_index(s.x1@, t as int);
    }
    outer_acc(&mut s.grads.params, WQ, N_EMBD, N_EMBD, dq.as_slice(), s.xa[t].as_slice());
    let mut dxa = linear_t(w.params.as_slice(), WQ, N_EMBD, N_EMBD, dq.as_slice());
    outer_acc(&mut s.grads.params, WK, N_EMBD, N_EMBD, s.dk[t].as_slice(), s.xa[t].as_slice());
    let dxa_k = linear_t(w.params.as_slice(), WK, N_EMBD, N_EMBD, s.dk[t].as_slice());
    outer_acc(&mut s.grads.params, WV, N_EMBD, N_EMBD, s.dv[t].as_slice(), s.xa[t].as_slice());
    let dxa_v = linear_t(w.params.as_slice(), WV, N_EMBD, N_EMBD, s.dv[t].as_slice());
    let ghost dxa0 = dxa@;
    let mut i: usize = 0;
    while i < N_EMBD
        invariant
            i <= N_EMBD,
            dxa@.len() == N_EMBD,
            dxa0.len() == N_EMBD,
            dxa_k@.len() == N_EMBD,
            dxa_v@.len() == N_EMBD,
            forall|j: int| 0 <= j < i ==> dxa@[j] == wadd(dxa0[j], wadd(dxa_k@[j], dxa_v@[j])),
            forall|j: int| i <= j < N_EMBD ==> dxa@[j] == dxa0[j],
        decreases N_EMBD - i,
    {
        let v = dxa[i].wrapping_add(dxa_k[i].wrapping_add(dxa_v[i]));
        dxa.set(i, v);
        i = i + 1;
    }
    let dn = rmsnorm_bwd(s.x1[t].as_slice(), s.s_att[t], dxa.as_slice());
    let mut i: usize = 0;
    while i < N_EMBD
        invariant
            i <= N_EMBD,
            dx1@.len() == N_EMBD,
            dn@.len() == N_EMBD,
            forall|j: int| 0 <= j < i ==> dx1@[j] == wadd(dx2@[j], dn@[j]),
            forall|j: int| i <= j < N_EMBD ==> dx1@[j] == dx2@[j],
        decreases N_EMBD - i,
    {
        let v = dx1[i].wrapping_add(dn[i]);
        dx1.set(i, v);
        i = i + 1;
    }
    proof {
        let r = bwd_attn_spec(sv, w.params@, t as int, dx2@);
        assert(dxa@ =~= Seq::new(N_EMBD as nat, |j: int| wadd(dxa0[j], wadd(dxa_k@[j], dxa_v@[j]))));
        assert(dxa@ == Seq::new(N_EMBD as nat, |j: int| wadd(linear_t_spec(w.params@, WQ as int, 16, 16, dq_spec(sv, linear_t_spec(w.params@, WO as int, 16, 16, dx2@), t as int))[j], wadd(dxa_k@[j], dxa_v@[j]))));
        assert(dx1@ =~= r.1);
        assert(s@ =~= r.0);
    }
}

/// Adds dx0 to the `token` row of wte and the `t` row of wpe.
fn embed_backward(s: &mut Scratch, t: usize, token: u8, dx1: &[Fx])
    requires
        old(s)@.wf(),
        t < BLOCK,
        token < VOCAB,
        dx1@.len() == N_EMBD,
    ensures
        final(s)@ == bwd_embed_spec(old(s)@, t as int, token as int, dx1@),
        final(s)@.wf(),
{
    let ghost sv = s@;
    proof {
        lemma_rows_index(s.x0@, t as int);
    }
    let dx0 = rmsnorm_bwd(s.x0[t].as_slice(), s.s_emb[t], dx1);
    let te = WTE + (token as usize) * N_EMBD;
    let pe = WPE + t * N_EMBD;
    let mut i: usize = 0;
    while i < N_EMBD
        invariant
            i <= N_EMBD,
            t < BLOCK,
            token < VOCAB,
            te == WTE + token * 16,
            pe == WPE + t * 16,
            sv.wf(),
            dx0@.len() == N_EMBD,
            s@ == (ScratchV {
                grads: Seq::new(
                    sv.grads.len(),
                    |p: int|
                        if te <= p < te + i {
                            wadd(sv.grads[p], dx0@[p - te])
                        } else if pe <= p < pe + i {
                            wadd(sv.grads[p], dx0@[p - pe])
                        } else {
                            sv.grads[p]
                        },
                ),
                ..sv
            }),
        decreases N_EMBD - i,
    {
        let a = s.grads.params[te + i].wrapping_add(dx0[i]);
        s.grads.params.set(te + i, a);
        let b = s.grads.params[pe + i].wrapping_add(dx0[i]);
        s.grads.params.set(pe + i, b);
        i = i + 1;
        assert(s@.grads =~= Seq::new(
            sv.grads.len(),
            |p: int|
                if te <= p < te + i {
                    wadd(sv.grads[p], dx0@[p - te])
                } else if pe <= p < pe + i {
                    wadd(sv.grads[p], dx0@[p - pe])
                } else {
                    sv.grads[p]
                },
        ));
    }
    assert(s@ =~= bwd_embed_spec(sv, t as int, token as int, dx1@));
}

/// Backward through one position (positions must be processed in
/// descending order after `begin_doc`), accumulating into the parameter
/// gradients and the KV-cache gradients.
pub fn backward_position(w: &Weights, s: &mut Scratch, t: usize, token: u8, target: u8, n: usize)
    requires
        old(s)@.wf(),
        w.params@.len() == N_PARAMS,
        t < BLOCK,
        token < VOCAB,
        target < VOCAB,
        1 <= n <= BLOCK,
    ensures
        final(s)@ == backward_position_spec(old(s)@, w.params@, t as int, token as int, target as int, n as int),
        final(s)@.wf(),
{
    let ghost sv = s@;
    proof {
        lemma_rows_index(s.probs@, t as int);
        lemma_rows_index(s.x3@, t as int);
    }
    // Fused softmax + cross-entropy (mean over n positions), loss-scaled.
    let mut dlogits = row_copy(s.probs[t].as_slice());
    let dt = dlogits[target as usize].wrapping_sub(ONE);
    dlogits.set(target as usize, dt);
    let ghost d0 = dlogits@;
    let mut i: usize = 0;
    while i < VOCAB
        invariant
            i <= VOCAB,
            1 <= n <= BLOCK,
            dlogits@.len() == VOCAB,
            d0.len() == VOCAB,
            forall|j: int| 0 <= j < i ==> dlogits@[j] == tdiv((d0[j] << 12u32) as int, n as int) as i64,
            forall|j: int| i <= j < VOCAB ==> dlogits@[j] == d0[j],
        decreases VOCAB - i,
    {
        let d = div_trunc(dlogits[i] << LOSS_SCALE_SHIFT, n as i64);
        dlogits.set(i, d);
        i = i + 1;
    }
    assert(dlogits@ =~= dlogits_spec(sv.probs[t as int], target as int, n as int));
    // LM head: logits = lm @ x3.
    outer_acc(&mut s.grads.params, LM, VOCAB, N_EMBD, dlogits.as_slice(), s.x3[t].as_slice());
    let dx3 = linear_t(w.params.as_slice(), LM, VOCAB, N_EMBD, dlogits.as_slice());
    // MLP block: x3 = x2 + w2 @ relu(w1 @ rmsnorm(x2)).
    let mut dx2 = row_copy(dx3.as_slice());
    mlp_backward(w, s, t, dx3.as_slice(), &mut dx2);
    // Attention block: x2 = x1 + wo @ concat(heads(rmsnorm(x1))).
    let mut dx1 = row_copy(dx2.as_slice());
    attention_backward(w, s, t, dx2.as_slice(), &mut dx1);
    // Embedding: x0 = wte[token] + wpe[t]; x1 = rmsnorm(x0).
    embed_backward(s, t, token, dx1.as_slice());
}

/// Workspace after backward passes over positions k-1 down to 0.
pub open spec fn bwd_run(sv: ScratchV, w: Seq<Fx>, toks: Seq<u8>, k: int, n: int) -> ScratchV
    decreases k,
{
    if k <= 0 {
        sv
    } else {
        bwd_run(backward_position_spec(sv, w, k - 1, toks[k - 1] as int, toks[k] as int, n), w, toks, k - 1, n)
    }
}

/// Forward + backward over one document: the workspace (whose `grads` hold
/// the loss-scaled mean gradients) and the mean loss.
pub open spec fn train_fwd_bwd_spec(sv: ScratchV, w: Seq<Fx>, toks: Seq<u8>) -> (ScratchV, Fx) {
    let b = begin_doc_spec(sv, w, toks);
    let n = n_positions(toks.len() as int);
    (bwd_run(b.0, w, toks, n, n), b.1)
}

/// Forward + backward over one document, exactly microGPT's loop.
/// Gradients (averaged over the n positions, loss-scaled by 2^12) are
/// accumulated into the workspace; returns the mean cross-entropy loss.
pub fn train_fwd_bwd(w: &Weights, s: &mut Scratch, tokens: &[u8]) -> (loss: Fx)
    requires
        old(s)@.wf(),
        w.params@.len() == N_PARAMS,
        valid_doc(tokens@),
    ensures
        (final(s)@, loss) == train_fwd_bwd_spec(old(s)@, w.params@, tokens@),
        final(s)@.wf(),
{
    let n = if BLOCK < tokens.len() - 1 { BLOCK } else { tokens.len() - 1 };
    let loss = begin_doc(w, s, tokens);
    let ghost sb = s@;
    let mut t = n;
    while t > 0
        invariant
            t <= n,
            n == n_positions(tokens@.len() as int),
            1 <= n <= BLOCK,
            w.params@.len() == N_PARAMS,
            valid_doc(tokens@),
            s@.wf(),
            bwd_run(s@, w.params@, tokens@, t as int, n as int) == bwd_run(sb, w.params@, tokens@, n as int, n as int),
        decreases t,
    {
        t = t - 1;
        backward_position(w, s, t, tokens[t], tokens[t + 1], n);
    }
    loss
}

/// Logits whose pairwise differences cannot overflow.
pub open spec fn logits_in_range(l: Seq<Fx>) -> bool {
    diffs_fit(l, l.len() as int)
}

/// Cross-entropy of one position is non-negative: on logits in range, the
/// log-probability of the target lies in [-32 * LN2, 0].
pub proof fn lemma_position_log_prob_range(l: Seq<Fx>, target: int)
    requires
        l.len() == VOCAB,
        0 <= target < VOCAB,
        logits_in_range(l),
    ensures
        -32 * LN2 <= ln_spec(clamp_prob(softmax_spec(l, VOCAB as int)[target])) <= 0,
{
    lemma_softmax_range(l, VOCAB as int);
    let p = softmax_spec(l, VOCAB as int)[target];
    assert(0 <= p <= ONE);
    lemma_ln_range(clamp_prob(p));
}

/// The negated loss sum after `k` positions lies in [0, k * 32 * LN2] when
/// every position's logits are in range.
proof fn lemma_fwd_run_loss_range(sv: ScratchV, w: Seq<Fx>, toks: Seq<u8>, k: int)
    requires
        valid_doc(toks),
        0 <= k <= n_positions(toks.len() as int),
        forall|j: int|
            0 <= j < n_positions(toks.len() as int) ==> logits_in_range(
                #[trigger] forward_pos_spec(fwd_run(sv, w, toks, j).0, w, j, toks[j] as int).1,
            ),
    ensures
        0 <= fwd_run(sv, w, toks, k).1 <= k * 32 * LN2,
    decreases k,
{
    if k > 0 {
        lemma_fwd_run_loss_range(sv, w, toks, k - 1);
        let prev = fwd_run(sv, w, toks, k - 1);
        let fp = forward_pos_spec(prev.0, w, k - 1, toks[k - 1] as int);
        assert(logits_in_range(fp.1));
        assert(fp.1.len() == VOCAB) by {
            reveal(forward_pos_spec);
        }
        lemma_position_log_prob_range(fp.1, toks[k] as int);
    }
}

/// The mean cross-entropy of a document is non-negative whenever the
/// logits of every position stay in range.
pub proof fn lemma_doc_loss_nonneg(sv: ScratchV, w: Seq<Fx>, toks: Seq<u8>)
    requires
        valid_doc(toks),
        forall|j: int|
            0 <= j < n_positions(toks.len() as int) ==> logits_in_range(
                #[trigger] forward_pos_spec(fwd_run(sv, w, toks, j).0, w, j, toks[j] as int).1,
            ),
    ensures
        begin_doc_spec(sv, w, toks).1 >= 0,
        train_fwd_bwd_spec(sv, w, toks).1 >= 0,
{
    let n = n_positions(toks.len() as int);
    lemma_fwd_run_loss_range(sv, w, toks, n);
    let sum = fwd_run(sv, w, toks, n).1;
    vstd::arithmetic::div_mod::lemma_div_pos_is_pos(sum as int, n);
    vstd::arithmetic::div_mod::lemma_div_is_ordered(sum as int, n * 32 * LN2, n);
    assert(n * 32 * LN2 == n * (32 * LN2));
    vstd::arithmetic::div_mod::lemma_div_by_multiple(32 * LN2, n);
    assert((n * (32 * LN2)) / n == 32 * LN2) by (nonlinear_arith)
        requires
            n >= 1,
            ((32 * LN2) * n) / n == 32 * LN2,
    ;
}

/// Loss scaling multiplies by 2^12 on values below 2^50 in magnitude.
proof fn lemma_shl12(d: i64)
    requires
        -0x4_0000_0000_0000 <= d <= 0x4_0000_0000_0000,
    ensures
        (d << 12u32) as int == d as int * 4096,
{
    vstd::arithmetic::power2::lemma2_to64();
    if d >= 0 {
        assert((d << 12u32) == (d << 12u64)) by (bit_vector);
        lemma_shl_i64(d, 12);
    } else {
        let nd: i64 = (-d) as i64;
        assert((d << 12u32) == -(nd << 12u64)) by (bit_vector)
            requires
                nd == -d,
                -0x4_0000_0000_0000 <= d < 0,
        ;
        lemma_shl_i64(nd, 12);
    }
}

/// Entries of a probability vector: each in [0, ONE].
pub open spec fn probs_ok(p: Seq<Fx>) -> bool {
    p.len() == VOCAB && forall|i: int| 0 <= i < VOCAB ==> 0 <= #[trigger] p[i] <= ONE
}

/// Cross-entropy through softmax has the gradient probs - onehot(target):
/// the logit gradient of a position (mean over `n` positions, loss-scaled
/// by 2^12, truncated toward zero) is, for the target, minus the missing
/// probability mass ONE - p_target, so never positive and negative whenever
/// p_target < ONE; for every other token it is that token's probability,
/// so never negative. Summed over the vocabulary it is (sum p - ONE) scaled,
/// up to the truncation of each entry: zero, to within rounding, when the
/// probabilities sum to ONE.
pub proof fn lemma_dlogits_is_probs_minus_onehot(probs: Seq<Fx>, target: int, n: int)
    requires
        probs_ok(probs),
        0 <= target < VOCAB,
        1 <= n <= BLOCK,
    ensures
        ({
            let d = dlogits_spec(probs, target, n);
            &&& d[target] as int == -(((ONE - probs[target]) * 4096) / n)
            &&& d[target] <= 0
            &&& probs[target] < ONE ==> d[target] < 0
            &&& forall|i: int| 0 <= i < VOCAB && i != target ==> #[trigger] d[i] as int == (probs[i] * 4096) / n
            &&& forall|i: int| 0 <= i < VOCAB && i != target ==> #[trigger] d[i] >= 0
            &&& (int_sum(probs, VOCAB as int) - ONE) * 4096 - 26 * n < n * int_sum(d, VOCAB as int)
            &&& n * int_sum(d, VOCAB as int) < (int_sum(probs, VOCAB as int) - ONE) * 4096 + n
        }),
{
    let d = dlogits_spec(probs, target, n);
    assert forall|i: int| 0 <= i < VOCAB implies #[trigger] d[i] as int == if i == target {
        -(((ONE - probs[target]) * 4096) / n)
    } else {
        (probs[i] * 4096) / n
    } by {
        lemma_dlogit_entry(probs, target, n, i);
    }
    lemma_dlogit_entry(probs, target, n, target);
    assert forall|i: int| 0 <= i < VOCAB && i != target implies #[trigger] d[i] >= 0 by {
        lemma_dlogit_entry(probs, target, n, i);
    }
    lemma_dlogits_sum(probs, target, n, VOCAB as int);
    let y = int_sum(probs, VOCAB as int) * 4096 - ONE * 4096;
    assert(target < VOCAB);
    assert(y - 26 * (n - 1) <= n * int_sum(d, VOCAB as int) <= y + (n - 1));
    let sp = int_sum(probs, VOCAB as int);
    assert((sp - ONE) * 4096 == sp * 4096 - ONE * 4096) by (nonlinear_arith);
}

/// One entry of the logit gradient, as an exact integer.
proof fn lemma_dlogit_entry(probs: Seq<Fx>, target: int, n: int, i: int)
    requires
        probs_ok(probs),
        0 <= target < VOCAB,
        1 <= n <= BLOCK,
        0 <= i < VOCAB,
    ensures
        dlogits_spec(probs, target, n)[i] as int == if i == target {
            -(((ONE - probs[target]) * 4096) / n)
        } else {
            (probs[i] * 4096) / n
        },
        i != target ==> dlogits_spec(probs, target, n)[i] >= 0,
        i == target ==> dlogits_spec(probs, target, n)[i] <= 0,
        i == target && probs[target] < ONE ==> dlogits_spec(probs, target, n)[i] < 0,
{
    let pi = probs[i];
    assert(0 <= pi <= ONE);
    let di = if i == target { wsub(pi, ONE) } else { pi };
    assert(-ONE <= di <= ONE);
    lemma_shl12(di);
    let x = di as int * 4096;
    let big: int = ONE * 4096;
    if i == target {
        assert(di as int == pi - ONE);
        assert(-big <= x <= 0);
        let y = -x;
        vstd::arithmetic::div_mod::lemma_div_pos_is_pos(y, n);
        vstd::arithmetic::div_mod::lemma_div_is_ordered(y, big, n);
        vstd::arithmetic::div_mod::lemma_div_is_ordered_by_denominator(big, 1, n);
        assert(tdiv(x, n) == -(y / n));
        assert(y == (ONE - pi) * 4096);
        if pi < ONE {
            vstd::arithmetic::div_mod::lemma_div_is_ordered(4096, y, n);
            vstd::arithmetic::div_mod::lemma_div_is_ordered_by_denominator(4096, n, BLOCK as int);
            assert(4096int / (BLOCK as int) == 256);
        }
    } else {
        assert(0 <= x <= big);
        vstd::arithmetic::div_mod::lemma_div_pos_is_pos(x, n);
        vstd::arithmetic::div_mod::lemma_div_is_ordered(x, big, n);
        vstd::arithmetic::div_mod::lemma_div_is_ordered_by_denominator(big, 1, n);
        assert(tdiv(x, n) == x / n);
    }
}

/// Prefix form of the summation bound.
proof fn lemma_dlogits_sum(probs: Seq<Fx>, target: int, n: int, k: int)
    requires
        probs_ok(probs),
        0 <= target < VOCAB,
        1 <= n <= BLOCK,
        0 <= k <= VOCAB,
        forall|i: int| 0 <= i < VOCAB ==> #[trigger] dlogits_spec(probs, target, n)[i] as int == if i == target {
            -(((ONE - probs[target]) * 4096) / n)
        } else {
            (probs[i] * 4096) / n
        },
    ensures
        ({
            let d = dlogits_spec(probs, target, n);
            let y = int_sum(probs, k) * 4096 - (if target < k { ONE * 4096 } else { 0 });
            let m = if target < k { k - 1 } else { k };
            &&& y - m * (n - 1) <= n * int_sum(d, k)
            &&& n * int_sum(d, k) <= y + (if target < k { n - 1 } else { 0 })
        }),
    decreases k,
{
    if k > 0 {
        lemma_dlogits_sum(probs, target, n, k - 1);
        let d = dlogits_spec(probs, target, n);
        let i = k - 1;
        let pi = probs[i] as int;
        let di = d[i] as int;
        let x = if i == target { (ONE - pi) * 4096 } else { pi * 4096 };
        vstd::arithmetic::div_mod::lemma_fundamental_div_mod(x, n);
        vstd::arithmetic::div_mod::lemma_mod_bound(x, n);
        let q = x / n;
        assert(n * q <= x < n * q + n);
        if i == target {
            assert(di == -q);
            assert(-x <= n * di < -x + n) by (nonlinear_arith)
                requires
                    di == -q,
                    n * q <= x < n * q + n,
            ;
        } else {
            assert(di == q);
            assert(x - n < n * di <= x) by (nonlinear_arith)
                requires
                    di == q,
                    n * q <= x < n * q + n,
            ;
        }
        let sp0 = int_sum(probs, k - 1);
        let sd0 = int_sum(d, k - 1);
        assert(int_sum(probs, k) * 4096 == sp0 * 4096 + pi * 4096) by (nonlinear_arith)
            requires
                int_sum(probs, k) == sp0 + pi,
        ;
        assert(n * int_sum(d, k) == n * sd0 + n * di) by (nonlinear_arith)
            requires
                int_sum(d, k) == sd0 + di,
        ;
        let m0 = if target < k - 1 { k - 2 } else { k - 1 };
        let m = if target < k { k - 1 } else { k };
        if target == k - 1 {
            assert(m == m0);
        } else {
            assert(m == m0 + 1);
            assert(m * (n - 1) == m0 * (n - 1) + (n - 1)) by (nonlinear_arith)
                requires
                    m == m0 + 1,
            ;
        }
    }
}
/// Where the backward pass of one position sends gradient. It changes only
/// the gradient accumulators (and the cache gradients): every activation is
/// kept. Of the embeddings only the row of the position's token and the row
/// of its position receive gradient. An MLP unit whose pre-activation was
/// not positive passes no gradient to its input weights (the ReLU gate), and
/// a unit whose activation was zero contributes nothing to the output
/// weights that read it.
pub proof fn lemma_backward_gradient_routes(sv: ScratchV, w: Seq<Fx>, t: int, token: int, target: int, n: int)
    requires
        sv.grads.len() == N_PARAMS,
        0 <= t < BLOCK,
        0 <= token < VOCAB,
    ensures
        ({
            let b = backward_position_spec(sv, w, t, token, target, n);
            &&& b.grads.len() == N_PARAMS
            &&& (ScratchV { grads: sv.grads, dk: sv.dk, dv: sv.dv, ..b }) == sv
            &&& forall|p: int|
                WTE <= p < WPE && !(WTE + token * 16 <= p < WTE + token * 16 + 16) ==> #[trigger] b.grads[p] == sv.grads[p]
            &&& forall|p: int| WPE <= p < WQ && !(WPE + t * 16 <= p < WPE + t * 16 + 16) ==> #[trigger] b.grads[p] == sv.grads[p]
            &&& forall|i: int, c: int|
                0 <= i < MLP_DIM && 0 <= c < N_EMBD && sv.hpre[t][i] <= 0 ==> #[trigger] b.grads[W1 + i * 16 + c] == sv.grads[W1 + i * 16 + c]
            &&& forall|r: int, i: int|
                0 <= r < N_EMBD && 0 <= i < MLP_DIM && sv.h[t][i] == 0 ==> #[trigger] b.grads[W2 + r * 64 + i] == sv.grads[W2 + r * 64 + i]
        }),
{
    let b = backward_position_spec(sv, w, t, token, target, n);
    let dl = dlogits_spec(sv.probs[t], target, n);
    let sv1 = ScratchV { grads: outer_spec(sv.grads, LM as int, 27, 16, dl, sv.x3[t]), ..sv };
    let dx3 = linear_t_spec(w, LM as int, 27, 16, dl);
    let m = bwd_mlp_spec(sv1, w, t, dx3);
    let a = bwd_attn_spec(m.0, w, t, m.1);
    assert(b == bwd_embed_spec(a.0, t, token, a.1));
    assert((ScratchV { grads: sv.grads, dk: sv.dk, dv: sv.dv, ..b }) =~= sv);
    vstd::arithmetic::power2::lemma_pow2_pos(16);
    assert(shr(0, 16) == 0);
    assert forall|i: int, c: int|
        0 <= i < MLP_DIM && 0 <= c < N_EMBD && sv.hpre[t][i] <= 0 implies #[trigger] b.grads[W1 + i * 16 + c] == sv.grads[W1 + i * 16 + c] by {
        let p = W1 + i * 16 + c;
        vstd::arithmetic::div_mod::lemma_fundamental_div_mod_converse(i * 16 + c, 16, i, c);
        assert(p - W1 == i * 16 + c);
        assert(W1 <= p < W1 + 64 * 16);
        let xm = sv.xm[t];
        let y = shr(xm[c], 16) as int;
        assert(0 * y == 0);
    }
    assert forall|r: int, i: int|
        0 <= r < N_EMBD && 0 <= i < MLP_DIM && sv.h[t][i] == 0 implies #[trigger] b.grads[W2 + r * 64 + i] == sv.grads[W2 + r * 64 + i] by {
        let p = W2 + r * 64 + i;
        vstd::arithmetic::div_mod::lemma_fundamental_div_mod_converse(r * 64 + i, 64, r, i);
        assert(p - W2 == r * 64 + i);
        assert(W2 <= p < W2 + 16 * 64);
        let y = shr(dx3[r], 16) as int;
        assert(y * 0 == 0);
    }
}

} // verus!



