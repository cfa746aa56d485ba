//! What the forward pass and a training step read from the workspace.
//!
//! Position `t` of the forward pass reads only the key and value rows of
//! earlier positions and writes only its own rows; a training step reads
//! nothing that an earlier step left in the workspace, so its loss,
//! gradients and weight update are a function of the weights, the moments,
//! the document and the step alone.

use vstd::prelude::*;
use crate::fixed::Fx;
use crate::adam::{AdamParams, adam_w_range, adam_m_range, adam_v_range};
use crate::backprop::{
    fwd_loss_spec, fwd_run, zero_grads_spec, n_positions, valid_doc, dsum_spec, dscore_at, dq_col, dq_spec,
    dk_partial, dv_partial, bwd_attn_spec, bwd_mlp_spec, backward_position_spec, bwd_run,
    train_fwd_bwd_spec,
};
use crate::model::{
    ScratchV, BLOCK, VOCAB, N_EMBD, N_PARAMS, max_prefix, sum_prefix, softmax_exps, softmax_spec,
    head_out, scores_row, att_row, o_row, fwd_embed, fwd_attn, fwd_mlp, forward_pos_spec,
};

verus! {

/// Every per-position buffer has one entry per position and the attention
/// weights one row per position and head (`ScratchV::wf` without the row
/// lengths).
pub open spec fn shaped(a: ScratchV) -> bool {
    &&& a.x0.len() == BLOCK
    &&& a.x1.len() == BLOCK
    &&& a.xa.len() == BLOCK
    &&& a.q.len() == BLOCK
    &&& a.k.len() == BLOCK
    &&& a.v.len() == BLOCK
    &&& a.o.len() == BLOCK
    &&& a.x2.len() == BLOCK
    &&& a.xm.len() == BLOCK
    &&& a.x3.len() == BLOCK
    &&& a.hpre.len() == BLOCK
    &&& a.h.len() == BLOCK
    &&& a.probs.len() == BLOCK
    &&& a.s_emb.len() == BLOCK
    &&& a.s_att.len() == BLOCK
    &&& a.s_mlp.len() == BLOCK
    &&& a.att.len() == BLOCK * 4
}

/// Entries below `n` of two sequences are equal.
pub open spec fn agree_below(a: Seq<Fx>, b: Seq<Fx>, n: int) -> bool {
    forall|i: int| 0 <= i < n ==> a[i] == b[i]
}

proof fn lemma_max_prefix_agree(a: Seq<Fx>, b: Seq<Fx>, n: int)
    requires
        agree_below(a, b, n),
    ensures
        max_prefix(a, n) == max_prefix(b, n),
    decreases n,
{
    if n > 1 {
        lemma_max_prefix_agree(a, b, n - 1);
    }
}

proof fn lemma_sum_prefix_agree(a: Seq<Fx>, b: Seq<Fx>, n: int)
    requires
        agree_below(a, b, n),
    ensures
        sum_prefix(a, n) == sum_prefix(b, n),
    decreases n,
{
    if n > 0 {
        lemma_sum_prefix_agree(a, b, n - 1);
    }
}

/// A softmax over the first `n` entries reads only those entries.
proof fn lemma_softmax_agree(a: Seq<Fx>, b: Seq<Fx>, n: int)
    requires
        agree_below(a, b, n),
        n <= a.len(),
        n <= b.len(),
    ensures
        agree_below(softmax_spec(a, n), softmax_spec(b, n), n),
{
    lemma_max_prefix_agree(a, b, n);
    let ea = softmax_exps(a, n);
    let eb = softmax_exps(b, n);
    assert(agree_below(ea, eb, n));
    lemma_sum_prefix_agree(ea, eb, n);
}

/// A head's output over positions below `n` reads only those positions'
/// weights and value rows.
proof fn lemma_head_out_agree(a1: Seq<Fx>, a2: Seq<Fx>, v1: Seq<Seq<Fx>>, v2: Seq<Seq<Fx>>, c: int, n: int)
    requires
        agree_below(a1, a2, n),
        forall|p: int| 0 <= p < n ==> v1[p] == v2[p],
    ensures
        head_out(a1, v1, c, n) == head_out(a2, v2, c, n),
    decreases n,
{
    if n > 0 {
        lemma_head_out_agree(a1, a2, v1, v2, c, n - 1);
    }
}

/// The rows that position `t` of the forward pass writes agree in two
/// workspaces: every per-position row `t`, and the attention weights of
/// position `t` over positions up to `t`.
pub open spec fn row_t_agree(a: ScratchV, b: ScratchV, t: int) -> bool {
    &&& a.x0[t] == b.x0[t]
    &&& a.x1[t] == b.x1[t]
    &&& a.xa[t] == b.xa[t]
    &&& a.q[t] == b.q[t]
    &&& a.k[t] == b.k[t]
    &&& a.v[t] == b.v[t]
    &&& a.o[t] == b.o[t]
    &&& a.x2[t] == b.x2[t]
    &&& a.xm[t] == b.xm[t]
    &&& a.x3[t] == b.x3[t]
    &&& a.hpre[t] == b.hpre[t]
    &&& a.h[t] == b.h[t]
    &&& a.s_emb[t] == b.s_emb[t]
    &&& a.s_att[t] == b.s_att[t]
    &&& a.s_mlp[t] == b.s_mlp[t]
    &&& forall|h: int, p: int| 0 <= h < 4 && 0 <= p <= t ==> #[trigger] a.att[t * 4 + h][p] == b.att[t * 4 + h][p]
}

/// Causality of the forward pass: position `t` reads, of the workspace,
/// only the key and value rows of the positions before `t`. Two workspaces
/// that agree there give the same logits and write the same rows at `t`.
pub proof fn lemma_forward_pos_causal(a: ScratchV, b: ScratchV, w: Seq<Fx>, t: int, token: int)
    requires
        shaped(a),
        shaped(b),
        0 <= t < BLOCK,
        0 <= token < VOCAB,
        forall|p: int| 0 <= p < t ==> a.k[p] == b.k[p] && a.v[p] == b.v[p],
    ensures
        forward_pos_spec(a, w, t, token).1 == forward_pos_spec(b, w, t, token).1,
        row_t_agree(forward_pos_spec(a, w, t, token).0, forward_pos_spec(b, w, t, token).0, t),
{
    reveal(forward_pos_spec);
    let ea = fwd_embed(a, w, t, token);
    let eb = fwd_embed(b, w, t, token);
    assert(ea.q[t] == eb.q[t]);
    assert forall|p: int| 0 <= p <= t implies ea.k[p] == eb.k[p] && ea.v[p] == eb.v[p] by {
        if p < t {
            assert(ea.k[p] == a.k[p]);
            assert(eb.k[p] == b.k[p]);
            assert(ea.v[p] == a.v[p]);
            assert(eb.v[p] == b.v[p]);
        }
    }
    assert forall|h: int| 0 <= h < 4 implies agree_below(att_row(ea, t, h), att_row(eb, t, h), t + 1) by {
        let sa = scores_row(ea, t, h);
        let sb = scores_row(eb, t, h);
        assert(agree_below(sa, sb, t + 1));
        lemma_softmax_agree(sa, sb, t + 1);
    }
    assert forall|c: int| 0 <= c < N_EMBD implies o_row(ea, t)[c] == o_row(eb, t)[c] by {
        lemma_head_out_agree(att_row(ea, t, c / 4), att_row(eb, t, c / 4), ea.v, eb.v, c, t + 1);
    }
    assert(o_row(ea, t) =~= o_row(eb, t));
    let aa = fwd_attn(ea, t);
    let ab = fwd_attn(eb, t);
    assert(aa.o[t] == ab.o[t]);
    assert(aa.x1[t] == ab.x1[t]);
    let ma = fwd_mlp(aa, w, t);
    let mb = fwd_mlp(ab, w, t);
    assert forall|h: int, p: int| 0 <= h < 4 && 0 <= p <= t implies #[trigger] ma.0.att[t * 4 + h][p] == mb.0.att[t * 4 + h][p] by {
        assert(ma.0.att[t * 4 + h] == att_row(ea, t, h));
        assert(mb.0.att[t * 4 + h] == att_row(eb, t, h));
    }
}

/// Row `r` of every per-position buffer is the same in `a` and `b`.
pub open spec fn row_kept(a: ScratchV, b: ScratchV, r: int) -> bool {
    &&& a.x0[r] == b.x0[r]
    &&& a.x1[r] == b.x1[r]
    &&& a.xa[r] == b.xa[r]
    &&& a.q[r] == b.q[r]
    &&& a.k[r] == b.k[r]
    &&& a.v[r] == b.v[r]
    &&& a.o[r] == b.o[r]
    &&& a.x2[r] == b.x2[r]
    &&& a.xm[r] == b.xm[r]
    &&& a.x3[r] == b.x3[r]
    &&& a.hpre[r] == b.hpre[r]
    &&& a.h[r] == b.h[r]
    &&& a.s_emb[r] == b.s_emb[r]
    &&& a.s_att[r] == b.s_att[r]
    &&& a.s_mlp[r] == b.s_mlp[r]
}

/// Frame of the forward pass: position `t` changes only its own rows and
/// the attention weights of position `t` over positions up to `t`. The
/// probabilities, gradients and cache gradients are untouched.
pub proof fn lemma_forward_pos_frame(a: ScratchV, w: Seq<Fx>, t: int, token: int)
    requires
        shaped(a),
        0 <= t < BLOCK,
        0 <= token < VOCAB,
    ensures
        ({
            let f = forward_pos_spec(a, w, t, token).0;
            &&& f.probs == a.probs
            &&& f.grads == a.grads
            &&& f.dk == a.dk
            &&& f.dv == a.dv
            &&& forall|r: int| 0 <= r < BLOCK && r != t ==> #[trigger] row_kept(f, a, r)
            &&& forall|r: int| 0 <= r < BLOCK * 4 && !(t * 4 <= r < t * 4 + 4) ==> #[trigger] f.att[r] == a.att[r]
            &&& forall|h: int, p: int| 0 <= h < 4 && t < p < BLOCK ==> #[trigger] f.att[t * 4 + h][p] == a.att[t * 4 + h][p]
        }),
{
    reveal(forward_pos_spec);
    let e = fwd_embed(a, w, t, token);
    let f = forward_pos_spec(a, w, t, token).0;
    assert forall|r: int| 0 <= r < BLOCK && r != t implies #[trigger] row_kept(f, a, r) by {}
    assert forall|h: int, p: int| 0 <= h < 4 && t < p < BLOCK implies #[trigger] f.att[t * 4 + h][p] == a.att[t * 4 + h][p] by {
        assert(f.att[t * 4 + h] == att_row(e, t, h));
        assert(scores_row(e, t, h)[p] == a.att[t * 4 + h][p]);
    }
}

/// Two workspaces agree on everything that positions below `k` wrote in a
/// forward pass, and on the gradient accumulators.
pub open spec fn fwd_agree(a: ScratchV, b: ScratchV, k: int) -> bool {
    &&& a.grads == b.grads
    &&& a.dk == b.dk
    &&& a.dv == b.dv
    &&& forall|r: int| 0 <= r < k ==> #[trigger] row_kept(a, b, r) && a.probs[r] == b.probs[r]
    &&& forall|r: int, h: int, p: int|
        0 <= r < k && 0 <= h < 4 && 0 <= p <= r ==> #[trigger] a.att[r * 4 + h][p] == b.att[r * 4 + h][p]
}

proof fn lemma_fwd_loss_agree(a: ScratchV, b: ScratchV, w: Seq<Fx>, t: int, token: int, target: int)
    requires
        shaped(a),
        shaped(b),
        fwd_agree(a, b, t),
        0 <= t < BLOCK,
        0 <= token < VOCAB,
        0 <= target < VOCAB,
    ensures
        shaped(fwd_loss_spec(a, w, t, token, target).0),
        shaped(fwd_loss_spec(b, w, t, token, target).0),
        fwd_agree(fwd_loss_spec(a, w, t, token, target).0, fwd_loss_spec(b, w, t, token, target).0, t + 1),
        fwd_loss_spec(a, w, t, token, target).1 == fwd_loss_spec(b, w, t, token, target).1,
{
    assert forall|p: int| 0 <= p < t implies a.k[p] == b.k[p] && a.v[p] == b.v[p] by {
        assert(row_kept(a, b, p));
    }
    lemma_forward_pos_causal(a, b, w, t, token);
    lemma_forward_pos_frame(a, w, t, token);
    lemma_forward_pos_frame(b, w, t, token);
    reveal(forward_pos_spec);
    let pa = forward_pos_spec(a, w, t, token);
    let pb = forward_pos_spec(b, w, t, token);
    let fa = fwd_loss_spec(a, w, t, token, target).0;
    let fb = fwd_loss_spec(b, w, t, token, target).0;
    assert forall|r: int| 0 <= r < t + 1 implies #[trigger] row_kept(fa, fb, r) && fa.probs[r] == fb.probs[r] by {
        if r < t {
            assert(row_kept(pa.0, a, r));
            assert(row_kept(pb.0, b, r));
            assert(row_kept(a, b, r));
        }
    }
    assert forall|r: int, h: int, p: int|
        0 <= r < t + 1 && 0 <= h < 4 && 0 <= p <= r implies #[trigger] fa.att[r * 4 + h][p] == fb.att[r * 4 + h][p] by {
        if r < t {
            assert(pa.0.att[r * 4 + h] == a.att[r * 4 + h]);
            assert(pb.0.att[r * 4 + h] == b.att[r * 4 + h]);
            assert(a.att[r * 4 + h][p] == b.att[r * 4 + h][p]);
        }
    }
}

proof fn lemma_fwd_run_agree(a: ScratchV, b: ScratchV, w: Seq<Fx>, toks: Seq<u8>, k: int)
    requires
        a.wf(),
        b.wf(),
        valid_doc(toks),
        0 <= k <= n_positions(toks.len() as int),
    ensures
        shaped(fwd_run(a, w, toks, k).0),
        shaped(fwd_run(b, w, toks, k).0),
        fwd_agree(fwd_run(a, w, toks, k).0, fwd_run(b, w, toks, k).0, k),
        fwd_run(a, w, toks, k).1 == fwd_run(b, w, toks, k).1,
    decreases k,
{
    if k <= 0 {
        let za = zero_grads_spec(a);
        let zb = zero_grads_spec(b);
        assert(za.grads =~= zb.grads);
        assert(za.dk =~= zb.dk);
        assert(za.dv =~= zb.dv);
    } else {
        lemma_fwd_run_agree(a, b, w, toks, k - 1);
        lemma_fwd_loss_agree(
            fwd_run(a, w, toks, k - 1).0,
            fwd_run(b, w, toks, k - 1).0,
            w,
            k - 1,
            toks[k - 1] as int,
            toks[k] as int,
        );
    }
}

proof fn lemma_dsum_agree(
    a1: Seq<Fx>,
    a2: Seq<Fx>,
    v1: Seq<Seq<Fx>>,
    v2: Seq<Seq<Fx>>,
    do_: Seq<Fx>,
    h: int,
    n: int,
)
    requires
        agree_below(a1, a2, n),
        forall|p: int| 0 <= p < n ==> v1[p] == v2[p],
    ensures
        dsum_spec(a1, v1, do_, h, n) == dsum_spec(a2, v2, do_, h, n),
    decreases n,
{
    if n > 0 {
        lemma_dsum_agree(a1, a2, v1, v2, do_, h, n - 1);
    }
}

/// The score gradient of position `t` reads only rows up to `t`.
proof fn lemma_dscore_agree(a: ScratchV, b: ScratchV, do_: Seq<Fx>, t: int, n: int)
    requires
        fwd_agree(a, b, n),
        0 <= t < n,
    ensures
        forall|c: int, p: int| 0 <= c < N_EMBD && 0 <= p <= t ==> #[trigger] dscore_at(a, do_, t, c, p) == dscore_at(b, do_, t, c, p),
{
    assert forall|p: int| 0 <= p < t + 1 implies a.v[p] == b.v[p] by {
        assert(row_kept(a, b, p));
    }
    assert forall|c: int, p: int| 0 <= c < N_EMBD && 0 <= p <= t implies #[trigger] dscore_at(a, do_, t, c, p) == dscore_at(b, do_, t, c, p) by {
        let h = c / 4;
        assert(0 <= h < 4);
        let a1 = a.att[t * 4 + h];
        let a2 = b.att[t * 4 + h];
        assert forall|i: int| 0 <= i < t + 1 implies a1[i] == a2[i] by {
            assert(a.att[t * 4 + h][i] == b.att[t * 4 + h][i]);
        }
        lemma_dsum_agree(a1, a2, a.v, b.v, do_, h, t + 1);
        assert(a.att[t * 4 + h][p] == b.att[t * 4 + h][p]);
    }
}

proof fn lemma_dq_col_agree(a: ScratchV, b: ScratchV, do_: Seq<Fx>, t: int, c: int, m: int, n: int)
    requires
        fwd_agree(a, b, n),
        0 <= t < n,
        0 <= c < N_EMBD,
        m <= t + 1,
        forall|c: int, p: int| 0 <= c < N_EMBD && 0 <= p <= t ==> #[trigger] dscore_at(a, do_, t, c, p) == dscore_at(b, do_, t, c, p),
    ensures
        dq_col(a, do_, t, c, m) == dq_col(b, do_, t, c, m),
    decreases m,
{
    if m > 0 {
        lemma_dq_col_agree(a, b, do_, t, c, m - 1, n);
        assert(row_kept(a, b, m - 1));
        assert(dscore_at(a, do_, t, c, m - 1) == dscore_at(b, do_, t, c, m - 1));
    }
}

/// Attention backward of position `t` reads only what positions up to `t`
/// wrote in the forward pass, and the accumulators.
proof fn lemma_bwd_attn_agree(a: ScratchV, b: ScratchV, w: Seq<Fx>, t: int, dx2: Seq<Fx>, n: int)
    requires
        fwd_agree(a, b, n),
        0 <= t < n,
    ensures
        fwd_agree(bwd_attn_spec(a, w, t, dx2).0, bwd_attn_spec(b, w, t, dx2).0, n),
        bwd_attn_spec(a, w, t, dx2).1 == bwd_attn_spec(b, w, t, dx2).1,
{
    assert(row_kept(a, b, t));
    let do_ = crate::model::linear_t_spec(w, crate::model::WO as int, 16, 16, dx2);
    lemma_dscore_agree(a, b, do_, t, n);
    assert forall|c: int| 0 <= c < N_EMBD implies dq_spec(a, do_, t)[c] == dq_spec(b, do_, t)[c] by {
        lemma_dq_col_agree(a, b, do_, t, c, t + 1, n);
    }
    assert(dq_spec(a, do_, t) =~= dq_spec(b, do_, t));
    let ka = dk_partial(a, do_, t, 4);
    let kb = dk_partial(b, do_, t, 4);
    assert forall|p: int| 0 <= p < ka.len() implies ka[p] == kb[p] by {
        if p <= t {
            assert forall|c: int| 0 <= c < N_EMBD implies ka[p][c] == kb[p][c] by {
                assert(dscore_at(a, do_, t, c, p) == dscore_at(b, do_, t, c, p));
            }
            assert(ka[p] =~= kb[p]);
        }
    }
    assert(ka =~= kb);
    let va = dv_partial(a, do_, t, 4);
    let vb = dv_partial(b, do_, t, 4);
    assert forall|p: int| 0 <= p < va.len() implies va[p] == vb[p] by {
        if p <= t {
            assert forall|c: int| 0 <= c < N_EMBD implies va[p][c] == vb[p][c] by {
                let h = c / 4;
                assert(0 <= h < 4);
                assert(a.att[t * 4 + h][p] == b.att[t * 4 + h][p]);
            }
            assert(va[p] =~= vb[p]);
        }
    }
    assert(va =~= vb);
    let ra = bwd_attn_spec(a, w, t, dx2);
    let rb = bwd_attn_spec(b, w, t, dx2);
    assert forall|r: int| 0 <= r < n implies #[trigger] row_kept(ra.0, rb.0, r) && ra.0.probs[r] == rb.0.probs[r] by {
        assert(row_kept(a, b, r));
    }
    assert forall|r: int, h: int, p: int|
        0 <= r < n && 0 <= h < 4 && 0 <= p <= r implies #[trigger] ra.0.att[r * 4 + h][p] == rb.0.att[r * 4 + h][p] by {
        assert(a.att[r * 4 + h][p] == b.att[r * 4 + h][p]);
    }
}

proof fn lemma_backward_position_agree(a: ScratchV, b: ScratchV, w: Seq<Fx>, t: int, token: int, target: int, n: int)
    requires
        fwd_agree(a, b, n),
        0 <= t < n,
    ensures
        fwd_agree(backward_position_spec(a, w, t, token, target, n), backward_position_spec(b, w, t, token, target, n), n),
{
    assert(row_kept(a, b, t));
    let dl = crate::backprop::dlogits_spec(a.probs[t], target, n);
    let sa = ScratchV { grads: crate::model::outer_spec(a.grads, crate::model::LM as int, 27, 16, dl, a.x3[t]), ..a };
    let sb = ScratchV { grads: crate::model::outer_spec(b.grads, crate::model::LM as int, 27, 16, dl, b.x3[t]), ..b };
    let dx3 = crate::model::linear_t_spec(w, crate::model::LM as int, 27, 16, dl);
    let ma = bwd_mlp_spec(sa, w, t, dx3);
    let mb = bwd_mlp_spec(sb, w, t, dx3);
    assert(fwd_agree(ma.0, mb.0, n)) by {
        assert forall|r: int| 0 <= r < n implies #[trigger] row_kept(ma.0, mb.0, r) && ma.0.probs[r] == mb.0.probs[r] by {
            assert(row_kept(a, b, r));
        }
        assert forall|r: int, h: int, p: int|
            0 <= r < n && 0 <= h < 4 && 0 <= p <= r implies #[trigger] ma.0.att[r * 4 + h][p] == mb.0.att[r * 4 + h][p] by {
            assert(a.att[r * 4 + h][p] == b.att[r * 4 + h][p]);
        }
    }
    lemma_bwd_attn_agree(ma.0, mb.0, w, t, ma.1, n);
    let aa = bwd_attn_spec(ma.0, w, t, ma.1);
    let ab = bwd_attn_spec(mb.0, w, t, mb.1);
    assert(row_kept(aa.0, ab.0, t));
    let ea = backward_position_spec(a, w, t, token, target, n);
    let eb = backward_position_spec(b, w, t, token, target, n);
    assert(ea.grads =~= eb.grads);
    assert forall|r: int| 0 <= r < n implies #[trigger] row_kept(ea, eb, r) && ea.probs[r] == eb.probs[r] by {
        assert(row_kept(aa.0, ab.0, r));
    }
    assert forall|r: int, h: int, p: int|
        0 <= r < n && 0 <= h < 4 && 0 <= p <= r implies #[trigger] ea.att[r * 4 + h][p] == eb.att[r * 4 + h][p] by {
        assert(aa.0.att[r * 4 + h][p] == ab.0.att[r * 4 + h][p]);
    }
}

proof fn lemma_bwd_run_agree(a: ScratchV, b: ScratchV, w: Seq<Fx>, toks: Seq<u8>, k: int, n: int)
    requires
        fwd_agree(a, b, n),
        0 <= k <= n,
    ensures
        fwd_agree(bwd_run(a, w, toks, k, n), bwd_run(b, w, toks, k, n), n),
    decreases k,
{
    if k > 0 {
        lemma_backward_position_agree(a, b, w, k - 1, toks[k - 1] as int, toks[k] as int, n);
        lemma_bwd_run_agree(
            backward_position_spec(a, w, k - 1, toks[k - 1] as int, toks[k] as int, n),
            backward_position_spec(b, w, k - 1, toks[k - 1] as int, toks[k] as int, n),
            w,
            toks,
            k - 1,
            n,
        );
    }
}

/// A training step reads nothing that an earlier step left in the
/// workspace: from any two well-formed workspaces, forward and backward
/// over one document give the same mean loss and the same gradients (and
/// cache gradients), so the Adam update that follows is the same too.
pub proof fn lemma_train_fwd_bwd_ignores_workspace(s1: ScratchV, s2: ScratchV, w: Seq<Fx>, toks: Seq<u8>)
    requires
        s1.wf(),
        s2.wf(),
        valid_doc(toks),
    ensures
        train_fwd_bwd_spec(s1, w, toks).1 == train_fwd_bwd_spec(s2, w, toks).1,
        train_fwd_bwd_spec(s1, w, toks).0.grads == train_fwd_bwd_spec(s2, w, toks).0.grads,
        train_fwd_bwd_spec(s1, w, toks).0.dk == train_fwd_bwd_spec(s2, w, toks).0.dk,
        train_fwd_bwd_spec(s1, w, toks).0.dv == train_fwd_bwd_spec(s2, w, toks).0.dv,
{
    let n = n_positions(toks.len() as int);
    lemma_fwd_run_agree(s1, s2, w, toks, n);
    lemma_bwd_run_agree(fwd_run(s1, w, toks, n).0, fwd_run(s2, w, toks, n).0, w, toks, n, n);
}

/// The weight update of a training step does not depend on the workspace
/// either: from two well-formed workspaces, `train_doc` leaves the same
/// parameters and moments (its contract applies Adam to the gradients of
/// `train_fwd_bwd_spec` with parameters `p`).
pub proof fn lemma_train_doc_ignores_workspace(
    s1: ScratchV,
    s2: ScratchV,
    w: Seq<Fx>,
    m: Seq<Fx>,
    v: Seq<Fx>,
    toks: Seq<u8>,
    p: AdamParams,
)
    requires
        s1.wf(),
        s2.wf(),
        valid_doc(toks),
    ensures
        ({
            let g1 = train_fwd_bwd_spec(s1, w, toks).0.grads;
            let g2 = train_fwd_bwd_spec(s2, w, toks).0.grads;
            &&& adam_w_range(w, m, v, g1, 0, N_PARAMS as int, p) == adam_w_range(w, m, v, g2, 0, N_PARAMS as int, p)
            &&& adam_m_range(m, g1, 0, N_PARAMS as int) == adam_m_range(m, g2, 0, N_PARAMS as int)
            &&& adam_v_range(v, g1, 0, N_PARAMS as int) == adam_v_range(v, g2, 0, N_PARAMS as int)
        }),
{
    lemma_train_fwd_bwd_ignores_workspace(s1, s2, w, toks);
}

} // verus!
