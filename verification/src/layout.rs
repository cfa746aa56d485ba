//! Byte layouts of the program accounts: little-endian fields at fixed
//! offsets (the `#[repr(C)]` images the accounts hold), decoded into the
//! library's types and encoded back.

use vstd::prelude::*;
use crate::instruction::{le_value, byte_pow, lemma_byte_pow_pos, lemma_byte_pow_facts, lemma_le_bound};
use crate::fixed::Fx;
use crate::state::{ModelHeader, HeaderV, DocsHeader, GenLogHeader, GenRecord, MODEL_HEADER_LEN, LOSS_RING_LEN, DOCS_HEADER_LEN, GENLOG_HEADER_LEN, GEN_RECORD_LEN};
use crate::program::DocSet;
use crate::generation::GenLog;
use crate::model::{Weights, Moments, Scratch, ScratchV, rows, is_mat, N_PARAMS, N_EMBD, BLOCK, N_HEAD, MLP_DIM, VOCAB};

verus! {

/// The `n` little-endian bytes of `v` (modulo 256^n).
pub open spec fn le_bytes(v: nat, n: nat) -> Seq<u8>
    decreases n,
{
    if n == 0 {
        seq![]
    } else {
        seq![(v % 256) as u8] + le_bytes(v / 256, (n - 1) as nat)
    }
}

/// Encoding then decoding `n` bytes keeps the value modulo 256^n.
pub proof fn lemma_le_bytes_value(v: nat, n: nat)
    ensures
        le_bytes(v, n).len() == n,
        le_value(le_bytes(v, n)) == (v as int) % byte_pow(n),
    decreases n,
{
    if n > 0 {
        lemma_le_bytes_value(v / 256, (n - 1) as nat);
        let s = le_bytes(v, n);
        assert(s.subrange(1, s.len() as int) =~= le_bytes(v / 256, (n - 1) as nat));
        lemma_byte_pow_pos((n - 1) as nat);
        vstd::arithmetic::div_mod::lemma_mod_breakdown(v as int, 256, byte_pow((n - 1) as nat));
    } else {
        assert(v % 1 == 0);
    }
}

/// Decoding then encoding gives the bytes back.
pub proof fn lemma_le_value_bytes(s: Seq<u8>)
    ensures
        le_bytes(le_value(s) as nat, s.len()) == s,
    decreases s.len(),
{
    lemma_le_bound(s);
    if s.len() > 0 {
        let t = s.subrange(1, s.len() as int);
        lemma_le_value_bytes(t);
        lemma_le_bound(t);
        let v = le_value(s);
        assert(v == s[0] + 256 * le_value(t));
        assert(v % 256 == s[0]) by (nonlinear_arith)
            requires
                v == s[0] + 256 * le_value(t),
                0 <= s[0] < 256,
                le_value(t) >= 0,
        ;
        assert(v / 256 == le_value(t)) by (nonlinear_arith)
            requires
                v == s[0] + 256 * le_value(t),
                0 <= s[0] < 256,
                le_value(t) >= 0,
        ;
        assert(le_bytes(v as nat, s.len()) =~= s);
    } else {
        assert(le_bytes(le_value(s) as nat, 0) =~= s);
    }
}

/// The first `i + 1` bytes extend the first `i` by byte `i`.
proof fn lemma_le_bytes_push(v: nat, i: nat)
    ensures
        le_bytes(v, i + 1) == le_bytes(v, i).push((((v as int) / byte_pow(i)) % 256) as u8),
    decreases i,
{
    lemma_byte_pow_pos(i);
    if i > 0 {
        lemma_le_bytes_push(v / 256, (i - 1) as nat);
        lemma_byte_pow_pos((i - 1) as nat);
        vstd::arithmetic::div_mod::lemma_div_denominator(v as int, 256, byte_pow((i - 1) as nat));
        assert(le_bytes(v, i + 1) =~= le_bytes(v, i).push((((v as int) / byte_pow(i)) % 256) as u8));
    } else {
        assert(byte_pow(0) == 1);
        assert(le_bytes(v / 256, 0) =~= Seq::<u8>::empty());
        assert(le_bytes(v, 1) =~= le_bytes(v, 0).push((((v as int) / byte_pow(0)) % 256) as u8));
    }
}

/// u64 at byte offset `off`.
pub open spec fn u64_at(b: Seq<u8>, off: int) -> u64 {
    le_value(b.subrange(off, off + 8)) as u64
}

/// i64 (two's complement) at byte offset `off`.
pub open spec fn i64_at(b: Seq<u8>, off: int) -> i64 {
    u64_at(b, off) as i64
}

/// The eight bytes of a u64.
pub open spec fn u64_bytes(v: u64) -> Seq<u8> {
    le_bytes(v as nat, 8)
}

/// The eight bytes of an i64.
pub open spec fn i64_bytes(v: i64) -> Seq<u8> {
    u64_bytes(v as u64)
}

/// The bytes of a u64 decode to it.
pub proof fn lemma_u64_roundtrip(v: u64)
    ensures
        u64_bytes(v).len() == 8,
        le_value(u64_bytes(v)) == v,
{
    lemma_le_bytes_value(v as nat, 8);
    lemma_byte_pow_facts(8);
}

/// The bytes of an i64 decode to it.
pub proof fn lemma_i64_roundtrip(v: i64)
    ensures
        i64_bytes(v).len() == 8,
        le_value(i64_bytes(v)) as u64 as i64 == v,
{
    lemma_u64_roundtrip(v as u64);
    assert(((v as u64) as i64) == v) by (bit_vector);
}

/// Read the u64 at `off`.
pub fn read_u64(b: &[u8], off: usize) -> (r: u64)
    requires
        off + 8 <= b@.len(),
    ensures
        r == u64_at(b@, off as int),
{
    let n = b.len();
    let mut acc: u64 = 0;
    let mut i: usize = 8;
    proof {
        lemma_le_bound(b@.subrange(off as int, off + 8));
        lemma_byte_pow_facts(8);
    }
    while i > 0
        invariant
            i <= 8,
            off + 8 <= b@.len(),
            n == b@.len(),
            acc as int == le_value(b@.subrange(off + i, off + 8)),
            acc as int <= u64::MAX,
        decreases i,
    {
        i = i - 1;
        let ghost s = b@.subrange(off + i, off + 8);
        proof {
            assert(s.subrange(1, s.len() as int) =~= b@.subrange(off + i + 1, off + 8));
            lemma_le_bound(s);
            lemma_byte_pow_facts((8 - i) as nat);
        }
        acc = (b[off + i] as u64) + 256 * acc;
    }
    acc
}

/// Read the i64 at `off`.
pub fn read_i64(b: &[u8], off: usize) -> (r: i64)
    requires
        off + 8 <= b@.len(),
    ensures
        r == i64_at(b@, off as int),
{
    read_u64(b, off) as i64
}

/// Append the bytes of a u64.
pub fn put_u64(out: &mut Vec<u8>, v: u64)
    ensures
        final(out)@ == old(out)@ + u64_bytes(v),
{
    let ghost o0 = out@;
    let mut x = v;
    let mut i: usize = 0;
    proof {
        assert(o0 + le_bytes(v as nat, 0) =~= o0);
        lemma_byte_pow_facts(0);
    }
    while i < 8
        invariant
            i <= 8,
            out@ == o0 + le_bytes(v as nat, i as nat),
            x as int == (v as int) / byte_pow(i as nat),
        decreases 8 - i,
    {
        proof {
            lemma_le_bytes_push(v as nat, i as nat);
            lemma_byte_pow_pos(i as nat);
            vstd::arithmetic::div_mod::lemma_div_denominator(v as int, byte_pow(i as nat), 256);
            vstd::arithmetic::mul::lemma_mul_is_commutative(byte_pow(i as nat), 256);
        }
        out.push((x % 256) as u8);
        x = x / 256;
        i = i + 1;
        assert(out@ =~= o0 + le_bytes(v as nat, i as nat));
    }
}

/// Append the bytes of an i64.
pub fn put_i64(out: &mut Vec<u8>, v: i64)
    ensures
        final(out)@ == old(out)@ + i64_bytes(v),
{
    put_u64(out, v as u64);
}

/// The bytes of a run of i64s, in order.
pub open spec fn i64s_bytes(v: Seq<i64>) -> Seq<u8>
    decreases v.len(),
{
    if v.len() == 0 {
        seq![]
    } else {
        i64s_bytes(v.drop_last()) + i64_bytes(v.last())
    }
}

/// The `n` i64s stored from byte offset `off`.
pub open spec fn i64s_at(b: Seq<u8>, off: int, n: int) -> Seq<i64> {
    Seq::new(n as nat, |i: int| i64_at(b, off + 8 * i))
}

/// Value `i` of a run occupies bytes `8i .. 8i + 8` of its encoding.
pub proof fn lemma_i64s_bytes(v: Seq<i64>)
    ensures
        i64s_bytes(v).len() == 8 * v.len(),
        forall|i: int| 0 <= i < v.len() ==> #[trigger] i64s_bytes(v).subrange(8 * i, 8 * i + 8) == i64_bytes(v[i]),
    decreases v.len(),
{
    if v.len() > 0 {
        let p = v.drop_last();
        lemma_i64s_bytes(p);
        lemma_i64_roundtrip(v.last());
        let whole = i64s_bytes(v);
        assert forall|i: int| 0 <= i < v.len() implies #[trigger] whole.subrange(8 * i, 8 * i + 8) == i64_bytes(v[i]) by {
            if i < p.len() {
                assert(whole.subrange(8 * i, 8 * i + 8) =~= i64s_bytes(p).subrange(8 * i, 8 * i + 8));
            } else {
                assert(whole.subrange(8 * i, 8 * i + 8) =~= i64_bytes(v.last()));
            }
        }
    }
}

/// Decoding an encoded run gives it back.
pub proof fn lemma_i64s_decode(v: Seq<i64>)
    ensures
        i64s_at(i64s_bytes(v), 0, v.len() as int) == v,
{
    lemma_i64s_bytes(v);
    assert forall|i: int| 0 <= i < v.len() implies #[trigger] i64s_at(i64s_bytes(v), 0, v.len() as int)[i] == v[i] by {
        assert(i64s_bytes(v).subrange(8 * i, 8 * i + 8) == i64_bytes(v[i]));
        lemma_i64_roundtrip(v[i]);
    }
    assert(i64s_at(i64s_bytes(v), 0, v.len() as int) =~= v);
}

/// Re-encoding one decoded i64 rewrites its bytes.
pub proof fn lemma_i64_reencode(b: Seq<u8>, off: int)
    requires
        0 <= off,
        off + 8 <= b.len(),
    ensures
        i64_bytes(i64_at(b, off)) == b.subrange(off, off + 8),
{
    let s = b.subrange(off, off + 8);
    lemma_le_bound(s);
    lemma_byte_pow_facts(8);
    lemma_le_value_bytes(s);
    let y = le_value(s) as u64;
    assert(((y as i64) as u64) == y) by (bit_vector);
}

/// Re-encoding one decoded u64 rewrites its bytes.
pub proof fn lemma_u64_reencode(b: Seq<u8>, off: int)
    requires
        0 <= off,
        off + 8 <= b.len(),
    ensures
        u64_bytes(u64_at(b, off)) == b.subrange(off, off + 8),
{
    let s = b.subrange(off, off + 8);
    lemma_le_bound(s);
    lemma_byte_pow_facts(8);
    lemma_le_value_bytes(s);
}

/// Re-encoding a decoded run rewrites its bytes.
pub proof fn lemma_i64s_reencode(b: Seq<u8>, off: int, n: int)
    requires
        0 <= off,
        0 <= n,
        off + 8 * n <= b.len(),
    ensures
        i64s_bytes(i64s_at(b, off, n)) == b.subrange(off, off + 8 * n),
    decreases n,
{
    if n > 0 {
        lemma_i64s_reencode(b, off, n - 1);
        assert(i64s_at(b, off, n).drop_last() =~= i64s_at(b, off, n - 1));
        lemma_i64_reencode(b, off + 8 * (n - 1));
        assert(b.subrange(off, off + 8 * n) =~= b.subrange(off, off + 8 * (n - 1)) + b.subrange(off + 8 * (n - 1), off + 8 * n));
    } else {
        assert(b.subrange(off, off) =~= Seq::<u8>::empty());
    }
}

/// Read `n` i64s from byte offset `off`.
pub fn read_i64s(b: &[u8], off: usize, n: usize) -> (r: Vec<i64>)
    requires
        off + 8 * n <= b@.len(),
    ensures
        r@ == i64s_at(b@, off as int, n as int),
{
    let blen = b.len();
    let mut r: Vec<i64> = Vec::new();
    let mut i: usize = 0;
    while i < n
        invariant
            i <= n,
            off + 8 * n <= b@.len(),
            blen == b@.len(),
            r@ == i64s_at(b@, off as int, i as int),
        decreases n - i,
    {
        let x = read_i64(b, off + 8 * i);
        r.push(x);
        i = i + 1;
        assert(r@ =~= i64s_at(b@, off as int, i as int));
    }
    r
}

/// Append the bytes of a run of i64s.
pub fn put_i64s(out: &mut Vec<u8>, v: &[i64])
    ensures
        final(out)@ == old(out)@ + i64s_bytes(v@),
{
    let ghost o0 = out@;
    let mut i: usize = 0;
    assert(o0 + i64s_bytes(v@.subrange(0, 0)) =~= o0);
    while i < v.len()
        invariant
            i <= v@.len(),
            out@ == o0 + i64s_bytes(v@.subrange(0, i as int)),
        decreases v@.len() - i,
    {
        put_i64(out, v[i]);
        i = i + 1;
        assert(v@.subrange(0, i as int).drop_last() =~= v@.subrange(0, i as int - 1));
        assert(out@ =~= o0 + i64s_bytes(v@.subrange(0, i as int)));
    }
    assert(v@.subrange(0, v@.len() as int) =~= v@);
}

/// Append `b[from .. to]`.
pub fn put_bytes(out: &mut Vec<u8>, b: &[u8], from: usize, to: usize)
    requires
        from <= to <= b@.len(),
    ensures
        final(out)@ == old(out)@ + b@.subrange(from as int, to as int),
{
    let ghost o0 = out@;
    let mut i = from;
    while i < to
        invariant
            from <= i <= to <= b@.len(),
            out@ == o0 + b@.subrange(from as int, i as int),
        decreases to - i,
    {
        out.push(b[i]);
        i = i + 1;
        assert(out@ =~= o0 + b@.subrange(from as int, i as int));
    }
}

// -- Model header ----------------------------------------------------------------

/// The header stored at the front of the model account's bytes.
pub open spec fn header_view(b: Seq<u8>) -> HeaderV {
    HeaderV {
        magic: b.subrange(0, 4),
        version: b[4],
        bumps: b.subrange(5, 11),
        flags: b[11],
        authority: b.subrange(16, 48),
        seed: u64_at(b, 48),
        rng_state: u64_at(b, 56),
        init_cursor: u64_at(b, 64),
        step: u64_at(b, 72),
        pow_beta1: i64_at(b, 80),
        pow_beta2: i64_at(b, 88),
        loss_ema: i64_at(b, 96),
        last_loss: i64_at(b, 104),
        gen_count: u64_at(b, 112),
        ring_pos: u64_at(b, 120),
        loss_ring: i64s_at(b, 128, LOSS_RING_LEN as int),
        phase: b[2176],
        phase_cursor: b[2177],
        doc_tokens_len: b[2178],
        doc: b.subrange(2184, 2202),
        pending_loss: i64_at(b, 2208),
    }
}

/// Identity, flags and authority: bytes 0 .. 48.
pub open spec fn header_front(h: HeaderV, b: Seq<u8>) -> Seq<u8> {
    h.magic + seq![h.version] + h.bumps + seq![h.flags] + b.subrange(12, 16) + h.authority
}

/// Counters, bias-correction powers and losses: bytes 48 .. 128.
pub open spec fn header_counters(h: HeaderV) -> Seq<u8> {
    u64_bytes(h.seed) + u64_bytes(h.rng_state) + u64_bytes(h.init_cursor) + u64_bytes(h.step)
        + i64_bytes(h.pow_beta1) + i64_bytes(h.pow_beta2) + i64_bytes(h.loss_ema) + i64_bytes(h.last_loss)
        + u64_bytes(h.gen_count) + u64_bytes(h.ring_pos)
}

/// The split-training state: bytes 2176 .. 2296.
pub open spec fn header_tail(h: HeaderV, b: Seq<u8>) -> Seq<u8> {
    seq![h.phase, h.phase_cursor, h.doc_tokens_len] + b.subrange(2179, 2184) + h.doc + b.subrange(2202, 2208)
        + i64_bytes(h.pending_loss) + b.subrange(2216, 2296)
}

/// The bytes of header `h`, padding taken from `b`.
pub open spec fn header_bytes(h: HeaderV, b: Seq<u8>) -> Seq<u8> {
    header_front(h, b) + header_counters(h) + i64s_bytes(h.loss_ring) + header_tail(h, b)
}

/// A header whose buffers have their layout sizes.
pub open spec fn header_shaped(h: HeaderV) -> bool {
    &&& h.magic.len() == 4
    &&& h.bumps.len() == 6
    &&& h.authority.len() == 32
    &&& h.loss_ring.len() == LOSS_RING_LEN
    &&& h.doc.len() == 18
}

proof fn lemma_header_part_lens(h: HeaderV, b: Seq<u8>)
    requires
        header_shaped(h),
        b.len() >= MODEL_HEADER_LEN,
    ensures
        header_front(h, b).len() == 48,
        header_counters(h).len() == 80,
        i64s_bytes(h.loss_ring).len() == 2048,
        header_tail(h, b).len() == 120,
        header_bytes(h, b).len() == MODEL_HEADER_LEN,
{
    lemma_i64s_bytes(h.loss_ring);
    lemma_u64_roundtrip(h.seed);
    lemma_u64_roundtrip(h.rng_state);
    lemma_u64_roundtrip(h.init_cursor);
    lemma_u64_roundtrip(h.step);
    lemma_i64_roundtrip(h.pow_beta1);
    lemma_i64_roundtrip(h.pow_beta2);
    lemma_i64_roundtrip(h.loss_ema);
    lemma_i64_roundtrip(h.last_loss);
    lemma_u64_roundtrip(h.gen_count);
    lemma_u64_roundtrip(h.ring_pos);
    lemma_i64_roundtrip(h.pending_loss);
}

/// Where each counter sits in the counters block.
proof fn lemma_counter_fields(h: HeaderV)
    ensures
        header_counters(h).subrange(0, 8) == u64_bytes(h.seed),
        header_counters(h).subrange(8, 16) == u64_bytes(h.rng_state),
        header_counters(h).subrange(16, 24) == u64_bytes(h.init_cursor),
        header_counters(h).subrange(24, 32) == u64_bytes(h.step),
        header_counters(h).subrange(32, 40) == i64_bytes(h.pow_beta1),
        header_counters(h).subrange(40, 48) == i64_bytes(h.pow_beta2),
        header_counters(h).subrange(48, 56) == i64_bytes(h.loss_ema),
        header_counters(h).subrange(56, 64) == i64_bytes(h.last_loss),
        header_counters(h).subrange(64, 72) == u64_bytes(h.gen_count),
        header_counters(h).subrange(72, 80) == u64_bytes(h.ring_pos),
{
    lemma_u64_roundtrip(h.seed);
    lemma_u64_roundtrip(h.rng_state);
    lemma_u64_roundtrip(h.init_cursor);
    lemma_u64_roundtrip(h.step);
    lemma_i64_roundtrip(h.pow_beta1);
    lemma_i64_roundtrip(h.pow_beta2);
    lemma_i64_roundtrip(h.loss_ema);
    lemma_i64_roundtrip(h.last_loss);
    lemma_u64_roundtrip(h.gen_count);
    lemma_u64_roundtrip(h.ring_pos);
    let c = header_counters(h);
    assert(c.subrange(0, 8) =~= u64_bytes(h.seed));
    assert(c.subrange(8, 16) =~= u64_bytes(h.rng_state));
    assert(c.subrange(16, 24) =~= u64_bytes(h.init_cursor));
    assert(c.subrange(24, 32) =~= u64_bytes(h.step));
    assert(c.subrange(32, 40) =~= i64_bytes(h.pow_beta1));
    assert(c.subrange(40, 48) =~= i64_bytes(h.pow_beta2));
    assert(c.subrange(48, 56) =~= i64_bytes(h.loss_ema));
    assert(c.subrange(56, 64) =~= i64_bytes(h.last_loss));
    assert(c.subrange(64, 72) =~= u64_bytes(h.gen_count));
    assert(c.subrange(72, 80) =~= u64_bytes(h.ring_pos));
}

/// Header layout law: decoding the bytes of an encoded header gives the
/// header back.
pub proof fn lemma_header_decode_encode(h: HeaderV, b: Seq<u8>)
    requires
        header_shaped(h),
        b.len() >= MODEL_HEADER_LEN,
    ensures
        header_view(header_bytes(h, b)) == h,
{
    lemma_header_part_lens(h, b);
    let e = header_bytes(h, b);
    let front = header_front(h, b);
    let cnt = header_counters(h);
    let ring = i64s_bytes(h.loss_ring);
    let tail = header_tail(h, b);
    assert(e.subrange(0, 48) =~= front);
    assert(e.subrange(48, 128) =~= cnt);
    assert(e.subrange(128, 2176) =~= ring);
    assert(e.subrange(2176, 2296) =~= tail);
    assert(e.subrange(0, 4) =~= h.magic);
    assert(e.subrange(5, 11) =~= h.bumps);
    assert(e.subrange(16, 48) =~= h.authority);
    assert(e.subrange(2184, 2202) =~= h.doc);
    lemma_counter_fields(h);
    assert forall|a: int| 0 <= a <= 72 implies #[trigger] e.subrange(48 + a, 56 + a) == cnt.subrange(a, a + 8) by {
        assert(e.subrange(48 + a, 56 + a) =~= cnt.subrange(a, a + 8));
    }
    assert(e.subrange(48, 56) == cnt.subrange(0, 8));
    assert(e.subrange(56, 64) == cnt.subrange(8, 16));
    assert(e.subrange(64, 72) == cnt.subrange(16, 24));
    assert(e.subrange(72, 80) == cnt.subrange(24, 32));
    assert(e.subrange(80, 88) == cnt.subrange(32, 40));
    assert(e.subrange(88, 96) == cnt.subrange(40, 48));
    assert(e.subrange(96, 104) == cnt.subrange(48, 56));
    assert(e.subrange(104, 112) == cnt.subrange(56, 64));
    assert(e.subrange(112, 120) == cnt.subrange(64, 72));
    assert(e.subrange(120, 128) == cnt.subrange(72, 80));
    assert(e.subrange(2208, 2216) =~= i64_bytes(h.pending_loss));
    lemma_u64_roundtrip(h.seed);
    lemma_u64_roundtrip(h.rng_state);
    lemma_u64_roundtrip(h.init_cursor);
    lemma_u64_roundtrip(h.step);
    lemma_i64_roundtrip(h.pow_beta1);
    lemma_i64_roundtrip(h.pow_beta2);
    lemma_i64_roundtrip(h.loss_ema);
    lemma_i64_roundtrip(h.last_loss);
    lemma_u64_roundtrip(h.gen_count);
    lemma_u64_roundtrip(h.ring_pos);
    lemma_i64_roundtrip(h.pending_loss);
    lemma_i64s_decode(h.loss_ring);
    assert forall|k: int| 0 <= k < LOSS_RING_LEN implies #[trigger] i64s_at(e, 128, LOSS_RING_LEN as int)[k]
        == i64s_at(ring, 0, LOSS_RING_LEN as int)[k] by {
        assert(e.subrange(128 + 8 * k, 128 + 8 * k + 8) =~= ring.subrange(8 * k, 8 * k + 8));
    }
    assert(i64s_at(e, 128, LOSS_RING_LEN as int) =~= h.loss_ring);
    assert(header_view(e) =~= h);
}

/// Header layout law: encoding a decoded header rewrites exactly the
/// header bytes it came from.
pub proof fn lemma_header_encode_decode(b: Seq<u8>)
    requires
        b.len() >= MODEL_HEADER_LEN,
    ensures
        header_bytes(header_view(b), b) == b.subrange(0, MODEL_HEADER_LEN as int),
{
    let h = header_view(b);
    lemma_header_part_lens(h, b);
    let e = header_bytes(h, b);
    lemma_u64_reencode(b, 48);
    lemma_u64_reencode(b, 56);
    lemma_u64_reencode(b, 64);
    lemma_u64_reencode(b, 72);
    lemma_i64_reencode(b, 80);
    lemma_i64_reencode(b, 88);
    lemma_i64_reencode(b, 96);
    lemma_i64_reencode(b, 104);
    lemma_u64_reencode(b, 112);
    lemma_u64_reencode(b, 120);
    lemma_i64_reencode(b, 2208);
    lemma_i64s_reencode(b, 128, LOSS_RING_LEN as int);
    assert(header_front(h, b) =~= b.subrange(0, 48));
    assert(header_counters(h) =~= b.subrange(48, 128));
    assert(header_tail(h, b) =~= b.subrange(2176, 2296));
    assert(e =~= b.subrange(0, MODEL_HEADER_LEN as int));
}

fn read_array32(b: &[u8], off: usize) -> (r: [u8; 32])
    requires
        off + 32 <= b@.len(),
    ensures
        r@ == b@.subrange(off as int, off + 32),
{
    let blen = b.len();
    let mut r: [u8; 32] = [0u8; 32];
    let mut i: usize = 0;
    while i < 32
        invariant
            i <= 32,
            off + 32 <= b@.len(),
            blen == b@.len(),
            forall|j: int| 0 <= j < i ==> r@[j] == b@[off + j],
        decreases 32 - i,
    {
        r[i] = b[off + i];
        i = i + 1;
    }
    assert(r@ =~= b@.subrange(off as int, off + 32));
    r
}

fn read_array18(b: &[u8], off: usize) -> (r: [u8; 18])
    requires
        off + 18 <= b@.len(),
    ensures
        r@ == b@.subrange(off as int, off + 18),
{
    let blen = b.len();
    let mut r: [u8; 18] = [0u8; 18];
    let mut i: usize = 0;
    while i < 18
        invariant
            i <= 18,
            off + 18 <= b@.len(),
            blen == b@.len(),
            forall|j: int| 0 <= j < i ==> r@[j] == b@[off + j],
        decreases 18 - i,
    {
        r[i] = b[off + i];
        i = i + 1;
    }
    assert(r@ =~= b@.subrange(off as int, off + 18));
    r
}

/// Decode the model header at the front of the model account's bytes.
pub fn decode_model_header(b: &[u8]) -> (h: ModelHeader)
    requires
        b@.len() >= MODEL_HEADER_LEN,
    ensures
        h@ == header_view(b@),
{
    let magic: [u8; 4] = [b[0], b[1], b[2], b[3]];
    let bumps: [u8; 6] = [b[5], b[6], b[7], b[8], b[9], b[10]];
    let h = ModelHeader {
        magic,
        version: b[4],
        bumps,
        flags: b[11],
        authority: read_array32(b, 16),
        seed: read_u64(b, 48),
        rng_state: read_u64(b, 56),
        init_cursor: read_u64(b, 64),
        step: read_u64(b, 72),
        pow_beta1: read_i64(b, 80),
        pow_beta2: read_i64(b, 88),
        loss_ema: read_i64(b, 96),
        last_loss: read_i64(b, 104),
        gen_count: read_u64(b, 112),
        ring_pos: read_u64(b, 120),
        loss_ring: read_i64s(b, 128, LOSS_RING_LEN),
        phase: b[2176],
        phase_cursor: b[2177],
        doc_tokens_len: b[2178],
        doc: read_array18(b, 2184),
        pending_loss: read_i64(b, 2208),
    };
    assert(h@.magic =~= b@.subrange(0, 4));
    assert(h@.bumps =~= b@.subrange(5, 11));
    assert(h@ =~= header_view(b@));
    h
}

/// The bytes of header `h`, padding kept from the account's current bytes
/// `b`: what the header region of the model account holds afterwards.
pub fn encode_model_header(h: &ModelHeader, b: &[u8]) -> (r: Vec<u8>)
    requires
        b@.len() >= MODEL_HEADER_LEN,
        h.loss_ring@.len() == LOSS_RING_LEN,
    ensures
        r@ == header_bytes(h@, b@),
        r@.len() == MODEL_HEADER_LEN,
{
    proof {
        lemma_header_part_lens(h@, b@);
    }
    let mut r: Vec<u8> = Vec::new();
    put_bytes(&mut r, h.magic.as_slice(), 0, 4);
    r.push(h.version);
    put_bytes(&mut r, h.bumps.as_slice(), 0, 6);
    r.push(h.flags);
    put_bytes(&mut r, b, 12, 16);
    put_bytes(&mut r, h.authority.as_slice(), 0, 32);
    assert(r@ =~= header_front(h@, b@));
    let ghost front = r@;
    put_u64(&mut r, h.seed);
    put_u64(&mut r, h.rng_state);
    put_u64(&mut r, h.init_cursor);
    put_u64(&mut r, h.step);
    put_i64(&mut r, h.pow_beta1);
    put_i64(&mut r, h.pow_beta2);
    put_i64(&mut r, h.loss_ema);
    put_i64(&mut r, h.last_loss);
    put_u64(&mut r, h.gen_count);
    put_u64(&mut r, h.ring_pos);
    assert(r@ =~= front + header_counters(h@));
    put_i64s(&mut r, h.loss_ring.as_slice());
    let ghost upto_ring = r@;
    r.push(h.phase);
    r.push(h.phase_cursor);
    r.push(h.doc_tokens_len);
    put_bytes(&mut r, b, 2179, 2184);
    put_bytes(&mut r, h.doc.as_slice(), 0, 18);
    put_bytes(&mut r, b, 2202, 2208);
    put_i64(&mut r, h.pending_loss);
    put_bytes(&mut r, b, 2216, 2296);
    assert(r@ =~= upto_ring + header_tail(h@, b@));
    assert(r@ =~= header_bytes(h@, b@));
    r
}

// -- Parameter, moment and workspace images -------------------------------------

/// Decode the weights stored from byte offset `off`.
pub fn decode_weights(b: &[u8], off: usize) -> (w: Weights)
    requires
        off + 8 * N_PARAMS <= b@.len(),
    ensures
        w.params@ == i64s_at(b@, off as int, N_PARAMS as int),
{
    Weights { params: read_i64s(b, off, N_PARAMS) }
}

/// The bytes of the weights.
pub fn encode_weights(w: &Weights) -> (r: Vec<u8>)
    ensures
        r@ == i64s_bytes(w.params@),
{
    let mut r: Vec<u8> = Vec::new();
    put_i64s(&mut r, w.params.as_slice());
    assert(r@ =~= i64s_bytes(w.params@));
    r
}

/// Decode the optimizer account: first moments, then second moments.
pub fn decode_moments(b: &[u8]) -> (m: Moments)
    requires
        16 * N_PARAMS <= b@.len(),
    ensures
        m.m@ == i64s_at(b@, 0, N_PARAMS as int),
        m.v@ == i64s_at(b@, 8 * N_PARAMS as int, N_PARAMS as int),
{
    Moments { m: read_i64s(b, 0, N_PARAMS), v: read_i64s(b, 8 * N_PARAMS, N_PARAMS) }
}

/// The bytes of the optimizer account.
pub fn encode_moments(m: &Moments) -> (r: Vec<u8>)
    ensures
        r@ == i64s_bytes(m.m@) + i64s_bytes(m.v@),
{
    let mut r: Vec<u8> = Vec::new();
    put_i64s(&mut r, m.m.as_slice());
    put_i64s(&mut r, m.v.as_slice());
    r
}

/// An `n x c` matrix of i64s stored row-major from byte offset `off`.
pub open spec fn mat_at(b: Seq<u8>, off: int, n: int, c: int) -> Seq<Seq<i64>> {
    Seq::new(n as nat, |r: int| i64s_at(b, off + 8 * c * r, c))
}

/// The row-major bytes of a matrix.
pub open spec fn mat_bytes(m: Seq<Seq<i64>>) -> Seq<u8>
    decreases m.len(),
{
    if m.len() == 0 {
        seq![]
    } else {
        mat_bytes(m.drop_last()) + i64s_bytes(m.last())
    }
}

fn read_mat(b: &[u8], off: usize, n: usize, c: usize) -> (m: Vec<Vec<i64>>)
    requires
        off + 8 * c * n <= b@.len(),
    ensures
        rows(m@) == mat_at(b@, off as int, n as int, c as int),
        is_mat(rows(m@), n as int, c as int),
{
    let blen = b.len();
    let mut m: Vec<Vec<i64>> = Vec::new();
    let mut r: usize = 0;
    while r < n
        invariant
            r <= n,
            off + 8 * c * n <= b@.len(),
            blen == b@.len(),
            m@.len() == r,
            rows(m@) == mat_at(b@, off as int, r as int, c as int),
        decreases n - r,
    {
        proof {
            assert(8 * c * r + 8 * c <= 8 * c * n) by (nonlinear_arith)
                requires
                    r < n,
            ;
            assert(8 * c * r <= 8 * c * r + 8 * c) by (nonlinear_arith);
        }
        let row = read_i64s(b, off + 8 * c * r, c);
        let ghost before = m@;
        m.push(row);
        proof {
            assert forall|q: int| 0 <= q <= r implies #[trigger] rows(m@)[q] == mat_at(b@, off as int, r + 1, c as int)[q] by {
                if q < r {
                    assert(m@[q] == before[q]);
                    assert(rows(before)[q] == mat_at(b@, off as int, r as int, c as int)[q]);
                } else {
                    assert(m@[q] == row);
                }
            }
        }
        r = r + 1;
        assert(rows(m@) =~= mat_at(b@, off as int, r as int, c as int));
    }
    m
}

fn put_mat(out: &mut Vec<u8>, m: &Vec<Vec<i64>>)
    ensures
        final(out)@ == old(out)@ + mat_bytes(rows(m@)),
{
    let ghost o0 = out@;
    let mut r: usize = 0;
    assert(rows(m@).subrange(0, 0) =~= Seq::<Seq<i64>>::empty());
    assert(o0 + mat_bytes(rows(m@).subrange(0, 0)) =~= o0);
    while r < m.len()
        invariant
            r <= m@.len(),
            out@ == o0 + mat_bytes(rows(m@).subrange(0, r as int)),
        decreases m@.len() - r,
    {
        put_i64s(out, m[r].as_slice());
        r = r + 1;
        assert(rows(m@).subrange(0, r as int).drop_last() =~= rows(m@).subrange(0, r as int - 1));
        assert(out@ =~= o0 + mat_bytes(rows(m@).subrange(0, r as int)));
    }
    assert(rows(m@).subrange(0, m@.len() as int) =~= rows(m@));
}

/// The workspace stored from byte offset `off` (the training half of the
/// scratch account at 0, the generation half at `GEN_SCRATCH_OFFSET`).
pub open spec fn scratch_view(b: Seq<u8>, off: int) -> ScratchV {
    ScratchV {
        x0: mat_at(b, off, 16, 16),
        x1: mat_at(b, off + 2048, 16, 16),
        xa: mat_at(b, off + 4096, 16, 16),
        q: mat_at(b, off + 6144, 16, 16),
        k: mat_at(b, off + 8192, 16, 16),
        v: mat_at(b, off + 10240, 16, 16),
        o: mat_at(b, off + 12288, 16, 16),
        x2: mat_at(b, off + 14336, 16, 16),
        xm: mat_at(b, off + 16384, 16, 16),
        x3: mat_at(b, off + 18432, 16, 16),
        att: mat_at(b, off + 20480, 64, 16),
        hpre: mat_at(b, off + 28672, 16, 64),
        h: mat_at(b, off + 36864, 16, 64),
        probs: mat_at(b, off + 45056, 16, 27),
        s_emb: i64s_at(b, off + 48512, 16),
        s_att: i64s_at(b, off + 48640, 16),
        s_mlp: i64s_at(b, off + 48768, 16),
        dk: mat_at(b, off + 48896, 16, 16),
        dv: mat_at(b, off + 50944, 16, 16),
        grads: i64s_at(b, off + 52992, N_PARAMS as int),
    }
}

/// The bytes of a workspace, fields in layout order.
pub open spec fn scratch_bytes(sv: ScratchV) -> Seq<u8> {
    mat_bytes(sv.x0) + mat_bytes(sv.x1) + mat_bytes(sv.xa) + mat_bytes(sv.q) + mat_bytes(sv.k) + mat_bytes(sv.v)
        + mat_bytes(sv.o) + mat_bytes(sv.x2) + mat_bytes(sv.xm) + mat_bytes(sv.x3) + mat_bytes(sv.att)
        + mat_bytes(sv.hpre) + mat_bytes(sv.h) + mat_bytes(sv.probs) + i64s_bytes(sv.s_emb)
        + i64s_bytes(sv.s_att) + i64s_bytes(sv.s_mlp) + mat_bytes(sv.dk) + mat_bytes(sv.dv)
        + i64s_bytes(sv.grads)
}

/// Decode the workspace stored from byte offset `off`.
pub fn decode_scratch(b: &[u8], off: usize) -> (s: Scratch)
    requires
        off + 86528 <= b@.len(),
    ensures
        s@ == scratch_view(b@, off as int),
        s@.wf(),
{
    let blen = b.len();
    assert(off + 86528 <= blen);
    let s = Scratch {
        x0: read_mat(b, off, 16, 16),
        x1: read_mat(b, off + 2048, 16, 16),
        xa: read_mat(b, off + 4096, 16, 16),
        q: read_mat(b, off + 6144, 16, 16),
        k: read_mat(b, off + 8192, 16, 16),
        v: read_mat(b, off + 10240, 16, 16),
        o: read_mat(b, off + 12288, 16, 16),
        x2: read_mat(b, off + 14336, 16, 16),
        xm: read_mat(b, off + 16384, 16, 16),
        x3: read_mat(b, off + 18432, 16, 16),
        att: read_mat(b, off + 20480, 64, 16),
        hpre: read_mat(b, off + 28672, 16, 64),
        h: read_mat(b, off + 36864, 16, 64),
        probs: read_mat(b, off + 45056, 16, 27),
        s_emb: read_i64s(b, off + 48512, 16),
        s_att: read_i64s(b, off + 48640, 16),
        s_mlp: read_i64s(b, off + 48768, 16),
        dk: read_mat(b, off + 48896, 16, 16),
        dv: read_mat(b, off + 50944, 16, 16),
        grads: Weights { params: read_i64s(b, off + 52992, N_PARAMS) },
    };
    assert(s@ =~= scratch_view(b@, off as int));
    s
}

/// The bytes of a workspace.
pub fn encode_scratch(s: &Scratch) -> (r: Vec<u8>)
    ensures
        r@ == scratch_bytes(s@),
{
    let mut r: Vec<u8> = Vec::new();
    put_mat(&mut r, &s.x0);
    put_mat(&mut r, &s.x1);
    put_mat(&mut r, &s.xa);
    put_mat(&mut r, &s.q);
    put_mat(&mut r, &s.k);
    put_mat(&mut r, &s.v);
    put_mat(&mut r, &s.o);
    put_mat(&mut r, &s.x2);
    put_mat(&mut r, &s.xm);
    put_mat(&mut r, &s.x3);
    put_mat(&mut r, &s.att);
    put_mat(&mut r, &s.hpre);
    put_mat(&mut r, &s.h);
    put_mat(&mut r, &s.probs);
    put_i64s(&mut r, s.s_emb.as_slice());
    put_i64s(&mut r, s.s_att.as_slice());
    put_i64s(&mut r, s.s_mlp.as_slice());
    put_mat(&mut r, &s.dk);
    put_mat(&mut r, &s.dv);
    put_i64s(&mut r, s.grads.params.as_slice());
    assert(r@ =~= scratch_bytes(s@));
    r
}

// -- Document stores and the generation log --------------------------------------

/// Decode a document store: the 24-byte header, then every byte after it
/// as the record area. None when the account cannot hold the header.
pub fn decode_docs(b: &[u8]) -> (r: Option<DocSet>)
    ensures
        b@.len() < DOCS_HEADER_LEN ==> r is None,
        b@.len() >= DOCS_HEADER_LEN ==> (r matches Some(d)
            && d.header.magic@ == b@.subrange(0, 4)
            && d.header.capacity == u64_at(b@, 8)
            && d.header.count == u64_at(b@, 16)
            && d.records@ == b@.subrange(24, b@.len() as int)),
{
    if b.len() < DOCS_HEADER_LEN {
        return None;
    }
    let magic: [u8; 4] = [b[0], b[1], b[2], b[3]];
    let header = DocsHeader { magic, capacity: read_u64(b, 8), count: read_u64(b, 16) };
    let mut records: Vec<u8> = Vec::new();
    put_bytes(&mut records, b, 24, b.len());
    assert(records@ =~= b@.subrange(24, b@.len() as int));
    assert(header.magic@ =~= b@.subrange(0, 4));
    Some(DocSet { header, records })
}

/// The bytes of a document store, header padding kept from `b`.
pub fn encode_docs(d: &DocSet, b: &[u8]) -> (r: Vec<u8>)
    requires
        b@.len() >= DOCS_HEADER_LEN,
    ensures
        r@ == d.header.magic@ + b@.subrange(4, 8) + u64_bytes(d.header.capacity) + u64_bytes(d.header.count) + d.records@,
{
    let mut r: Vec<u8> = Vec::new();
    put_bytes(&mut r, d.header.magic.as_slice(), 0, 4);
    put_bytes(&mut r, b, 4, 8);
    put_u64(&mut r, d.header.capacity);
    put_u64(&mut r, d.header.count);
    put_bytes(&mut r, d.records.as_slice(), 0, d.records.len());
    assert(d.header.magic@.subrange(0, 4) =~= d.header.magic@);
    assert(d.records@.subrange(0, d.records@.len() as int) =~= d.records@);
    r
}

/// Decode one generation record.
fn read_gen_record(b: &[u8], off: usize) -> (g: GenRecord)
    requires
        off + GEN_RECORD_LEN <= b@.len(),
    ensures
        g.step == u64_at(b@, off as int),
        g.len == b@[off + 8],
        g.name@ == b@.subrange(off + 9, off + 25),
{
    let blen = b.len();
    let mut name: [u8; 16] = [0u8; 16];
    let mut i: usize = 0;
    while i < 16
        invariant
            i <= 16,
            off + GEN_RECORD_LEN <= b@.len(),
            blen == b@.len(),
            forall|j: int| 0 <= j < i ==> name@[j] == b@[off + 9 + j],
        decreases 16 - i,
    {
        name[i] = b[off + 9 + i];
        i = i + 1;
    }
    assert(name@ =~= b@.subrange(off + 9, off + 25));
    GenRecord { step: read_u64(b, off), len: b[off + 8], name }
}

/// Decode the generation log: the 32-byte header, then as many whole
/// 32-byte records as the account holds. None when it cannot hold the
/// header.
pub fn decode_genlog(b: &[u8]) -> (r: Option<GenLog>)
    ensures
        b@.len() < GENLOG_HEADER_LEN ==> r is None,
        b@.len() >= GENLOG_HEADER_LEN ==> (r matches Some(g)
            && g.header.magic@ == b@.subrange(0, 4)
            && g.header.capacity == u64_at(b@, 8)
            && g.header.total == u64_at(b@, 16)
            && g.records@.len() == (b@.len() - GENLOG_HEADER_LEN) / GEN_RECORD_LEN as int
            && forall|k: int| 0 <= k < g.records@.len() ==> {
                let off = GENLOG_HEADER_LEN + GEN_RECORD_LEN * k;
                &&& #[trigger] g.records@[k].step == u64_at(b@, off)
                &&& g.records@[k].len == b@[off + 8]
                &&& g.records@[k].name@ == b@.subrange(off + 9, off + 25)
            }),
{
    if b.len() < GENLOG_HEADER_LEN {
        return None;
    }
    let magic: [u8; 4] = [b[0], b[1], b[2], b[3]];
    assert(magic@ =~= b@.subrange(0, 4));
    let header = GenLogHeader { magic, capacity: read_u64(b, 8), total: read_u64(b, 16) };
    let blen = b.len();
    let n = (blen - GENLOG_HEADER_LEN) / GEN_RECORD_LEN;
    let mut records: Vec<GenRecord> = Vec::new();
    let mut k: usize = 0;
    while k < n
        invariant
            k <= n,
            blen == b@.len(),
            n == (b@.len() - GENLOG_HEADER_LEN) / GEN_RECORD_LEN as int,
            b@.len() >= GENLOG_HEADER_LEN,
            records@.len() == k,
            forall|q: int| 0 <= q < k ==> {
                let off = GENLOG_HEADER_LEN + GEN_RECORD_LEN * q;
                &&& #[trigger] records@[q].step == u64_at(b@, off)
                &&& records@[q].len == b@[off + 8]
                &&& records@[q].name@ == b@.subrange(off + 9, off + 25)
            },
        decreases n - k,
    {
        proof {
            assert(GENLOG_HEADER_LEN + GEN_RECORD_LEN * k + GEN_RECORD_LEN <= b@.len()) by (nonlinear_arith)
                requires
                    k < n,
                    n == (b@.len() - 32) / 32,
                    b@.len() >= 32,
            ;
        }
        let g = read_gen_record(b, GENLOG_HEADER_LEN + GEN_RECORD_LEN * k);
        records.push(g);
        k = k + 1;
    }
    Some(GenLog { header, records })
}

/// The bytes of one generation record, padding kept from `b` at `off`.
pub open spec fn gen_record_bytes(g: GenRecord, b: Seq<u8>, off: int) -> Seq<u8> {
    u64_bytes(g.step) + seq![g.len] + g.name@ + b.subrange(off + 25, off + 32)
}

/// The bytes of the generation log's records from `k0` on.
pub open spec fn gen_records_bytes(recs: Seq<GenRecord>, b: Seq<u8>, k: int) -> Seq<u8>
    decreases k,
{
    if k <= 0 {
        seq![]
    } else {
        gen_records_bytes(recs, b, k - 1) + gen_record_bytes(recs[k - 1], b, GENLOG_HEADER_LEN + GEN_RECORD_LEN * (k - 1))
    }
}

/// The bytes of the generation log: its header and records, padding and
/// any trailing bytes kept from `b`.
pub fn encode_genlog(g: &GenLog, b: &[u8]) -> (r: Vec<u8>)
    requires
        b@.len() >= GENLOG_HEADER_LEN + GEN_RECORD_LEN * g.records@.len(),
    ensures
        r@ == g.header.magic@ + b@.subrange(4, 8) + u64_bytes(g.header.capacity) + u64_bytes(g.header.total)
            + b@.subrange(24, 32) + gen_records_bytes(g.records@, b@, g.records@.len() as int)
            + b@.subrange(GENLOG_HEADER_LEN + GEN_RECORD_LEN * g.records@.len(), b@.len() as int),
{
    let mut r: Vec<u8> = Vec::new();
    put_bytes(&mut r, g.header.magic.as_slice(), 0, 4);
    put_bytes(&mut r, b, 4, 8);
    put_u64(&mut r, g.header.capacity);
    put_u64(&mut r, g.header.total);
    put_bytes(&mut r, b, 24, 32);
    assert(g.header.magic@.subrange(0, 4) =~= g.header.magic@);
    let ghost head = r@;
    let blen = b.len();
    let mut k: usize = 0;
    assert(r@ =~= head + gen_records_bytes(g.records@, b@, 0));
    while k < g.records.len()
        invariant
            k <= g.records@.len(),
            blen == b@.len(),
            b@.len() >= GENLOG_HEADER_LEN + GEN_RECORD_LEN * g.records@.len(),
            r@ == head + gen_records_bytes(g.records@, b@, k as int),
        decreases g.records@.len() - k,
    {
        proof {
            assert(GENLOG_HEADER_LEN + GEN_RECORD_LEN * k + GEN_RECORD_LEN <= GENLOG_HEADER_LEN + GEN_RECORD_LEN * g.records@.len()) by (nonlinear_arith)
                requires
                    k < g.records@.len(),
            ;
        }
        let off = GENLOG_HEADER_LEN + GEN_RECORD_LEN * k;
        let rec = g.records[k];
        put_u64(&mut r, rec.step);
        r.push(rec.len);
        put_bytes(&mut r, rec.name.as_slice(), 0, 16);
        put_bytes(&mut r, b, off + 25, off + 32);
        assert(rec.name@.subrange(0, 16) =~= rec.name@);
        k = k + 1;
        assert(r@ =~= head + gen_records_bytes(g.records@, b@, k as int));
    }
    let tail_from = GENLOG_HEADER_LEN + GEN_RECORD_LEN * g.records.len();
    put_bytes(&mut r, b, tail_from, b.len());
    r
}

} // verus!
