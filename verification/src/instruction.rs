//! Instruction discriminators and argument layouts.
//!
//! Encoding: 1-byte discriminator followed by little-endian fixed-width
//! fields. Instruction data has no alignment guarantee, so args are decoded
//! field by field.

use vstd::prelude::*;

verus! {

/// Create and initialize all program accounts.
pub const INIT_MODEL: u8 = 0;
/// PRNG-initialize the next chunk of weights.
pub const INIT_WEIGHTS: u8 = 1;
/// Append 16-byte doc records (packed in the instruction data).
pub const LOAD_DOCS: u8 = 2;
/// Delegate one PDA to the ephemeral rollup.
pub const DELEGATE: u8 = 3;
/// Run fused training steps (forward + backward + Adam).
pub const TRAIN_STEP: u8 = 4;
/// One micro-op of the split training path.
pub const TRAIN_MICRO: u8 = 5;
/// Schedule the perpetual training crank.
pub const SCHEDULE_TRAINING: u8 = 7;
/// Sync the model image into the checkpoint shards and commit them.
pub const CHECKPOINT: u8 = 8;
/// Commit and undelegate the committable accounts.
pub const UNDELEGATE: u8 = 9;
/// Sample a name from the model.
pub const GENERATE: u8 = 10;
/// Contribute a name to the community dataset.
pub const CONTRIBUTE: u8 = 11;
/// Grow a program account toward its target size.
pub const GROW: u8 = 12;
/// Create / grow the delegate buffer for a large account.
pub const DELEGATE_PREP: u8 = 13;
/// Create the checkpoint shard accounts.
pub const INIT_SHARDS: u8 = 14;

/// Little-endian value of a byte string (least significant byte first).
pub open spec fn le_value(s: Seq<u8>) -> int
    decreases s.len(),
{
    if s.len() == 0 { 0 } else { s[0] + 256 * le_value(s.subrange(1, s.len() as int)) }
}

/// 256^n.
pub open spec fn byte_pow(n: nat) -> int
    decreases n,
{
    if n == 0 { 1 } else { 256 * byte_pow((n - 1) as nat) }
}

/// 256^n is positive, monotone up to 8 and 2^32, 2^64 at 4, 8.
pub proof fn lemma_byte_pow_facts(n: nat)
    ensures
        byte_pow(n) > 0,
        n <= 8 ==> byte_pow(n) <= byte_pow(8),
        byte_pow(4) == 0x1_0000_0000,
        byte_pow(8) == 0x1_0000_0000_0000_0000,
    decreases n,
{
    reveal_with_fuel(byte_pow, 9);
    if n > 0 {
        lemma_byte_pow_facts((n - 1) as nat);
    }
    if n < 8 {
        lemma_byte_pow_mono(n);
    }
}

proof fn lemma_byte_pow_mono(n: nat)
    requires
        n <= 8,
    ensures
        byte_pow(n) <= byte_pow(8),
    decreases 8 - n,
{
    if n < 8 {
        lemma_byte_pow_mono(n + 1);
        assert(byte_pow(n + 1) == 256 * byte_pow(n));
        lemma_byte_pow_pos(n);
    }
}

/// 256^n is positive.
pub proof fn lemma_byte_pow_pos(n: nat)
    ensures
        byte_pow(n) > 0,
    decreases n,
{
    if n > 0 {
        lemma_byte_pow_pos((n - 1) as nat);
    }
}

/// An n-byte little-endian value is below 256^n.
pub proof fn lemma_le_bound(s: Seq<u8>)
    ensures
        0 <= le_value(s) < byte_pow(s.len()),
    decreases s.len(),
{
    if s.len() > 0 {
        let t = s.subrange(1, s.len() as int);
        lemma_le_bound(t);
        assert(s[0] + 256 * le_value(t) < 256 * byte_pow(t.len())) by (nonlinear_arith)
            requires
                s[0] < 256,
                le_value(t) < byte_pow(t.len()),
                0 <= le_value(t),
        ;
    }
}

/// Decode `n` little-endian bytes from the front of `b`.
fn le_decode(b: &[u8], n: usize) -> (r: u64)
    requires
        n <= 8,
        n <= b@.len(),
    ensures
        r as int == le_value(b@.subrange(0, n as int)),
{
    proof {
        lemma_le_bound(b@.subrange(0, n as int));
        lemma_byte_pow_facts(n as nat);
    }
    let mut acc: u64 = 0;
    let mut i: usize = n;
    while i > 0
        invariant
            i <= n <= 8,
            n <= b@.len(),
            acc as int == le_value(b@.subrange(i as int, n as int)),
            le_value(b@.subrange(0, n as int)) < 0x1_0000_0000_0000_0000,
        decreases i,
    {
        i = i - 1;
        proof {
            let s = b@.subrange(i as int, n as int);
            assert(s.subrange(1, s.len() as int) =~= b@.subrange(i + 1, n as int));
            lemma_le_prefix_bound(b@.subrange(0, n as int), i as int);
            assert(b@.subrange(0, n as int).subrange(i as int, n as int) =~= s);
            lemma_byte_pow_pos(i as nat);
            lemma_le_bound(s);
            assert(le_value(s) <= le_value(b@.subrange(0, n as int))) by (nonlinear_arith)
                requires
                    le_value(s) * byte_pow(i as nat) <= le_value(b@.subrange(0, n as int)),
                    byte_pow(i as nat) >= 1,
                    le_value(s) >= 0,
            ;
        }
        acc = (b[i] as u64) + 256 * acc;
    }
    assert(b@.subrange(0, n as int) =~= b@.subrange(0, n as int));
    acc
}

/// A suffix of a little-endian string is bounded by the whole value scaled.
proof fn lemma_le_prefix_bound(s: Seq<u8>, i: int)
    requires
        0 <= i <= s.len(),
    ensures
        le_value(s.subrange(i, s.len() as int)) * byte_pow(i as nat) <= le_value(s),
    decreases i,
{
    assert(s.subrange(0, s.len() as int) =~= s);
    if i > 0 {
        let t = s.subrange(1, s.len() as int);
        lemma_le_prefix_bound(t, i - 1);
        assert(t.subrange(i - 1, t.len() as int) =~= s.subrange(i, s.len() as int));
        lemma_le_bound(t);
        let a = le_value(s.subrange(i, s.len() as int));
        lemma_le_bound(s.subrange(i, s.len() as int));
        let p = byte_pow((i - 1) as nat);
        lemma_byte_pow_pos((i - 1) as nat);
        assert(a * (256 * p) <= s[0] + 256 * le_value(t)) by (nonlinear_arith)
            requires
                a * p <= le_value(t),
                0 <= s[0],
                a >= 0,
        {
        }
    }
}

/// Little-endian field reader over instruction data: the unread bytes.
pub struct Reader<'a>(pub &'a [u8]);

impl<'a> Reader<'a> {
    pub fn u8(&mut self) -> (r: Option<u8>)
        ensures
            old(self).0@.len() == 0 ==> r is None && final(self).0@ == old(self).0@,
            old(self).0@.len() > 0 ==> r == Some(old(self).0@[0]) && final(self).0@ == old(self).0@.subrange(1, old(self).0@.len() as int),
    {
        if self.0.len() == 0 {
            return None;
        }
        let (v, rest) = self.0.split_at(1);
        self.0 = rest;
        Some(v[0])
    }

    pub fn u32(&mut self) -> (r: Option<u32>)
        ensures
            old(self).0@.len() < 4 ==> r is None && final(self).0@ == old(self).0@,
            old(self).0@.len() >= 4 ==> (r matches Some(v) && v as int == le_value(old(self).0@.subrange(0, 4))
                && final(self).0@ == old(self).0@.subrange(4, old(self).0@.len() as int)),
    {
        if self.0.len() < 4 {
            return None;
        }
        let (v, rest) = self.0.split_at(4);
        let value = le_decode(v, 4);
        proof {
            lemma_le_bound(v@.subrange(0, 4));
            lemma_byte_pow_facts(4);
            assert(v@.subrange(0, 4) =~= old(self).0@.subrange(0, 4));
        }
        self.0 = rest;
        Some(value as u32)
    }

    pub fn u64(&mut self) -> (r: Option<u64>)
        ensures
            old(self).0@.len() < 8 ==> r is None && final(self).0@ == old(self).0@,
            old(self).0@.len() >= 8 ==> (r matches Some(v) && v as int == le_value(old(self).0@.subrange(0, 8))
                && final(self).0@ == old(self).0@.subrange(8, old(self).0@.len() as int)),
    {
        if self.0.len() < 8 {
            return None;
        }
        let (v, rest) = self.0.split_at(8);
        let value = le_decode(v, 8);
        proof {
            assert(v@.subrange(0, 8) =~= old(self).0@.subrange(0, 8));
        }
        self.0 = rest;
        Some(value)
    }

    /// A u64 field reinterpreted as two's-complement i64.
    pub fn i64(&mut self) -> (r: Option<i64>)
        ensures
            old(self).0@.len() < 8 ==> r is None && final(self).0@ == old(self).0@,
            old(self).0@.len() >= 8 ==> (r matches Some(v) && v == (le_value(old(self).0@.subrange(0, 8)) as u64) as i64
                && final(self).0@ == old(self).0@.subrange(8, old(self).0@.len() as int)),
    {
        match self.u64() {
            Some(v) => Some(v as i64),
            None => None,
        }
    }

    pub fn bytes(&mut self, n: usize) -> (r: Option<&'a [u8]>)
        ensures
            old(self).0@.len() < n ==> r is None && final(self).0@ == old(self).0@,
            old(self).0@.len() >= n ==> (r matches Some(b) && b@ == old(self).0@.subrange(0, n as int)
                && final(self).0@ == old(self).0@.subrange(n as int, old(self).0@.len() as int)),
    {
        if self.0.len() < n {
            return None;
        }
        let (v, rest) = self.0.split_at(n);
        self.0 = rest;
        Some(v)
    }

    pub fn rest(self) -> (r: &'a [u8])
        ensures
            r@ == self.0@,
    {
        self.0
    }
}

/// Little-endian u64 at the front of `s`.
pub open spec fn le_u64(s: Seq<u8>) -> u64 {
    le_value(s.subrange(0, 8)) as u64
}

pub struct InitModelArgs {
    pub seed: u64,
}

impl InitModelArgs {
    pub fn parse(data: &[u8]) -> (r: Option<Self>)
        ensures
            data@.len() < 8 ==> r is None,
            data@.len() >= 8 ==> (r matches Some(a) && a.seed == le_u64(data@)),
    {
        let mut r = Reader(data);
        let seed = r.u64()?;
        Some(Self { seed })
    }
}

pub struct InitWeightsArgs {
    /// Max parameters to initialize in this call.
    pub count: u32,
}

impl InitWeightsArgs {
    pub fn parse(data: &[u8]) -> (r: Option<Self>)
        ensures
            data@.len() < 4 ==> r is None,
            data@.len() >= 4 ==> (r matches Some(a) && a.count as int == le_value(data@.subrange(0, 4))),
    {
        let mut r = Reader(data);
        let count = r.u32()?;
        Some(Self { count })
    }
}

pub struct DelegateArgs {
    /// Which PDA to delegate: an index into the bump table.
    pub which: u8,
    /// Commit frequency hint for the ER, in ms.
    pub commit_frequency_ms: u32,
    /// The ER validator to delegate to; None lets the delegation program
    /// pick its default.
    pub validator: Option<[u8; 32]>,
}

impl DelegateArgs {
    pub fn parse(data: &[u8]) -> (r: Option<Self>)
        ensures
            data@.len() < 5 ==> r is None,
            data@.len() >= 5 ==> (r matches Some(a) && a.which == data@[0]
                && a.commit_frequency_ms as int == le_value(data@.subrange(1, 5))
                && (data@.len() < 37 ==> a.validator is None)
                && (data@.len() >= 37 ==> (a.validator matches Some(v) && v@ == data@.subrange(5, 37)))),
    {
        let mut r = Reader(data);
        let which = r.u8()?;
        let commit_frequency_ms = r.u32()?;
        proof {
            assert(data@.subrange(1, data@.len() as int).subrange(0, 4) =~= data@.subrange(1, 5));
        }
        let validator = match r.bytes(32) {
            Some(b) => {
                let mut a = [0u8; 32];
                let mut i: usize = 0;
                while i < 32
                    invariant
                        i <= 32,
                        b@.len() == 32,
                        forall|j: int| 0 <= j < i ==> a@[j] == b@[j],
                    decreases 32 - i,
                {
                    a[i] = b[i];
                    i = i + 1;
                }
                assert(a@ =~= b@);
                proof {
                    assert(data@.subrange(5, data@.len() as int).subrange(0, 32) =~= data@.subrange(5, 37));
                }
                Some(a)
            },
            None => None,
        };
        Some(Self { which, commit_frequency_ms, validator })
    }
}

pub struct TrainStepArgs {
    /// Number of fused steps to run in this transaction.
    pub count: u8,
}

impl TrainStepArgs {
    pub fn parse(data: &[u8]) -> (r: Option<Self>)
        ensures
            data@.len() < 1 ==> r is None,
            data@.len() >= 1 ==> (r matches Some(a) && a.count == data@[0]),
    {
        let mut r = Reader(data);
        let count = r.u8()?;
        Some(Self { count })
    }
}

pub struct ScheduleArgs {
    pub task_id: u64,
    pub interval_ms: u64,
    pub iterations: u64,
    pub steps_per_tick: u8,
}

impl ScheduleArgs {
    pub fn parse(data: &[u8]) -> (r: Option<Self>)
        ensures
            data@.len() < 25 ==> r is None,
            data@.len() >= 25 ==> (r matches Some(a)
                && a.task_id == le_u64(data@)
                && a.interval_ms == le_u64(data@.subrange(8, 16))
                && a.iterations == le_u64(data@.subrange(16, 24))
                && a.steps_per_tick == data@[24]),
    {
        let mut r = Reader(data);
        let task_id = r.u64()?;
        let interval_ms = r.u64()?;
        let iterations = r.u64()?;
        let steps_per_tick = r.u8()?;
        proof {
            let d = data@;
            assert(d.subrange(8, d.len() as int).subrange(0, 8) =~= d.subrange(8, 16).subrange(0, 8));
            assert(d.subrange(8, d.len() as int).subrange(8, d.len() - 8).subrange(0, 8) =~= d.subrange(16, 24).subrange(0, 8));
            assert(d.subrange(8, d.len() as int).subrange(8, d.len() - 8) =~= d.subrange(16, d.len() as int));
            assert(d.subrange(16, d.len() as int).subrange(8, d.len() - 16) =~= d.subrange(24, d.len() as int));
        }
        Some(Self { task_id, interval_ms, iterations, steps_per_tick })
    }
}

pub struct GrowArgs {
    /// Which PDA to grow: an index into the bump table.
    pub which: u8,
}

impl GrowArgs {
    pub fn parse(data: &[u8]) -> (r: Option<Self>)
        ensures
            data@.len() < 1 ==> r is None,
            data@.len() >= 1 ==> (r matches Some(a) && a.which == data@[0]),
    {
        let mut r = Reader(data);
        let which = r.u8()?;
        Some(Self { which })
    }
}

pub struct GenerateArgs<'a> {
    /// Sampling temperature in Q32.32, in (0, 1].
    pub temperature: i64,
    /// Client entropy, mixed with the slot and generation counter.
    pub seed: u64,
    /// Prefix token ids (0..26).
    pub prefix: &'a [u8],
}

impl<'a> GenerateArgs<'a> {
    pub fn parse(data: &'a [u8]) -> (r: Option<Self>)
        ensures
            (data@.len() >= 17 && data@.len() >= 17 + data@[16]) <==> r is Some,
            r matches Some(a) ==> a.temperature == le_u64(data@) as i64
                && a.seed == le_u64(data@.subrange(8, 16))
                && a.prefix@ == data@.subrange(17, 17 + data@[16]),
    {
        let mut r = Reader(data);
        let temperature = r.i64()?;
        let seed = r.u64()?;
        let prefix_len = r.u8()? as usize;
        let prefix = r.bytes(prefix_len)?;
        proof {
            let d = data@;
            assert(d.subrange(8, d.len() as int).subrange(0, 8) =~= d.subrange(8, 16).subrange(0, 8));
            assert(d.subrange(8, d.len() as int).subrange(8, d.len() - 8) =~= d.subrange(16, d.len() as int));
            assert(d.subrange(16, d.len() as int).subrange(1, d.len() - 16) =~= d.subrange(17, d.len() as int));
            assert(d.subrange(17, d.len() as int).subrange(0, prefix_len as int) =~= d.subrange(17, 17 + prefix_len));
        }
        Some(Self { temperature, seed, prefix })
    }
}

} // verus!
