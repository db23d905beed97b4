use vstd::prelude::*;

verus! {

/// Smallest accepted compact difficulty: exponent 3 with a normalized
/// mantissa, the floor that "no valid work" collapses to.
pub const MIN_DIFFICULTY_BITS: u32 = 0x0301_0000;
/// Largest accepted compact difficulty: exponent 16, the widest target
/// that the 16-byte expansion can carry.
pub const MAX_DIFFICULTY_BITS: u32 = 0x107f_ffff;
/// The difficulty the genesis block is mined at: the easiest the chain accepts.
pub const GENESIS_BLOCK_DIFFICULTY: u32 = MAX_DIFFICULTY_BITS;
/// Subsidy paid to the miner of each accepted block.
pub const BLOCK_REWARD: u64 = 50;

/// A compact 32-bit difficulty encoding: one exponent byte above three
/// mantissa bytes, clamped into the valid range at construction.
#[derive(Clone, Copy, Debug, PartialEq, Eq, Structural)]
pub struct Difficulty {
    pub bits: u32,
}

/// Exponent byte of a compact value: the number of significant trailing
/// bytes its target occupies.
pub open spec fn exp_of(bits: u32) -> int {
    bits as int / 0x0100_0000
}

/// Three mantissa bytes of a compact value.
pub open spec fn man_of(bits: u32) -> int {
    bits as int % 0x0100_0000
}

/// 256 raised to `k`: the weight of the byte position `k`.
pub open spec fn pow256(k: nat) -> int
    decreases k,
{
    if k == 0 {
        1
    } else {
        256 * pow256((k - 1) as nat)
    }
}

/// The integer target a compact value denotes: `mantissa * 256^(exponent-3)`.
pub open spec fn target_value(bits: u32) -> int {
    if exp_of(bits) >= 3 {
        man_of(bits) * pow256((exp_of(bits) - 3) as nat)
    } else {
        0
    }
}

/// What `Difficulty::new` does to its argument.
pub open spec fn clamp_bits(bits: u32) -> u32 {
    if bits > MAX_DIFFICULTY_BITS {
        MAX_DIFFICULTY_BITS
    } else if bits < MIN_DIFFICULTY_BITS {
        MIN_DIFFICULTY_BITS
    } else {
        bits
    }
}

/// The 16-byte big-endian expansion of a compact value: the mantissa's
/// three bytes stand at the offset the exponent selects, capped at 16
/// significant bytes.
pub open spec fn spec_target_bytes(bits: u32) -> Seq<u8> {
    let e = exp_of(bits);
    let sig = if e > 16 { 16int } else { e };
    let start = 16 - sig;
    let m = man_of(bits);
    Seq::new(16, |j: int|
        if j == start && sig >= 1 {
            (m / 0x1_0000) as u8
        } else if j == start + 1 && sig >= 2 {
            ((m / 0x100) % 0x100) as u8
        } else if j == start + 2 && sig >= 3 {
            (m % 0x100) as u8
        } else {
            0u8
        })
}

/// Index of the first non-zero byte of a 16-byte target, 16 if none.
pub open spec fn first_nonzero_index(t: Seq<u8>, i: int) -> int
    decreases 16 - i,
{
    if i < 0 || i >= 16 {
        16
    } else if t[i] != 0 {
        i
    } else {
        first_nonzero_index(t, i + 1)
    }
}

/// The compact value read back from a 16-byte target, before clamping:
/// the first non-zero byte fixes the exponent, it and up to two
/// following bytes rebuild the mantissa. All-zero reads as 0.
pub open spec fn spec_bits_of_target(t: Seq<u8>) -> u32 {
    let i = first_nonzero_index(t, 0);
    if i == 16 {
        0u32
    } else {
        let sig = 16 - i;
        let m = t[i] as int * 0x1_0000 + (if i + 1 < 16 {
            t[i + 1] as int * 0x100
        } else {
            0
        }) + (if i + 2 < 16 {
            t[i + 2] as int
        } else {
            0
        });
        (sig * 0x0100_0000 + m) as u32
    }
}

/// Number of significant bytes of an integer target: the least `n`
/// with `t < 256^n`.
pub open spec fn sig_bytes_u128(t: u128) -> int
    decreases t,
{
    if t == 0 {
        0
    } else {
        1 + sig_bytes_u128(t / 256)
    }
}

/// The compact value that normalizing an integer target yields, before
/// clamping: the exponent is the significant byte count (at least 3),
/// the mantissa the top three bytes.
pub open spec fn spec_bits_of_u128(t: u128) -> u32 {
    let e = if sig_bytes_u128(t) < 3 {
        3
    } else {
        sig_bytes_u128(t)
    };
    let m = t as int / pow256((e - 3) as nat);
    (e * 0x0100_0000 + m) as u32
}

impl Difficulty {
    /// The invariant every constructed value satisfies.
    pub open spec fn wf(self) -> bool {
        MIN_DIFFICULTY_BITS <= self.bits <= MAX_DIFFICULTY_BITS
    }

    /// Clamps the raw compact value into the valid range. Never fails.
    pub fn new(bits: u32) -> (r: Self)
        ensures
            r.wf(),
            r.bits == clamp_bits(bits),
    {
        let clamped = if bits > MAX_DIFFICULTY_BITS {
            MAX_DIFFICULTY_BITS
        } else if bits < MIN_DIFFICULTY_BITS {
            MIN_DIFFICULTY_BITS
        } else {
            bits
        };
        Difficulty { bits: clamped }
    }

    /// The 16-byte big-endian expansion of this difficulty's target.
    pub fn target(&self) -> (r: [u8; 16])
        ensures
            r@ == spec_target_bytes(self.bits),
    {
        let exponent: u32 = self.bits / 0x0100_0000;
        let mantissa: u32 = self.bits % 0x0100_0000;
        let mut out: [u8; 16] = [0u8; 16];

        let significant: usize = if exponent > 16 { 16 } else { exponent as usize };
        let start: usize = 16 - significant;

        if significant >= 1 {
            out[start] = (mantissa / 0x1_0000) as u8;
        }
        if significant >= 2 {
            out[start + 1] = ((mantissa / 0x100) % 0x100) as u8;
        }
        if significant >= 3 {
            out[start + 2] = (mantissa % 0x100) as u8;
        }

        proof {
            assert(out@ =~= spec_target_bytes(self.bits));
        }
        out
    }

    /// Reads a difficulty back from a 16-byte big-endian target,
    /// clamping the result; an all-zero target collapses to the floor.
    pub fn from_target(target: &[u8; 16]) -> (r: Self)
        ensures
            r.wf(),
            r.bits == clamp_bits(spec_bits_of_target(target@)),
    {
        let i = first_nonzero(target, 0);
        if i == 16 {
            Difficulty::new(0)
        } else {
            let sig: u32 = (16 - i) as u32;
            let mut mantissa: u32 = (target[i] as u32) * 0x1_0000;
            if i + 1 < 16 {
                mantissa = mantissa + (target[i + 1] as u32) * 0x100;
            }
            if i + 2 < 16 {
                mantissa = mantissa + target[i + 2] as u32;
            }
            Difficulty::new(sig * 0x0100_0000 + mantissa)
        }
    }

    /// The 128-bit integer form of this difficulty's target,
    /// `mantissa * 256^(exponent-3)`.
    pub fn to_target(&self) -> (r: u128)
        requires
            self.wf(),
        ensures
            r as int == target_value(self.bits),
    {
        let exponent: u32 = self.bits / 0x0100_0000;
        let mantissa: u32 = self.bits % 0x0100_0000;
        let scale = pow256_u128(exponent - 3);
        proof {
            lemma_pow256_bounds();
            lemma_pow256_mono((exponent - 3) as nat, 13);
            assert((mantissa as int) * (scale as int) < 0x1_0000_0000_0000_0000_0000_0000_0000_0000)
                by (nonlinear_arith)
                requires
                    0 <= (mantissa as int) < 0x100_0000,
                    0 <= (scale as int) <= 0x100_0000_0000_0000_0000_0000_0000,
            ;
        }
        (mantissa as u128) * scale
    }

    /// A difficulty whose target is double this one, saturating at the
    /// largest representable target: half as hard, for the auxiliary
    /// chain variant that accepts easier work.
    pub fn stem_difficulty(&self) -> (r: Self)
        requires
            self.wf(),
        ensures
            r.wf(),
            r.bits == clamp_bits(spec_bits_of_u128(spec_saturating_double(
                target_value(self.bits)))),
    {
        let target = self.to_target();
        let stem_target = if target > u128::MAX / 2 {
            u128::MAX
        } else {
            target * 2
        };
        Difficulty::from_target_u128(stem_target)
    }

    /// Normalizes a 128-bit integer target into compact form: the
    /// exponent counts its significant bytes (at least 3), the mantissa
    /// keeps the top three, and the result is clamped.
    pub fn from_target_u128(target: u128) -> (r: Self)
        ensures
            r.wf(),
            r.bits == clamp_bits(spec_bits_of_u128(target)),
    {
        proof {
            lemma_sig_bytes_le_16(target);
        }
        let mut shifted: u128 = target;
        let mut n: u32 = 0;
        while shifted > 0
            invariant
                sig_bytes_u128(target) <= 16,
                0 <= sig_bytes_u128(shifted) <= sig_bytes_u128(target),
                n == sig_bytes_u128(target) - sig_bytes_u128(shifted),
            decreases shifted,
        {
            proof {
                lemma_sig_bytes_le_16(shifted);
                lemma_sig_bytes_le_16(shifted / 256);
            }
            shifted = shifted / 256;
            n = n + 1;
        }
        proof {
            assert(sig_bytes_u128(0) == 0);
        }
        let exponent: u32 = if n < 3 { 3 } else { n };
        let scale = pow256_u128(exponent - 3);
        proof {
            lemma_sig_bytes_div(target, (exponent - 3) as nat);
        }
        let mantissa: u32 = (target / scale) as u32;
        Difficulty::new(exponent * 0x0100_0000 + mantissa)
    }
}

/// The observed timespan clamped into the allowed adjustment window
/// `[target/4, 4*target]`.
pub open spec fn spec_adjusted_timespan(actual: u64, target: u64) -> int {
    let lo = target as int / 4;
    let hi = 4 * (target as int);
    if actual as int > hi {
        hi
    } else if (actual as int) < lo {
        lo
    } else {
        actual as int
    }
}

/// The retargeted integer target: the current target scaled by the
/// clamped timespan ratio, saturating at the largest 128-bit value.
pub open spec fn spec_retarget_target(cur: int, actual: u64, target: u64) -> u128 {
    let q = cur * spec_adjusted_timespan(actual, target) / (target as int);
    if q > u128::MAX {
        u128::MAX
    } else {
        q as u128
    }
}

/// Computes the next difficulty from the current one and the observed
/// versus intended timespan of the last period. The observed timespan is
/// clamped so one period moves the target at most four-fold either way;
/// the scaled target saturates at the largest 128-bit value and is then
/// re-encoded in compact form.
pub fn adjust_difficulty(current_difficulty: Difficulty, actual_timespan: u64, target_timespan: u64) -> (r: Difficulty)
    requires
        current_difficulty.wf(),
        target_timespan >= 1,
        4 * (target_timespan as int) <= u64::MAX,
    ensures
        r.wf(),
        r.bits == clamp_bits(spec_bits_of_u128(spec_retarget_target(
            target_value(current_difficulty.bits), actual_timespan, target_timespan))),
{
    let hi: u64 = target_timespan * 4;
    let lo: u64 = target_timespan / 4;
    let adjusted: u64 = if actual_timespan > hi {
        hi
    } else if actual_timespan < lo {
        lo
    } else {
        actual_timespan
    };
    let current_target = current_difficulty.to_target();
    let new_target = mul_div_saturating(current_target, adjusted, target_timespan);
    Difficulty::from_target_u128(new_target)
}

/// `cur * adj / tt`, saturating at the largest 128-bit value.
fn mul_div_saturating(cur: u128, adj: u64, tt: u64) -> (r: u128)
    requires
        tt >= 1,
        adj as int <= 4 * (tt as int),
        4 * (tt as int) <= u64::MAX,
    ensures
        r as int == (if (cur as int) * (adj as int) / (tt as int) > u128::MAX {
            u128::MAX as int
        } else {
            (cur as int) * (adj as int) / (tt as int)
        }),
{
    if adj == 0 {
        proof {
            vstd::arithmetic::mul::lemma_mul_basics(cur as int);
            vstd::arithmetic::div_mod::lemma_div_of0(tt as int);
        }
        return 0;
    }
    let q: u128 = cur / (tt as u128);
    let rem: u128 = cur % (tt as u128);
    proof {
        vstd::arithmetic::div_mod::lemma_fundamental_div_mod(cur as int, tt as int);
        assert((rem as int) * (adj as int) <= (tt as int) * (adj as int)) by (nonlinear_arith)
            requires
                0 <= (rem as int) <= (tt as int),
                0 <= (adj as int),
        ;
        assert((tt as int) * (adj as int) <= u64::MAX * (u64::MAX as int)) by (nonlinear_arith)
            requires
                0 <= (tt as int) <= u64::MAX,
                0 <= (adj as int) <= u64::MAX,
        ;
    }
    let extra: u128 = rem * (adj as u128) / (tt as u128);
    let cap: u128 = u128::MAX / (adj as u128);
    if q > cap {
        proof {
            lemma_mul_div_sat_over(cur as int, q as int, rem as int, adj as int, tt as int);
        }
        u128::MAX
    } else {
        proof {
            vstd::arithmetic::div_mod::lemma_fundamental_div_mod(u128::MAX as int, adj as int);
            assert((q as int) * (adj as int) <= (cap as int) * (adj as int)) by (nonlinear_arith)
                requires
                    0 <= (q as int) <= (cap as int),
                    0 <= (adj as int),
            ;
            lemma_mul_div_sat_parts(cur as int, q as int, rem as int, adj as int, tt as int);
        }
        let p: u128 = q * (adj as u128);
        if extra > u128::MAX - p {
            u128::MAX
        } else {
            p + extra
        }
    }
}

/// When the whole-quotient part alone exceeds the cap, the scaled
/// target exceeds the largest 128-bit value.
proof fn lemma_mul_div_sat_over(cur: int, q: int, rem: int, adj: int, tt: int)
    requires
        tt >= 1,
        adj >= 1,
        cur == q * tt + rem,
        0 <= rem < tt,
        0 <= q,
        q > (u128::MAX as int) / adj,
    ensures
        cur * adj / tt > u128::MAX,
{
    let cap = (u128::MAX as int) / adj;
    vstd::arithmetic::div_mod::lemma_fundamental_div_mod(u128::MAX as int, adj);
    assert(q * adj >= (cap + 1) * adj) by (nonlinear_arith)
        requires
            q >= cap + 1,
            adj >= 1,
    ;
    assert((cap + 1) * adj == cap * adj + adj) by (nonlinear_arith);
    assert(q * adj > u128::MAX);
    lemma_mul_div_sat_parts(cur, q, rem, adj, tt);
}

/// Splitting the scaled target into whole-quotient and remainder parts
/// is exact.
proof fn lemma_mul_div_sat_parts(cur: int, q: int, rem: int, adj: int, tt: int)
    requires
        tt >= 1,
        adj >= 1,
        cur == q * tt + rem,
        0 <= rem < tt,
        0 <= q,
    ensures
        cur * adj / tt == q * adj + rem * adj / tt,
        rem * adj / tt >= 0,
{
    assert(cur * adj == q * adj * tt + rem * adj) by (nonlinear_arith)
        requires
            cur == q * tt + rem,
    ;
    assert(rem * adj >= 0) by (nonlinear_arith)
        requires
            rem >= 0,
            adj >= 0,
    ;
    vstd::arithmetic::div_mod::lemma_hoist_over_denominator(rem * adj, q * adj, tt as nat);
    assert((rem * adj) / tt + q * adj == (rem * adj + q * adj * tt) / tt);
    vstd::arithmetic::div_mod::lemma_div_pos_is_pos(rem * adj, tt);
}

/// Law: expanding an in-range compact value to its 16-byte target and
/// reading it back yields the very same compact value, whenever the
/// mantissa is normalized (its top byte non-zero). A mantissa below
/// `0x1_0000` loses leading zero bytes in the expansion and re-reads as
/// an equal target under a smaller exponent instead.
pub proof fn lemma_target_round_trip(bits: u32)
    requires
        MIN_DIFFICULTY_BITS <= bits <= MAX_DIFFICULTY_BITS,
        man_of(bits) >= 0x1_0000,
    ensures
        clamp_bits(spec_bits_of_target(spec_target_bytes(bits))) == bits,
{
    let e = exp_of(bits);
    let m = man_of(bits);
    assert(3 <= e <= 16);
    let t = spec_target_bytes(bits);
    let start = 16 - e;
    assert(t[start] == (m / 0x1_0000) as u8);
    assert(m / 0x1_0000 >= 1);
    lemma_first_nonzero_from(t, 0, start);
    vstd::arithmetic::div_mod::lemma_fundamental_div_mod(bits as int, 0x0100_0000);
    let mb = bits % 0x0100_0000;
    assert(((mb / 0x1_0000) * 0x1_0000 + ((mb / 0x100) % 0x100) * 0x100 + mb % 0x100) == mb)
        by (bit_vector)
        requires
            mb < 0x100_0000u32,
    ;
    assert(t[start] as int * 0x1_0000 + t[start + 1] as int * 0x100 + t[start + 2] as int == m);
    assert(spec_bits_of_target(t) == bits);
}

/// `first_nonzero_index` lands on `k` when everything before `k` is zero
/// and the byte at `k` is not.
proof fn lemma_first_nonzero_from(t: Seq<u8>, i: int, k: int)
    requires
        0 <= i <= k < 16,
        forall|j: int| i <= j < k ==> t[j] == 0,
        t[k] != 0,
    ensures
        first_nonzero_index(t, i) == k,
    decreases k - i,
{
    if i < k {
        lemma_first_nonzero_from(t, i + 1, k);
    }
}

/// Law: one retarget period never moves the integer target up by more
/// than a factor of four; when four divides the intended timespan it
/// never moves it down by more than a factor of four either. Stated of
/// the scaled 128-bit target that `adjust_difficulty` re-encodes; the
/// compact re-encoding can lower it further only by mantissa truncation,
/// under one part in 2^16 of a normalized value.
pub proof fn lemma_retarget_bound(cur: Difficulty, actual_timespan: u64, target_timespan: u64)
    requires
        cur.wf(),
        target_timespan >= 1,
        4 * (target_timespan as int) <= u64::MAX,
    ensures
        spec_retarget_target(target_value(cur.bits), actual_timespan, target_timespan) as int
            <= 4 * target_value(cur.bits),
        target_timespan % 4 == 0 ==> spec_retarget_target(target_value(cur.bits),
            actual_timespan, target_timespan) as int >= target_value(cur.bits) / 4,
{
    let c = target_value(cur.bits);
    let tt = target_timespan as int;
    let adj = spec_adjusted_timespan(actual_timespan, target_timespan);
    let q = c * adj / tt;
    lemma_target_value_nonneg(cur.bits);
    assert(tt / 4 <= adj <= 4 * tt);
    assert(c * adj <= c * (4 * tt)) by (nonlinear_arith)
        requires
            0 <= c,
            adj <= 4 * tt,
    ;
    assert(c * (4 * tt) == (4 * c) * tt) by (nonlinear_arith);
    vstd::arithmetic::div_mod::lemma_div_is_ordered(c * adj, (4 * c) * tt, tt);
    vstd::arithmetic::div_mod::lemma_div_by_multiple(4 * c, tt);
    assert(q <= 4 * c);
    if target_timespan % 4 == 0 {
        let k = tt / 4;
        vstd::arithmetic::div_mod::lemma_fundamental_div_mod(tt, 4);
        assert(tt == 4 * k);
        assert(c * k >= 0) by (nonlinear_arith)
            requires
                0 <= c,
                0 <= k,
        ;
        assert(c * adj >= c * k) by (nonlinear_arith)
            requires
                0 <= c,
                k <= adj,
        ;
        vstd::arithmetic::div_mod::lemma_div_is_ordered(c * k, c * adj, tt);
        if k == 0 {
        } else {
            assert(c * k / (4 * k) == c / 4) by {
                vstd::arithmetic::div_mod::lemma_div_denominator(c * k, k, 4);
                vstd::arithmetic::div_mod::lemma_div_by_multiple(c, k);
                assert(c * k / k == c) by {
                    vstd::arithmetic::div_mod::lemma_div_multiples_vanish(c, k);
                    assert(c * k == k * c) by (nonlinear_arith);
                }
            }
            assert(q >= c / 4);
        }
        assert(c / 4 <= u128::MAX) by {
            vstd::arithmetic::div_mod::lemma_div_is_ordered(c, u128::MAX as int, 4);
        }
    }
}

/// A compact value's integer target is never negative, and fits 128 bits
/// when the value is in range.
pub proof fn lemma_target_value_nonneg(bits: u32)
    ensures
        target_value(bits) >= 0,
        MIN_DIFFICULTY_BITS <= bits <= MAX_DIFFICULTY_BITS ==> target_value(bits) <= u128::MAX,
{
    lemma_pow256_bounds();
    if exp_of(bits) >= 3 {
        lemma_pow256_pos((exp_of(bits) - 3) as nat);
        assert(man_of(bits) * pow256((exp_of(bits) - 3) as nat) >= 0) by (nonlinear_arith)
            requires
                man_of(bits) >= 0,
                pow256((exp_of(bits) - 3) as nat) >= 0,
        ;
    }
    if MIN_DIFFICULTY_BITS <= bits <= MAX_DIFFICULTY_BITS {
        lemma_pow256_mono((exp_of(bits) - 3) as nat, 13);
        assert(man_of(bits) * pow256((exp_of(bits) - 3) as nat)
            < 0x1_0000_0000_0000_0000_0000_0000_0000_0000) by (nonlinear_arith)
            requires
                0 <= man_of(bits) < 0x100_0000,
                0 <= pow256((exp_of(bits) - 3) as nat) <= 0x100_0000_0000_0000_0000_0000_0000,
        ;
    }
}

/// Law: re-encoding an integer target in compact form keeps its
/// exponent in the representable range and never raises the target;
/// what truncating to a three-byte mantissa loses stays under one unit
/// of the mantissa's lowest byte position.
pub proof fn lemma_normalize_bounds(t: u128)
    ensures
        ({
            let b = spec_bits_of_u128(t);
            let e = if sig_bytes_u128(t) < 3 {
                3int
            } else {
                sig_bytes_u128(t)
            };
            &&& exp_of(b) == e
            &&& 3 <= e <= 16
            &&& target_value(b) <= t
            &&& t < target_value(b) + pow256((e - 3) as nat)
        }),
{
    lemma_sig_bytes_le_16(t);
    let e = if sig_bytes_u128(t) < 3 {
        3int
    } else {
        sig_bytes_u128(t)
    };
    let p = pow256((e - 3) as nat);
    lemma_pow256_pos((e - 3) as nat);
    lemma_sig_bytes_div(t, (e - 3) as nat);
    let m = t as int / p;
    vstd::arithmetic::div_mod::lemma_div_multiples_vanish_fancy(e, m, 0x0100_0000);
    let b = spec_bits_of_u128(t);
    assert(b == e * 0x0100_0000 + m);
    assert(exp_of(b) == e);
    assert(man_of(b) == m) by {
        vstd::arithmetic::div_mod::lemma_fundamental_div_mod(b as int, 0x0100_0000);
    }
    vstd::arithmetic::div_mod::lemma_fundamental_div_mod(t as int, p);
    assert(target_value(b) == m * p);
    assert(p * m == m * p) by (nonlinear_arith);
    assert((t as int) % p < p) by {
        vstd::arithmetic::div_mod::lemma_mod_division_less_than_divisor(t as int, p);
    }
    assert((t as int) % p >= 0) by {
        vstd::arithmetic::div_mod::lemma_mod_division_less_than_divisor(t as int, p);
    }
}

/// Law: one retarget period's compact re-encoding, before the final
/// clamp into the valid bits range, never carries an integer target
/// above four times the old one.
pub proof fn lemma_retarget_compact_upper(cur: Difficulty, actual_timespan: u64,
    target_timespan: u64)
    requires
        cur.wf(),
        target_timespan >= 1,
        4 * (target_timespan as int) <= u64::MAX,
    ensures
        target_value(spec_bits_of_u128(spec_retarget_target(target_value(cur.bits),
            actual_timespan, target_timespan))) <= 4 * target_value(cur.bits),
{
    lemma_retarget_bound(cur, actual_timespan, target_timespan);
    lemma_normalize_bounds(spec_retarget_target(target_value(cur.bits), actual_timespan,
        target_timespan));
}

/// Double an integer target, staying at the largest 128-bit value.
pub open spec fn spec_saturating_double(t: int) -> u128 {
    if 2 * t > u128::MAX {
        u128::MAX
    } else {
        (2 * t) as u128
    }
}

/// First index at or after `i` where a byte of the 16-byte target is
/// non-zero, 16 if none.
fn first_nonzero(t: &[u8; 16], i: usize) -> (r: usize)
    requires
        i <= 16,
    ensures
        r == first_nonzero_index(t@, i as int),
        r <= 16,
    decreases 16 - i,
{
    if i >= 16 {
        16
    } else if t[i] != 0 {
        i
    } else {
        first_nonzero(t, i + 1)
    }
}

/// `256^k` as a 128-bit integer; defined for `k` up to 15.
fn pow256_u128(k: u32) -> (r: u128)
    requires
        k <= 15,
    ensures
        r as int == pow256(k as nat),
        r >= 1,
{
    proof {
        lemma_pow256_bounds();
        lemma_pow256_pos(k as nat);
    }
    let mut r: u128 = 1;
    let mut j: u32 = 0;
    while j < k
        invariant
            j <= k <= 15,
            r as int == pow256(j as nat),
        decreases k - j,
    {
        proof {
            lemma_pow256_bounds();
            assert(pow256((j + 1) as nat) == 256 * pow256(j as nat));
            lemma_pow256_mono(j as nat, 14);
        }
        r = r * 256;
        j = j + 1;
    }
    r
}

/// `pow256` grows with its argument.
pub proof fn lemma_pow256_mono(a: nat, b: nat)
    requires
        a <= b,
    ensures
        pow256(a) <= pow256(b),
    decreases b,
{
    if a < b {
        lemma_pow256_mono(a, (b - 1) as nat);
        assert(pow256(b) == 256 * pow256((b - 1) as nat));
        assert(pow256((b - 1) as nat) >= 1) by {
            lemma_pow256_pos((b - 1) as nat);
        }
    }
}

/// `pow256` is positive.
pub proof fn lemma_pow256_pos(k: nat)
    ensures
        pow256(k) >= 1,
    decreases k,
{
    if k > 0 {
        lemma_pow256_pos((k - 1) as nat);
    }
}

/// Small powers of 256 written out, enough for 16-byte targets.
pub proof fn lemma_pow256_bounds()
    ensures
        pow256(0) == 1,
        pow256(1) == 0x100,
        pow256(2) == 0x1_0000,
        pow256(3) == 0x100_0000,
        pow256(13) == 0x100_0000_0000_0000_0000_0000_0000,
        forall|k: nat| k <= 15 ==> #[trigger] pow256(k) <= pow256(15),
        pow256(15) < 0x1_0000_0000_0000_0000_0000_0000_0000_0000,
        pow256(16) == 0x1_0000_0000_0000_0000_0000_0000_0000_0000,
{
    reveal_with_fuel(pow256, 17);
    assert(pow256(13) == 0x100_0000_0000_0000_0000_0000_0000);
    assert(pow256(15) < 0x1_0000_0000_0000_0000_0000_0000_0000_0000);
    assert forall|k: nat| k <= 15 implies #[trigger] pow256(k) <= pow256(15) by {
        lemma_pow256_mono(k, 15);
    }
}

/// The significant byte count brackets a value between two powers of 256.
proof fn lemma_sig_bytes_spread(t: u128)
    ensures
        0 <= sig_bytes_u128(t),
        (t as int) < pow256(sig_bytes_u128(t) as nat),
        t > 0 ==> (t as int) >= pow256((sig_bytes_u128(t) - 1) as nat),
    decreases t,
{
    if t > 0 {
        lemma_sig_bytes_spread(t / 256);
        let s = sig_bytes_u128(t / 256);
        assert(sig_bytes_u128(t) == 1 + s);
        assert(pow256((s + 1) as nat) == 256 * pow256(s as nat));
        assert(t as int == 256 * (t as int / 256) + (t as int % 256));
        if t / 256 > 0 {
            assert(pow256(s as nat) == 256 * pow256((s - 1) as nat));
        }
    }
}

/// A value below `256^k` has at most `k` significant bytes.
proof fn lemma_sig_bytes_bound(t: u128, k: nat)
    requires
        (t as int) < pow256(k),
    ensures
        sig_bytes_u128(t) <= k,
    decreases t,
{
    if t > 0 {
        lemma_pow256_pos(k);
        if k == 0 {
            assert(pow256(0) == 1);
        } else {
            assert(pow256(k) == 256 * pow256((k - 1) as nat));
            assert(t as int == 256 * (t as int / 256) + (t as int % 256));
            lemma_sig_bytes_bound(t / 256, (k - 1) as nat);
        }
    }
}

/// A 128-bit value has at most 16 significant bytes.
proof fn lemma_sig_bytes_le_16(t: u128)
    ensures
        0 <= sig_bytes_u128(t) <= 16,
        (t as int) < pow256(sig_bytes_u128(t) as nat),
        t > 0 ==> (t as int) >= pow256((sig_bytes_u128(t) - 1) as nat),
{
    lemma_sig_bytes_spread(t);
    lemma_pow256_bounds();
    lemma_sig_bytes_bound(t, 16);
}

/// Dividing by `256^k` keeps the top `sig - k` bytes.
proof fn lemma_sig_bytes_div(t: u128, k: nat)
    requires
        k + 3 >= sig_bytes_u128(t),
        k <= 15,
    ensures
        t as int / pow256(k) < 0x100_0000,
        t as int / pow256(k) >= 0,
{
    lemma_sig_bytes_le_16(t);
    lemma_pow256_pos(k);
    let p = pow256(k);
    assert((t as int) < pow256((k + 3) as nat)) by {
        lemma_pow256_mono(sig_bytes_u128(t) as nat, (k + 3) as nat);
    }
    assert(pow256((k + 3) as nat) == p * 0x100_0000) by {
        lemma_pow256_unfold3(k);
    }
    assert(t as int / p < 0x100_0000) by (nonlinear_arith)
        requires
            (t as int) < p * 0x100_0000,
            p >= 1,
            t >= 0,
    ;
}

/// `256^(k+3) == 256^k * 256^3`.
proof fn lemma_pow256_unfold3(k: nat)
    ensures
        pow256((k + 3) as nat) == pow256(k) * 0x100_0000,
{
    assert(pow256((k + 3) as nat) == 256 * pow256((k + 2) as nat));
    assert(pow256((k + 2) as nat) == 256 * pow256((k + 1) as nat));
    assert(pow256((k + 1) as nat) == 256 * pow256(k));
}

} // verus!
