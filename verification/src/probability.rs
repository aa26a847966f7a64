use vstd::prelude::*;

verus! {

/// A cumulative probability as the coders store it.
pub type Prob = i16;

/// Number of fractional bits of a 16-symbol cumulative distribution.
pub const CDF_BITS: usize = 15;

/// Largest value a stored entry of a blended 16-symbol distribution may take;
/// the implicit last entry is one more.
pub const CDF_MAX: Prob = 32767;

/// The total mass of a blended 16-symbol distribution.
pub const CDF_LIMIT: i64 = 32768;

/// Fixed-point precision of the blending weights in `mul_blend`.
pub const BLEND_FIXED_POINT_PRECISION: i8 = 15;

/// One in the fixed point of `mul_blend`: `2^BLEND_FIXED_POINT_PRECISION`.
const SCALE: i32 = 32768;

/// Entry `i` of the distribution toward which a blend for `symbol` moves:
/// entries before the symbol keep their unit step `i + 1`, entries from the
/// symbol on are raised by `CDF_MAX - 15`, and the last entry is the limit
/// 32768, which as a `Prob` reads -32768.
pub open spec fn blend_target(symbol: int, i: int) -> int {
    if i < symbol {
        i + 1
    } else if i == 15 {
        -32768
    } else {
        i + 1 + (CDF_MAX - 15)
    }
}

/// Sign mask of `a > b`: -1 when it holds, 0 otherwise.
#[allow(unused)]
fn gt(a: Prob, b: Prob) -> (r: Prob)
    ensures
        r == (if a > b { -1int } else { 0int }),
{
    (-((a > b) as i64)) as Prob
}

/// Sign mask of `a >= b`: -1 when it holds, 0 otherwise.
fn gte(a: Prob, b: Prob) -> (r: Prob)
    ensures
        r == (if a >= b { -1int } else { 0int }),
{
    (-((a >= b) as i64)) as Prob
}

/// `a >= b` as 1 or 0.
#[allow(unused)]
fn gte_bool(a: Prob, b: Prob) -> (r: Prob)
    ensures
        r == (if a >= b { 1int } else { 0int }),
{
    (a >= b) as Prob
}

/// Arithmetic shift right by one: the floor of half of `a`.
#[allow(unused)]
fn srl(a: Prob) -> (r: Prob)
    ensures
        r == a / 2,
{
    proof {
        lemma_halve(a);
    }
    a >> 1
}

/// Bitwise and.
fn and(a: Prob, b: Prob) -> (r: Prob)
    ensures
        r == a & b,
{
    a & b
}

/// Wrapping addition.
fn add(a: Prob, b: Prob) -> (r: Prob)
    ensures
        r == vstd::wrapping::i16_specs::wrapping_add(a, b),
{
    a.wrapping_add(b)
}

proof fn lemma_and_masks(x: i16)
    ensures
        x & -1i16 == x,
        x & 0i16 == 0,
{
    assert(x & -1i16 == x) by (bit_vector);
    assert(x & 0i16 == 0) by (bit_vector);
}


/// The target distribution of a blend for `symbol`, computed branch-free with
/// sign masks: every entry from the symbol's position on gains `CDF_MAX - 15`.
pub fn to_blend(symbol: u8) -> (r: [Prob; 16])
    ensures
        forall|i: int| 0 <= i < 16 ==> r[i] as int == blend_target(symbol as int, i),
{
    let delta: Prob = CDF_MAX - 15;
    let cdf_index: [Prob; 16] = [0, 1, 2, 3, 4, 5, 6, 7, 8, 9, 10, 11, 12, 13, 14, 15];
    let baseline: [Prob; 16] = [1, 2, 3, 4, 5, 6, 7, 8, 9, 10, 11, 12, 13, 14, 15, 16];
    let symbol16: [Prob; 16] = [symbol as i16; 16];
    let delta16: [Prob; 16] = [delta; 16];
    let mask_symbol: [Prob; 16] = [
        gte(cdf_index[0], symbol16[0]),
        gte(cdf_index[1], symbol16[1]),
        gte(cdf_index[2], symbol16[2]),
        gte(cdf_index[3], symbol16[3]),
        gte(cdf_index[4], symbol16[4]),
        gte(cdf_index[5], symbol16[5]),
        gte(cdf_index[6], symbol16[6]),
        gte(cdf_index[7], symbol16[7]),
        gte(cdf_index[8], symbol16[8]),
        gte(cdf_index[9], symbol16[9]),
        gte(cdf_index[10], symbol16[10]),
        gte(cdf_index[11], symbol16[11]),
        gte(cdf_index[12], symbol16[12]),
        gte(cdf_index[13], symbol16[13]),
        gte(cdf_index[14], symbol16[14]),
        gte(cdf_index[15], symbol16[15]),
    ];
    let add_mask: [Prob; 16] = [
        and(delta16[0], mask_symbol[0]),
        and(delta16[1], mask_symbol[1]),
        and(delta16[2], mask_symbol[2]),
        and(delta16[3], mask_symbol[3]),
        and(delta16[4], mask_symbol[4]),
        and(delta16[5], mask_symbol[5]),
        and(delta16[6], mask_symbol[6]),
        and(delta16[7], mask_symbol[7]),
        and(delta16[8], mask_symbol[8]),
        and(delta16[9], mask_symbol[9]),
        and(delta16[10], mask_symbol[10]),
        and(delta16[11], mask_symbol[11]),
        and(delta16[12], mask_symbol[12]),
        and(delta16[13], mask_symbol[13]),
        and(delta16[14], mask_symbol[14]),
        and(delta16[15], mask_symbol[15]),
    ];
    proof {
        lemma_and_masks(delta);
    }
    let to_blend: [Prob; 16] = [
        self::add(baseline[0], add_mask[0]),
        self::add(baseline[1], add_mask[1]),
        self::add(baseline[2], add_mask[2]),
        self::add(baseline[3], add_mask[3]),
        self::add(baseline[4], add_mask[4]),
        self::add(baseline[5], add_mask[5]),
        self::add(baseline[6], add_mask[6]),
        self::add(baseline[7], add_mask[7]),
        self::add(baseline[8], add_mask[8]),
        self::add(baseline[9], add_mask[9]),
        self::add(baseline[10], add_mask[10]),
        self::add(baseline[11], add_mask[11]),
        self::add(baseline[12], add_mask[12]),
        self::add(baseline[13], add_mask[13]),
        self::add(baseline[14], add_mask[14]),
        self::add(baseline[15], add_mask[15]),
    ];
    proof {
        assert forall|i: int| 0 <= i < 16 implies to_blend[i] as int == blend_target(symbol as int, i) by {
            assert(symbol16[i] == symbol as i16);
            assert(delta16[i] == delta);
        }
    }
    to_blend
}

/// Amount by which the target of a blend raises entries at and after the symbol.
const DEL: Prob = CDF_MAX - 15;

/// Table form of `to_blend`: row `symbol` of a fixed selector table.
pub fn to_blend_lut(symbol: u8) -> (r: [Prob; 16])
    requires
        symbol < 16,
    ensures
        forall|i: int| 0 <= i < 16 ==> r[i] as int == blend_target(symbol as int, i),
{
    let cdf_selector: [[Prob; 16]; 16] = [
        [1 + DEL, 2 + DEL, 3 + DEL, 4 + DEL, 5 + DEL, 6 + DEL, 7 + DEL, 8 + DEL, 9 + DEL, 10 + DEL, 11 + DEL, 12 + DEL, 13 + DEL, 14 + DEL, 15 + DEL, -32768],
        [1, 2 + DEL, 3 + DEL, 4 + DEL, 5 + DEL, 6 + DEL, 7 + DEL, 8 + DEL, 9 + DEL, 10 + DEL, 11 + DEL, 12 + DEL, 13 + DEL, 14 + DEL, 15 + DEL, -32768],
        [1, 2, 3 + DEL, 4 + DEL, 5 + DEL, 6 + DEL, 7 + DEL, 8 + DEL, 9 + DEL, 10 + DEL, 11 + DEL, 12 + DEL, 13 + DEL, 14 + DEL, 15 + DEL, -32768],
        [1, 2, 3, 4 + DEL, 5 + DEL, 6 + DEL, 7 + DEL, 8 + DEL, 9 + DEL, 10 + DEL, 11 + DEL, 12 + DEL, 13 + DEL, 14 + DEL, 15 + DEL, -32768],
        [1, 2, 3, 4, 5 + DEL, 6 + DEL, 7 + DEL, 8 + DEL, 9 + DEL, 10 + DEL, 11 + DEL, 12 + DEL, 13 + DEL, 14 + DEL, 15 + DEL, -32768],
        [1, 2, 3, 4, 5, 6 + DEL, 7 + DEL, 8 + DEL, 9 + DEL, 10 + DEL, 11 + DEL, 12 + DEL, 13 + DEL, 14 + DEL, 15 + DEL, -32768],
        [1, 2, 3, 4, 5, 6, 7 + DEL, 8 + DEL, 9 + DEL, 10 + DEL, 11 + DEL, 12 + DEL, 13 + DEL, 14 + DEL, 15 + DEL, -32768],
        [1, 2, 3, 4, 5, 6, 7, 8 + DEL, 9 + DEL, 10 + DEL, 11 + DEL, 12 + DEL, 13 + DEL, 14 + DEL, 15 + DEL, -32768],
        [1, 2, 3, 4, 5, 6, 7, 8, 9 + DEL, 10 + DEL, 11 + DEL, 12 + DEL, 13 + DEL, 14 + DEL, 15 + DEL, -32768],
        [1, 2, 3, 4, 5, 6, 7, 8, 9, 10 + DEL, 11 + DEL, 12 + DEL, 13 + DEL, 14 + DEL, 15 + DEL, -32768],
        [1, 2, 3, 4, 5, 6, 7, 8, 9, 10, 11 + DEL, 12 + DEL, 13 + DEL, 14 + DEL, 15 + DEL, -32768],
        [1, 2, 3, 4, 5, 6, 7, 8, 9, 10, 11, 12 + DEL, 13 + DEL, 14 + DEL, 15 + DEL, -32768],
        [1, 2, 3, 4, 5, 6, 7, 8, 9, 10, 11, 12, 13 + DEL, 14 + DEL, 15 + DEL, -32768],
        [1, 2, 3, 4, 5, 6, 7, 8, 9, 10, 11, 12, 13, 14 + DEL, 15 + DEL, -32768],
        [1, 2, 3, 4, 5, 6, 7, 8, 9, 10, 11, 12, 13, 14, 15 + DEL, -32768],
        [1, 2, 3, 4, 5, 6, 7, 8, 9, 10, 11, 12, 13, 14, 15, -32768],
    ];
    let row = cdf_selector[symbol as usize];
    row
}

/// Whether a value lies in the range of `i32`.
pub open spec fn fits_i32(x: int) -> bool {
    i32::MIN <= x <= i32::MAX
}

/// The weighted sum that `mul_blend` forms for entry `i`, before the shift:
/// `target[i] * blend + baseline[i] * (2^15 - blend) + bias`.
pub open spec fn blend_sum(baseline: [Prob; 16], symbol: u8, blend: i32, bias: i32, i: int) -> int {
    blend_target(symbol as int, i) * blend + (baseline[i] * (32768 - blend) + bias)
}

/// The inputs on which `mul_blend` computes without overflow: a symbol below 16
/// and every intermediate product and sum within `i32`.
pub open spec fn mul_blend_defined(baseline: [Prob; 16], symbol: u8, blend: i32, bias: i32) -> bool {
    &&& symbol < 16
    &&& fits_i32(32768 - blend)
    &&& forall|i: int|
        #![trigger baseline[i]]
        0 <= i < 16 ==> {
            &&& fits_i32(blend_target(symbol as int, i) * blend)
            &&& fits_i32(baseline[i] * (32768 - blend))
            &&& fits_i32(baseline[i] * (32768 - blend) + bias)
            &&& fits_i32(blend_sum(baseline, symbol, blend, bias, i))
        }
}

/// Entry `i` of the result of `mul_blend` for `i < 15`: the weighted sum
/// divided by `2^15`, rounded toward negative infinity, truncated to 16 bits.
pub open spec fn mul_blend_entry(baseline: [Prob; 16], symbol: u8, blend: i32, bias: i32, i: int) -> i16 {
    (blend_sum(baseline, symbol, blend, bias, i) / 32768) as i16
}

proof fn lemma_shr15(x: i32)
    ensures
        x >> 15u32 == x / 32768,
{
    assert(x >> 15u32 == x / 32768) by (bit_vector);
}

/// Mixes `baseline` with the target distribution of `symbol` in fixed point:
/// each entry becomes `(target * blend + baseline * (2^15 - blend) + bias) >> 15`,
/// and the last entry is set to the limit 32768 (which reads -32768 as a `Prob`).
pub fn mul_blend(baseline: [Prob; 16], symbol: u8, blend: i32, bias: i32) -> (r: [Prob; 16])
    requires
        mul_blend_defined(baseline, symbol, blend, bias),
    ensures
        forall|i: int| 0 <= i < 15 ==> #[trigger] r[i] == mul_blend_entry(baseline, symbol, blend, bias, i),
        r[15] == -32768,
{
    let to_blend = to_blend_lut(symbol);
    let mut epi32: [i32; 8] = [
        to_blend[0] as i32,
        to_blend[1] as i32,
        to_blend[2] as i32,
        to_blend[3] as i32,
        to_blend[4] as i32,
        to_blend[5] as i32,
        to_blend[6] as i32,
        to_blend[7] as i32,
    ];
    let scale_minus_blend = SCALE - blend;
    for i in 0..8
        invariant
            mul_blend_defined(baseline, symbol, blend, bias),
            scale_minus_blend == 32768 - blend,
            forall|k: int| 0 <= k < 16 ==> #[trigger] to_blend[k] as int == blend_target(symbol as int, k),
            forall|k: int| 0 <= k < i ==> #[trigger] epi32[k] == blend_sum(baseline, symbol, blend, bias, k) / 32768,
            forall|k: int| i <= k < 8 ==> #[trigger] epi32[k] == to_blend[k],
    {
        assert(fits_i32(baseline[i as int] * (32768 - blend)));
        epi32[i] *= blend;
        epi32[i] += baseline[i] as i32 * scale_minus_blend + bias;
        proof {
            lemma_shr15(epi32[i as int]);
        }
        epi32[i] >>= BLEND_FIXED_POINT_PRECISION;
    }
    let mut retval: [Prob; 16] = [
        epi32[0] as i16,
        epi32[1] as i16,
        epi32[2] as i16,
        epi32[3] as i16,
        epi32[4] as i16,
        epi32[5] as i16,
        epi32[6] as i16,
        epi32[7] as i16,
        0,
        0,
        0,
        0,
        0,
        0,
        0,
        0,
    ];
    let mut epi32: [i32; 8] = [
        to_blend[8] as i32,
        to_blend[9] as i32,
        to_blend[10] as i32,
        to_blend[11] as i32,
        to_blend[12] as i32,
        to_blend[13] as i32,
        to_blend[14] as i32,
        to_blend[15] as i32,
    ];
    for i in 8..16
        invariant
            mul_blend_defined(baseline, symbol, blend, bias),
            scale_minus_blend == 32768 - blend,
            forall|k: int| 0 <= k < 16 ==> #[trigger] to_blend[k] as int == blend_target(symbol as int, k),
            forall|k: int| 0 <= k < i ==> #[trigger] retval[k] == mul_blend_entry(baseline, symbol, blend, bias, k),
            forall|k: int| i - 8 <= k < 8 ==> #[trigger] epi32[k] == to_blend[k + 8],
    {
        assert(fits_i32(baseline[i as int] * (32768 - blend)));
        epi32[i - 8] *= blend;
        epi32[i - 8] += baseline[i] as i32 * scale_minus_blend + bias;
        proof {
            lemma_shr15(epi32[i - 8]);
        }
        retval[i] = (epi32[i - 8] >> BLEND_FIXED_POINT_PRECISION) as Prob;
    }
    assert(CDF_LIMIT as Prob == -32768) by (bit_vector);
    retval[15] = CDF_LIMIT as Prob;
    retval
}

/// Adaptation rates that a model of symbol probabilities can be given,
/// from the slowest to the fastest.
#[derive(Clone, Copy, Debug, PartialEq, Eq, Structural)]
pub enum Speed {
    GEOLOGIC,
    GLACIAL,
    MUD,
    SLOW,
    MED,
    FAST,
    PLANE,
    ROCKET,
}

/// An adaptive model of a binary symbol: how often each value was seen, and
/// the probability of `false` in 256ths that those counts give.
#[derive(Clone)]
pub struct CDF2 {
    counts: [u8; 2],
    pub prob: u8,
}

/// Counts after observing `symbol` with counts `f` (of `false`) and `t` (of `true`):
/// the observed count goes up by one; when it would pass 255 it stays at 255
/// if the other value was seen only once, and otherwise both counts are halved
/// (rounding up) and the observed one is set to 129.
pub open spec fn cdf2_next_counts(f: u8, t: u8, symbol: bool) -> (u8, u8) {
    let obs = if symbol { t } else { f };
    let other = if symbol { f } else { t };
    if obs < 255 {
        if symbol { (f, (t + 1) as u8) } else { ((f + 1) as u8, t) }
    } else if other == 1 {
        (f, t)
    } else if symbol {
        (((1 + f) / 2) as u8, 129u8)
    } else {
        (129u8, ((1 + t) / 2) as u8)
    }
}

/// Probability of `false`, in 256ths, after observing `symbol`: the share of
/// `false` in the new counts, except when the observed count saturated while
/// the other value was seen once, where it is pinned to 0 (for `true`) or 255.
pub open spec fn cdf2_next_prob(f: u8, t: u8, symbol: bool) -> int {
    let obs = if symbol { t } else { f };
    let other = if symbol { f } else { t };
    let n = cdf2_next_counts(f, t, symbol);
    if obs == 255 && other == 1 {
        if symbol { 0 } else { 255 }
    } else {
        256 * n.0 / (n.0 + n.1)
    }
}

impl Default for CDF2 {
    fn default() -> (r: Self)
        ensures
            r.false_count() == 1,
            r.true_count() == 1,
            r.false_prob() == 128,
    {
        CDF2 { counts: [1, 1], prob: 128 }
    }
}

proof fn lemma_ratio_below_256(a: int, b: int)
    requires
        0 <= a <= 255,
        1 <= b,
    ensures
        0 <= 256 * a / (a + b) < 256,
{
    assert(256 * a < 256 * (a + b)) by (nonlinear_arith)
        requires
            b >= 1,
    ;
    assert(0 <= 256 * a / (a + b) < 256) by (nonlinear_arith)
        requires
            0 <= 256 * a < 256 * (a + b),
            a + b >= 1,
    ;
}

impl CDF2 {
    /// How many times `false` was counted.
    pub closed spec fn false_count(&self) -> u8 {
        self.counts[0]
    }

    /// How many times `true` was counted.
    pub closed spec fn true_count(&self) -> u8 {
        self.counts[1]
    }

    /// The `prob` field: the probability of `false`, in 256ths.
    pub closed spec fn false_prob(&self) -> u8 {
        self.prob
    }

    /// The probability of `false`, in 256ths.
    pub fn prob(&self) -> (r: u8)
        ensures
            r == self.false_prob(),
    {
        self.prob
    }

    /// Both counts are nonzero, as every model starts and stays.
    pub open spec fn wf(&self) -> bool {
        self.false_count() != 0 && self.true_count() != 0
    }

    /// Observes `symbol`, updating the counts and the probability.
    pub fn blend(&mut self, symbol: bool)
        requires
            old(self).wf(),
        ensures
            final(self).wf(),
            (final(self).false_count(), final(self).true_count()) == cdf2_next_counts(
                old(self).false_count(),
                old(self).true_count(),
                symbol,
            ),
            final(self).false_prob() as int == cdf2_next_prob(
                old(self).false_count(),
                old(self).true_count(),
                symbol,
            ),
    {
        let fcount = self.counts[0];
        let tcount = self.counts[1];
        let obs: usize = if symbol == true { 1 } else { 0 };
        let overflow = self.counts[obs] == 0xff;
        self.counts[obs] = self.counts[obs].wrapping_add(1);
        if overflow {
            let not_obs: usize = if symbol == true { 0 } else { 1 };
            let neverseen = self.counts[not_obs] == 1;
            if neverseen {
                self.counts[obs] = 0xff;
                self.prob = if symbol { 0 } else { 0xff };
            } else {
                assert(((1 + fcount) as u16) >> 1u32 == ((1 + fcount) as u16) / 2) by (bit_vector);
                assert(((1 + tcount) as u16) >> 1u32 == ((1 + tcount) as u16) / 2) by (bit_vector);
                self.counts[0] = ((1 + (fcount as u16)) >> 1) as u8;
                self.counts[1] = ((1 + (tcount as u16)) >> 1) as u8;
                self.counts[obs] = 129;
                let c0 = self.counts[0];
                assert(((c0 as u16) << 8u32) == (c0 as u16) * 256) by (bit_vector);
                proof {
                    lemma_ratio_below_256(self.counts[0] as int, self.counts[1] as int);
                }
                self.prob = (((self.counts[0] as u16) << 8) / (self.counts[0] as u16
                    + self.counts[1] as u16)) as u8;
            }
        } else {
            let c0 = self.counts[0];
            assert(((c0 as u16) << 8u32) == (c0 as u16) * 256) by (bit_vector);
            proof {
                lemma_ratio_below_256(self.counts[0] as int, self.counts[1] as int);
            }
            self.prob = (((self.counts[0] as u16) << 8) / (fcount as u16 + tcount as u16 + 1)) as u8;
        }
    }

    /// The total that `prob` is measured against.
    pub fn max(&self) -> (r: i64)
        ensures
            r == 256,
    {
        return 256;
    }

    /// The base-2 logarithm of `max`.
    pub fn log_max(&self) -> (r: Option<i8>)
        ensures
            r == Some(8i8),
    {
        return Some(8);
    }
}

proof fn lemma_floor_div_monotone(a: int, b: int, c: int, d: int)
    requires
        0 <= a,
        0 < b,
        0 < d,
        a * d <= c * b,
    ensures
        a / b <= c / d,
{
    let q = a / b;
    assert(q * b <= a) by (nonlinear_arith)
        requires
            q == a / b,
            0 < b,
    ;
    assert(q * b * d <= a * d) by (nonlinear_arith)
        requires
            q * b <= a,
            0 < d,
    ;
    assert(q * d <= c) by (nonlinear_arith)
        requires
            q * b * d <= c * b,
            0 < b,
    ;
    assert(q <= c / d) by (nonlinear_arith)
        requires
            q * d <= c,
            0 < d,
    ;
}

/// A binary model learns toward what it sees: while the observed value's count
/// is below 255, observing `false` never lowers the share of `false` that the
/// counts give (in 256ths), and observing `true` never raises it.
pub proof fn law_cdf2_moves_toward_observation(f: u8, t: u8, symbol: bool)
    requires
        f != 0,
        t != 0,
        (if symbol { t } else { f }) < 255,
    ensures
        !symbol ==> cdf2_next_prob(f, t, symbol) >= 256 * f / (f + t),
        symbol ==> cdf2_next_prob(f, t, symbol) <= 256 * f / (f + t),
{
    if symbol {
        assert(cdf2_next_prob(f, t, symbol) == 256 * f / (f + t + 1));
        assert((256 * f) * (f + t) <= (256 * f) * (f + t + 1)) by (nonlinear_arith)
            requires
                f >= 0,
                t >= 0,
        ;
        lemma_floor_div_monotone(256 * f, f + t + 1, 256 * f, f + t);
    } else {
        assert(cdf2_next_prob(f, t, symbol) == 256 * (f + 1) / (f + 1 + t));
        assert((256 * f) * (f + 1 + t) <= (256 * (f + 1)) * (f + t)) by (nonlinear_arith)
            requires
                f >= 0,
                t >= 0,
        ;
        lemma_floor_div_monotone(256 * f, f + t, 256 * (f + 1), f + 1 + t);
    }
}

/// `true` and `false` follow the same counting rule: observing `true` with
/// counts `(f, t)` gives the mirror image of observing `false` with `(t, f)`.
pub proof fn law_cdf2_same_rule_for_both_values(f: u8, t: u8)
    ensures
        cdf2_next_counts(f, t, true).0 == cdf2_next_counts(t, f, false).1,
        cdf2_next_counts(f, t, true).1 == cdf2_next_counts(t, f, false).0,
{
}

proof fn lemma_floor_div_bounds(a: int, b: int)
    requires
        0 <= a,
        0 < b,
    ensures
        (a / b) * b <= a < (a / b + 1) * b,
{
    assert((a / b) * b <= a < (a / b + 1) * b) by (nonlinear_arith)
        requires
            0 <= a,
            0 < b,
    ;
}

proof fn lemma_saturated_share_below_half(x: int)
    requires
        1 <= x <= 128,
    ensures
        256 * x / (x + 129) <= 127,
{
    let q = 256 * x / (x + 129);
    assert(q * (x + 129) <= 256 * x) by (nonlinear_arith)
        requires
            q == 256 * x / (x + 129),
            x + 129 > 0,
    ;
    assert(q < 128) by (nonlinear_arith)
        requires
            q * (x + 129) <= 256 * x,
            x <= 128,
            x + 129 > 0,
    ;
}

/// How one observation changes the counts of a binary model with nonzero
/// counts, told from the observed value's side:
/// - below 255, the observed count goes up by one and the other stays;
/// - at 255 with the other value seen once, both stay and the probability of
///   `false` is pinned to 255 (after `false`) or 0 (after `true`);
/// - at 255 otherwise, the observed count becomes 129 and the other is halved
///   rounding up, so the probability still favors the observed value: at least
///   128/256 for `false` after `false`, at most 127/256 after `true`;
/// - outside the pinned case the probability of `false` is the share of
///   `false` in the new counts, in 256ths rounded down.
pub proof fn law_cdf2_observation_counts(f: u8, t: u8, symbol: bool)
    requires
        f != 0,
        t != 0,
    ensures
        ({
            let obs = if symbol { t } else { f };
            let other = if symbol { f } else { t };
            let n = cdf2_next_counts(f, t, symbol);
            let new_obs = if symbol { n.1 } else { n.0 };
            let new_other = if symbol { n.0 } else { n.1 };
            let p = cdf2_next_prob(f, t, symbol);
            &&& obs < 255 ==> new_obs == obs + 1 && new_other == other
            &&& obs == 255 && other == 1 ==> new_obs == 255 && new_other == 1 && p == (if symbol { 0int } else { 255int })
            &&& obs == 255 && other != 1 ==> new_obs == 129 && new_other == (1 + other) / 2
            &&& obs == 255 && !symbol ==> p >= 128
            &&& obs == 255 && symbol ==> p <= 127
            &&& !(obs == 255 && other == 1) ==> p * (n.0 + n.1) <= 256 * n.0 < (p + 1) * (n.0 + n.1)
        }),
{
    let n = cdf2_next_counts(f, t, symbol);
    assert(n.0 >= 1 && n.1 >= 1);
    lemma_floor_div_bounds(256 * n.0, n.0 + n.1);
    if symbol && t == 255 && f != 1 {
        lemma_saturated_share_below_half((1 + f) / 2);
    }
    if !symbol && f == 255 && t != 1 {
        let d = 129 + (1 + t) / 2;
        assert(128 * d <= 33024);
        lemma_floor_div_monotone(128, 1, 33024, d);
    }
}

/// Whether a value lies in the range of `i16`.
pub open spec fn fits_i16(x: int) -> bool {
    i16::MIN <= x <= i16::MAX
}

/// An adaptive model of a 16-symbol alphabet, kept as a cumulative
/// distribution: `cdf(s)` is the mass of the symbols `0..=s`, measured
/// against `max()`.
pub trait CDF16: Sized {
    /// The states on which `valid` is defined.
    spec fn wf(&self) -> bool;

    /// The symbols that `blend` accepts in a given state.
    spec fn blend_requires(&self, symbol: u8) -> bool;

    /// What `cdf` returns for `symbol`.
    spec fn cdf_spec(&self, symbol: int) -> int;

    /// What `max` returns.
    spec fn max_spec(&self) -> int;

    /// What `valid` returns.
    spec fn valid_spec(&self) -> bool;

    /// Observes `symbol`, moving the distribution toward it.
    fn blend(&mut self, symbol: u8)
        requires
            old(self).blend_requires(symbol),
        ensures
            old(self).wf() ==> final(self).wf(),
    ;

    /// Whether the distribution is well formed.
    fn valid(&self) -> (r: bool)
        requires
            self.wf(),
        ensures
            r == self.valid_spec(),
    ;

    /// The cumulative mass of the symbols `0..=symbol`, normalized to
    /// `max`: the mass of all sixteen symbols is `max`.
    fn cdf(&self, symbol: u8) -> (r: Prob)
        requires
            symbol < 16,
        ensures
            r as int == self.cdf_spec(symbol as int),
            symbol == 15 ==> r as int == self.max_spec(),
    ;

    /// The mass of `symbol` alone: `cdf(symbol) - cdf(symbol - 1)`, or
    /// `cdf(0)` for the first symbol.
    fn pdf(&self, symbol: u8) -> (r: Prob)
        requires
            symbol < 16,
            symbol > 0 ==> fits_i16(self.cdf_spec(symbol as int) - self.cdf_spec(symbol - 1)),
        ensures
            r as int == (if symbol == 0 {
                self.cdf_spec(0)
            } else {
                self.cdf_spec(symbol as int) - self.cdf_spec(symbol - 1)
            }),
    {
        if symbol == 0 {
            self.cdf(symbol)
        } else {
            self.cdf(symbol) - self.cdf(symbol - 1)
        }
    }

    /// The total that `cdf` and `pdf` are measured against.
    fn max(&self) -> (r: Prob)
        ensures
            r as int == self.max_spec(),
    ;

    /// The base-2 logarithm of `max`, where the model offers one, to support
    /// bit-shifting.
    fn log_max(&self) -> (r: Option<i8>)
        ensures
            r matches Some(k) ==> 0 <= k < 15 && vstd::arithmetic::power2::pow2(k as nat) == self.max_spec(),
        default_ensures
            r is None,
    {
        None
    }
}

/// The table and the sign-mask computation of the blend target agree: any
/// two arrays that meet what `to_blend` and `to_blend_lut` promise for the same
/// symbol below 16 are equal.
pub proof fn law_blend_lut_matches_masks(symbol: u8, masked: [Prob; 16], table: [Prob; 16])
    requires
        symbol < 16,
        forall|i: int| 0 <= i < 16 ==> #[trigger] masked[i] as int == blend_target(symbol as int, i),
        forall|i: int| 0 <= i < 16 ==> #[trigger] table[i] as int == blend_target(symbol as int, i),
    ensures
        masked == table,
{
    assert(masked =~= table);
}

/// A 16-symbol model that moves toward each observed symbol by mixing its
/// distribution with a near-step target in fixed point (see `mul_blend`).
#[derive(Clone)]
pub struct BlendCDF16 {
    pub cdf: [Prob; 16],
}

impl Default for BlendCDF16 {
    /// The uniform distribution: entry `i` is `(i + 1) * 2048`, and the last
    /// entry holds the limit 32768, which reads -32768 as a `Prob`.
    fn default() -> (r: Self)
        ensures
            forall|i: int| 0 <= i < 15 ==> #[trigger] r.cdf[i] == (i + 1) * 2048,
            r.cdf[15] == -32768,
            blend_entries_in_range(r.cdf),
            r.wf(),
    {
        assert(CDF_LIMIT as Prob == -32768) by (bit_vector);
        BlendCDF16 {
            cdf: [
                (1 * CDF_LIMIT / 16) as Prob,
                (2 * CDF_LIMIT / 16) as Prob,
                (3 * CDF_LIMIT / 16) as Prob,
                (4 * CDF_LIMIT / 16) as Prob,
                (5 * CDF_LIMIT / 16) as Prob,
                (6 * CDF_LIMIT / 16) as Prob,
                (7 * CDF_LIMIT / 16) as Prob,
                (8 * CDF_LIMIT / 16) as Prob,
                (9 * CDF_LIMIT / 16) as Prob,
                (10 * CDF_LIMIT / 16) as Prob,
                (11 * CDF_LIMIT / 16) as Prob,
                (12 * CDF_LIMIT / 16) as Prob,
                (13 * CDF_LIMIT / 16) as Prob,
                (14 * CDF_LIMIT / 16) as Prob,
                (15 * CDF_LIMIT / 16) as Prob,
                CDF_LIMIT as Prob,
            ],
        }
    }
}

/// The first fifteen entries lie in `1..=CDF_MAX`.
pub open spec fn blend_entries_in_range(cdf: [Prob; 16]) -> bool {
    forall|i: int| 0 <= i < 15 ==> 0 < #[trigger] cdf[i] <= CDF_MAX
}

proof fn lemma_blend_step_in_range(t: int, b: int)
    requires
        1 <= t <= 32767,
        1 <= b <= 32767,
    ensures
        1 <= (t * 128 + (b * 32640 + 0)) / 32768 <= 32767,
{
    assert(32768 <= t * 128 + b * 32640 <= 32767 * 32768);
    assert(1 <= (t * 128 + (b * 32640 + 0)) / 32768 <= 32767) by (nonlinear_arith)
        requires
            32768 <= t * 128 + b * 32640 <= 32767 * 32768,
    ;
}

impl CDF16 for BlendCDF16 {
    /// `valid` checks the last entry only once the others pass, and then
    /// insists on the limit: a state is defined when it holds the limit
    /// whenever the first fifteen entries are in range.
    open spec fn wf(&self) -> bool {
        blend_entries_in_range(self.cdf) ==> self.cdf[15] == -32768
    }

    /// The target table has rows for the sixteen symbols only.
    open spec fn blend_requires(&self, symbol: u8) -> bool {
        symbol < 16
    }

    open spec fn cdf_spec(&self, symbol: int) -> int {
        if symbol == 15 {
            CDF_MAX as int
        } else {
            self.cdf[symbol] as int
        }
    }

    open spec fn max_spec(&self) -> int {
        CDF_MAX as int
    }

    open spec fn valid_spec(&self) -> bool {
        blend_entries_in_range(self.cdf)
    }

    fn valid(&self) -> (r: bool) {
        let mut i: usize = 0;
        while i < 15
            invariant
                i <= 15,
                forall|k: int| 0 <= k < i ==> 0 < #[trigger] self.cdf[k] <= CDF_MAX,
            decreases 15 - i,
        {
            let item = self.cdf[i];
            if item <= 0 || !(item <= CDF_MAX) {
                return false;
            }
            i += 1;
        }
        return true;
    }

    /// Mixes the distribution with the target of `symbol` at weight 128/32768;
    /// the result is `mul_blend(cdf, symbol, 128, 0)`, and in-range entries
    /// stay in range.
    fn blend(&mut self, symbol: u8)
        ensures
            forall|i: int|
                0 <= i < 15 ==> #[trigger] final(self).cdf[i] == mul_blend_entry(old(self).cdf, symbol, 128, 0, i),
            final(self).cdf[15] == -32768,
            blend_entries_in_range(old(self).cdf) ==> blend_entries_in_range(final(self).cdf),
    {
        proof {
            assert forall|i: int| 0 <= i < 16 implies {
                &&& fits_i32(blend_target(symbol as int, i) * 128i32)
                &&& fits_i32(#[trigger] self.cdf[i] * (32768 - 128i32))
                &&& fits_i32(self.cdf[i] * (32768 - 128i32) + 0i32)
                &&& fits_i32(blend_sum(self.cdf, symbol, 128, 0, i))
            } by {}
        }
        let ghost old_cdf = self.cdf;
        self.cdf = mul_blend(self.cdf, symbol, 128, 0);
        proof {
            if blend_entries_in_range(old_cdf) {
                assert forall|i: int| 0 <= i < 15 implies 0 < #[trigger] self.cdf[i] <= CDF_MAX by {
                    lemma_blend_step_in_range(blend_target(symbol as int, i), old_cdf[i] as int);
                }
            }
        }
    }

    fn max(&self) -> (r: Prob) {
        assert(self.max_spec() == 32767);
        CDF_MAX as Prob
    }

    fn cdf(&self, symbol: u8) -> (r: Prob) {
        match symbol {
            15 => self.max(),
            _ => self.cdf[symbol as usize],
        }
    }
}

/// A 16-symbol model that counts: each observation adds one to the cumulative
/// entries from the symbol on, and the counts are halved once the total nears
/// the top of the `Prob` range.
#[derive(Clone)]
pub struct FrequentistCDF16 {
    pub cdf: [Prob; 16],
}

impl Default for FrequentistCDF16 {
    /// One count for each symbol: entry `i` is `i + 1`.
    fn default() -> (r: Self)
        ensures
            forall|i: int| 0 <= i < 16 ==> #[trigger] r.cdf[i] == i + 1,
            frequentist_ordered(r.cdf),
    {
        FrequentistCDF16 { cdf: [1, 2, 3, 4, 5, 6, 7, 8, 9, 10, 11, 12, 13, 14, 15, 16] }
    }
}

/// Total at which a frequentist model halves its counts.
pub const FREQUENTIST_LIMIT: Prob = CDF_MAX - 32;

/// Entry `i` after one count is added to the entries from `symbol` on
/// (with 16-bit wrapping, as the model adds).
pub open spec fn frequentist_raised(cdf: [Prob; 16], symbol: int, i: int) -> i16 {
    if i >= symbol {
        vstd::wrapping::i16_specs::wrapping_add(cdf[i], 1)
    } else {
        cdf[i]
    }
}

/// Entry `i` after a frequentist blend of `symbol`: the raised entry, and, when
/// the raised total reaches `FREQUENTIST_LIMIT`, half (rounded down) of the
/// raised entry plus the bias `i + 1`.
pub open spec fn frequentist_blend_entry(cdf: [Prob; 16], symbol: int, i: int) -> int {
    if frequentist_raised(cdf, symbol, 15) >= FREQUENTIST_LIMIT {
        vstd::wrapping::i16_specs::wrapping_add(frequentist_raised(cdf, symbol, i), (i + 1) as i16) / 2
    } else {
        frequentist_raised(cdf, symbol, i) as int
    }
}

/// What `FrequentistCDF16::valid` checks: the first fifteen entries are
/// positive and strictly increasing.
pub open spec fn frequentist_increasing(cdf: [Prob; 16]) -> bool {
    &&& 0 < cdf[0]
    &&& forall|i: int, j: int| 0 <= i < j < 15 ==> cdf[i] < cdf[j]
}

/// The shape every frequentist model keeps from its default on: all sixteen
/// entries positive and strictly increasing, and the total below the limit.
pub open spec fn frequentist_ordered(cdf: [Prob; 16]) -> bool {
    &&& 0 < cdf[0]
    &&& forall|i: int, j: int| 0 <= i < j < 16 ==> cdf[i] < cdf[j]
    &&& cdf[15] < FREQUENTIST_LIMIT
}

proof fn lemma_frequentist_blend_keeps_order(cdf: [Prob; 16], symbol: int)
    requires
        frequentist_ordered(cdf),
        0 <= symbol,
    ensures
        0 < frequentist_blend_entry(cdf, symbol, 0),
        forall|i: int, j: int|
            0 <= i < j < 16 ==> #[trigger] frequentist_blend_entry(cdf, symbol, i)
                < #[trigger] frequentist_blend_entry(cdf, symbol, j),
        frequentist_blend_entry(cdf, symbol, 15) < FREQUENTIST_LIMIT,
{
    assert forall|i: int| 0 <= i < 16 implies #[trigger] frequentist_raised(cdf, symbol, i) == cdf[i] + (
    if i >= symbol {
        1int
    } else {
        0int
    }) by {
        if i < 15 {
            assert(cdf[i] < cdf[15]);
        }
    }
    assert forall|i: int, j: int| 0 <= i < j < 16 implies #[trigger] frequentist_blend_entry(cdf, symbol, i)
        < #[trigger] frequentist_blend_entry(cdf, symbol, j) by {
        assert(cdf[i] < cdf[j]);
        assert(frequentist_raised(cdf, symbol, i) < frequentist_raised(cdf, symbol, j));
        assert(frequentist_raised(cdf, symbol, j) <= frequentist_raised(cdf, symbol, 15)) by {
            if j < 15 {
                assert(cdf[j] < cdf[15]);
            }
        }
    }
    assert(0 < frequentist_blend_entry(cdf, symbol, 0));
    assert(frequentist_blend_entry(cdf, symbol, 15) < FREQUENTIST_LIMIT);
}

proof fn lemma_halve(x: i16)
    ensures
        x >> 1u32 == x / 2,
{
    assert(x >> 1u32 == x / 2) by (bit_vector);
}

impl CDF16 for FrequentistCDF16 {
    open spec fn wf(&self) -> bool {
        true
    }

    /// Any symbol: one of 16 or more raises no entry.
    open spec fn blend_requires(&self, symbol: u8) -> bool {
        true
    }

    open spec fn cdf_spec(&self, symbol: int) -> int {
        self.cdf[symbol] as int
    }

    open spec fn max_spec(&self) -> int {
        self.cdf[15] as int
    }

    open spec fn valid_spec(&self) -> bool {
        frequentist_increasing(self.cdf)
    }

    /// Adds one count to the entries from `symbol` on, then halves all counts
    /// (after adding the bias `i + 1` to entry `i`) once the total reaches
    /// `FREQUENTIST_LIMIT`. An ordered model stays ordered.
    fn blend(&mut self, symbol: u8)
        ensures
            forall|i: int|
                0 <= i < 16 ==> #[trigger] final(self).cdf[i] == frequentist_blend_entry(
                    old(self).cdf,
                    symbol as int,
                    i,
                ),
            frequentist_ordered(old(self).cdf) ==> frequentist_ordered(final(self).cdf),
    {
        let cdf_bias: [Prob; 16] = [1, 2, 3, 4, 5, 6, 7, 8, 9, 10, 11, 12, 13, 14, 15, 16];
        let ghost c0 = self.cdf;
        let mut i: usize = symbol as usize;
        while i < 16
            invariant
                symbol <= i,
                i <= 16 || i == symbol,
                forall|k: int|
                    0 <= k < 16 ==> #[trigger] self.cdf[k] == (if symbol <= k < i {
                        frequentist_raised(c0, symbol as int, k)
                    } else {
                        c0[k]
                    }),
            decreases 16 - i,
        {
            self.cdf[i] = self.cdf[i].wrapping_add(1);
            i += 1;
        }
        let ghost c1 = self.cdf;
        assert(forall|k: int| 0 <= k < 16 ==> #[trigger] c1[k] == frequentist_raised(c0, symbol as int, k));
        if self.cdf[15] >= FREQUENTIST_LIMIT {
            for i in 0..16
                invariant
                    c1[15] >= FREQUENTIST_LIMIT,
                    forall|k: int| 0 <= k < 16 ==> #[trigger] c1[k] == frequentist_raised(c0, symbol as int, k),
                    forall|k: int| 0 <= k < 16 ==> #[trigger] cdf_bias[k] == k + 1,
                    forall|k: int|
                        0 <= k < 16 ==> #[trigger] self.cdf[k] == (if k < i {
                            frequentist_blend_entry(c0, symbol as int, k)
                        } else {
                            c1[k] as int
                        }),
            {
                let sum = self.cdf[i].wrapping_add(cdf_bias[i]);
                proof {
                    lemma_halve(sum);
                }
                self.cdf[i] = sum >> 1;
            }
        }
        proof {
            if frequentist_ordered(c0) {
                lemma_frequentist_blend_keeps_order(c0, symbol as int);
                assert(forall|i: int| 0 <= i < 16 ==> #[trigger] self.cdf[i] == frequentist_blend_entry(c0, symbol as int, i));
            }
        }
    }

    fn valid(&self) -> (r: bool) {
        let mut prev: Prob = 0;
        let mut i: usize = 0;
        while i < 15
            invariant
                i <= 15,
                prev == (if i == 0 { 0 } else { self.cdf[i - 1] }),
                i > 0 ==> 0 < self.cdf[0],
                forall|a: int, b: int| 0 <= a < b < i ==> self.cdf[a] < self.cdf[b],
            decreases 15 - i,
        {
            let item = self.cdf[i];
            if item <= prev {
                return false;
            }
            prev = item;
            i += 1;
        }
        return true;
    }

    fn max(&self) -> (r: Prob) {
        self.cdf[15]
    }

    fn cdf(&self, symbol: u8) -> (r: Prob) {
        assert(symbol == 15 ==> self.cdf_spec(symbol as int) == self.max_spec());
        self.cdf[symbol as usize]
    }
}

/// The mass that a 16-symbol model gives to `symbol` alone.
pub open spec fn pdf_of<C: CDF16>(c: C, symbol: int) -> int {
    if symbol == 0 {
        c.cdf_spec(0)
    } else {
        c.cdf_spec(symbol) - c.cdf_spec(symbol - 1)
    }
}

/// The blend target of a symbol below 16 steps exactly at that symbol: entry
/// `i` is the unit step `i + 1` before it, `i + 1 + CDF_MAX - 15` from it up to
/// entry 14, and the limit (read as -32768) at entry 15. Its mass thus sits
/// on the observed symbol.
pub proof fn law_blend_target_steps_at_symbol(symbol: int, i: int)
    requires
        0 <= symbol < 16,
        0 <= i < 16,
    ensures
        i < symbol ==> blend_target(symbol, i) == i + 1,
        symbol <= i < 15 ==> blend_target(symbol, i) == i + 32753,
        i == 15 ==> blend_target(symbol, i) == -32768,
        0 < i < 15 ==> blend_target(symbol, i) - blend_target(symbol, i - 1) == (if i == symbol {
            32753int
        } else {
            1int
        }),
{
}

/// Mixing at weight 0 (without bias) keeps the baseline, and mixing at full
/// weight `2^15` gives the target of the symbol.
pub proof fn law_mul_blend_weight_extremes(baseline: [Prob; 16], symbol: u8, i: int)
    requires
        symbol < 16,
        0 <= i < 15,
    ensures
        mul_blend_entry(baseline, symbol, 0, 0, i) == baseline[i],
        mul_blend_entry(baseline, symbol, 32768, 0, i) == blend_target(symbol as int, i),
{
    assert(blend_sum(baseline, symbol, 0, 0, i) == baseline[i] * 32768);
    assert(blend_sum(baseline, symbol, 32768, 0, i) == blend_target(symbol as int, i) * 32768);
}

/// Blending a symbol into the uniform model moves mass onto that symbol and
/// off every other: the observed symbol's mass rises from 2048 (2047 for the
/// last symbol) to 2167, and every other symbol's mass drops to 2040.
pub proof fn law_blend_uniform_learns_symbol(before: BlendCDF16, after: BlendCDF16, symbol: u8)
    requires
        symbol < 16,
        forall|i: int| 0 <= i < 15 ==> #[trigger] before.cdf[i] == (i + 1) * 2048,
        before.cdf[15] == -32768,
        forall|i: int| 0 <= i < 15 ==> #[trigger] after.cdf[i] == mul_blend_entry(before.cdf, symbol, 128, 0, i),
        after.cdf[15] == -32768,
    ensures
        forall|j: int| 0 <= j < 15 ==> #[trigger] pdf_of(before, j) == 2048,
        pdf_of(before, 15) == 2047,
        pdf_of(after, symbol as int) == 2167,
        forall|j: int| 0 <= j < 16 && j != symbol ==> #[trigger] pdf_of(after, j) == 2040,
{
    assert forall|i: int| 0 <= i < 15 implies #[trigger] after.cdf[i] == 2040 * (i + 1) + (if i >= symbol {
        127int
    } else {
        0int
    }) by {
        let t = blend_target(symbol as int, i);
        assert(blend_sum(before.cdf, symbol, 128, 0, i) == t * 128 + (i + 1) * 2048 * 32640);
        assert((i + 1) * 2048 * 32640 == 2040 * (i + 1) * 32768);
        if i >= symbol {
            assert(t == i + 32753);
            assert((t * 128 + 2040 * (i + 1) * 32768) / 32768 == 2040 * (i + 1) + 127);
        } else {
            assert(t == i + 1);
            assert((t * 128 + 2040 * (i + 1) * 32768) / 32768 == 2040 * (i + 1));
        }
    }
    assert forall|j: int| 0 <= j < 16 && j != symbol implies #[trigger] pdf_of(after, j) == 2040 by {
        if j > 0 && j < 15 {
            assert(after.cdf[j] == 2040 * (j + 1) + (if j >= symbol { 127int } else { 0int }));
            assert(after.cdf[j - 1] == 2040 * j + (if j - 1 >= symbol { 127int } else { 0int }));
        } else if j == 0 {
            assert(after.cdf[0] == 2040);
        } else {
            assert(after.cdf[14] == 2040 * 15 + 127);
        }
    }
    if symbol > 0 && symbol < 15 {
        assert(after.cdf[symbol as int] == 2040 * (symbol + 1) + 127);
        assert(after.cdf[symbol - 1] == 2040 * symbol);
    } else if symbol == 0 {
        assert(after.cdf[0] == 2040 + 127);
    } else {
        assert(after.cdf[14] == 2040 * 15);
    }
    assert forall|j: int| 0 <= j < 15 implies #[trigger] pdf_of(before, j) == 2048 by {
        if j > 0 {
            assert(before.cdf[j] == (j + 1) * 2048);
            assert(before.cdf[j - 1] == j * 2048);
        }
    }
    assert(before.cdf[14] == 15 * 2048);
}

/// A frequentist model counts: when its total stays below the halving limit,
/// observing a symbol below 16 adds one to every entry from that symbol on and
/// nothing else, so that symbol's mass and the total grow by one and every
/// other symbol's mass is unchanged; a symbol of 16 or more changes nothing.
pub proof fn law_frequentist_blend_counts_symbol(before: FrequentistCDF16, after: FrequentistCDF16, symbol: u8)
    requires
        frequentist_ordered(before.cdf),
        before.cdf[15] + 1 < FREQUENTIST_LIMIT,
        forall|i: int| 0 <= i < 16 ==> #[trigger] after.cdf[i] == frequentist_blend_entry(before.cdf, symbol as int, i),
    ensures
        forall|i: int| 0 <= i < 16 ==> #[trigger] after.cdf[i] == before.cdf[i] + (if i >= symbol { 1int } else { 0int }),
        symbol < 16 ==> pdf_of(after, symbol as int) == pdf_of(before, symbol as int) + 1,
        symbol < 16 ==> after.max_spec() == before.max_spec() + 1,
        forall|j: int| 0 <= j < 16 && j != symbol ==> #[trigger] pdf_of(after, j) == pdf_of(before, j),
{
    assert forall|i: int| 0 <= i < 16 implies #[trigger] frequentist_raised(before.cdf, symbol as int, i) == before.cdf[i] + (
    if i >= symbol {
        1int
    } else {
        0int
    }) by {
        if i < 15 {
            assert(before.cdf[i] < before.cdf[15]);
        }
    }
    assert(frequentist_raised(before.cdf, symbol as int, 15) < FREQUENTIST_LIMIT);
    assert forall|i: int| 0 <= i < 16 implies #[trigger] after.cdf[i] == before.cdf[i] + (if i >= symbol {
        1int
    } else {
        0int
    }) by {
        assert(after.cdf[i] == frequentist_raised(before.cdf, symbol as int, i));
    }
    assert forall|j: int| 0 <= j < 16 && j != symbol implies #[trigger] pdf_of(after, j) == pdf_of(before, j) by {
        assert(after.cdf[j] == before.cdf[j] + (if j >= symbol { 1int } else { 0int }));
        if j > 0 {
            assert(after.cdf[j - 1] == before.cdf[j - 1] + (if j - 1 >= symbol { 1int } else { 0int }));
        }
    }
    if symbol < 16 {
        assert(after.cdf[symbol as int] == before.cdf[symbol as int] + 1);
        if symbol > 0 {
            assert(after.cdf[symbol - 1] == before.cdf[symbol - 1]);
        }
        assert(after.cdf[15] == before.cdf[15] + 1);
    }
}

/// Mixing at a weight between 0 and `2^15` (without bias) lands each entry
/// between its baseline and its target, and raising the bias by `2^15`
/// raises the entry by exactly one.
pub proof fn law_mul_blend_mixes_between(baseline: [Prob; 16], symbol: u8, blend: i32, bias: i32, i: int)
    requires
        symbol < 16,
        0 <= i < 15,
        0 <= blend <= 32768,
    ensures
        ({
            let t = blend_target(symbol as int, i);
            let b = baseline[i] as int;
            let lo = if t < b { t } else { b };
            let hi = if t < b { b } else { t };
            lo <= blend_sum(baseline, symbol, blend, 0, i) / 32768 <= hi
        }),
        blend_sum(baseline, symbol, blend, bias, i) + 32768 == blend_sum(baseline, symbol, blend, (bias + 32768) as i32, i)
            ==> blend_sum(baseline, symbol, blend, (bias + 32768) as i32, i) / 32768 == blend_sum(baseline, symbol, blend, bias, i)
            / 32768 + 1,
{
    let t = blend_target(symbol as int, i);
    let b = baseline[i] as int;
    let w = blend as int;
    let lo = if t < b { t } else { b };
    let hi = if t < b { b } else { t };
    let s = blend_sum(baseline, symbol, blend, 0, i);
    assert(s == t * w + b * (32768 - w));
    assert(lo * 32768 <= s <= hi * 32768) by (nonlinear_arith)
        requires
            s == t * w + b * (32768 - w),
            0 <= w <= 32768,
            lo <= t <= hi,
            lo <= b <= hi,
    ;
    assert(lo <= s / 32768 <= hi) by (nonlinear_arith)
        requires
            lo * 32768 <= s <= hi * 32768,
    ;
}

/// What the two validity checks accept: a blended model is valid exactly when
/// each of its first fifteen entries lies in `1..=CDF_MAX`; a frequentist
/// model exactly when its first entry is positive and each of its first
/// fifteen entries is below the next.
pub proof fn law_validity_checks(b: BlendCDF16, f: FrequentistCDF16)
    ensures
        b.valid_spec() <==> forall|i: int| 0 <= i < 15 ==> 1 <= #[trigger] b.cdf[i] <= 32767,
        f.valid_spec() <==> (f.cdf[0] > 0 && forall|i: int| 0 <= i < 14 ==> #[trigger] f.cdf[i] < f.cdf[i + 1]),
{
    if f.cdf[0] > 0 && forall|i: int| 0 <= i < 14 ==> #[trigger] f.cdf[i] < f.cdf[i + 1] {
        assert forall|i: int, j: int| 0 <= i < j < 15 implies f.cdf[i] < f.cdf[j] by {
            lemma_adjacent_increasing(f.cdf, i, j);
        }
    }
}

proof fn lemma_adjacent_increasing(c: [Prob; 16], i: int, j: int)
    requires
        forall|k: int| 0 <= k < 14 ==> #[trigger] c[k] < c[k + 1],
        0 <= i < j < 15,
    ensures
        c[i] < c[j],
    decreases j - i,
{
    if j > i + 1 {
        lemma_adjacent_increasing(c, i, j - 1);
        assert(c[j - 1] < c[j]);
    } else {
        assert(c[i] < c[i + 1]);
    }
}

/// When an observation brings a frequentist model's total to the halving
/// limit, every entry is halved after adding its bias `i + 1` (rounding down),
/// so the new total is half of the raised total plus 16, and the model stays
/// ordered.
pub proof fn law_frequentist_halving(before: FrequentistCDF16, after: FrequentistCDF16, symbol: u8)
    requires
        frequentist_ordered(before.cdf),
        symbol < 16,
        before.cdf[15] + 1 >= FREQUENTIST_LIMIT,
        forall|i: int| 0 <= i < 16 ==> #[trigger] after.cdf[i] == frequentist_blend_entry(before.cdf, symbol as int, i),
    ensures
        forall|i: int|
            0 <= i < 16 ==> #[trigger] after.cdf[i] == (before.cdf[i] + (if i >= symbol { 1int } else { 0int }) + i + 1) / 2,
        after.max_spec() == (before.cdf[15] + 17) / 2,
        frequentist_ordered(after.cdf),
{
    assert forall|i: int| 0 <= i < 16 implies #[trigger] frequentist_raised(before.cdf, symbol as int, i) == before.cdf[i] + (
    if i >= symbol {
        1int
    } else {
        0int
    }) by {
        if i < 15 {
            assert(before.cdf[i] < before.cdf[15]);
        }
    }
    assert forall|i: int| 0 <= i < 16 implies #[trigger] after.cdf[i] == (before.cdf[i] + (if i >= symbol {
        1int
    } else {
        0int
    }) + i + 1) / 2 by {
        assert(frequentist_raised(before.cdf, symbol as int, i) == before.cdf[i] + (if i >= symbol { 1int } else { 0int }));
    }
    assert(after.cdf[15] == (before.cdf[15] + 17) / 2);
    lemma_frequentist_blend_keeps_order(before.cdf, symbol as int);
    assert forall|i: int, j: int| 0 <= i < j < 16 implies after.cdf[i] < after.cdf[j] by {
        assert(frequentist_blend_entry(before.cdf, symbol as int, i) < frequentist_blend_entry(before.cdf, symbol as int, j));
    }
    assert(frequentist_blend_entry(before.cdf, symbol as int, 0) > 0);
    assert(frequentist_blend_entry(before.cdf, symbol as int, 15) < FREQUENTIST_LIMIT);
}

/// Every ordered frequentist model passes `valid`.
pub proof fn lemma_frequentist_ordered_is_valid(cdf: [Prob; 16])
    requires
        frequentist_ordered(cdf),
    ensures
        frequentist_increasing(cdf),
{
}

/// Largest value `simple_rand` returns.
pub const RAND_MAX: u32 = 32767;

/// A linear congruential generator: advances `state` to
/// `state * 1103515245 + 12345` (mod 2^64) and returns bits 16..31 of the new
/// state, reduced modulo `RAND_MAX + 1`.
pub fn simple_rand(state: &mut u64) -> (r: u32)
    ensures
        *final(state) == vstd::wrapping::u64_specs::wrapping_add(
            vstd::wrapping::u64_specs::wrapping_mul(*old(state), 1103515245),
            12345,
        ),
        r as int == (((*final(state) / 65536) as u32) as int) % 32768,
        r <= RAND_MAX,
{
    *state = (*state).wrapping_mul(1103515245).wrapping_add(12345);
    return ((*state / 65536) as u32 % (RAND_MAX + 1)) as u32;
}

} // verus!
