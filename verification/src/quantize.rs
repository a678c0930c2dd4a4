use vstd::prelude::*;
use vstd::arithmetic::div_mod::{
    lemma_basic_div, lemma_div_denominator, lemma_div_is_ordered, lemma_div_multiples_vanish,
    lemma_div_multiples_vanish_quotient,
};
use vstd::arithmetic::power2::{
    lemma2_to64, lemma2_to64_rest, lemma_pow2_adds, lemma_pow2_pos,
    lemma_pow2_strictly_increases, lemma_pow2_unfold, pow2,
};
use crate::error::ModelError;
use crate::table::{lemma_prefix_sum_agrees, prefix_sum, QuantizedPDFSet, SYMBOLS};
use crate::weight::{decode, is_finite, is_positive, magnitude, sign_bit, Finite};

verus! {

/// The most that the scaled weights of all symbols may add up to: the
/// largest 32-bit count less one unit for each of the 256 symbols, so that
/// raising every count by one cannot overflow.
pub const CAPACITY: u32 = 0xFFFF_FEFF;

/// The share of the capacity that `weight` takes of `total`, rounded down:
/// `floor(CAPACITY * weight / total)`. A weight below zero takes none.
pub open spec fn scaled(weight: u64, total: u64) -> nat {
    if sign_bit(weight) {
        0
    } else {
        (CAPACITY as nat * magnitude(weight)) / magnitude(total)
    }
}

/// The scaled weights of the first `n` symbols, added up.
pub open spec fn scaled_sum(weights: Seq<u64>, total: u64, n: int) -> nat
    decreases n,
{
    if n <= 0 {
        0
    } else {
        scaled_sum(weights, total, n - 1) + scaled(weights[n - 1], total)
    }
}

/// Whether every weight encodes a number.
pub open spec fn all_finite(weights: Seq<u64>) -> bool {
    forall|i: int| 0 <= i < weights.len() ==> is_finite(#[trigger] weights[i])
}

/// The counts that the weights quantize to: each symbol's scaled weight,
/// raised by one so that no symbol is left without probability.
pub open spec fn quantized(weights: Seq<u64>, total: u64) -> Seq<u32> {
    Seq::new(weights.len(), |i: int| (scaled(weights[i], total) + 1) as u32)
}

/// What quantizing `weights` against `total` comes to: the counts, or the
/// reason why there are none.
pub open spec fn quantization(weights: Seq<u64>, total: u64) -> Result<Seq<u32>, ModelError> {
    if !is_finite(total) || !all_finite(weights) {
        Err(ModelError::InvalidDensity)
    } else if !is_positive(total) {
        Err(ModelError::DegenerateDistribution)
    } else if scaled_sum(weights, total, weights.len() as int) > CAPACITY {
        Err(ModelError::CapacityExceeded)
    } else {
        Ok(quantized(weights, total))
    }
}

/// The share that decoded parts take of decoded parts.
pub open spec fn scaled_parts(weight: Finite, total: Finite) -> nat {
    if weight.negative {
        0
    } else {
        (CAPACITY as nat * weight.magnitude()) / total.magnitude()
    }
}

/// Scaled sums grow with the number of symbols.
pub proof fn lemma_scaled_sum_monotonic(weights: Seq<u64>, total: u64, i: int, j: int)
    requires
        0 <= i <= j,
    ensures
        scaled_sum(weights, total, i) <= scaled_sum(weights, total, j),
    decreases j - i,
{
    if i < j {
        lemma_scaled_sum_monotonic(weights, total, i, j - 1);
    }
}

/// A common power of two in numerator and denominator cancels.
proof fn lemma_share_upscaled(m: nat, d: nat, shift: nat, base: nat)
    requires
        d > 0,
    ensures
        (CAPACITY as nat * (m * pow2(shift + base))) / (d * pow2(base)) == (CAPACITY as nat * (m
            * pow2(shift))) / d,
{
    let c: int = CAPACITY as int;
    let ps: int = pow2(shift) as int;
    let pb: int = pow2(base) as int;
    lemma_pow2_adds(shift, base);
    lemma_pow2_pos(base);
    let a: int = c * (m * ps);
    assert(c * (m * (ps * pb)) == pb * a) by (nonlinear_arith)
        requires
            a == c * (m * ps),
    ;
    assert(d * pb == pb * d) by (nonlinear_arith);
    assert(0 <= a) by (nonlinear_arith)
        requires
            a == c * (m * ps),
            c >= 0,
            m >= 0,
            ps >= 0,
    ;
    lemma_div_multiples_vanish_quotient(pb, a, d as int);
}

/// A power of two in the denominator alone can be divided out first.
proof fn lemma_share_downscaled(m: nat, d: nat, shift: nat, base: nat)
    requires
        d > 0,
    ensures
        pow2(shift) > 0,
        (CAPACITY as nat * (m * pow2(base))) / (d * pow2(shift + base)) == ((CAPACITY as nat * m)
            / pow2(shift)) / d,
{
    let c: int = CAPACITY as int;
    let ps: int = pow2(shift) as int;
    let pb: int = pow2(base) as int;
    lemma_pow2_adds(shift, base);
    lemma_pow2_pos(base);
    lemma_pow2_pos(shift);
    let a: int = c * m;
    let e: int = ps * d;
    assert(c * (m * pb) == pb * a) by (nonlinear_arith)
        requires
            a == c * m,
    ;
    assert(d * (ps * pb) == pb * e) by (nonlinear_arith)
        requires
            e == ps * d,
    ;
    assert(0 < e) by (nonlinear_arith)
        requires
            e == ps * d,
            ps > 0,
            d > 0,
    ;
    assert(0 <= a) by (nonlinear_arith)
        requires
            a == c * m,
            c >= 0,
            m >= 0,
    ;
    lemma_div_multiples_vanish_quotient(pb, a, e);
    lemma_div_denominator(a, ps, d as int);
}

/// A numerator of at least `2^54` over a significand takes more than the
/// whole capacity.
proof fn lemma_share_over_capacity(n: nat, d: nat)
    requires
        n >= 0x40_0000_0000_0000,
        0 < d < 0x20_0000_0000_0000,
    ensures
        (CAPACITY as nat * n) / d > CAPACITY,
{
    let c: int = CAPACITY as int;
    assert((c + 1) * d <= c * n) by (nonlinear_arith)
        requires
            c == 0xFFFF_FEFF,
            n >= 0x40_0000_0000_0000,
            0 < d < 0x20_0000_0000_0000,
    ;
    lemma_div_is_ordered((c + 1) * d, c * n, d as int);
    assert((c + 1) * d == d * (c + 1)) by (nonlinear_arith);
    lemma_div_multiples_vanish(c + 1, d as int);
}

/// Two to the `exponent`, for exponents that fit 128 bits.
fn power_of_two(exponent: u32) -> (r: u128)
    requires
        exponent <= 127,
    ensures
        r == pow2(exponent as nat),
{
    let mut r: u128 = 1;
    let mut i: u32 = 0;
    proof {
        lemma2_to64();
    }
    while i < exponent
        invariant
            i <= exponent <= 127,
            r == pow2(i as nat),
        decreases exponent - i,
    {
        proof {
            lemma_pow2_unfold((i + 1) as nat);
            lemma_pow2_bound_128((i + 1) as nat);
        }
        r = r * 2;
        i = i + 1;
    }
    r
}

/// Powers of two below the 128th fit 128 bits.
proof fn lemma_pow2_bound_128(e: nat)
    requires
        e <= 127,
    ensures
        pow2(e) <= 0x8000_0000_0000_0000_0000_0000_0000_0000,
{
    lemma2_to64();
    lemma2_to64_rest();
    lemma_pow2_adds(64, 63);
    assert(pow2(127) == 0x8000_0000_0000_0000_0000_0000_0000_0000) by (nonlinear_arith)
        requires
            pow2(127) == pow2(64) * pow2(63),
            pow2(64) == 0x1_0000_0000_0000_0000,
            pow2(63) == 0x8000_0000_0000_0000,
    ;
    if e < 127 {
        lemma_pow2_strictly_increases(e, 127);
    }
}

/// The share of the capacity that one decoded weight takes of the decoded
/// total, or `None` where the share is more than the whole capacity.
pub fn scale_weight(weight: Finite, total: Finite) -> (r: Option<u32>)
    requires
        weight.in_range(),
        total.in_range(),
        total.significand > 0,
    ensures
        r matches Some(q) ==> q == scaled_parts(weight, total) && q <= CAPACITY,
        r is None ==> scaled_parts(weight, total) > CAPACITY,
{
    if weight.negative {
        return Some(0);
    }
    let c: u128 = CAPACITY as u128;
    let m: u128 = weight.significand as u128;
    let d: u128 = total.significand as u128;
    proof {
        lemma_pow2_pos(total.scale as nat);
        assert(total.magnitude() > 0) by (nonlinear_arith)
            requires
                total.magnitude() == total.significand as nat * pow2(total.scale as nat),
                total.significand > 0,
                pow2(total.scale as nat) > 0,
        ;
    }
    if weight.significand == 0 {
        proof {
            assert(weight.magnitude() == 0) by (nonlinear_arith)
                requires
                    weight.magnitude() == weight.significand as nat * pow2(weight.scale as nat),
                    weight.significand == 0,
            ;
            assert(CAPACITY as nat * weight.magnitude() == 0) by (nonlinear_arith)
                requires
                    weight.magnitude() == 0,
            ;
            lemma_basic_div(0, total.magnitude() as int);
        }
        return Some(0);
    }
    if weight.scale >= total.scale {
        // The weight's power of two is the larger one: what is left of it
        // after cancelling goes into the numerator.
        let shift: u32 = weight.scale - total.scale;
        proof {
            lemma_share_upscaled(
                weight.significand as nat,
                total.significand as nat,
                shift as nat,
                total.scale as nat,
            );
        }
        if shift >= 54 {
            proof {
                if shift > 54 {
                    lemma_pow2_strictly_increases(54, shift as nat);
                }
                lemma2_to64_rest();
                assert(m as nat * pow2(shift as nat) >= 0x40_0000_0000_0000) by (nonlinear_arith)
                    requires
                        m >= 1,
                        pow2(shift as nat) >= 0x40_0000_0000_0000,
                ;
                lemma_share_over_capacity(m as nat * pow2(shift as nat), d as nat);
            }
            return None;
        }
        let factor: u128 = power_of_two(shift);
        proof {
            lemma_pow2_strictly_increases(shift as nat, 54);
            lemma2_to64_rest();
            assert(m * factor < 0x20_0000_0000_0000 * 0x40_0000_0000_0000) by (nonlinear_arith)
                requires
                    m < 0x20_0000_0000_0000,
                    factor < 0x40_0000_0000_0000,
            ;
        }
        let n: u128 = m * factor;
        // From 2^54 on the numerator is more than twice any significand.
        if n >= 0x40_0000_0000_0000 {
            proof {
                lemma_share_over_capacity(n as nat, d as nat);
            }
            return None;
        }
        proof {
            assert(c * n < 0x1_0000_0000 * 0x40_0000_0000_0000) by (nonlinear_arith)
                requires
                    c < 0x1_0000_0000,
                    n < 0x40_0000_0000_0000,
            ;
        }
        let q: u128 = c * n / d;
        if q > c {
            None
        } else {
            Some(q as u32)
        }
    } else {
        // The total's power of two is the larger one: what is left of it
        // after cancelling is divided out of the numerator first.
        let shift: u32 = total.scale - weight.scale;
        proof {
            lemma_share_downscaled(
                weight.significand as nat,
                total.significand as nat,
                shift as nat,
                weight.scale as nat,
            );
            assert(c * m < 0x1_0000_0000 * 0x20_0000_0000_0000) by (nonlinear_arith)
                requires
                    c < 0x1_0000_0000,
                    m < 0x20_0000_0000_0000,
            ;
        }
        // The numerator is below 2^85, so a larger shift leaves nothing.
        if shift >= 86 {
            proof {
                lemma2_to64();
                lemma_pow2_adds(64, 21);
                assert(pow2(85) == 0x20_0000_0000_0000_0000_0000) by (nonlinear_arith)
                    requires
                        pow2(85) == pow2(64) * pow2(21),
                        pow2(64) == 0x1_0000_0000_0000_0000,
                        pow2(21) == 0x20_0000,
                ;
                lemma_pow2_strictly_increases(85, shift as nat);
                lemma_basic_div((c * m) as int, pow2(shift as nat) as int);
                lemma_basic_div(0, d as int);
            }
            return Some(0);
        }
        let t: u128 = (c * m) / power_of_two(shift);
        let q: u128 = t / d;
        if q > c {
            None
        } else {
            Some(q as u32)
        }
    }
}

impl QuantizedPDFSet {
    /// Quantizes the weights of the 256 symbols into a frequency table.
    ///
    /// `weights[x]` is the summed density of symbol `x` and `total` the
    /// sum of all of them, each as a binary64 bit pattern. Symbol `x` gets
    /// the count `floor(CAPACITY * weights[x] / total) + 1`, computed
    /// exactly, and the cumulative counts are the running sums of these in
    /// symbol order.
    ///
    /// Fails with `InvalidDensity` where a weight or the total is infinite
    /// or not a number, else with `DegenerateDistribution` where the total
    /// is not above zero, else with `CapacityExceeded` where the scaled
    /// weights add up to more than `CAPACITY`, which a total that is the
    /// sum of the weights rules out.
    pub fn from_weights(weights: &[u64; 256], total: u64) -> (r: Result<
        QuantizedPDFSet,
        ModelError,
    >)
        ensures
            r matches Ok(table) ==> table.wf() && quantization(weights@, total) == Ok::<
                Seq<u32>,
                ModelError,
            >(table@),
            r matches Err(e) ==> quantization(weights@, total) == Err::<Seq<u32>, ModelError>(e),
    {
        let whole: Finite = match decode(total) {
            Some(whole) => whole,
            None => {
                return Err(ModelError::InvalidDensity);
            },
        };
        let mut parts: Vec<Finite> = Vec::with_capacity(SYMBOLS);
        let mut x: usize = 0;
        while x < SYMBOLS
            invariant
                x <= SYMBOLS,
                weights@.len() == SYMBOLS,
                parts@.len() == x,
                forall|j: int|
                    0 <= j < x ==> {
                        &&& is_finite(#[trigger] weights@[j])
                        &&& parts@[j].decodes(weights@[j])
                        &&& parts@[j].in_range()
                        &&& parts@[j].magnitude() == magnitude(weights@[j])
                    },
            decreases SYMBOLS - x,
        {
            match decode(weights[x]) {
                Some(part) => {
                    parts.push(part);
                },
                None => {
                    assert(!is_finite(weights@[x as int]));
                    return Err(ModelError::InvalidDensity);
                },
            }
            x = x + 1;
        }
        if whole.negative || whole.significand == 0 {
            return Err(ModelError::DegenerateDistribution);
        }
        let mut freq: Vec<u32> = Vec::with_capacity(SYMBOLS);
        let mut cum_freq: Vec<u32> = Vec::with_capacity(SYMBOLS);
        let mut running: u32 = 0;
        let mut x: usize = 0;
        while x < SYMBOLS
            invariant
                x <= SYMBOLS,
                weights@.len() == SYMBOLS,
                parts@.len() == SYMBOLS,
                forall|j: int|
                    0 <= j < SYMBOLS ==> {
                        &&& is_finite(#[trigger] weights@[j])
                        &&& parts@[j].decodes(weights@[j])
                        &&& parts@[j].in_range()
                        &&& parts@[j].magnitude() == magnitude(weights@[j])
                    },
                is_finite(total),
                is_positive(total),
                whole.decodes(total),
                whole.in_range(),
                whole.magnitude() == magnitude(total),
                freq@.len() == x,
                cum_freq@.len() == x,
                running == scaled_sum(weights@, total, x as int),
                running <= CAPACITY,
                forall|j: int| 0 <= j < x ==> #[trigger] freq@[j] == scaled(weights@[j], total) + 1,
                forall|j: int| 0 <= j < x ==> #[trigger] cum_freq@[j] == prefix_sum(freq@, j),
                prefix_sum(freq@, x as int) == running + x,
            decreases SYMBOLS - x,
        {
            let part: Finite = parts[x];
            assert(is_finite(weights@[x as int]));
            assert(scaled_parts(part, whole) == scaled(weights@[x as int], total));
            proof {
                lemma_scaled_sum_monotonic(weights@, total, x + 1, SYMBOLS as int);
            }
            let q: u32 = match scale_weight(part, whole) {
                Some(q) => q,
                None => {
                    return Err(ModelError::CapacityExceeded);
                },
            };
            if q > CAPACITY - running {
                return Err(ModelError::CapacityExceeded);
            }
            let ghost before = freq@;
            cum_freq.push(running + x as u32);
            freq.push(q + 1);
            running = running + q;
            proof {
                assert forall|j: int| 0 <= j <= x implies prefix_sum(freq@, j) == prefix_sum(
                    before,
                    j,
                ) by {
                    lemma_prefix_sum_agrees(freq@, before, j);
                }
            }
            x = x + 1;
        }
        proof {
            assert(quantized(weights@, total) =~= freq@);
        }
        Ok(QuantizedPDFSet::assemble(freq, cum_freq))
    }
}

} // verus!
