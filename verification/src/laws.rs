use vstd::prelude::*;
use vstd::arithmetic::div_mod::{lemma_fundamental_div_mod, lemma_mod_bound};
use vstd::arithmetic::power2::{lemma_pow2_pos, pow2};
use crate::error::ModelError;
use crate::quantize::{
    all_finite, lemma_scaled_sum_monotonic, quantization, quantized, scaled, scaled_sum, CAPACITY,
};
use crate::table::{
    holds, lemma_holds_unique, lemma_prefix_sum_at_least, lemma_prefix_sum_monotonic, located,
    prefix_sum, symbol_of, valid_counts, SYMBOLS,
};
use crate::weight::{is_finite, is_positive, magnitude, scale, sign_bit, significand};

verus! {

/// The weight that the first `n` symbols carry between them, in units of
/// `2^-1074`. Weights below zero carry none.
pub open spec fn mass(weights: Seq<u64>, n: int) -> nat
    decreases n,
{
    if n <= 0 {
        0
    } else if sign_bit(weights[n - 1]) {
        mass(weights, n - 1)
    } else {
        mass(weights, n - 1) + magnitude(weights[n - 1])
    }
}

/// The counts of the first `n` symbols add up to their scaled weights plus
/// one for each symbol, as long as the scaled weights fit the capacity.
pub proof fn lemma_quantized_prefix(weights: Seq<u64>, total: u64, n: int)
    requires
        0 <= n <= weights.len(),
        scaled_sum(weights, total, n) <= CAPACITY,
    ensures
        prefix_sum(quantized(weights, total), n) == scaled_sum(weights, total, n) + n,
        forall|i: int| 0 <= i < n ==> quantized(weights, total)[i] == scaled(weights[i], total) + 1,
    decreases n,
{
    if n > 0 {
        lemma_quantized_prefix(weights, total, n - 1);
    }
}

/// Whatever weights a table is quantized from, it gives every symbol a
/// count of at least one, and its counts add up to a total that fits 32
/// bits: the sum of the scaled weights and one more for each symbol.
pub proof fn law_quantized_counts_valid(weights: Seq<u64>, total: u64)
    requires
        weights.len() == SYMBOLS,
        quantization(weights, total) is Ok,
    ensures
        quantization(weights, total) == Ok::<Seq<u32>, ModelError>(quantized(weights, total)),
        valid_counts(quantized(weights, total)),
        prefix_sum(quantized(weights, total), SYMBOLS as int) == scaled_sum(
            weights,
            total,
            SYMBOLS as int,
        ) + SYMBOLS,
{
    let counts: Seq<u32> = quantized(weights, total);
    lemma_quantized_prefix(weights, total, SYMBOLS as int);
    assert forall|i: int| 0 <= i < SYMBOLS implies counts[i] >= 1 by {
        lemma_scaled_sum_monotonic(weights, total, i + 1, SYMBOLS as int);
    }
}

/// The total of a table is the sum of all its counts: the cumulative
/// count of the last symbol and that symbol's own count.
pub proof fn law_total_is_sum(counts: Seq<u32>)
    requires
        valid_counts(counts),
    ensures
        prefix_sum(counts, SYMBOLS as int) == prefix_sum(counts, SYMBOLS - 1) + counts[SYMBOLS - 1],
        SYMBOLS <= prefix_sum(counts, SYMBOLS as int) <= u32::MAX,
{
    lemma_prefix_sum_at_least(counts, SYMBOLS as int);
}

/// Cumulative counts start at zero, and each is the one before it plus
/// the count of the symbol before it.
pub proof fn law_cumulative_steps(counts: Seq<u32>, symbol: int)
    requires
        0 <= symbol < SYMBOLS,
    ensures
        prefix_sum(counts, 0) == 0,
        prefix_sum(counts, symbol + 1) == prefix_sum(counts, symbol) + counts[symbol],
{
}

/// A total never exceeds the 32-bit range, and it stays below the top of
/// that range unless the scaled weights use the capacity to the last
/// unit.
pub proof fn law_headroom(weights: Seq<u64>, total: u64)
    requires
        weights.len() == SYMBOLS,
        quantization(weights, total) is Ok,
    ensures
        prefix_sum(quantized(weights, total), SYMBOLS as int) <= u32::MAX,
        scaled_sum(weights, total, SYMBOLS as int) < CAPACITY ==> prefix_sum(
            quantized(weights, total),
            SYMBOLS as int,
        ) < u32::MAX,
{
    law_quantized_counts_valid(weights, total);
}

/// Lookup inverts the cumulative counts: a residual inside the interval
/// of a symbol is located at that symbol.
pub proof fn law_locate_inverts(counts: Seq<u32>, symbol: int, residual: int)
    requires
        holds(counts, symbol, residual),
    ensures
        located(counts, residual) == Ok::<usize, ModelError>(symbol as usize),
{
    lemma_prefix_sum_monotonic(counts, 0, symbol);
    lemma_prefix_sum_monotonic(counts, symbol + 1, SYMBOLS as int);
    lemma_holds_unique(counts, symbol, symbol_of(counts, residual), residual);
}

/// A residual below the total lies in the interval of exactly one symbol,
/// and lookup finds it.
pub proof fn law_locate_total(counts: Seq<u32>, residual: int)
    requires
        counts.len() == SYMBOLS,
        0 <= residual < prefix_sum(counts, SYMBOLS as int),
    ensures
        located(counts, residual) is Ok,
        holds(counts, symbol_of(counts, residual), residual),
{
    lemma_interval_exists(counts, residual, SYMBOLS as int);
}

/// A residual below the `n`-th prefix sum lies in the interval of a
/// symbol below `n`.
proof fn lemma_interval_exists(counts: Seq<u32>, residual: int, n: int)
    requires
        0 <= n <= SYMBOLS,
        0 <= residual < prefix_sum(counts, n),
    ensures
        exists|symbol: int| symbol < n && holds(counts, symbol, residual),
    decreases n,
{
    if residual >= prefix_sum(counts, n - 1) {
        assert(holds(counts, n - 1, residual));
    } else {
        lemma_interval_exists(counts, residual, n - 1);
    }
}

/// Rounding each share down never gains on the whole: the scaled weights
/// of the first `n` symbols, times the total, stay within the capacity
/// times their mass.
proof fn lemma_scaled_sum_bound(weights: Seq<u64>, total: u64, n: int)
    requires
        0 <= n <= weights.len(),
        magnitude(total) > 0,
    ensures
        scaled_sum(weights, total, n) * magnitude(total) <= CAPACITY * mass(weights, n),
    decreases n,
{
    if n <= 0 {
        assert(scaled_sum(weights, total, n) * magnitude(total) == 0) by (nonlinear_arith)
            requires
                scaled_sum(weights, total, n) == 0,
        ;
        assert(CAPACITY * mass(weights, n) == 0) by (nonlinear_arith)
            requires
                mass(weights, n) == 0,
        ;
    } else {
        lemma_scaled_sum_bound(weights, total, n - 1);
        let t: int = magnitude(total) as int;
        let before: int = scaled_sum(weights, total, n - 1) as int;
        let share: int = scaled(weights[n - 1], total) as int;
        if sign_bit(weights[n - 1]) {
            assert((before + share) * t == before * t) by (nonlinear_arith)
                requires
                    share == 0,
            ;
        } else {
            let a: int = CAPACITY * magnitude(weights[n - 1]);
            lemma_fundamental_div_mod(a, t);
            lemma_mod_bound(a, t);
            assert(share * t <= a) by (nonlinear_arith)
                requires
                    a == t * share + a % t,
                    0 <= a % t,
            ;
            assert((before + share) * t == before * t + share * t) by (nonlinear_arith);
            assert(CAPACITY * (mass(weights, n - 1) + magnitude(weights[n - 1])) == CAPACITY * mass(
                weights,
                n - 1,
            ) + a) by (nonlinear_arith)
                requires
                    a == CAPACITY * magnitude(weights[n - 1]),
            ;
        }
    }
}

/// Rounding down loses less than one unit for each symbol: the capacity
/// times the mass of the first `n` symbols stays within their scaled
/// weights plus `n`, times the total.
proof fn lemma_scaled_sum_loss(weights: Seq<u64>, total: u64, n: int)
    requires
        0 <= n <= weights.len(),
        magnitude(total) > 0,
    ensures
        CAPACITY * mass(weights, n) <= (scaled_sum(weights, total, n) + n) * magnitude(total),
    decreases n,
{
    let t: int = magnitude(total) as int;
    if n <= 0 {
        assert(CAPACITY * mass(weights, n) == 0) by (nonlinear_arith)
            requires
                mass(weights, n) == 0,
        ;
        assert((scaled_sum(weights, total, n) + n) * t == 0) by (nonlinear_arith)
            requires
                scaled_sum(weights, total, n) + n == 0,
        ;
    } else {
        lemma_scaled_sum_loss(weights, total, n - 1);
        let before: int = scaled_sum(weights, total, n - 1) as int;
        let share: int = scaled(weights[n - 1], total) as int;
        if sign_bit(weights[n - 1]) {
            assert((before + (n - 1)) * t <= (before + share + n) * t) by (nonlinear_arith)
                requires
                    share == 0,
                    t > 0,
            ;
        } else {
            let a: int = CAPACITY * magnitude(weights[n - 1]);
            lemma_fundamental_div_mod(a, t);
            lemma_mod_bound(a, t);
            assert(CAPACITY * (mass(weights, n - 1) + magnitude(weights[n - 1])) == CAPACITY * mass(
                weights,
                n - 1,
            ) + a) by (nonlinear_arith)
                requires
                    a == CAPACITY * magnitude(weights[n - 1]),
            ;
            assert((before + (n - 1)) * t + a <= (before + share + n) * t) by (nonlinear_arith)
                requires
                    a == t * share + a % t,
                    a % t < t,
            ;
        }
    }
}

/// The total of a table follows the weights it was quantized from: it is
/// the capacity's share of their mass in the total weight, rounded down
/// by less than one unit for each symbol and then raised by one for each.
/// So a total weight that is no more than the mass of the weights gives
/// a table that uses the whole capacity.
pub proof fn law_total_follows_mass(weights: Seq<u64>, total: u64)
    requires
        weights.len() == SYMBOLS,
        quantization(weights, total) is Ok,
    ensures
        (prefix_sum(quantized(weights, total), SYMBOLS as int) - SYMBOLS) * magnitude(total)
            <= CAPACITY * mass(weights, SYMBOLS as int),
        CAPACITY * mass(weights, SYMBOLS as int) <= prefix_sum(
            quantized(weights, total),
            SYMBOLS as int,
        ) * magnitude(total),
        mass(weights, SYMBOLS as int) >= magnitude(total) ==> prefix_sum(
            quantized(weights, total),
            SYMBOLS as int,
        ) >= CAPACITY,
{
    let t: int = magnitude(total) as int;
    let m: int = mass(weights, SYMBOLS as int) as int;
    let p: int = prefix_sum(quantized(weights, total), SYMBOLS as int);
    lemma_magnitude_positive(total);
    law_quantized_counts_valid(weights, total);
    lemma_scaled_sum_bound(weights, total, SYMBOLS as int);
    lemma_scaled_sum_loss(weights, total, SYMBOLS as int);
    if m >= t {
        assert(p >= CAPACITY) by (nonlinear_arith)
            requires
                CAPACITY * m <= p * t,
                m >= t,
                t > 0,
        ;
    }
}

/// A total above zero has a magnitude above zero.
proof fn lemma_magnitude_positive(total: u64)
    requires
        is_positive(total),
    ensures
        magnitude(total) > 0,
{
    lemma_pow2_pos(scale(total));
    assert(magnitude(total) > 0) by (nonlinear_arith)
        requires
            magnitude(total) == significand(total) * pow2(scale(total)),
            significand(total) > 0,
            pow2(scale(total)) > 0,
    ;
}

/// Quantization succeeds on every set of weights whose total is their
/// sum: where all of them are numbers, the total is above zero, and the
/// weights carry no more than the total, or exceed it by less than one
/// part in `CAPACITY + 1`, the scaled weights fit the capacity.
pub proof fn law_sum_fits_capacity(weights: Seq<u64>, total: u64)
    requires
        weights.len() == SYMBOLS,
        is_finite(total),
        all_finite(weights),
        is_positive(total),
        CAPACITY * mass(weights, SYMBOLS as int) < (CAPACITY + 1) * magnitude(total),
    ensures
        scaled_sum(weights, total, SYMBOLS as int) <= CAPACITY,
        quantization(weights, total) is Ok,
{
    let t: int = magnitude(total) as int;
    let s: int = scaled_sum(weights, total, SYMBOLS as int) as int;
    lemma_magnitude_positive(total);
    lemma_scaled_sum_bound(weights, total, SYMBOLS as int);
    assert(s <= CAPACITY) by (nonlinear_arith)
        requires
            s * t < (CAPACITY + 1) * t,
            t > 0,
    ;
}

} // verus!
