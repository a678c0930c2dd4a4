use vstd::prelude::*;
use crate::error::ModelError;

verus! {

/// The size of the alphabet: one symbol per byte value.
pub const SYMBOLS: usize = 256;

/// The sum of the first `n` counts: the probability mass strictly below
/// symbol `n`.
pub open spec fn prefix_sum(counts: Seq<u32>, n: int) -> int
    decreases n,
{
    if n <= 0 {
        0
    } else {
        prefix_sum(counts, n - 1) + counts[n - 1]
    }
}

/// What every table's counts satisfy: one count per symbol, none of them
/// zero, and a total that fits the coder's 32-bit range.
pub open spec fn valid_counts(counts: Seq<u32>) -> bool {
    &&& counts.len() == SYMBOLS
    &&& forall|i: int| 0 <= i < SYMBOLS ==> counts[i] >= 1
    &&& prefix_sum(counts, SYMBOLS as int) <= u32::MAX
}

/// Whether `residual` falls into the interval of `symbol`, which starts at
/// the symbol's cumulative count and is as long as its count.
pub open spec fn holds(counts: Seq<u32>, symbol: int, residual: int) -> bool {
    &&& 0 <= symbol < SYMBOLS
    &&& prefix_sum(counts, symbol) <= residual < prefix_sum(counts, symbol) + counts[symbol]
}

/// The symbol whose interval holds `residual`.
pub open spec fn symbol_of(counts: Seq<u32>, residual: int) -> int {
    choose|symbol: int| holds(counts, symbol, residual)
}

/// What a lookup of `residual` answers: the symbol whose interval holds
/// it, or a protocol violation where it lies at or beyond the total.
pub open spec fn located(counts: Seq<u32>, residual: int) -> Result<usize, ModelError> {
    if 0 <= residual < prefix_sum(counts, SYMBOLS as int) {
        Ok(symbol_of(counts, residual) as usize)
    } else {
        Err(ModelError::ProtocolViolation)
    }
}

/// The residual that a decoder's state stands for: how many whole steps of
/// `range_per_total` its `data` lies above `lower_bound`. There is none
/// where `data` lies below the bound or the step is zero.
pub open spec fn residual_of(data: u64, lower_bound: u64, range_per_total: u64) -> Option<int> {
    if data < lower_bound || range_per_total == 0 {
        None
    } else {
        Some((data - lower_bound) / (range_per_total as int))
    }
}

/// How many symbols a bisection of all 256 still has to tell apart after
/// `probes` probes.
spec fn span(probes: nat) -> int {
    if probes == 0 {
        256
    } else if probes == 1 {
        128
    } else if probes == 2 {
        64
    } else if probes == 3 {
        32
    } else if probes == 4 {
        16
    } else if probes == 5 {
        8
    } else if probes == 6 {
        4
    } else if probes == 7 {
        2
    } else {
        1
    }
}

/// Prefix sums grow with the index.
pub proof fn lemma_prefix_sum_monotonic(counts: Seq<u32>, i: int, j: int)
    requires
        0 <= i <= j,
    ensures
        prefix_sum(counts, i) <= prefix_sum(counts, j),
    decreases j - i,
{
    if i < j {
        lemma_prefix_sum_monotonic(counts, i, j - 1);
    }
}

/// Counts that are all at least one add up to at least their number.
pub proof fn lemma_prefix_sum_at_least(counts: Seq<u32>, n: int)
    requires
        0 <= n <= counts.len(),
        forall|i: int| 0 <= i < n ==> counts[i] >= 1,
    ensures
        prefix_sum(counts, n) >= n,
    decreases n,
{
    if n > 0 {
        lemma_prefix_sum_at_least(counts, n - 1);
    }
}

/// Sequences that agree on their first `n` entries have the same `n`-th
/// prefix sum.
pub proof fn lemma_prefix_sum_agrees(a: Seq<u32>, b: Seq<u32>, n: int)
    requires
        n <= a.len(),
        n <= b.len(),
        forall|i: int| 0 <= i < n ==> a[i] == b[i],
    ensures
        prefix_sum(a, n) == prefix_sum(b, n),
    decreases n,
{
    if n > 0 {
        lemma_prefix_sum_agrees(a, b, n - 1);
    }
}

/// No residual falls into the intervals of two symbols.
pub proof fn lemma_holds_unique(counts: Seq<u32>, i: int, j: int, residual: int)
    requires
        holds(counts, i, residual),
        holds(counts, j, residual),
    ensures
        i == j,
{
    if i < j {
        lemma_prefix_sum_monotonic(counts, i + 1, j);
    } else if j < i {
        lemma_prefix_sum_monotonic(counts, j + 1, i);
    }
}

/// A frozen frequency table over the 256 byte symbols: the probability
/// model that a range coder encodes and decodes against.
///
/// Its view is the sequence of the 256 counts. Cumulative counts and the
/// total are prefix sums of it.
#[derive(Debug)]
pub struct QuantizedPDFSet {
    freq: Vec<u32>,
    cum_freq: Vec<u32>,
}

impl View for QuantizedPDFSet {
    type V = Seq<u32>;

    closed spec fn view(&self) -> Seq<u32> {
        self.freq@
    }
}

impl QuantizedPDFSet {
    /// The table's invariant: its counts are valid and each stored
    /// cumulative count is the sum of the counts below it.
    #[verifier::type_invariant]
    pub closed spec fn wf(&self) -> bool {
        &&& valid_counts(self.freq@)
        &&& self.cum_freq@.len() == SYMBOLS
        &&& forall|i: int| 0 <= i < SYMBOLS ==> self.cum_freq@[i] == prefix_sum(self.freq@, i)
    }

    /// A well-formed table has valid counts.
    pub proof fn lemma_wf_counts(&self)
        requires
            self.wf(),
        ensures
            valid_counts(self@),
    {
    }

    /// Puts a table together from counts and their prefix sums.
    pub(crate) fn assemble(freq: Vec<u32>, cum_freq: Vec<u32>) -> (r: QuantizedPDFSet)
        requires
            valid_counts(freq@),
            cum_freq@.len() == SYMBOLS,
            forall|i: int| 0 <= i < SYMBOLS ==> cum_freq@[i] == prefix_sum(freq@, i),
        ensures
            r.wf(),
            r@ == freq@,
    {
        QuantizedPDFSet { freq, cum_freq }
    }

    /// The count of symbol `index`, or `IndexOutOfRange` for an index that
    /// is no symbol.
    pub fn c_freq(&self, index: usize) -> (r: Result<u32, ModelError>)
        ensures
            index < SYMBOLS ==> r == Ok::<u32, ModelError>(self@[index as int]),
            index < SYMBOLS ==> self@[index as int] >= 1,
            index >= SYMBOLS ==> r == Err::<u32, ModelError>(ModelError::IndexOutOfRange),
    {
        proof {
            use_type_invariant(self);
        }
        if index < SYMBOLS {
            Ok(self.freq[index])
        } else {
            Err(ModelError::IndexOutOfRange)
        }
    }

    /// The cumulative count of symbol `index`: the sum of the counts of
    /// all symbols below it. `IndexOutOfRange` for an index that is no
    /// symbol.
    pub fn cum_freq(&self, index: usize) -> (r: Result<u32, ModelError>)
        ensures
            index < SYMBOLS ==> r == Ok::<u32, ModelError>(prefix_sum(self@, index as int) as u32),
            index < SYMBOLS ==> prefix_sum(self@, index as int) <= u32::MAX,
            index >= SYMBOLS ==> r == Err::<u32, ModelError>(ModelError::IndexOutOfRange),
    {
        proof {
            use_type_invariant(self);
            if index < SYMBOLS {
                lemma_prefix_sum_monotonic(self@, index as int, SYMBOLS as int);
            }
        }
        if index < SYMBOLS {
            Ok(self.cum_freq[index])
        } else {
            Err(ModelError::IndexOutOfRange)
        }
    }

    /// The sum of all 256 counts.
    pub fn total_freq(&self) -> (r: u32)
        ensures
            r == prefix_sum(self@, SYMBOLS as int),
            r >= SYMBOLS,
    {
        proof {
            use_type_invariant(self);
            lemma_prefix_sum_at_least(self@, SYMBOLS as int);
        }
        self.cum_freq[SYMBOLS - 1] + self.freq[SYMBOLS - 1]
    }

    /// The 256 counts in symbol order, for inspection.
    pub fn counts(&self) -> (r: &Vec<u32>)
        ensures
            r@ == self@,
    {
        proof {
            use_type_invariant(self);
        }
        &self.freq
    }

    /// The symbol whose interval holds `residual`: the `i` with
    /// `cum_freq(i) <= residual < cum_freq(i) + c_freq(i)`. A residual at
    /// or beyond the total is a `ProtocolViolation`.
    ///
    /// Searches the symbols by bisection, probing the cumulative count
    /// just above the midpoint, so it reads at most eight entries.
    pub fn locate(&self, residual: u64) -> (r: Result<usize, ModelError>)
        ensures
            r == located(self@, residual as int),
            r is Ok <==> residual < prefix_sum(self@, SYMBOLS as int),
            r matches Ok(symbol) ==> holds(self@, symbol as int, residual as int),
    {
        proof {
            use_type_invariant(self);
        }
        if residual >= self.total_freq() as u64 {
            return Err(ModelError::ProtocolViolation);
        }
        let mut left: usize = 0;
        let mut right: usize = SYMBOLS - 1;
        let ghost mut probes: nat = 0;
        while left < right
            invariant
                self.wf(),
                left <= right < SYMBOLS,
                prefix_sum(self@, left as int) <= residual,
                residual < prefix_sum(self@, right + 1),
                probes <= 8,
                right - left < span(probes),
            decreases right - left,
        {
            let mid: usize = (left + right) / 2;
            let mid_cum: u32 = self.cum_freq[mid + 1];
            if mid_cum as u64 <= residual {
                left = mid + 1;
            } else {
                right = mid;
            }
            proof {
                probes = probes + 1;
            }
        }
        proof {
            let found: int = symbol_of(self@, residual as int);
            assert(holds(self@, left as int, residual as int));
            lemma_holds_unique(self@, left as int, found, residual as int);
        }
        Ok(left)
    }

    /// The symbol that a decoder's state points at. The residual is
    /// `(data - lower_bound) / range_per_total`, where `range_per_total`
    /// is the decoder's range divided by this table's total; the symbol
    /// is the one that `locate` finds for it.
    ///
    /// A state with `data` below `lower_bound`, with a step of zero, or
    /// with a residual at or beyond the total is a `ProtocolViolation`.
    pub fn find_index(&self, data: u64, lower_bound: u64, range_per_total: u64) -> (r: Result<
        usize,
        ModelError,
    >)
        ensures
            r == match residual_of(data, lower_bound, range_per_total) {
                Some(residual) => located(self@, residual),
                None => Err(ModelError::ProtocolViolation),
            },
    {
        if data < lower_bound || range_per_total == 0 {
            return Err(ModelError::ProtocolViolation);
        }
        let residual: u64 = (data - lower_bound) / range_per_total;
        self.locate(residual)
    }
}

} // verus!
