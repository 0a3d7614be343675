use vstd::prelude::*;

verus! {

/// Number of bins a spectrum is folded into for display.
pub const GRAPH_WIDTH: usize = 60;

/// Sum of `s[lo..hi]`.
pub open spec fn sum_range(s: Seq<u32>, lo: int, hi: int) -> int
    decreases hi - lo,
{
    if hi <= lo {
        0
    } else {
        sum_range(s, lo, hi - 1) + s[hi - 1]
    }
}

/// Magnitudes per bin: the count of magnitudes divided by the number of bins,
/// so a remainder of fewer than `GRAPH_WIDTH` trailing magnitudes is left out.
pub open spec fn chunk_len(n: int) -> int {
    n / (GRAPH_WIDTH as int)
}

/// The bin count: `GRAPH_WIDTH`, or none when there are fewer magnitudes than bins.
pub open spec fn bin_count(n: int) -> int {
    if chunk_len(n) == 0 { 0 } else { GRAPH_WIDTH as int }
}

/// Number of transform coefficients from zero frequency through Nyquist.
pub open spec fn half_len(n: int) -> int {
    n / 2 + 1
}

/// Number of coefficients of an `n`-point transform that the analysis keeps.
pub fn half_spectrum_len(n: usize) -> (r: usize)
    requires
        n > 0,
    ensures
        r == half_len(n as int),
{
    n / 2 + 1
}

/// The highest frequency a spectrum at this sample rate shows.
pub fn nyquist(sample_rate: u32) -> (r: u32)
    ensures
        r == sample_rate / 2,
{
    sample_rate / 2
}

proof fn lemma_sum_range_bound(s: Seq<u32>, lo: int, hi: int)
    requires
        lo <= hi,
    ensures
        0 <= sum_range(s, lo, hi) <= (hi - lo) * 0xffff_ffff,
    decreases hi - lo,
{
    if hi > lo {
        lemma_sum_range_bound(s, lo, hi - 1);
    }
}

/// Folds magnitudes into `GRAPH_WIDTH` bins of equal width, each the sum of its
/// magnitudes; trailing magnitudes that do not fill a bin are left out, and with
/// fewer magnitudes than bins there are no bins.
pub fn bin_magnitudes(mags: &Vec<u32>) -> (r: Vec<u64>)
    requires
        mags.len() <= 0xffff_ffff,
    ensures
        r.len() == bin_count(mags.len() as int),
        forall|b: int| 0 <= b < r.len() ==>
            #[trigger] r[b] == sum_range(mags@, b * chunk_len(mags.len() as int), (b + 1) * chunk_len(mags.len() as int)),
{
    let c: usize = mags.len() / GRAPH_WIDTH;
    let mut bins: Vec<u64> = Vec::new();
    if c == 0 {
        return bins;
    }
    assert(GRAPH_WIDTH * c <= mags.len());
    let mut b: usize = 0;
    while b < GRAPH_WIDTH
        invariant
            c == chunk_len(mags.len() as int),
            c > 0,
            GRAPH_WIDTH * c <= mags.len(),
            mags.len() <= 0xffff_ffff,
            0 <= b <= GRAPH_WIDTH,
            bins.len() == b,
            forall|j: int| 0 <= j < b ==>
                #[trigger] bins[j] == sum_range(mags@, j * c, (j + 1) * c),
        decreases GRAPH_WIDTH - b,
    {
        assert(b * c + c <= mags.len() && (b + 1) * c == b * c + c) by (nonlinear_arith)
            requires b < GRAPH_WIDTH, c > 0, GRAPH_WIDTH * c <= mags.len();
        let start: usize = b * c;
        let end: usize = start + c;
        let mut acc: u64 = 0;
        let mut k: usize = start;
        while k < end
            invariant
                start <= k <= end,
                end <= mags.len(),
                mags.len() <= 0xffff_ffff,
                acc == sum_range(mags@, start as int, k as int),
            decreases end - k,
        {
            proof {
                lemma_sum_range_bound(mags@, start as int, k as int);
            }
            assert((k - start) * 0xffff_ffff <= 0xffff_ffff * 0xffff_ffff) by (nonlinear_arith)
                requires k - start <= 0xffff_ffff, k >= start;
            acc = acc + mags[k] as u64;
            k = k + 1;
        }
        bins.push(acc);
        b = b + 1;
    }
    bins
}

/// The largest bin, or 0 for no bins: what a display normalises against.
pub fn max_bin(bins: &Vec<u64>) -> (r: u64)
    ensures
        forall|i: int| 0 <= i < bins.len() ==> #[trigger] bins[i] <= r,
        bins.len() == 0 ==> r == 0,
        bins.len() > 0 ==> exists|i: int| 0 <= i < bins.len() && bins[i] == r,
{
    let mut m: u64 = 0;
    let mut i: usize = 0;
    while i < bins.len()
        invariant
            0 <= i <= bins.len(),
            forall|j: int| 0 <= j < i ==> #[trigger] bins[j] <= m,
            i == 0 ==> m == 0,
            i > 0 ==> exists|j: int| 0 <= j < i && bins[j] == m,
        decreases bins.len() - i,
    {
        if bins[i] > m || i == 0 {
            m = bins[i];
        }
        i = i + 1;
    }
    m
}

/// A spectrum of all-zero magnitudes folds into bins that are all zero.
pub proof fn lemma_zero_spectrum_bins(mags: Seq<u32>, b: int)
    requires
        forall|i: int| 0 <= i < mags.len() ==> #[trigger] mags[i] == 0,
        0 <= b < bin_count(mags.len() as int),
    ensures
        sum_range(mags, b * chunk_len(mags.len() as int), (b + 1) * chunk_len(mags.len() as int)) == 0,
{
    let c = chunk_len(mags.len() as int);
    assert((b + 1) * c <= GRAPH_WIDTH * c) by (nonlinear_arith)
        requires b < GRAPH_WIDTH, c > 0;
    assert(b * c >= 0) by (nonlinear_arith) requires b >= 0, c > 0;
    lemma_sum_zero(mags, b * c, (b + 1) * c);
}

proof fn lemma_sum_zero(s: Seq<u32>, lo: int, hi: int)
    requires
        0 <= lo,
        hi <= s.len(),
        forall|i: int| 0 <= i < s.len() ==> #[trigger] s[i] == 0,
    ensures
        sum_range(s, lo, hi) == 0,
    decreases hi - lo,
{
    if hi > lo {
        lemma_sum_zero(s, lo, hi - 1);
    }
}

} // verus!
