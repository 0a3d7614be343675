use crate::fixed::{abs, coef, div_round, lemma_coef_bound, lemma_round_div_bound, mul_coef, mul_coef_wide, round_div, COEF_SCALE, FULL_SCALE};
use rand::Rng;
use vstd::arithmetic::div_mod::{lemma_fundamental_div_mod, lemma_fundamental_div_mod_converse};
use vstd::prelude::*;

verus! {

/// The five kinds of noise the generator can produce.
#[derive(Copy, Clone, PartialEq, Eq, Debug, Structural)]
pub enum NoiseType {
    White,
    Pink,
    Brown,
    Blue,
    Gray,
}

/// Brown noise: the integrator's step per unit of white input (0.02).
pub const BROWN_STEP: i64 = 200_000;
/// Brown noise: gain applied to the clamped integrator (3.5).
pub const BROWN_GAIN: i64 = 35_000_000;
/// Blue noise: weight of the first difference (0.5).
pub const BLUE_WEIGHT: i64 = 5_000_000;
/// Gray noise: gain applied to the enveloped white sample (0.3).
pub const GRAY_GAIN: i64 = 3_000_000;
/// Pink noise: weight of the white passthrough (0.5362).
pub const PINK_DIRECT: i64 = 5_362_000;
/// Pink noise: weight of the delayed white sample (0.115926).
pub const PINK_DELAYED: i64 = 1_159_260;
/// Pink noise: output scaling (0.11).
pub const PINK_OUT: i64 = 1_100_000;

/// A white draw: a fixed-point value in [-1, 1].
pub open spec fn is_draw(w: int) -> bool {
    -FULL_SCALE <= w <= FULL_SCALE
}

pub open spec fn clamp_unit(x: int) -> int {
    if x < -FULL_SCALE {
        -FULL_SCALE as int
    } else if x > FULL_SCALE {
        FULL_SCALE as int
    } else {
        x
    }
}

/// State of the leaky integrator behind brown noise.
pub struct BrownFilter {
    pub level: i64,
}

impl BrownFilter {
    pub open spec fn wf(&self) -> bool {
        -FULL_SCALE <= self.level <= FULL_SCALE
    }

    pub fn new() -> (r: Self)
        ensures
            r.wf(),
            r.level == 0,
    {
        BrownFilter { level: 0 }
    }

    /// Integrates one white draw: the level moves by `0.02 * w`, is clamped to
    /// [-1, 1], and the output is the level times 3.5.
    pub fn step(&mut self, w: i64) -> (r: i64)
        requires
            old(self).wf(),
            is_draw(w as int),
        ensures
            final(self).wf(),
            final(self).level == clamp_unit(old(self).level + coef(w as int, BROWN_STEP as int)),
            abs(coef(w as int, BROWN_STEP as int)) <= 20_000,
            r == coef(final(self).level as int, BROWN_GAIN as int),
            -3_500_000 <= r <= 3_500_000,
    {
        proof {
            lemma_coef_bound(w as int, BROWN_STEP as int, 20_000);
        }
        let d = mul_coef(w, BROWN_STEP);
        let raw = self.level + d;
        let lvl = if raw < -FULL_SCALE {
            -FULL_SCALE
        } else if raw > FULL_SCALE {
            FULL_SCALE
        } else {
            raw
        };
        self.level = lvl;
        proof {
            lemma_coef_bound(lvl as int, BROWN_GAIN as int, 3_500_000);
        }
        mul_coef(lvl, BROWN_GAIN)
    }
}

/// State of the first-difference filter behind blue noise.
pub struct BlueFilter {
    pub prev: i64,
}

impl BlueFilter {
    pub open spec fn wf(&self) -> bool {
        is_draw(self.prev as int)
    }

    pub fn new() -> (r: Self)
        ensures
            r.wf(),
            r.prev == 0,
    {
        BlueFilter { prev: 0 }
    }

    /// Emits half the difference between this draw and the previous one.
    pub fn step(&mut self, w: i64) -> (r: i64)
        requires
            old(self).wf(),
            is_draw(w as int),
        ensures
            final(self).wf(),
            final(self).prev == w,
            r == coef(w - old(self).prev, BLUE_WEIGHT as int),
            -FULL_SCALE <= r <= FULL_SCALE,
    {
        let diff = w - self.prev;
        proof {
            lemma_coef_bound(diff as int, BLUE_WEIGHT as int, FULL_SCALE as int);
        }
        self.prev = w;
        mul_coef(diff, BLUE_WEIGHT)
    }
}

/// The pink accumulators are kept in units of `1 / ACC_SCALE`, finer than samples,
/// so that rounding does not build up in the slowly decaying sections.
pub const ACC_SCALE: i128 = 10_000_000_000_000;

/// Accumulator units in one sample unit (`ACC_SCALE / FULL_SCALE`).
pub const ACC_PER_SAMPLE: i128 = 10_000_000;

/// Bound on every accumulator of the pink filter (50.0).
pub const PINK_BOUND: i128 = 500_000_000_000_000;

/// The seven accumulators of the pink-noise filter bank, in units of `1 / ACC_SCALE`.
pub struct PinkFilter {
    pub s0: i128,
    pub s1: i128,
    pub s2: i128,
    pub s3: i128,
    pub s4: i128,
    pub s5: i128,
    pub s6: i128,
}

pub open spec fn pink_bounded(x: i128) -> bool {
    -PINK_BOUND <= x <= PINK_BOUND
}

/// One first-order section: `a * s + b * w`. With `a` and `b` in units of
/// `1 / COEF_SCALE` and `w` in sample units, `b * w` is exact at accumulator
/// resolution; `a * s` is rounded toward zero there.
pub open spec fn section(a: int, s: int, b: int, w: int) -> int {
    coef(s, a) + b * w
}

proof fn lemma_section_bound(a: int, s: int, b: int, w: int)
    requires
        abs(s) <= PINK_BOUND,
        is_draw(w),
        -COEF_SCALE <= a <= COEF_SCALE,
        -COEF_SCALE <= b <= COEF_SCALE,
        abs(a) * 50 + abs(b) <= 50 * COEF_SCALE,
    ensures
        abs(section(a, s, b, w)) <= PINK_BOUND,
{
    let k = abs(a) * 50 * FULL_SCALE;
    assert(abs(s * a) <= k * COEF_SCALE) by (nonlinear_arith)
        requires abs(s) <= 50 * FULL_SCALE * COEF_SCALE, k == abs(a) * 50 * FULL_SCALE;
    assert(abs(b * w) <= abs(b) * FULL_SCALE) by (nonlinear_arith)
        requires abs(w) <= FULL_SCALE;
    lemma_coef_bound(s, a, k);
    assert(k + abs(b) * FULL_SCALE <= PINK_BOUND) by (nonlinear_arith)
        requires k == abs(a) * 50 * FULL_SCALE, abs(a) * 50 + abs(b) <= 50 * COEF_SCALE;
}

impl PinkFilter {
    pub open spec fn new_spec() -> PinkFilter {
        PinkFilter { s0: 0, s1: 0, s2: 0, s3: 0, s4: 0, s5: 0, s6: 0 }
    }

    pub open spec fn wf(&self) -> bool {
        pink_bounded(self.s0) && pink_bounded(self.s1) && pink_bounded(self.s2)
            && pink_bounded(self.s3) && pink_bounded(self.s4) && pink_bounded(self.s5)
            && pink_bounded(self.s6)
    }

    pub fn new() -> (r: Self)
        ensures
            r.wf(),
            r == PinkFilter::new_spec(),
    {
        PinkFilter { s0: 0, s1: 0, s2: 0, s3: 0, s4: 0, s5: 0, s6: 0 }
    }
}

/// The filter bank after one white draw `w`.
pub open spec fn pink_advance(f: PinkFilter, w: int) -> PinkFilter {
    PinkFilter {
        s0: section(9_988_600, f.s0 as int, 555_179, w) as i128,
        s1: section(9_933_200, f.s1 as int, 750_759, w) as i128,
        s2: section(9_690_000, f.s2 as int, 1_538_520, w) as i128,
        s3: section(8_665_000, f.s3 as int, 3_104_856, w) as i128,
        s4: section(5_500_000, f.s4 as int, 5_329_522, w) as i128,
        s5: section(-7_616_000, f.s5 as int, -168_980, w) as i128,
        s6: (PINK_DELAYED * w) as i128,
    }
}

/// The pink output for draw `w` from state `f`: the six updated sections, the
/// delayed sample of the previous call and the white passthrough, scaled by 0.11
/// and rounded to the nearest sample unit.
pub open spec fn pink_output(f: PinkFilter, w: int) -> int {
    let g = pink_advance(f, w);
    round_div(
        (g.s0 + g.s1 + g.s2 + g.s3 + g.s4 + g.s5 + f.s6 + PINK_DIRECT * w) * PINK_OUT,
        ACC_PER_SAMPLE * COEF_SCALE,
    )
}

impl PinkFilter {
    fn section_step(a: i128, s: i128, b: i128, w: i128) -> (r: i128)
        requires
            pink_bounded(s),
            is_draw(w as int),
            -COEF_SCALE <= a <= COEF_SCALE,
            -COEF_SCALE <= b <= COEF_SCALE,
            abs(a as int) * 50 + abs(b as int) <= 50 * COEF_SCALE,
        ensures
            r == section(a as int, s as int, b as int, w as int),
            pink_bounded(r),
    {
        proof {
            lemma_section_bound(a as int, s as int, b as int, w as int);
        }
        assert(abs(b * w) <= COEF_SCALE * FULL_SCALE) by (nonlinear_arith)
            requires -COEF_SCALE <= b <= COEF_SCALE, is_draw(w as int);
        mul_coef_wide(s, a) + b * w
    }

    /// Feeds one white draw through the filter bank (Voss-McCartney approximation).
    pub fn step(&mut self, w: i64) -> (r: i64)
        requires
            old(self).wf(),
            is_draw(w as int),
        ensures
            final(self).wf(),
            *final(self) == pink_advance(*old(self), w as int),
            r == pink_output(*old(self), w as int),
            abs(r as int) <= 40_000_001,
    {
        let w: i128 = w as i128;
        let delayed = self.s6;
        self.s0 = Self::section_step(9_988_600, self.s0, 555_179, w);
        self.s1 = Self::section_step(9_933_200, self.s1, 750_759, w);
        self.s2 = Self::section_step(9_690_000, self.s2, 1_538_520, w);
        self.s3 = Self::section_step(8_665_000, self.s3, 3_104_856, w);
        self.s4 = Self::section_step(5_500_000, self.s4, 5_329_522, w);
        self.s5 = Self::section_step(-7_616_000, self.s5, -168_980, w);
        assert(abs(PINK_DIRECT * w) <= 6 * COEF_SCALE * FULL_SCALE) by (nonlinear_arith)
            requires is_draw(w as int), PINK_DIRECT == 5_362_000;
        let sum = self.s0 + self.s1 + self.s2 + self.s3 + self.s4 + self.s5 + delayed
            + (PINK_DIRECT as i128) * w;
        assert(abs(sum * (PINK_OUT as int)) <= 40_000_000 * (ACC_PER_SAMPLE * COEF_SCALE)) by (nonlinear_arith)
            requires
                abs(sum as int) <= 7 * PINK_BOUND + 6 * COEF_SCALE * FULL_SCALE,
                PINK_OUT == 1_100_000,
        ;
        proof {
            lemma_round_div_bound(sum * (PINK_OUT as int), ACC_PER_SAMPLE * COEF_SCALE, 40_000_000);
        }
        self.s6 = (PINK_DELAYED as i128) * w;
        div_round(sum * (PINK_OUT as i128), ACC_PER_SAMPLE * (COEF_SCALE as i128)) as i64
    }
}

/// Gray noise: a white draw `w` weighted by an envelope value `e` in [0, 1], then by 0.3.
pub open spec fn gray_output(w: int, e: int) -> int {
    coef(coef(w, 10 * e), GRAY_GAIN as int)
}

/// An envelope value: a fixed-point number in [0, 1].
pub open spec fn is_envelope(e: int) -> bool {
    0 <= e <= FULL_SCALE
}

/// Weights one white draw by an envelope value.
pub fn gray_sample(w: i64, e: i64) -> (r: i64)
    requires
        is_draw(w as int),
        is_envelope(e as int),
    ensures
        r == gray_output(w as int, e as int),
        -FULL_SCALE <= r <= FULL_SCALE,
{
    assert(abs(w * (10 * e)) <= FULL_SCALE * COEF_SCALE) by (nonlinear_arith)
        requires
            is_draw(w as int),
            is_envelope(e as int),
    ;
    proof {
        lemma_coef_bound(w as int, 10 * e, FULL_SCALE as int);
    }
    let x = mul_coef(w, 10 * e);
    proof {
        lemma_coef_bound(x as int, GRAY_GAIN as int, FULL_SCALE as int);
    }
    mul_coef(x, GRAY_GAIN)
}

/// Number of samples in `duration_us` microseconds at `sample_rate` Hz, rounded to nearest.
pub open spec fn sample_count(sample_rate: int, duration_us: int) -> int {
    (sample_rate * duration_us + 500_000) / 1_000_000
}

/// Number of one-second blocks gray noise is generated in: the duration rounded up, at least one.
pub open spec fn gray_blocks(duration_us: int) -> int {
    if duration_us == 0 { 1 } else { (duration_us - 1) / 1_000_000 + 1 }
}

/// Largest magnitude a sample of the given type can take (pink noise has no such bound).
pub open spec fn sample_bound(t: NoiseType) -> int {
    if t == NoiseType::Brown { 3_500_000 } else { FULL_SCALE as int }
}

pub open spec fn all_draws(d: Seq<i64>) -> bool {
    forall|i: int| 0 <= i < d.len() ==> is_draw(#[trigger] d[i] as int)
}

pub open spec fn all_envelope(e: Seq<i64>) -> bool {
    forall|i: int| 0 <= i < e.len() ==> is_envelope(#[trigger] e[i] as int)
}

#[verifier::external_type_specification]
#[verifier::external_body]
pub struct ExThreadRng(rand::rngs::ThreadRng);

/// Relies on rand::rngs::ThreadRng::random_range (rand::Rng): a value in the inclusive
/// range `lo..=hi`. It panics on an empty range, which `requires` rules out, and
/// when reseeding from the operating system's entropy source fails.
#[verifier::external_body]
fn uniform_draw(rng: &mut rand::rngs::ThreadRng, lo: i64, hi: i64) -> (r: i64)
    requires
        lo <= hi,
    ensures
        lo <= r <= hi,
{
    rng.random_range(lo..=hi)
}

/// Relies on rand::rng: a handle to the thread-local random generator. It panics
/// when the operating system's entropy source cannot seed it.
#[verifier::external_body]
fn thread_rng() -> (r: rand::rngs::ThreadRng) {
    rand::rng()
}

/// Generates noise of a chosen type from a uniform random source, keeping
/// separate filter state for each coloured type.
pub struct NoiseGenerator {
    pub sample_rate: u32,
    pub rng: rand::rngs::ThreadRng,
    pub pink: PinkFilter,
    pub brown: BrownFilter,
    pub blue: BlueFilter,
}

impl NoiseGenerator {
    pub open spec fn wf(&self) -> bool {
        self.sample_rate > 0 && self.pink.wf() && self.brown.wf() && self.blue.wf()
    }

    pub fn new(sample_rate: u32) -> (r: Self)
        requires
            sample_rate > 0,
        ensures
            r.wf(),
            r.sample_rate == sample_rate,
            r.pink == PinkFilter::new_spec(),
            r.brown.level == 0,
            r.blue.prev == 0,
    {
        NoiseGenerator {
            sample_rate,
            rng: thread_rng(),
            pink: PinkFilter::new(),
            brown: BrownFilter::new(),
            blue: BlueFilter::new(),
        }
    }
}

proof fn lemma_mod_next(x: int, d: int)
    requires
        x >= 0,
        d > 0,
    ensures
        (x + 1) % d == (if x % d + 1 == d { 0 } else { x % d + 1 }),
{
    lemma_fundamental_div_mod(x, d);
    let q = x / d;
    let m = x % d;
    if m + 1 == d {
        assert(x + 1 == (q + 1) * d + 0) by (nonlinear_arith)
            requires x == d * q + m, m + 1 == d;
        lemma_fundamental_div_mod_converse(x + 1, d, q + 1, 0);
    } else {
        assert(x + 1 == q * d + (m + 1)) by (nonlinear_arith)
            requires x == d * q + m;
        lemma_fundamental_div_mod_converse(x + 1, d, q, m + 1);
    }
}

/// The pink filter bank after the first `i` of the draws `d`.
pub open spec fn pink_run(f: PinkFilter, d: Seq<i64>, i: int) -> PinkFilter
    decreases i,
{
    if i <= 0 {
        f
    } else {
        pink_advance(pink_run(f, d, i - 1), d[i - 1] as int)
    }
}

/// The brown integrator's level after the first `i` of the draws `d`.
pub open spec fn brown_run(level: int, d: Seq<i64>, i: int) -> int
    decreases i,
{
    if i <= 0 {
        level
    } else {
        clamp_unit(brown_run(level, d, i - 1) + coef(d[i - 1] as int, BROWN_STEP as int))
    }
}

impl NoiseGenerator {
    /// Blue noise from a run of draws: half the difference between each draw
    /// and the one before it (the filter's stored draw for the first).
    pub open spec fn blue_expected(prev: i64, draws: Seq<i64>, i: int) -> int {
        let before = if i == 0 { prev } else { draws[i - 1] };
        coef(draws[i] - before, BLUE_WEIGHT as int)
    }

    /// Shapes the first `count` of the given white draws into noise of type `t`.
    /// Gray noise weights draw `i` by `envelope[i % sample_rate]`, the envelope
    /// restarting each second.
    pub fn shape(&mut self, t: NoiseType, draws: &Vec<i64>, envelope: &Vec<i64>, count: usize) -> (r: Vec<i64>)
        requires
            old(self).wf(),
            count <= draws.len(),
            all_draws(draws@),
            t == NoiseType::Gray ==> envelope.len() == old(self).sample_rate && all_envelope(envelope@),
        ensures
            final(self).wf(),
            final(self).sample_rate == old(self).sample_rate,
            r.len() == count,
            t != NoiseType::Pink ==> final(self).pink == old(self).pink,
            t != NoiseType::Brown ==> final(self).brown == old(self).brown,
            t != NoiseType::Blue ==> final(self).blue == old(self).blue,
            forall|i: int| 0 <= i < count && t != NoiseType::Pink ==>
                abs(#[trigger] r[i] as int) <= sample_bound(t),
            forall|i: int| 0 <= i < count && t == NoiseType::White ==> #[trigger] r[i] == draws[i],
            forall|i: int| 0 <= i < count && t == NoiseType::Gray ==>
                #[trigger] r[i] == gray_output(draws[i] as int, envelope[i % (old(self).sample_rate as int)] as int),
            forall|i: int| 0 <= i < count && t == NoiseType::Blue ==>
                #[trigger] r[i] == Self::blue_expected(old(self).blue.prev, draws@, i),
            t == NoiseType::Blue && count > 0 ==> final(self).blue.prev == draws[count - 1],
            t == NoiseType::Blue && count == 0 ==> final(self).blue == old(self).blue,
            forall|i: int| 0 <= i < count && t == NoiseType::Pink ==>
                #[trigger] r[i] == pink_output(pink_run(old(self).pink, draws@, i), draws[i] as int),
            t == NoiseType::Pink ==> final(self).pink == pink_run(old(self).pink, draws@, count as int),
            forall|i: int| 0 <= i < count && t == NoiseType::Brown ==>
                #[trigger] r[i] == coef(brown_run(old(self).brown.level as int, draws@, i + 1), BROWN_GAIN as int),
            t == NoiseType::Brown ==> final(self).brown.level == brown_run(old(self).brown.level as int, draws@, count as int),
    {
        let mut out: Vec<i64> = Vec::new();
        let sr: usize = self.sample_rate as usize;
        let mut k: usize = 0;
        let mut i: usize = 0;
        while i < count
            invariant
                self.wf(),
                self.sample_rate == old(self).sample_rate,
                sr == self.sample_rate,
                count <= draws.len(),
                all_draws(draws@),
                t == NoiseType::Gray ==> envelope.len() == sr && all_envelope(envelope@),
                0 <= i <= count,
                k < sr,
                k == (i as int) % (sr as int),
                out.len() == i,
                t != NoiseType::Pink ==> self.pink == old(self).pink,
                t != NoiseType::Brown ==> self.brown == old(self).brown,
                t != NoiseType::Blue ==> self.blue == old(self).blue,
                forall|j: int| 0 <= j < i && t != NoiseType::Pink ==>
                    abs(#[trigger] out[j] as int) <= sample_bound(t),
                forall|j: int| 0 <= j < i && t == NoiseType::White ==> #[trigger] out[j] == draws[j],
                forall|j: int| 0 <= j < i && t == NoiseType::Gray ==>
                    #[trigger] out[j] == gray_output(draws[j] as int, envelope[j % (sr as int)] as int),
                forall|j: int| 0 <= j < i && t == NoiseType::Blue ==>
                    #[trigger] out[j] == Self::blue_expected(old(self).blue.prev, draws@, j),
                t == NoiseType::Blue ==> self.blue.prev == (if i == 0 { old(self).blue.prev } else { draws[i - 1] }),
                forall|j: int| 0 <= j < i && t == NoiseType::Pink ==>
                    #[trigger] out[j] == pink_output(pink_run(old(self).pink, draws@, j), draws[j] as int),
                t == NoiseType::Pink ==> self.pink == pink_run(old(self).pink, draws@, i as int),
                forall|j: int| 0 <= j < i && t == NoiseType::Brown ==>
                    #[trigger] out[j] == coef(brown_run(old(self).brown.level as int, draws@, j + 1), BROWN_GAIN as int),
                t == NoiseType::Brown ==> self.brown.level == brown_run(old(self).brown.level as int, draws@, i as int),
            decreases count - i,
        {
            let w = draws[i];
            assert(is_draw(draws[i as int] as int));
            let v = match t {
                NoiseType::White => w,
                NoiseType::Pink => self.pink.step(w),
                NoiseType::Brown => self.brown.step(w),
                NoiseType::Blue => self.blue.step(w),
                NoiseType::Gray => {
                    assert(is_envelope(envelope[k as int] as int));
                    gray_sample(w, envelope[k])
                },
            };
            out.push(v);
            k = if k + 1 == sr { 0 } else { k + 1 };
            i = i + 1;
            proof {
                lemma_mod_next(i as int - 1, sr as int);
            }
        }
        out
    }
}

/// Number of samples in `duration_us` microseconds at `sample_rate` Hz, rounded to nearest.
pub fn num_samples(sample_rate: u32, duration_us: u64) -> (r: u64)
    requires
        sample_rate as int * (duration_us as int + 1_000_000) <= u64::MAX as int,
    ensures
        r == sample_count(sample_rate as int, duration_us as int),
{
    assert(sample_rate as int * duration_us as int + 500_000 <= sample_rate as int * (duration_us as int + 1_000_000)
        || sample_rate == 0) by (nonlinear_arith);
    (sample_rate as u64 * duration_us as u64 + 500_000) / 1_000_000
}

proof fn lemma_gray_blocks_cover(sr: int, us: int)
    requires
        sr > 0,
        us >= 0,
    ensures
        sample_count(sr, us) <= gray_blocks(us) * sr,
        gray_blocks(us) * sr <= sr * (us + 1_000_000) / 1_000_000,
{
    let b = gray_blocks(us);
    assert(b * 1_000_000 >= us);
    assert(b * 1_000_000 <= us + 1_000_000);
    assert(sr * us <= b * sr * 1_000_000) by (nonlinear_arith)
        requires b * 1_000_000 >= us, sr > 0;
    assert(sr * us + 500_000 < (b * sr + 1) * 1_000_000) by (nonlinear_arith)
        requires sr * us <= b * sr * 1_000_000;
    assert(b * sr * 1_000_000 <= sr * (us + 1_000_000)) by (nonlinear_arith)
        requires b * 1_000_000 <= us + 1_000_000, sr > 0;
    vstd::arithmetic::div_mod::lemma_div_is_ordered(b * sr * 1_000_000, sr * (us + 1_000_000), 1_000_000);
    vstd::arithmetic::div_mod::lemma_div_multiples_vanish(b * sr, 1_000_000);
    assert((sr * us + 500_000) / 1_000_000 <= b * sr) by (nonlinear_arith)
        requires sr * us + 500_000 < (b * sr + 1) * 1_000_000, sr * us + 500_000 >= 0;
}

impl NoiseGenerator {
    /// `r` is what `shape` makes of the white draws `d`, starting from the filter
    /// state of `g` and leaving the filter state of `h`.
    pub open spec fn shaped_from(d: Seq<i64>, r: Seq<i64>, t: NoiseType, g: NoiseGenerator, h: NoiseGenerator, envelope: Seq<i64>) -> bool {
        &&& all_draws(d)
        &&& r.len() <= d.len()
        &&& h.sample_rate == g.sample_rate
        &&& (t == NoiseType::Pink ==> h.pink == pink_run(g.pink, d, r.len() as int))
        &&& (t != NoiseType::Pink ==> h.pink == g.pink)
        &&& (t == NoiseType::Brown ==> h.brown.level == brown_run(g.brown.level as int, d, r.len() as int))
        &&& (t != NoiseType::Brown ==> h.brown == g.brown)
        &&& (t == NoiseType::Blue && r.len() > 0 ==> h.blue.prev == d[r.len() - 1])
        &&& (t != NoiseType::Blue || r.len() == 0 ==> h.blue == g.blue)
        &&& forall|i: int| 0 <= i < r.len() ==> {
            &&& t == NoiseType::White ==> #[trigger] r[i] == d[i]
            &&& t == NoiseType::Gray ==> r[i] == gray_output(d[i] as int, envelope[i % (g.sample_rate as int)] as int)
            &&& t == NoiseType::Blue ==> r[i] == Self::blue_expected(g.blue.prev, d, i)
            &&& t == NoiseType::Pink ==> r[i] == pink_output(pink_run(g.pink, d, i), d[i] as int)
            &&& t == NoiseType::Brown ==> r[i] == coef(brown_run(g.brown.level as int, d, i + 1), BROWN_GAIN as int)
        }
    }

    /// Generates `duration_us` microseconds of noise of type `t`. Gray noise is
    /// made in whole seconds under `envelope` (one value per sample of a second)
    /// and cut to length; the other types run their filter once per sample.
    pub fn generate(&mut self, t: NoiseType, duration_us: u64, envelope: &Vec<i64>) -> (r: Vec<i64>)
        requires
            old(self).wf(),
            old(self).sample_rate as int * (duration_us as int + 1_000_000) <= usize::MAX as int,
            t == NoiseType::Gray ==> envelope.len() == old(self).sample_rate && all_envelope(envelope@),
        ensures
            final(self).wf(),
            final(self).sample_rate == old(self).sample_rate,
            r.len() == sample_count(old(self).sample_rate as int, duration_us as int),
            forall|i: int| 0 <= i < r.len() && t != NoiseType::Pink ==>
                abs(#[trigger] r[i] as int) <= sample_bound(t),
            forall|i: int| 0 <= i < r.len() && t == NoiseType::White ==> is_draw(#[trigger] r[i] as int),
            exists|d: Seq<i64>| Self::shaped_from(d, r@, t, *old(self), *final(self), envelope@),
    {
        proof {
            lemma_gray_blocks_cover(self.sample_rate as int, duration_us as int);
            assert(self.sample_rate as int * duration_us as int + 500_000
                <= self.sample_rate as int * (duration_us as int + 1_000_000)) by (nonlinear_arith)
                requires self.sample_rate > 0;
            vstd::arithmetic::div_mod::lemma_div_is_ordered(
                self.sample_rate as int * duration_us as int + 500_000,
                self.sample_rate as int * (duration_us as int + 1_000_000),
                1_000_000,
            );
            assert(self.sample_rate as int * (duration_us as int + 1_000_000) / 1_000_000 <= usize::MAX as int);
            let b = gray_blocks(duration_us as int);
            assert(b <= b * self.sample_rate as int) by (nonlinear_arith)
                requires self.sample_rate > 0, b >= 1;
        }
        let n = num_samples(self.sample_rate, duration_us) as usize;
        let total: usize = if t == NoiseType::Gray {
            let blocks: usize = if duration_us == 0 { 1 } else { ((duration_us - 1) / 1_000_000 + 1) as usize };
            blocks * self.sample_rate as usize
        } else {
            n
        };
        let mut draws: Vec<i64> = Vec::new();
        let mut i: usize = 0;
        while i < total
            invariant
                0 <= i <= total,
                draws.len() == i,
                all_draws(draws@),
                self.wf(),
                self.sample_rate == old(self).sample_rate,
                self.blue == old(self).blue,
                self.pink == old(self).pink,
                self.brown == old(self).brown,
            decreases total - i,
        {
            let w = uniform_draw(&mut self.rng, -FULL_SCALE, FULL_SCALE);
            draws.push(w);
            i = i + 1;
        }
        let r = self.shape(t, &draws, envelope, n);
        assert forall|i: int| 0 <= i < r.len() implies {
            &&& t == NoiseType::White ==> #[trigger] r[i] == draws[i]
            &&& t == NoiseType::Gray ==> r[i] == gray_output(draws[i] as int, envelope[i % (old(self).sample_rate as int)] as int)
            &&& t == NoiseType::Blue ==> r[i] == Self::blue_expected(old(self).blue.prev, draws@, i)
            &&& t == NoiseType::Pink ==> r[i] == pink_output(pink_run(old(self).pink, draws@, i), draws[i] as int)
            &&& t == NoiseType::Brown ==> r[i] == coef(brown_run(old(self).brown.level as int, draws@, i + 1), BROWN_GAIN as int)
        } by {}
        assert(Self::shaped_from(draws@, r@, t, *old(self), *self, envelope@));
        r
    }
}

/// A zero duration yields no samples, whatever the sample rate.
pub proof fn lemma_zero_duration_is_empty(sample_rate: int)
    requires
        sample_rate > 0,
    ensures
        sample_count(sample_rate, 0) == 0,
{
}

/// A whole number of seconds yields exactly that many seconds of samples.
pub proof fn lemma_whole_seconds(sample_rate: int, seconds: int)
    requires
        sample_rate > 0,
        seconds >= 0,
    ensures
        sample_count(sample_rate, seconds * 1_000_000) == sample_rate * seconds,
{
    assert(sample_rate * (seconds * 1_000_000) + 500_000 == (sample_rate * seconds) * 1_000_000 + 500_000) by (nonlinear_arith);
    vstd::arithmetic::div_mod::lemma_fundamental_div_mod_converse(
        sample_rate * (seconds * 1_000_000) + 500_000, 1_000_000, sample_rate * seconds, 500_000);
}

/// Over any run of draws the brown integrator stays in [-1, 1], and each
/// unclamped step, like each clamped one, moves it by at most 0.02.
pub proof fn lemma_brown_run_steps(level: int, d: Seq<i64>, i: int)
    requires
        -FULL_SCALE <= level <= FULL_SCALE,
        all_draws(d),
        0 <= i < d.len(),
    ensures
        -FULL_SCALE <= brown_run(level, d, i) <= FULL_SCALE,
        -FULL_SCALE <= brown_run(level, d, i + 1) <= FULL_SCALE,
        abs(coef(d[i] as int, BROWN_STEP as int)) <= 20_000,
        abs(brown_run(level, d, i + 1) - brown_run(level, d, i)) <= 20_000,
    decreases i,
{
    if i > 0 {
        lemma_brown_run_steps(level, d, i - 1);
    }
    let w = d[i] as int;
    assert(is_draw(w));
    assert(abs(w * BROWN_STEP) <= 20_000 * COEF_SCALE) by (nonlinear_arith)
        requires is_draw(w);
    lemma_coef_bound(w, BROWN_STEP as int, 20_000);
}

} // verus!
