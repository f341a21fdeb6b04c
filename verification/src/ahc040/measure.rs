//! Estimating box sizes from measurements: each measurement lays some boxes
//! in a line (each flat or turned) and reports the total length; the sizes
//! are adjusted so that the lengths they predict come close to the reported
//! ones, in the sense of the sum of squared differences.
use vstd::prelude::*;
use rustc_hash::FxHashMap;

verus! {

/// `HashMap::get` on a map from box index to rotation: the rotation of box
/// `k` in the measurement, if it takes part.
#[verifier::external_body]
fn rotation_of(m: &FxHashMap<usize, bool>, k: usize) -> (r: Option<bool>)
    ensures
        r == (if m@.contains_key(k) { Some(m@[k]) } else { None::<bool> }),
{
    m.get(&k).copied()
}

/// The side of a box that a measurement reads: the height when turned, the
/// width otherwise.
pub open spec fn side(wh: (i64, i64), rotate: bool) -> int {
    if rotate { wh.1 as int } else { wh.0 as int }
}

/// What box `k` adds to the length of measurement `m`.
pub open spec fn share_of(m: Map<usize, bool>, wh: Seq<(i64, i64)>, k: int) -> int {
    if m.contains_key(k as usize) { side(wh[k], m[k as usize]) } else { 0 }
}

/// The length that measurement `m` predicts from boxes `0..k`.
pub open spec fn len_upto(m: Map<usize, bool>, wh: Seq<(i64, i64)>, k: int) -> int
    decreases k,
{
    if k <= 0 { 0 } else { len_upto(m, wh, k - 1) + share_of(m, wh, k - 1) }
}

/// The length that measurement `m` predicts.
pub open spec fn predicted(m: Map<usize, bool>, wh: Seq<(i64, i64)>) -> int {
    len_upto(m, wh, wh.len() as int)
}

/// The squared differences between the predicted lengths `lengths` and the
/// reported ones, over measurements `0..k`.
pub open spec fn sq_upto(lengths: Seq<i64>, meas: Seq<(FxHashMap<usize, bool>, i64)>, k: int) -> int
    decreases k,
{
    if k <= 0 {
        0
    } else {
        let d = lengths[k - 1] - meas[k - 1].1;
        sq_upto(lengths, meas, k - 1) + d * d
    }
}

/// A measurement reads only boxes that exist.
pub open spec fn keys_below(m: Map<usize, bool>, n: int) -> bool {
    forall|k: usize| #[trigger] m.contains_key(k) ==> k < n
}

/// The bounds within which the arithmetic stays in `i64`: at most 100 boxes
/// and 1000 measurements, reported lengths in `0..=20_000_000`, a noise in
/// `0..=10_000`.
pub open spec fn sizes_ok(n: int, meas: Seq<(FxHashMap<usize, bool>, i64)>, sigma: i64) -> bool {
    &&& n <= 100
    &&& meas.len() <= 1000
    &&& 0 <= sigma <= 10_000
    &&& forall|i: int| 0 <= i < meas.len() ==> {
        &&& 0 <= (#[trigger] meas[i]).1 <= 20_000_000
        &&& keys_below(meas[i].0@, n)
    }
}

/// Every side lies in `-b..=b`.
pub open spec fn sides_within(wh: Seq<(i64, i64)>, b: int) -> bool {
    forall|k: int| 0 <= k < wh.len() ==> -b <= (#[trigger] wh[k]).0 <= b && -b <= wh[k].1 <= b
}

proof fn lemma_len_bound(m: Map<usize, bool>, wh: Seq<(i64, i64)>, k: int, b: int)
    requires
        0 <= k <= wh.len(),
        b >= 0,
        sides_within(wh, b),
    ensures
        -(k * b) <= len_upto(m, wh, k) <= k * b,
    decreases k,
{
    if k > 0 {
        lemma_len_bound(m, wh, k - 1, b);
        let e = wh[k - 1];
        assert((k - 1) * b + b == k * b) by (nonlinear_arith);
    }
}

/// The estimate: the sizes, the noise, the predicted length of each
/// measurement, the measurements (the rotation of each box read, and the
/// reported length), and the sum of squared differences.
pub struct State {
    pub wh: Vec<(i64, i64)>,
    pub sigma: i64,
    pub lengths: Vec<i64>,
    pub measures: Vec<(FxHashMap<usize, bool>, i64)>,
    pub score: i64,
}

impl State {
    /// The predicted lengths and the score agree with the sizes.
    pub open spec fn consistent(&self) -> bool {
        &&& self.lengths@.len() == self.measures@.len()
        &&& forall|i: int| 0 <= i < self.lengths@.len() ==>
            #[trigger] self.lengths@[i] == predicted(self.measures@[i].0@, self.wh@)
        &&& self.score == sq_upto(self.lengths@, self.measures@, self.measures@.len() as int)
    }

    /// The estimate of the sizes `wh2` against `measures`: each predicted
    /// length and the score.
    pub fn new(wh2: Vec<(i64, i64)>, sigma: i64, measures: Vec<(FxHashMap<usize, bool>, i64)>) -> (s: State)
        requires
            sizes_ok(wh2@.len() as int, measures@, sigma),
            sides_within(wh2@, 100_000),
        ensures
            s.consistent(),
            s.wh@ == wh2@,
            s.sigma == sigma,
            s.measures@ == measures@,
    {
        let n = wh2.len();
        let mut score: i64 = 0;
        let mut lengths: Vec<i64> = Vec::new();
        let mut i: usize = 0;
        while i < measures.len()
            invariant
                n == wh2@.len(),
                sizes_ok(n as int, measures@, sigma),
                sides_within(wh2@, 100_000),
                0 <= i <= measures@.len(),
                lengths@.len() == i,
                forall|q: int| 0 <= q < i ==> #[trigger] lengths@[q] == predicted(measures@[q].0@, wh2@),
                score == sq_upto(lengths@, measures@, i as int),
                0 <= score <= i * 6_000_000_000_000_000,
            decreases measures@.len() - i,
        {
            let m = &measures[i].0;
            let mut len: i64 = 0;
            let mut k: usize = 0;
            while k < n
                invariant
                    n == wh2@.len(),
                    n <= 100,
                    sides_within(wh2@, 100_000),
                    0 <= k <= n,
                    len == len_upto(m@, wh2@, k as int),
                decreases n - k,
            {
                proof {
                    lemma_len_bound(m@, wh2@, k as int, 100_000);
                }
                match rotation_of(m, k) {
                    Some(rotate) => {
                        let (w, h) = wh2[k];
                        if rotate {
                            len += h;
                        } else {
                            len += w;
                        }
                    },
                    None => {},
                }
                k += 1;
            }
            proof {
                lemma_len_bound(m@, wh2@, n as int, 100_000);
            }
            let diff = if measures[i].1 >= len { measures[i].1 - len } else { len - measures[i].1 };
            proof {
                assert(diff * diff <= 6_000_000_000_000_000) by (nonlinear_arith)
                    requires 0 <= diff <= 30_000_000;
                assert(i * 6_000_000_000_000_000 + 6_000_000_000_000_000 <= 1000 * 6_000_000_000_000_000) by (nonlinear_arith)
                    requires i < 1000;
            }
            proof {
                let d = len - measures@[i as int].1;
                assert(diff * diff == d * d) by (nonlinear_arith)
                    requires diff == d || diff == -d;
            }
            score += diff * diff;
            let ghost prev = lengths@;
            lengths.push(len);
            i += 1;
            proof {
                assert(lengths@.drop_last() =~= prev);
                lemma_sq_prefix(lengths@, measures@, i - 1);
            }
        }
        State { wh: wh2, sigma, lengths, measures, score }
    }
}

/// The squared sum over the first `k` measurements looks only at the first
/// `k` predicted lengths.
proof fn lemma_sq_prefix(lengths: Seq<i64>, meas: Seq<(FxHashMap<usize, bool>, i64)>, k: int)
    requires
        0 <= k < lengths.len(),
    ensures
        sq_upto(lengths, meas, k) == sq_upto(lengths.subrange(0, k), meas, k),
        sq_upto(lengths, meas, k) == sq_upto(lengths.drop_last(), meas, k),
    decreases k,
{
    if k > 0 {
        lemma_sq_prefix(lengths, meas, k - 1);
        lemma_sq_prefix(lengths.subrange(0, k), meas, k - 1);
        lemma_sq_prefix(lengths.drop_last(), meas, k - 1);
        assert(lengths.subrange(0, k).subrange(0, k - 1) =~= lengths.subrange(0, k - 1));
        assert(lengths.drop_last().subrange(0, k - 1) =~= lengths.subrange(0, k - 1));
    }
}

/// Measurement `m` reads box `idx` with rotation `rotate`.
pub open spec fn hit(m: Map<usize, bool>, idx: usize, rotate: bool) -> bool {
    m.contains_key(idx) && m[idx] == rotate
}

/// The squared differences over measurements `0..k` when the side
/// `rotate` of box `idx` grows by `d`: the lengths of the measurements that
/// read it grow by `d`.
pub open spec fn trial_upto(
    lengths: Seq<i64>,
    meas: Seq<(FxHashMap<usize, bool>, i64)>,
    idx: usize,
    rotate: bool,
    d: int,
    k: int,
) -> int
    decreases k,
{
    if k <= 0 {
        0
    } else {
        let l = lengths[k - 1] + if hit(meas[k - 1].0@, idx, rotate) { d } else { 0 };
        let e = l - meas[k - 1].1;
        trial_upto(lengths, meas, idx, rotate, d, k - 1) + e * e
    }
}

/// The sizes with side `rotate` of box `idx` grown by `d`.
pub open spec fn grown(wh: Seq<(i64, i64)>, idx: int, rotate: bool, d: int) -> Seq<(i64, i64)> {
    let (w, h) = wh[idx];
    wh.update(idx, if rotate { (w, (h + d) as i64) } else { ((w + d) as i64, h) })
}

/// The sum of squares after growing a side is the sum of squares of the
/// grown lengths.
proof fn lemma_trial_is_sq(
    lengths: Seq<i64>,
    lengths2: Seq<i64>,
    meas: Seq<(FxHashMap<usize, bool>, i64)>,
    idx: usize,
    rotate: bool,
    d: int,
    k: int,
)
    requires
        0 <= k <= lengths.len(),
        lengths2.len() == lengths.len(),
        forall|i: int| 0 <= i < lengths.len() ==>
            #[trigger] lengths2[i] == lengths[i] + if hit(meas[i].0@, idx, rotate) { d } else { 0 },
    ensures
        trial_upto(lengths, meas, idx, rotate, d, k) == sq_upto(lengths2, meas, k),
    decreases k,
{
    if k > 0 {
        lemma_trial_is_sq(lengths, lengths2, meas, idx, rotate, d, k - 1);
        let e = lengths2[k - 1];
    }
}

/// Between `k1` and `k2`, each square is at most `q`, so the sum grows by at
/// most `(k2 - k1) * q`.
proof fn lemma_trial_range(
    lengths: Seq<i64>,
    meas: Seq<(FxHashMap<usize, bool>, i64)>,
    idx: usize,
    rotate: bool,
    d: int,
    k1: int,
    k2: int,
    q: int,
)
    requires
        0 <= k1 <= k2 <= lengths.len(),
        forall|i: int| 0 <= i < k2 ==> {
            let l = #[trigger] lengths[i] + if hit(meas[i].0@, idx, rotate) { d } else { 0 };
            (l - meas[i].1) * (l - meas[i].1) <= q
        },
    ensures
        0 <= trial_upto(lengths, meas, idx, rotate, d, k2) - trial_upto(lengths, meas, idx, rotate, d, k1) <= (k2 - k1) * q,
    decreases k2,
{
    if k2 > k1 {
        lemma_trial_range(lengths, meas, idx, rotate, d, k1, k2 - 1, q);
        let l = lengths[k2 - 1] + if hit(meas[k2 - 1].0@, idx, rotate) { d } else { 0 };
        let e = l - meas[k2 - 1].1;
        assert(e * e >= 0) by (nonlinear_arith);
        assert((k2 - 1 - k1) * q + q == (k2 - k1) * q) by (nonlinear_arith);
    }
}

/// Growing a side of box `idx` changes the predicted length of a
/// measurement exactly when it reads that side, and by the growth.
proof fn lemma_len_grown(m: Map<usize, bool>, wh: Seq<(i64, i64)>, idx: int, rotate: bool, d: int, k: int)
    requires
        0 <= idx < wh.len(),
        0 <= k <= wh.len(),
        if rotate { i64::MIN <= wh[idx].1 + d <= i64::MAX } else { i64::MIN <= wh[idx].0 + d <= i64::MAX },
    ensures
        len_upto(m, grown(wh, idx, rotate, d), k) == len_upto(m, wh, k)
            + if idx < k && hit(m, idx as usize, rotate) { d } else { 0 },
    decreases k,
{
    if k > 0 {
        lemma_len_grown(m, wh, idx, rotate, d, k - 1);
    }
}

/// The square of a number within `71_000_000` is within the bound of one
/// measurement.
proof fn lemma_square_bound(x: int)
    requires
        -71_000_000 <= x <= 71_000_000,
    ensures
        0 <= x * x <= 6_000_000_000_000_000,
{
    assert(0 <= x * x <= 6_000_000_000_000_000) by (nonlinear_arith)
        requires -71_000_000 <= x <= 71_000_000;
}

/// The predicted length of each measurement, as the lengths that a
/// consistent estimate holds.
pub open spec fn lens(wh: Seq<(i64, i64)>, meas: Seq<(FxHashMap<usize, bool>, i64)>) -> Seq<i64> {
    Seq::new(meas.len(), |i: int| predicted(meas[i].0@, wh) as i64)
}

/// The score of sizes `wh`: the sum of squared differences.
pub open spec fn cur(wh: Seq<(i64, i64)>, meas: Seq<(FxHashMap<usize, bool>, i64)>) -> int {
    sq_upto(lens(wh, meas), meas, meas.len() as int)
}

/// The score of sizes `wh` with side `rotate` of box `idx` grown by `d`.
pub open spec fn trial(wh: Seq<(i64, i64)>, meas: Seq<(FxHashMap<usize, bool>, i64)>, idx: usize, rotate: bool, d: int) -> int {
    trial_upto(lens(wh, meas), meas, idx, rotate, d, meas.len() as int)
}

/// The bisection over the number of steps in `l..hi`: the largest count
/// (between `l` and `hi`, found by halving) at which growing the side by
/// that many steps `delta` in direction `dir` still lowers the score.
pub open spec fn bisect(
    wh: Seq<(i64, i64)>,
    meas: Seq<(FxHashMap<usize, bool>, i64)>,
    idx: usize,
    rotate: bool,
    delta: int,
    dir: int,
    l: int,
    hi: int,
) -> int
    decreases hi - l,
{
    if hi - l > 1 {
        let m = (l + hi) / 2;
        if trial(wh, meas, idx, rotate, delta * m * dir) - cur(wh, meas) < 0 {
            bisect(wh, meas, idx, rotate, delta, dir, m, hi)
        } else {
            bisect(wh, meas, idx, rotate, delta, dir, l, m)
        }
    } else {
        l
    }
}

/// One adjustment of side `rotate` of box `idx` with step `delta`: the
/// direction is up when one step up lowers the score, down otherwise; the
/// side moves by a twentieth (rounded down) of the bisected count of steps.
pub open spec fn adjust(wh: Seq<(i64, i64)>, meas: Seq<(FxHashMap<usize, bool>, i64)>, idx: usize, rotate: bool, delta: int)
    -> Seq<(i64, i64)> {
    let dir: int = if trial(wh, meas, idx, rotate, delta) < cur(wh, meas) { 1 } else { -1 };
    let l = bisect(wh, meas, idx, rotate, delta, dir, 1, 100);
    if l / 20 != 0 { grown(wh, idx as int, rotate, delta * (l / 20) * dir) } else { wh }
}

/// The adjustments of the first `k` sides (flat, then turned) of box `idx`.
pub open spec fn adjust_sides(wh: Seq<(i64, i64)>, meas: Seq<(FxHashMap<usize, bool>, i64)>, idx: usize, delta: int, k: int)
    -> Seq<(i64, i64)>
    decreases k,
{
    if k <= 0 { wh } else { adjust(adjust_sides(wh, meas, idx, delta, k - 1), meas, idx, k - 1 != 0, delta) }
}

/// The adjustments of both sides of boxes `0..k`, box by box.
pub open spec fn adjust_boxes(wh: Seq<(i64, i64)>, meas: Seq<(FxHashMap<usize, bool>, i64)>, delta: int, k: int)
    -> Seq<(i64, i64)>
    decreases k,
{
    if k <= 0 { wh } else { adjust_sides(adjust_boxes(wh, meas, delta, k - 1), meas, (k - 1) as usize, delta, 2) }
}

/// The step of round `sep`: `sigma / 20 / sep`, at least 1.
pub open spec fn step_of(sigma: int, sep: int) -> int {
    if (sigma / 20) / sep > 1 { (sigma / 20) / sep } else { 1 }
}

/// Rounds `1..=k` of adjustments of all `n` boxes.
pub open spec fn rounds(wh: Seq<(i64, i64)>, meas: Seq<(FxHashMap<usize, bool>, i64)>, sigma: int, n: int, k: int)
    -> Seq<(i64, i64)>
    decreases k,
{
    if k <= 0 { wh } else { adjust_boxes(rounds(wh, meas, sigma, n, k - 1), meas, step_of(sigma, k), n) }
}

/// A consistent estimate within the bounds holds the lengths and score of
/// its sizes.
proof fn lemma_lens(s: &State)
    requires
        s.consistent(),
        s.bounded(500_000),
    ensures
        s.lengths@ == lens(s.wh@, s.measures@),
        s.score == cur(s.wh@, s.measures@),
{
    assert forall|i: int| 0 <= i < s.lengths@.len() implies s.lengths@[i] == lens(s.wh@, s.measures@)[i] by {
        lemma_len_bound(s.measures@[i].0@, s.wh@, s.wh@.len() as int, 500_000);
        assert(s.wh@.len() * 500_000 <= 50_000_000) by (nonlinear_arith)
            requires s.wh@.len() <= 100;
    }
    assert(s.lengths@ =~= lens(s.wh@, s.measures@));
}

/// The bound on the sides once step `(idx, r)` of round `sep` is reached:
/// the sides adjusted in this round already (those before it) are within
/// the round's bound, the others within the last round's.
pub open spec fn sides_progress(wh: Seq<(i64, i64)>, sep: int, idx: int, r: int) -> bool {
    forall|k: int| 0 <= k < wh.len() ==> {
        let b0 = 100_000 + 2000 * (if k < idx || (k == idx && 0 < r) { sep } else { sep - 1 });
        let b1 = 100_000 + 2000 * (if k < idx || (k == idx && 1 < r) { sep } else { sep - 1 });
        &&& -b0 <= (#[trigger] wh[k]).0 <= b0
        &&& -b1 <= wh[k].1 <= b1
    }
}

impl State {
    /// The bounds of `sizes_ok` hold, with the sides within `b`.
    pub open spec fn bounded(&self, b: int) -> bool {
        &&& sizes_ok(self.wh@.len() as int, self.measures@, self.sigma)
        &&& sides_within(self.wh@, b)
    }

    /// The score after growing side `rotate` of box `idx` by `d`,
    /// `trial_upto` over all measurements.
    fn trial_score(&self, idx: usize, rotate: bool, d: i64) -> (r: i64)
        requires
            self.consistent(),
            self.bounded(500_000),
            -50_000 <= d <= 50_000,
        ensures
            r == trial_upto(self.lengths@, self.measures@, idx, rotate, d as int, self.measures@.len() as int),
            0 <= r <= 6_000_000_000_000_000_000,
            0 <= self.score <= 6_000_000_000_000_000_000,
    {
        let ghost lens = self.lengths@;
        let ghost meas = self.measures@;
        let ghost total = meas.len() as int;
        proof {
            assert forall|i: int| 0 <= i < total implies -50_000_000 <= #[trigger] lens[i] <= 50_000_000 by {
                lemma_len_bound(meas[i].0@, self.wh@, self.wh@.len() as int, 500_000);
                assert(self.wh@.len() * 500_000 <= 50_000_000) by (nonlinear_arith)
                    requires self.wh@.len() <= 100;
                let e = meas[i];
            }
            assert forall|i: int| 0 <= i < total implies {
                let l = #[trigger] lens[i] + if hit(meas[i].0@, idx, rotate) { d as int } else { 0 };
                (l - meas[i].1) * (l - meas[i].1) <= 6_000_000_000_000_000
            } by {
                let e = meas[i];
                let l = lens[i] + if hit(meas[i].0@, idx, rotate) { d as int } else { 0 };
                lemma_square_bound(l - meas[i].1);
            }
            assert forall|i: int| 0 <= i < total implies {
                let l = #[trigger] lens[i] + if hit(meas[i].0@, idx, rotate) { 0int } else { 0 };
                (l - meas[i].1) * (l - meas[i].1) <= 6_000_000_000_000_000
            } by {
                let e = meas[i];
                lemma_square_bound(lens[i] - meas[i].1);
            }
            lemma_trial_is_sq(lens, lens, meas, idx, rotate, 0, total);
        }
        let mut next_score: i64 = self.score;
        let mut j: usize = 0;
        while j < self.lengths.len()
            invariant
                lens == self.lengths@,
                meas == self.measures@,
                total == meas.len(),
                lens.len() == total,
                total <= 1000,
                -50_000 <= d <= 50_000,
                forall|i: int| 0 <= i < total ==> -50_000_000 <= #[trigger] lens[i] <= 50_000_000,
                forall|i: int| 0 <= i < total ==> 0 <= (#[trigger] meas[i]).1 <= 20_000_000,
                forall|i: int| 0 <= i < total ==> {
                    let l = #[trigger] lens[i] + if hit(meas[i].0@, idx, rotate) { d as int } else { 0 };
                    (l - meas[i].1) * (l - meas[i].1) <= 6_000_000_000_000_000
                },
                forall|i: int| 0 <= i < total ==> {
                    let l = #[trigger] lens[i] + if hit(meas[i].0@, idx, rotate) { 0int } else { 0 };
                    (l - meas[i].1) * (l - meas[i].1) <= 6_000_000_000_000_000
                },
                trial_upto(lens, meas, idx, rotate, 0, total) == sq_upto(lens, meas, total),
                self.score == sq_upto(lens, meas, total),
                0 <= j <= total,
                next_score == self.score - trial_upto(lens, meas, idx, rotate, 0, j as int)
                    + trial_upto(lens, meas, idx, rotate, d as int, j as int),
            decreases total - j,
        {
            proof {
                lemma_trial_range(lens, meas, idx, rotate, 0, j as int, total, 6_000_000_000_000_000);
                lemma_trial_range(lens, meas, idx, rotate, d as int, 0, j as int + 1, 6_000_000_000_000_000);
                assert(total * 6_000_000_000_000_000 <= 6_000_000_000_000_000_000) by (nonlinear_arith)
                    requires total <= 1000;
                assert((j + 1) * 6_000_000_000_000_000 <= 6_000_000_000_000_000_000) by (nonlinear_arith)
                    requires j + 1 <= 1000;
                let e = meas[j as int];
                let l0 = lens[j as int];
            }
            let length = self.lengths[j];
            let value = self.measures[j].1;
            match rotation_of(&self.measures[j].0, idx) {
                Some(rot) => {
                    if rot == rotate {
                        let before_diff = if length >= value { length - value } else { value - length };
                        let after_diff = if length + d >= value { length + d - value } else { value - (length + d) };
                        proof {
                            let x = length - value;
                            let y = length + d - value;
                            assert(before_diff * before_diff == x * x) by (nonlinear_arith)
                                requires before_diff == x || before_diff == -x;
                            assert(after_diff * after_diff == y * y) by (nonlinear_arith)
                                requires after_diff == y || after_diff == -y;
                            lemma_square_bound(x);
                            lemma_square_bound(y);
                        }
                        next_score += after_diff * after_diff - before_diff * before_diff;
                    }
                },
                None => {},
            }
            j += 1;
        }
        proof {
            lemma_trial_range(lens, meas, idx, rotate, 0, 0, total, 6_000_000_000_000_000);
            lemma_trial_range(lens, meas, idx, rotate, d as int, 0, total, 6_000_000_000_000_000);
            assert(total * 6_000_000_000_000_000 <= 6_000_000_000_000_000_000) by (nonlinear_arith)
                requires total <= 1000;
        }
        next_score
    }

    /// Grows side `rotate` of box `idx` by `md`, with the predicted lengths of
    /// the measurements that read it and the score.
    fn apply_shift(&mut self, idx: usize, rotate: bool, md: i64)
        requires
            old(self).consistent(),
            old(self).bounded(500_000),
            idx < old(self).wh@.len(),
            -2000 <= md <= 2000,
        ensures
            final(self).consistent(),
            final(self).wh@ == grown(old(self).wh@, idx as int, rotate, md as int),
            final(self).measures@ == old(self).measures@,
            final(self).sigma == old(self).sigma,
    {
        let ghost lens = self.lengths@;
        let ghost meas = self.measures@;
        let ghost total = meas.len() as int;
        proof {
            assert forall|i: int| 0 <= i < total implies -50_000_000 <= #[trigger] lens[i] <= 50_000_000 by {
                lemma_len_bound(meas[i].0@, self.wh@, self.wh@.len() as int, 500_000);
                assert(self.wh@.len() * 500_000 <= 50_000_000) by (nonlinear_arith)
                    requires self.wh@.len() <= 100;
                let e = meas[i];
            }
            assert forall|i: int| 0 <= i < total implies {
                let l = #[trigger] lens[i] + if hit(meas[i].0@, idx, rotate) { md as int } else { 0 };
                (l - meas[i].1) * (l - meas[i].1) <= 6_000_000_000_000_000
            } by {
                let e = meas[i];
                let l = lens[i] + if hit(meas[i].0@, idx, rotate) { md as int } else { 0 };
                lemma_square_bound(l - meas[i].1);
            }
            assert forall|i: int| 0 <= i < total implies {
                let l = #[trigger] lens[i] + if hit(meas[i].0@, idx, rotate) { 0int } else { 0 };
                (l - meas[i].1) * (l - meas[i].1) <= 6_000_000_000_000_000
            } by {
                let e = meas[i];
                lemma_square_bound(lens[i] - meas[i].1);
            }
            lemma_trial_is_sq(lens, lens, meas, idx, rotate, 0, total);
        }
        let mut next_score: i64 = self.score;
        let mut j: usize = 0;
        while j < self.lengths.len()
            invariant
                meas == self.measures@,
                total == meas.len(),
                lens.len() == total,
                self.lengths@.len() == total,
                total <= 1000,
                -2000 <= md <= 2000,
                forall|i: int| 0 <= i < total ==> -50_000_000 <= #[trigger] lens[i] <= 50_000_000,
                forall|i: int| 0 <= i < total ==> 0 <= (#[trigger] meas[i]).1 <= 20_000_000,
                forall|i: int| 0 <= i < total ==> {
                    let l = #[trigger] lens[i] + if hit(meas[i].0@, idx, rotate) { md as int } else { 0 };
                    (l - meas[i].1) * (l - meas[i].1) <= 6_000_000_000_000_000
                },
                forall|i: int| 0 <= i < total ==> {
                    let l = #[trigger] lens[i] + if hit(meas[i].0@, idx, rotate) { 0int } else { 0 };
                    (l - meas[i].1) * (l - meas[i].1) <= 6_000_000_000_000_000
                },
                trial_upto(lens, meas, idx, rotate, 0, total) == sq_upto(lens, meas, total),
                old(self).score == sq_upto(lens, meas, total),
                0 <= j <= total,
                forall|i: int| 0 <= i < total ==> #[trigger] self.lengths@[i] == lens[i]
                    + if i < j && hit(meas[i].0@, idx, rotate) { md as int } else { 0 },
                next_score == old(self).score - trial_upto(lens, meas, idx, rotate, 0, j as int)
                    + trial_upto(lens, meas, idx, rotate, md as int, j as int),
                self.wh@ == old(self).wh@,
                self.sigma == old(self).sigma,
            decreases total - j,
        {
            proof {
                lemma_trial_range(lens, meas, idx, rotate, 0, j as int, total, 6_000_000_000_000_000);
                lemma_trial_range(lens, meas, idx, rotate, md as int, 0, j as int + 1, 6_000_000_000_000_000);
                assert(total * 6_000_000_000_000_000 <= 6_000_000_000_000_000_000) by (nonlinear_arith)
                    requires total <= 1000;
                assert((j + 1) * 6_000_000_000_000_000 <= 6_000_000_000_000_000_000) by (nonlinear_arith)
                    requires j + 1 <= 1000;
                let e = meas[j as int];
                let l0 = lens[j as int];
                let l1 = self.lengths@[j as int];
            }
            let length = self.lengths[j];
            let value = self.measures[j].1;
            match rotation_of(&self.measures[j].0, idx) {
                Some(rot) => {
                    if rot == rotate {
                        let before_diff = if length >= value { length - value } else { value - length };
                        let after_diff = if length + md >= value { length + md - value } else { value - (length + md) };
                        proof {
                            let x = length - value;
                            let y = length + md - value;
                            assert(before_diff * before_diff == x * x) by (nonlinear_arith)
                                requires before_diff == x || before_diff == -x;
                            assert(after_diff * after_diff == y * y) by (nonlinear_arith)
                                requires after_diff == y || after_diff == -y;
                            lemma_square_bound(x);
                            lemma_square_bound(y);
                        }
                        self.lengths.set(j, length + md);
                        next_score += after_diff * after_diff - before_diff * before_diff;
                    }
                },
                None => {},
            }
            j += 1;
        }
        let (w, h) = self.wh[idx];
        proof {
            let e = old(self).wh@[idx as int];
        }
        if rotate {
            self.wh.set(idx, (w, h + md));
        } else {
            self.wh.set(idx, (w + md, h));
        }
        self.score = next_score;
        proof {
            lemma_trial_is_sq(lens, self.lengths@, meas, idx, rotate, md as int, total);
            assert forall|i: int| 0 <= i < self.lengths@.len() implies
                #[trigger] self.lengths@[i] == predicted(self.measures@[i].0@, self.wh@) by {
                lemma_len_grown(meas[i].0@, old(self).wh@, idx as int, rotate, md as int, old(self).wh@.len() as int);
                assert(lens[i] == predicted(meas[i].0@, old(self).wh@));
            }
            assert(self.wh@ =~= grown(old(self).wh@, idx as int, rotate, md as int));
        }
    }

    /// Adjusts the sizes: in rounds `sep = 1..=200`, with a step `delta` of
    /// `sigma / 20 / sep` (at least 1), for each box and each side, picks
    /// the direction in which a step lowers the score (down otherwise),
    /// finds by bisection over `1..100` steps how far the score keeps falling,
    /// and moves the side by a twentieth of that (in whole steps): the sizes
    /// become `rounds` of the old ones. The predicted lengths and the score
    /// stay those of the sizes.
    pub fn solve(&mut self)
        requires
            old(self).consistent(),
            old(self).bounded(100_000),
        ensures
            final(self).consistent(),
            final(self).bounded(500_000),
            final(self).measures@ == old(self).measures@,
            final(self).sigma == old(self).sigma,
            final(self).wh@.len() == old(self).wh@.len(),
            final(self).wh@ == rounds(old(self).wh@, old(self).measures@, old(self).sigma as int, old(self).wh@.len() as int, 200),
    {
        let n = self.wh.len();
        let max_delta = self.sigma / 20;
        let ghost w0 = self.wh@;
        let ghost meas = self.measures@;
        let ghost sg = self.sigma as int;
        let mut sep: i64 = 1;
        while sep <= 200
            invariant
                self.consistent(),
                sizes_ok(n as int, self.measures@, self.sigma),
                self.measures@ == old(self).measures@,
                self.sigma == old(self).sigma,
                self.wh@.len() == n,
                max_delta == self.sigma / 20,
                1 <= sep <= 201,
                sides_within(self.wh@, 100_000 + 2000 * (sep - 1)),
                meas == self.measures@,
                sg == self.sigma as int,
                self.wh@ == rounds(w0, meas, sg, n as int, sep - 1),
            decreases 201 - sep,
        {
            let delta = if max_delta / sep > 1 { max_delta / sep } else { 1 };
            let ghost wsep = self.wh@;
            proof {
                assert(delta == step_of(sg, sep as int));
            }
            proof {
                assert(max_delta / sep <= max_delta) by (nonlinear_arith)
                    requires max_delta >= 0, sep >= 1;
            }
            let mut idx: usize = 0;
            while idx < n
                invariant
                    self.consistent(),
                    sizes_ok(n as int, self.measures@, self.sigma),
                    self.measures@ == old(self).measures@,
                    self.sigma == old(self).sigma,
                    self.wh@.len() == n,
                    max_delta == self.sigma / 20,
                    1 <= sep <= 200,
                    1 <= delta <= 500,
                    0 <= idx <= n,
                    sides_progress(self.wh@, sep as int, idx as int, 0),
                    meas == self.measures@,
                    self.wh@ == adjust_boxes(wsep, meas, delta as int, idx as int),
                decreases n - idx,
            {
                let ghost wbox = self.wh@;
                let mut r: usize = 0;
                while r <= 1
                    invariant
                        self.consistent(),
                        sizes_ok(n as int, self.measures@, self.sigma),
                        self.measures@ == old(self).measures@,
                        self.sigma == old(self).sigma,
                        self.wh@.len() == n,
                        1 <= sep <= 200,
                        1 <= delta <= 500,
                        0 <= idx < n,
                        0 <= r <= 2,
                        sides_progress(self.wh@, sep as int, idx as int, r as int),
                        meas == self.measures@,
                        self.wh@ == adjust_sides(wbox, meas, idx, delta as int, r as int),
                    decreases 2 - r,
                {
                    let rotate = if r == 0 { false } else { true };
                    let ghost w = self.wh@;
                    proof {
                        assert forall|k: int| 0 <= k < self.wh@.len() implies
                            -500_000 <= (#[trigger] self.wh@[k]).0 <= 500_000 && -500_000 <= self.wh@[k].1 <= 500_000 by {
                        }
                        lemma_lens(self);
                    }
                    let dir: i64 = {
                        let next_score = self.trial_score(idx, rotate, delta);
                        if next_score < self.score { 1 } else { -1 }
                    };
                    let ghost dirs: int = if trial(w, meas, idx, rotate, delta as int) < cur(w, meas) { 1 } else { -1 };
                    proof {
                        assert(dir == dirs);
                    }
                    let mut l: i64 = 1;
                    let mut hi: i64 = 100;
                    while hi - l > 1
                        invariant
                            self.consistent(),
                            self.bounded(500_000),
                            1 <= delta <= 500,
                            dir == 1 || dir == -1,
                            1 <= l < hi <= 100,
                            self.wh@ == w,
                            meas == self.measures@,
                            self.lengths@ == lens(w, meas),
                            self.score == cur(w, meas),
                            bisect(w, meas, idx, rotate, delta as int, dir as int, l as int, hi as int)
                                == bisect(w, meas, idx, rotate, delta as int, dir as int, 1, 100),
                        decreases hi - l,
                    {
                        let m = (l + hi) / 2;
                        proof {
                            assert(delta * m <= 50_000) by (nonlinear_arith)
                                requires 1 <= delta <= 500, 1 <= m <= 100;
                            assert(delta * m >= 0) by (nonlinear_arith)
                                requires 1 <= delta, 1 <= m;
                        }
                        let d = delta * m * dir;
                        let next_score = self.trial_score(idx, rotate, d);
                        let diff_score = next_score - self.score;
                        proof {
                            assert(d as int == delta as int * m as int * dir as int);
                        }
                        if diff_score < 0 {
                            l = m;
                        } else {
                            hi = m;
                        }
                    }
                    let modified = l / 20;
                    if modified != 0 {
                        proof {
                            assert(delta * modified <= 2000) by (nonlinear_arith)
                                requires 1 <= delta <= 500, 0 <= modified <= 4;
                            assert(delta * modified >= 0) by (nonlinear_arith)
                                requires 1 <= delta, 0 <= modified;
                        }
                        let modified_delta = delta * modified * dir;
                        let ghost before = self.wh@;
                        self.apply_shift(idx, rotate, modified_delta);
                        proof {
                            assert(self.wh@ == adjust(w, meas, idx, rotate, delta as int));
                            assert forall|k: int| 0 <= k < self.wh@.len() implies {
                                let b0 = 100_000 + 2000 * (if k < idx || (k == idx && 0 < r + 1) { sep as int } else { sep - 1 });
                                let b1 = 100_000 + 2000 * (if k < idx || (k == idx && 1 < r + 1) { sep as int } else { sep - 1 });
                                &&& -b0 <= (#[trigger] self.wh@[k]).0 <= b0
                                &&& -b1 <= self.wh@[k].1 <= b1
                            } by {
                                let e = before[k];
                            }
                        }
                    } else {
                        proof {
                            assert(self.wh@ == adjust(w, meas, idx, rotate, delta as int));
                            assert forall|k: int| 0 <= k < self.wh@.len() implies {
                                let b0 = 100_000 + 2000 * (if k < idx || (k == idx && 0 < r + 1) { sep as int } else { sep - 1 });
                                let b1 = 100_000 + 2000 * (if k < idx || (k == idx && 1 < r + 1) { sep as int } else { sep - 1 });
                                &&& -b0 <= (#[trigger] self.wh@[k]).0 <= b0
                                &&& -b1 <= self.wh@[k].1 <= b1
                            } by {
                                let e = self.wh@[k];
                            }
                        }
                    }
                    r += 1;
                }
                idx += 1;
                proof {
                    assert forall|k: int| 0 <= k < self.wh@.len() implies {
                        let b0 = 100_000 + 2000 * (if k < idx || (k == idx && 0 < 0) { sep as int } else { sep - 1 });
                        let b1 = 100_000 + 2000 * (if k < idx || (k == idx && 1 < 0) { sep as int } else { sep - 1 });
                        &&& -b0 <= (#[trigger] self.wh@[k]).0 <= b0
                        &&& -b1 <= self.wh@[k].1 <= b1
                    } by {
                        let e = self.wh@[k];
                    }
                }
            }
            sep += 1;
            proof {
                assert forall|k: int| 0 <= k < self.wh@.len() implies
                    -(100_000 + 2000 * (sep - 1)) <= (#[trigger] self.wh@[k]).0 <= 100_000 + 2000 * (sep - 1)
                    && -(100_000 + 2000 * (sep - 1)) <= self.wh@[k].1 <= 100_000 + 2000 * (sep - 1) by {
                    let e = self.wh@[k];
                }
            }
        }
    }
}

} // verus!