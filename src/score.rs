//! The distance oracle and the confidence normaliser.
//!
//! A raw ratio is kept as the exact fraction `together / separate`; a
//! confidence is an integer in millionths, truncated toward zero.
use vstd::prelude::*;
use crate::arith::{abs, lemma_mul_bound};
use vstd::arithmetic::div_mod::{lemma_div_is_ordered, lemma_div_is_ordered_by_denominator};
use crate::compressor::{compressed_len_of, compressed_length_of_concat};
use crate::error::LangError;

verus! {

/// Confidences are expressed in millionths.
pub const SCALE: u128 = 1000000;

/// Bound (2^26, exclusive) on the compressed length of a document: a
/// document of at most `MAX_DOC_LEN` bytes stays below it.
pub const SIZE_LIMIT: usize = 67108864;

/// Bound (2^27, exclusive) on the compressed length of a document followed
/// by a sample, and on the sum of their own compressed lengths.
pub const PAIR_LIMIT: usize = 134217728;

/// Bound (2^107, exclusive) on the magnitude of a confidence in millionths.
pub const CONFIDENCE_LIMIT: i128 = 162259276829213363391578010288128;

/// `together / separate`: the compressed length of a document followed by the
/// sample over the sum of their own compressed lengths. Lower is closer.
#[derive(Debug, Clone, Copy, PartialEq, Eq, Structural)]
pub struct RawRatio {
    pub together: usize,
    pub separate: usize,
}

/// The raw ratio of `f1` followed by `f2`, given their compressed lengths.
pub fn compression_ratio(f1: &[u8], f2: &[u8], compr_f1_len: usize, compr_f2_len: usize) -> (r:
    Result<RawRatio, LangError>)
    requires
        f1@.len() + f2@.len() <= usize::MAX,
        compr_f1_len + compr_f2_len <= usize::MAX,
    ensures
        f1@.len() + f2@.len() == 0 <==> r is Err,
        r matches Err(e) ==> e == LangError::EmptyInput,
        r matches Ok(x) ==> {
            &&& x.together == compressed_len_of(f1@ + f2@)
            &&& x.separate == compr_f1_len + compr_f2_len
            &&& x.together <= 24 + 2 * (f1@.len() + f2@.len())
        },
{
    if f1.len() + f2.len() == 0 {
        return Err(LangError::EmptyInput);
    }
    let together = compressed_length_of_concat(f1, f2);
    Ok(RawRatio { together, separate: compr_f1_len + compr_f2_len })
}

/// One reference's measurements: its compressed size `c`, and the two parts
/// `t / s` of its raw ratio against the sample.
pub type Measure = (int, int, int);

/// Measurements are in the ranges the scoring takes.
pub open spec fn measures_in_range(m: Seq<Measure>) -> bool {
    &&& 1 <= m.len() <= 4096
    &&& forall|i: int|
        0 <= i < m.len() ==> {
            &&& 4 <= (#[trigger] m[i]).0 < SIZE_LIMIT
            &&& 0 <= m[i].1 < PAIR_LIMIT
            &&& 8 <= m[i].2 < PAIR_LIMIT
        }
}

/// `m[w]` has the largest raw ratio, and is the first one that does.
pub open spec fn is_worst(m: Seq<Measure>, w: int) -> bool {
    &&& 0 <= w < m.len()
    &&& forall|j: int| 0 <= j < m.len() ==> #[trigger] m[j].1 * m[w].2 <= m[w].1 * m[j].2
    &&& forall|j: int| 0 <= j < w ==> #[trigger] m[j].1 * m[w].2 < m[w].1 * m[j].2
}

/// The first reference with the largest raw ratio.
pub open spec fn worst(m: Seq<Measure>) -> int {
    choose|w: int| is_worst(m, w)
}

/// The sum of the compressed sizes of the first `k` references.
pub open spec fn total_size(m: Seq<Measure>, k: int) -> int
    decreases k,
{
    if k <= 0 { 0 } else { total_size(m, k - 1) + m[k - 1].0 }
}

/// `(1 - t_i/s_i) / (1 - t_w/s_w) * c_i * n / total`, in millionths,
/// truncated toward zero, where `n / total` is one over the mean compressed size.
pub open spec fn confidence_formula(ci: int, ti: int, si: int, tw: int, sw: int, n: int, total: int) -> int {
    let q = abs(si - ti) * sw * ci * n * SCALE / (si * abs(sw - tw) * total);
    if (si >= ti) == (sw > tw) {
        q
    } else {
        -q
    }
}

/// The confidence of reference `i`, in millionths: the formula above with `w`
/// the worst reference; zero for every reference when `t_w == s_w`.
pub open spec fn scaled_confidence(m: Seq<Measure>, i: int) -> int {
    let w = worst(m);
    if m[w].1 == m[w].2 {
        0
    } else {
        confidence_formula(m[i].0, m[i].1, m[i].2, m[w].1, m[w].2, m.len() as int, total_size(m, m.len() as int))
    }
}

/// The confidences of all references.
pub open spec fn confidences(m: Seq<Measure>) -> Seq<int> {
    Seq::new(m.len(), |i: int| scaled_confidence(m, i))
}

/// The measurements that `score` reads from its arguments.
pub open spec fn measures_of(sizes: Seq<usize>, ratios: Seq<RawRatio>) -> Seq<Measure> {
    Seq::new(
        sizes.len(),
        |i: int| (sizes[i] as int, ratios[i].together as int, ratios[i].separate as int),
    )
}

proof fn lemma_fraction_order(t1: int, s1: int, t2: int, s2: int, t3: int, s3: int)
    requires
        s1 > 0,
        s2 > 0,
        s3 > 0,
        t1 * s2 <= t2 * s1,
        t2 * s3 < t3 * s2,
    ensures
        t1 * s3 < t3 * s1,
{
    assert(t1 * s2 * s3 <= t2 * s1 * s3) by (nonlinear_arith)
        requires t1 * s2 <= t2 * s1, s3 > 0;
    assert(t2 * s3 * s1 < t3 * s2 * s1) by (nonlinear_arith)
        requires t2 * s3 < t3 * s2, s1 > 0;
    assert(t1 * s3 * s2 < t3 * s1 * s2) by (nonlinear_arith)
        requires t1 * s2 * s3 <= t2 * s1 * s3, t2 * s3 * s1 < t3 * s2 * s1;
    assert(t1 * s3 < t3 * s1) by (nonlinear_arith)
        requires t1 * s3 * s2 < t3 * s1 * s2, s2 > 0;
}

proof fn lemma_worst_unique(m: Seq<Measure>, w: int)
    requires
        is_worst(m, w),
    ensures
        worst(m) == w,
{
    let v = worst(m);
    assert(is_worst(m, v));
    if v < w {
        assert(m[v].1 * m[w].2 < m[w].1 * m[v].2);
        assert(m[w].1 * m[v].2 <= m[v].1 * m[w].2);
    } else if w < v {
        assert(m[w].1 * m[v].2 < m[v].1 * m[w].2);
        assert(m[v].1 * m[w].2 <= m[w].1 * m[v].2);
    }
}

/// Finds the first reference with the largest raw ratio.
fn find_worst(ratios: &Vec<RawRatio>, Ghost(m): Ghost<Seq<Measure>>) -> (w: usize)
    requires
        measures_in_range(m),
        m.len() == ratios@.len(),
        forall|i: int|
            0 <= i < m.len() ==> m[i].1 == ratios@[i].together && m[i].2 == ratios@[i].separate,
    ensures
        is_worst(m, w as int),
        worst(m) == w,
{
    let mut w: usize = 0;
    let mut j: usize = 1;
    while j < ratios.len()
        invariant
            measures_in_range(m),
            m.len() == ratios@.len(),
            forall|i: int|
                0 <= i < m.len() ==> m[i].1 == ratios@[i].together && m[i].2
                    == ratios@[i].separate,
            1 <= j <= ratios@.len(),
            w < j,
            forall|k: int| 0 <= k < j ==> #[trigger] m[k].1 * m[w as int].2 <= m[w as int].1 * m[k].2,
            forall|k: int| 0 <= k < w ==> #[trigger] m[k].1 * m[w as int].2 < m[w as int].1 * m[k].2,
        decreases ratios@.len() - j,
    {
        let tj = ratios[j].together as u128;
        let sj = ratios[j].separate as u128;
        let tw = ratios[w].together as u128;
        let sw = ratios[w].separate as u128;
        proof {
            assert(m[j as int].1 < PAIR_LIMIT && m[j as int].2 < PAIR_LIMIT);
            assert(m[w as int].1 < PAIR_LIMIT && m[w as int].2 < PAIR_LIMIT);
            lemma_mul_bound(tj as int, sw as int, PAIR_LIMIT as int, PAIR_LIMIT as int);
            lemma_mul_bound(tw as int, sj as int, PAIR_LIMIT as int, PAIR_LIMIT as int);
        }
        if tj * sw > tw * sj {
            proof {
                let wi = w as int;
                let ji = j as int;
                assert forall|k: int| 0 <= k < j + 1 implies #[trigger] m[k].1 * m[ji].2 <= m[ji].1 * m[k].2 by {
                    if k < ji {
                        assert(m[k].1 * m[wi].2 <= m[wi].1 * m[k].2);
                        lemma_fraction_order(m[k].1, m[k].2, m[wi].1, m[wi].2, m[ji].1, m[ji].2);
                    }
                }
                assert forall|k: int| 0 <= k < ji implies #[trigger] m[k].1 * m[ji].2 < m[ji].1 * m[k].2 by {
                    assert(m[k].1 * m[wi].2 <= m[wi].1 * m[k].2);
                    lemma_fraction_order(m[k].1, m[k].2, m[wi].1, m[wi].2, m[ji].1, m[ji].2);
                }
            }
            w = j;
        }
        j += 1;
    }
    proof {
        lemma_worst_unique(m, w as int);
    }
    w
}

/// One confidence, computed in 128 bits.
fn confidence_value(ci: usize, ti: usize, si: usize, tw: usize, sw: usize, n: usize, total: u128) -> (r: i128)
    requires
        4 <= ci < SIZE_LIMIT,
        ti < PAIR_LIMIT,
        8 <= si < PAIR_LIMIT,
        tw < PAIR_LIMIT,
        8 <= sw < PAIR_LIMIT,
        tw != sw,
        1 <= n <= 4096,
        4 <= total <= 4096 * SIZE_LIMIT,
    ensures
        r == confidence_formula(ci as int, ti as int, si as int, tw as int, sw as int, n as int, total as int),
        -CONFIDENCE_LIMIT < r < CONFIDENCE_LIMIT,
{
    let d: u128 = if si >= ti { (si - ti) as u128 } else { (ti - si) as u128 };
    let cw: u128 = if sw > tw { (sw - tw) as u128 } else { (tw - sw) as u128 };
    proof {
        lemma_mul_bound(d as int, sw as int, PAIR_LIMIT as int, PAIR_LIMIT as int);
    }
    let step_a = d * (sw as u128);
    proof {
        lemma_mul_bound(step_a as int, ci as int, PAIR_LIMIT * PAIR_LIMIT, SIZE_LIMIT as int);
    }
    let step_b = step_a * (ci as u128);
    proof {
        lemma_mul_bound(step_b as int, n as int, PAIR_LIMIT * PAIR_LIMIT * SIZE_LIMIT, 4096);
    }
    let step_c = step_b * (n as u128);
    proof {
        lemma_mul_bound(step_c as int, SCALE as int, PAIR_LIMIT * PAIR_LIMIT * SIZE_LIMIT * 4096, SCALE as int);
    }
    let num = step_c * SCALE;
    proof {
        lemma_mul_bound(si as int, cw as int, PAIR_LIMIT as int, PAIR_LIMIT as int);
    }
    let q1 = (si as u128) * cw;
    proof {
        lemma_mul_bound(q1 as int, total as int, PAIR_LIMIT * PAIR_LIMIT, 4096 * SIZE_LIMIT);
        lemma_mul_bound(8, 1, si as int, cw as int);
        lemma_mul_bound(8, 4, q1 as int, total as int);
    }
    let den = q1 * total;
    let q = num / den;
    proof {
        let big: int = 4951760157141521099596496896000000;
        assert(PAIR_LIMIT * PAIR_LIMIT * SIZE_LIMIT * 4096 * SCALE == big);
        lemma_div_is_ordered_by_denominator(num as int, 32, den as int);
        lemma_div_is_ordered(num as int, big, 32);
        assert(big / 32 == 154742504910672534362390528000000);
        assert(abs(si - ti) == d);
        assert(abs(sw - tw) == cw);
    }
    if (si >= ti) == (sw > tw) {
        q as i128
    } else {
        -(q as i128)
    }
}

/// The sum of the compressed sizes.
fn total_of(sizes: &Vec<usize>, Ghost(m): Ghost<Seq<Measure>>) -> (r: u128)
    requires
        measures_in_range(m),
        m.len() == sizes@.len(),
        forall|i: int| 0 <= i < m.len() ==> m[i].0 == sizes@[i],
    ensures
        r == total_size(m, m.len() as int),
        4 <= r <= 4096 * SIZE_LIMIT,
{
    let mut total: u128 = 0;
    let mut i: usize = 0;
    while i < sizes.len()
        invariant
            measures_in_range(m),
            m.len() == sizes@.len(),
            forall|k: int| 0 <= k < m.len() ==> m[k].0 == sizes@[k],
            i <= sizes@.len(),
            total == total_size(m, i as int),
            i > 0 ==> 4 <= total,
            total <= i * SIZE_LIMIT,
        decreases sizes@.len() - i,
    {
        assert(4 <= m[i as int].0 < SIZE_LIMIT);
        total = total + sizes[i] as u128;
        i += 1;
    }
    total
}

/// The confidence of every reference, from its compressed size `sizes[i]`
/// and its raw ratio `ratios[i]` against the sample.
pub fn score(sizes: &Vec<usize>, ratios: &Vec<RawRatio>) -> (r: Vec<i128>)
    requires
        sizes@.len() == ratios@.len(),
        measures_in_range(measures_of(sizes@, ratios@)),
    ensures
        r@.len() == sizes@.len(),
        forall|i: int|
            0 <= i < r@.len() ==> r@[i] == scaled_confidence(measures_of(sizes@, ratios@), i),
        forall|i: int| 0 <= i < r@.len() ==> -CONFIDENCE_LIMIT < #[trigger] r@[i] < CONFIDENCE_LIMIT,
{
    let ghost m = measures_of(sizes@, ratios@);
    let total = total_of(sizes, Ghost(m));
    let w = find_worst(ratios, Ghost(m));
    let tw = ratios[w].together;
    let sw = ratios[w].separate;
    assert(0 <= m[w as int].1 < PAIR_LIMIT && 8 <= m[w as int].2 < PAIR_LIMIT);
    let n = sizes.len();
    let mut out: Vec<i128> = Vec::with_capacity(n);
    let mut i: usize = 0;
    while i < n
        invariant
            m == measures_of(sizes@, ratios@),
            measures_in_range(m),
            n == sizes@.len(),
            n == ratios@.len(),
            worst(m) == w,
            w < n,
            tw == m[w as int].1,
            sw == m[w as int].2,
            tw < PAIR_LIMIT,
            8 <= sw < PAIR_LIMIT,
            total == total_size(m, n as int),
            4 <= total <= 4096 * SIZE_LIMIT,
            i <= n,
            out@.len() == i,
            forall|k: int| 0 <= k < i ==> out@[k] == scaled_confidence(m, k),
            forall|k: int| 0 <= k < i ==> -CONFIDENCE_LIMIT < #[trigger] out@[k] < CONFIDENCE_LIMIT,
        decreases n - i,
    {
        assert(4 <= m[i as int].0 < SIZE_LIMIT);
        let c = if tw == sw {
            0
        } else {
            confidence_value(sizes[i], ratios[i].together, ratios[i].separate, tw, sw, n, total)
        };
        out.push(c);
        i += 1;
    }
    out
}

} // verus!
