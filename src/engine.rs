//! The decision engine: ranking a sample and accepting or rejecting it.
use vstd::prelude::*;
use crate::arith::{abs, lemma_mul_bound, product_above, product_below};
use crate::compressor::{compressed_len_of, compressed_length};
use crate::error::LangError;
use crate::order::{is_ranking, rank_order, ranked_before, ranked_order};
use crate::score::{
    compression_ratio, confidences, measures_in_range, measures_of, score, Measure, RawRatio,
    CONFIDENCE_LIMIT, PAIR_LIMIT, SCALE, SIZE_LIMIT,
};
use crate::store::{Detector, LanguageDoc, MAX_DOC_LEN};
use vstd::string::StringSliceAdditionalSpecFns;

verus! {

/// One reference language scored against a sample.
#[derive(Debug, Clone)]
pub struct ScoredCandidate {
    pub language_id: String,
    pub raw_ratio: RawRatio,
    pub confidence: i128,
}

/// A scored candidate as plain values: identifier, the two parts of the raw
/// ratio, and the confidence in millionths.
pub type CandidateView = (Seq<char>, int, int, int);

impl View for ScoredCandidate {
    type V = CandidateView;

    open spec fn view(&self) -> CandidateView {
        (
            self.language_id@,
            self.raw_ratio.together as int,
            self.raw_ratio.separate as int,
            self.confidence as int,
        )
    }
}

/// What the oracle measures of each reference against `sample`.
pub open spec fn sample_measures(d: Detector, sample: Seq<u8>) -> Seq<Measure> {
    Seq::new(
        d.docs@.len(),
        |i: int|
            (
                d.docs@[i].compressed_size as int,
                compressed_len_of(d.docs@[i].data@ + sample) as int,
                d.docs@[i].compressed_size + compressed_len_of(sample),
            ),
    )
}

/// Every reference scored against `sample`, highest confidence first, ties
/// in store order.
pub open spec fn expected_ranking(d: Detector, sample: Seq<u8>) -> Seq<CandidateView> {
    let m = sample_measures(d, sample);
    let conf = confidences(m);
    let order = ranked_order(conf);
    Seq::new(
        m.len(),
        |k: int| {
            let i = order[k] as int;
            (d.ids()[i], m[i].1, m[i].2, conf[i])
        },
    )
}

/// Identifier and confidence of each entry of a ranking.
pub open spec fn id_confidences(r: Seq<CandidateView>) -> Seq<(Seq<char>, int)> {
    r.map_values(|c: CandidateView| (c.0, c.3))
}

/// The first `top_n` entries of the ranking of `sample`.
pub open spec fn rank_result(d: Detector, sample: Seq<u8>, top_n: int) -> Seq<(Seq<char>, int)> {
    let all = id_confidences(expected_ranking(d, sample));
    all.take(if top_n < all.len() { top_n } else { all.len() as int })
}

/// The error, if any, of scoring `sample` against `d`.
pub open spec fn scoring_error(d: Detector, sample: Seq<u8>) -> Option<LangError> {
    if d.len() == 0 {
        Some(LangError::NoReferenceFiles)
    } else if sample.len() == 0 {
        Some(LangError::EmptyInput)
    } else {
        None
    }
}

/// Entry `k` of `sizes` and `ratios` holds what the oracle measures of
/// reference `k` against `sample`.
pub open spec fn measured_at(d: Detector, sample: Seq<u8>, sizes: Seq<usize>, ratios: Seq<RawRatio>, k: int) -> bool {
    &&& sizes[k] == d.docs@[k].compressed_size
    &&& ratios[k].together == compressed_len_of(d.docs@[k].data@ + sample)
    &&& ratios[k].together <= 24 + 2 * (d.docs@[k].data@.len() + sample.len())
    &&& ratios[k].separate == d.docs@[k].compressed_size + compressed_len_of(sample)
}

proof fn lemma_measures_in_range(d: Detector, sample: Seq<u8>, sizes: Seq<usize>, ratios: Seq<RawRatio>)
    requires
        d.wf(),
        d.len() >= 1,
        sample.len() <= MAX_DOC_LEN,
        sizes.len() == d.len(),
        ratios.len() == d.len(),
        forall|i: int| 0 <= i < d.len() ==> #[trigger] measured_at(d, sample, sizes, ratios, i),
        4 <= compressed_len_of(sample) <= 24 + 2 * sample.len(),
    ensures
        measures_of(sizes, ratios) == sample_measures(d, sample),
        measures_in_range(measures_of(sizes, ratios)),
{
    let m = measures_of(sizes, ratios);
    assert forall|i: int| 0 <= i < m.len() implies m[i] == sample_measures(d, sample)[i] by {
        assert(measured_at(d, sample, sizes, ratios, i));
    }
    assert(m =~= sample_measures(d, sample));
    assert forall|i: int| 0 <= i < m.len() implies {
        &&& 4 <= (#[trigger] m[i]).0 < SIZE_LIMIT
        &&& 0 <= m[i].1 < PAIR_LIMIT
        &&& 8 <= m[i].2 < PAIR_LIMIT
    } by {
        assert(d.docs@[i].wf());
        assert(measured_at(d, sample, sizes, ratios, i));
    }
}

/// Scores `input_bytes` against every reference of `docs` and ranks the
/// references, highest confidence first, ties in store order.
pub fn get_likelihood_of_lang(docs: &Detector, input_bytes: &[u8]) -> (r: Result<Vec<ScoredCandidate>, LangError>)
    requires
        docs.wf(),
        input_bytes@.len() <= MAX_DOC_LEN,
    ensures
        scoring_error(*docs, input_bytes@) matches Some(e) ==> r == Err::<Vec<ScoredCandidate>, LangError>(e),
        scoring_error(*docs, input_bytes@) is None ==> r is Ok,
        r matches Ok(v) ==> v@.map_values(|c: ScoredCandidate| c@) == expected_ranking(*docs, input_bytes@),
        r matches Ok(v) ==> forall|k: int| 0 <= k < v@.len() ==> -CONFIDENCE_LIMIT < #[trigger] v@[k].confidence < CONFIDENCE_LIMIT,
        r is Ok ==> is_ranking(
            confidences(sample_measures(*docs, input_bytes@)),
            ranked_order(confidences(sample_measures(*docs, input_bytes@))),
        ),
{
    let n = docs.docs.len();
    if n == 0 {
        return Err(LangError::NoReferenceFiles);
    }
    if input_bytes.len() == 0 {
        return Err(LangError::EmptyInput);
    }
    let sample_size = compressed_length(input_bytes);
    let mut sizes: Vec<usize> = Vec::with_capacity(n);
    let mut ratios: Vec<RawRatio> = Vec::with_capacity(n);
    let mut i: usize = 0;
    while i < n
        invariant
            docs.wf(),
            n == docs.docs@.len(),
            input_bytes@.len() <= MAX_DOC_LEN,
            input_bytes@.len() > 0,
            sample_size == compressed_len_of(input_bytes@),
            sample_size <= 24 + 2 * input_bytes@.len(),
            i <= n,
            sizes@.len() == i,
            ratios@.len() == i,
            forall|k: int| 0 <= k < i ==> #[trigger] measured_at(*docs, input_bytes@, sizes@, ratios@, k),
        decreases n - i,
    {
        let doc: &LanguageDoc = &docs.docs[i];
        assert(doc.wf());
        let ghost old_sizes = sizes@;
        let ghost old_ratios = ratios@;
        match compression_ratio(doc.data.as_slice(), input_bytes, doc.compressed_size, sample_size) {
            Ok(x) => {
                sizes.push(doc.compressed_size);
                ratios.push(x);
                assert forall|k: int| 0 <= k < i + 1 implies #[trigger] measured_at(*docs, input_bytes@, sizes@, ratios@, k) by {
                    if k < i {
                        assert(measured_at(*docs, input_bytes@, old_sizes, old_ratios, k));
                    }
                }
            },
            Err(e) => {
                return Err(e);
            },
        }
        i += 1;
    }
    proof {
        lemma_measures_in_range(*docs, input_bytes@, sizes@, ratios@);
    }
    let conf = score(&sizes, &ratios);
    let order = rank_order(&conf);
    let ghost m = sample_measures(*docs, input_bytes@);
    let ghost cs = conf@.map_values(|c: i128| c as int);
    proof {
        assert(cs =~= confidences(m));
    }
    let mut out: Vec<ScoredCandidate> = Vec::with_capacity(n);
    let mut k: usize = 0;
    while k < n
        invariant
            docs.wf(),
            n == docs.docs@.len(),
            m == sample_measures(*docs, input_bytes@),
            cs == conf@.map_values(|c: i128| c as int),
            cs == confidences(m),
            conf@.len() == n,
            ratios@.len() == n,
            forall|j: int| 0 <= j < n ==> ratios@[j].together == m[j].1 && ratios@[j].separate == m[j].2,
            forall|j: int| 0 <= j < n ==> -CONFIDENCE_LIMIT < #[trigger] conf@[j] < CONFIDENCE_LIMIT,
            is_ranking(cs, order@),
            order@ == ranked_order(cs),
            k <= n,
            out@.len() == k,
            forall|j: int| 0 <= j < k ==> (#[trigger] out@[j])@ == expected_ranking(*docs, input_bytes@)[j],
            forall|j: int| 0 <= j < k ==> -CONFIDENCE_LIMIT < #[trigger] out@[j].confidence < CONFIDENCE_LIMIT,
        decreases n - k,
    {
        let i = order[k];
        assert(order@[k as int] < n);
        let c = ScoredCandidate {
            language_id: docs.names[i].clone(),
            raw_ratio: ratios[i],
            confidence: conf[i],
        };
        assert(c@ == expected_ranking(*docs, input_bytes@)[k as int]);
        out.push(c);
        k += 1;
    }
    assert(out@.map_values(|c: ScoredCandidate| c@) =~= expected_ranking(*docs, input_bytes@));
    Ok(out)
}

impl Detector {
    /// Every reference scored against `text`, highest confidence first.
    pub fn detect(&self, text: &str) -> (r: Result<Vec<ScoredCandidate>, LangError>)
        requires
            self.wf(),
            text.spec_bytes().len() <= MAX_DOC_LEN,
        ensures
            scoring_error(*self, text.spec_bytes()) matches Some(e) ==> r == Err::<Vec<ScoredCandidate>, LangError>(e),
            scoring_error(*self, text.spec_bytes()) is None ==> r is Ok,
            r matches Ok(v) ==> v@.map_values(|c: ScoredCandidate| c@) == expected_ranking(*self, text.spec_bytes()),
    {
        get_likelihood_of_lang(self, text.as_bytes())
    }
}

/// Returns the `top_n` most likely languages for `sample` with their
/// confidences in millionths, highest first.
pub fn rank(docs: &Detector, sample: &[u8], top_n: usize) -> (r: Result<Vec<(String, i128)>, LangError>)
    requires
        docs.wf(),
        sample@.len() <= MAX_DOC_LEN,
    ensures
        scoring_error(*docs, sample@) matches Some(e) ==> r == Err::<Vec<(String, i128)>, LangError>(e),
        scoring_error(*docs, sample@) is None ==> r is Ok,
        r matches Ok(v) ==> v@.map_values(|p: (String, i128)| (p.0@, p.1 as int)) == rank_result(*docs, sample@, top_n as int),
        r matches Ok(v) ==> v@.len() <= top_n,
        r matches Ok(v) ==> forall|k: int, l: int| 0 <= k < l < v@.len() ==> v@[k].1 >= v@[l].1,
{
    let all = get_likelihood_of_lang(docs, sample)?;
    let ghost expected = expected_ranking(*docs, sample@);
    let ghost m = sample_measures(*docs, sample@);
    let ghost conf = confidences(m);
    proof {
        assert(all@.len() == expected.len());
        assert forall|k: int, l: int| 0 <= k < l < all@.len() implies all@[k].confidence >= all@[l].confidence by {
            assert(all@[k]@ == expected[k]);
            assert(all@[l]@ == expected[l]);
            assert(ranked_before(conf, ranked_order(conf)[k] as int, ranked_order(conf)[l] as int));
        }
    }
    let count = if top_n < all.len() { top_n } else { all.len() };
    let mut out: Vec<(String, i128)> = Vec::with_capacity(count);
    let mut k: usize = 0;
    while k < count
        invariant
            count <= all@.len(),
            count <= top_n,
            count == (if top_n < all@.len() { top_n as int } else { all@.len() as int }),
            all@.map_values(|c: ScoredCandidate| c@) == expected,
            forall|a: int, b: int| 0 <= a < b < all@.len() ==> all@[a].confidence >= all@[b].confidence,
            k <= count,
            out@.len() == k,
            forall|j: int| 0 <= j < k ==> (#[trigger] out@[j]).0@ == all@[j].language_id@ && out@[j].1 == all@[j].confidence,
        decreases count - k,
    {
        out.push((all[k].language_id.clone(), all[k].confidence));
        k += 1;
    }
    proof {
        let got = out@.map_values(|p: (String, i128)| (p.0@, p.1 as int));
        let want = rank_result(*docs, sample@, top_n as int);
        assert forall|j: int| 0 <= j < got.len() implies got[j] == want[j] by {
            assert(all@.map_values(|c: ScoredCandidate| c@)[j] == expected[j]);
        }
        assert(got =~= want);
    }
    Ok(out)
}

/// `l1 / l2 > x / SCALE`, with a zero `l2` read as a division by zero in
/// floating point: only a positive `l1` exceeds every ratio.
pub open spec fn ratio_exceeds(l1: int, l2: int, x: int) -> bool {
    if l2 > 0 {
        l1 * SCALE > x * l2
    } else if l2 < 0 {
        l1 * SCALE < x * l2
    } else {
        l1 > 0
    }
}

/// Whether a ranking (identifier and confidence, best first) accepts
/// `desired`. With a ratio, the best entry must be `desired`, above
/// `min_confidence`, and more than `ratio` times as confident as the second;
/// without, `desired` must be among the first `top_n` entries with a
/// confidence above `min_confidence`.
pub open spec fn accepts(
    ranking: Seq<(Seq<char>, int)>,
    desired: Seq<char>,
    top_n: int,
    min_confidence: int,
    confidence_ratio: Option<int>,
) -> bool {
    match confidence_ratio {
        Some(x) => {
            &&& ranking.len() >= 2
            &&& ranking[0].0 == desired
            &&& ratio_exceeds(ranking[0].1, ranking[1].1, x)
            &&& ranking[0].1 > min_confidence
        },
        None => exists|k: int|
            0 <= k < top_n && 0 <= k < ranking.len() && #[trigger] ranking[k].0 == desired && ranking[k].1
                > min_confidence,
    }
}

/// A ratio given in millionths, as an integer.
pub open spec fn ratio_of(confidence_ratio: Option<i64>) -> Option<int> {
    match confidence_ratio {
        Some(x) => Some(x as int),
        None => None,
    }
}

/// Identifier and confidence of each scored candidate.
pub open spec fn candidate_pairs(r: Seq<ScoredCandidate>) -> Seq<(Seq<char>, int)> {
    r.map_values(|c: ScoredCandidate| (c.language_id@, c.confidence as int))
}

/// Decides a sample from its ranking: see `accepts`.
pub fn decide(
    ranking: &Vec<ScoredCandidate>,
    desired: &String,
    top_n: usize,
    min_confidence: i128,
    confidence_ratio: Option<i64>,
) -> (r: bool)
    requires
        forall|k: int| 0 <= k < ranking@.len() ==> -CONFIDENCE_LIMIT < #[trigger] ranking@[k].confidence < CONFIDENCE_LIMIT,
    ensures
        r == accepts(candidate_pairs(ranking@), desired@, top_n as int, min_confidence as int, ratio_of(confidence_ratio)),
{
    let ghost pairs = candidate_pairs(ranking@);
    match confidence_ratio {
        Some(x) => {
            if ranking.len() < 2 {
                return false;
            }
            let l1 = ranking[0].confidence;
            let l2 = ranking[1].confidence;
            proof {
                lemma_mul_bound(abs(l1 as int), SCALE as int, CONFIDENCE_LIMIT as int, SCALE as int);
                assert(l1 * SCALE == -(abs(l1 as int) * SCALE) || l1 * SCALE == abs(l1 as int) * SCALE) by (nonlinear_arith);
                assert(CONFIDENCE_LIMIT * SCALE < 170141183460469231731687303715884105727);
            }
            let a = l1 * (SCALE as i128);
            let exceeds = if l2 > 0 {
                product_below(x as i128, l2, a)
            } else if l2 < 0 {
                product_above(x as i128, l2, a)
            } else {
                l1 > 0
            };
            proof {
                assert((x as int) * (l2 as int) == (l2 as int) * (x as int)) by (nonlinear_arith);
            }
            *desired == ranking[0].language_id && exceeds && l1 > min_confidence
        },
        None => {
            let mut k: usize = 0;
            while k < top_n && k < ranking.len()
                invariant
                    confidence_ratio is None,
                    pairs == candidate_pairs(ranking@),
                    forall|j: int| 0 <= j < k ==> !(#[trigger] pairs[j].0 == desired@ && pairs[j].1 > min_confidence),
                    k <= ranking@.len(),
                decreases ranking@.len() - k,
            {
                if ranking[k].language_id == *desired && ranking[k].confidence > min_confidence {
                    assert(pairs[k as int] == (ranking@[k as int].language_id@, ranking@[k as int].confidence as int));
                    assert(0 <= k < top_n && 0 <= k < pairs.len() && pairs[k as int].0 == desired@ && pairs[k as int].1 > min_confidence);
                    assert(ratio_of(confidence_ratio) is None);
                    assert(accepts(pairs, desired@, top_n as int, min_confidence as int, None));
                    return true;
                }
                assert(pairs[k as int] == (ranking@[k as int].language_id@, ranking@[k as int].confidence as int));
                k += 1;
            }
            false
        },
    }
}

/// Whether `sample` is accepted as `desired`: the sample is ranked against
/// every reference, then decided as `decide` says.
pub fn accept(
    docs: &Detector,
    sample: &[u8],
    desired: &String,
    top_n: usize,
    min_confidence: i128,
    confidence_ratio: Option<i64>,
) -> (r: Result<bool, LangError>)
    requires
        docs.wf(),
        sample@.len() <= MAX_DOC_LEN,
    ensures
        scoring_error(*docs, sample@) matches Some(e) ==> r == Err::<bool, LangError>(e),
        scoring_error(*docs, sample@) is None ==> r == Ok::<bool, LangError>(
            accepts(
                id_confidences(expected_ranking(*docs, sample@)),
                desired@,
                top_n as int,
                min_confidence as int,
                ratio_of(confidence_ratio),
            ),
        ),
{
    let all = get_likelihood_of_lang(docs, sample)?;
    proof {
        let e = expected_ranking(*docs, sample@);
        assert forall|j: int| 0 <= j < all@.len() implies candidate_pairs(all@)[j] == id_confidences(e)[j] by {
            assert(all@.map_values(|c: ScoredCandidate| c@)[j] == e[j]);
        }
        assert(candidate_pairs(all@) =~= id_confidences(e));
    }
    Ok(decide(&all, desired, top_n, min_confidence, confidence_ratio))
}

/// Without a ratio, raising the confidence floor never turns a rejection
/// into an acceptance.
pub proof fn lemma_threshold_monotonic(
    ranking: Seq<(Seq<char>, int)>,
    desired: Seq<char>,
    top_n: int,
    lower: int,
    higher: int,
)
    requires
        lower <= higher,
    ensures
        accepts(ranking, desired, top_n, higher, None) ==> accepts(ranking, desired, top_n, lower, None),
{
    if accepts(ranking, desired, top_n, higher, None) {
        let k = choose|k: int|
            0 <= k < top_n && 0 <= k < ranking.len() && #[trigger] ranking[k].0 == desired && ranking[k].1 > higher;
        assert(ranking[k].1 > lower);
    }
}

/// With a ratio of at least one, a ranking whose two best entries are
/// equally confident is rejected.
pub proof fn lemma_ratio_rejects_tie(
    ranking: Seq<(Seq<char>, int)>,
    desired: Seq<char>,
    top_n: int,
    min_confidence: int,
    ratio: int,
)
    requires
        ranking.len() >= 2,
        ranking[0].1 == ranking[1].1,
        ratio >= SCALE,
    ensures
        !accepts(ranking, desired, top_n, min_confidence, Some(ratio)),
{
    let l = ranking[0].1;
    if l > 0 {
        assert(l * SCALE <= ratio * l) by (nonlinear_arith)
            requires l > 0, ratio >= SCALE;
    } else if l < 0 {
        assert(l * SCALE >= ratio * l) by (nonlinear_arith)
            requires l < 0, ratio >= SCALE;
    }
}

/// Ranking is a function of the store and the sample: two calls with the
/// same arguments give the same list.
pub proof fn lemma_rank_idempotent(d: Detector, sample: Seq<u8>, top_n: int, first: Seq<(Seq<char>, int)>, second: Seq<(Seq<char>, int)>)
    requires
        first == rank_result(d, sample, top_n),
        second == rank_result(d, sample, top_n),
    ensures
        first == second,
{
}

} // verus!
