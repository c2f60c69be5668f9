//! The order in which scored candidates are reported.
use vstd::prelude::*;

verus! {

/// Candidate `a` comes before candidate `b`: a higher confidence, or an
/// equal one and an earlier position in the store.
pub open spec fn ranked_before(conf: Seq<int>, a: int, b: int) -> bool {
    conf[a] > conf[b] || (conf[a] == conf[b] && a < b)
}

/// Candidate `x` appears in `order`.
pub open spec fn lists(order: Seq<usize>, x: int) -> bool {
    exists|k: int| 0 <= k < order.len() && order[k] == x
}

/// `order` lists every candidate once, highest confidence first, ties in
/// store order.
pub open spec fn is_ranking(conf: Seq<int>, order: Seq<usize>) -> bool {
    &&& order.len() == conf.len()
    &&& forall|k: int| 0 <= k < order.len() ==> #[trigger] order[k] < conf.len()
    &&& forall|k: int, l: int|
        0 <= k < l < order.len() ==> ranked_before(conf, order[k] as int, order[l] as int)
    &&& forall|x: int| 0 <= x < conf.len() ==> #[trigger] lists(order, x)
}

/// The ranking of `conf`.
pub open spec fn ranked_order(conf: Seq<int>) -> Seq<usize> {
    choose|order: Seq<usize>| is_ranking(conf, order)
}

/// There is only one ranking.
pub proof fn lemma_ranking_unique(conf: Seq<int>, o1: Seq<usize>, o2: Seq<usize>)
    requires
        is_ranking(conf, o1),
        is_ranking(conf, o2),
    ensures
        o1 == o2,
{
    assert forall|k: int| 0 <= k < o1.len() implies o1[k] == o2[k] by {
        lemma_same_at(conf, o1, o2, k);
    }
    assert(o1 =~= o2);
}

proof fn lemma_same_at(conf: Seq<int>, o1: Seq<usize>, o2: Seq<usize>, k: int)
    requires
        is_ranking(conf, o1),
        is_ranking(conf, o2),
        0 <= k < o1.len(),
    ensures
        o1[k] == o2[k],
    decreases k,
{
    assert forall|j: int| 0 <= j < k implies o1[j] == o2[j] by {
        lemma_same_at(conf, o1, o2, j);
    }
    if o1[k] != o2[k] {
        let a = o1[k] as int;
        let b = o2[k] as int;
        assert(o2[k] < conf.len());
        assert(o1[k] < conf.len());
        assert(lists(o1, b));
        assert(lists(o2, a));
        let kb = choose|i: int| 0 <= i < o1.len() && o1[i] == b;
        let ka = choose|i: int| 0 <= i < o2.len() && o2[i] == a;
        if kb < k {
            assert(o2[kb] == b);
            assert(ranked_before(conf, o2[kb] as int, o2[k] as int));
        }
        if ka < k {
            assert(o1[ka] == a);
            assert(ranked_before(conf, o1[ka] as int, o1[k] as int));
        }
        assert(ranked_before(conf, a, b));
        assert(ranked_before(conf, b, a));
    }
}

/// The positions of `conf`, highest confidence first, ties in store order.
pub fn rank_order(conf: &Vec<i128>) -> (r: Vec<usize>)
    ensures
        is_ranking(conf@.map_values(|c: i128| c as int), r@),
        r@ == ranked_order(conf@.map_values(|c: i128| c as int)),
{
    let ghost cs = conf@.map_values(|c: i128| c as int);
    let mut order: Vec<usize> = Vec::new();
    let mut i: usize = 0;
    while i < conf.len()
        invariant
            cs == conf@.map_values(|c: i128| c as int),
            i <= conf@.len(),
            order@.len() == i,
            forall|k: int| 0 <= k < order@.len() ==> #[trigger] order@[k] < i,
            forall|k: int, l: int|
                0 <= k < l < order@.len() ==> ranked_before(cs, order@[k] as int, order@[l] as int),
            forall|x: int| 0 <= x < i ==> #[trigger] lists(order@, x),
        decreases conf@.len() - i,
    {
        let ci = conf[i];
        let mut p: usize = 0;
        while p < order.len() && conf[order[p]] >= ci
            invariant
                cs == conf@.map_values(|c: i128| c as int),
                i < conf@.len(),
                ci == conf@[i as int],
                order@.len() == i,
                forall|k: int| 0 <= k < order@.len() ==> #[trigger] order@[k] < i,
                p <= order@.len(),
                forall|k: int| 0 <= k < p ==> cs[#[trigger] order@[k] as int] >= cs[i as int],
            decreases order@.len() - p,
        {
            p += 1;
        }
        let ghost old_order = order@;
        proof {
            assert forall|k: int| p <= k < old_order.len() implies cs[#[trigger] old_order[k] as int] < cs[i as int] by {
                if k > p {
                    assert(ranked_before(cs, old_order[p as int] as int, old_order[k] as int));
                }
                assert(old_order[k] < i);
            }
        }
        order.insert(p, i);
        proof {
            let no = order@;
            assert(no == old_order.insert(p as int, i));
            assert forall|k: int| 0 <= k < no.len() implies #[trigger] no[k] < i + 1 by {
                if k < p {
                    assert(no[k] == old_order[k]);
                } else if k > p {
                    assert(no[k] == old_order[k - 1]);
                }
            }
            assert forall|k: int, l: int| 0 <= k < l < no.len() implies ranked_before(cs, no[k] as int, no[l] as int) by {
                if l < p {
                    assert(no[k] == old_order[k] && no[l] == old_order[l]);
                } else if l == p {
                    assert(no[k] == old_order[k]);
                    assert(cs[old_order[k] as int] >= cs[i as int]);
                } else if k < p {
                    assert(no[k] == old_order[k] && no[l] == old_order[l - 1]);
                } else if k == p {
                    assert(no[l] == old_order[l - 1]);
                    assert(cs[old_order[l - 1] as int] < cs[i as int]);
                } else {
                    assert(no[k] == old_order[k - 1] && no[l] == old_order[l - 1]);
                }
            }
            assert forall|x: int| 0 <= x < i + 1 implies #[trigger] lists(no, x) by {
                if x == i {
                    assert(no[p as int] == x);
                } else {
                    assert(lists(old_order, x));
                    let k = choose|k: int| 0 <= k < old_order.len() && old_order[k] == x;
                    if k < p {
                        assert(no[k] == x);
                    } else {
                        assert(no[k + 1] == x);
                    }
                }
            }
        }
        i += 1;
    }
    proof {
        assert(is_ranking(cs, order@));
        lemma_ranking_unique(cs, order@, ranked_order(cs));
    }
    order
}

} // verus!
