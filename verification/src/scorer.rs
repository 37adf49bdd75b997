//! Outlier-tolerant scoring of a candidate core against comparison modules.
//!
//! For each comparison module the scorer counts how many candidate nodes the
//! comparison contains (agreement) and how many it lacks (disagreement), and
//! weights each comparison by `agreement - penalty_weight * disagreement`.
//! The worst `num_partitions_to_exclude` comparisons are discarded as
//! outliers and the agreement and disagreement counts are summed over the
//! rest.

use vstd::prelude::*;
use vstd::seq_lib::lemma_multiset_commutative;

use itertools::Itertools;

use crate::NodeId;
use std::collections::HashSet;

verus! {

broadcast use {
    vstd::std_specs::hash::group_hash_axioms,
    vstd::set::group_set_axioms,
    vstd::seq_lib::group_seq_properties,
    vstd::seq_lib::seq_to_set_is_finite,
};

/// Nodes of the candidate that the comparison module contains.
pub open spec fn spec_agree(cand: Set<u32>, comp: Set<u32>) -> int {
    cand.intersect(comp).len() as int
}

/// Nodes of the candidate that the comparison module lacks.
pub open spec fn spec_disagree(cand: Set<u32>, comp: Set<u32>) -> int {
    cand.difference(comp).len() as int
}

/// The views of a sequence of hash sets.
pub open spec fn views_of(ms: Seq<HashSet<NodeId>>) -> Seq<Set<u32>> {
    ms.map_values(|m: HashSet<NodeId>| m@)
}

/// One comparison's entry: `(weighted score, agreement, disagreement)`.
pub open spec fn spec_triple(cand: Set<u32>, comp: Set<u32>, pw: int) -> (i64, i64, i64) {
    (
        (spec_agree(cand, comp) - pw * spec_disagree(cand, comp)) as i64,
        spec_agree(cand, comp) as i64,
        spec_disagree(cand, comp) as i64,
    )
}

/// The per-comparison entries, in comparison order.
pub open spec fn spec_triples(cand: Set<u32>, comps: Seq<Set<u32>>, pw: int) -> Seq<
    (i64, i64, i64),
> {
    Seq::new(comps.len(), |j: int| spec_triple(cand, comps[j], pw))
}

/// Inserts `x` in front of the first entry whose weighted score is at least
/// `x.0`. Used by [`sort_by_score`].
pub open spec fn insert_by_score(x: (i64, i64, i64), s: Seq<(i64, i64, i64)>) -> Seq<
    (i64, i64, i64),
>
    decreases s.len(),
{
    if s.len() == 0 {
        seq![x]
    } else if x.0 <= s[0].0 {
        seq![x] + s
    } else {
        seq![s[0]] + insert_by_score(x, s.drop_first())
    }
}

/// The stable ascending sort of `s` by the weighted score (the first
/// component): entries with equal scores keep their input order.
pub open spec fn sort_by_score(s: Seq<(i64, i64, i64)>) -> Seq<(i64, i64, i64)>
    decreases s.len(),
{
    if s.len() == 0 {
        s
    } else {
        insert_by_score(s[0], sort_by_score(s.drop_first()))
    }
}

/// Sum of the agreement counts of `s`.
pub open spec fn sum_agree(s: Seq<(i64, i64, i64)>) -> int
    decreases s.len(),
{
    if s.len() == 0 {
        0
    } else {
        sum_agree(s.drop_last()) + s.last().1
    }
}

/// Sum of the disagreement counts of `s`.
pub open spec fn sum_disagree(s: Seq<(i64, i64, i64)>) -> int
    decreases s.len(),
{
    if s.len() == 0 {
        0
    } else {
        sum_disagree(s.drop_last()) + s.last().2
    }
}

/// What [`Scorer::score`] returns: the comparisons are weighted, the
/// `k_exclude` worst are discarded (ties resolved by input order), and the
/// agreement and disagreement counts are summed over the kept comparisons.
pub open spec fn spec_score(cand: Set<u32>, comps: Seq<Set<u32>>, pw: int, k_exclude: int) -> (
    int,
    int,
) {
    let sorted = sort_by_score(spec_triples(cand, comps, pw));
    let k = if k_exclude > sorted.len() {
        sorted.len() as int
    } else {
        k_exclude
    };
    let kept = sorted.skip(k);
    (sum_agree(kept), sum_disagree(kept))
}

/// Relies on itertools's `Itertools::sorted_by_key`, documented as a stable
/// ascending sort by the key (it collects into a vector and applies
/// `slice::sort_by_key`): the result is the stable sort of the input by the
/// first component, which is what [`sort_by_score`] denotes.
#[verifier::external_body]
fn sort_triples_by_score(v: Vec<(i64, i64, i64)>) -> (r: Vec<(i64, i64, i64)>)
    ensures
        r@ == sort_by_score(v@),
{
    v.into_iter().sorted_by_key(|t: &(i64, i64, i64)| t.0).collect()
}

/// The elements of a hash set, in some order, each exactly once.
pub fn set_to_vec(s: &HashSet<NodeId>) -> (v: Vec<NodeId>)
    ensures
        v@.no_duplicates(),
        v@.to_set() == s@,
        v@.len() == s@.len(),
{
    let mut v: Vec<NodeId> = Vec::new();
    if s.is_empty() {
        proof {
            assert(v@.to_set() =~= s@);
        }
        return v;
    }
    for x in it: s.iter()
        invariant
            v@.len() == it.index(),
            forall|i: int| 0 <= i < v@.len() ==> v@[i] == *(#[trigger] it.seq()[i]),
            it.seq().unref().to_set() == s@,
            it.seq().len() == s@.len(),
            forall|y: NodeId| #[trigger] v@.contains(y) ==> s@.contains(y),
            forall|y: NodeId| #[trigger]
                s@.contains(y) ==> v@.contains(y) || exists|i: int|
                    it.index() <= i < it.seq().len() && *(#[trigger] it.seq()[i]) == y,
    {
        v.push(*x);
    }
    proof {
        assert(v@.len() == s@.len());
        assert forall|y: NodeId| #[trigger] s@.contains(y) implies v@.contains(y) by {}
        assert(v@.to_set() =~= s@);
        v@.lemma_no_dup_set_cardinality();
    }
    v
}

/// Counts how many elements of `cand` the set `comp` contains, and how many
/// it lacks.
pub fn intersection_difference_count(cand: &Vec<NodeId>, comp: &HashSet<NodeId>) -> (r: (
    usize,
    usize,
))
    requires
        cand@.no_duplicates(),
    ensures
        r.0 == spec_agree(cand@.to_set(), comp@),
        r.1 == spec_disagree(cand@.to_set(), comp@),
        r.0 + r.1 == cand@.len(),
{
    let n = cand.len();
    let mut inter: usize = 0;
    let mut diff: usize = 0;
    proof {
        assert(cand@.take(0).to_set() =~= Set::<u32>::empty());
        assert(Set::<u32>::empty().intersect(comp@) =~= Set::<u32>::empty());
        assert(Set::<u32>::empty().difference(comp@) =~= Set::<u32>::empty());
    }
    for i in 0..n
        invariant
            cand@.no_duplicates(),
            n == cand@.len(),
            inter == spec_agree(cand@.take(i as int).to_set(), comp@),
            diff == spec_disagree(cand@.take(i as int).to_set(), comp@),
            inter + diff == i,
    {
        let ghost pref = cand@.take(i as int).to_set();
        let x = cand[i];
        proof {
            assert(!pref.contains(x));
            assert(cand@.take(i as int + 1).to_set() =~= pref.insert(x));
            if comp@.contains(x) {
                assert(pref.insert(x).intersect(comp@) =~= pref.intersect(comp@).insert(x));
                assert(pref.insert(x).difference(comp@) =~= pref.difference(comp@));
                assert(!pref.intersect(comp@).contains(x));
            } else {
                assert(pref.insert(x).intersect(comp@) =~= pref.intersect(comp@));
                assert(pref.insert(x).difference(comp@) =~= pref.difference(comp@).insert(x));
                assert(!pref.difference(comp@).contains(x));
            }
        }
        if comp.contains(&x) {
            inter = inter + 1;
        } else {
            diff = diff + 1;
        }
    }
    proof {
        assert(cand@.take(n as int) =~= cand@);
    }
    (inter, diff)
}

/// Scores candidate cores against a fixed penalty weight and outlier budget.
pub struct Scorer {
    pub penalty_weight: i64,
    pub num_partitions_to_exclude: usize,
}

impl Scorer {
    /// A scorer that weights each disagreeing node `penalty_weight` times as
    /// heavily as an agreeing one and discards the
    /// `num_partitions_to_exclude` worst-fitting comparisons.
    pub fn new(penalty_weight: i64, num_partitions_to_exclude: usize) -> (s: Scorer)
        ensures
            s.penalty_weight == penalty_weight,
            s.num_partitions_to_exclude == num_partitions_to_exclude,
    {
        Scorer { penalty_weight, num_partitions_to_exclude }
    }

    /// The outlier-tolerant `(agreement, disagreement)` pair of the candidate
    /// `module` against the comparison modules `modules`: per-comparison
    /// counts, trimmed of the worst `num_partitions_to_exclude` comparisons
    /// and summed over the rest.
    pub fn score(&self, module: &HashSet<NodeId>, modules: &[HashSet<NodeId>]) -> (r: (i64, i64))
        requires
            module@.len() + vstd::math::abs(self.penalty_weight as int) * module@.len()
                <= i64::MAX,
            modules@.len() * module@.len() <= i64::MAX,
        ensures
            ({
                let s = spec_score(
                    module@,
                    views_of(modules@),
                    self.penalty_weight as int,
                    self.num_partitions_to_exclude as int,
                );
                r.0 == s.0 && r.1 == s.1
            }),
    {
        let ghost comps = views_of(modules@);
        let ghost pw = self.penalty_weight as int;
        let ghost c = module@.len() as int;
        let cand = set_to_vec(module);
        let n = modules.len();
        let mut triples: Vec<(i64, i64, i64)> = Vec::new();
        for j in 0..n
            invariant
                cand@.no_duplicates(),
                cand@.to_set() == module@,
                cand@.len() == module@.len(),
                n == modules@.len(),
                comps == views_of(modules@),
                pw == self.penalty_weight as int,
                c == module@.len() as int,
                c + vstd::math::abs(pw) * c <= i64::MAX,
                n * c <= i64::MAX,
                triples@.len() == j,
                forall|jj: int|
                    0 <= jj < j ==> triples@[jj] == spec_triple(module@, comps[jj], pw),
        {
            let (a, d) = intersection_difference_count(&cand, &modules[j]);
            proof {
                lemma_agree_disagree_bounds(module@, comps[j as int]);
                assert(comps[j as int] == modules@[j as int]@);
                assert(vstd::math::abs(pw) * spec_disagree(module@, comps[j as int]) <= vstd::math::abs(
                    pw,
                ) * c) by (nonlinear_arith)
                    requires
                        vstd::math::abs(pw) >= 0,
                        0 <= spec_disagree(module@, comps[j as int]) <= c,
                ;
                assert(vstd::math::abs(pw) * spec_disagree(module@, comps[j as int]) >= 0) by (nonlinear_arith)
                    requires
                        vstd::math::abs(pw) >= 0,
                        spec_disagree(module@, comps[j as int]) >= 0,
                ;
                if pw >= 0 {
                    assert(pw * spec_disagree(module@, comps[j as int]) == vstd::math::abs(pw)
                        * spec_disagree(module@, comps[j as int]));
                } else {
                    assert(pw * spec_disagree(module@, comps[j as int]) == -(vstd::math::abs(pw)
                        * spec_disagree(module@, comps[j as int]))) by (nonlinear_arith)
                        requires
                            pw < 0,
                            vstd::math::abs(pw) == -pw,
                    ;
                }
            }
            let ai = a as i64;
            let di = d as i64;
            let s = ai - self.penalty_weight * di;
            triples.push((s, ai, di));
        }
        proof {
            assert(triples@ =~= spec_triples(module@, comps, pw));
        }
        let sorted = sort_triples_by_score(triples);
        let ghost sorted_spec = sort_by_score(spec_triples(module@, comps, pw));
        let len = sorted.len();
        let start = if self.num_partitions_to_exclude > len {
            len
        } else {
            self.num_partitions_to_exclude
        };
        proof {
            assert(vstd::math::abs(pw) * c >= 0) by (nonlinear_arith)
                requires
                    vstd::math::abs(pw) >= 0,
                    c >= 0,
            ;
            lemma_sort_by_score_multiset(spec_triples(module@, comps, pw));
            lemma_triples_bounded(module@, comps, pw, sorted_spec, c);
        }
        let mut sa: i64 = 0;
        let mut sd: i64 = 0;
        let mut i = start;
        while i < len
            invariant
                start <= i <= len,
                len == sorted_spec.len(),
                sorted@ == sorted_spec,
                c >= 0,
                n * c <= i64::MAX,
                len <= n,
                forall|jj: int|
                    0 <= jj < sorted_spec.len() ==> 0 <= (#[trigger] sorted_spec[jj]).1 <= c && 0
                        <= sorted_spec[jj].2 <= c,
                sa == sum_agree(sorted_spec.skip(start as int).take(i - start)),
                sd == sum_disagree(sorted_spec.skip(start as int).take(i - start)),
                0 <= sa <= (i - start) * c,
                0 <= sd <= (i - start) * c,
            decreases len - i,
        {
            let ghost kept = sorted_spec.skip(start as int);
            proof {
                assert(kept.take(i - start + 1).drop_last() =~= kept.take(i - start));
                assert(kept.take(i - start + 1).last() == sorted_spec[i as int]);
                assert((i - start) * c + c == (i + 1 - start) * c) by (nonlinear_arith);
                assert((i + 1 - start) * c <= n * c) by (nonlinear_arith)
                    requires
                        c >= 0,
                        i + 1 - start <= n,
                ;
            }
            let t = sorted[i];
            sa = sa + t.1;
            sd = sd + t.2;
            i = i + 1;
        }
        proof {
            let kept = sorted_spec.skip(start as int);
            assert(kept.take(len - start) =~= kept);
        }
        (sa, sd)
    }
}

/// Agreement and disagreement counts are between 0 and the candidate's size,
/// and sum to it.
pub proof fn lemma_agree_disagree_bounds(cand: Set<u32>, comp: Set<u32>)
    requires
        cand.finite(),
    ensures
        0 <= spec_agree(cand, comp) <= cand.len(),
        0 <= spec_disagree(cand, comp) <= cand.len(),
        spec_agree(cand, comp) + spec_disagree(cand, comp) == cand.len(),
    decreases cand.len(),
{
    if cand.is_empty() {
        assert(cand.intersect(comp) =~= cand);
        assert(cand.difference(comp) =~= cand);
    } else {
        let x = cand.choose();
        let rest = cand.remove(x);
        lemma_agree_disagree_bounds(rest, comp);
        if comp.contains(x) {
            assert(cand.intersect(comp) =~= rest.intersect(comp).insert(x));
            assert(cand.difference(comp) =~= rest.difference(comp));
            assert(!rest.intersect(comp).contains(x));
        } else {
            assert(cand.intersect(comp) =~= rest.intersect(comp));
            assert(cand.difference(comp) =~= rest.difference(comp).insert(x));
            assert(!rest.difference(comp).contains(x));
        }
    }
}

/// Insertion keeps exactly the entries of the input (as a multiset).
proof fn lemma_insert_by_score_multiset(x: (i64, i64, i64), s: Seq<(i64, i64, i64)>)
    ensures
        insert_by_score(x, s).to_multiset() == s.to_multiset().insert(x),
        insert_by_score(x, s).len() == s.len() + 1,
    decreases s.len(),
{
    broadcast use vstd::seq_lib::group_to_multiset_ensures;

    if s.len() == 0 {
        assert(insert_by_score(x, s) =~= seq![x]);
        assert(seq![x].to_multiset() =~= s.to_multiset().insert(x)) by {
            assert(seq![x] =~= s.push(x));
        }
    } else if x.0 <= s[0].0 {
        assert(seq![x] + s =~= s.insert(0, x));
        assert(s.insert(0, x).to_multiset() =~= s.to_multiset().insert(x));
    } else {
        lemma_insert_by_score_multiset(x, s.drop_first());
        let rec = insert_by_score(x, s.drop_first());
        lemma_multiset_commutative(seq![s[0]], rec);
        lemma_multiset_commutative(seq![s[0]], s.drop_first());
        assert(seq![s[0]] + s.drop_first() =~= s);
        assert((seq![s[0]] + rec).to_multiset() =~= s.to_multiset().insert(x)) by {
            assert(seq![s[0]].to_multiset().add(rec.to_multiset()) =~= seq![s[0]].to_multiset().add(
                s.drop_first().to_multiset().insert(x),
            ));
        }
    }
}

/// Sorting keeps exactly the entries of the input (as a multiset).
pub proof fn lemma_sort_by_score_multiset(s: Seq<(i64, i64, i64)>)
    ensures
        sort_by_score(s).to_multiset() == s.to_multiset(),
        sort_by_score(s).len() == s.len(),
    decreases s.len(),
{
    broadcast use vstd::seq_lib::group_to_multiset_ensures;

    if s.len() == 0 {
    } else {
        lemma_sort_by_score_multiset(s.drop_first());
        lemma_insert_by_score_multiset(s[0], sort_by_score(s.drop_first()));
        assert(s.drop_first().to_multiset().insert(s[0]) =~= s.to_multiset()) by {
            lemma_multiset_commutative(seq![s[0]], s.drop_first());
            assert(seq![s[0]] + s.drop_first() =~= s);
            assert(seq![s[0]].to_multiset().add(s.drop_first().to_multiset()) =~= s.drop_first()
                .to_multiset().insert(s[0]));
        }
    }
}

/// Total agreement over all comparisons, with no trimming.
pub open spec fn total_agree(cand: Set<u32>, comps: Seq<Set<u32>>) -> int
    decreases comps.len(),
{
    if comps.len() == 0 {
        0
    } else {
        total_agree(cand, comps.drop_last()) + spec_agree(cand, comps.last())
    }
}

/// Total disagreement over all comparisons, with no trimming.
pub open spec fn total_disagree(cand: Set<u32>, comps: Seq<Set<u32>>) -> int
    decreases comps.len(),
{
    if comps.len() == 0 {
        0
    } else {
        total_disagree(cand, comps.drop_last()) + spec_disagree(cand, comps.last())
    }
}

/// Sums split over concatenation.
proof fn lemma_sum_concat(a: Seq<(i64, i64, i64)>, b: Seq<(i64, i64, i64)>)
    ensures
        sum_agree(a + b) == sum_agree(a) + sum_agree(b),
        sum_disagree(a + b) == sum_disagree(a) + sum_disagree(b),
    decreases b.len(),
{
    if b.len() == 0 {
        assert(a + b =~= a);
    } else {
        assert((a + b).drop_last() =~= a + b.drop_last());
        lemma_sum_concat(a, b.drop_last());
    }
}

/// Inserting an entry adds its counts to the sums.
proof fn lemma_sum_insert_by_score(x: (i64, i64, i64), s: Seq<(i64, i64, i64)>)
    ensures
        sum_agree(insert_by_score(x, s)) == sum_agree(s) + x.1,
        sum_disagree(insert_by_score(x, s)) == sum_disagree(s) + x.2,
    decreases s.len(),
{
    if s.len() == 0 {
        assert(seq![x].drop_last() =~= Seq::<(i64, i64, i64)>::empty());
        assert(sum_agree(seq![x].drop_last()) == 0 && sum_disagree(seq![x].drop_last()) == 0);
    } else if x.0 <= s[0].0 {
        lemma_sum_concat(seq![x], s);
        assert(seq![x].drop_last() =~= Seq::<(i64, i64, i64)>::empty());
        assert(sum_agree(seq![x].drop_last()) == 0 && sum_disagree(seq![x].drop_last()) == 0);
        assert(sum_agree(seq![x]) == x.1 && sum_disagree(seq![x]) == x.2);
    } else {
        lemma_sum_insert_by_score(x, s.drop_first());
        lemma_sum_concat(seq![s[0]], insert_by_score(x, s.drop_first()));
        lemma_sum_concat(seq![s[0]], s.drop_first());
        assert(seq![s[0]] + s.drop_first() =~= s);
        assert(seq![s[0]].drop_last() =~= Seq::<(i64, i64, i64)>::empty());
        assert(sum_agree(seq![s[0]].drop_last()) == 0 && sum_disagree(seq![s[0]].drop_last())
            == 0);
        assert(sum_agree(seq![s[0]]) == s[0].1 && sum_disagree(seq![s[0]]) == s[0].2);
    }
}

/// Sorting leaves the sums unchanged.
proof fn lemma_sum_sort_by_score(s: Seq<(i64, i64, i64)>)
    ensures
        sum_agree(sort_by_score(s)) == sum_agree(s),
        sum_disagree(sort_by_score(s)) == sum_disagree(s),
    decreases s.len(),
{
    if s.len() == 0 {
    } else {
        lemma_sum_sort_by_score(s.drop_first());
        lemma_sum_insert_by_score(s[0], sort_by_score(s.drop_first()));
        lemma_sum_concat(seq![s[0]], s.drop_first());
        assert(seq![s[0]] + s.drop_first() =~= s);
        assert(seq![s[0]].drop_last() =~= Seq::<(i64, i64, i64)>::empty());
        assert(sum_agree(seq![s[0]].drop_last()) == 0 && sum_disagree(seq![s[0]].drop_last())
            == 0);
        assert(sum_agree(seq![s[0]]) == s[0].1 && sum_disagree(seq![s[0]]) == s[0].2);
    }
}

/// The triple sums are the plain totals.
proof fn lemma_sum_triples_total(cand: Set<u32>, comps: Seq<Set<u32>>, pw: int)
    requires
        cand.finite(),
        cand.len() <= i64::MAX,
    ensures
        sum_agree(spec_triples(cand, comps, pw)) == total_agree(cand, comps),
        sum_disagree(spec_triples(cand, comps, pw)) == total_disagree(cand, comps),
    decreases comps.len(),
{
    if comps.len() == 0 {
    } else {
        lemma_sum_triples_total(cand, comps.drop_last(), pw);
        assert(spec_triples(cand, comps, pw).drop_last() =~= spec_triples(
            cand,
            comps.drop_last(),
            pw,
        ));
        lemma_agree_disagree_bounds(cand, comps.last());
        assert(spec_triples(cand, comps, pw).last() == spec_triple(cand, comps.last(), pw));
    }
}

/// Law: a scorer that excludes no comparison returns exactly the untrimmed
/// sums of per-comparison agreement and disagreement over all comparisons.
pub proof fn lemma_score_untrimmed(cand: Set<u32>, comps: Seq<Set<u32>>, pw: int)
    requires
        cand.finite(),
        cand.len() <= i64::MAX,
    ensures
        spec_score(cand, comps, pw, 0).0 == total_agree(cand, comps),
        spec_score(cand, comps, pw, 0).1 == total_disagree(cand, comps),
{
    let triples = spec_triples(cand, comps, pw);
    let sorted = sort_by_score(triples);
    assert(sorted.skip(0) =~= sorted);
    lemma_sum_sort_by_score(triples);
    lemma_sum_triples_total(cand, comps, pw);
}

/// Sums of entrywise-bounded counts are bounded by length times the bound.
proof fn lemma_sum_bounds(s: Seq<(i64, i64, i64)>, c: int)
    requires
        c >= 0,
        forall|jj: int| 0 <= jj < s.len() ==> 0 <= (#[trigger] s[jj]).1 <= c && 0 <= s[jj].2 <= c,
    ensures
        0 <= sum_agree(s) <= s.len() * c,
        0 <= sum_disagree(s) <= s.len() * c,
    decreases s.len(),
{
    if s.len() == 0 {
    } else {
        lemma_sum_bounds(s.drop_last(), c);
        assert((s.len() - 1) * c + c == s.len() * c) by (nonlinear_arith);
    }
}

/// The trimmed sums are between zero and the number of comparisons times the
/// candidate's size.
pub proof fn lemma_spec_score_bounds(cand: Set<u32>, comps: Seq<Set<u32>>, pw: int, k: int)
    requires
        cand.finite(),
        cand.len() <= i64::MAX,
        k >= 0,
    ensures
        0 <= spec_score(cand, comps, pw, k).0 <= comps.len() * cand.len(),
        0 <= spec_score(cand, comps, pw, k).1 <= comps.len() * cand.len(),
{
    let triples = spec_triples(cand, comps, pw);
    let sorted = sort_by_score(triples);
    lemma_sort_by_score_multiset(triples);
    lemma_triples_bounded(cand, comps, pw, sorted, cand.len() as int);
    let kk = if k > sorted.len() {
        sorted.len() as int
    } else {
        k
    };
    let kept = sorted.skip(kk);
    assert(forall|jj: int|
        0 <= jj < kept.len() ==> 0 <= (#[trigger] kept[jj]).1 <= cand.len() && 0 <= kept[jj].2
            <= cand.len());
    lemma_sum_bounds(kept, cand.len() as int);
    assert(kept.len() * (cand.len() as int) <= comps.len() * (cand.len() as int))
        by (nonlinear_arith)
        requires
            0 <= kept.len() <= comps.len(),
            cand.len() >= 0,
    ;
}

/// Every entry of the sorted triple sequence is one of the per-comparison
/// triples, so its counts are bounded by the candidate's size.
proof fn lemma_triples_bounded(
    cand: Set<u32>,
    comps: Seq<Set<u32>>,
    pw: int,
    sorted: Seq<(i64, i64, i64)>,
    c: int,
)
    requires
        cand.finite(),
        c == cand.len(),
        c <= i64::MAX,
        sorted == sort_by_score(spec_triples(cand, comps, pw)),
    ensures
        forall|jj: int|
            0 <= jj < sorted.len() ==> 0 <= (#[trigger] sorted[jj]).1 <= c && 0 <= sorted[jj].2
                <= c,
{
    broadcast use vstd::seq_lib::group_to_multiset_ensures;

    let triples = spec_triples(cand, comps, pw);
    lemma_sort_by_score_multiset(triples);
    assert forall|jj: int| 0 <= jj < sorted.len() implies 0 <= (#[trigger] sorted[jj]).1 <= c && 0
        <= sorted[jj].2 <= c by {
        assert(sorted.contains(sorted[jj]));
        assert(sorted.to_multiset().count(sorted[jj]) > 0);
        assert(triples.to_multiset().count(sorted[jj]) > 0);
        assert(triples.contains(sorted[jj]));
        let k = choose|k: int| 0 <= k < triples.len() && triples[k] == sorted[jj];
        lemma_agree_disagree_bounds(cand, comps[k]);
    }
}

} // verus!
