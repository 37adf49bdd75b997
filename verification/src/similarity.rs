//! Matching reference modules to their most similar comparison modules.
//!
//! For every module of the reference network and every comparison network,
//! the match is the comparison module at the smallest Jaccard distance from
//! the reference module, ties resolved in favour of the earliest module.
//! Distances are compared exactly, as rationals: the Jaccard index of `a`
//! and `b` is `|a ∩ b| / |a ∪ b|` (zero for two empty sets) and the distance
//! is one minus the index, so the nearest module is the one of the largest
//! index.

use vstd::prelude::*;

use crate::network::{network_model, network_models, ModuleModel, Network};
use crate::scorer::{intersection_difference_count, set_to_vec};
use crate::NetworkId;

verus! {

broadcast use {
    vstd::std_specs::hash::group_hash_axioms,
    vstd::set::group_set_axioms,
    vstd::seq_lib::group_seq_lib_default,
};

/// The Jaccard counts of a module against the target set: the sizes of the
/// intersection and of the union, the union written as the module's size
/// plus the nodes only the target holds.
pub open spec fn spec_jaccard_pair(nodes: Set<u32>, target: Set<u32>) -> (int, int) {
    (
        target.intersect(nodes).len() as int,
        nodes.len() + target.difference(nodes).len() as int,
    )
}

/// Whether the Jaccard index `a` exceeds the Jaccard index `b`, each given
/// as an (intersection, union) pair and an empty union counting as index
/// zero. Compared exactly, by cross-multiplication.
pub open spec fn jac_gt(a: (int, int), b: (int, int)) -> bool {
    let l = if a.1 == 0 {
        (0int, 1int)
    } else {
        a
    };
    let r = if b.1 == 0 {
        (0int, 1int)
    } else {
        b
    };
    l.0 * r.1 > r.0 * l.1
}

/// The first index among `ms[..upto]` whose Jaccard index against `target`
/// is maximal.
pub open spec fn spec_best_upto(ms: Seq<ModuleModel>, target: Set<u32>, upto: int) -> int
    decreases upto,
{
    if upto <= 1 {
        0
    } else {
        let b = spec_best_upto(ms, target, upto - 1);
        if jac_gt(
            spec_jaccard_pair(ms[upto - 1].nodes, target),
            spec_jaccard_pair(ms[b].nodes, target),
        ) {
            upto - 1
        } else {
            b
        }
    }
}

/// The module of `ms` nearest to `target`.
pub open spec fn spec_best(ms: Seq<ModuleModel>, target: Set<u32>) -> int {
    spec_best_upto(ms, target, ms.len() as int)
}

/// The matches of one reference module: for each comparison network that has
/// any module, the network's position and its nearest module's position.
pub open spec fn spec_matches_for(target: Set<u32>, nets: Seq<Seq<ModuleModel>>) -> Seq<
    (usize, usize),
>
    decreases nets.len(),
{
    if nets.len() == 0 {
        Seq::empty()
    } else {
        let pre = spec_matches_for(target, nets.drop_last());
        if nets.last().len() == 0 {
            pre
        } else {
            pre.push(
                (
                    (nets.len() - 1) as usize,
                    spec_best(nets.last(), target) as usize,
                ),
            )
        }
    }
}

/// What [`get_most_similar_modules`] returns: for each module of the
/// reference network, its matches across the comparison networks.
pub open spec fn spec_most_similar(fst: Seq<ModuleModel>, nets: Seq<Seq<ModuleModel>>) -> Seq<
    Seq<(usize, usize)>,
> {
    Seq::new(fst.len(), |i: int| spec_matches_for(fst[i].nodes, nets))
}

/// The matched (network, module) index pairs of each reference module, the
/// reference modules in network order.
pub fn get_most_similar_modules(first: &Network, rest: &Vec<Network>) -> (r: Vec<
    Vec<(NetworkId, usize)>,
>)
    requires
        forall|k: int|
            0 <= k < network_model(*first).len() ==> (#[trigger] network_model(*first)[k]).nodes.len()
                <= 0x4000_0000_0000_0000,
        forall|ni: int, k: int|
            0 <= ni < network_models(rest@).len() && 0 <= k < network_models(rest@)[ni].len()
                ==> (#[trigger] network_models(rest@)[ni][k]).nodes.len() <= 0x4000_0000_0000_0000,
    ensures
        r@.map_values(|v: Vec<(usize, usize)>| v@) == spec_most_similar(
            network_model(*first),
            network_models(rest@),
        ),
{
    let ghost fst = network_model(*first);
    let ghost nets = network_models(rest@);
    let mut r: Vec<Vec<(usize, usize)>> = Vec::new();
    let n_mods = first.modules.len();
    let n_nets = rest.len();
    for i in 0..n_mods
        invariant
            n_mods == first.modules@.len(),
            n_nets == rest@.len(),
            fst == network_model(*first),
            nets == network_models(rest@),
            r@.len() == i,
            forall|ii: int|
                0 <= ii < i ==> (#[trigger] r@[ii])@ == spec_matches_for(fst[ii].nodes, nets),
            forall|k: int|
                0 <= k < fst.len() ==> (#[trigger] fst[k]).nodes.len() <= 0x4000_0000_0000_0000,
            forall|ni: int, k: int|
                0 <= ni < nets.len() && 0 <= k < nets[ni].len() ==> (#[trigger] nets[ni][k]).nodes.len()
                    <= 0x4000_0000_0000_0000,
    {
        let target_vec = set_to_vec(&first.modules[i].nodes);
        let target_len = target_vec.len();
        let ghost target = fst[i as int].nodes;
        proof {
            assert(first.modules@[i as int].nodes@ == target);
            target_vec@.unique_seq_to_set();
            assert(fst[i as int].nodes.len() <= 0x4000_0000_0000_0000);
            assert(target_len <= 0x4000_0000_0000_0000);
        }
        let mut row: Vec<(usize, usize)> = Vec::new();
        for nid in 0..n_nets
            invariant
                n_nets == rest@.len(),
                nets == network_models(rest@),
                target_vec@.no_duplicates(),
                target_vec@.to_set() == target,
                target_len == target_vec@.len(),
                target.finite(),
                target.len() <= 0x4000_0000_0000_0000,
                target_len <= 0x4000_0000_0000_0000,
                row@ == spec_matches_for(target, nets.take(nid as int)),
                forall|ni: int, k: int|
                    0 <= ni < nets.len() && 0 <= k < nets[ni].len() ==> (#[trigger] nets[ni][k]).nodes.len()
                        <= 0x4000_0000_0000_0000,
            decreases n_nets - nid,
        {
            let ghost net = nets[nid as int];
            proof {
                assert(nets.take(nid as int + 1).drop_last() =~= nets.take(nid as int));
                assert(nets.take(nid as int + 1).last() == net);
                assert(network_model(rest@[nid as int]) == net);
            }
            let n_cand = rest[nid].modules.len();
            if n_cand > 0 {
                let mut best: usize = 0;
                let mut best_inter: u128 = 0;
                let mut best_union: u128 = 0;
                {
                    let cand = &rest[nid].modules[0];
                    let (inter, diff) = intersection_difference_count(&target_vec, &cand.nodes);
                    proof {
                        assert(cand.nodes@ == net[0].nodes);
                        assert(nets[nid as int][0] == net[0]);
                        assert(net[0].nodes.len() <= 0x4000_0000_0000_0000);
                    }
                    best_inter = inter as u128;
                    best_union = cand.nodes.len() as u128 + diff as u128;
                    proof {
                        assert((best_inter as int, best_union as int) == spec_jaccard_pair(
                            net[0].nodes,
                            target,
                        ));
                    }
                }
                let mut j: usize = 1;
                while j < n_cand
                    invariant
                        1 <= j <= n_cand,
                        n_cand == rest@[nid as int].modules@.len(),
                        nid < rest@.len(),
                        net == network_model(rest@[nid as int]),
                        nets == network_models(rest@),
                        target_vec@.no_duplicates(),
                        target_vec@.to_set() == target,
                        best < j,
                        best == spec_best_upto(net, target, j as int),
                        (best_inter as int, best_union as int) == spec_jaccard_pair(
                            net[best as int].nodes,
                            target,
                        ),
                        target.finite(),
                        target.len() <= 0x4000_0000_0000_0000,
                        target_len == target_vec@.len(),
                        target_len <= 0x4000_0000_0000_0000,
                        best_inter <= 0x4000_0000_0000_0000,
                        best_union <= 0x8000_0000_0000_0000,
                        forall|k: int|
                            0 <= k < net.len() ==> (#[trigger] net[k]).nodes.len()
                                <= 0x4000_0000_0000_0000,
                    decreases n_cand - j,
                {
                    let cand = &rest[nid].modules[j];
                    let (inter, diff) = intersection_difference_count(&target_vec, &cand.nodes);
                    proof {
                        assert(cand.nodes@ == net[j as int].nodes);
                        assert(nets[nid as int][j as int] == net[j as int]);
                        assert(net[j as int].nodes.len() <= 0x4000_0000_0000_0000);
                    }
                    let inter = inter as u128;
                    let uni = cand.nodes.len() as u128 + diff as u128;
                    proof {
                        assert((inter as int, uni as int) == spec_jaccard_pair(
                            net[j as int].nodes,
                            target,
                        ));
                    }
                    let (li, lu): (u128, u128) = if uni == 0 {
                        (0, 1)
                    } else {
                        (inter, uni)
                    };
                    let (ri, ru): (u128, u128) = if best_union == 0 {
                        (0, 1)
                    } else {
                        (best_inter, best_union)
                    };
                    proof {
                        lemma_cross_fits(li as int, lu as int, ri as int, ru as int);
                    }
                    if li * ru > ri * lu {
                        best = j;
                        best_inter = inter;
                        best_union = uni;
                    }
                    j = j + 1;
                }
                row.push((nid, best));
            }
        }
        proof {
            assert(nets.take(n_nets as int) =~= nets);
        }
        r.push(row);
    }
    proof {
        assert(r@.map_values(|v: Vec<(usize, usize)>| v@) =~= spec_most_similar(fst, nets));
    }
    r
}

/// Cross products of bounded counts fit `u128`.
proof fn lemma_cross_fits(li: int, lu: int, ri: int, ru: int)
    requires
        0 <= li <= 0x8000_0000_0000_0000,
        0 <= lu <= 0x8000_0000_0000_0000,
        0 <= ri <= 0x8000_0000_0000_0000,
        0 <= ru <= 0x8000_0000_0000_0000,
    ensures
        li * ru < 0x1_0000_0000_0000_0000_0000_0000_0000_0000,
        ri * lu < 0x1_0000_0000_0000_0000_0000_0000_0000_0000,
{
    assert(li * ru < 0x1_0000_0000_0000_0000_0000_0000_0000_0000) by (nonlinear_arith)
        requires
            0 <= li <= 0x8000_0000_0000_0000,
            0 <= ru <= 0x8000_0000_0000_0000,
    ;
    assert(ri * lu < 0x1_0000_0000_0000_0000_0000_0000_0000_0000) by (nonlinear_arith)
        requires
            0 <= ri <= 0x8000_0000_0000_0000,
            0 <= lu <= 0x8000_0000_0000_0000,
    ;
}

} // verus!
