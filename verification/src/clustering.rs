//! The significant-core search.
//!
//! Given a reference module (a set of nodes) and the best-matching module of
//! every comparison partition, the search finds the subset of the reference
//! module that recurs consistently across the comparison partitions:
//!
//! * nodes present in every comparison module are unconditionally part of
//!   the core, and nodes present in none are unconditionally excluded;
//! * the remaining, ambiguous nodes are explored by simulated annealing,
//!   driven by the outlier-tolerant [`Scorer`](crate::scorer::Scorer).
//!
//! The whole search is a pure function of the reference module, the
//! comparison modules, the confidence and the seed: [`spec_search_result`]
//! denotes it, and [`get_significant_core`] returns exactly that set.

use vstd::prelude::*;
use vstd::relations::{sorted_by, total_ordering};
use vstd::seq_lib::lemma_sorted_unique;

use crate::anneal::{accept_flip, cool, spec_accept, spec_cool, TEMP_ONE};
use crate::confidence::{get_num_to_exclude, spec_num_to_exclude, Confidence};
use crate::rng::{rng_draw, SearchRng};
use crate::scorer::{
    lemma_spec_score_bounds, set_to_vec, spec_score, views_of, Scorer,
};
use crate::NodeId;
use std::collections::HashSet;

verus! {

broadcast use {
    vstd::std_specs::hash::group_hash_axioms,
    vstd::set::group_set_axioms,
    vstd::seq_lib::group_seq_lib_default,
    vstd::seq_lib::group_to_multiset_ensures,
};

/// Whether `x` lies in every comparison module.
pub open spec fn in_all(x: u32, comps: Seq<Set<u32>>) -> bool {
    forall|j: int| 0 <= j < comps.len() ==> (#[trigger] comps[j]).contains(x)
}

/// Whether `x` lies in no comparison module.
pub open spec fn in_none(x: u32, comps: Seq<Set<u32>>) -> bool {
    forall|j: int| 0 <= j < comps.len() ==> !(#[trigger] comps[j]).contains(x)
}

/// The nodes of `module` that lie in every comparison module: the fixed part
/// of the significant core.
pub open spec fn always_present(module: Set<u32>, comps: Seq<Set<u32>>) -> Set<u32> {
    module.filter(|x: u32| in_all(x, comps))
}

/// The ascending order on node identifiers.
pub open spec fn node_le() -> spec_fn(u32, u32) -> bool {
    |a: u32, b: u32| a <= b
}

/// The nodes of `module`, listed in ascending order. The search draws its
/// candidates from this list, so that one invocation is reproducible however
/// the input set iterates.
pub open spec fn asc_nodes(module: Set<u32>) -> Seq<u32> {
    module.to_sorted_seq(node_le())
}

/// Whether `x` is ambiguous: in some comparison modules but not in all.
pub open spec fn ambiguous(x: u32, comps: Seq<Set<u32>>) -> bool {
    !in_all(x, comps) && !in_none(x, comps)
}

/// The candidate pool: the ambiguous nodes, in ascending order.
pub open spec fn spec_candidates(nodes: Seq<u32>, comps: Seq<Set<u32>>) -> Seq<u32> {
    nodes.filter(|x: u32| ambiguous(x, comps))
}

/// The fixed inputs of one search invocation.
pub ghost struct SearchEnv {
    /// The candidate pool, in ascending order.
    pub cands: Seq<u32>,
    /// The comparison modules.
    pub comps: Seq<Set<u32>>,
    /// The penalty weight of the scorer.
    pub pw: int,
    /// How many comparisons the scorer discards as outliers.
    pub k_exclude: int,
    /// The seed of the draw stream.
    pub seed: u64,
}

/// The mutable state of the search.
pub ghost struct SearchState {
    /// The working core.
    pub core: Set<u32>,
    /// Agreement of the working core, as last scored.
    pub score: int,
    /// Disagreement of the working core, as last scored.
    pub penalty: int,
    /// How many values have been drawn from the stream.
    pub draws: nat,
    /// The best score seen with zero disagreement, if any.
    pub best: Option<int>,
    /// The temperature, in Q32 fixed point.
    pub temp: int,
    /// Flips accepted in the current sweep.
    pub switches: nat,
}

/// `core` with the membership of `x` flipped.
pub open spec fn spec_flip(core: Set<u32>, x: u32) -> Set<u32> {
    if core.contains(x) {
        core.remove(x)
    } else {
        core.insert(x)
    }
}

/// Whether `score` beats the best feasible score seen so far.
pub open spec fn spec_better(score: int, best: Option<int>) -> bool {
    match best {
        Option::None => true,
        Option::Some(b) => score > b,
    }
}

/// One proposal: draw a candidate, flip it, rescore, accept or revert by the
/// Metropolis rule, and record the score if the core is feasible and better
/// than anything seen.
pub open spec fn spec_propose(env: SearchEnv, st: SearchState) -> SearchState {
    let idx = rng_draw(env.seed, st.draws) as int % (env.cands.len() as int);
    let node = env.cands[idx];
    let new_core = spec_flip(st.core, node);
    let sc = spec_score(new_core, env.comps, env.pw, env.k_exclude);
    let delta = (sc.0 - env.pw * sc.1) - (st.score - env.pw * st.penalty);
    let acc = spec_accept(env.seed, st.draws + 1, delta, st.temp);
    let st1 = if acc {
        SearchState {
            core: new_core,
            score: sc.0,
            penalty: sc.1,
            draws: st.draws + 2,
            switches: st.switches + 1,
            ..st
        }
    } else {
        SearchState { draws: st.draws + 2, ..st }
    };
    if st1.penalty == 0 && spec_better(st1.score, st1.best) {
        SearchState { best: Option::Some(st1.score), ..st1 }
    } else {
        st1
    }
}

/// `i` proposals in a row.
pub open spec fn spec_sweep_iter(env: SearchEnv, st: SearchState, i: nat) -> SearchState
    decreases i,
{
    if i == 0 {
        st
    } else {
        spec_propose(env, spec_sweep_iter(env, st, (i - 1) as nat))
    }
}

/// One sweep: the accepted-flip counter is reset, then `iters` proposals run.
pub open spec fn spec_sweep(env: SearchEnv, st: SearchState, iters: nat) -> SearchState {
    spec_sweep_iter(env, SearchState { switches: 0, ..st }, iters)
}

/// The cooling loop: sweeps at geometrically falling temperature, until a
/// sweep accepts no flip or the budget is spent.
pub open spec fn spec_inner(env: SearchEnv, st: SearchState, iters: nat, budget: nat) -> SearchState
    decreases budget,
{
    if budget == 0 {
        st
    } else {
        let swept = spec_sweep(env, st, iters);
        let cooled = SearchState { temp: spec_cool(swept.temp), ..swept };
        if swept.switches == 0 {
            cooled
        } else {
            spec_inner(env, cooled, iters, (budget - 1) as nat)
        }
    }
}

/// The restart loop: cooling runs from unit temperature, until a feasible
/// score has been recorded or the budget is spent.
pub open spec fn spec_outer(env: SearchEnv, st: SearchState, iters: nat, budget: nat) -> SearchState
    decreases budget,
{
    if budget == 0 {
        st
    } else {
        let ran = spec_inner(env, SearchState { temp: TEMP_ONE as int, ..st }, iters, 1000);
        if ran.best is Some {
            ran
        } else {
            spec_outer(env, ran, iters, (budget - 1) as nat)
        }
    }
}

/// The initial working core: the always-present nodes, plus an independent
/// fair coin per candidate, drawn in candidate order.
pub open spec fn spec_init_core(core0: Set<u32>, cands: Seq<u32>, seed: u64, i: nat) -> Set<u32>
    decreases i,
{
    if i == 0 {
        core0
    } else {
        let prev = spec_init_core(core0, cands, seed, (i - 1) as nat);
        if rng_draw(seed, (i - 1) as nat) % 2 == 1 {
            prev.insert(cands[i - 1])
        } else {
            prev
        }
    }
}

/// How many proposals one sweep makes.
pub open spec fn spec_num_iterations(module_len: nat) -> nat {
    if module_len > 100 {
        module_len
    } else {
        100
    }
}

/// What [`get_significant_core`] returns: the always-present nodes if no node
/// is ambiguous, and otherwise the working core that the annealing search
/// leaves behind after its budgets or stopping rules end it.
pub open spec fn spec_search_result(
    module: Set<u32>,
    comps: Seq<Set<u32>>,
    conf: Confidence,
    seed: u64,
) -> Set<u32> {
    let always = always_present(module, comps);
    let cands = spec_candidates(asc_nodes(module), comps);
    if cands.len() == 0 {
        always
    } else {
        let env = SearchEnv {
            cands,
            comps,
            pw: 10 * (module.len() as int),
            k_exclude: spec_num_to_exclude(comps.len() as int, conf),
            seed,
        };
        let core0 = spec_init_core(always, cands, seed, cands.len());
        let sc0 = spec_score(core0, comps, env.pw, env.k_exclude);
        let st0 = SearchState {
            core: core0,
            score: sc0.0,
            penalty: sc0.1,
            draws: cands.len(),
            best: Option::None,
            temp: TEMP_ONE as int,
            switches: 0,
        };
        spec_outer(env, st0, spec_num_iterations(module.len()), 1000).core
    }
}

/// A well-formed working core: a subset of the reference module that holds
/// every always-present node and, when there is at least one comparison, no
/// never-present one.
pub open spec fn core_wf(core: Set<u32>, module: Set<u32>, comps: Seq<Set<u32>>) -> bool {
    &&& forall|x: u32| #[trigger] core.contains(x) ==> module.contains(x)
    &&& forall|x: u32| #[trigger] module.contains(x) && in_all(x, comps) ==> core.contains(x)
    &&& comps.len() > 0 ==> forall|x: u32| in_none(x, comps) ==> !(#[trigger] core.contains(x))
}

/// A well-formed search environment: the candidate pool is the nonempty list
/// of ambiguous nodes of `module`, in ascending order.
pub open spec fn env_wf(env: SearchEnv, module: Set<u32>) -> bool {
    &&& module.finite()
    &&& env.cands == spec_candidates(asc_nodes(module), env.comps)
    &&& env.cands.len() > 0
}

/// The length of `to_seq` is the set's cardinality.
proof fn lemma_to_seq_len(s: Set<u32>)
    requires
        s.finite(),
    ensures
        s.to_seq().len() == s.len(),
    decreases s.len(),
{
    if s.len() == 0 {
    } else {
        lemma_to_seq_len(s.remove(s.choose()));
    }
}

/// The ascending node list enumerates the module: same elements, each once,
/// in ascending order.
pub proof fn lemma_asc_nodes(module: Set<u32>)
    requires
        module.finite(),
    ensures
        asc_nodes(module).to_set() == module,
        asc_nodes(module).no_duplicates(),
        asc_nodes(module).len() == module.len(),
        sorted_by(asc_nodes(module), node_le()),
{
    let ts = module.to_seq();
    lemma_to_seq_len(module);
    module.lemma_to_seq_to_set_id();
    ts.lemma_no_dup_set_cardinality();
    assert(total_ordering(node_le()));
    ts.lemma_sort_by_ensures(node_le());
    let asc = asc_nodes(module);
    assert(asc.to_set() =~= module) by {
        assert forall|x: u32| asc.to_set().contains(x) <==> module.contains(x) by {
            assert(asc.contains(x) <==> asc.to_multiset().count(x) > 0);
            assert(ts.contains(x) <==> ts.to_multiset().count(x) > 0);
        }
    }
    assert(asc.len() == module.len()) by {
        assert(asc.len() == asc.to_multiset().len());
        assert(ts.len() == ts.to_multiset().len());
    }
    asc.lemma_no_dup_set_cardinality();
}

/// Sequences without duplicates and with the same elements have the same
/// multiset.
pub proof fn lemma_nodup_same_set_multiset(a: Seq<u32>, b: Seq<u32>)
    requires
        a.no_duplicates(),
        b.no_duplicates(),
        a.to_set() == b.to_set(),
    ensures
        a.to_multiset() == b.to_multiset(),
{
    a.lemma_multiset_has_no_duplicates();
    b.lemma_multiset_has_no_duplicates();
    assert forall|x: u32| a.to_multiset().count(x) == b.to_multiset().count(x) by {
        assert(a.contains(x) <==> a.to_set().contains(x));
        assert(b.contains(x) <==> b.to_set().contains(x));
        assert(a.contains(x) <==> a.to_multiset().count(x) > 0);
        assert(b.contains(x) <==> b.to_multiset().count(x) > 0);
    }
    assert(a.to_multiset() =~= b.to_multiset());
}

/// Every candidate is an ambiguous node of the module.
pub proof fn lemma_candidates_ambiguous(module: Set<u32>, comps: Seq<Set<u32>>)
    requires
        module.finite(),
    ensures
        forall|i: int|
            0 <= i < spec_candidates(asc_nodes(module), comps).len() ==> {
                let x = #[trigger] spec_candidates(asc_nodes(module), comps)[i];
                module.contains(x) && ambiguous(x, comps)
            },
{
    lemma_asc_nodes(module);
    let nodes = asc_nodes(module);
    let cands = spec_candidates(nodes, comps);
    assert forall|i: int| 0 <= i < cands.len() implies {
        let x = #[trigger] cands[i];
        module.contains(x) && ambiguous(x, comps)
    } by {
        let x = cands[i];
        assert(ambiguous(x, comps));
        assert(cands.contains(x));
        nodes.lemma_filter_contains_rev(|y: u32| ambiguous(y, comps), x);
        assert(nodes.contains(x));
        assert(nodes.to_set().contains(x));
    }
}

/// One proposal keeps the working core well formed.
proof fn lemma_propose_wf(env: SearchEnv, st: SearchState, module: Set<u32>)
    requires
        env_wf(env, module),
        core_wf(st.core, module, env.comps),
    ensures
        core_wf(spec_propose(env, st).core, module, env.comps),
{
    lemma_candidates_ambiguous(module, env.comps);
    let len = env.cands.len() as int;
    let idx = rng_draw(env.seed, st.draws) as int % len;
    assert(0 <= idx < len) by {
        vstd::arithmetic::div_mod::lemma_mod_bound(rng_draw(env.seed, st.draws) as int, len);
    }
    let node = env.cands[idx];
    assert(module.contains(node) && ambiguous(node, env.comps));
    let new_core = spec_flip(st.core, node);
    assert(core_wf(new_core, module, env.comps)) by {
        if st.core.contains(node) {
            assert forall|x: u32| #[trigger] module.contains(x) && in_all(x, env.comps)
                implies new_core.contains(x) by {
                assert(x != node);
            }
        }
    }
}

/// A run of proposals keeps the working core well formed.
proof fn lemma_sweep_iter_wf(env: SearchEnv, st: SearchState, i: nat, module: Set<u32>)
    requires
        env_wf(env, module),
        core_wf(st.core, module, env.comps),
    ensures
        core_wf(spec_sweep_iter(env, st, i).core, module, env.comps),
    decreases i,
{
    if i == 0 {
    } else {
        lemma_sweep_iter_wf(env, st, (i - 1) as nat, module);
        lemma_propose_wf(env, spec_sweep_iter(env, st, (i - 1) as nat), module);
    }
}

/// The cooling loop keeps the working core well formed.
proof fn lemma_inner_wf(env: SearchEnv, st: SearchState, iters: nat, budget: nat, module: Set<u32>)
    requires
        env_wf(env, module),
        core_wf(st.core, module, env.comps),
    ensures
        core_wf(spec_inner(env, st, iters, budget).core, module, env.comps),
    decreases budget,
{
    if budget == 0 {
    } else {
        lemma_sweep_iter_wf(env, SearchState { switches: 0, ..st }, iters, module);
        let swept = spec_sweep(env, st, iters);
        let cooled = SearchState { temp: spec_cool(swept.temp), ..swept };
        if swept.switches == 0 {
        } else {
            lemma_inner_wf(env, cooled, iters, (budget - 1) as nat, module);
        }
    }
}

/// The restart loop keeps the working core well formed.
proof fn lemma_outer_wf(env: SearchEnv, st: SearchState, iters: nat, budget: nat, module: Set<u32>)
    requires
        env_wf(env, module),
        core_wf(st.core, module, env.comps),
    ensures
        core_wf(spec_outer(env, st, iters, budget).core, module, env.comps),
    decreases budget,
{
    if budget == 0 {
    } else {
        lemma_inner_wf(env, SearchState { temp: TEMP_ONE as int, ..st }, iters, 1000, module);
        let ran = spec_inner(env, SearchState { temp: TEMP_ONE as int, ..st }, iters, 1000);
        if ran.best is Some {
        } else {
            lemma_outer_wf(env, ran, iters, (budget - 1) as nat, module);
        }
    }
}

/// The always-present set is a well-formed core.
proof fn lemma_always_wf(module: Set<u32>, comps: Seq<Set<u32>>)
    requires
        module.finite(),
    ensures
        core_wf(always_present(module, comps), module, comps),
{
    if comps.len() > 0 {
        assert forall|x: u32| in_none(x, comps) implies !(#[trigger] always_present(
            module,
            comps,
        ).contains(x)) by {
            if always_present(module, comps).contains(x) {
                assert(in_all(x, comps));
                assert(comps[0].contains(x));
                assert(!comps[0].contains(x));
            }
        }
    }
}

/// The random initial core is well formed.
proof fn lemma_init_core_wf(
    core0: Set<u32>,
    module: Set<u32>,
    comps: Seq<Set<u32>>,
    seed: u64,
    i: nat,
)
    requires
        module.finite(),
        core_wf(core0, module, comps),
        i <= spec_candidates(asc_nodes(module), comps).len(),
    ensures
        core_wf(
            spec_init_core(core0, spec_candidates(asc_nodes(module), comps), seed, i),
            module,
            comps,
        ),
    decreases i,
{
    if i == 0 {
    } else {
        lemma_init_core_wf(core0, module, comps, seed, (i - 1) as nat);
        lemma_candidates_ambiguous(module, comps);
    }
}

/// Laws of the significant core: it is a subset of the reference module; it
/// holds every reference node present in all comparison modules; with at
/// least one comparison, it holds no node absent from all of them; and if no
/// reference node is ambiguous, it is exactly the always-present set.
pub proof fn lemma_search_result_membership(
    module: Set<u32>,
    comps: Seq<Set<u32>>,
    conf: Confidence,
    seed: u64,
)
    requires
        module.finite(),
    ensures
        forall|x: u32| #[trigger]
            spec_search_result(module, comps, conf, seed).contains(x) ==> module.contains(x),
        forall|x: u32| #[trigger]
            module.contains(x) && in_all(x, comps) ==> spec_search_result(
                module,
                comps,
                conf,
                seed,
            ).contains(x),
        comps.len() > 0 ==> forall|x: u32|
            in_none(x, comps) ==> !(#[trigger] spec_search_result(
                module,
                comps,
                conf,
                seed,
            ).contains(x)),
        (forall|x: u32| #[trigger] module.contains(x) ==> !ambiguous(x, comps))
            ==> spec_search_result(module, comps, conf, seed) == always_present(module, comps),
{
    let always = always_present(module, comps);
    let cands = spec_candidates(asc_nodes(module), comps);
    lemma_always_wf(module, comps);
    if cands.len() == 0 {
    } else {
        let env = SearchEnv {
            cands,
            comps,
            pw: 10 * (module.len() as int),
            k_exclude: spec_num_to_exclude(comps.len() as int, conf),
            seed,
        };
        let core0 = spec_init_core(always, cands, seed, cands.len());
        lemma_init_core_wf(always, module, comps, seed, cands.len());
        let sc0 = spec_score(core0, comps, env.pw, env.k_exclude);
        let st0 = SearchState {
            core: core0,
            score: sc0.0,
            penalty: sc0.1,
            draws: cands.len(),
            best: Option::None,
            temp: TEMP_ONE as int,
            switches: 0,
        };
        lemma_outer_wf(env, st0, spec_num_iterations(module.len()), 1000, module);
        assert(!(forall|x: u32| #[trigger] module.contains(x) ==> !ambiguous(x, comps))) by {
            lemma_candidates_ambiguous(module, comps);
            assert(module.contains(cands[0]) && ambiguous(cands[0], comps));
        }
    }
}

/// The spec value of an optional score.
pub open spec fn opt_int(b: Option<i64>) -> Option<int> {
    match b {
        Option::None => Option::None,
        Option::Some(x) => Option::Some(x as int),
    }
}

/// The exec search variables agree with the ghost search state.
pub open spec fn matches_state(
    st: SearchState,
    core: Set<u32>,
    score: i64,
    penalty: i64,
    draws: nat,
    best: Option<i64>,
    temp: u64,
    switches: usize,
) -> bool {
    &&& st.core == core
    &&& st.score == score as int
    &&& st.penalty == penalty as int
    &&& st.draws == draws
    &&& st.best == opt_int(best)
    &&& st.temp == temp as int
    &&& st.switches == switches as nat
}

/// The fixed facts every search loop relies on.
pub open spec fn search_ctx(
    env: SearchEnv,
    module: Set<u32>,
    modules: Seq<HashSet<NodeId>>,
    cands: Seq<u32>,
    scorer: Scorer,
    iters: nat,
) -> bool {
    &&& module.finite()
    &&& env.comps == views_of(modules)
    &&& env.cands == cands
    &&& cands == spec_candidates(asc_nodes(module), env.comps)
    &&& cands.len() > 0
    &&& env.pw == 10 * (module.len() as int)
    &&& scorer.penalty_weight as int == env.pw
    &&& scorer.num_partitions_to_exclude as int == env.k_exclude
    &&& env.k_exclude >= 0
    &&& env.comps.len() >= 1
    &&& 2 * (env.comps.len() as int) * (module.len() as int) * (10 * (module.len() as int) + 1)
        <= i64::MAX
    &&& iters == spec_num_iterations(module.len())
}

/// The score and disagreement of a search state stay within the sums the
/// scorer can produce, and the temperature within its scale.
pub open spec fn st_bounds(st: SearchState, module: Set<u32>, comps: Seq<Set<u32>>) -> bool {
    &&& 0 <= st.score <= comps.len() * module.len()
    &&& 0 <= st.penalty <= comps.len() * module.len()
    &&& 1 <= st.temp <= TEMP_ONE
}

/// Sorts node identifiers into ascending order (insertion sort).
pub fn sort_nodes(v: Vec<NodeId>) -> (r: Vec<NodeId>)
    ensures
        r@.to_multiset() == v@.to_multiset(),
        sorted_by(r@, node_le()),
{
    let n = v.len();
    let mut r: Vec<NodeId> = Vec::new();
    proof {
        assert(v@.take(0) =~= Seq::<u32>::empty());
        Seq::<u32>::empty().to_multiset_ensures();
        v@.take(0).to_multiset_ensures();
    }
    for i in 0..n
        invariant
            n == v@.len(),
            r@.to_multiset() == v@.take(i as int).to_multiset(),
            sorted_by(r@, node_le()),
    {
        let x = v[i];
        let mut pos: usize = 0;
        while pos < r.len() && r[pos] <= x
            invariant
                pos <= r@.len(),
                sorted_by(r@, node_le()),
                forall|kk: int| 0 <= kk < pos ==> r@[kk] <= x,
            decreases r@.len() - pos,
        {
            pos = pos + 1;
        }
        let ghost old_r = r@;
        r.insert(pos, x);
        proof {
            old_r.insert_ensures(pos as int, x);
            assert(r@ =~= old_r.subrange(0, pos as int).push(x) + old_r.subrange(
                pos as int,
                old_r.len() as int,
            ));
            assert forall|a: int, b: int| 0 <= a < b < r@.len() implies node_le()(r@[a], r@[b]) by {
                if b < pos {
                    assert(r@[a] == old_r[a] && r@[b] == old_r[b]);
                    assert(node_le()(old_r[a], old_r[b]));
                } else if b == pos {
                    assert(r@[a] == old_r[a] && r@[b] == x);
                    assert(old_r[a] <= x);
                } else if a < pos {
                    assert(r@[a] == old_r[a] && r@[b] == old_r[b - 1]);
                    assert(node_le()(old_r[a], old_r[b - 1]));
                } else if a == pos {
                    assert(r@[a] == x && r@[b] == old_r[b - 1]);
                    assert(pos < old_r.len());
                    assert(!(old_r[pos as int] <= x));
                    if pos < b - 1 {
                        assert(node_le()(old_r[pos as int], old_r[b - 1]));
                    }
                } else {
                    assert(r@[a] == old_r[a - 1] && r@[b] == old_r[b - 1]);
                    assert(node_le()(old_r[a - 1], old_r[b - 1]));
                }
            }
            assert(r@.to_multiset() == v@.take(i as int + 1).to_multiset()) by {
                broadcast use vstd::seq_lib::group_to_multiset_ensures;

                assert(r@ == old_r.insert(pos as int, x));
                assert(v@.take(i as int + 1) =~= v@.take(i as int).push(v@[i as int]));
            }
        }
    }
    proof {
        assert(v@.take(n as int) =~= v@);
    }
    r
}

/// One proposal of the search: draws a candidate, flips it in the working
/// core, rescores, accepts or reverts by the Metropolis rule, and records a
/// newly best feasible score. The variables move exactly as
/// [`spec_propose`] says.
#[verifier::rlimit(60)]
fn propose_once(
    core: &mut HashSet<NodeId>,
    score: &mut i64,
    penalty: &mut i64,
    best: &mut Option<i64>,
    switches: &mut usize,
    rng: &mut SearchRng,
    candidates: &Vec<NodeId>,
    modules: &[HashSet<NodeId>],
    scorer: &Scorer,
    temp: u64,
    Ghost(env): Ghost<SearchEnv>,
    Ghost(st): Ghost<SearchState>,
    Ghost(module): Ghost<Set<u32>>,
)
    requires
        search_ctx(env, module, modules@, candidates@, *scorer, spec_num_iterations(module.len())),
        env.seed == old(rng).seed@,
        matches_state(
            st,
            old(core)@,
            *old(score),
            *old(penalty),
            old(rng).draws@,
            *old(best),
            temp,
            *old(switches),
        ),
        core_wf(st.core, module, env.comps),
        st_bounds(st, module, env.comps),
        *old(switches) < usize::MAX,
    ensures
        ({
            let nst = spec_propose(env, st);
            &&& matches_state(
                nst,
                final(core)@,
                *final(score),
                *final(penalty),
                final(rng).draws@,
                *final(best),
                temp,
                *final(switches),
            )
            &&& final(rng).seed == old(rng).seed
            &&& core_wf(nst.core, module, env.comps)
            &&& st_bounds(nst, module, env.comps)
        }),
{
    let ghost comps = env.comps;
    let ghost m = module.len() as int;
    let ghost nn = comps.len() as int;
    let pos = rng.index(candidates.len());
    let node = candidates[pos];
    proof {
        lemma_candidates_ambiguous(module, comps);
        assert(module.contains(node) && ambiguous(node, comps));
    }
    let removed = core.contains(&node);
    if removed {
        core.remove(&node);
    } else {
        core.insert(node);
    }
    let ghost new_core = core@;
    proof {
        assert(new_core == spec_flip(st.core, node));
        assert(core_wf(new_core, module, comps)) by {
            if st.core.contains(node) {
                assert forall|x: u32| #[trigger] module.contains(x) && in_all(x, comps)
                    implies new_core.contains(x) by {
                    assert(x != node);
                }
            }
        }
        lemma_new_core_subset(new_core, module);
        lemma_search_arith(m, nn, new_core.len() as int);
    }
    let (new_score, new_penalty) = scorer.score(core, modules);
    proof {
        lemma_spec_score_bounds(new_core, comps, env.pw, env.k_exclude);
        lemma_score_range(nn, m, new_core.len() as int, new_score as int, new_penalty as int);
        lemma_score_range(nn, m, module.len() as int, st.score, st.penalty);
    }
    let s_new = new_score - scorer.penalty_weight * new_penalty;
    let s_old = *score - scorer.penalty_weight * *penalty;
    let delta = s_new - s_old;
    let acc = accept_flip(rng, delta, temp);
    if acc {
        *score = new_score;
        *penalty = new_penalty;
        *switches = *switches + 1;
    } else {
        if removed {
            core.insert(node);
        } else {
            core.remove(&node);
        }
        proof {
            assert(core@ =~= st.core);
        }
    }
    let better = match *best {
        Option::None => true,
        Option::Some(b) => *score > b,
    };
    if *penalty == 0 && better {
        *best = Option::Some(*score);
    }
}

/// The significant core of a reference module.
///
/// `module` is the reference module's node set, `modules` the best-matching
/// module of each comparison partition, `conf` the confidence, and `seed` the
/// seed of the pseudo-random draw stream. The result is a pure function of
/// these four inputs, denoted by [`spec_search_result`]: two calls on equal
/// inputs return the same set. Nodes present in every comparison module are
/// always in the result; nodes present in none never are; the ambiguous rest
/// is chosen by the annealing search.
#[verifier::rlimit(80)]
pub fn get_significant_core(
    module: &HashSet<NodeId>,
    modules: &[HashSet<NodeId>],
    conf: &Confidence,
    seed: u64,
) -> (core: HashSet<NodeId>)
    requires
        conf.wf(),
        2 * (modules@.len() as int) * (module@.len() as int) * (10 * (module@.len() as int) + 1)
            <= i64::MAX,
    ensures
        core@ == spec_search_result(module@, views_of(modules@), *conf, seed),
        forall|x: u32| #[trigger] core@.contains(x) ==> module@.contains(x),
        forall|x: u32| #[trigger]
            module@.contains(x) && in_all(x, views_of(modules@)) ==> core@.contains(x),
        modules@.len() > 0 ==> forall|x: u32|
            in_none(x, views_of(modules@)) ==> !(#[trigger] core@.contains(x)),
        (forall|x: u32| #[trigger] module@.contains(x) ==> !ambiguous(x, views_of(modules@)))
            ==> core@ == always_present(module@, views_of(modules@)),
{
    let ghost comps = views_of(modules@);
    let raw = set_to_vec(module);
    let nodes = sort_nodes(raw);
    proof {
        assert(module@.finite());
        lemma_asc_nodes(module@);
        raw@.lemma_multiset_has_no_duplicates();
        nodes@.lemma_multiset_has_no_duplicates_conv();
        assert(nodes@.to_set() =~= module@) by {
            assert forall|y: u32| nodes@.to_set().contains(y) <==> module@.contains(y) by {
                assert(nodes@.contains(y) <==> nodes@.to_multiset().count(y) > 0);
            }
        }
        lemma_nodup_same_set_multiset(nodes@, asc_nodes(module@));
        lemma_sorted_unique(nodes@, asc_nodes(module@), node_le());
        assert(nodes@ == asc_nodes(module@));
    }
    let n_comp = modules.len();
    let n_nodes = nodes.len();
    let mut core: HashSet<NodeId> = HashSet::new();
    let mut candidates: Vec<NodeId> = Vec::new();
    proof {
        assert(nodes@.take(0) =~= Seq::<u32>::empty());
        Seq::<u32>::empty().lemma_filter_len(|y: u32| ambiguous(y, comps));
        assert(candidates@ =~= spec_candidates(nodes@.take(0), comps));
    }
    for i in 0..n_nodes
        invariant
            n_nodes == nodes@.len(),
            n_comp == modules@.len(),
            comps == views_of(modules@),
            module@.finite(),
            nodes@ == asc_nodes(module@),
            nodes@.to_set() == module@,
            forall|y: u32| #[trigger]
                core@.contains(y) <==> (nodes@.take(i as int).contains(y) && in_all(y, comps)),
            candidates@ == spec_candidates(nodes@.take(i as int), comps),
    {
        let x = nodes[i];
        let mut all = true;
        let mut none = true;
        for j in 0..n_comp
            invariant
                n_comp == modules@.len(),
                comps == views_of(modules@),
                all == (forall|jj: int| 0 <= jj < j ==> (#[trigger] comps[jj]).contains(x)),
                none == (forall|jj: int| 0 <= jj < j ==> !(#[trigger] comps[jj]).contains(x)),
        {
            let c = modules[j].contains(&x);
            proof {
                assert(comps[j as int] == modules@[j as int]@);
            }
            let ghost old_all = all;
            let ghost old_none = none;
            all = all && c;
            none = none && !c;
            proof {
                assert(all == (forall|jj: int|
                    0 <= jj < j + 1 ==> (#[trigger] comps[jj]).contains(x))) by {
                    if old_all && c {
                        assert forall|jj: int| 0 <= jj < j + 1 implies (#[trigger] comps[jj]).contains(
                            x,
                        ) by {}
                    }
                }
                assert(none == (forall|jj: int|
                    0 <= jj < j + 1 ==> !(#[trigger] comps[jj]).contains(x))) by {
                    if old_none && !c {
                        assert forall|jj: int| 0 <= jj < j + 1 implies !(#[trigger] comps[jj]).contains(
                            x,
                        ) by {}
                    }
                }
            }
        }
        proof {
            assert(all == in_all(x, comps));
            assert(none == in_none(x, comps));
            assert(nodes@.take(i as int + 1) =~= nodes@.take(i as int).push(x));
            nodes@.take(i as int).lemma_filter_push(x, |y: u32| ambiguous(y, comps));
        }
        let ghost old_core = core@;
        if all {
            core.insert(x);
        } else if !none {
            candidates.push(x);
        }
        proof {
            assert forall|y: u32| #[trigger]
                core@.contains(y) <==> (nodes@.take(i as int + 1).contains(y) && in_all(
                    y,
                    comps,
                )) by {
                if y != x {
                    assert(core@.contains(y) <==> old_core.contains(y));
                    assert(nodes@.take(i as int + 1).contains(y) <==> nodes@.take(
                        i as int,
                    ).contains(y)) by {
                        assert(nodes@.take(i as int + 1) == nodes@.take(i as int).push(x));
                    }
                } else {
                    assert(nodes@.take(i as int + 1).contains(x)) by {
                        assert(nodes@.take(i as int + 1)[i as int] == x);
                    }
                    if all {
                        assert(core@.contains(x));
                    } else {
                        assert(core@.contains(x) <==> old_core.contains(x));
                        assert(!in_all(x, comps));
                    }
                }
            }
        }
    }
    proof {
        assert(nodes@.take(n_nodes as int) =~= nodes@);
    }
    let ghost always = always_present(module@, comps);
    let ghost cands_spec = spec_candidates(asc_nodes(module@), comps);
    proof {
        assert(core@ =~= always) by {
            assert forall|y: u32| core@.contains(y) <==> always.contains(y) by {
                assert(nodes@.contains(y) <==> nodes@.to_set().contains(y));
            }
        }
        assert(candidates@ == cands_spec);
    }
    if candidates.is_empty() {
        proof {
            assert(cands_spec.len() == 0);
            lemma_search_result_membership(module@, comps, *conf, seed);
        }
        return core;
    }
    let k_exclude = get_num_to_exclude(modules.len(), conf);
    let m = nodes.len();
    proof {
        assert(m as int == module@.len());
        lemma_candidates_ambiguous(module@, comps);
        if comps.len() == 0 {
            assert(ambiguous(cands_spec[0], comps));
            assert(in_all(cands_spec[0], comps));
        }
        assert(comps.len() >= 1);
        lemma_search_arith(m as int, comps.len() as int, 0);
    }
    let pw = 10 * (m as i64);
    let scorer = Scorer::new(pw, k_exclude);
    let mut rng = SearchRng::new(seed);
    let n_cands = candidates.len();
    for i in 0..n_cands
        invariant
            n_cands == candidates@.len(),
            rng.seed@ == seed,
            rng.draws@ == i as nat,
            core@ == spec_init_core(always, candidates@, seed, i as nat),
    {
        let c = rng.coin();
        if c {
            core.insert(candidates[i]);
        }
    }
    proof {
        lemma_always_wf(module@, comps);
        lemma_init_core_wf(always, module@, comps, seed, n_cands as nat);
        assert(core_wf(core@, module@, comps)) by {
            assert(core@ == spec_init_core(always, cands_spec, seed, n_cands as nat));
        }
        lemma_new_core_subset(core@, module@);
        lemma_search_arith(m as int, comps.len() as int, core@.len() as int);
    }
    let (score_0, penalty_0) = scorer.score(&core, modules);
    let mut score = score_0;
    let mut penalty = penalty_0;
    proof {
        lemma_spec_score_bounds(core@, comps, pw as int, k_exclude as int);
        lemma_score_range(
            comps.len() as int,
            m as int,
            core@.len() as int,
            score as int,
            penalty as int,
        );
    }
    let mut best: Option<i64> = Option::None;
    let mut temp: u64 = TEMP_ONE;
    let mut switches: usize = 0;
    let num_iterations = if m > 100 {
        m
    } else {
        100
    };
    let ghost env = SearchEnv {
        cands: candidates@,
        comps,
        pw: pw as int,
        k_exclude: k_exclude as int,
        seed,
    };
    let ghost mut st = SearchState {
        core: core@,
        score: score as int,
        penalty: penalty as int,
        draws: rng.draws@,
        best: Option::None,
        temp: TEMP_ONE as int,
        switches: 0nat,
    };
    let ghost st0 = st;
    let ghost iters = num_iterations as nat;
    let ghost goal = spec_outer(env, st0, iters, 1000);
    proof {
        assert(search_ctx(env, module@, modules@, candidates@, scorer, iters));
        assert(matches_state(st, core@, score, penalty, rng.draws@, best, temp, switches));
        assert(st_bounds(st, module@, comps));
    }
    let mut o: usize = 0;
    while o < 1000
        invariant_except_break
            o <= 1000,
            search_ctx(env, module@, modules@, candidates@, scorer, iters),
            env.seed == rng.seed@,
            comps == views_of(modules@),
            module@.finite(),
            iters == num_iterations as nat,
            matches_state(st, core@, score, penalty, rng.draws@, best, temp, switches),
            core_wf(st.core, module@, comps),
            st_bounds(st, module@, comps),
            spec_outer(env, st, iters, (1000 - o) as nat) == goal,
        ensures
            matches_state(st, core@, score, penalty, rng.draws@, best, temp, switches),
            st == goal,
        decreases 1000 - o,
    {
        o = o + 1;
        temp = TEMP_ONE;
        proof {
            st = SearchState { temp: TEMP_ONE as int, ..st };
        }
        let ghost inner0 = st;
        let mut kk: usize = 0;
        while kk < 1000
            invariant_except_break
                kk <= 1000,
                search_ctx(env, module@, modules@, candidates@, scorer, iters),
                env.seed == rng.seed@,
                comps == views_of(modules@),
                module@.finite(),
                iters == num_iterations as nat,
                matches_state(st, core@, score, penalty, rng.draws@, best, temp, switches),
                core_wf(st.core, module@, comps),
                st_bounds(st, module@, comps),
                spec_inner(env, st, iters, (1000 - kk) as nat) == spec_inner(
                    env,
                    inner0,
                    iters,
                    1000,
                ),
            ensures
                matches_state(st, core@, score, penalty, rng.draws@, best, temp, switches),
                core_wf(st.core, module@, comps),
                st_bounds(st, module@, comps),
                env.seed == rng.seed@,
                st == spec_inner(env, inner0, iters, 1000),
            decreases 1000 - kk,
        {
            kk = kk + 1;
            let ghost pre = st;
            switches = 0;
            proof {
                st = SearchState { switches: 0nat, ..st };
            }
            let mut t: usize = 0;
            while t < num_iterations
                invariant
                    t <= num_iterations,
                    search_ctx(env, module@, modules@, candidates@, scorer, iters),
                    env.seed == rng.seed@,
                    comps == views_of(modules@),
                    module@.finite(),
                    iters == num_iterations as nat,
                    matches_state(st, core@, score, penalty, rng.draws@, best, temp, switches),
                    core_wf(st.core, module@, comps),
                    st_bounds(st, module@, comps),
                    st == spec_sweep_iter(env, SearchState { switches: 0nat, ..pre }, t as nat),
                    switches <= t,
                decreases num_iterations - t,
            {
                propose_once(
                    &mut core,
                    &mut score,
                    &mut penalty,
                    &mut best,
                    &mut switches,
                    &mut rng,
                    &candidates,
                    modules,
                    &scorer,
                    temp,
                    Ghost(env),
                    Ghost(st),
                    Ghost(module@),
                );
                proof {
                    st = spec_propose(env, st);
                }
                t = t + 1;
            }
            proof {
                assert(st == spec_sweep(env, pre, iters));
            }
            let sw = switches;
            temp = cool(temp);
            proof {
                st = SearchState { temp: spec_cool(st.temp), ..st };
            }
            if sw == 0 {
                break;
            }
        }
        if best.is_some() {
            break;
        }
    }
    proof {
        assert(core@ == goal.core);
        assert(core@ == spec_search_result(module@, comps, *conf, seed));
        lemma_search_result_membership(module@, comps, *conf, seed);
    }
    core
}

/// A well-formed core is no larger than the module.
proof fn lemma_new_core_subset(core: Set<u32>, module: Set<u32>)
    requires
        module.finite(),
        forall|x: u32| #[trigger] core.contains(x) ==> module.contains(x),
    ensures
        core.finite(),
        core.len() <= module.len(),
{
    assert(core.subset_of(module));
    vstd::set_lib::lemma_len_subset(core, module);
}

/// The products the search computes stay within `i64` when the requested
/// bound on module and comparison counts holds.
proof fn lemma_search_arith(m: int, n: int, c: int)
    requires
        0 <= c <= m,
        1 <= n,
        2 * n * m * (10 * m + 1) <= i64::MAX,
    ensures
        c + 10 * m * c <= i64::MAX,
        n * c <= i64::MAX,
        10 * m <= i64::MAX,
        n * m * (10 * m + 1) * 2 <= i64::MAX,
{
    assert(c + 10 * m * c <= 2 * n * m * (10 * m + 1)) by (nonlinear_arith)
        requires
            0 <= c <= m,
            1 <= n,
    ;
    assert(n * c <= 2 * n * m * (10 * m + 1)) by (nonlinear_arith)
        requires
            0 <= c <= m,
            1 <= n,
    ;
    assert(10 * m <= 2 * n * m * (10 * m + 1)) by (nonlinear_arith)
        requires
            0 <= c <= m,
            1 <= n,
    ;
    assert(n * m * (10 * m + 1) * 2 == 2 * n * m * (10 * m + 1)) by (nonlinear_arith);
}

/// Weighted scores stay within half of `i64` when the requested bound holds.
proof fn lemma_score_range(n: int, m: int, c: int, score: int, penalty: int)
    requires
        0 <= c <= m,
        1 <= n,
        0 <= score <= n * c,
        0 <= penalty <= n * c,
        2 * n * m * (10 * m + 1) <= i64::MAX,
    ensures
        0 <= score <= n * m,
        0 <= penalty <= n * m,
        0 <= 10 * m * penalty <= n * m * (10 * m + 1) - n * m,
        -(n * m) * 10 * m <= score - 10 * m * penalty <= n * m,
        n * m * (10 * m + 1) <= i64::MAX / 2 + 1,
{
    assert(n * c <= n * m) by (nonlinear_arith)
        requires
            0 <= c <= m,
            1 <= n,
    ;
    assert(10 * m * penalty <= n * m * (10 * m + 1) - n * m) by (nonlinear_arith)
        requires
            0 <= penalty <= n * m,
            1 <= n,
            0 <= m,
    ;
    assert(-(n * m) * 10 * m <= score - 10 * m * penalty) by (nonlinear_arith)
        requires
            0 <= score,
            0 <= penalty <= n * m,
            1 <= n,
            0 <= m,
    ;
    assert(n * m * (10 * m + 1) <= i64::MAX / 2 + 1) by (nonlinear_arith)
        requires
            2 * n * m * (10 * m + 1) <= i64::MAX,
            1 <= n,
            0 <= m,
    ;
}

} // verus!
