use std::collections::HashSet;

use significance_clustering::clustering::get_significant_core;
use significance_clustering::confidence::{get_num_to_exclude, Confidence};
use significance_clustering::scorer::Scorer;

fn setup() -> (HashSet<u32>, Vec<HashSet<u32>>) {
    let module = (0..10).collect::<HashSet<_>>();

    let modules = vec![
        (0..10).collect::<HashSet<_>>(),
        (0..10).collect::<HashSet<_>>(),
        (1..11).collect::<HashSet<_>>(),
        (0..10).collect::<HashSet<_>>(),
        (0..10).collect::<HashSet<_>>(),
    ];

    (module, modules)
}

#[test]
fn test_get_significant_core() {
    let (module, modules) = setup();

    assert_eq!(
        get_significant_core(&module, &modules, &Confidence::new(95, 100), 123),
        (1..10).collect::<HashSet<_>>()
    );
}

#[test]
fn test_calc_score() {
    let (module, modules) = setup();

    let single = vec![module.clone()];
    let (score, penalty) = Scorer::new(1, 0).score(&module, &single);
    assert_eq!(score, 10);
    assert_eq!(penalty, 0);

    let (score, penalty) = Scorer::new(1, 1).score(&module, &modules);
    assert_eq!(score, 40);
    assert_eq!(penalty, 0);

    let (score, penalty) = Scorer::new(1, 0).score(&module, &modules);
    assert_eq!(score, 49);
    assert_eq!(penalty, 1);
}

#[test]
fn same_inputs_same_core() {
    let (module, modules) = setup();
    let conf = Confidence::new(95, 100);

    let a = get_significant_core(&module, &modules, &conf, 9001);
    let b = get_significant_core(&module, &modules, &conf, 9001);
    assert_eq!(a, b);
}

#[test]
fn core_is_subset_of_module() {
    let (module, modules) = setup();

    let core = get_significant_core(&module, &modules, &Confidence::new(80, 100), 7);
    for node in core.iter() {
        assert!(module.contains(node));
    }
}

#[test]
fn always_present_nodes_are_kept() {
    let (module, modules) = setup();

    // nodes 1..=9 are in all five comparisons
    let core = get_significant_core(&module, &modules, &Confidence::new(95, 100), 5);
    for node in 1..10 {
        assert!(core.contains(&node));
    }
}

#[test]
fn never_present_nodes_are_excluded() {
    let module = (0..12).collect::<HashSet<u32>>();
    // nodes 10 and 11 appear in no comparison; node 5 only in some
    let modules = vec![
        (0..10).collect::<HashSet<_>>(),
        (0..5).collect::<HashSet<_>>(),
        (0..10).collect::<HashSet<_>>(),
    ];

    let core = get_significant_core(&module, &modules, &Confidence::new(90, 100), 11);
    assert!(!core.contains(&10));
    assert!(!core.contains(&11));
}

#[test]
fn empty_candidate_pool_skips_the_search() {
    // every module node is either in all comparisons or in none
    let module = (0..6).collect::<HashSet<u32>>();
    let modules = vec![
        (0..3).collect::<HashSet<_>>(),
        (0..3).collect::<HashSet<_>>(),
    ];

    let core = get_significant_core(&module, &modules, &Confidence::new(95, 100), 42);
    assert_eq!(core, (0..3).collect::<HashSet<_>>());
}

#[test]
fn exclusion_counts_follow_the_rounding_rule() {
    // full confidence never excludes a comparison
    for n in 1..=10 {
        assert_eq!(get_num_to_exclude(n, &Confidence::new(1, 1)), 0);
    }

    // round_half_up(0.05 * n)
    for n in 1..=9 {
        assert_eq!(get_num_to_exclude(n, &Confidence::new(95, 100)), 0);
    }
    assert_eq!(get_num_to_exclude(10, &Confidence::new(95, 100)), 1);

    // round_half_up(0.1 * n)
    for n in 1..=4 {
        assert_eq!(get_num_to_exclude(n, &Confidence::new(9, 10)), 0);
    }
    for n in 5..=10 {
        assert_eq!(get_num_to_exclude(n, &Confidence::new(9, 10)), 1);
    }

    // round_half_up(0.15 * n); at n = 10 the product is exactly 1.5
    for n in 1..=3 {
        assert_eq!(get_num_to_exclude(n, &Confidence::new(85, 100)), 0);
    }
    for n in 4..=9 {
        assert_eq!(get_num_to_exclude(n, &Confidence::new(85, 100)), 1);
    }
    assert_eq!(get_num_to_exclude(10, &Confidence::new(85, 100)), 2);

    // round_half_up(0.2 * n)
    for n in 1..=2 {
        assert_eq!(get_num_to_exclude(n, &Confidence::new(8, 10)), 0);
    }
    for n in 3..=7 {
        assert_eq!(get_num_to_exclude(n, &Confidence::new(8, 10)), 1);
    }
    for n in 8..=10 {
        assert_eq!(get_num_to_exclude(n, &Confidence::new(8, 10)), 2);
    }
}

#[test]
fn raising_confidence_never_excludes_more() {
    let levels = [
        Confidence::new(0, 1),
        Confidence::new(1, 2),
        Confidence::new(4, 5),
        Confidence::new(85, 100),
        Confidence::new(9, 10),
        Confidence::new(95, 100),
        Confidence::new(1, 1),
    ];
    for n in 0..=20 {
        for w in levels.windows(2) {
            assert!(
                get_num_to_exclude(n, &w[1]) <= get_num_to_exclude(n, &w[0]),
                "exclusions rose between confidence levels at n = {}",
                n
            );
        }
    }
}

#[test]
fn trimming_drops_the_worst_comparison() {
    // the one comparison disagreeing on node 0 is the single outlier; if the
    // scorer failed to sort the comparisons by fit before trimming, it would
    // drop a perfectly agreeing one instead and return (39, 1)
    let (module, modules) = setup();
    let (score, penalty) = Scorer::new(10, 1).score(&module, &modules);
    assert_eq!(score, 40);
    assert_eq!(penalty, 0);
}

#[test]
fn no_comparisons_keep_the_whole_module() {
    // with no comparison at all, every node is vacuously in all of them
    let module = (0..4).collect::<HashSet<u32>>();
    let modules: Vec<HashSet<u32>> = Vec::new();

    let core = get_significant_core(&module, &modules, &Confidence::new(95, 100), 3);
    assert_eq!(core, module);
}

#[test]
fn an_empty_module_has_an_empty_core() {
    let module = HashSet::new();
    let modules = vec![(0..3).collect::<HashSet<u32>>()];

    let core = get_significant_core(&module, &modules, &Confidence::new(95, 100), 3);
    assert!(core.is_empty());
}
