use std::collections::HashSet;

use significance_clustering::network::{Network, Module};
use significance_clustering::output::{collect_node_rows, format_rows, NodeRow};
use significance_clustering::similarity::get_most_similar_modules;

fn module_with(id: &[u8], nodes: &[u32]) -> Module {
    let mut m = Module::new(id);
    for &n in nodes {
        m.nodes.insert(n);
    }
    m
}

#[test]
fn nearest_module_maximises_the_jaccard_index() {
    let first = Network {
        modules: vec![module_with(b"1", &[0, 1, 2, 3]), module_with(b"2", &[7, 8])],
    };
    let rest = vec![
        Network {
            modules: vec![
                module_with(b"1", &[0, 1]),
                module_with(b"2", &[0, 1, 2, 3]),
                module_with(b"3", &[7, 8, 9]),
            ],
        },
        Network { modules: vec![module_with(b"1", &[5, 6])] },
    ];

    let matches = get_most_similar_modules(&first, &rest);
    assert_eq!(matches.len(), 2);
    // module "1": index 1 of the first network matches exactly; the second
    // network only offers a disjoint module
    assert_eq!(matches[0], vec![(0, 1), (1, 0)]);
    // module "2": index 2 of the first network is nearest
    assert_eq!(matches[1], vec![(0, 2), (1, 0)]);
}

#[test]
fn distance_ties_go_to_the_earliest_module() {
    let first = Network { modules: vec![module_with(b"1", &[0, 1])] };
    let rest = vec![Network {
        modules: vec![
            module_with(b"1", &[0, 9]),
            module_with(b"2", &[1, 9]),
        ],
    }];

    let matches = get_most_similar_modules(&first, &rest);
    assert_eq!(matches[0], vec![(0, 0)]);
}

#[test]
fn networks_without_modules_are_skipped() {
    let first = Network { modules: vec![module_with(b"1", &[0])] };
    let rest = vec![
        Network { modules: vec![] },
        Network { modules: vec![module_with(b"1", &[0])] },
    ];

    let matches = get_most_similar_modules(&first, &rest);
    assert_eq!(matches[0], vec![(1, 0)]);
}

#[test]
fn rows_pair_levels_with_significance() {
    let modules = vec![
        module_with(b"1", &[0, 1]),
        module_with(b"1:1", &[0]),
        module_with(b"2", &[5]),
    ];
    let cores: Vec<HashSet<u32>> = vec![
        [0].iter().copied().collect(),
        [0].iter().copied().collect(),
        HashSet::new(),
    ];

    let rows = collect_node_rows(&modules, &cores);
    assert_eq!(rows.len(), 3);

    // ordered by top module number, then node
    assert_eq!(rows[0].node, 0);
    assert_eq!(rows[0].entries, vec![(1, 1, true), (2, 1, true)]);
    assert_eq!(rows[1].node, 1);
    assert_eq!(rows[1].entries, vec![(1, 1, false)]);
    assert_eq!(rows[2].node, 5);
    assert_eq!(rows[2].entries, vec![(1, 2, false)]);
}

#[test]
fn later_modules_override_equal_levels() {
    let modules = vec![
        module_with(b"3", &[0]),
        module_with(b"4", &[0]),
    ];
    let cores: Vec<HashSet<u32>> = vec![HashSet::new(), [0].iter().copied().collect()];

    let rows = collect_node_rows(&modules, &cores);
    assert_eq!(rows.len(), 1);
    assert_eq!(rows[0].entries, vec![(1, 4, true)]);
}

#[test]
fn rows_lay_out_as_result_lines() {
    let rows = vec![
        NodeRow { node: 4, entries: vec![(1, 12, true), (2, 3, false), (3, 7, true)] },
        NodeRow { node: 10, entries: vec![(1, 2, false)] },
    ];
    let text = format_rows(&rows);
    assert_eq!(String::from_utf8(text).unwrap(), "12:3;7 4\n2; 10\n");
}
