use significance_clustering::network::{read_input, Module, Network, ParseError};
use significance_clustering::parse::{parse_u32, path_prefixes, split_columns, split_lines};

#[test]
fn lines_split_at_line_feeds() {
    let lines = split_lines(b"a b\nc\r\n\nd");
    let views: Vec<&[u8]> = lines.iter().map(|l| l.as_slice()).collect();
    assert_eq!(views, vec![b"a b".as_slice(), b"c".as_slice(), b"".as_slice(), b"d".as_slice()]);
}

#[test]
fn columns_split_at_whitespace_runs() {
    let cols = split_columns(b"  12 \t 1:2:3  4:5 ");
    let views: Vec<&[u8]> = cols.iter().map(|c| c.as_slice()).collect();
    assert_eq!(views, vec![b"12".as_slice(), b"1:2:3".as_slice(), b"4:5".as_slice()]);
}

#[test]
fn decimal_parsing_matches_the_standard_rules() {
    assert_eq!(parse_u32(b"0"), Some(0));
    assert_eq!(parse_u32(b"123"), Some(123));
    assert_eq!(parse_u32(b"+7"), Some(7));
    assert_eq!(parse_u32(b"4294967295"), Some(u32::MAX));
    assert_eq!(parse_u32(b"4294967296"), None);
    assert_eq!(parse_u32(b""), None);
    assert_eq!(parse_u32(b"+"), None);
    assert_eq!(parse_u32(b"-1"), None);
    assert_eq!(parse_u32(b"12a"), None);
}

#[test]
fn paths_expand_to_every_level() {
    let prefixes = path_prefixes(b"1:2:3");
    let views: Vec<&[u8]> = prefixes.iter().map(|p| p.as_slice()).collect();
    assert_eq!(views, vec![b"1".as_slice(), b"1:2".as_slice(), b"1:2:3".as_slice()]);
}

#[test]
fn modules_take_level_and_number_from_the_path() {
    let m = Module::new(b"4:17:9");
    assert_eq!(m.module_id, b"4:17:9".to_vec());
    assert_eq!(m.level, 3);
    assert_eq!(m.module, 9);
    assert_eq!(m.nodes.len(), 0);

    // an unreadable last component falls back to zero
    let m = Module::new(b"4:abc");
    assert_eq!(m.level, 2);
    assert_eq!(m.module, 0);
}

#[test]
fn networks_deduplicate_module_paths() {
    let mut n = Network::new();
    n.add_node(b"1", 10);
    n.add_node(b"1:2", 10);
    n.add_node(b"1", 11);
    assert_eq!(n.modules.len(), 2);
    assert_eq!(n.modules[0].module_id, b"1".to_vec());
    assert!(n.modules[0].nodes.contains(&10));
    assert!(n.modules[0].nodes.contains(&11));
    assert_eq!(n.modules[1].module_id, b"1:2".to_vec());
    assert!(n.modules[1].nodes.contains(&10));
    assert!(!n.modules[1].nodes.contains(&11));
}

#[test]
fn input_lines_build_one_network_per_partition_column() {
    let input = "# a comment line\n1 1:1 2\n2 1:2 2\n3 2 1\nlonely\n";
    let networks = read_input(input).unwrap();
    assert_eq!(networks.len(), 2);

    // first partition: modules 1, 1:1, 1:2, 2 in first-seen order
    let first = &networks[0];
    assert_eq!(first.modules.len(), 4);
    assert_eq!(first.modules[0].module_id, b"1".to_vec());
    assert!(first.modules[0].nodes.contains(&1));
    assert!(first.modules[0].nodes.contains(&2));
    assert!(!first.modules[0].nodes.contains(&3));
    assert_eq!(first.modules[1].module_id, b"1:1".to_vec());
    assert!(first.modules[1].nodes.contains(&1));
    assert_eq!(first.modules[2].module_id, b"1:2".to_vec());
    assert!(first.modules[2].nodes.contains(&2));
    assert_eq!(first.modules[3].module_id, b"2".to_vec());
    assert!(first.modules[3].nodes.contains(&3));

    // second partition: modules 2 and 1
    let second = &networks[1];
    assert_eq!(second.modules.len(), 2);
    assert_eq!(second.modules[0].module_id, b"2".to_vec());
    assert!(second.modules[0].nodes.contains(&1));
    assert!(second.modules[0].nodes.contains(&2));
    assert_eq!(second.modules[1].module_id, b"1".to_vec());
    assert!(second.modules[1].nodes.contains(&3));
}

#[test]
fn a_bad_node_identifier_stops_the_read() {
    match read_input("x 1:1 2\n") {
        Ok(_) => panic!("a non-numeric node column was accepted"),
        Err(err) => assert_eq!(err, ParseError),
    }
}
