use label_maker::LabelMaker;

fn built(patterns: &[&str]) -> LabelMaker {
    let mut labeler = LabelMaker::new();
    for pattern in patterns {
        labeler.insert(pattern, pattern).unwrap();
    }
    labeler.finalize();
    labeler
}

/// The number of failure links to follow from `node` to the root.
fn hops_to_root(labeler: &LabelMaker, node: usize) -> usize {
    let mut hops = 0;
    let mut at = node;
    while let Some(next) = labeler.fail_link(at) {
        at = next;
        hops += 1;
        assert!(hops <= labeler.num_nodes(), "failure links run in a circle");
    }
    assert_eq!(at, 0);
    hops
}

#[test]
fn links_are_absent_before_finalization() {
    let mut labeler = LabelMaker::new();
    labeler.insert("abcd", "x").unwrap();
    labeler.insert("bc", "y").unwrap();
    for node in 0..labeler.num_nodes() {
        assert_eq!(labeler.fail_link(node), None);
    }
}

#[test]
fn links_lead_to_the_longest_proper_suffix() {
    // Nodes in order of creation:
    //   1 "a", 2 "ab", 3 "abc", 4 "abcd", 5 "b", 6 "bc".
    let labeler = built(&["abcd", "bc"]);
    assert_eq!(labeler.num_nodes(), 7);
    assert_eq!(labeler.fail_link(0), None);
    assert_eq!(labeler.fail_link(1), Some(0));
    assert_eq!(labeler.fail_link(2), Some(5));
    assert_eq!(labeler.fail_link(3), Some(6));
    assert_eq!(labeler.fail_link(4), Some(0));
    assert_eq!(labeler.fail_link(5), Some(0));
    assert_eq!(labeler.fail_link(6), Some(0));
}

#[test]
fn links_of_a_run_of_one_byte_step_back_by_one() {
    // Nodes: 1 "a", 2 "aa", 3 "aaa", 4 "aaaa".
    let labeler = built(&["aaaa"]);
    assert_eq!(labeler.fail_link(1), Some(0));
    assert_eq!(labeler.fail_link(2), Some(1));
    assert_eq!(labeler.fail_link(3), Some(2));
    assert_eq!(labeler.fail_link(4), Some(3));
    assert_eq!(hops_to_root(&labeler, 4), 4);
}

#[test]
fn links_of_the_classic_dictionary() {
    // Nodes: 1 "h", 2 "he", 3 "s", 4 "sh", 5 "she", 6 "hi", 7 "his",
    //        8 "her", 9 "hers".
    let labeler = built(&["he", "she", "his", "hers"]);
    assert_eq!(labeler.num_nodes(), 10);
    let expected = [
        None,
        Some(0),
        Some(0),
        Some(0),
        Some(1),
        Some(2),
        Some(0),
        Some(3),
        Some(0),
        Some(3),
    ];
    for (node, link) in expected.iter().enumerate() {
        assert_eq!(labeler.fail_link(node), *link, "node {}", node);
    }
}

#[test]
fn following_links_reaches_the_root_within_the_longest_pattern() {
    let patterns = [
        "abcabcabc",
        "bcabca",
        "cabcab",
        "abc",
        "aaaaaaaa",
        "aaab",
        "ba",
        "Tyrannosaurus rex",
    ];
    let longest = patterns.iter().map(|p| p.len()).max().unwrap();
    let labeler = built(&patterns);
    for node in 0..labeler.num_nodes() {
        assert!(hops_to_root(&labeler, node) <= longest);
    }
    assert_eq!(hops_to_root(&labeler, 0), 0);
}

#[test]
fn every_node_but_the_root_has_a_link_once_finalized() {
    let labeler = built(&["he", "she", "his", "hers", "ushers"]);
    assert_eq!(labeler.fail_link(0), None);
    for node in 1..labeler.num_nodes() {
        let link = labeler.fail_link(node);
        assert!(link.is_some());
        assert!(link.unwrap() < labeler.num_nodes());
        assert!(link.unwrap() != node);
    }
}
