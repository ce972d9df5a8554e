use rule_trie::is_sorted;
use rule_trie::Node;
use rule_trie::RuleMatches;

fn assert_siblings_sorted(node: &Node) {
    let mut i = 1usize;
    while i < node.children.len() {
        assert!(node.children[i - 1].item < node.children[i].item);
        i += 1;
    }
    for child in node.children.iter() {
        assert_siblings_sorted(child);
    }
}

#[test]
fn sibling_invariant_after_many_insertions() {
    let mut root = Node::new(0);
    root.insert(&[4, 8], 1);
    root.insert(&[1, 2, 3], 2);
    root.insert(&[4, 5], 3);
    root.insert(&[-2], 4);
    root.insert(&[4, 5], 5);
    root.insert(&[], 6);
    root.insert(&[1, 9], 7);
    assert_siblings_sorted(&root);
}

#[test]
fn node_match_appends_to_accumulator() {
    let mut root = Node::new(0);
    root.insert(&[2], 10);
    root.insert(&[], 11);
    let mut acc = vec![99];
    root.matches(&[2], &mut acc);
    assert_eq!(acc, vec![99, 11, 10]);
}

#[test]
fn is_sorted_accepts_nondecreasing_only() {
    assert!(is_sorted(&[]));
    assert!(is_sorted(&[3]));
    assert!(is_sorted(&[1, 1, 2]));
    assert!(is_sorted(&[-4, 0, 7]));
    assert!(!is_sorted(&[2, 1]));
    assert!(!is_sorted(&[1, 5, 4, 9]));
}

#[test]
fn rule_matches_container() {
    let m = RuleMatches::new(vec![3, 4, 3]);
    assert_eq!(m.len(), 3);
    assert_eq!(m.rule_id(0), 3);
    assert_eq!(m.rule_id(1), 4);
    assert_eq!(m.rule_id(2), 3);
}
