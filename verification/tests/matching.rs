use rule_trie::RuleTree;

#[test]
fn it_works() {
    let mut tree = RuleTree::new();
    tree.insert(&[1, 2, 3, 4], 1);
    tree.insert(&[2, 3, 4], 2);
    let m = tree.matches(&[1, 2, 3, 4, 5, 6]);
    assert!(m.len() == 2)
}

fn collected(m: &rule_trie::RuleMatches) -> Vec<i32> {
    let mut out = Vec::new();
    let mut i = 0usize;
    while i < m.len() {
        out.push(m.rule_id(i));
        i += 1;
    }
    out
}

#[test]
fn scenario_two_rules() {
    let mut tree = RuleTree::new();
    tree.insert(&[1, 2, 3, 4], 1);
    tree.insert(&[2, 3, 4], 2);

    let m = tree.matches(&[1, 2, 3, 4, 5, 6]);
    let mut ids = collected(&m);
    ids.sort();
    assert_eq!(ids, vec![1, 2]);

    let m = tree.matches(&[2, 3, 4]);
    assert_eq!(collected(&m), vec![2]);

    let m = tree.matches(&[1, 2, 3]);
    assert_eq!(m.len(), 0);

    let m = tree.matches(&[]);
    assert_eq!(m.len(), 0);
}

#[test]
fn empty_antecedent_matches_every_query() {
    let mut tree = RuleTree::new();
    tree.insert(&[], 5);
    let m = tree.matches(&[]);
    assert_eq!(collected(&m), vec![5]);
    let m = tree.matches(&[7, 9]);
    assert_eq!(collected(&m), vec![5]);
    let m = tree.matches(&[-3, 0, 11]);
    assert_eq!(collected(&m), vec![5]);
}

#[test]
fn duplicate_insert_reported_twice() {
    let mut tree = RuleTree::new();
    tree.insert(&[1, 2], 9);
    tree.insert(&[1, 2], 9);
    let m = tree.matches(&[1, 2, 3]);
    assert_eq!(collected(&m), vec![9, 9]);
}

#[test]
fn same_rule_under_two_antecedents() {
    let mut tree = RuleTree::new();
    tree.insert(&[1], 7);
    tree.insert(&[2], 7);
    let m = tree.matches(&[1, 2]);
    assert_eq!(collected(&m), vec![7, 7]);
}

#[test]
fn non_subset_is_not_reported() {
    let mut tree = RuleTree::new();
    tree.insert(&[1, 3], 7);
    assert_eq!(tree.matches(&[1, 2]).len(), 0);
    assert_eq!(tree.matches(&[3]).len(), 0);
    assert_eq!(collected(&tree.matches(&[1, 3])), vec![7]);
    assert_eq!(collected(&tree.matches(&[0, 1, 3, 9])), vec![7]);
}

#[test]
fn insertion_order_is_irrelevant() {
    let rules: [(&[i32], i32); 5] = [
        (&[1, 2, 3, 4], 1),
        (&[2, 3, 4], 2),
        (&[2, 3], 3),
        (&[], 4),
        (&[4], 5),
    ];
    let mut forward = RuleTree::new();
    for (antecedent, id) in rules.iter() {
        forward.insert(antecedent, *id);
    }
    let mut backward = RuleTree::new();
    for (antecedent, id) in rules.iter().rev() {
        backward.insert(antecedent, *id);
    }
    let queries: [&[i32]; 5] = [&[1, 2, 3, 4, 5, 6], &[2, 3, 4], &[1, 2, 3], &[], &[4]];
    for q in queries.iter() {
        let mut a = collected(&forward.matches(q));
        let mut b = collected(&backward.matches(q));
        a.sort();
        b.sort();
        assert_eq!(a, b);
    }
}

#[test]
fn negative_items_are_ordinary_items() {
    let mut tree = RuleTree::new();
    tree.insert(&[-5, 0, 3], 1);
    tree.insert(&[-5], 2);
    let m = tree.matches(&[-5, -1, 0, 3]);
    let mut ids = collected(&m);
    ids.sort();
    assert_eq!(ids, vec![1, 2]);
    assert_eq!(collected(&tree.matches(&[0, 3])), Vec::<i32>::new());
}
