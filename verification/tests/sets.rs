use sudoku::solver::sets::Subsets;

fn as_sorted(xs: &[u8]) -> Vec<u8> {
    let mut v = xs.to_vec();
    v.sort();
    v
}

fn contains_pair(csets: &[(Vec<u8>, Vec<u8>)], ks: &[u8], vs: &[u8]) -> bool {
    let ks = as_sorted(ks);
    let vs = as_sorted(vs);
    csets
        .iter()
        .any(|(k, v)| as_sorted(k) == ks && as_sorted(v) == vs)
}

#[test]
fn test_critical_set_order_1() {
    let mut ss = Subsets::new();
    ss.insert(1, 1);
    ss.insert(2, 2);
    ss.insert(2, 3);
    ss.insert(3, 3);
    let csets = ss.find_critical_sets(1);
    assert_eq!(csets.len(), 2);
    assert!(contains_pair(&csets, &[1], &[1]));
    assert!(contains_pair(&csets, &[3], &[3]));
}

#[test]
fn test_critical_set_order_2() {
    let mut ss = Subsets::new();
    ss.insert(1, 1);
    ss.insert(2, 2);
    ss.insert(2, 3);
    ss.insert(3, 2);
    ss.insert(3, 3);
    let csets = ss.find_critical_sets(2);
    assert_eq!(csets.len(), 1);
    assert!(contains_pair(&csets, &[2, 3], &[2, 3]));
}

#[test]
fn test_critical_set_order_3() {
    let mut ss = Subsets::new();
    ss.insert(1, 1);
    ss.insert(1, 2);
    ss.insert(2, 2);
    ss.insert(2, 3);
    ss.insert(3, 1);
    ss.insert(3, 3);
    ss.insert(4, 4);
    ss.insert(4, 5);
    ss.insert(5, 5);
    let csets = ss.find_critical_sets(3);
    assert_eq!(csets.len(), 1);
    assert!(contains_pair(&csets, &[1, 2, 3], &[1, 2, 3]));
}

#[test]
fn test_critical_set_reports_union_values() {
    // inserting the same value twice leaves the mapped set unchanged
    let mut ss = Subsets::new();
    ss.insert(7, 4);
    ss.insert(7, 4);
    ss.insert(7, 5);
    ss.insert(8, 5);
    ss.insert(8, 4);
    let csets = ss.find_critical_sets(2);
    assert_eq!(csets.len(), 1);
    assert!(contains_pair(&csets, &[7, 8], &[4, 5]));
    // neither key alone confines its two values
    assert!(ss.find_critical_sets(1).is_empty());
}

#[test]
fn test_critical_set_brute_force_order_2() {
    // all two-key subsets whose unions have exactly two members
    let mut ss = Subsets::new();
    ss.insert(1, 1);
    ss.insert(2, 1);
    ss.insert(3, 2);
    ss.insert(3, 3);
    ss.insert(4, 2);
    ss.insert(4, 3);
    let csets = ss.find_critical_sets(2);
    // {1,2} unions to the single value {1} and every mixed pair unions to
    // three values, so {3,4} is the one critical pair
    assert_eq!(csets.len(), 1);
    assert!(contains_pair(&csets, &[3, 4], &[2, 3]));
    assert!(!contains_pair(&csets, &[1, 2], &[1]));
}
