use find_path::frontier::Frontier;

#[test]
fn frontier_pops_by_distance_then_node() {
    let mut f = Frontier::new();
    for e in [(5u128, 2usize), (3, 9), (5, 1), (0, 4), (3, 7), (8, 0)] {
        f.push(e);
    }
    let mut out = Vec::new();
    while let Some(e) = f.pop() {
        out.push(e);
    }
    assert_eq!(out, vec![(0, 4), (3, 7), (3, 9), (5, 1), (5, 2), (8, 0)]);
}

#[test]
fn frontier_keeps_duplicates_and_empties() {
    let mut f = Frontier::new();
    assert_eq!(f.pop(), None);
    f.push((1, 1));
    f.push((1, 1));
    assert_eq!(f.pop(), Some((1, 1)));
    assert_eq!(f.pop(), Some((1, 1)));
    assert_eq!(f.pop(), None);
}
