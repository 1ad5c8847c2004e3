use permu::borda::borda;

#[test]
fn borda_of_identical_members_is_the_member() {
    let p = vec![2, 0, 3, 1];
    for copies in 1..=5 {
        let pop = vec![p.clone(); copies];
        assert_eq!(borda(pop), p);
    }
}

#[test]
fn borda_mixed_population() {
    // summed ranks: item 0 -> 0+1, item 1 -> 1+0, item 2 -> 2+2
    let pop = vec![vec![0, 1, 2], vec![1, 0, 2]];
    assert_eq!(borda(pop), vec![0, 1, 2]);
}

#[test]
fn borda_breaks_ties_by_item_value() {
    // summed ranks: item 0 -> 0+1 = 1, item 1 -> 2+2 = 4, item 2 -> 1+0 = 1
    let pop = vec![vec![0, 2, 1], vec![2, 0, 1]];
    assert_eq!(borda(pop), vec![0, 2, 1]);
}

#[test]
fn borda_dominant_member_order_wins() {
    // two votes put 1 first, one puts 0 first
    let pop = vec![vec![1, 0], vec![1, 0], vec![0, 1]];
    assert_eq!(borda(pop), vec![1, 0]);
}

#[test]
fn borda_single_item() {
    assert_eq!(borda(vec![vec![0], vec![0]]), vec![0]);
}
