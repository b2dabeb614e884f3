use jf_score::rank::rank;
use jf_score::rank::sort_by_distance;
use jf_score::score::ScoreRecord;

fn bag(entries: &[(&str, usize)]) -> Vec<ScoreRecord> {
    entries
        .iter()
        .map(|(id, d)| ScoreRecord { id: id.as_bytes().to_vec(), distance: *d })
        .collect()
}

#[test]
fn rank_keeps_min_of_k_and_bag_size() {
    let entries: [(&str, usize); 5] = [("a", 9), ("b", 1), ("c", 5), ("d", 3), ("e", 7)];
    assert_eq!(rank(bag(&entries), 3).len(), 3);
    assert_eq!(rank(bag(&entries), 5).len(), 5);
    assert_eq!(rank(bag(&entries), 10).len(), 5);
    assert_eq!(rank(bag(&entries), 0).len(), 0);
    assert_eq!(rank(Vec::new(), 4).len(), 0);
}

#[test]
fn rank_is_ascending_by_distance() {
    let entries: [(&str, usize); 6] = [("a", 9), ("b", 1), ("c", 5), ("d", 3), ("e", 7), ("f", 0)];
    let ranked = rank(bag(&entries), 6);
    let distances: Vec<usize> = ranked.iter().map(|r| r.distance).collect();
    assert_eq!(distances, vec![0, 1, 3, 5, 7, 9]);
    let ids: Vec<&[u8]> = ranked.iter().map(|r| r.id.as_slice()).collect();
    assert_eq!(ids, vec![b"f" as &[u8], b"b", b"d", b"c", b"e", b"a"]);
}

#[test]
fn selected_distances_bound_unselected_ones() {
    let entries: [(&str, usize); 7] =
        [("a", 4), ("b", 8), ("c", 2), ("d", 6), ("e", 2), ("f", 9), ("g", 5)];
    let selected = rank(bag(&entries), 3);
    let all_sorted = sort_by_distance(bag(&entries));
    let max_selected = selected.iter().map(|r| r.distance).max().unwrap();
    for rest in &all_sorted[3..] {
        assert!(max_selected <= rest.distance);
    }
}

#[test]
fn equal_distances_keep_input_order() {
    let entries: [(&str, usize); 5] = [("a", 3), ("b", 1), ("c", 3), ("d", 1), ("e", 3)];
    let ranked = rank(bag(&entries), 5);
    let ids: Vec<&[u8]> = ranked.iter().map(|r| r.id.as_slice()).collect();
    assert_eq!(ids, vec![b"b" as &[u8], b"d", b"a", b"c", b"e"]);
}
