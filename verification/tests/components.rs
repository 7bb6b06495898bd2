use layer_classifier::closure::{relax_all, relax_via, update_distances};
use layer_classifier::distances::{join_hops, DistanceMatrix, MAX_DISTANCE};
use layer_classifier::grouping::{distinct_levels, group_by_layer, members_of, normalize};
use layer_classifier::placement::{assign_layers, is_complete, place, sweep_entries};
use layer_classifier::registry::find_entity;
use layer_classifier::scoring::{count_connections, reference_score, select_reference};
use layer_classifier::text::name_less;

fn matrix(n: usize, entries: &[(usize, usize, i32)]) -> DistanceMatrix {
    let mut m = DistanceMatrix::new();
    for _ in 0..n {
        m.grow();
    }
    for &(i, j, d) in entries {
        m.put(i, j, d);
    }
    m
}

fn entries_of(m: &DistanceMatrix) -> Vec<(usize, usize, i32)> {
    let n = m.entity_count();
    let mut found = Vec::new();
    for i in 0..n {
        for j in 0..n {
            if let Some(d) = m.get(i, j) {
                found.push((i, j, d));
            }
        }
    }
    found
}

fn strings(items: &[&str]) -> Vec<String> {
    items.iter().map(|s| s.to_string()).collect()
}

#[test]
fn name_order_is_lexicographic() {
    assert!(name_less("a", "b"));
    assert!(!name_less("b", "a"));
    assert!(name_less("a", "ab"));
    assert!(!name_less("ab", "a"));
    assert!(name_less("", "a"));
    assert!(!name_less("a", ""));
    assert!(!name_less("", ""));
    assert!(!name_less("same", "same"));
    assert!(name_less("Z", "a"));
    assert!(name_less("abc", "abd"));
    assert!(name_less("ab", "b"));
    assert!(name_less("10", "9"));
}

#[test]
fn name_order_follows_code_points() {
    assert!(name_less("z", "\u{e9}"));
    assert!(!name_less("\u{e9}", "z"));
    assert!(name_less("\u{e9}", "\u{4e2d}"));
    assert!(name_less("\u{ffff}", "\u{10000}"));
    assert!(name_less("a\u{e9}", "a\u{e9}a"));
}

#[test]
fn name_order_agrees_with_string_order() {
    let samples = ["", "a", "A", "ab", "b", "\u{e9}", "\u{4e2d}", "\u{1f600}", "a\u{2192}b", "~"];
    for x in samples {
        for y in samples {
            assert_eq!(name_less(x, y), x < y);
        }
    }
}

#[test]
fn hop_sums_are_capped() {
    assert_eq!(join_hops(2, 3), 5);
    assert_eq!(join_hops(0, 0), 0);
    assert_eq!(join_hops(MAX_DISTANCE, 1), MAX_DISTANCE);
    assert_eq!(join_hops(MAX_DISTANCE - 1, 1), MAX_DISTANCE);
    assert_eq!(join_hops(MAX_DISTANCE - 2, 1), MAX_DISTANCE - 1);
    assert_eq!(join_hops(MAX_DISTANCE, MAX_DISTANCE), MAX_DISTANCE);
    assert_eq!(MAX_DISTANCE, i32::MAX);
}

#[test]
fn new_matrix_is_empty() {
    let m = DistanceMatrix::new();
    assert_eq!(m.entity_count(), 0);
    assert_eq!(m.entry_count(), 0);
}

#[test]
fn growing_keeps_entries() {
    let mut m = matrix(2, &[(0, 1, 4)]);
    assert_eq!(m.entity_count(), 2);
    m.grow();
    assert_eq!(m.entity_count(), 3);
    assert_eq!(m.get(0, 1), Some(4));
    assert_eq!(m.get(0, 2), None);
    assert_eq!(m.get(2, 0), None);
    assert_eq!(m.get(2, 2), None);
    assert_eq!(m.entry_count(), 1);
}

#[test]
fn put_replaces_what_was_recorded() {
    let mut m = matrix(3, &[(0, 1, 4), (1, 2, 1)]);
    assert_eq!(m.entry_count(), 2);
    m.put(0, 1, 1);
    assert_eq!(m.get(0, 1), Some(1));
    assert_eq!(m.get(1, 0), None);
    assert_eq!(m.entry_count(), 2);
    m.put(2, 2, 7);
    assert_eq!(m.entry_count(), 3);
    assert_eq!(entries_of(&m), vec![(0, 1, 1), (1, 2, 1), (2, 2, 7)]);
}

#[test]
fn relaxing_through_one_entity() {
    let mut m = matrix(4, &[(0, 1, 1), (1, 2, 1), (2, 3, 1)]);
    assert!(relax_via(&mut m, 1));
    assert_eq!(entries_of(&m), vec![(0, 1, 1), (0, 2, 2), (1, 2, 1), (2, 3, 1)]);
    assert!(!relax_via(&mut m, 1));
    assert!(!relax_via(&mut m, 0));
    assert!(relax_via(&mut m, 2));
    assert_eq!(
        entries_of(&m),
        vec![(0, 1, 1), (0, 2, 2), (0, 3, 3), (1, 2, 1), (1, 3, 2), (2, 3, 1)]
    );
}

#[test]
fn relaxing_keeps_the_larger_distance() {
    let mut m = matrix(3, &[(0, 1, 2), (1, 2, 3), (0, 2, 9)]);
    assert!(!relax_via(&mut m, 1));
    assert_eq!(m.get(0, 2), Some(9));
    m.put(0, 2, 4);
    assert!(relax_via(&mut m, 1));
    assert_eq!(m.get(0, 2), Some(5));
    m.put(0, 2, 5);
    assert!(!relax_via(&mut m, 1));
}

#[test]
fn relaxing_skips_pairs_that_are_not_distinct() {
    // i == j, i == k and j == k are all left alone
    let mut m = matrix(2, &[(0, 1, 1), (1, 0, 1), (0, 0, 1)]);
    assert!(!relax_via(&mut m, 0));
    assert!(!relax_via(&mut m, 1));
    assert!(!relax_all(&mut m));
    assert_eq!(entries_of(&m), vec![(0, 0, 1), (0, 1, 1), (1, 0, 1)]);
}

#[test]
fn relaxed_distances_are_capped() {
    let mut m = matrix(3, &[(0, 1, MAX_DISTANCE), (1, 2, 5)]);
    assert!(relax_via(&mut m, 1));
    assert_eq!(m.get(0, 2), Some(MAX_DISTANCE));
    assert!(!relax_via(&mut m, 1));
}

#[test]
fn one_pass_closes_a_chain() {
    let mut m = matrix(4, &[(0, 1, 1), (1, 2, 1), (2, 3, 1)]);
    assert!(relax_all(&mut m));
    assert_eq!(
        entries_of(&m),
        vec![(0, 1, 1), (0, 2, 2), (0, 3, 3), (1, 2, 1), (1, 3, 2), (2, 3, 1)]
    );
    assert!(!relax_all(&mut m));
}

#[test]
fn a_pass_uses_what_it_has_just_raised() {
    // entities in an order in which the first intermediate sees nothing yet
    let mut m = matrix(4, &[(3, 0, 1), (0, 2, 1), (2, 1, 1)]);
    assert!(relax_all(&mut m));
    assert_eq!(m.get(3, 2), Some(2));
    assert_eq!(m.get(0, 1), Some(2));
    assert_eq!(m.get(3, 1), Some(3));
}

#[test]
fn closure_stops_after_one_pass_per_entity() {
    // A three-cycle never settles: each pass raises it, and there are three passes.
    let mut by_hand = matrix(3, &[(0, 1, 1), (1, 2, 1), (2, 0, 1)]);
    let mut closed = matrix(3, &[(0, 1, 1), (1, 2, 1), (2, 0, 1)]);
    for _ in 0..3 {
        assert!(relax_all(&mut by_hand));
    }
    update_distances(&mut closed);
    assert_eq!(entries_of(&closed), entries_of(&by_hand));
    assert!(relax_all(&mut closed));
}

#[test]
fn closure_of_a_closed_map_changes_nothing() {
    let mut m = matrix(3, &[(0, 1, 1), (1, 2, 1), (0, 2, 2)]);
    update_distances(&mut m);
    assert_eq!(entries_of(&m), vec![(0, 1, 1), (0, 2, 2), (1, 2, 1)]);
    let mut none = DistanceMatrix::new();
    update_distances(&mut none);
    assert_eq!(none.entry_count(), 0);
}

#[test]
fn closure_never_lowers_a_distance() {
    let mut m = matrix(4, &[(0, 1, 6), (1, 2, 1), (0, 2, 2), (2, 3, 1), (3, 1, 1)]);
    let before = entries_of(&m);
    update_distances(&mut m);
    for (i, j, d) in before {
        assert!(m.get(i, j).unwrap() >= d);
    }
}

#[test]
fn connections_are_counted_per_record() {
    let links = vec![(0, 1), (1, 2), (0, 1), (2, 2)];
    assert_eq!(count_connections(&links, 3), vec![2, 3, 2]);
    assert_eq!(count_connections(&links, 0), Vec::<usize>::new());
    assert_eq!(count_connections(&Vec::new(), 2), vec![0, 0]);
}

#[test]
fn score_sums_the_counts_at_the_other_end() {
    let links = vec![(0, 1), (1, 2), (0, 1), (2, 2)];
    let counts = count_connections(&links, 3);
    assert_eq!(reference_score(&links, &counts, 0), (2, 6));
    assert_eq!(reference_score(&links, &counts, 1), (3, 6));
    assert_eq!(reference_score(&links, &counts, 2), (2, 5));
}

#[test]
fn reference_is_the_first_of_the_best() {
    assert_eq!(select_reference(&vec![(0, 1), (1, 2), (2, 3)], 4), 1);
    assert_eq!(select_reference(&vec![(0, 1)], 2), 0);
    assert_eq!(select_reference(&vec![(0, 0)], 1), 0);
    assert_eq!(select_reference(&vec![(0, 1), (2, 3), (3, 4)], 5), 3);
    // equal first parts: the second part decides
    assert_eq!(select_reference(&vec![(0, 1), (1, 2), (3, 4), (4, 5), (5, 6)], 7), 4);
}

#[test]
fn an_entry_places_the_unplaced_end() {
    let mut layers = vec![Some(5), None, None];
    assert!(place(&mut layers, 0, 1, 3));
    assert_eq!(layers, vec![Some(5), Some(8), None]);
    assert!(place(&mut layers, 2, 0, 7));
    assert_eq!(layers, vec![Some(5), Some(8), Some(-2)]);
}

#[test]
fn an_entry_raises_but_never_lowers() {
    let mut layers = vec![Some(0), Some(1)];
    assert!(place(&mut layers, 0, 1, 4));
    assert_eq!(layers, vec![Some(0), Some(4)]);
    assert!(!place(&mut layers, 0, 1, 4));
    assert!(!place(&mut layers, 0, 1, 2));
    assert_eq!(layers, vec![Some(0), Some(4)]);
    // the source is never moved once both are placed
    assert!(place(&mut layers, 1, 0, 1));
    assert_eq!(layers, vec![Some(5), Some(4)]);
}

#[test]
fn an_entry_between_unplaced_entities_does_nothing() {
    let mut layers = vec![None, None, Some(1)];
    assert!(!place(&mut layers, 0, 1, 1));
    assert_eq!(layers, vec![None, None, Some(1)]);
}

#[test]
fn an_entry_from_an_entity_to_itself_does_nothing() {
    let mut layers = vec![Some(3), None];
    assert!(!place(&mut layers, 0, 0, 1));
    assert!(!place(&mut layers, 1, 1, 1));
    assert_eq!(layers, vec![Some(3), None]);
}

#[test]
fn layers_stay_within_their_range() {
    let mut high = vec![Some(i64::MAX - 1), None];
    assert!(place(&mut high, 0, 1, 5));
    assert_eq!(high, vec![Some(i64::MAX - 1), Some(i64::MAX)]);
    let mut low = vec![None, Some(i64::MIN + 2)];
    assert!(place(&mut low, 0, 1, 5));
    assert_eq!(low, vec![Some(i64::MIN), Some(i64::MIN + 2)]);
    let mut top = vec![Some(i64::MAX), Some(i64::MAX)];
    assert!(!place(&mut top, 0, 1, 1));
}

#[test]
fn a_sweep_visits_the_entries_row_by_row() {
    // (0,1) is visited before (2,0): entity 1 is placed from 0, then 2 from 0
    let m = matrix(3, &[(0, 1, 1), (2, 0, 2), (1, 2, 5)]);
    let mut layers = vec![Some(0), None, None];
    assert!(sweep_entries(&m, &mut layers));
    // row 0: 1 -> 1; row 1: 2 -> 1 + 5 = 6; row 2: both placed, 0 raised to 6 + 2 = 8
    assert_eq!(layers, vec![Some(8), Some(1), Some(6)]);
}

#[test]
fn a_sweep_over_settled_layers_reports_no_progress() {
    let m = matrix(3, &[(0, 1, 1), (1, 2, 1), (0, 2, 2)]);
    let mut layers = vec![Some(0), None, None];
    assert!(sweep_entries(&m, &mut layers));
    assert_eq!(layers, vec![Some(0), Some(1), Some(2)]);
    assert!(!sweep_entries(&m, &mut layers));
    let mut apart = vec![None, None, None];
    assert!(!sweep_entries(&m, &mut apart));
}

#[test]
fn completeness_of_a_placement() {
    assert!(is_complete(&vec![]));
    assert!(is_complete(&vec![Some(0), Some(-4)]));
    assert!(!is_complete(&vec![Some(0), None]));
    assert!(!is_complete(&vec![None]));
}

#[test]
fn layers_are_propagated_from_the_reference() {
    let m = matrix(4, &[(0, 1, 1), (1, 2, 1), (2, 3, 1), (0, 2, 2), (1, 3, 2), (0, 3, 3)]);
    assert_eq!(assign_layers(&m, 1), vec![-1, 0, 1, 2]);
    assert_eq!(assign_layers(&m, 0), vec![0, 1, 2, 3]);
    assert_eq!(assign_layers(&m, 3), vec![-3, -2, -1, 0]);
}

#[test]
fn unreached_entities_get_layer_zero() {
    let m = matrix(5, &[(0, 1, 2), (3, 4, 1)]);
    assert_eq!(assign_layers(&m, 0), vec![0, 2, 0, 0, 0]);
    assert_eq!(assign_layers(&m, 4), vec![0, 0, 0, -1, 0]);
    assert_eq!(assign_layers(&m, 2), vec![0, 0, 0, 0, 0]);
}

#[test]
fn propagation_stops_once_every_entity_is_placed() {
    // After the first sweep all three are placed, so the conflict between
    // (0,2) = 1 and the path over 1 is settled only as far as that sweep went.
    let m = matrix(3, &[(0, 2, 1), (1, 2, 1), (0, 1, 5)]);
    assert_eq!(assign_layers(&m, 0), vec![0, 5, 6]);
    let n = matrix(3, &[(0, 1, 1), (1, 2, 1), (2, 0, 5)]);
    // row 0 places 1 at 1; row 1 places 2 at 2; row 2 raises 0 to 7; all placed
    assert_eq!(assign_layers(&n, 0), vec![7, 1, 2]);
}

#[test]
fn propagation_gives_up_after_the_square_of_the_entities() {
    let m = matrix(3, &[(0, 1, 1), (1, 0, 1)]);
    // nine sweeps; each raises entity 1 to one above 0, then 0 to one above 1
    assert_eq!(assign_layers(&m, 0), vec![18, 17, 0]);
}

#[test]
fn normalising_shifts_negative_layers_only() {
    assert_eq!(normalize(&vec![-1, 0, 1, 2]), vec![0, 1, 2, 3]);
    assert_eq!(normalize(&vec![0, 1, 2]), vec![0, 1, 2]);
    assert_eq!(normalize(&vec![3, 5, 4]), vec![3, 5, 4]);
    assert_eq!(normalize(&vec![-7]), vec![0]);
    assert_eq!(normalize(&vec![]), Vec::<u64>::new());
    assert_eq!(normalize(&vec![2, -3, -3, 0]), vec![5, 0, 0, 3]);
}

#[test]
fn normalising_covers_the_whole_range() {
    assert_eq!(normalize(&vec![i64::MIN, i64::MAX, 0]), vec![0, u64::MAX, 1 << 63]);
    assert_eq!(normalize(&vec![i64::MAX, 1]), vec![i64::MAX as u64, 1]);
}

#[test]
fn levels_are_distinct_and_ascending() {
    assert_eq!(distinct_levels(&vec![3, 1, 3, 0, 1, 7]), vec![0, 1, 3, 7]);
    assert_eq!(distinct_levels(&vec![]), Vec::<u64>::new());
    assert_eq!(distinct_levels(&vec![5, 5, 5]), vec![5]);
    assert_eq!(distinct_levels(&vec![u64::MAX, 0]), vec![0, u64::MAX]);
}

#[test]
fn members_of_a_level_are_sorted_by_name() {
    let names = strings(&["pear", "fig", "apple", "kiwi", "date"]);
    let positions = vec![1, 0, 1, 1, 0];
    assert_eq!(members_of(&names, &positions, 1), vec![2, 3, 0]);
    assert_eq!(members_of(&names, &positions, 0), vec![4, 1]);
    assert_eq!(members_of(&names, &positions, 2), Vec::<usize>::new());
}

#[test]
fn grouping_orders_buckets_and_names() {
    let names = strings(&["pear", "fig", "apple", "kiwi", "date"]);
    let positions = vec![4, 0, 4, 2, 0];
    assert_eq!(
        group_by_layer(&names, &positions),
        vec![strings(&["date", "fig"]), strings(&["kiwi"]), strings(&["apple", "pear"])]
    );
    assert_eq!(group_by_layer(&Vec::new(), &Vec::new()), Vec::<Vec<String>>::new());
}

#[test]
fn finding_an_entity_by_name() {
    let names = strings(&["b", "a", ""]);
    assert_eq!(find_entity(&names, &"b".to_string()), Some(0));
    assert_eq!(find_entity(&names, &"a".to_string()), Some(1));
    assert_eq!(find_entity(&names, &"".to_string()), Some(2));
    assert_eq!(find_entity(&names, &"c".to_string()), None);
    assert_eq!(find_entity(&Vec::new(), &"a".to_string()), None);
}
