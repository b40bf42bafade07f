use dat_cli::number_set::NumberSet;
use dat_cli::sufficient_coverage_set::{
    does_ticket_cover_target, evaluate_sufficient_coverage, get_combinations, is_covered, ItemSet,
    SufficientCoverageProblemSet, TargetCoverage,
};

fn number_set(elems: &[u32]) -> NumberSet {
    NumberSet::from_vec(&elems.to_vec())
}

fn item_set(tickets: Vec<Vec<u32>>, numbers: Vec<u32>, k: u32, expected: bool) -> ItemSet {
    ItemSet {
        tickets,
        target_coverage: TargetCoverage {
            numbers,
            min_numbers_to_cover: k,
        },
        expected,
    }
}

fn combos_as_vecs(numbers: &[u32], k: usize) -> Vec<Vec<u32>> {
    get_combinations(&number_set(numbers), k)
        .iter()
        .map(|c| c.as_sorted_vec())
        .collect()
}

#[test]
fn generate_k1_gives_one_singleton_per_element() {
    let combos = combos_as_vecs(&[5, 1, 9], 1);
    assert_eq!(combos.len(), 3);
    assert_eq!(combos, vec![vec![1], vec![5], vec![9]]);
}

#[test]
fn generate_k_equal_size_gives_the_whole_set() {
    let combos = combos_as_vecs(&[4, 2, 7], 3);
    assert_eq!(combos, vec![vec![2, 4, 7]]);
}

#[test]
fn generate_k_above_size_gives_nothing() {
    assert!(combos_as_vecs(&[1, 2, 3], 4).is_empty());
    assert!(combos_as_vecs(&[], 1).is_empty());
}

#[test]
fn generate_k0_gives_nothing() {
    assert!(combos_as_vecs(&[1, 2, 3], 0).is_empty());
    assert!(combos_as_vecs(&[], 0).is_empty());
}

#[test]
fn generate_combos_are_distinct_k_sized_subsets() {
    let universe = [1u32, 2, 3, 4];
    let combos = combos_as_vecs(&universe, 2);
    assert_eq!(combos.len(), 6);
    for c in &combos {
        assert_eq!(c.len(), 2);
        assert!(c.iter().all(|x| universe.contains(x)));
    }
    for i in 0..combos.len() {
        for j in i + 1..combos.len() {
            assert_ne!(combos[i], combos[j]);
        }
    }
}

#[test]
fn generate_is_deterministic() {
    assert_eq!(combos_as_vecs(&[3, 1, 2], 2), combos_as_vecs(&[1, 2, 3], 2));
}

#[test]
fn covered_is_monotone_in_the_ticket() {
    // {1,2} is covered by the lone ticket {1,3} through the implied rule:
    // the shared 1 plus the substitute {3} drawn from the rest of {1,2,3}.
    let combo = number_set(&[1, 2]);
    let all = number_set(&[1, 2, 3]);
    let small = vec![number_set(&[1, 3])];
    let large = vec![number_set(&[1, 2, 3])];
    assert!(is_covered(&combo, &small, &all, 2));
    assert!(is_covered(&combo, &large, &all, 2));
}

#[test]
fn no_ticket_means_nothing_is_covered() {
    let combo = number_set(&[1]);
    let all = number_set(&[1, 2]);
    assert!(!is_covered(&combo, &vec![], &all, 1));
}

#[test]
fn direct_coverage_needs_a_superset_ticket() {
    let combo = number_set(&[1, 4]);
    let all = number_set(&[1, 2, 3, 4]);
    // No shared number with {2,3}: neither tier applies.
    assert!(!is_covered(&combo, &vec![number_set(&[2, 3])], &all, 2));
    assert!(is_covered(&combo, &vec![number_set(&[1, 2, 4])], &all, 2));
}

#[test]
fn empty_combo_set_is_vacuously_covered() {
    // k above the universe size: nothing to check, whatever the tickets.
    let item = item_set(vec![], vec![1, 2], 3, true);
    assert!(does_ticket_cover_target(&item));
    // k of zero is the same boundary.
    let item = item_set(vec![], vec![1, 2], 0, true);
    assert!(does_ticket_cover_target(&item));
}

#[test]
fn scenario_three_tickets_k2_is_covered() {
    let item = item_set(
        vec![vec![1, 2], vec![2, 3], vec![3, 4]],
        vec![1, 2, 3, 4],
        2,
        true,
    );
    assert!(does_ticket_cover_target(&item));
}

#[test]
fn scenario_three_tickets_k3_is_not_covered() {
    let item = item_set(
        vec![vec![1, 2], vec![2, 3], vec![3, 4]],
        vec![1, 2, 3, 4],
        3,
        false,
    );
    assert!(!does_ticket_cover_target(&item));
}

#[test]
fn scenario_universe_ticket_covers_every_k() {
    for k in 1..=4u32 {
        let item = item_set(vec![vec![1, 2, 3, 4]], vec![1, 2, 3, 4], k, true);
        assert!(does_ticket_cover_target(&item), "k = {}", k);
    }
}

#[test]
fn scenario_no_tickets_fails_unless_combos_are_empty() {
    let item = item_set(vec![], vec![1, 2], 1, false);
    assert!(!does_ticket_cover_target(&item));
    let item = item_set(vec![], vec![1, 2], 3, true);
    assert!(does_ticket_cover_target(&item));
}

#[test]
fn duplicate_numbers_collapse_to_set_semantics() {
    let item = item_set(vec![vec![1, 1, 2, 2]], vec![1, 2, 1], 2, true);
    assert!(does_ticket_cover_target(&item));
}

#[test]
fn evaluate_reports_one_record_per_item_in_order() {
    let problems = SufficientCoverageProblemSet {
        items: vec![
            item_set(
                vec![vec![1, 2], vec![2, 3], vec![3, 4]],
                vec![1, 2, 3, 4],
                2,
                true,
            ),
            item_set(
                vec![vec![1, 2], vec![2, 3], vec![3, 4]],
                vec![1, 2, 3, 4],
                3,
                false,
            ),
            item_set(vec![], vec![1, 2], 1, true),
        ],
    };
    let records = evaluate_sufficient_coverage(&problems);
    assert_eq!(records.len(), 3);
    assert_eq!(records[0].index, 0);
    assert!(records[0].actual);
    assert!(records[0].expected);
    assert!(records[0].passed);
    assert_eq!(records[1].index, 1);
    assert!(!records[1].actual);
    assert!(!records[1].expected);
    assert!(records[1].passed);
    assert_eq!(records[2].index, 2);
    assert!(!records[2].actual);
    assert!(records[2].expected);
    assert!(!records[2].passed);
}

#[test]
fn number_set_collapses_and_sorts() {
    let s = number_set(&[2, 1, 2, 9, 1]);
    assert_eq!(s.as_sorted_vec(), vec![1, 2, 9]);
    assert_eq!(s.len(), 3);
    assert!(s.contains(9));
    assert!(!s.contains(3));
}

#[test]
fn number_set_operations() {
    let a = number_set(&[1, 2, 3]);
    let b = number_set(&[2, 3, 4]);
    assert_eq!(a.intersection(&b).as_sorted_vec(), vec![2, 3]);
    assert_eq!(a.difference(&b).as_sorted_vec(), vec![1]);
    assert!(a.is_superset(&number_set(&[1, 3])));
    assert!(!a.is_superset(&b));
    let (first, rest) = a.split_first();
    assert_eq!(first, 1);
    assert_eq!(rest.as_sorted_vec(), vec![2, 3]);
    let with = rest.with(7);
    assert_eq!(with.as_sorted_vec(), vec![2, 3, 7]);
}
