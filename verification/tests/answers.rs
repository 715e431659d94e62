use ticket_rules::driver::departure_product;
use ticket_rules::driver::str_starts_with;
use ticket_rules::driver::sum_values;
use ticket_rules::rules::Rule;
use ticket_rules::solver::determine_field_positions;
use ticket_rules::solver::eliminate;
use ticket_rules::solver::find_all_valid_positions;
use ticket_rules::solver::is_valid_in_position;
use ticket_rules::solver::records_cover;
use ticket_rules::solver::SolveError;
use ticket_rules::validity::filter_invalid;
use ticket_rules::validity::find_invalid_fields;

#[test]
fn invalid_fields_keep_record_order() {
    let rules = vec![Rule::new("class".to_string(), 1, 3, 5, 7)];
    let record = vec![55, 2, 20, 6];
    assert_eq!(find_invalid_fields(&record, &rules), vec![55, 20]);
}

#[test]
fn record_with_no_rules_is_entirely_invalid() {
    let rules: Vec<Rule> = Vec::new();
    let record = vec![1, 2];
    assert_eq!(find_invalid_fields(&record, &rules), vec![1, 2]);
    let kept = filter_invalid(vec![record], &rules);
    assert!(kept.is_empty());
}

#[test]
fn position_check_requires_every_record() {
    let rule = Rule::new("class".to_string(), 1, 3, 5, 7);
    let records = vec![vec![2, 9], vec![6, 9]];
    assert!(is_valid_in_position(&rule, 0, &records));
    assert!(!is_valid_in_position(&rule, 1, &records));
}

#[test]
fn candidates_grow_when_a_record_is_removed() {
    let rule = Rule::new("class".to_string(), 1, 3, 5, 7);
    let full = vec![vec![2, 9], vec![6, 4]];
    let shorter = vec![vec![2, 9]];
    let rules = vec![rule];
    let with_full = find_all_valid_positions(&rules, &full);
    let with_shorter = find_all_valid_positions(&rules, &shorter);
    // Position 0 is consistent either way; removing the second record cannot
    // lose it, and here nothing new appears either.
    assert_eq!(with_full[0].len(), 1);
    assert_eq!(with_shorter[0].len(), 1);
}

#[test]
fn elimination_rejects_a_list_of_wrong_size() {
    let lists = vec![
        vec![(0, "a".to_string()), (1, "a".to_string())],
        vec![(0, "b".to_string()), (1, "b".to_string())],
    ];
    match determine_field_positions(lists) {
        Err(e) => assert_eq!(e, SolveError::UnsolvableAssignment),
        Ok(_) => panic!("two lists of two candidates cannot peel"),
    }
}

#[test]
fn elimination_rejects_exhausted_candidates() {
    let lists = vec![
        vec![(0, "a".to_string())],
        vec![(0, "b".to_string()), (0, "b".to_string())],
    ];
    match eliminate(&lists) {
        Err(e) => assert_eq!(e, SolveError::UnsolvableAssignment),
        Ok(_) => panic!("a repeated position cannot be assigned twice"),
    }
}

#[test]
fn elimination_assigns_first_free_candidate() {
    let lists = vec![
        vec![(1, "a".to_string())],
        vec![(1, "b".to_string()), (0, "b".to_string())],
    ];
    let pairs = eliminate(&lists).unwrap();
    assert_eq!(pairs, vec![(1, "a".to_string()), (0, "b".to_string())]);
}

#[test]
fn batch_cover_check_matches_record_lengths() {
    let records = vec![vec![1, 2], vec![3, 4, 5]];
    assert!(records_cover(2, &records));
    assert!(!records_cover(3, &records));
}

#[test]
fn sum_reports_overflow() {
    assert_eq!(sum_values(&vec![i64::MAX, 1]), None);
    assert_eq!(sum_values(&vec![i64::MAX, -1, 1]), Some(i64::MAX));
    assert_eq!(sum_values(&Vec::new()), Some(0));
}

#[test]
fn prefix_match_is_exact() {
    assert!(str_starts_with("departure time", "departure"));
    assert!(str_starts_with("departure", "departure"));
    assert!(!str_starts_with("depart", "departure"));
    assert!(!str_starts_with("arrival time", "departure"));
    assert!(str_starts_with("anything", ""));
}

#[test]
fn product_multiplies_only_prefixed_positions() {
    let pairs = vec![
        (2, "departure track".to_string()),
        (0, "row".to_string()),
        (1, "departure time".to_string()),
    ];
    let record = vec![3, 5, 7];
    assert_eq!(departure_product(&pairs, &record, "departure"), Some(35));
    assert_eq!(departure_product(&pairs, &record, "row"), Some(3));
    assert_eq!(departure_product(&pairs, &record, "none"), Some(1));
}

#[test]
fn product_reports_overflow() {
    let pairs = vec![
        (0, "departure a".to_string()),
        (1, "departure b".to_string()),
    ];
    let record = vec![i64::MAX, 2];
    assert_eq!(departure_product(&pairs, &record, "departure"), None);
}
