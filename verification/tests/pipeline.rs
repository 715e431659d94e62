use ticket_rules::parse::read_passports;
use ticket_rules::parse::read_rules;
use ticket_rules::solver::determine_field_positions;
use ticket_rules::solver::find_all_valid_positions;
use ticket_rules::validity::filter_invalid;
use ticket_rules::validity::find_all_invalid_fields;

fn to_lines(raw: &[&str]) -> Vec<String> {
    raw.iter().map(|s| s.to_string()).collect()
}

fn test_input() -> Vec<String> {
    to_lines(&[
        "class: 1-3 or 5-7",
        "row: 6-11 or 33-44",
        "seat: 13-40 or 45-50",
        "",
        "your ticket:",
        "7,1,14",
        "",
        "nearby tickets:",
        "7,3,47",
        "40,4,50",
        "55,2,20",
        "38,6,12",
    ])
}

fn test_input_two() -> Vec<String> {
    to_lines(&[
        "class: 0-1 or 4-19",
        "row: 0-5 or 8-19",
        "seat: 0-13 or 16-19",
        "",
        "your ticket:",
        "11,12,13",
        "",
        "nearby tickets:",
        "3,9,18",
        "15,1,5",
        "5,14,9",
    ])
}

#[test]
fn it_collects_correct_invalid_fields() {
    let lines = test_input();
    let (rules, next) = read_rules(&lines, 0).unwrap();

    let (_my, next) = read_passports(&lines, next).unwrap();
    let (near_passports, _next) = read_passports(&lines, next).unwrap();
    let invalid_fields = find_all_invalid_fields(&near_passports, &rules);
    assert_eq!(invalid_fields, vec![4, 55, 12]);
}

#[test]
fn it_collects_valid_positions() {
    let lines = test_input_two();
    let (rules, next) = read_rules(&lines, 0).unwrap();

    let (_my, next) = read_passports(&lines, next).unwrap();
    let (near_passports, _next) = read_passports(&lines, next).unwrap();
    let valid_passports = filter_invalid(near_passports, &rules);
    let valid_positions = find_all_valid_positions(&rules, &valid_passports);
    assert_eq!(
        valid_positions,
        vec![
            vec![(1, "class".to_string()), (2, "class".to_string())],
            vec![
                (0, "row".to_string()),
                (1, "row".to_string()),
                (2, "row".to_string())
            ],
            vec![(2, "seat".to_string())]
        ]
    );
}

#[test]
fn it_determines_valid_positions() {
    let lines = test_input_two();
    let (rules, next) = read_rules(&lines, 0).unwrap();

    let (_my, next) = read_passports(&lines, next).unwrap();
    let (near_passports, _next) = read_passports(&lines, next).unwrap();
    let valid_passports = filter_invalid(near_passports, &rules);
    let valid_positions = find_all_valid_positions(&rules, &valid_passports);
    let determined = determine_field_positions(valid_positions).unwrap();
    assert_eq!(
        determined,
        vec![
            (2, "seat".to_string()),
            (1, "class".to_string()),
            (0, "row".to_string())
        ]
    );
}

#[test]
fn scenario_one_invalid_sum_is_71() {
    let lines = test_input();
    let (rules, next) = read_rules(&lines, 0).unwrap();
    let (_my, next) = read_passports(&lines, next).unwrap();
    let (near_passports, _next) = read_passports(&lines, next).unwrap();
    let invalid_fields = find_all_invalid_fields(&near_passports, &rules);
    let sum = ticket_rules::driver::sum_values(&invalid_fields);
    assert_eq!(sum, Some(71));
}

#[test]
fn scenario_one_keeps_only_fully_valid_records() {
    let lines = test_input();
    let (rules, next) = read_rules(&lines, 0).unwrap();
    let (_my, next) = read_passports(&lines, next).unwrap();
    let (near_passports, _next) = read_passports(&lines, next).unwrap();
    assert_eq!(near_passports.len(), 4);
    let valid_passports = filter_invalid(near_passports, &rules);
    assert_eq!(valid_passports, vec![vec![7, 3, 47]]);
}

#[test]
fn scenario_two_personal_record_products() {
    let lines = test_input_two();
    let (rules, next) = read_rules(&lines, 0).unwrap();
    let (my_batch, next) = read_passports(&lines, next).unwrap();
    let my_passport = my_batch.first().unwrap().clone();
    assert_eq!(my_passport, vec![11, 12, 13]);
    let (near_passports, _next) = read_passports(&lines, next).unwrap();
    let valid_passports = filter_invalid(near_passports, &rules);
    let valid_positions = find_all_valid_positions(&rules, &valid_passports);
    let determined = determine_field_positions(valid_positions).unwrap();
    // No rule name starts with this prefix, so the product is empty.
    let p = ticket_rules::driver::departure_product(&determined, &my_passport, "departure");
    assert_eq!(p, Some(1));
    // Exactly the rule named "seat" starts with "s"; it sits at position 2.
    let p = ticket_rules::driver::departure_product(&determined, &my_passport, "s");
    assert_eq!(p, Some(13));
    // "class" and "row" together select positions 1 and 0.
    let p = ticket_rules::driver::departure_product(&determined, &my_passport, "c");
    assert_eq!(p, Some(12));
    let p = ticket_rules::driver::departure_product(&determined, &my_passport, "r");
    assert_eq!(p, Some(11));
}
