use ticket_rules::parse::read_passports;
use ticket_rules::parse::read_rules;
use ticket_rules::parse::ParseError;
use ticket_rules::rules::Rule;

fn to_lines(raw: &[&str]) -> Vec<String> {
    raw.iter().map(|s| s.to_string()).collect()
}

#[test]
fn rule_in_either_range_is_valid() {
    let r = Rule::new("class".to_string(), 1, 3, 5, 7);
    assert!(r.valid(&1));
    assert!(r.valid(&2));
    assert!(r.valid(&3));
    assert!(!r.valid(&4));
    assert!(r.valid(&5));
    assert!(r.valid(&7));
    assert!(!r.valid(&0));
    assert!(!r.valid(&8));
}

#[test]
fn parses_rules_until_blank_line() {
    let lines = to_lines(&["class: 1-3 or 5-7", "row: 6-11 or 33-44", "", "rest"]);
    let (rules, next) = read_rules(&lines, 0).unwrap();
    assert_eq!(rules.len(), 2);
    assert_eq!(rules[0].name, "class");
    assert_eq!(rules[0].range1_low, 1);
    assert_eq!(rules[0].range1_high, 3);
    assert_eq!(rules[0].range2_low, 5);
    assert_eq!(rules[0].range2_high, 7);
    assert_eq!(rules[1].name, "row");
    assert_eq!(next, 3);
}

#[test]
fn rule_name_may_hold_spaces_and_digits() {
    let lines = to_lines(&["departure track 2: 25-174 or 179-974"]);
    let (rules, next) = read_rules(&lines, 0).unwrap();
    assert_eq!(rules.len(), 1);
    assert_eq!(rules[0].name, "departure track 2");
    assert_eq!(rules[0].range2_high, 974);
    assert_eq!(next, 1);
}

#[test]
fn empty_input_yields_no_rules() {
    let lines: Vec<String> = Vec::new();
    let (rules, next) = read_rules(&lines, 0).unwrap();
    assert!(rules.is_empty());
    assert_eq!(next, 0);
}

#[test]
fn non_numeric_range_aborts_rule_parsing() {
    let lines = to_lines(&["class: a-b or 1-2", "row: 6-11 or 33-44"]);
    match read_rules(&lines, 0) {
        Err(e) => assert_eq!(e, ParseError::MalformedRule),
        Ok(_) => panic!("a rule line with a non-numeric range must abort"),
    }
}

#[test]
fn partly_numeric_range_aborts_rule_parsing() {
    let lines = to_lines(&["seat: 13-40 or 45-x"]);
    match read_rules(&lines, 0) {
        Err(e) => assert_eq!(e, ParseError::MalformedRule),
        Ok(_) => panic!("a rule line with a non-numeric bound must abort"),
    }
}

#[test]
fn oversized_rule_bound_aborts_rule_parsing() {
    let lines = to_lines(&["class: 1-99999999999999999999 or 5-7"]);
    match read_rules(&lines, 0) {
        Err(e) => assert_eq!(e, ParseError::MalformedRule),
        Ok(_) => panic!("a rule bound too large for a field value must abort"),
    }
}

#[test]
fn header_line_does_not_look_like_a_rule() {
    let lines = to_lines(&["your ticket:", "7,1,14"]);
    let (rules, next) = read_rules(&lines, 0).unwrap();
    assert!(rules.is_empty());
    assert_eq!(next, 1);
}

#[test]
fn reads_records_after_skipping_header() {
    let lines = to_lines(&["nearby tickets:", "7,3,47", "40,4,50", "", "rest"]);
    let (records, next) = read_passports(&lines, 0).unwrap();
    assert_eq!(records, vec![vec![7, 3, 47], vec![40, 4, 50]]);
    assert_eq!(next, 4);
}

#[test]
fn record_line_may_end_with_a_comma() {
    let lines = to_lines(&["your ticket:", "7,1,14,"]);
    let (records, next) = read_passports(&lines, 0).unwrap();
    assert_eq!(records, vec![vec![7, 1, 14]]);
    assert_eq!(next, 2);
}

#[test]
fn blank_line_ends_the_record_section() {
    let lines = to_lines(&["header", "", "7,1,14"]);
    let (records, next) = read_passports(&lines, 0).unwrap();
    assert!(records.is_empty());
    assert_eq!(next, 2);
}

#[test]
fn missing_section_yields_no_records() {
    let lines: Vec<String> = Vec::new();
    let (records, next) = read_passports(&lines, 0).unwrap();
    assert!(records.is_empty());
    assert_eq!(next, 0);
}

#[test]
fn oversized_record_value_aborts_record_parsing() {
    let lines = to_lines(&["header", "7,99999999999999999999,14"]);
    match read_passports(&lines, 0) {
        Err(e) => assert_eq!(e, ParseError::MalformedRecord),
        Ok(_) => panic!("a record value too large for a field must abort"),
    }
}
