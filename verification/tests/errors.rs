use everybody_codes::solutions::{day1, day2, day3, day4, day5, day6, day7, day9};

#[test]
fn rotation_without_commands_section_is_rejected() {
    assert!(day1::part1("Ana,Bo,Cy").is_none());
}

#[test]
fn rotation_with_unknown_letter_is_rejected() {
    assert!(day1::part1("Ana,Bo,Cy\n\nQ3").is_none());
    assert!(day1::part2("Ana,Bo,Cy\n\nR").is_none());
}

#[test]
fn rotation_accepts_signed_counts() {
    // A negative right rotation walks left around the circle.
    assert_eq!(day1::part2("Ana,Bo,Cy\n\nR-1").unwrap(), "Cy");
    assert_eq!(day1::part1("Ana,Bo,Cy\n\nL-2").unwrap(), "Cy");
}

#[test]
fn front_swap_with_divisible_count_is_rejected() {
    // A left command whose count the circle size divides would swap
    // with an index one past the end.
    assert!(day1::part3("Ana,Bo,Cy\n\nL3").is_none());
    assert!(day1::part3("Ana,Bo,Cy\n\nR3").is_some());
}

#[test]
fn engraving_needs_a_bracketed_pair() {
    assert!(day2::part1("hello world").is_none());
    assert!(day2::part1("[12;34]").is_none());
    assert!(day2::part1("A=[25,9]").is_some());
}

#[test]
fn engraving_finds_the_leftmost_pair() {
    // The first well-formed pair wins, wherever it stands.
    assert_eq!(day2::part1("x[9]y A=[0,0] B=[25,9]").unwrap(), "[0,0]");
}

#[test]
fn number_lists_reject_non_numbers() {
    assert!(day3::part1("1,two,3").is_none());
    assert!(day3::part1("1,,3").is_none());
    assert!(day3::part1("4294967296").is_none());
    assert_eq!(day3::part1("4294967295").unwrap(), 4294967295);
}

#[test]
fn distinct_sum_counts_each_value_once() {
    assert_eq!(day3::part1("7,7,7").unwrap(), 7);
    assert_eq!(day3::part2("3,1,2,1").unwrap(), 6);
    assert_eq!(day3::part3("5,5,4,5").unwrap(), 3);
}

#[test]
fn gear_ratios_guard_their_divisions() {
    assert!(day4::part1("5\n0").is_none());
    assert!(day4::part2("0\n5").is_none());
    assert!(day4::part3("5\n0|3\n7").is_none());
    assert!(day4::part3("5").is_none());
}

#[test]
fn sword_lines_need_identifier_and_numbers() {
    assert!(day5::part1("58").is_none());
    assert!(day5::part1("58:").is_none());
    assert!(day5::part1("x:1,2").is_none());
    assert_eq!(day5::part1("58:5").unwrap(), 5);
}

#[test]
fn overlong_quality_is_rejected() {
    // Two spine numbers of eleven digits each concatenate past a `u64`.
    assert!(day5::part1("1:99999999999,99999999999").is_none());
}

#[test]
fn pairings_reject_non_letters() {
    assert!(day6::part2("A1a").is_none());
    assert_eq!(day6::part2("Aa").unwrap(), 1);
}

#[test]
fn name_rules_panic_free_failures_are_reported() {
    // The first name's check reads a rule that is missing.
    assert!(day7::part1("ab\n\nx > y").is_none());
    // No name matches at all.
    assert!(day7::part1("ab,ba\n\na > a\nb > b").is_none());
}

#[test]
fn dna_lines_need_their_colon() {
    assert!(day9::part1("1:ACGT\nACGT").is_none());
    assert_eq!(day9::part1("1:AC\n2:AC").unwrap(), 2);
}
