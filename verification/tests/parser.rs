use bondsbot::errors::ParseError;
use bondsbot::models::Bond;
use bondsbot::parser::check_for_duplicates;
use bondsbot::parser::check_for_overlaps;
use bondsbot::parser::parse_bond_number;
use bondsbot::parser::parse_bonds;
use bondsbot::parser::ranges_overlap;

#[test]
fn test_parse_bond_number() {
    let result = parse_bond_number("632QA322573");
    if result.is_err() {
        println!("Error: {}", result.as_ref().unwrap_err().message());
    }
    assert!(result.is_ok());
    let (prefix, number) = result.unwrap();
    assert_eq!(prefix, "632QA");
    assert_eq!(number, 322573);
}

#[test]
fn test_parse_bond_number_invalid() {
    let result = parse_bond_number("ABCD");
    assert!(result.is_err());

    let result = parse_bond_number("123456");
    assert!(result.is_err());
}

#[test]
fn test_parse_bonds_single_range() {
    let result = parse_bonds("632QA322573-632QA322622");
    assert!(result.is_ok());
    let bonds = result.unwrap();
    assert_eq!(bonds.len(), 1);
    assert_eq!(bonds[0].prefix, "632QA");
    assert_eq!(bonds[0].start, 322573);
    assert_eq!(bonds[0].end, 322622);
}

#[test]
fn test_parse_bonds_multiple_ranges() {
    let result = parse_bonds("632QA322573-632QA322622,632PX825462-632PX825486");
    assert!(result.is_ok());
    let bonds = result.unwrap();
    assert_eq!(bonds.len(), 2);

    assert_eq!(bonds[0].prefix, "632QA");
    assert_eq!(bonds[0].start, 322573);
    assert_eq!(bonds[0].end, 322622);

    assert_eq!(bonds[1].prefix, "632PX");
    assert_eq!(bonds[1].start, 825462);
    assert_eq!(bonds[1].end, 825486);
}

#[test]
fn test_parse_bonds_prefix_mismatch() {
    let result = parse_bonds("632QA322573-632PX322622");
    assert!(result.is_err());
}

#[test]
fn test_parse_bonds_single_bond() {
    let result = parse_bonds("224BZ748917");
    assert!(result.is_ok());
    let bonds = result.unwrap();
    assert_eq!(bonds.len(), 1);
    assert_eq!(bonds[0].prefix, "224BZ");
    assert_eq!(bonds[0].start, 748917);
    assert_eq!(bonds[0].end, 748917);
}

#[test]
fn test_parse_bonds_mixed_single_and_range() {
    let result = parse_bonds("224BZ748917,632QA322573-632QA322622,420AB123456");
    assert!(result.is_ok());
    let bonds = result.unwrap();
    assert_eq!(bonds.len(), 3);

    // Single bond
    assert_eq!(bonds[0].prefix, "224BZ");
    assert_eq!(bonds[0].start, 748917);
    assert_eq!(bonds[0].end, 748917);

    // Range
    assert_eq!(bonds[1].prefix, "632QA");
    assert_eq!(bonds[1].start, 322573);
    assert_eq!(bonds[1].end, 322622);

    // Single bond
    assert_eq!(bonds[2].prefix, "420AB");
    assert_eq!(bonds[2].start, 123456);
    assert_eq!(bonds[2].end, 123456);
}

#[test]
fn test_parse_bonds_invalid_format() {
    let result = parse_bonds("632QA322573-632QA322622-extra");
    assert!(result.is_err());
}

#[test]
fn test_duplicate_single_bonds() {
    let result = parse_bonds("224BZ748917,224BZ748917");
    assert!(result.is_err());
    let err_msg = result.unwrap_err().message();
    assert!(err_msg.contains("Duplicate bonds detected"));
    assert!(err_msg.contains("224BZ748917"));
}

#[test]
fn test_duplicate_in_range() {
    let result = parse_bonds("632QA322570-632QA322575,632QA322573");
    assert!(result.is_err());
    let err_msg = result.unwrap_err().message();
    assert!(err_msg.contains("Duplicate bonds detected"));
    assert!(err_msg.contains("632QA322573"));
}

#[test]
fn test_overlapping_ranges() {
    let result = parse_bonds("632QA322570-632QA322580,632QA322575-632QA322585");
    assert!(result.is_err());
    let err_msg = result.unwrap_err().message();
    assert!(
        err_msg.contains("Duplicate bonds detected")
            || err_msg.contains("Overlapping bond ranges detected")
    );
}

#[test]
fn test_fully_contained_range() {
    let result = parse_bonds("632QA322570-632QA322590,632QA322575-632QA322585");
    assert!(result.is_err());
    let err_msg = result.unwrap_err().message();
    assert!(
        err_msg.contains("Duplicate bonds detected")
            || err_msg.contains("Overlapping bond ranges detected")
    );
}

#[test]
fn test_adjacent_ranges_no_overlap() {
    let result = parse_bonds("632QA322570-632QA322580,632QA322581-632QA322590");
    assert!(result.is_ok());
}

#[test]
fn test_different_prefix_no_overlap() {
    let result = parse_bonds("632QA322570-632QA322580,632QB322570-632QB322580");
    assert!(result.is_ok());
}

#[test]
fn test_multiple_duplicates() {
    let result = parse_bonds("224BZ748917,632QA322573,224BZ748917,632QA322573,420AB123456");
    assert!(result.is_err());
    let err_msg = result.unwrap_err().message();
    assert!(err_msg.contains("Duplicate bonds detected"));
}

#[test]
fn test_ranges_overlap_helper() {
    assert!(ranges_overlap(1, 5, 3, 7));
    assert!(ranges_overlap(3, 7, 1, 5));
    assert!(ranges_overlap(1, 10, 5, 6));
    assert!(ranges_overlap(5, 6, 1, 10));
    assert!(!ranges_overlap(1, 5, 6, 10));
    assert!(!ranges_overlap(6, 10, 1, 5));
    assert!(ranges_overlap(1, 5, 5, 10));
}

#[test]
fn test_split_valid_token_shape() {
    let (prefix, number) = parse_bond_number("AB12").unwrap();
    assert_eq!(prefix, "AB");
    assert_eq!(number, 12);
}

#[test]
fn test_token_error_messages() {
    let err = parse_bond_number("123456").unwrap_err();
    assert_eq!(err.message(), "No letters found in bond: 123456");

    let err = parse_bond_number("123A").unwrap_err();
    assert_eq!(err.message(), "No number part found in bond: 123A");

    let err = parse_bond_number("AB12!3").unwrap_err();
    assert_eq!(err.message(), "Invalid number in bond: AB12!3");

    let err = parse_bond_number("AB99999999999999999999").unwrap_err();
    assert_eq!(err.message(), "Invalid number in bond: AB99999999999999999999");
}

#[test]
fn test_parse_bonds_empty_string() {
    let result = parse_bonds("");
    assert!(result.is_err());
    assert_eq!(result.unwrap_err().message(), "No letters found in bond: ");
}

#[test]
fn test_parse_bonds_trims_whitespace() {
    let result = parse_bonds(" 224BZ748917 , 632QA322573 ");
    assert!(result.is_ok());
    let bonds = result.unwrap();
    assert_eq!(bonds.len(), 2);
    assert_eq!(bonds[0].prefix, "224BZ");
    assert_eq!(bonds[1].prefix, "632QA");
}

#[test]
fn test_parse_bonds_plain_range_template() {
    let bonds = parse_bonds("P100-P200").unwrap();
    assert_eq!(bonds.len(), 1);
    assert_eq!(bonds[0].prefix, "P");
    assert_eq!(bonds[0].start, 100);
    assert_eq!(bonds[0].end, 200);
}

#[test]
fn test_parse_bonds_prefix_mismatch_message() {
    let err = parse_bonds("P100-Q200").unwrap_err();
    assert_eq!(err.message(), "Prefix mismatch in range: P vs Q");
}

#[test]
fn test_parse_bonds_adjacent_small_ranges() {
    let bonds = parse_bonds("P1-P5,P6-P10").unwrap();
    assert_eq!(bonds.len(), 2);
    assert_eq!(bonds[0].start, 1);
    assert_eq!(bonds[0].end, 5);
    assert_eq!(bonds[1].start, 6);
    assert_eq!(bonds[1].end, 10);
}

#[test]
fn test_parse_bonds_backwards_range_message() {
    let err = parse_bonds("AB5-AB3").unwrap_err();
    assert_eq!(
        err.message(),
        "Bond validation failed: Bond start (5) cannot be greater than end (3)"
    );
}

#[test]
fn test_parse_bonds_invalid_format_message() {
    let err = parse_bonds("632QA322573-632QA322622-extra").unwrap_err();
    assert_eq!(
        err.message(),
        "Invalid bond format: 632QA322573-632QA322622-extra"
    );
}

#[test]
fn test_many_duplicates_message_truncated() {
    let err = parse_bonds("A1-A10,A1-A10").unwrap_err();
    let msg = err.message();
    assert!(msg.contains("Duplicate bonds detected: A1, A2, A3, A4, A5"));
    assert!(msg.contains("(and 5 more)"));
}

#[test]
fn test_triplicate_reported_once() {
    let err = parse_bonds("A1,A1,A1").unwrap_err();
    assert_eq!(err.message(), "Duplicate bonds detected: A1");
    match err {
        ParseError::DuplicateCertificates { shown, total } => {
            assert_eq!(shown.len(), 1);
            assert_eq!(shown[0], "A1");
            assert_eq!(total, 1);
        }
        _ => panic!("expected a duplicate rejection"),
    }
}

#[test]
fn test_distinct_duplicates_in_first_reappearance_order() {
    let err = parse_bonds("A1-A3,A2-A5").unwrap_err();
    assert_eq!(err.message(), "Duplicate bonds detected: A2, A3");
}

#[test]
fn test_parse_bonds_trims_unicode_whitespace() {
    let result = parse_bonds("\u{a0}224BZ748917\u{2003} ,632QA322573");
    assert!(result.is_ok());
    let bonds = result.unwrap();
    assert_eq!(bonds.len(), 2);
    assert_eq!(bonds[0].prefix, "224BZ");
    assert_eq!(bonds[0].start, 748917);
    assert_eq!(bonds[1].prefix, "632QA");
}

#[test]
fn test_check_for_duplicates_direct() {
    let bonds = vec![
        Bond {
            prefix: "AB".to_string(),
            start: 1,
            end: 3,
        },
        Bond {
            prefix: "AB".to_string(),
            start: 3,
            end: 4,
        },
    ];
    let err = check_for_duplicates(&bonds).unwrap_err();
    assert_eq!(err.message(), "Duplicate bonds detected: AB3");

    let distinct = vec![
        Bond {
            prefix: "AB".to_string(),
            start: 1,
            end: 3,
        },
        Bond {
            prefix: "AB".to_string(),
            start: 4,
            end: 5,
        },
    ];
    assert!(check_for_duplicates(&distinct).is_ok());
}

#[test]
fn test_check_for_overlaps_direct() {
    let bonds = vec![
        Bond {
            prefix: "AB".to_string(),
            start: 1,
            end: 5,
        },
        Bond {
            prefix: "AB".to_string(),
            start: 5,
            end: 9,
        },
    ];
    let err = check_for_overlaps(&bonds).unwrap_err();
    assert_eq!(
        err.message(),
        "Overlapping bond ranges detected: AB1-AB5 and AB5-AB9 (overlap: AB5-AB5)"
    );

    let apart = vec![
        Bond {
            prefix: "AB".to_string(),
            start: 1,
            end: 5,
        },
        Bond {
            prefix: "CD".to_string(),
            start: 5,
            end: 9,
        },
    ];
    assert!(check_for_overlaps(&apart).is_ok());
}
