use bondsbot::models::Bond;

#[test]
fn test_bond_validation_valid() {
    let bond = Bond {
        prefix: "123AB".to_string(),
        start: 1000,
        end: 9999,
    };
    assert!(bond.validate().is_ok());
}

#[test]
fn test_bond_validation_empty_prefix() {
    let bond = Bond {
        prefix: "".to_string(),
        start: 1000,
        end: 9999,
    };
    assert!(bond.validate().is_err());
}

#[test]
fn test_bond_validation_start_greater_than_end() {
    let bond = Bond {
        prefix: "123AB".to_string(),
        start: 9999,
        end: 1000,
    };
    assert!(bond.validate().is_err());
}

#[test]
fn models_test_bond_validation_valid() {
    let bond = Bond {
        prefix: "123AB".to_string(),
        start: 1000,
        end: 9999,
    };
    assert!(bond.validate().is_ok());
}

#[test]
fn models_test_bond_validation_empty_prefix() {
    let bond = Bond {
        prefix: "".to_string(),
        start: 1000,
        end: 9999,
    };
    assert!(bond.validate().is_err());
}

#[test]
fn models_test_bond_validation_start_greater_than_end() {
    let bond = Bond {
        prefix: "123AB".to_string(),
        start: 9999,
        end: 1000,
    };
    assert!(bond.validate().is_err());
}

#[test]
fn test_bond_validation_messages() {
    let bond = Bond {
        prefix: "".to_string(),
        start: 1,
        end: 2,
    };
    assert_eq!(bond.validate().unwrap_err(), "Bond prefix cannot be empty");

    let bond = Bond {
        prefix: "AB".to_string(),
        start: 9999,
        end: 1000,
    };
    assert_eq!(
        bond.validate().unwrap_err(),
        "Bond start (9999) cannot be greater than end (1000)"
    );
}

#[test]
fn test_bond_validation_large_bounds() {
    let bond = Bond {
        prefix: "Z".to_string(),
        start: 18446744073709551615,
        end: 0,
    };
    let msg = bond.validate().unwrap_err();
    assert!(msg.contains("18446744073709551615"));
}

#[test]
fn test_bond_validation_equal_bounds() {
    let bond = Bond {
        prefix: "Z".to_string(),
        start: 7,
        end: 7,
    };
    assert!(bond.validate().is_ok());
}
