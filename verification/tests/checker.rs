use bondsbot::checker::check_winners;
use bondsbot::models::Bond;
use bondsbot::models::Winner;

#[test]
fn test_check_winners_matching_bond() {
    let bonds = vec![Bond {
        prefix: "123AB".to_string(),
        start: 456000,
        end: 456999,
    }];
    let winners = vec![Winner {
        prize_value_str: "£1000".to_string(),
        prize_value: 1000,
        winning_bond: "123AB456789".to_string(),
    }];

    let result = check_winners(&bonds, &winners);
    assert_eq!(result.winners.len(), 1);
    assert_eq!(result.winners[0].winning_bond, "123AB456789");
    assert_eq!(result.total, 1000);
}

#[test]
fn test_check_winners_no_match() {
    let bonds = vec![Bond {
        prefix: "999XY".to_string(),
        start: 100000,
        end: 199999,
    }];
    let winners = vec![Winner {
        prize_value_str: "£1000".to_string(),
        prize_value: 1000,
        winning_bond: "123AB456789".to_string(),
    }];

    let result = check_winners(&bonds, &winners);
    assert_eq!(result.winners.len(), 0);
    assert_eq!(result.total, 0);
}

#[test]
fn test_check_winners_preserves_winner_order() {
    let bonds = vec![Bond {
        prefix: "AB".to_string(),
        start: 1,
        end: 100,
    }];
    let winners = vec![
        Winner {
            prize_value_str: "£25".to_string(),
            prize_value: 25,
            winning_bond: "AB7".to_string(),
        },
        Winner {
            prize_value_str: "£50".to_string(),
            prize_value: 50,
            winning_bond: "ZZ9".to_string(),
        },
        Winner {
            prize_value_str: "£100".to_string(),
            prize_value: 100,
            winning_bond: "AB42".to_string(),
        },
    ];

    let result = check_winners(&bonds, &winners);
    assert_eq!(result.winners.len(), 2);
    assert_eq!(result.winners[0].winning_bond, "AB7");
    assert_eq!(result.winners[1].winning_bond, "AB42");
    assert_eq!(result.total, 125);
}

#[test]
fn test_check_winners_run_twice_identical() {
    let bonds = vec![Bond {
        prefix: "AB".to_string(),
        start: 1,
        end: 100,
    }];
    let winners = vec![
        Winner {
            prize_value_str: "£25".to_string(),
            prize_value: 25,
            winning_bond: "AB7".to_string(),
        },
        Winner {
            prize_value_str: "£50".to_string(),
            prize_value: 50,
            winning_bond: "AB8".to_string(),
        },
    ];

    let first = check_winners(&bonds, &winners);
    let second = check_winners(&bonds, &winners);
    assert_eq!(first.total, second.total);
    assert_eq!(first.winners.len(), second.winners.len());
    for k in 0..first.winners.len() {
        assert_eq!(first.winners[k].winning_bond, second.winners[k].winning_bond);
        assert_eq!(first.winners[k].prize_value, second.winners[k].prize_value);
        assert_eq!(
            first.winners[k].prize_value_str,
            second.winners[k].prize_value_str
        );
    }
}

#[test]
fn test_check_winners_bounds_inclusive() {
    let bonds = vec![Bond {
        prefix: "AB".to_string(),
        start: 10,
        end: 20,
    }];
    let winners = vec![
        Winner {
            prize_value_str: "£1".to_string(),
            prize_value: 1,
            winning_bond: "AB10".to_string(),
        },
        Winner {
            prize_value_str: "£2".to_string(),
            prize_value: 2,
            winning_bond: "AB20".to_string(),
        },
        Winner {
            prize_value_str: "£4".to_string(),
            prize_value: 4,
            winning_bond: "AB9".to_string(),
        },
        Winner {
            prize_value_str: "£8".to_string(),
            prize_value: 8,
            winning_bond: "AB21".to_string(),
        },
    ];

    let result = check_winners(&bonds, &winners);
    assert_eq!(result.winners.len(), 2);
    assert_eq!(result.total, 3);
}

#[test]
fn test_check_winners_skips_short_and_bare_certificates() {
    let bonds = vec![Bond {
        prefix: "123AB".to_string(),
        start: 0,
        end: 999999,
    }];
    let winners = vec![
        Winner {
            prize_value_str: "£1".to_string(),
            prize_value: 1,
            winning_bond: "123A".to_string(),
        },
        Winner {
            prize_value_str: "£2".to_string(),
            prize_value: 2,
            winning_bond: "123AB".to_string(),
        },
        Winner {
            prize_value_str: "£4".to_string(),
            prize_value: 4,
            winning_bond: "123AB4x6".to_string(),
        },
        Winner {
            prize_value_str: "£8".to_string(),
            prize_value: 8,
            winning_bond: "123AB99999999999999999999".to_string(),
        },
    ];

    let result = check_winners(&bonds, &winners);
    assert_eq!(result.winners.len(), 0);
    assert_eq!(result.total, 0);
}

#[test]
fn test_check_winners_total_wraps_at_64_bits() {
    let bonds = vec![Bond {
        prefix: "AB".to_string(),
        start: 1,
        end: 2,
    }];
    let winners = vec![
        Winner {
            prize_value_str: "£max".to_string(),
            prize_value: 18446744073709551615,
            winning_bond: "AB1".to_string(),
        },
        Winner {
            prize_value_str: "£3".to_string(),
            prize_value: 3,
            winning_bond: "AB2".to_string(),
        },
    ];

    let result = check_winners(&bonds, &winners);
    assert_eq!(result.winners.len(), 2);
    assert_eq!(result.total, 2);
}
