use bondsbot::scraper::get_month;
use bondsbot::scraper::get_winners;
use bondsbot::scraper::month_from_header;
use bondsbot::scraper::winners_from_rows;

#[test]
fn test_get_winners_empty_html() {
    let html = "<html><body></body></html>";
    let result = get_winners(html);
    assert!(result.is_ok());
    assert_eq!(result.unwrap().len(), 0);
}

#[test]
fn test_get_winners_with_table() {
    let html = r#"
        <html><body>
            <table>
                <tr>
                    <td data-sort="1000">£1,000</td>
                    <td>123AB456789</td>
                </tr>
            </table>
        </body></html>
    "#;
    let result = get_winners(html);
    assert!(result.is_ok());
    let winners = result.unwrap();
    assert_eq!(winners.len(), 1);
    assert_eq!(winners[0].prize_value_str, "£1000");
    assert_eq!(winners[0].prize_value, 1000);
    assert_eq!(winners[0].winning_bond, "123AB456789");
}

#[test]
fn test_get_month() {
    let html = r#"
        <html><body>
            <h1 class="high-value-header">January's high value winners</h1>
        </body></html>
    "#;
    let result = get_month(html);
    assert!(result.is_ok());
    assert_eq!(result.unwrap(), "January");
}

#[test]
fn test_get_month_missing_header() {
    let html = "<html><body><h1>Winners</h1></body></html>";
    let result = get_month(html);
    assert!(result.is_err());
    assert_eq!(result.unwrap_err(), "Month not found in HTML");
}

#[test]
fn test_winners_from_rows_shapes() {
    let rows = vec![
        vec!["1,000".to_string(), " 123AB456789 ".to_string()],
        vec!["only one cell".to_string()],
        vec!["500".to_string(), "   ".to_string()],
        vec!["n/a".to_string(), "999ZZ111".to_string()],
    ];
    let winners = winners_from_rows(&rows);
    assert_eq!(winners.len(), 2);
    assert_eq!(winners[0].prize_value_str, "£1,000");
    assert_eq!(winners[0].prize_value, 1000);
    assert_eq!(winners[0].winning_bond, "123AB456789");
    assert_eq!(winners[1].prize_value_str, "£n/a");
    assert_eq!(winners[1].prize_value, 0);
    assert_eq!(winners[1].winning_bond, "999ZZ111");
}

#[test]
fn test_month_from_header_text() {
    assert_eq!(
        month_from_header("  February's high value winners "),
        "February"
    );
    assert_eq!(month_from_header("Results"), "Results");
}
