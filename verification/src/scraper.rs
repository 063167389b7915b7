//! Reading the published winners page. The HTML parsing itself is the
//! scraper crate's work, taken on trust behind two small wrappers;
//! everything done with the extracted text is verified here.

use vstd::prelude::*;

use crate::models::Winner;
use crate::models::WinnerView;
use crate::text::all_digits;
use crate::text::digits_val;
use crate::text::parse_digits_from;
use crate::text::remove_all;
use crate::text::spec_remove_all;
use crate::text::spec_trim;
use crate::text::trim_str;

verus! {

/// What the winners table of an HTML document holds: for each `tr`
/// element in document order, the raw strings of its `td` cells.
pub uninterp spec fn table_rows_of(html: Seq<char>) -> Seq<Seq<Seq<char>>>;

/// Relies on the scraper crate (`Html::parse_document`,
/// `Selector::parse`, `select`, `ElementRef::value`, `Element::attr`,
/// `ElementRef::text`): for each `tr` element of the parsed document,
/// in document order, the strings of its `td` cells — the `data-sort`
/// attribute where present, else the concatenated text. The two
/// selectors are constant and valid, so parsing them cannot fail. The
/// result depends on the HTML text alone.
#[verifier::external_body]
fn extract_table_rows(html: &str) -> (rows: Vec<Vec<String>>)
    ensures
        rows.deep_view() == table_rows_of(html@),
{
    let document = scraper::Html::parse_document(html);
    let tr = scraper::Selector::parse("tr").unwrap();
    let td = scraper::Selector::parse("td").unwrap();
    document
        .select(&tr)
        .map(|row| {
            row.select(&td)
                .map(|cell| match cell.value().attr("data-sort") {
                    Some(v) => v.to_string(),
                    None => cell.text().collect(),
                })
                .collect()
        })
        .collect()
}

/// The text of the first `h1.high-value-header` element of an HTML
/// document, `None` when the document has no such element.
pub uninterp spec fn month_header_of(html: Seq<char>) -> Option<Seq<char>>;

/// Relies on the scraper crate, through the same calls as
/// `extract_table_rows`: the concatenated text of the first element
/// matching `h1.high-value-header`. The selector is constant and
/// valid, so parsing it cannot fail. The result depends on the HTML
/// text alone.
#[verifier::external_body]
fn extract_month_header(html: &str) -> (r: Option<String>)
    ensures
        r.deep_view() == month_header_of(html@),
{
    let document = scraper::Html::parse_document(html);
    let sel = scraper::Selector::parse("h1.high-value-header").unwrap();
    document.select(&sel).next().map(|el| el.text().collect())
}

/// One winner read off one table row. The second cell must name a
/// certificate once trimmed; the first cell is the prize amount, shown
/// behind a pound sign, and its comma-free digits give the numeric
/// value — `0` when they are not a number, never a failure.
pub open spec fn spec_winner_of_row(row: Seq<Seq<char>>) -> Option<WinnerView> {
    if row.len() < 2 {
        None
    } else {
        let bond = spec_trim(row[1]);
        if bond.len() == 0 {
            None
        } else {
            let prize = spec_trim(row[0]);
            let digits = spec_remove_all(prize, ","@);
            Some(
                WinnerView {
                    prize_value_str: "£"@ + prize,
                    winning_bond: bond,
                    prize_value: if digits.len() > 0 && all_digits(digits) && digits_val(digits)
                        <= u64::MAX {
                        digits_val(digits) as u64
                    } else {
                        0
                    },
                },
            )
        }
    }
}

/// The winners of a whole extracted table, row by row, rows without a
/// certificate skipped.
pub open spec fn spec_winners_of_rows(rows: Seq<Seq<Seq<char>>>) -> Seq<WinnerView>
    decreases rows.len(),
{
    if rows.len() == 0 {
        Seq::empty()
    } else {
        spec_winners_of_rows(rows.drop_last()) + (match spec_winner_of_row(rows.last()) {
            Some(w) => seq![w],
            None => Seq::empty(),
        })
    }
}

fn winner_of_row(row: &Vec<String>) -> (r: Option<Winner>)
    ensures
        match (r, spec_winner_of_row(row.deep_view())) {
            (Some(w), Some(sw)) => w@ == sw,
            (None, None) => true,
            _ => false,
        },
{
    if row.len() < 2 {
        return None;
    }
    proof {
        assert(row.deep_view()[1] == row@[1]@);
        assert(row.deep_view()[0] == row@[0]@);
    }
    let bond = trim_str(row[1].as_str());
    if bond.unicode_len() == 0 {
        return None;
    }
    let prize = trim_str(row[0].as_str());
    let digits = remove_all(prize, ",");
    let value = match parse_digits_from(digits.as_str(), 0) {
        Some(v) => v,
        None => 0u64,
    };
    proof {
        assert(digits@.skip(0) =~= digits@);
    }
    let mut pv = String::from_str("£");
    pv.append(prize);
    Some(
        Winner {
            prize_value_str: pv,
            winning_bond: String::from_str(bond),
            prize_value: value,
        },
    )
}

/// The winners read off already extracted rows, in row order.
pub fn winners_from_rows(rows: &Vec<Vec<String>>) -> (r: Vec<Winner>)
    ensures
        r.deep_view() == spec_winners_of_rows(rows.deep_view()),
{
    let ghost rvs = rows.deep_view();
    let mut out: Vec<Winner> = Vec::new();
    let mut i: usize = 0;
    while i < rows.len()
        invariant
            i <= rows.len(),
            rvs == rows.deep_view(),
            out.deep_view() == spec_winners_of_rows(rvs.take(i as int)),
        decreases rows.len() - i,
    {
        let ghost prevdeep = out.deep_view();
        proof {
            assert(rows.deep_view()[i as int] == rows@[i as int].deep_view());
            assert(rvs.take(i + 1).drop_last() =~~= rvs.take(i as int));
            assert(rvs.take(i + 1).last() == rvs[i as int]);
        }
        match winner_of_row(&rows[i]) {
            Some(w) => {
                let ghost wv = w@;
                out.push(w);
                proof {
                    assert(forall|m: int|
                        0 <= m < prevdeep.len() ==> out.deep_view()[m] == prevdeep[m]);
                    assert(out.deep_view()[prevdeep.len() as int] == wv);
                    assert(out.deep_view() =~= prevdeep.push(wv));
                    assert(spec_winners_of_rows(rvs.take(i + 1)) =~= prevdeep.push(wv));
                }
            },
            None => {
                proof {
                    assert(spec_winners_of_rows(rvs.take(i + 1)) =~= prevdeep);
                }
            },
        }
        i = i + 1;
    }
    proof {
        assert(rvs.take(rows@.len() as int) =~~= rvs);
    }
    out
}

/// Reads the winners out of the given HTML: one winner per table row
/// whose second cell names a certificate, in page order. This cannot
/// fail; the `Result` keeps the shape callers expect.
pub fn get_winners(html: &str) -> (r: Result<Vec<Winner>, String>)
    ensures
        r is Ok,
        r->Ok_0.deep_view() == spec_winners_of_rows(table_rows_of(html@)),
{
    let rows = extract_table_rows(html);
    Ok(winners_from_rows(&rows))
}

/// What the month heading reduces to: the text trimmed, with the
/// `'s high value winners` tail removed.
pub open spec fn spec_month_of(t: Seq<char>) -> Seq<char> {
    spec_remove_all(spec_trim(t), "'s high value winners"@)
}

/// Reduces an already extracted page heading to the month it names.
pub fn month_from_header(text: &str) -> (r: String)
    ensures
        r@ == spec_month_of(text@),
{
    let trimmed = trim_str(text);
    remove_all(trimmed, "'s high value winners")
}

/// The month the page reports winners for, read from its heading.
/// Fails exactly when the page has no such heading.
pub fn get_month(html: &str) -> (r: Result<String, String>)
    ensures
        match month_header_of(html@) {
            Some(t) => r is Ok && r->Ok_0@ == spec_month_of(t),
            None => r is Err && r->Err_0@ == "Month not found in HTML"@,
        },
{
    match extract_month_header(html) {
        None => Err(String::from_str("Month not found in HTML")),
        Some(t) => Ok(month_from_header(t.as_str())),
    }
}

} // verus!
