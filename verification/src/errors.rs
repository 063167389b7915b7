//! The failures a specification can be rejected with, each carrying
//! enough structured detail to render a precise report, and the exact
//! report text for each.

use vstd::prelude::*;

use crate::models::Bond;
use crate::models::BondView;
use crate::text::spec_dec;
use crate::text::u64_to_string;

verus! {

/// Why a bond specification was rejected.
///
/// The first three cases are token-level splitting failures, the next
/// four are range-assembly failures, and the last two are conflicts in
/// the assembled set.
#[derive(Debug)]
pub enum ParseError {
    /// The token holds no alphabetic character at all.
    MalformedToken { token: String },
    /// The token ends with its last alphabetic character: there is no
    /// numeric suffix to parse.
    MissingNumericSuffix { token: String },
    /// The suffix after the last alphabetic character is not an unsigned
    /// 64-bit number.
    InvalidNumericSuffix { token: String },
    /// The two tokens of a dashed range name different prefixes.
    PrefixMismatch { left: String, right: String },
    /// A piece holds more than one dash.
    MalformedRangeExpression { piece: String },
    /// A produced range has an empty prefix.
    EmptyPrefix,
    /// A produced range runs backwards.
    InvalidRange { start: u64, end: u64 },
    /// Some certificate number is covered twice. `shown` holds the
    /// first five distinct duplicated identifiers, in the order the
    /// enumeration first meets each one again; `total` counts the
    /// distinct duplicated identifiers in all.
    DuplicateCertificates { shown: Vec<String>, total: u64 },
    /// Two ranges under one prefix intersect; the bounds of the
    /// intersection are carried along.
    OverlappingRanges { first: Bond, second: Bond, overlap_start: u64, overlap_end: u64 },
}

/// The mathematical value of a rejection, over sequences alone. A
/// duplicate rejection carries the distinct duplicated identifiers,
/// each once, in order of first reappearance; an overlap rejection the
/// two offending ranges.
pub ghost enum SpecError {
    MalformedToken { token: Seq<char> },
    MissingNumericSuffix { token: Seq<char> },
    InvalidNumericSuffix { token: Seq<char> },
    PrefixMismatch { left: Seq<char>, right: Seq<char> },
    MalformedRangeExpression { piece: Seq<char> },
    EmptyPrefix,
    InvalidRange { start: u64, end: u64 },
    DuplicateCertificates { dups: Seq<Seq<char>> },
    OverlappingRanges { first: BondView, second: BondView },
}

/// The smaller of two numbers.
pub open spec fn spec_min(a: u64, b: u64) -> u64 {
    if a <= b {
        a
    } else {
        b
    }
}

/// The larger of two numbers.
pub open spec fn spec_max(a: u64, b: u64) -> u64 {
    if a >= b {
        a
    } else {
        b
    }
}

/// The error value `e` reports exactly the rejection `s`.
pub open spec fn err_matches(e: ParseError, s: SpecError) -> bool {
    match (e, s) {
        (ParseError::MalformedToken { token }, SpecError::MalformedToken { token: t }) => token@
            == t,
        (
            ParseError::MissingNumericSuffix { token },
            SpecError::MissingNumericSuffix { token: t },
        ) => token@ == t,
        (
            ParseError::InvalidNumericSuffix { token },
            SpecError::InvalidNumericSuffix { token: t },
        ) => token@ == t,
        (ParseError::PrefixMismatch { left, right }, SpecError::PrefixMismatch { left: l, right: r }) => left@
            == l && right@ == r,
        (
            ParseError::MalformedRangeExpression { piece },
            SpecError::MalformedRangeExpression { piece: p },
        ) => piece@ == p,
        (ParseError::EmptyPrefix, SpecError::EmptyPrefix) => true,
        (ParseError::InvalidRange { start, end }, SpecError::InvalidRange { start: s1, end: e1 }) => start
            == s1 && end == e1,
        (
            ParseError::DuplicateCertificates { shown, total },
            SpecError::DuplicateCertificates { dups },
        ) => dups.len() > 0 && shown.deep_view() == (if dups.len() <= 5 {
            dups
        } else {
            dups.take(5)
        }) && total == dups.len(),
        (
            ParseError::OverlappingRanges { first, second, overlap_start, overlap_end },
            SpecError::OverlappingRanges { first: f, second: s2 },
        ) => first@ == f && second@ == s2 && overlap_start == spec_max(f.start, s2.start)
            && overlap_end == spec_min(f.end, s2.end),
        _ => false,
    }
}

/// The identifiers joined with a separator: empty for none, the sole
/// element for one, and `x, y, z` style otherwise.
pub open spec fn spec_join(xs: Seq<Seq<char>>, sep: Seq<char>) -> Seq<char>
    decreases xs.len(),
{
    if xs.len() == 0 {
        Seq::empty()
    } else if xs.len() == 1 {
        xs[0]
    } else {
        xs[0] + sep + spec_join(xs.drop_first(), sep)
    }
}

/// One range written as the identifiers of its two bounds, the way the
/// overlap report prints it.
pub open spec fn spec_range_text(b: BondView) -> Seq<char> {
    b.prefix + spec_dec(b.start as int) + "-"@ + b.prefix + spec_dec(b.end as int)
}

/// The report text of an error, exactly as `message` renders it.
pub open spec fn spec_message(e: ParseError) -> Seq<char> {
    match e {
        ParseError::MalformedToken { token } => "No letters found in bond: "@ + token@,
        ParseError::MissingNumericSuffix { token } => "No number part found in bond: "@ + token@,
        ParseError::InvalidNumericSuffix { token } => "Invalid number in bond: "@ + token@,
        ParseError::PrefixMismatch { left, right } => "Prefix mismatch in range: "@ + left@
            + " vs "@ + right@,
        ParseError::MalformedRangeExpression { piece } => "Invalid bond format: "@ + piece@,
        ParseError::EmptyPrefix => "Bond validation failed: Bond prefix cannot be empty"@,
        ParseError::InvalidRange { start, end } => "Bond validation failed: Bond start ("@
            + spec_dec(start as int) + ") cannot be greater than end ("@ + spec_dec(end as int)
            + ")"@,
        ParseError::DuplicateCertificates { shown, total } => "Duplicate bonds detected: "@
            + spec_join(shown.deep_view(), ", "@) + (if total > 5 {
            " (and "@ + spec_dec(total - 5) + " more)"@
        } else {
            Seq::empty()
        }),
        ParseError::OverlappingRanges { first, second, overlap_start, overlap_end } => "Overlapping bond ranges detected: "@
            + spec_range_text(first@) + " and "@ + spec_range_text(second@) + " (overlap: "@
            + first@.prefix + spec_dec(overlap_start as int) + "-"@ + first@.prefix + spec_dec(
            overlap_end as int,
        ) + ")"@,
    }
}

fn join_from(xs: &Vec<String>, from: usize) -> (r: String)
    requires
        from <= xs@.len(),
    ensures
        r@ == spec_join(xs.deep_view().skip(from as int), ", "@),
    decreases xs@.len() - from,
{
    let ghost tail = xs.deep_view().skip(from as int);
    if from == xs.len() {
        proof {
            assert(tail =~= Seq::empty());
        }
        String::new()
    } else if from + 1 == xs.len() {
        proof {
            assert(tail.len() == 1);
            assert(tail[0] == xs.deep_view()[from as int]);
        }
        xs[from].clone()
    } else {
        let mut r = xs[from].clone();
        r.append(", ");
        r.append(join_from(xs, from + 1).as_str());
        proof {
            assert(tail.drop_first() =~= xs.deep_view().skip(from + 1));
            assert(tail[0] == xs.deep_view()[from as int]);
        }
        r
    }
}

impl ParseError {
    /// The rejection rendered as one line of text, fit for a caller to
    /// surface.
    pub fn message(&self) -> (r: String)
        ensures
            r@ == spec_message(*self),
    {
        match self {
            ParseError::MalformedToken { token } => {
                let mut m = String::from_str("No letters found in bond: ");
                m.append(token.as_str());
                m
            },
            ParseError::MissingNumericSuffix { token } => {
                let mut m = String::from_str("No number part found in bond: ");
                m.append(token.as_str());
                m
            },
            ParseError::InvalidNumericSuffix { token } => {
                let mut m = String::from_str("Invalid number in bond: ");
                m.append(token.as_str());
                m
            },
            ParseError::PrefixMismatch { left, right } => {
                let mut m = String::from_str("Prefix mismatch in range: ");
                m.append(left.as_str());
                m.append(" vs ");
                m.append(right.as_str());
                m
            },
            ParseError::MalformedRangeExpression { piece } => {
                let mut m = String::from_str("Invalid bond format: ");
                m.append(piece.as_str());
                m
            },
            ParseError::EmptyPrefix => String::from_str(
                "Bond validation failed: Bond prefix cannot be empty",
            ),
            ParseError::InvalidRange { start, end } => {
                let mut m = String::from_str("Bond validation failed: Bond start (");
                m.append(u64_to_string(*start).as_str());
                m.append(") cannot be greater than end (");
                m.append(u64_to_string(*end).as_str());
                m.append(")");
                m
            },
            ParseError::DuplicateCertificates { shown, total } => {
                let mut m = String::from_str("Duplicate bonds detected: ");
                m.append(join_from(shown, 0).as_str());
                proof {
                    assert(shown.deep_view().skip(0) =~= shown.deep_view());
                }
                if *total > 5 {
                    m.append(" (and ");
                    m.append(u64_to_string(*total - 5).as_str());
                    m.append(" more)");
                }
                m
            },
            ParseError::OverlappingRanges { first, second, overlap_start, overlap_end } => {
                let mut m = String::from_str("Overlapping bond ranges detected: ");
                m.append(first.prefix.as_str());
                m.append(u64_to_string(first.start).as_str());
                m.append("-");
                m.append(first.prefix.as_str());
                m.append(u64_to_string(first.end).as_str());
                m.append(" and ");
                m.append(second.prefix.as_str());
                m.append(u64_to_string(second.start).as_str());
                m.append("-");
                m.append(second.prefix.as_str());
                m.append(u64_to_string(second.end).as_str());
                m.append(" (overlap: ");
                m.append(first.prefix.as_str());
                m.append(u64_to_string(*overlap_start).as_str());
                m.append("-");
                m.append(first.prefix.as_str());
                m.append(u64_to_string(*overlap_end).as_str());
                m.append(")");
                m
            },
        }
    }
}

} // verus!
