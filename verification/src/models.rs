//! The data the library works on: a held range of certificates under one
//! prefix (`Bond`) and an externally reported winning certificate
//! (`Winner`).

use vstd::prelude::*;

use crate::text::spec_dec;
use crate::text::u64_to_string;

verus! {

/// One externally reported winner: a prize amount as displayed, the same
/// amount as a number (`0` where the display value is not numeric), and
/// the full certificate identifier.
#[derive(Debug)]
pub struct Winner {
    pub prize_value_str: String,
    pub winning_bond: String,
    pub prize_value: u64,
}

/// The mathematical value of a `Winner`.
pub ghost struct WinnerView {
    pub prize_value_str: Seq<char>,
    pub winning_bond: Seq<char>,
    pub prize_value: u64,
}

impl View for Winner {
    type V = WinnerView;

    open spec fn view(&self) -> WinnerView {
        WinnerView {
            prize_value_str: self.prize_value_str@,
            winning_bond: self.winning_bond@,
            prize_value: self.prize_value,
        }
    }
}

impl DeepView for Winner {
    type V = WinnerView;

    open spec fn deep_view(&self) -> WinnerView {
        self.view()
    }
}

impl Clone for Winner {
    fn clone(&self) -> (r: Self)
        ensures
            r@ == self@,
    {
        Winner {
            prize_value_str: self.prize_value_str.clone(),
            winning_bond: self.winning_bond.clone(),
            prize_value: self.prize_value,
        }
    }
}

/// One contiguous block of certificates a user owns: an alphanumeric
/// series prefix and the inclusive numeric bounds of the suffix.
#[derive(Debug)]
pub struct Bond {
    pub prefix: String,
    pub start: u64,
    pub end: u64,
}

/// The mathematical value of a `Bond`.
pub ghost struct BondView {
    pub prefix: Seq<char>,
    pub start: u64,
    pub end: u64,
}

impl BondView {
    /// The structural invariant of a held range: a non-empty prefix and
    /// ordered inclusive bounds.
    pub open spec fn wf(self) -> bool {
        self.prefix.len() > 0 && self.start <= self.end
    }
}

impl View for Bond {
    type V = BondView;

    open spec fn view(&self) -> BondView {
        BondView { prefix: self.prefix@, start: self.start, end: self.end }
    }
}

impl DeepView for Bond {
    type V = BondView;

    open spec fn deep_view(&self) -> BondView {
        self.view()
    }
}

/// The message `validate` reports for a range that breaks the invariant.
pub open spec fn spec_validate_msg(b: BondView) -> Seq<char> {
    if b.prefix.len() == 0 {
        "Bond prefix cannot be empty"@
    } else {
        "Bond start ("@ + spec_dec(b.start as int) + ") cannot be greater than end ("@ + spec_dec(
            b.end as int,
        ) + ")"@
    }
}

impl Clone for Bond {
    fn clone(&self) -> (r: Self)
        ensures
            r@ == self@,
    {
        Bond { prefix: self.prefix.clone(), start: self.start, end: self.end }
    }
}

impl Bond {
    /// Checks the structural invariant: the prefix is non-empty and
    /// `start <= end`. The error carries a message naming the first
    /// broken condition.
    pub fn validate(&self) -> (r: Result<(), String>)
        ensures
            match r {
                Ok(()) => self@.wf(),
                Err(m) => !self@.wf() && m@ == spec_validate_msg(self@),
            },
    {
        if self.prefix.unicode_len() == 0 {
            return Err(String::from_str("Bond prefix cannot be empty"));
        }
        if self.start > self.end {
            let mut m = String::from_str("Bond start (");
            m.append(u64_to_string(self.start).as_str());
            m.append(") cannot be greater than end (");
            m.append(u64_to_string(self.end).as_str());
            m.append(")");
            return Err(m);
        }
        Ok(())
    }
}

} // verus!
