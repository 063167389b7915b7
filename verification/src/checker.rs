//! The matcher: given validated held ranges and an externally supplied
//! winner list, find every winner whose certificate falls inside a held
//! range, and sum the winnings.

use vstd::prelude::*;

use crate::models::Bond;
use crate::models::BondView;
use crate::models::Winner;
use crate::models::WinnerView;
use crate::text::all_digits;
use crate::text::digits_val;
use crate::text::parse_digits_from;
use crate::text::str_eq_str;

verus! {

/// The winner's certificate belongs to the held range: it starts with
/// the range's prefix, and everything after it is the decimal digits of
/// a number lying within the range's inclusive bounds. A certificate no
/// longer than the prefix, or with a non-numeric remainder, never
/// matches.
pub open spec fn spec_matches(w: WinnerView, b: BondView) -> bool {
    let wb = w.winning_bond;
    let p = b.prefix;
    let suf = wb.skip(p.len() as int);
    wb.len() > p.len() && wb.take(p.len() as int) == p && all_digits(suf) && digits_val(suf)
        <= u64::MAX && b.start <= digits_val(suf) && digits_val(suf) <= b.end
}

/// The winner matches at least one of the held ranges.
pub open spec fn spec_matched_by_any(w: WinnerView, bs: Seq<BondView>) -> bool {
    exists|k: int| 0 <= k < bs.len() && spec_matches(w, bs[k])
}

/// The winners that match some held range, in their original order.
pub open spec fn spec_matched(ws: Seq<WinnerView>, bs: Seq<BondView>) -> Seq<WinnerView>
    decreases ws.len(),
{
    if ws.len() == 0 {
        Seq::empty()
    } else {
        spec_matched(ws.drop_last(), bs) + (if spec_matched_by_any(ws.last(), bs) {
            seq![ws.last()]
        } else {
            Seq::empty()
        })
    }
}

/// The prize values of the winners summed, as unbounded arithmetic.
pub open spec fn spec_total(ws: Seq<WinnerView>) -> int
    decreases ws.len(),
{
    if ws.len() == 0 {
        0
    } else {
        spec_total(ws.drop_last()) + ws.last().prize_value
    }
}

/// The outcome of a check: the matching winners in their input order,
/// and their prize values summed. The sum wraps around at 64 bits, a
/// deliberate, non-fatal choice.
#[derive(Debug)]
pub struct MatchResult {
    pub winners: Vec<Winner>,
    pub total: u64,
}

/// A report with these winners and this total is exactly the one owed
/// for ranges `bs` and winner list `ws`.
pub open spec fn match_report_is(
    bs: Seq<BondView>,
    ws: Seq<WinnerView>,
    winners: Seq<WinnerView>,
    total: u64,
) -> bool {
    winners == spec_matched(ws, bs) && total == spec_total(spec_matched(ws, bs))
        % 0x1_0000_0000_0000_0000
}

fn winner_matches(w: &Winner, b: &Bond) -> (r: bool)
    ensures
        r == spec_matches(w@, b@),
{
    let plen = b.prefix.unicode_len();
    let wlen = w.winning_bond.unicode_len();
    if wlen <= plen {
        return false;
    }
    let wpre = w.winning_bond.substring_char(0, plen);
    proof {
        assert(wpre@ =~= w@.winning_bond.take(plen as int));
    }
    if !str_eq_str(wpre, b.prefix.as_str()) {
        return false;
    }
    match parse_digits_from(w.winning_bond.as_str(), plen) {
        None => false,
        Some(v) => b.start <= v && v <= b.end,
    }
}

fn matches_any(w: &Winner, bonds: &Vec<Bond>) -> (r: bool)
    ensures
        r == spec_matched_by_any(w@, bonds.deep_view()),
{
    let ghost bvs = bonds.deep_view();
    let mut k: usize = 0;
    while k < bonds.len()
        invariant
            k <= bonds.len(),
            bvs == bonds.deep_view(),
            forall|m: int| 0 <= m < k ==> !spec_matches(w@, bvs[m]),
        decreases bonds.len() - k,
    {
        if winner_matches(w, &bonds[k]) {
            proof {
                assert(bvs[k as int] == bonds@[k as int]@);
                assert(spec_matches(w@, bvs[k as int]));
            }
            return true;
        }
        proof {
            assert(bvs[k as int] == bonds@[k as int]@);
        }
        k = k + 1;
    }
    false
}

/// Checks every winner against the held ranges: the result lists the
/// matching winners in their input order and sums their prize values,
/// wrapping around at 64 bits should the winnings overflow.
pub fn check_winners(my_bonds: &Vec<Bond>, winners: &Vec<Winner>) -> (r: MatchResult)
    ensures
        match_report_is(
            my_bonds.deep_view(),
            winners.deep_view(),
            r.winners.deep_view(),
            r.total,
        ),
{
    let ghost bvs = my_bonds.deep_view();
    let ghost wvs = winners.deep_view();
    let mut matched: Vec<Winner> = Vec::new();
    let mut total: u64 = 0;
    let mut i: usize = 0;
    while i < winners.len()
        invariant
            i <= winners.len(),
            bvs == my_bonds.deep_view(),
            wvs == winners.deep_view(),
            matched.deep_view() == spec_matched(wvs.take(i as int), bvs),
            total == spec_total(spec_matched(wvs.take(i as int), bvs)) % 0x1_0000_0000_0000_0000,
        decreases winners.len() - i,
    {
        let ghost prevdeep = matched.deep_view();
        let ghost prevmatched = spec_matched(wvs.take(i as int), bvs);
        let w = &winners[i];
        proof {
            assert(w@ == wvs[i as int]);
            assert(wvs.take(i + 1).drop_last() =~= wvs.take(i as int));
            assert(wvs.take(i + 1).last() == wvs[i as int]);
        }
        if matches_any(w, my_bonds) {
            let ghost s = spec_total(prevmatched);
            let item = w.clone();
            let ghost itemv = item@;
            matched.push(item);
            proof {
                assert(forall|m: int|
                    0 <= m < prevdeep.len() ==> matched.deep_view()[m] == prevdeep[m]);
                assert(matched.deep_view()[prevdeep.len() as int] == itemv);
                assert(matched.deep_view() =~= prevdeep.push(itemv));
                assert(itemv == wvs[i as int]);
                assert(spec_matched(wvs.take(i + 1), bvs) =~= prevmatched.push(wvs[i as int]));
                assert(spec_matched(wvs.take(i + 1), bvs).drop_last() =~= prevmatched);
                assert(spec_total(spec_matched(wvs.take(i + 1), bvs)) == s
                    + wvs[i as int].prize_value);
                vstd::arithmetic::div_mod::lemma_add_mod_noop(
                    s,
                    wvs[i as int].prize_value as int,
                    0x1_0000_0000_0000_0000,
                );
                vstd::arithmetic::div_mod::lemma_small_mod(
                    wvs[i as int].prize_value as nat,
                    0x1_0000_0000_0000_0000,
                );
                vstd::arithmetic::div_mod::lemma_mod_twice(s, 0x1_0000_0000_0000_0000);
            }
            total = total.wrapping_add(w.prize_value);
            proof {
                let m: int = 0x1_0000_0000_0000_0000;
                let a = (s % m) + wvs[i as int].prize_value;
                if a > u64::MAX {
                    vstd::arithmetic::div_mod::lemma_mod_sub_multiples_vanish(a - m, m);
                    vstd::arithmetic::div_mod::lemma_small_mod((a - m) as nat, m as nat);
                } else {
                    vstd::arithmetic::div_mod::lemma_small_mod(a as nat, m as nat);
                }
            }
        } else {
            proof {
                assert(spec_matched(wvs.take(i + 1), bvs) =~= prevmatched);
            }
        }
        i = i + 1;
    }
    proof {
        assert(wvs.take(winners@.len() as int) =~= wvs);
    }
    MatchResult { winners: matched, total }
}

} // verus!
