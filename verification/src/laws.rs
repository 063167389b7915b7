//! The general properties the library states about itself, each proved
//! once and for all inputs: how valid tokens split, which tokens can
//! never split, what simple range expressions parse to, and that the
//! matcher is a pure function of its inputs.

use vstd::prelude::*;

use crate::checker::match_report_is;
use crate::parser::spec_overlaps;
use crate::errors::SpecError;
use crate::models::BondView;
use crate::models::WinnerView;
use crate::parser::all_ids;
use crate::parser::bond_id;
use crate::parser::ids_of_range;
use crate::parser::lemma_split_at_first;
use crate::parser::lemma_split_no_sep;
use crate::parser::spec_check_bond;
use crate::parser::spec_dups;
use crate::parser::spec_first_overlap;
use crate::parser::spec_first_overlap_from;
use crate::parser::spec_last_letter;
use crate::parser::spec_parse_bonds;
use crate::parser::spec_partner;
use crate::parser::spec_piece;
use crate::parser::spec_pieces;
use crate::parser::spec_same_prefix_overlap;
use crate::parser::spec_split;
use crate::parser::spec_token;
use crate::text::is_digit;
use crate::text::is_space;
use crate::text::lemma_spec_dec_injective;
use crate::text::spec_dec;
use crate::text::spec_trim;
use crate::text::trim_back;
use crate::text::trim_front;
use crate::text::all_digits;
use crate::text::digits_val;
use crate::text::is_letter;

verus! {

proof fn lemma_last_letter_append_nonletters(s: Seq<char>, d: Seq<char>)
    requires
        forall|j: int| 0 <= j < d.len() ==> !is_letter(#[trigger] d[j]),
    ensures
        spec_last_letter(s + d) == spec_last_letter(s),
    decreases d.len(),
{
    if d.len() == 0 {
        assert(s + d =~= s);
    } else {
        let sd = s + d;
        assert(sd.last() == d.last());
        assert(sd.drop_last() =~= s + d.drop_last());
        lemma_last_letter_append_nonletters(s, d.drop_last());
    }
}

/// Splitting a well-formed token: for every non-empty all-letter prefix
/// and every non-empty digit string whose value fits in 64 bits, the
/// concatenation splits back into exactly that prefix and that value.
pub proof fn lemma_split_valid_token(p: Seq<char>, d: Seq<char>)
    requires
        p.len() > 0,
        forall|i: int| 0 <= i < p.len() ==> is_letter(#[trigger] p[i]),
        d.len() > 0,
        all_digits(d),
        digits_val(d) <= u64::MAX,
    ensures
        spec_token(p + d) == Ok::<_, SpecError>((p, digits_val(d) as u64)),
{
    let t = p + d;
    assert(forall|j: int| 0 <= j < d.len() ==> !is_letter(#[trigger] d[j]));
    lemma_last_letter_append_nonletters(p, d);
    assert(is_letter(p.last()));
    assert(spec_last_letter(p) == p.len() - 1);
    assert(spec_last_letter(t) == p.len() - 1);
    assert(t.skip(p.len() as int) =~= d);
    assert(t.take(p.len() as int) =~= p);
}

/// A token with no alphabetic character never splits: it is rejected as
/// malformed, whatever else it holds.
pub proof fn lemma_token_without_letter_fails(t: Seq<char>)
    requires
        forall|j: int| 0 <= j < t.len() ==> !is_letter(#[trigger] t[j]),
    ensures
        spec_token(t) == Err::<(Seq<char>, u64), _>(SpecError::MalformedToken { token: t }),
    decreases t.len(),
{
    if t.len() > 0 {
        lemma_token_without_letter_fails(t.drop_last());
    }
}

/// A token whose last character is alphabetic never splits: nothing
/// follows the prefix, so the numeric suffix is missing.
pub proof fn lemma_token_trailing_letter_fails(t: Seq<char>)
    requires
        t.len() > 0,
        is_letter(t.last()),
    ensures
        spec_token(t) == Err::<(Seq<char>, u64), _>(SpecError::MissingNumericSuffix { token: t }),
{
    assert(spec_last_letter(t) == t.len() - 1);
}

/// The overlap predicate is symmetric in its two ranges.
pub proof fn lemma_overlaps_symmetric(start1: u64, end1: u64, start2: u64, end2: u64)
    ensures
        spec_overlaps(start1, end1, start2, end2) == spec_overlaps(start2, end2, start1, end1),
{
}

/// Two ranges that touch at a single shared number overlap.
pub proof fn lemma_touching_ranges_overlap(start1: u64, end1: u64, start2: u64, end2: u64)
    requires
        start1 <= end1,
        start2 <= end2,
        end1 == start2,
    ensures
        spec_overlaps(start1, end1, start2, end2),
{
}

/// The match report is a function of the ranges and the winner list
/// alone: two reports owed for the same inputs are identical, so
/// running the matcher twice changes nothing.
pub proof fn lemma_match_report_unique(
    bs: Seq<BondView>,
    ws: Seq<WinnerView>,
    winners1: Seq<WinnerView>,
    total1: u64,
    winners2: Seq<WinnerView>,
    total2: u64,
)
    requires
        match_report_is(bs, ws, winners1, total1),
        match_report_is(bs, ws, winners2, total2),
    ensures
        winners1 == winners2,
        total1 == total2,
{
}

proof fn lemma_repeat_implies_dups(ids: Seq<Seq<char>>, t: int, t2: int)
    requires
        0 <= t < t2 < ids.len(),
        ids[t] == ids[t2],
    ensures
        spec_dups(ids).len() > 0,
    decreases ids.len(),
{
    if t2 == ids.len() - 1 {
        assert(ids.drop_last()[t] == ids[t]);
        assert(ids.drop_last().contains(ids.last()));
        let prev = spec_dups(ids.drop_last());
        if prev.contains(ids.last()) {
            let k = choose|k: int| 0 <= k < prev.len() && prev[k] == ids.last();
            assert(prev.len() > 0);
        }
    } else {
        assert(ids.drop_last()[t] == ids[t]);
        assert(ids.drop_last()[t2] == ids[t2]);
        lemma_repeat_implies_dups(ids.drop_last(), t, t2);
    }
}

proof fn lemma_all_ids_block(bs: Seq<BondView>, m: int)
    requires
        0 <= m < bs.len(),
    ensures
        all_ids(bs.take(m + 1)) == all_ids(bs.take(m)) + ids_of_range(bs[m]),
{
    assert(bs.take(m + 1).drop_last() =~= bs.take(m));
    assert(bs.take(m + 1).last() == bs[m]);
}

proof fn lemma_all_ids_prefix(bs: Seq<BondView>, m: int)
    requires
        0 <= m <= bs.len(),
    ensures
        all_ids(bs.take(m)).len() <= all_ids(bs).len(),
        forall|t: int|
            0 <= t < all_ids(bs.take(m)).len() ==> all_ids(bs)[t] == #[trigger] all_ids(
                bs.take(m),
            )[t],
    decreases bs.len() - m,
{
    if m == bs.len() {
        assert(bs.take(m) =~= bs);
    } else {
        lemma_all_ids_block(bs, m);
        lemma_all_ids_prefix(bs, m + 1);
        assert forall|t: int| 0 <= t < all_ids(bs.take(m)).len() implies all_ids(bs)[t]
            == all_ids(bs.take(m))[t] by {
            assert(all_ids(bs.take(m + 1))[t] == all_ids(bs.take(m))[t]);
            assert(all_ids(bs)[t] == all_ids(bs.take(m + 1))[t]);
        }
    }
}

proof fn lemma_all_ids_len_monotone(bs: Seq<BondView>, m1: int, m2: int)
    requires
        0 <= m1 <= m2 <= bs.len(),
    ensures
        all_ids(bs.take(m1)).len() <= all_ids(bs.take(m2)).len(),
    decreases m2 - m1,
{
    if m1 < m2 {
        lemma_all_ids_block(bs, m2 - 1);
        lemma_all_ids_len_monotone(bs, m1, m2 - 1);
    }
}

proof fn lemma_overlap_implies_repeat(bs: Seq<BondView>, i: int, j: int)
    requires
        0 <= i < j < bs.len(),
        bs[i].start <= bs[i].end,
        bs[j].start <= bs[j].end,
        spec_same_prefix_overlap(bs, i, j),
    ensures
        spec_dups(all_ids(bs)).len() > 0,
{
    let bi = bs[i];
    let bj = bs[j];
    let num: int = if bi.start >= bj.start {
        bi.start as int
    } else {
        bj.start as int
    };
    assert(bi.start <= num && num <= bi.end);
    assert(bj.start <= num && num <= bj.end);
    let ti = all_ids(bs.take(i)).len() + (num - bi.start);
    let tj = all_ids(bs.take(j)).len() + (num - bj.start);
    lemma_all_ids_block(bs, i);
    lemma_all_ids_prefix(bs, i + 1);
    lemma_all_ids_block(bs, j);
    lemma_all_ids_prefix(bs, j + 1);
    lemma_all_ids_len_monotone(bs, i + 1, j);
    assert(ids_of_range(bi)[num - bi.start] == bond_id(bi.prefix, num));
    assert(ids_of_range(bj)[num - bj.start] == bond_id(bj.prefix, num));
    assert(ti < all_ids(bs.take(i + 1)).len());
    assert(tj < all_ids(bs.take(j + 1)).len());
    assert(all_ids(bs.take(i + 1))[ti] == ids_of_range(bi)[num - bi.start]);
    assert(all_ids(bs.take(j + 1))[tj] == ids_of_range(bj)[num - bj.start]);
    assert(all_ids(bs)[ti] == all_ids(bs.take(i + 1))[ti]);
    assert(all_ids(bs)[tj] == all_ids(bs.take(j + 1))[tj]);
    assert(all_ids(bs)[ti] == bond_id(bi.prefix, num));
    assert(all_ids(bs)[tj] == bond_id(bi.prefix, num));
    assert(all_ids(bs.take(i + 1)).len() <= all_ids(bs.take(j)).len());
    assert(ti < tj);
    lemma_repeat_implies_dups(all_ids(bs), ti, tj);
}

/// A specification whose ranges cover some certificate number twice —
/// the identifier stream repeats an entry — is rejected with the
/// duplicate condition, never accepted and never reported otherwise.
pub proof fn lemma_covered_twice_rejected(s: Seq<char>, t: int, t2: int)
    requires
        spec_pieces(spec_split(s, ',')) is Ok,
        0 <= t < t2 < all_ids(spec_pieces(spec_split(s, ','))->Ok_0).len(),
        all_ids(spec_pieces(spec_split(s, ','))->Ok_0)[t] == all_ids(
            spec_pieces(spec_split(s, ','))->Ok_0,
        )[t2],
    ensures
        spec_parse_bonds(s) is Err,
        spec_parse_bonds(s)->Err_0 is DuplicateCertificates,
{
    lemma_repeat_implies_dups(all_ids(spec_pieces(spec_split(s, ','))->Ok_0), t, t2);
}

/// A specification with two well-formed ranges that overlap under one
/// prefix is rejected the same way: the duplicate check subsumes the
/// overlap check, which never gets to fire first.
pub proof fn lemma_overlapping_ranges_rejected(s: Seq<char>, i: int, j: int)
    requires
        spec_pieces(spec_split(s, ',')) is Ok,
        0 <= i < j < spec_pieces(spec_split(s, ','))->Ok_0.len(),
        spec_pieces(spec_split(s, ','))->Ok_0[i].start <= spec_pieces(
            spec_split(s, ','),
        )->Ok_0[i].end,
        spec_pieces(spec_split(s, ','))->Ok_0[j].start <= spec_pieces(
            spec_split(s, ','),
        )->Ok_0[j].end,
        spec_same_prefix_overlap(spec_pieces(spec_split(s, ','))->Ok_0, i, j),
    ensures
        spec_parse_bonds(s) is Err,
        spec_parse_bonds(s)->Err_0 is DuplicateCertificates,
{
    lemma_overlap_implies_repeat(spec_pieces(spec_split(s, ','))->Ok_0, i, j);
}

proof fn lemma_trim_no_space(s: Seq<char>)
    requires
        forall|j: int| 0 <= j < s.len() ==> !is_space(#[trigger] s[j]),
    ensures
        spec_trim(s) == s,
{
    assert(trim_back(s) == s);
    assert(trim_front(s) == s);
}

proof fn lemma_bond_id_injective_same_prefix(p: Seq<char>, a: int, b: int)
    requires
        a >= 0,
        b >= 0,
        bond_id(p, a) == bond_id(p, b),
    ensures
        a == b,
{
    assert(bond_id(p, a).skip(p.len() as int) =~= spec_dec(a));
    assert(bond_id(p, b).skip(p.len() as int) =~= spec_dec(b));
    lemma_spec_dec_injective(a, b);
}

proof fn lemma_distinct_no_dups(ids: Seq<Seq<char>>)
    requires
        forall|a: int, b: int|
            #![trigger ids[a], ids[b]]
            0 <= a < b < ids.len() ==> ids[a] != ids[b],
    ensures
        spec_dups(ids).len() == 0,
    decreases ids.len(),
{
    if ids.len() > 0 {
        assert(forall|a: int, b: int|
            #![trigger ids.drop_last()[a], ids.drop_last()[b]]
            0 <= a < b < ids.drop_last().len() ==> ids.drop_last()[a] != ids.drop_last()[b]);
        lemma_distinct_no_dups(ids.drop_last());
        if ids.drop_last().contains(ids.last()) {
            let a = choose|a: int|
                0 <= a < ids.drop_last().len() && ids.drop_last()[a] == ids.last();
            assert(ids[a] == ids[ids.len() - 1]);
        }
    }
}

proof fn lemma_pieces_singleton(x: Seq<char>)
    ensures
        spec_pieces(seq![x]) == (match spec_piece(x) {
            Ok(b) => Ok::<Seq<BondView>, SpecError>(seq![b]),
            Err(e) => Err(e),
        }),
{
    assert(seq![x][0] == x);
    assert(seq![x].drop_first() =~~= Seq::<Seq<char>>::empty());
    assert(spec_pieces(Seq::<Seq<char>>::empty()) == Ok::<Seq<BondView>, SpecError>(Seq::empty()));
    match spec_piece(x) {
        Ok(b) => {
            assert(seq![b] + Seq::<BondView>::empty() =~= seq![b]);
        },
        Err(e) => {},
    }
}

proof fn lemma_pieces_pair(x: Seq<char>, y: Seq<char>)
    ensures
        spec_pieces(seq![x, y]) == (match (spec_piece(x), spec_piece(y)) {
            (Ok(a), Ok(b)) => Ok::<Seq<BondView>, SpecError>(seq![a, b]),
            (Err(e), _) => Err(e),
            (Ok(_), Err(e)) => Err(e),
        }),
{
    assert(seq![x, y][0] == x);
    assert(seq![x, y].drop_first() =~~= seq![y]);
    lemma_pieces_singleton(y);
    match (spec_piece(x), spec_piece(y)) {
        (Ok(a), Ok(b)) => {
            assert(seq![a] + seq![b] =~= seq![a, b]);
        },
        _ => {},
    }
}

proof fn lemma_first_overlap_singleton(bs: Seq<BondView>)
    requires
        bs.len() == 1,
    ensures
        spec_first_overlap(bs) is None,
{
    assert(spec_partner(bs, 0, 1) == -1);
    assert(spec_first_overlap_from(bs, 1) is None);
}

proof fn lemma_first_overlap_pair_none(bs: Seq<BondView>)
    requires
        bs.len() == 2,
        !spec_same_prefix_overlap(bs, 0, 1),
    ensures
        spec_first_overlap(bs) is None,
{
    assert(spec_partner(bs, 0, 2) == -1);
    assert(spec_partner(bs, 0, 1) == -1);
    assert(spec_partner(bs, 1, 2) == -1);
    assert(spec_first_overlap_from(bs, 2) is None);
    assert(spec_first_overlap_from(bs, 1) is None);
}

proof fn lemma_range_piece(p: Seq<char>, q: Seq<char>, d1: Seq<char>, d2: Seq<char>)
    requires
        p.len() > 0,
        forall|i: int| 0 <= i < p.len() ==> is_letter(#[trigger] p[i]),
        q.len() > 0,
        forall|i: int| 0 <= i < q.len() ==> is_letter(#[trigger] q[i]),
        d1.len() > 0,
        all_digits(d1),
        digits_val(d1) <= u64::MAX,
        d2.len() > 0,
        all_digits(d2),
        digits_val(d2) <= u64::MAX,
    ensures
        spec_piece(p + d1 + "-"@ + q + d2) == (if p != q {
            Err::<BondView, SpecError>(SpecError::PrefixMismatch { left: p, right: q })
        } else {
            spec_check_bond(
                BondView { prefix: p, start: digits_val(d1) as u64, end: digits_val(d2) as u64 },
            )
        }),
{
    reveal_strlit("-");
    let s = p + d1 + "-"@ + q + d2;
    let k = p.len() + d1.len();
    assert(s.len() == p.len() + d1.len() + 1 + q.len() + d2.len());
    assert forall|j: int| 0 <= j < p.len() implies s[j] == p[j] by {
        assert(s[j] == (p + d1 + "-"@ + q)[j]);
        assert((p + d1 + "-"@ + q)[j] == (p + d1 + "-"@)[j]);
        assert((p + d1 + "-"@)[j] == (p + d1)[j]);
        assert((p + d1)[j] == p[j]);
    }
    assert forall|j: int| 0 <= j < d1.len() implies s[p.len() + j] == d1[j] by {
        assert(s[p.len() + j] == (p + d1 + "-"@ + q)[p.len() + j]);
        assert((p + d1 + "-"@ + q)[p.len() + j] == (p + d1 + "-"@)[p.len() + j]);
        assert((p + d1 + "-"@)[p.len() + j] == (p + d1)[p.len() + j]);
        assert((p + d1)[p.len() + j] == d1[j]);
    }
    assert(s[k as int] == '-') by {
        assert(s[k as int] == (p + d1 + "-"@ + q)[k as int]);
        assert((p + d1 + "-"@ + q)[k as int] == (p + d1 + "-"@)[k as int]);
        assert((p + d1 + "-"@)[k as int] == "-"@[0]);
    }
    assert forall|j: int| 0 <= j < q.len() implies s[k + 1 + j] == q[j] by {
        assert(s[k + 1 + j] == (p + d1 + "-"@ + q)[k + 1 + j]);
        assert((p + d1 + "-"@ + q)[k + 1 + j] == q[j]);
    }
    assert forall|j: int| 0 <= j < d2.len() implies s[k + 1 + q.len() + j] == d2[j] by {
        assert(s[k + 1 + q.len() + j] == d2[j]);
    }
    assert forall|j: int| 0 <= j < s.len() implies !is_space(#[trigger] s[j]) by {
        if j < p.len() {
            assert(s[j] == p[j]);
        } else if j < k {
            assert(s[j] == d1[j - p.len()]);
            assert(is_digit(s[j]));
        } else if j == k {
        } else if j < k + 1 + q.len() {
            assert(s[j] == q[j - (k + 1)]);
        } else {
            assert(s[j] == d2[j - (k + 1 + q.len())]);
            assert(is_digit(s[j]));
        }
    }
    lemma_trim_no_space(s);
    assert forall|j: int| 0 <= j < k implies s[j] != '-' by {
        if j < p.len() {
            assert(s[j] == p[j]);
        } else {
            assert(s[j] == d1[j - p.len()]);
            assert(is_digit(s[j]));
        }
    }
    lemma_split_at_first(s, '-', k as int);
    assert(s.take(k as int) =~= p + d1);
    assert(s.skip(k as int + 1) =~= q + d2);
    assert forall|j: int| 0 <= j < (q + d2).len() implies (q + d2)[j] != '-' by {
        if j < q.len() {
            assert((q + d2)[j] == q[j]);
        } else {
            assert((q + d2)[j] == d2[j - q.len()]);
            assert(is_digit((q + d2)[j]));
        }
    }
    lemma_split_no_sep(q + d2, '-');
    let parts = spec_split(s, '-');
    assert(parts =~~= seq![p + d1, q + d2]);
    assert(parts[0] == p + d1);
    assert(parts[1] == q + d2);
    lemma_split_valid_token(p, d1);
    lemma_split_valid_token(q, d2);
}

/// Parsing a dashed range of one prefix, such as `P100-P200`, yields
/// exactly the one held range with that prefix and those bounds — for
/// every non-empty all-letter prefix.
pub proof fn lemma_parse_plain_range(p: Seq<char>)
    requires
        p.len() > 0,
        forall|i: int| 0 <= i < p.len() ==> is_letter(#[trigger] p[i]),
    ensures
        spec_parse_bonds(p + "100"@ + "-"@ + p + "200"@) == Ok::<_, SpecError>(
            seq![BondView { prefix: p, start: 100, end: 200 }],
        ),
{
    reveal_strlit("100");
    reveal_strlit("200");
    reveal_strlit("-");
    let d1 = "100"@;
    let d2 = "200"@;
    assert(digits_val(Seq::<char>::empty()) == 0);
    assert(d1.drop_last() =~= seq!['1', '0']);
    assert(seq!['1', '0'].drop_last() =~= seq!['1']);
    assert(seq!['1'].drop_last() =~= Seq::<char>::empty());
    assert(digits_val(seq!['1']) == 1);
    assert(digits_val(seq!['1', '0']) == 10);
    assert(digits_val(d1) == 100);
    assert(d2.drop_last() =~= seq!['2', '0']);
    assert(seq!['2', '0'].drop_last() =~= seq!['2']);
    assert(seq!['2'].drop_last() =~= Seq::<char>::empty());
    assert(digits_val(seq!['2']) == 2);
    assert(digits_val(seq!['2', '0']) == 20);
    assert(digits_val(d2) == 200);
    let s = p + d1 + "-"@ + p + d2;
    lemma_range_piece(p, p, d1, d2);
    let bv = BondView { prefix: p, start: 100, end: 200 };
    assert(spec_piece(s) == Ok::<BondView, SpecError>(bv));
    let k = p.len() + d1.len();
    assert forall|j: int| 0 <= j < s.len() implies s[j] != ',' by {
        if j < p.len() {
            assert(s[j] == p[j]);
        } else if j < k {
            assert(s[j] == d1[j - p.len()]);
            assert(is_digit(s[j]));
        } else if j == k {
            assert(s[j] == '-');
        } else if j < k + 1 + p.len() {
            assert(s[j] == p[j - (k + 1)]);
        } else {
            assert(s[j] == d2[j - (k + 1 + p.len())]);
            assert(is_digit(s[j]));
        }
    }
    lemma_split_no_sep(s, ',');
    lemma_pieces_singleton(s);
    assert(spec_pieces(spec_split(s, ',')) == Ok::<Seq<BondView>, SpecError>(seq![bv]));
    assert(seq![bv].drop_last() =~= Seq::<BondView>::empty());
    assert(all_ids(Seq::<BondView>::empty()) == Seq::<Seq<char>>::empty());
    assert(all_ids(seq![bv]) == Seq::<Seq<char>>::empty() + ids_of_range(bv));
    assert(all_ids(seq![bv]) =~~= ids_of_range(bv));
    assert forall|a: int, b: int|
        #![trigger ids_of_range(bv)[a], ids_of_range(bv)[b]]
        0 <= a < b < ids_of_range(bv).len() implies ids_of_range(bv)[a] != ids_of_range(
        bv,
    )[b] by {
        if ids_of_range(bv)[a] == ids_of_range(bv)[b] {
            lemma_bond_id_injective_same_prefix(p, 100 + a, 100 + b);
        }
    }
    lemma_distinct_no_dups(ids_of_range(bv));
    lemma_first_overlap_singleton(seq![bv]);
}

/// Parsing a dashed range whose two tokens name different prefixes,
/// such as `P100-Q200`, always fails with the prefix-mismatch
/// condition carrying both prefixes.
pub proof fn lemma_parse_prefix_mismatch(p: Seq<char>, q: Seq<char>)
    requires
        p.len() > 0,
        forall|i: int| 0 <= i < p.len() ==> is_letter(#[trigger] p[i]),
        q.len() > 0,
        forall|i: int| 0 <= i < q.len() ==> is_letter(#[trigger] q[i]),
        p != q,
    ensures
        spec_parse_bonds(p + "100"@ + "-"@ + q + "200"@) == Err::<Seq<BondView>, _>(
            SpecError::PrefixMismatch { left: p, right: q },
        ),
{
    reveal_strlit("100");
    reveal_strlit("200");
    reveal_strlit("-");
    let d1 = "100"@;
    let d2 = "200"@;
    assert(digits_val(Seq::<char>::empty()) == 0);
    assert(d1.drop_last() =~= seq!['1', '0']);
    assert(seq!['1', '0'].drop_last() =~= seq!['1']);
    assert(seq!['1'].drop_last() =~= Seq::<char>::empty());
    assert(digits_val(seq!['1']) == 1);
    assert(digits_val(seq!['1', '0']) == 10);
    assert(digits_val(d1) == 100);
    assert(d2.drop_last() =~= seq!['2', '0']);
    assert(seq!['2', '0'].drop_last() =~= seq!['2']);
    assert(seq!['2'].drop_last() =~= Seq::<char>::empty());
    assert(digits_val(seq!['2']) == 2);
    assert(digits_val(seq!['2', '0']) == 20);
    assert(digits_val(d2) == 200);
    let s = p + d1 + "-"@ + q + d2;
    lemma_range_piece(p, q, d1, d2);
    let k = p.len() + d1.len();
    assert forall|j: int| 0 <= j < s.len() implies s[j] != ',' by {
        if j < p.len() {
            assert(s[j] == p[j]);
        } else if j < k {
            assert(s[j] == d1[j - p.len()]);
            assert(is_digit(s[j]));
        } else if j == k {
            assert(s[j] == '-');
        } else if j < k + 1 + q.len() {
            assert(s[j] == q[j - (k + 1)]);
        } else {
            assert(s[j] == d2[j - (k + 1 + q.len())]);
            assert(is_digit(s[j]));
        }
    }
    lemma_split_no_sep(s, ',');
    lemma_pieces_singleton(s);
}

/// Parsing two adjacent ranges of one prefix, such as `P1-P5,P6-P10`,
/// always succeeds: touching end to start without sharing a number is
/// no conflict.
pub proof fn lemma_parse_adjacent_ranges(p: Seq<char>)
    requires
        p.len() > 0,
        forall|i: int| 0 <= i < p.len() ==> is_letter(#[trigger] p[i]),
    ensures
        spec_parse_bonds(p + "1"@ + "-"@ + p + "5"@ + ","@ + p + "6"@ + "-"@ + p + "10"@)
            == Ok::<_, SpecError>(
            seq![
                BondView { prefix: p, start: 1, end: 5 },
                BondView { prefix: p, start: 6, end: 10 },
            ],
        ),
{
    reveal_strlit("1");
    reveal_strlit("5");
    reveal_strlit("6");
    reveal_strlit("10");
    reveal_strlit("-");
    reveal_strlit(",");
    let e1 = "1"@;
    let e5 = "5"@;
    let e6 = "6"@;
    let e10 = "10"@;
    assert(digits_val(Seq::<char>::empty()) == 0);
    assert(e1.drop_last() =~= Seq::<char>::empty());
    assert(digits_val(e1) == 1);
    assert(e5.drop_last() =~= Seq::<char>::empty());
    assert(digits_val(e5) == 5);
    assert(e6.drop_last() =~= Seq::<char>::empty());
    assert(digits_val(e6) == 6);
    assert(e10.drop_last() =~= seq!['1']);
    assert(seq!['1'].drop_last() =~= Seq::<char>::empty());
    assert(digits_val(seq!['1']) == 1);
    assert(digits_val(e10) == 10);
    let x = p + e1 + "-"@ + p + e5;
    let y = p + e6 + "-"@ + p + e10;
    let s = p + e1 + "-"@ + p + e5 + ","@ + p + e6 + "-"@ + p + e10;
    let kc = x.len();
    assert(s.len() == x.len() + 1 + y.len());
    assert forall|j: int| 0 <= j < x.len() implies s[j] == x[j] by {
        assert(s[j] == (p + e1 + "-"@ + p + e5 + ","@ + p + e6 + "-"@ + p)[j]);
        assert((p + e1 + "-"@ + p + e5 + ","@ + p + e6 + "-"@ + p)[j] == (p + e1 + "-"@ + p + e5
            + ","@ + p + e6 + "-"@)[j]);
        assert((p + e1 + "-"@ + p + e5 + ","@ + p + e6 + "-"@)[j] == (p + e1 + "-"@ + p + e5 + ","@
            + p + e6)[j]);
        assert((p + e1 + "-"@ + p + e5 + ","@ + p + e6)[j] == (p + e1 + "-"@ + p + e5 + ","@
            + p)[j]);
        assert((p + e1 + "-"@ + p + e5 + ","@ + p)[j] == (p + e1 + "-"@ + p + e5 + ","@)[j]);
        assert((p + e1 + "-"@ + p + e5 + ","@)[j] == x[j]);
    }
    assert(s[kc as int] == ',') by {
        assert(s[kc as int] == (p + e1 + "-"@ + p + e5 + ","@ + p + e6 + "-"@ + p)[kc as int]);
        assert((p + e1 + "-"@ + p + e5 + ","@ + p + e6 + "-"@ + p)[kc as int] == (p + e1 + "-"@ + p
            + e5 + ","@ + p + e6 + "-"@)[kc as int]);
        assert((p + e1 + "-"@ + p + e5 + ","@ + p + e6 + "-"@)[kc as int] == (p + e1 + "-"@ + p + e5
            + ","@ + p + e6)[kc as int]);
        assert((p + e1 + "-"@ + p + e5 + ","@ + p + e6)[kc as int] == (p + e1 + "-"@ + p + e5
            + ","@)[kc as int]);
        assert((p + e1 + "-"@ + p + e5 + ","@)[kc as int] == ","@[0]);
    }
    assert forall|j: int| 0 <= j < y.len() implies s[kc + 1 + j] == y[j] by {
        assert(s[kc + 1 + j] == y[j]);
    }
    let pl = p.len();
    assert forall|j: int| 0 <= j < x.len() implies x[j] != ',' && !is_space(#[trigger] x[j]) by {
        if j < pl {
            assert(x[j] == p[j]);
        } else if j < pl + 1 {
            assert(x[j] == e1[j - pl]);
            assert(is_digit(x[j]));
        } else if j == pl + 1 {
            assert(x[j] == '-');
        } else if j < 2 * pl + 2 {
            assert(x[j] == p[j - (pl + 2)]);
        } else {
            assert(x[j] == e5[j - (2 * pl + 2)]);
            assert(is_digit(x[j]));
        }
    }
    assert forall|j: int| 0 <= j < y.len() implies y[j] != ',' && !is_space(#[trigger] y[j]) by {
        if j < pl {
            assert(y[j] == p[j]);
        } else if j < pl + 1 {
            assert(y[j] == e6[j - pl]);
            assert(is_digit(y[j]));
        } else if j == pl + 1 {
            assert(y[j] == '-');
        } else if j < 2 * pl + 2 {
            assert(y[j] == p[j - (pl + 2)]);
        } else {
            assert(y[j] == e10[j - (2 * pl + 2)]);
            assert(is_digit(y[j]));
        }
    }
    assert forall|j: int| 0 <= j < kc implies s[j] != ',' by {
        assert(s[j] == x[j]);
    }
    lemma_split_at_first(s, ',', kc as int);
    assert(s.take(kc as int) =~= x);
    assert(s.skip(kc as int + 1) =~= y);
    lemma_split_no_sep(y, ',');
    assert(spec_split(s, ',') =~~= seq![x, y]);
    lemma_range_piece(p, p, e1, e5);
    lemma_range_piece(p, p, e6, e10);
    let bv1 = BondView { prefix: p, start: 1, end: 5 };
    let bv2 = BondView { prefix: p, start: 6, end: 10 };
    assert(spec_piece(x) == Ok::<BondView, SpecError>(bv1));
    assert(spec_piece(y) == Ok::<BondView, SpecError>(bv2));
    lemma_pieces_pair(x, y);
    let bs = seq![bv1, bv2];
    assert(spec_pieces(spec_split(s, ',')) == Ok::<Seq<BondView>, SpecError>(bs));
    assert(bs.drop_last() =~= seq![bv1]);
    assert(seq![bv1].drop_last() =~= Seq::<BondView>::empty());
    assert(all_ids(Seq::<BondView>::empty()) == Seq::<Seq<char>>::empty());
    assert(all_ids(seq![bv1]) == Seq::<Seq<char>>::empty() + ids_of_range(bv1));
    assert(all_ids(seq![bv1]) =~~= ids_of_range(bv1));
    let ids = all_ids(bs);
    assert(ids == ids_of_range(bv1) + ids_of_range(bv2));
    assert(ids_of_range(bv1).len() == 5);
    assert(ids_of_range(bv2).len() == 5);
    assert forall|a: int, b: int|
        #![trigger ids[a], ids[b]]
        0 <= a < b < ids.len() implies ids[a] != ids[b] by {
        let na: int = if a < 5 {
            1 + a
        } else {
            6 + (a - 5)
        };
        let nb: int = if b < 5 {
            1 + b
        } else {
            6 + (b - 5)
        };
        assert(ids[a] == bond_id(p, na));
        assert(ids[b] == bond_id(p, nb));
        assert(na < nb);
        if ids[a] == ids[b] {
            lemma_bond_id_injective_same_prefix(p, na, nb);
        }
    }
    lemma_distinct_no_dups(ids);
    assert(!spec_same_prefix_overlap(bs, 0, 1));
    lemma_first_overlap_pair_none(bs);
}

} // verus!
