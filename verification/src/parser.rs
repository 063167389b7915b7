//! The range parser: splitting a certificate token into prefix and
//! number, assembling a comma-separated specification into held ranges,
//! and rejecting duplicate certificates and overlapping ranges.

use vstd::prelude::*;

use crate::errors::ParseError;
use crate::errors::SpecError;
use crate::models::Bond;
use crate::models::BondView;
use crate::text::all_digits;
use crate::text::char_is_letter;
use crate::text::digits_val;
use crate::text::find_char;
use crate::text::is_letter;
use crate::text::parse_digits_from;
use crate::text::spec_trim;
use crate::text::spec_dec;
use crate::text::str_eq_str;
use crate::text::trim_str;
use crate::text::u64_to_string;

verus! {

/// The index of the last alphabetic character of `s`, `-1` when there is
/// none.
pub open spec fn spec_last_letter(s: Seq<char>) -> int
    decreases s.len(),
{
    if s.len() == 0 {
        -1
    } else if is_letter(s.last()) {
        s.len() - 1
    } else {
        spec_last_letter(s.drop_last())
    }
}

proof fn lemma_last_letter_at(s: Seq<char>, k: int)
    requires
        0 <= k < s.len(),
        is_letter(s[k]),
        forall|j: int| k < j < s.len() ==> !is_letter(#[trigger] s[j]),
    ensures
        spec_last_letter(s) == k,
    decreases s.len(),
{
    if k == s.len() - 1 {
    } else {
        assert(!is_letter(s.last()));
        lemma_last_letter_at(s.drop_last(), k);
    }
}

proof fn lemma_last_letter_none(s: Seq<char>)
    requires
        forall|j: int| 0 <= j < s.len() ==> !is_letter(#[trigger] s[j]),
    ensures
        spec_last_letter(s) == -1,
    decreases s.len(),
{
    if s.len() > 0 {
        lemma_last_letter_none(s.drop_last());
    }
}

/// Splitting a token at its last alphabetic character: the prefix runs
/// up to and including that character, the rest must be a decimal number
/// that fits in 64 bits.
pub open spec fn spec_token(t: Seq<char>) -> Result<(Seq<char>, u64), SpecError> {
    let li = spec_last_letter(t);
    if li == -1 {
        Err(SpecError::MalformedToken { token: t })
    } else if li + 1 == t.len() {
        Err(SpecError::MissingNumericSuffix { token: t })
    } else {
        let suf = t.skip(li + 1);
        if all_digits(suf) && digits_val(suf) <= u64::MAX {
            Ok((t.take(li + 1), digits_val(suf) as u64))
        } else {
            Err(SpecError::InvalidNumericSuffix { token: t })
        }
    }
}

fn find_last_letter(s: &str) -> (r: Option<usize>)
    ensures
        match r {
            Some(k) => k < s@.len() && spec_last_letter(s@) == k,
            None => spec_last_letter(s@) == -1,
        },
{
    let n = s.unicode_len();
    let mut i: usize = n;
    while i > 0
        invariant
            i <= n,
            n == s@.len(),
            forall|j: int| i <= j < n ==> !is_letter(#[trigger] s@[j]),
        decreases i,
    {
        if char_is_letter(s.get_char(i - 1)) {
            proof {
                lemma_last_letter_at(s@, i - 1);
            }
            return Some(i - 1);
        }
        i = i - 1;
    }
    proof {
        lemma_last_letter_none(s@);
    }
    None
}

/// Splits a certificate token into its alphanumeric prefix (everything
/// up to and including the last letter) and its numeric suffix.
pub fn parse_bond_number(bond_str: &str) -> (r: Result<(String, u64), ParseError>)
    ensures
        match r {
            Ok((p, n)) => spec_token(bond_str@) == Ok::<_, SpecError>((p@, n)),
            Err(e) => spec_token(bond_str@) is Err && crate::errors::err_matches(
                e,
                spec_token(bond_str@)->Err_0,
            ),
        },
{
    match find_last_letter(bond_str) {
        None => Err(ParseError::MalformedToken { token: String::from_str(bond_str) }),
        Some(k) => {
            let n = bond_str.unicode_len();
            let split = k + 1;
            if split == n {
                Err(ParseError::MissingNumericSuffix { token: String::from_str(bond_str) })
            } else {
                match parse_digits_from(bond_str, split) {
                    None => Err(
                        ParseError::InvalidNumericSuffix { token: String::from_str(bond_str) },
                    ),
                    Some(v) => Ok((String::from_str(bond_str.substring_char(0, split)), v)),
                }
            }
        },
    }
}

/// `s` split on the separator `c`: the pieces between occurrences, in
/// order, separators dropped. An empty string is one empty piece.
pub open spec fn spec_split(s: Seq<char>, c: char) -> Seq<Seq<char>>
    decreases s.len(),
{
    if s.len() == 0 {
        seq![s]
    } else if s[0] == c {
        seq![Seq::<char>::empty()] + spec_split(s.drop_first(), c)
    } else {
        let rest = spec_split(s.drop_first(), c);
        seq![seq![s[0]] + rest[0]] + rest.drop_first()
    }
}

proof fn lemma_split_nonempty(s: Seq<char>, c: char)
    ensures
        spec_split(s, c).len() >= 1,
    decreases s.len(),
{
    if s.len() > 0 {
        lemma_split_nonempty(s.drop_first(), c);
    }
}

pub(crate) proof fn lemma_split_no_sep(s: Seq<char>, c: char)
    requires
        forall|j: int| 0 <= j < s.len() ==> s[j] != c,
    ensures
        spec_split(s, c) == seq![s],
    decreases s.len(),
{
    if s.len() == 0 {
        assert(spec_split(s, c) =~~= seq![s]);
    } else {
        lemma_split_no_sep(s.drop_first(), c);
        assert(seq![s[0]] + s.drop_first() =~= s);
        assert(spec_split(s, c) =~~= seq![s]);
    }
}

pub(crate) proof fn lemma_split_at_first(s: Seq<char>, c: char, k: int)
    requires
        0 <= k < s.len(),
        s[k] == c,
        forall|j: int| 0 <= j < k ==> s[j] != c,
    ensures
        spec_split(s, c) == seq![s.take(k)] + spec_split(s.skip(k + 1), c),
    decreases k,
{
    if k == 0 {
        assert(s.take(0) =~= Seq::<char>::empty());
        assert(s.drop_first() =~= s.skip(1));
        assert(spec_split(s, c) =~~= seq![s.take(0)] + spec_split(s.skip(1), c));
    } else {
        let d = s.drop_first();
        lemma_split_at_first(d, c, k - 1);
        lemma_split_nonempty(d.skip(k), c);
        assert(seq![s[0]] + d.take(k - 1) =~= s.take(k));
        assert(d.skip(k) =~= s.skip(k + 1));
        assert((seq![d.take(k - 1)] + spec_split(d.skip(k), c)).drop_first() =~~= spec_split(
            s.skip(k + 1),
            c,
        ));
        assert(spec_split(s, c) =~~= seq![s.take(k)] + spec_split(s.skip(k + 1), c));
    }
}

/// The structural check a freshly assembled range must pass: non-empty
/// prefix, ordered bounds.
pub open spec fn spec_check_bond(b: BondView) -> Result<BondView, SpecError> {
    if b.prefix.len() == 0 {
        Err(SpecError::EmptyPrefix)
    } else if b.start > b.end {
        Err(SpecError::InvalidRange { start: b.start, end: b.end })
    } else {
        Ok(b)
    }
}

/// One comma-separated piece of a specification, trimmed, read as a
/// single bond or as a dashed range of two bonds under one prefix.
pub open spec fn spec_piece(raw: Seq<char>) -> Result<BondView, SpecError> {
    let p = spec_trim(raw);
    let parts = spec_split(p, '-');
    if parts.len() == 1 {
        match spec_token(parts[0]) {
            Ok((pre, n)) => spec_check_bond(BondView { prefix: pre, start: n, end: n }),
            Err(e) => Err(e),
        }
    } else if parts.len() == 2 {
        match (spec_token(parts[0]), spec_token(parts[1])) {
            (Ok((p1, n1)), Ok((p2, n2))) => if p1 != p2 {
                Err(SpecError::PrefixMismatch { left: p1, right: p2 })
            } else {
                spec_check_bond(BondView { prefix: p1, start: n1, end: n2 })
            },
            (Err(e), _) => Err(e),
            (_, Err(e)) => Err(e),
        }
    } else {
        Err(SpecError::MalformedRangeExpression { piece: p })
    }
}

fn check_bond(b: Bond) -> (r: Result<Bond, ParseError>)
    ensures
        match (r, spec_check_bond(b@)) {
            (Ok(rb), Ok(sb)) => rb@ == sb,
            (Err(e), Err(se)) => crate::errors::err_matches(e, se),
            _ => false,
        },
{
    if b.prefix.unicode_len() == 0 {
        Err(ParseError::EmptyPrefix)
    } else if b.start > b.end {
        Err(ParseError::InvalidRange { start: b.start, end: b.end })
    } else {
        Ok(b)
    }
}

fn parse_piece(raw: &str) -> (r: Result<Bond, ParseError>)
    ensures
        match (r, spec_piece(raw@)) {
            (Ok(rb), Ok(sb)) => rb@ == sb,
            (Err(e), Err(se)) => crate::errors::err_matches(e, se),
            _ => false,
        },
{
    let p = trim_str(raw);
    let n = p.unicode_len();
    match find_char(p, 0, '-') {
        None => {
            proof {
                lemma_split_no_sep(p@, '-');
            }
            match parse_bond_number(p) {
                Err(e) => Err(e),
                Ok((prefix, num)) => check_bond(Bond { prefix, start: num, end: num }),
            }
        },
        Some(k1) => {
            match find_char(p, k1 + 1, '-') {
                Some(k2) => {
                    proof {
                        lemma_split_at_first(p@, '-', k1 as int);
                        let rest = p@.skip(k1 + 1);
                        assert(rest[k2 - (k1 + 1)] == p@[k2 as int]);
                        assert(forall|j: int|
                            0 <= j < k2 - (k1 + 1) ==> #[trigger] rest[j] == p@[j + k1 + 1]);
                        lemma_split_at_first(rest, '-', k2 - (k1 + 1));
                        lemma_split_nonempty(rest.skip(k2 - (k1 + 1) + 1), '-');
                    }
                    Err(ParseError::MalformedRangeExpression { piece: String::from_str(p) })
                },
                None => {
                    proof {
                        lemma_split_at_first(p@, '-', k1 as int);
                        let rest = p@.skip(k1 + 1);
                        assert(forall|j: int|
                            0 <= j < rest.len() ==> #[trigger] rest[j] == p@[j + k1 + 1]);
                        lemma_split_no_sep(rest, '-');
                    }
                    let left = p.substring_char(0, k1);
                    let right = p.substring_char(k1 + 1, n);
                    proof {
                        assert(left@ =~= p@.take(k1 as int));
                        assert(right@ =~= p@.skip(k1 + 1));
                    }
                    match parse_bond_number(left) {
                        Err(e) => Err(e),
                        Ok((p1, n1)) => match parse_bond_number(right) {
                            Err(e) => Err(e),
                            Ok((p2, n2)) => {
                                if !str_eq_str(p1.as_str(), p2.as_str()) {
                                    Err(ParseError::PrefixMismatch { left: p1, right: p2 })
                                } else {
                                    check_bond(Bond { prefix: p1, start: n1, end: n2 })
                                }
                            },
                        },
                    }
                },
            }
        },
    }
}

/// One certificate identifier: the prefix followed by the serial
/// number's decimal digits.
pub open spec fn bond_id(p: Seq<char>, n: int) -> Seq<char> {
    p + spec_dec(n)
}

/// Every certificate identifier a range covers, in increasing order of
/// serial number.
pub open spec fn ids_of_range(b: BondView) -> Seq<Seq<char>> {
    if b.start <= b.end {
        Seq::new((b.end - b.start + 1) as nat, |k: int| bond_id(b.prefix, b.start + k))
    } else {
        Seq::empty()
    }
}

/// The identifiers of a whole range list, range by range, in order.
pub open spec fn all_ids(bs: Seq<BondView>) -> Seq<Seq<char>>
    decreases bs.len(),
{
    if bs.len() == 0 {
        Seq::empty()
    } else {
        all_ids(bs.drop_last()) + ids_of_range(bs.last())
    }
}

/// The distinct identifiers that occur more than once in the stream,
/// each listed once, in the order a left-to-right scan first meets one
/// again.
pub open spec fn spec_dups(ids: Seq<Seq<char>>) -> Seq<Seq<char>>
    decreases ids.len(),
{
    if ids.len() == 0 {
        Seq::empty()
    } else {
        let prev = spec_dups(ids.drop_last());
        prev + (if ids.drop_last().contains(ids.last()) && !prev.contains(ids.last()) {
            seq![ids.last()]
        } else {
            Seq::empty()
        })
    }
}

/// Two inclusive ranges intersect; touching at a single shared number
/// counts, being merely adjacent does not.
pub open spec fn spec_overlaps(start1: u64, end1: u64, start2: u64, end2: u64) -> bool {
    !(end1 < start2 || end2 < start1)
}

/// Ranges `i` and `j` of the list are in conflict: one prefix, shared
/// numbers.
pub open spec fn spec_same_prefix_overlap(bs: Seq<BondView>, i: int, j: int) -> bool {
    bs[i].prefix == bs[j].prefix && spec_overlaps(bs[i].start, bs[i].end, bs[j].start, bs[j].end)
}

/// The first partner at or after `j` that conflicts with range `i`,
/// `-1` when there is none.
pub open spec fn spec_partner(bs: Seq<BondView>, i: int, j: int) -> int
    decreases bs.len() - j,
{
    if j < 0 || j >= bs.len() {
        -1
    } else if spec_same_prefix_overlap(bs, i, j) {
        j
    } else {
        spec_partner(bs, i, j + 1)
    }
}

/// The first conflicting pair found scanning each range against the
/// later ones, starting the outer scan at `i`.
pub open spec fn spec_first_overlap_from(bs: Seq<BondView>, i: int) -> Option<(int, int)>
    decreases bs.len() - i,
{
    if i < 0 || i >= bs.len() {
        None
    } else {
        let j = spec_partner(bs, i, i + 1);
        if j >= 0 {
            Some((i, j))
        } else {
            spec_first_overlap_from(bs, i + 1)
        }
    }
}

/// The first conflicting pair of the list in scan order, if any.
pub open spec fn spec_first_overlap(bs: Seq<BondView>) -> Option<(int, int)> {
    spec_first_overlap_from(bs, 0)
}

/// Whether two inclusive ranges intersect; touching at one shared number
/// counts.
pub fn ranges_overlap(start1: u64, end1: u64, start2: u64, end2: u64) -> (r: bool)
    ensures
        r == spec_overlaps(start1, end1, start2, end2),
{
    !(end1 < start2 || end2 < start1)
}

/// Enumerates every certificate identifier the ranges cover, in order.
fn enumerate_ids(bonds: &Vec<Bond>) -> (ids: Vec<String>)
    ensures
        ids.deep_view() == all_ids(bonds.deep_view()),
{
    let ghost bvs = bonds.deep_view();
    let mut ids: Vec<String> = Vec::new();
    let mut i: usize = 0;
    while i < bonds.len()
        invariant
            i <= bonds.len(),
            bvs == bonds.deep_view(),
            ids.deep_view() == all_ids(bvs.take(i as int)),
        decreases bonds.len() - i,
    {
        let b = &bonds[i];
        if b.start <= b.end {
            let mut num = b.start;
            loop
                invariant_except_break
                    b.start <= num <= b.end,
                    bvs == bonds.deep_view(),
                    i < bonds.len(),
                    *b == bonds[i as int],
                    b@ == bvs[i as int],
                    ids.deep_view() == all_ids(bvs.take(i as int)) + Seq::new(
                        (num - b.start) as nat,
                        |k: int| bond_id(b@.prefix, b.start + k),
                    ),
                ensures
                    ids.deep_view() == all_ids(bvs.take(i as int)) + ids_of_range(bvs[i as int]),
                decreases b.end - num,
            {
                let mut id = b.prefix.clone();
                id.append(u64_to_string(num).as_str());
                let ghost prevdeep = ids.deep_view();
                let ghost idv = id@;
                ids.push(id);
                proof {
                    assert(forall|m: int|
                        0 <= m < prevdeep.len() ==> ids.deep_view()[m] == prevdeep[m]);
                    assert(ids.deep_view()[prevdeep.len() as int] == idv);
                    assert(ids.deep_view() =~= prevdeep.push(idv));
                    assert(idv == bond_id(b@.prefix, num as int));
                    assert(prevdeep.push(idv) =~= all_ids(bvs.take(i as int)) + Seq::new(
                        (num + 1 - b.start) as nat,
                        |k: int| bond_id(b@.prefix, b.start + k),
                    ));
                }
                if num == b.end {
                    proof {
                        assert(Seq::new(
                            (num + 1 - b.start) as nat,
                            |k: int| bond_id(b@.prefix, b.start + k),
                        ) =~~= ids_of_range(bvs[i as int]));
                    }
                    break ;
                }
                num = num + 1;
            }
        } else {
            proof {
                assert(ids.deep_view() =~~= all_ids(bvs.take(i as int)) + ids_of_range(
                    bvs[i as int],
                ));
            }
        }
        proof {
            assert(bvs.take(i + 1).drop_last() =~= bvs.take(i as int));
            assert(bvs.take(i + 1).last() == bvs[i as int]);
        }
        i = i + 1;
    }
    proof {
        assert(bvs.take(bonds.len() as int) =~= bvs);
    }
    ids
}

/// Rejects a range list in which some certificate number is covered
/// twice. The error lists the first five distinct duplicated
/// identifiers, in the order a full left-to-right enumeration first
/// meets each one again, and the count of distinct duplicated
/// identifiers in all.
pub fn check_for_duplicates(bonds: &Vec<Bond>) -> (r: Result<(), ParseError>)
    ensures
        ({
            let dups = spec_dups(all_ids(bonds.deep_view()));
            match r {
                Ok(()) => dups.len() == 0,
                Err(e) => crate::errors::err_matches(
                    e,
                    SpecError::DuplicateCertificates { dups },
                ),
            }
        }),
{
    let ids = enumerate_ids(bonds);
    let ghost idseq = ids.deep_view();
    let mut dups: Vec<String> = Vec::new();
    let mut t: usize = 0;
    while t < ids.len()
        invariant
            t <= ids.len(),
            idseq == ids.deep_view(),
            dups.deep_view() == spec_dups(idseq.take(t as int)),
        decreases ids.len() - t,
    {
        let mut t2: usize = 0;
        let mut found = false;
        while t2 < t
            invariant
                t2 <= t < ids@.len(),
                idseq == ids.deep_view(),
                found == exists|j: int| 0 <= j < t2 && idseq[j] == idseq[t as int],
            decreases t - t2,
        {
            let eq = str_eq_str(ids[t2].as_str(), ids[t].as_str());
            proof {
                assert(eq == (idseq[t2 as int] == idseq[t as int]));
                if eq {
                    assert(exists|j: int| 0 <= j < t2 + 1 && idseq[j] == idseq[t as int]) by {
                        assert(idseq[t2 as int] == idseq[t as int]);
                    }
                }
            }
            if eq {
                found = true;
            }
            t2 = t2 + 1;
        }
        let ghost prevdups = dups.deep_view();
        let mut d2: usize = 0;
        let mut listed = false;
        while d2 < dups.len()
            invariant
                d2 <= dups@.len(),
                t < ids@.len(),
                idseq == ids.deep_view(),
                prevdups == dups.deep_view(),
                listed == exists|j: int| 0 <= j < d2 && prevdups[j] == idseq[t as int],
            decreases dups@.len() - d2,
        {
            let eq = str_eq_str(dups[d2].as_str(), ids[t].as_str());
            proof {
                assert(eq == (prevdups[d2 as int] == idseq[t as int]));
                if eq {
                    assert(exists|j: int| 0 <= j < d2 + 1 && prevdups[j] == idseq[t as int]) by {
                        assert(prevdups[d2 as int] == idseq[t as int]);
                    }
                }
            }
            if eq {
                listed = true;
            }
            d2 = d2 + 1;
        }
        if found && !listed {
            dups.push(ids[t].clone());
        }
        proof {
            assert(idseq.take(t + 1).drop_last() =~= idseq.take(t as int));
            assert(idseq.take(t + 1).last() == idseq[t as int]);
            if found {
                let j = choose|j: int| 0 <= j < t && idseq[j] == idseq[t as int];
                assert(idseq.take(t as int)[j] == idseq[t as int]);
                assert(idseq.take(t as int).contains(idseq[t as int]));
            } else {
                if idseq.take(t as int).contains(idseq[t as int]) {
                    let j = choose|j: int|
                        0 <= j < t && idseq.take(t as int)[j] == idseq[t as int];
                    assert(idseq[j] == idseq[t as int]);
                }
            }
            if listed {
                let j = choose|j: int|
                    0 <= j < prevdups.len() && prevdups[j] == idseq[t as int];
                assert(prevdups.contains(idseq[t as int]));
            } else {
                if prevdups.contains(idseq[t as int]) {
                    let j = choose|j: int|
                        0 <= j < prevdups.len() && prevdups[j] == idseq[t as int];
                    assert(prevdups[j] == idseq[t as int]);
                }
            }
            assert(dups.deep_view() =~~= spec_dups(idseq.take(t + 1)));
        }
        t = t + 1;
    }
    proof {
        assert(idseq.take(ids@.len() as int) =~= idseq);
    }
    if dups.len() > 0 {
        let limit: usize = if dups.len() < 5 {
            dups.len()
        } else {
            5
        };
        let mut shown: Vec<String> = Vec::new();
        let mut k: usize = 0;
        while k < limit
            invariant
                k <= limit <= dups.len(),
                shown.deep_view() == dups.deep_view().take(k as int),
            decreases limit - k,
        {
            let ghost prevdeep = shown.deep_view();
            let item = dups[k].clone();
            let ghost itemv = item@;
            shown.push(item);
            proof {
                assert(forall|m: int|
                    0 <= m < prevdeep.len() ==> shown.deep_view()[m] == prevdeep[m]);
                assert(shown.deep_view()[prevdeep.len() as int] == itemv);
                assert(shown.deep_view() =~= prevdeep.push(itemv));
                assert(itemv == dups.deep_view()[k as int]);
                assert(prevdeep.push(itemv) =~= dups.deep_view().take(k + 1));
            }
            k = k + 1;
        }
        let total = dups.len() as u64;
        proof {
            if dups.deep_view().len() <= 5 {
                assert(dups.deep_view().take(limit as int) =~~= dups.deep_view());
            }
        }
        Err(ParseError::DuplicateCertificates { shown, total })
    } else {
        Ok(())
    }
}

/// Rejects a range list in which two ranges under one prefix intersect.
/// The error carries the first conflicting pair in scan order and the
/// bounds of the intersection.
pub fn check_for_overlaps(bonds: &Vec<Bond>) -> (r: Result<(), ParseError>)
    ensures
        match (r, spec_first_overlap(bonds.deep_view())) {
            (Ok(()), None) => true,
            (Err(e), Some(ij)) => crate::errors::err_matches(
                e,
                SpecError::OverlappingRanges {
                    first: bonds.deep_view()[ij.0],
                    second: bonds.deep_view()[ij.1],
                },
            ),
            _ => false,
        },
{
    let ghost bvs = bonds.deep_view();
    let mut i: usize = 0;
    while i < bonds.len()
        invariant
            i <= bonds.len(),
            bvs == bonds.deep_view(),
            spec_first_overlap(bvs) == spec_first_overlap_from(bvs, i as int),
        decreases bonds.len() - i,
    {
        let mut j: usize = i + 1;
        while j < bonds.len()
            invariant
                i < j <= bonds.len(),
                i < bonds.len(),
                bvs == bonds.deep_view(),
                spec_first_overlap(bvs) == spec_first_overlap_from(bvs, i as int),
                spec_partner(bvs, i as int, i + 1) == spec_partner(bvs, i as int, j as int),
            decreases bonds.len() - j,
        {
            if str_eq_str(bonds[i].prefix.as_str(), bonds[j].prefix.as_str()) && ranges_overlap(
                bonds[i].start,
                bonds[i].end,
                bonds[j].start,
                bonds[j].end,
            ) {
                let overlap_start = if bonds[i].start >= bonds[j].start {
                    bonds[i].start
                } else {
                    bonds[j].start
                };
                let overlap_end = if bonds[i].end <= bonds[j].end {
                    bonds[i].end
                } else {
                    bonds[j].end
                };
                proof {
                    assert(bvs[i as int] == bonds@[i as int]@);
                    assert(bvs[j as int] == bonds@[j as int]@);
                    assert(spec_same_prefix_overlap(bvs, i as int, j as int));
                    assert(spec_partner(bvs, i as int, j as int) == j as int);
                    assert(spec_first_overlap(bvs) == Some((i as int, j as int)));
                }
                return Err(
                    ParseError::OverlappingRanges {
                        first: bonds[i].clone(),
                        second: bonds[j].clone(),
                        overlap_start,
                        overlap_end,
                    },
                );
            }
            j = j + 1;
        }
        i = i + 1;
    }
    Ok(())
}

/// The pieces of a specification parsed in order; the first failing
/// piece aborts the whole parse.
pub open spec fn spec_pieces(ps: Seq<Seq<char>>) -> Result<Seq<BondView>, SpecError>
    decreases ps.len(),
{
    if ps.len() == 0 {
        Ok(Seq::empty())
    } else {
        match spec_piece(ps[0]) {
            Err(e) => Err(e),
            Ok(b) => match spec_pieces(ps.drop_first()) {
                Err(e) => Err(e),
                Ok(rest) => Ok(seq![b] + rest),
            },
        }
    }
}

/// The whole parse: split on commas, read each piece as a bond or a
/// range, then reject duplicate certificate numbers and, after that,
/// overlapping ranges.
pub open spec fn spec_parse_bonds(s: Seq<char>) -> Result<Seq<BondView>, SpecError> {
    match spec_pieces(spec_split(s, ',')) {
        Err(e) => Err(e),
        Ok(bs) => {
            let dups = spec_dups(all_ids(bs));
            if dups.len() > 0 {
                Err(SpecError::DuplicateCertificates { dups })
            } else {
                match spec_first_overlap(bs) {
                    Some(ij) => Err(
                        SpecError::OverlappingRanges { first: bs[ij.0], second: bs[ij.1] },
                    ),
                    None => Ok(bs),
                }
            }
        },
    }
}

/// Parses a comma-separated bond specification into its validated held
/// ranges, in input order. Single numbers become one-certificate
/// ranges; `A-B` pieces must name one prefix twice. A specification in
/// which any certificate number is covered twice, or in which two
/// ranges under one prefix intersect, is rejected as a whole.
pub fn parse_bonds(bonds_str: &str) -> (r: Result<Vec<Bond>, ParseError>)
    ensures
        match (r, spec_parse_bonds(bonds_str@)) {
            (Ok(bonds), Ok(bs)) => bonds.deep_view() == bs,
            (Err(e), Err(se)) => crate::errors::err_matches(e, se),
            _ => false,
        },
{
    let ghost whole = spec_pieces(spec_split(bonds_str@, ','));
    let n = bonds_str.unicode_len();
    let mut bonds: Vec<Bond> = Vec::new();
    let mut pos: usize = 0;
    proof {
        assert(bonds_str@.skip(0) =~= bonds_str@);
        assert(bonds.deep_view() =~= Seq::<BondView>::empty());
        match spec_pieces(spec_split(bonds_str@, ',')) {
            Ok(tail) => {
                assert(Seq::<BondView>::empty() + tail =~= tail);
            },
            Err(e) => {},
        }
    }
    loop
        invariant_except_break
            pos <= n,
            n == bonds_str@.len(),
            whole == spec_pieces(spec_split(bonds_str@, ',')),
            (match spec_pieces(spec_split(bonds_str@.skip(pos as int), ',')) {
                Ok(tail) => whole == Ok::<Seq<BondView>, SpecError>(bonds.deep_view() + tail),
                Err(e) => whole == Err::<Seq<BondView>, SpecError>(e),
            }),
        ensures
            whole is Ok && bonds.deep_view() == whole->Ok_0,
        decreases n - pos,
    {
        let ghost rem = bonds_str@.skip(pos as int);
        let ghost prevdeep = bonds.deep_view();
        match find_char(bonds_str, pos, ',') {
            None => {
                proof {
                    assert(forall|j: int|
                        0 <= j < rem.len() ==> #[trigger] rem[j] == bonds_str@[j + pos]);
                    lemma_split_no_sep(rem, ',');
                    assert(seq![rem].drop_first() =~~= Seq::<Seq<char>>::empty());
                }
                let piece = bonds_str.substring_char(pos, n);
                proof {
                    assert(piece@ =~= rem);
                }
                match parse_piece(piece) {
                    Err(e) => {
                        return Err(e);
                    },
                    Ok(b) => {
                        let ghost bv = b@;
                        bonds.push(b);
                        proof {
                            assert(forall|m: int|
                                0 <= m < prevdeep.len() ==> bonds.deep_view()[m] == prevdeep[m]);
                            assert(bonds.deep_view()[prevdeep.len() as int] == bv);
                            assert(bonds.deep_view() =~= prevdeep.push(bv));
                            assert(seq![rem][0] == rem);
                            assert(spec_pieces(Seq::<Seq<char>>::empty()) == Ok::<
                                Seq<BondView>,
                                SpecError,
                            >(Seq::empty()));
                            assert(spec_pieces(seq![rem]) == Ok::<Seq<BondView>, SpecError>(
                                seq![bv] + Seq::<BondView>::empty(),
                            ));
                            assert(seq![bv] + Seq::<BondView>::empty() =~= seq![bv]);
                            assert(prevdeep + seq![bv] =~= prevdeep.push(bv));
                        }
                        break ;
                    },
                }
            },
            Some(k) => {
                proof {
                    assert(forall|j: int|
                        0 <= j < rem.len() ==> #[trigger] rem[j] == bonds_str@[j + pos]);
                    assert(rem[k - pos] == ',');
                    lemma_split_at_first(rem, ',', k - pos);
                }
                let piece = bonds_str.substring_char(pos, k);
                proof {
                    assert(piece@ =~= rem.take(k - pos));
                }
                match parse_piece(piece) {
                    Err(e) => {
                        return Err(e);
                    },
                    Ok(b) => {
                        let ghost bv = b@;
                        bonds.push(b);
                        proof {
                            assert(forall|m: int|
                                0 <= m < prevdeep.len() ==> bonds.deep_view()[m] == prevdeep[m]);
                            assert(bonds.deep_view()[prevdeep.len() as int] == bv);
                            assert(bonds.deep_view() =~= prevdeep.push(bv));
                            assert(rem.skip(k - pos + 1) =~= bonds_str@.skip(k + 1));
                            let ps = spec_split(rem, ',');
                            assert(ps[0] == rem.take(k - pos));
                            assert(ps.drop_first() =~~= spec_split(bonds_str@.skip(k + 1), ','));
                            match spec_pieces(spec_split(bonds_str@.skip(k + 1), ',')) {
                                Ok(tail) => {
                                    assert(spec_pieces(ps) == Ok::<Seq<BondView>, SpecError>(
                                        seq![bv] + tail,
                                    ));
                                    assert(prevdeep + (seq![bv] + tail) =~= prevdeep.push(bv)
                                        + tail);
                                },
                                Err(e) => {
                                    assert(spec_pieces(ps) == Err::<Seq<BondView>, SpecError>(e));
                                },
                            }
                        }
                        pos = k + 1;
                    },
                }
            },
        }
    }
    match check_for_duplicates(&bonds) {
        Err(e) => {
            return Err(e);
        },
        Ok(()) => {},
    }
    match check_for_overlaps(&bonds) {
        Err(e) => Err(e),
        Ok(()) => Ok(bonds),
    }
}

} // verus!
