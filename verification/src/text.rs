//! Character classes and small string routines that the rest of the
//! library is specified with: ASCII letters and digits, whitespace
//! trimming, decimal numbers, and plain character-wise operations on
//! `&str` and `String`.

use vstd::prelude::*;

verus! {

/// An ASCII letter, `A`..`Z` or `a`..`z`.
pub open spec fn is_letter(c: char) -> bool {
    (65 <= c as u32 && c as u32 <= 90) || (97 <= c as u32 && c as u32 <= 122)
}

/// An ASCII decimal digit, `0`..`9`.
pub open spec fn is_digit(c: char) -> bool {
    48 <= c as u32 && c as u32 <= 57
}

/// A character with the Unicode `White_Space` property: the set that
/// `str::trim` removes.
pub open spec fn is_space(c: char) -> bool {
    let u = c as u32;
    (9 <= u && u <= 13) || u == 32 || u == 0x85 || u == 0xA0 || u == 0x1680 || (0x2000 <= u && u
        <= 0x200A) || u == 0x2028 || u == 0x2029 || u == 0x202F || u == 0x205F || u == 0x3000
}

/// The numeric value of a decimal digit character.
pub open spec fn digit_val(c: char) -> int {
    c as u32 - 48
}

/// The decimal digit character for a value in `0..=9`.
pub open spec fn digit_char(d: int) -> char {
    ((48 + d) as u8) as char
}

/// Every character of `s` is a decimal digit.
pub open spec fn all_digits(s: Seq<char>) -> bool {
    forall|i: int| 0 <= i < s.len() ==> is_digit(#[trigger] s[i])
}

/// The numeric value of a digit string, most significant digit first.
/// An empty string has value `0`.
pub open spec fn digits_val(s: Seq<char>) -> int
    decreases s.len(),
{
    if s.len() == 0 {
        0
    } else {
        digits_val(s.drop_last()) * 10 + digit_val(s.last())
    }
}

/// The decimal digit string of a non-negative number, without leading
/// zeros (`0` is written as the single digit `0`).
pub open spec fn spec_dec(n: int) -> Seq<char>
    decreases n,
{
    if n < 10 {
        seq![digit_char(n)]
    } else {
        spec_dec(n / 10) + seq![digit_char(n % 10)]
    }
}

pub proof fn lemma_digits_val_nonneg(s: Seq<char>)
    requires
        all_digits(s),
    ensures
        digits_val(s) >= 0,
    decreases s.len(),
{
    if s.len() > 0 {
        assert(forall|i: int| 0 <= i < s.len() - 1 ==> is_digit(#[trigger] s.drop_last()[i]));
        lemma_digits_val_nonneg(s.drop_last());
        assert(is_digit(s.last()));
    }
}

/// Appending digits to a digit string never shrinks its value.
pub proof fn lemma_digits_val_take_grows(s: Seq<char>, k: int)
    requires
        all_digits(s),
        0 <= k <= s.len(),
    ensures
        digits_val(s.take(k)) <= digits_val(s),
    decreases s.len() - k,
{
    assert(forall|i: int| 0 <= i < k ==> is_digit(#[trigger] s.take(k)[i]));
    if k == s.len() {
        assert(s.take(k) =~= s);
    } else {
        lemma_digits_val_take_grows(s, k + 1);
        assert(s.take(k + 1).drop_last() =~= s.take(k));
        assert(s.take(k + 1).last() == s[k]);
        lemma_digits_val_nonneg(s.take(k));
        assert(digits_val(s.take(k)) <= digits_val(s.take(k)) * 10 + digit_val(s[k]));
    }
}

/// The decimal digit string of `n` is made of digits and reads back as `n`.
pub proof fn lemma_spec_dec_val(n: int)
    requires
        n >= 0,
    ensures
        all_digits(spec_dec(n)),
        digits_val(spec_dec(n)) == n,
        spec_dec(n).len() > 0,
    decreases n,
{
    if n < 10 {
        assert(is_digit(digit_char(n)));
        assert(digit_val(digit_char(n)) == n);
        assert(spec_dec(n).drop_last() =~= Seq::<char>::empty());
        assert(spec_dec(n).last() == digit_char(n));
        assert(digits_val(spec_dec(n)) == digits_val(Seq::<char>::empty()) * 10 + digit_val(
            digit_char(n),
        ));
        assert(digits_val(spec_dec(n)) == n);
    } else {
        lemma_spec_dec_val(n / 10);
        let s = spec_dec(n);
        assert(s.drop_last() =~= spec_dec(n / 10));
        assert(is_digit(digit_char(n % 10)));
        assert(digit_val(digit_char(n % 10)) == n % 10);
        vstd::arithmetic::div_mod::lemma_fundamental_div_mod(n, 10);
    }
}

/// Two decimal digit strings written by `spec_dec` agree only on equal numbers.
pub proof fn lemma_spec_dec_injective(a: int, b: int)
    requires
        a >= 0,
        b >= 0,
        spec_dec(a) == spec_dec(b),
    ensures
        a == b,
{
    lemma_spec_dec_val(a);
    lemma_spec_dec_val(b);
}

pub exec fn char_is_letter(c: char) -> (r: bool)
    ensures
        r == is_letter(c),
{
    let u = c as u32;
    (65 <= u && u <= 90) || (97 <= u && u <= 122)
}

pub exec fn char_is_digit(c: char) -> (r: bool)
    ensures
        r == is_digit(c),
{
    let u = c as u32;
    48 <= u && u <= 57
}

pub exec fn char_is_space(c: char) -> (r: bool)
    ensures
        r == is_space(c),
{
    let u = c as u32;
    (9 <= u && u <= 13) || u == 32 || u == 0x85 || u == 0xA0 || u == 0x1680 || (0x2000 <= u && u
        <= 0x200A) || u == 0x2028 || u == 0x2029 || u == 0x202F || u == 0x205F || u == 0x3000
}

/// `s` with leading whitespace removed.
pub open spec fn trim_front(s: Seq<char>) -> Seq<char>
    decreases s.len(),
{
    if s.len() > 0 && is_space(s[0]) {
        trim_front(s.drop_first())
    } else {
        s
    }
}

/// `s` with trailing whitespace removed.
pub open spec fn trim_back(s: Seq<char>) -> Seq<char>
    decreases s.len(),
{
    if s.len() > 0 && is_space(s.last()) {
        trim_back(s.drop_last())
    } else {
        s
    }
}

/// `s` with surrounding whitespace removed.
pub open spec fn spec_trim(s: Seq<char>) -> Seq<char> {
    trim_front(trim_back(s))
}

proof fn lemma_trim_back_chop(s: Seq<char>, hi: int)
    requires
        0 <= hi <= s.len(),
        forall|j: int| hi <= j < s.len() ==> is_space(#[trigger] s[j]),
        hi == 0 || !is_space(s[hi - 1]),
    ensures
        trim_back(s) == s.take(hi),
    decreases s.len(),
{
    if s.len() == hi {
        if hi == 0 {
            assert(s.take(hi) =~= s);
        } else {
            assert(!is_space(s.last()));
            assert(s.take(hi) =~= s);
        }
    } else {
        assert(is_space(s.last()));
        lemma_trim_back_chop(s.drop_last(), hi);
        assert(s.drop_last().take(hi) =~= s.take(hi));
    }
}

proof fn lemma_trim_front_chop(s: Seq<char>, lo: int)
    requires
        0 <= lo <= s.len(),
        forall|j: int| 0 <= j < lo ==> is_space(#[trigger] s[j]),
        lo == s.len() || !is_space(s[lo]),
    ensures
        trim_front(s) == s.skip(lo),
    decreases lo,
{
    if lo == 0 {
        assert(s.skip(0) =~= s);
        if s.len() > 0 {
            assert(!is_space(s[0]));
        }
    } else {
        assert(is_space(s[0]));
        let t = s.drop_first();
        assert(forall|j: int| 0 <= j < lo - 1 ==> is_space(#[trigger] t[j]));
        lemma_trim_front_chop(t, lo - 1);
        assert(t.skip(lo - 1) =~= s.skip(lo));
    }
}

/// The whitespace-trimmed middle of `s`, as a borrowed slice of it.
pub exec fn trim_str<'a>(s: &'a str) -> (r: &'a str)
    ensures
        r@ == spec_trim(s@),
{
    let n = s.unicode_len();
    let mut hi: usize = n;
    while hi > 0 && char_is_space(s.get_char(hi - 1))
        invariant
            hi <= n,
            n == s@.len(),
            forall|j: int| hi <= j < n ==> is_space(#[trigger] s@[j]),
        decreases hi,
    {
        hi = hi - 1;
    }
    let mut lo: usize = 0;
    while lo < hi && char_is_space(s.get_char(lo))
        invariant
            lo <= hi <= n,
            n == s@.len(),
            forall|j: int| 0 <= j < lo ==> is_space(#[trigger] s@[j]),
        decreases hi - lo,
    {
        lo = lo + 1;
    }
    proof {
        lemma_trim_back_chop(s@, hi as int);
        let t = s@.take(hi as int);
        lemma_trim_front_chop(t, lo as int);
        assert(t.skip(lo as int) =~= s@.subrange(lo as int, hi as int));
    }
    s.substring_char(lo, hi)
}

/// Character-wise equality of two string slices.
pub exec fn str_eq_str(a: &str, b: &str) -> (r: bool)
    ensures
        r == (a@ == b@),
{
    let n = a.unicode_len();
    let m = b.unicode_len();
    if n != m {
        return false;
    }
    let mut i: usize = 0;
    while i < n
        invariant
            i <= n,
            n == a@.len(),
            n == b@.len(),
            forall|j: int| 0 <= j < i ==> a@[j] == b@[j],
        decreases n - i,
    {
        if a.get_char(i) != b.get_char(i) {
            return false;
        }
        i = i + 1;
    }
    proof {
        assert(a@ =~= b@);
    }
    true
}

/// The first occurrence of `c` in `s` at or after `from`.
pub exec fn find_char(s: &str, from: usize, c: char) -> (r: Option<usize>)
    requires
        from <= s@.len(),
    ensures
        match r {
            Some(k) => from <= k < s@.len() && s@[k as int] == c && forall|j: int|
                from <= j < k ==> s@[j] != c,
            None => forall|j: int| from <= j < s@.len() ==> s@[j] != c,
        },
{
    let n = s.unicode_len();
    let mut i: usize = from;
    while i < n
        invariant
            from <= i <= n,
            n == s@.len(),
            forall|j: int| from <= j < i ==> s@[j] != c,
        decreases n - i,
    {
        if s.get_char(i) == c {
            return Some(i);
        }
        i = i + 1;
    }
    None
}

/// The numeric value of the all-digit suffix of `s` that starts at `from`,
/// `None` when the suffix is empty, has a non-digit, or exceeds `u64::MAX`.
pub exec fn parse_digits_from(s: &str, from: usize) -> (r: Option<u64>)
    requires
        from <= s@.len(),
    ensures
        ({
            let suf = s@.skip(from as int);
            match r {
                Some(v) => suf.len() > 0 && all_digits(suf) && digits_val(suf) <= u64::MAX && v
                    == digits_val(suf),
                None => !(suf.len() > 0 && all_digits(suf) && digits_val(suf) <= u64::MAX),
            }
        }),
{
    let ghost suf = s@.skip(from as int);
    let n = s.unicode_len();
    if from == n {
        return None;
    }
    let mut val: u64 = 0;
    let mut i: usize = from;
    while i < n
        invariant
            from <= i <= n,
            n == s@.len(),
            from < n,
            suf == s@.skip(from as int),
            all_digits(s@.subrange(from as int, i as int)),
            val == digits_val(s@.subrange(from as int, i as int)),
        decreases n - i,
    {
        let c = s.get_char(i);
        if !char_is_digit(c) {
            proof {
                assert(suf[i - from] == s@[i as int]);
            }
            return None;
        }
        let d = (c as u32 - 48) as u64;
        if val > (u64::MAX - d) / 10 {
            proof {
                let k = i + 1 - from;
                assert(suf.take(k) =~= s@.subrange(from as int, i + 1));
                assert(suf.take(k).drop_last() =~= s@.subrange(from as int, i as int));
                vstd::arithmetic::div_mod::lemma_fundamental_div_mod(
                    (u64::MAX - d) as int,
                    10,
                );
                assert(digits_val(suf.take(k)) > u64::MAX);
                if all_digits(suf) {
                    lemma_digits_val_take_grows(suf, k);
                }
            }
            return None;
        }
        proof {
            vstd::arithmetic::div_mod::lemma_fundamental_div_mod((u64::MAX - d) as int, 10);
            assert(s@.subrange(from as int, i + 1).drop_last() =~= s@.subrange(
                from as int,
                i as int,
            ));
        }
        val = val * 10 + d;
        i = i + 1;
    }
    proof {
        assert(s@.subrange(from as int, n as int) =~= suf);
    }
    Some(val)
}

/// `s` with every occurrence of `pat` removed, scanning left to right
/// and never overlapping matches, the way `str::replace` with an empty
/// replacement finds them. An empty pattern removes nothing.
pub open spec fn spec_remove_all(s: Seq<char>, pat: Seq<char>) -> Seq<char>
    decreases s.len(),
{
    if pat.len() == 0 || s.len() == 0 {
        s
    } else if pat.len() <= s.len() && s.take(pat.len() as int) == pat {
        spec_remove_all(s.skip(pat.len() as int), pat)
    } else {
        seq![s[0]] + spec_remove_all(s.drop_first(), pat)
    }
}

fn match_at(s: &str, i: usize, pat: &str) -> (r: bool)
    requires
        i <= s@.len(),
    ensures
        r == (i + pat@.len() <= s@.len() && s@.subrange(i as int, i + pat@.len()) == pat@),
{
    let plen = pat.unicode_len();
    let n = s.unicode_len();
    if n - i < plen {
        return false;
    }
    let mut j: usize = 0;
    while j < plen
        invariant
            j <= plen,
            plen == pat@.len(),
            n == s@.len(),
            i + plen <= n,
            forall|m: int| 0 <= m < j ==> s@[i + m] == pat@[m],
        decreases plen - j,
    {
        if s.get_char(i + j) != pat.get_char(j) {
            proof {
                assert(s@.subrange(i as int, i + plen)[j as int] != pat@[j as int]);
            }
            return false;
        }
        j = j + 1;
    }
    proof {
        assert(s@.subrange(i as int, i + plen) =~= pat@);
    }
    true
}

/// `s` with every occurrence of `pat` removed, leftmost first.
pub exec fn remove_all(s: &str, pat: &str) -> (r: String)
    ensures
        r@ == spec_remove_all(s@, pat@),
{
    let n = s.unicode_len();
    let plen = pat.unicode_len();
    if plen == 0 {
        return String::from_str(s);
    }
    let mut out = String::new();
    let mut i: usize = 0;
    proof {
        assert(s@.skip(0) =~= s@);
    }
    while i < n
        invariant
            i <= n,
            n == s@.len(),
            plen == pat@.len(),
            plen > 0,
            spec_remove_all(s@, pat@) == out@ + spec_remove_all(s@.skip(i as int), pat@),
        decreases n - i,
    {
        let ghost rem = s@.skip(i as int);
        if match_at(s, i, pat) {
            proof {
                assert(rem.take(plen as int) =~= s@.subrange(i as int, i + plen));
                assert(rem.skip(plen as int) =~= s@.skip(i + plen));
            }
            i = i + plen;
        } else {
            let c = s.substring_char(i, i + 1);
            out.append(c);
            proof {
                if plen <= rem.len() && rem.take(plen as int) == pat@ {
                    assert(rem.take(plen as int) =~= s@.subrange(i as int, i + plen));
                }
                assert(rem[0] == s@[i as int]);
                assert(c@ =~= seq![s@[i as int]]);
                assert(rem.drop_first() =~= s@.skip(i + 1));
            }
            i = i + 1;
        }
    }
    proof {
        assert(s@.skip(n as int) =~= Seq::<char>::empty());
        assert(spec_remove_all(Seq::<char>::empty(), pat@) == Seq::<char>::empty());
        assert(out@ + Seq::<char>::empty() =~= out@);
    }
    out
}

/// The decimal digit string of `n`, without leading zeros.
pub exec fn u64_to_string(n: u64) -> (r: String)
    ensures
        r@ == spec_dec(n as int),
    decreases n,
{
    let digits = "0123456789";
    proof {
        reveal_strlit("0123456789");
    }
    let d = (n % 10) as usize;
    proof {
        assert(digits@.subrange(d as int, d + 1) =~= seq![digit_char((n % 10) as int)]);
    }
    if n < 10 {
        String::from_str(digits.substring_char(d, d + 1))
    } else {
        let mut r = u64_to_string(n / 10);
        r.append(digits.substring_char(d, d + 1));
        r
    }
}

} // verus!
