//! Verified helpers for character-level work on `String` and `&str`:
//! equality, prefix/suffix/substring tests, case-insensitive search over
//! ASCII letters, decimal parsing and formatting.

use vstd::prelude::*;

verus! {

/// Lower-cases a single character, ASCII letters only; every other
/// character is left alone.
pub open spec fn lower_char(c: char) -> char {
    if 'A' <= c && c <= 'Z' {
        ((c as u8) + 32) as char
    } else {
        c
    }
}

/// The ASCII-lower-cased image of a character sequence.
pub open spec fn lower_seq(s: Seq<char>) -> Seq<char> {
    s.map_values(|c: char| lower_char(c))
}

/// `n` occurs in `h` starting at position `i`.
pub open spec fn match_at(h: Seq<char>, n: Seq<char>, i: int) -> bool {
    0 <= i && i + n.len() <= h.len() && forall|j: int| 0 <= j < n.len() ==> h[i + j] == n[j]
}

/// `n` occurs somewhere in `h`.
pub open spec fn contains_seq(h: Seq<char>, n: Seq<char>) -> bool {
    exists|i: int| match_at(h, n, i)
}

/// `h` begins with `p`.
pub open spec fn starts_with_seq(h: Seq<char>, p: Seq<char>) -> bool {
    match_at(h, p, 0)
}

/// `h` ends with `p`.
pub open spec fn ends_with_seq(h: Seq<char>, p: Seq<char>) -> bool {
    match_at(h, p, h.len() - p.len())
}

/// Character-wise string equality.
pub fn str_eq(a: &str, b: &str) -> (r: bool)
    ensures
        r == (a@ == b@),
{
    let alen = a.unicode_len();
    let blen = b.unicode_len();
    if alen != blen {
        assert(a@ != b@) by {
            assert(a@.len() != b@.len());
        }
        return false;
    }
    let mut i: usize = 0;
    while i < alen
        invariant
            0 <= i <= alen,
            alen == a@.len(),
            alen == b@.len(),
            forall|j: int| 0 <= j < i ==> a@[j] == b@[j],
        decreases alen - i,
    {
        if a.get_char(i) != b.get_char(i) {
            return false;
        }
        i = i + 1;
    }
    proof {
        assert(a@ =~= b@);
    }
    true
}

/// Equality of an owned string and a literal.
pub fn string_eq_str(a: &String, b: &str) -> (r: bool)
    ensures
        r == (a@ == b@),
{
    str_eq(a.as_str(), b)
}

/// Whether `n` occurs in `h` starting at exactly position `i`.
fn check_match_at(h: &str, n: &str, i: usize) -> (r: bool)
    requires
        i + n@.len() <= h@.len(),
    ensures
        r == match_at(h@, n@, i as int),
{
    let hlen = h.unicode_len();
    let nlen = n.unicode_len();
    let mut j: usize = 0;
    while j < nlen
        invariant
            0 <= j <= nlen,
            nlen == n@.len(),
            hlen == h@.len(),
            i + nlen <= hlen,
            forall|k: int| 0 <= k < j ==> h@[i + k] == n@[k],
        decreases nlen - j,
    {
        if h.get_char(i + j) != n.get_char(j) {
            assert(!match_at(h@, n@, i as int));
            return false;
        }
        j = j + 1;
    }
    true
}

/// Substring search.
pub fn str_contains(h: &str, n: &str) -> (r: bool)
    ensures
        r == contains_seq(h@, n@),
{
    let hlen = h.unicode_len();
    let nlen = n.unicode_len();
    if nlen > hlen {
        assert(!contains_seq(h@, n@));
        return false;
    }
    let mut i: usize = 0;
    while i <= hlen - nlen
        invariant
            nlen <= hlen,
            hlen == h@.len(),
            nlen == n@.len(),
            0 <= i <= hlen - nlen + 1,
            forall|k: int| 0 <= k < i ==> !match_at(h@, n@, k),
        decreases hlen - nlen - i + 1,
    {
        if check_match_at(h, n, i) {
            assert(contains_seq(h@, n@));
            return true;
        }
        i = i + 1;
    }
    assert(forall|k: int| !match_at(h@, n@, k));
    false
}

/// The first position at or after `i` where `n` occurs in `h`, or `-1`.
pub open spec fn find_sub_from(h: Seq<char>, n: Seq<char>, i: int) -> int
    decreases h.len() - i,
{
    if i < 0 || i + n.len() > h.len() {
        -1
    } else if match_at(h, n, i) {
        i
    } else {
        find_sub_from(h, n, i + 1)
    }
}

/// What `find_sub_from` returns: a hit is a match and nothing before it
/// matches; a miss means no match at `i` or later.
pub proof fn lemma_find_sub_from(h: Seq<char>, n: Seq<char>, i: int)
    requires
        0 <= i,
    ensures
        find_sub_from(h, n, i) == -1 || find_sub_from(h, n, i) >= 0,
        find_sub_from(h, n, i) == -1 ==> forall|k: int| i <= k ==> !match_at(h, n, k),
        find_sub_from(h, n, i) >= 0 ==> {
            &&& i <= find_sub_from(h, n, i)
            &&& find_sub_from(h, n, i) + n.len() <= h.len()
            &&& match_at(h, n, find_sub_from(h, n, i))
            &&& forall|k: int| i <= k < find_sub_from(h, n, i) ==> !match_at(h, n, k)
        },
    decreases h.len() - i,
{
    if i + n.len() > h.len() {
        assert forall|k: int| i <= k implies !match_at(h, n, k) by {}
    } else if !match_at(h, n, i) {
        lemma_find_sub_from(h, n, i + 1);
    }
}

/// Finds the first occurrence of `n` in `h`.
pub fn str_find(h: &str, n: &str) -> (r: Option<usize>)
    ensures
        match r {
            Some(i) => find_sub_from(h@, n@, 0) == i as int,
            None => find_sub_from(h@, n@, 0) == -1,
        },
{
    let hlen = h.unicode_len();
    let nlen = n.unicode_len();
    if nlen > hlen {
        return None;
    }
    let mut i: usize = 0;
    while i <= hlen - nlen
        invariant
            nlen <= hlen,
            hlen == h@.len(),
            nlen == n@.len(),
            0 <= i <= hlen - nlen + 1,
            find_sub_from(h@, n@, 0) == find_sub_from(h@, n@, i as int),
        decreases hlen - nlen - i + 1,
    {
        if check_match_at(h, n, i) {
            return Some(i);
        }
        i = i + 1;
    }
    None
}

/// Case-insensitive string equality over ASCII letters.
pub fn str_eq_ci(a: &str, b: &str) -> (r: bool)
    ensures
        r == (lower_seq(a@) == lower_seq(b@)),
{
    let alen = a.unicode_len();
    let blen = b.unicode_len();
    if alen != blen {
        assert(lower_seq(a@).len() != lower_seq(b@).len());
        return false;
    }
    let mut i: usize = 0;
    while i < alen
        invariant
            0 <= i <= alen,
            alen == a@.len(),
            alen == b@.len(),
            forall|j: int| 0 <= j < i ==> lower_seq(a@)[j] == lower_seq(b@)[j],
        decreases alen - i,
    {
        if char_lower(a.get_char(i)) != char_lower(b.get_char(i)) {
            assert(lower_seq(a@)[i as int] != lower_seq(b@)[i as int]);
            return false;
        }
        assert(lower_seq(a@)[i as int] == lower_seq(b@)[i as int]);
        i = i + 1;
    }
    proof {
        assert(lower_seq(a@) =~= lower_seq(b@));
    }
    true
}

/// Prefix test.
pub fn str_starts_with(h: &str, p: &str) -> (r: bool)
    ensures
        r == starts_with_seq(h@, p@),
{
    let hlen = h.unicode_len();
    let plen = p.unicode_len();
    if plen > hlen {
        return false;
    }
    check_match_at(h, p, 0)
}

/// Suffix test.
pub fn str_ends_with(h: &str, p: &str) -> (r: bool)
    ensures
        r == ends_with_seq(h@, p@),
{
    let hlen = h.unicode_len();
    let plen = p.unicode_len();
    if plen > hlen {
        return false;
    }
    check_match_at(h, p, hlen - plen)
}

/// Lower-cases one character, ASCII letters only.
pub fn char_lower(c: char) -> (r: char)
    ensures
        r == lower_char(c),
{
    let u = c as u32;
    if 65 <= u && u <= 90 {
        ((c as u8) + 32) as char
    } else {
        c
    }
}

/// Whether `n` occurs in `h` at position `i`, comparing ASCII letters
/// case-insensitively.
fn check_match_at_ci(h: &str, n: &str, i: usize) -> (r: bool)
    requires
        i + n@.len() <= h@.len(),
    ensures
        r == match_at(lower_seq(h@), lower_seq(n@), i as int),
{
    let hlen = h.unicode_len();
    let nlen = n.unicode_len();
    let mut j: usize = 0;
    while j < nlen
        invariant
            0 <= j <= nlen,
            nlen == n@.len(),
            hlen == h@.len(),
            i + nlen <= hlen,
            forall|k: int| 0 <= k < j ==> lower_seq(h@)[i + k] == lower_seq(n@)[k],
        decreases nlen - j,
    {
        if char_lower(h.get_char(i + j)) != char_lower(n.get_char(j)) {
            assert(lower_seq(h@)[i + j] != lower_seq(n@)[j as int]);
            assert(!match_at(lower_seq(h@), lower_seq(n@), i as int));
            return false;
        }
        assert(lower_seq(h@)[i + j] == lower_seq(n@)[j as int]);
        j = j + 1;
    }
    true
}

/// Substring search that ignores ASCII case.
pub fn str_contains_ci(h: &str, n: &str) -> (r: bool)
    ensures
        r == contains_seq(lower_seq(h@), lower_seq(n@)),
{
    let hlen = h.unicode_len();
    let nlen = n.unicode_len();
    if nlen > hlen {
        assert(!contains_seq(lower_seq(h@), lower_seq(n@)));
        return false;
    }
    let mut i: usize = 0;
    while i <= hlen - nlen
        invariant
            nlen <= hlen,
            hlen == h@.len(),
            nlen == n@.len(),
            0 <= i <= hlen - nlen + 1,
            forall|k: int| 0 <= k < i ==> !match_at(lower_seq(h@), lower_seq(n@), k),
        decreases hlen - nlen - i + 1,
    {
        if check_match_at_ci(h, n, i) {
            assert(contains_seq(lower_seq(h@), lower_seq(n@)));
            return true;
        }
        i = i + 1;
    }
    assert(forall|k: int| !match_at(lower_seq(h@), lower_seq(n@), k));
    false
}

/// The numeric value of a decimal digit character; unspecified for others.
pub open spec fn digit_val(c: char) -> int {
    c as int - 48
}

/// `c` is one of '0'..'9'.
pub open spec fn is_digit(c: char) -> bool {
    '0' <= c && c <= '9'
}

/// Every character of `s` is a decimal digit, and there is at least one.
pub open spec fn all_digits(s: Seq<char>) -> bool {
    s.len() > 0 && forall|i: int| 0 <= i < s.len() ==> is_digit(s[i])
}

/// The value of a digit string, most significant digit first.
pub open spec fn digits_val(s: Seq<char>) -> int
    decreases s.len(),
{
    if s.len() == 0 {
        0
    } else {
        digits_val(s.drop_last()) * 10 + digit_val(s.last())
    }
}

proof fn lemma_digits_val_nonneg(s: Seq<char>)
    requires
        forall|i: int| 0 <= i < s.len() ==> is_digit(s[i]),
    ensures
        digits_val(s) >= 0,
    decreases s.len(),
{
    if s.len() > 0 {
        lemma_digits_val_nonneg(s.drop_last());
    }
}

proof fn lemma_digits_val_take_step(s: Seq<char>, j: int)
    requires
        0 <= j < s.len(),
    ensures
        digits_val(s.take(j + 1)) == digits_val(s.take(j)) * 10 + digit_val(s[j]),
{
    assert(s.take(j + 1).drop_last() =~= s.take(j));
    assert(s.take(j + 1).last() == s[j]);
}

/// Parses a non-empty all-digit string as a `u32`.
/// Returns `None` when a non-digit appears, the string is empty, or the
/// value does not fit.
pub fn parse_u32(s: &str) -> (r: Option<u32>)
    ensures
        match r {
            Some(v) => all_digits(s@) && v as int == digits_val(s@),
            None => !all_digits(s@) || digits_val(s@) > u32::MAX,
        },
{
    let len = s.unicode_len();
    if len == 0 {
        return None;
    }
    let mut acc: u64 = 0;
    let mut i: usize = 0;
    while i < len
        invariant
            0 <= i <= len,
            len == s@.len(),
            len > 0,
            forall|k: int| 0 <= k < i ==> is_digit(s@[k]),
            acc as int == digits_val(s@.take(i as int)),
            acc <= u32::MAX,
        decreases len - i,
    {
        let c = s.get_char(i);
        let u = c as u32;
        if u < 48 || u > 57 {
            assert(!is_digit(s@[i as int]));
            return None;
        }
        assert(is_digit(s@[i as int]));
        let d: u64 = (u - 48) as u64;
        let next: u64 = acc * 10 + d;
        proof {
            lemma_digits_val_take_step(s@, i as int);
        }
        if next > 0xffff_ffff {
            proof {
                if all_digits(s@) {
                    lemma_digits_val_grows(s@, i as int + 1);
                }
            }
            return None;
        }
        acc = next;
        i = i + 1;
    }
    proof {
        assert(s@.take(len as int) =~= s@);
    }
    Some(acc as u32)
}

/// Once a prefix of an all-digit string exceeds a bound, the whole string
/// does too.
proof fn lemma_digits_val_grows(s: Seq<char>, j: int)
    requires
        0 <= j <= s.len(),
        forall|i: int| 0 <= i < s.len() ==> is_digit(s[i]),
    ensures
        digits_val(s) >= digits_val(s.take(j)),
    decreases s.len() - j,
{
    if j < s.len() {
        lemma_digits_val_take_step(s, j);
        lemma_digits_val_nonneg(s.take(j));
        assert(digit_val(s[j]) >= 0);
        assert(digits_val(s.take(j + 1)) >= digits_val(s.take(j)));
        lemma_digits_val_grows(s, j + 1);
    } else {
        assert(s.take(j) =~= s);
    }
}

/// The character for a single decimal digit.
pub open spec fn digit_char(d: int) -> char {
    (48 + d) as u8 as char
}

/// The decimal representation of a natural number, most significant digit
/// first.
pub open spec fn dec_digits(n: int) -> Seq<char>
    decreases n,
{
    if n < 10 {
        seq![digit_char(n)]
    } else {
        dec_digits(n / 10) + seq![digit_char(n % 10)]
    }
}

/// A one-character string for the digit `d`.
fn digit_str(d: u32) -> (r: &'static str)
    requires
        d < 10,
    ensures
        r@ =~= seq![digit_char(d as int)],
{
    proof {
        reveal_strlit("0");
        reveal_strlit("1");
        reveal_strlit("2");
        reveal_strlit("3");
        reveal_strlit("4");
        reveal_strlit("5");
        reveal_strlit("6");
        reveal_strlit("7");
        reveal_strlit("8");
        reveal_strlit("9");
    }
    match d {
        0 => "0",
        1 => "1",
        2 => "2",
        3 => "3",
        4 => "4",
        5 => "5",
        6 => "6",
        7 => "7",
        8 => "8",
        _ => "9",
    }
}

/// Formats a number in decimal.
pub fn u32_to_string(n: u32) -> (r: String)
    ensures
        r@ == dec_digits(n as int),
    decreases n,
{
    if n < 10 {
        String::from_str(digit_str(n))
    } else {
        let q = n / 10;
        let d = n % 10;
        let prefix = u32_to_string(q);
        prefix.concat(digit_str(d))
    }
}

/// The index of the first occurrence of `c` in `s` at or after `i`, or
/// `-1`.
pub open spec fn find_char_from(s: Seq<char>, c: char, i: int) -> int
    decreases s.len() - i,
{
    if i < 0 || i >= s.len() {
        -1
    } else if s[i] == c {
        i
    } else {
        find_char_from(s, c, i + 1)
    }
}

/// Where the leading sign, if any, ends.
pub open spec fn num_start(s: Seq<char>) -> int {
    if s.len() > 0 && (s[0] == '+' || s[0] == '-') {
        1
    } else {
        0
    }
}

/// The number is negative.
pub open spec fn num_is_neg(s: Seq<char>) -> bool {
    s.len() > 0 && s[0] == '-'
}

/// Where the integer digits end: at the first dot, or at the end.
pub open spec fn int_end(s: Seq<char>) -> int {
    let d = find_char_from(s, '.', num_start(s));
    if d == -1 {
        s.len() as int
    } else {
        d
    }
}

/// The integer digits of a decimal literal.
pub open spec fn int_part(s: Seq<char>) -> Seq<char> {
    s.subrange(num_start(s), int_end(s))
}

/// The fractional digits of a decimal literal.
pub open spec fn frac_part(s: Seq<char>) -> Seq<char> {
    if int_end(s) == s.len() {
        Seq::empty()
    } else {
        s.subrange(int_end(s) + 1, s.len() as int)
    }
}

/// Every character is a decimal digit (an empty run qualifies).
pub open spec fn digits_only(s: Seq<char>) -> bool {
    forall|i: int| 0 <= i < s.len() ==> is_digit(s[i])
}

/// The largest integer-part value this library parses.
pub open spec fn max_int_digits_val() -> int {
    999_999_999_999_999
}

/// `s` is an optionally signed plain decimal literal — digits around at
/// most one dot, at least one digit in all, no exponent — whose magnitude
/// this library accepts.
pub open spec fn valid_decimal(s: Seq<char>) -> bool {
    &&& digits_only(int_part(s))
    &&& digits_only(frac_part(s))
    &&& int_part(s).len() + frac_part(s).len() > 0
    &&& digits_val(int_part(s)) <= max_int_digits_val()
}

/// The first three fractional digits as a count of thousandths.
pub open spec fn frac_milli(f: Seq<char>) -> int {
    if f.len() >= 3 {
        digits_val(f.take(3))
    } else if f.len() == 2 {
        digits_val(f) * 10
    } else if f.len() == 1 {
        digits_val(f) * 100
    } else {
        0
    }
}

/// The value of a decimal literal in thousandths, truncated after the
/// third fractional digit.
pub open spec fn milli_of(s: Seq<char>) -> int {
    let mag = digits_val(int_part(s)) * 1000 + frac_milli(frac_part(s));
    if num_is_neg(s) {
        -mag
    } else {
        mag
    }
}

/// What this library reads out of a numeric string: its value in
/// thousandths, or nothing when the string is not a plain decimal literal.
pub open spec fn spec_parse_milli(s: Seq<char>) -> Option<int> {
    if valid_decimal(s) {
        Some(milli_of(s))
    } else {
        None
    }
}

/// Parses an optionally signed decimal literal into thousandths.
/// A string that is not a plain decimal number — including an empty one, a
/// lone sign or dot, or anything with letters in it — yields `None`, never
/// zero.
pub fn parse_decimal_milli(s: &str) -> (r: Option<i64>)
    ensures
        match r {
            Some(v) => spec_parse_milli(s@) == Some(v as int),
            None => spec_parse_milli(s@) is None,
        },
{
    let len = s.unicode_len();
    let mut start: usize = 0;
    let mut neg = false;
    if len > 0 {
        let c0 = s.get_char(0);
        if c0 == '+' {
            start = 1;
        } else if c0 == '-' {
            start = 1;
            neg = true;
        }
    }
    assert(start as int == num_start(s@));
    assert(neg == num_is_neg(s@));

    // Find the dot, if any.
    let mut dot: usize = start;
    while dot < len && s.get_char(dot) != '.'
        invariant
            start <= dot <= len,
            len == s@.len(),
            find_char_from(s@, '.', start as int) == find_char_from(s@, '.', dot as int),
        decreases len - dot,
    {
        dot = dot + 1;
    }
    assert(dot as int == int_end(s@)) by {
        if dot < len {
            assert(find_char_from(s@, '.', dot as int) == dot);
        }
    }

    let ghost ipart = int_part(s@);
    let ghost fpart = frac_part(s@);

    // Integer digits.
    let mut acc: u64 = 0;
    let mut j: usize = start;
    while j < dot
        invariant
            start <= j <= dot <= len,
            len == s@.len(),
            start as int == num_start(s@),
            dot as int == int_end(s@),
            ipart == int_part(s@),
            forall|k: int| 0 <= k < j - start ==> is_digit(ipart[k]),
            acc as int == digits_val(s@.subrange(start as int, j as int)),
            acc <= 999_999_999_999_999,
        decreases dot - j,
    {
        let c = s.get_char(j);
        let u = c as u32;
        assert(ipart[j - start] == s@[j as int]);
        if u < 48 || u > 57 {
            assert(!is_digit(ipart[j - start]));
            return None;
        }
        assert(is_digit(ipart[j - start]));
        let d: u64 = (u - 48) as u64;
        let next: u64 = acc * 10 + d;
        proof {
            assert(s@.subrange(start as int, j + 1).drop_last() =~= s@.subrange(
                start as int,
                j as int,
            ));
            assert(s@.subrange(start as int, j + 1).last() == s@[j as int]);
        }
        if next > 999_999_999_999_999 {
            proof {
                assert(s@.subrange(start as int, j + 1) =~= ipart.take(j + 1 - start));
                if digits_only(ipart) {
                    lemma_digits_val_grows(ipart, j + 1 - start);
                }
            }
            return None;
        }
        acc = next;
        j = j + 1;
    }
    proof {
        assert(s@.subrange(start as int, dot as int) =~= ipart);
    }

    // Fractional digits: all must be digits; only the first three carry.
    let mut facc: u64 = 0;
    let mut flen: usize = 0;
    if dot < len {
        let mut k: usize = dot + 1;
        while k < len
            invariant
                dot < len,
                dot + 1 <= k <= len,
                len == s@.len(),
                dot as int == int_end(s@),
                fpart == frac_part(s@),
                fpart.len() == len - dot - 1,
                flen == k - dot - 1,
                forall|m: int| 0 <= m < flen ==> is_digit(fpart[m]),
                flen >= 3 ==> facc as int == digits_val(fpart.take(3)),
                flen < 3 ==> facc as int == digits_val(fpart.take(flen as int)),
                flen == 0 ==> facc == 0,
                flen == 1 ==> facc <= 9,
                flen == 2 ==> facc <= 99,
                flen >= 3 ==> facc <= 999,
            decreases len - k,
        {
            let c = s.get_char(k);
            let u = c as u32;
            assert(fpart[k - dot - 1] == s@[k as int]);
            if u < 48 || u > 57 {
                assert(!is_digit(fpart[k - dot - 1]));
                return None;
            }
            assert(is_digit(fpart[k - dot - 1]));
            if flen < 3 {
                let d: u64 = (u - 48) as u64;
                proof {
                    assert(fpart.take(flen + 1).drop_last() =~= fpart.take(flen as int));
                    assert(fpart.take(flen + 1).last() == fpart[flen as int]);
                }
                facc = facc * 10 + d;
            }
            flen = flen + 1;
            k = k + 1;
        }
    }
    proof {
        if dot as int == s@.len() {
            assert(fpart =~= Seq::<char>::empty());
        } else {
            assert(fpart.take(fpart.len() as int) =~= fpart);
        }
        assert(digits_only(ipart));
        assert(digits_only(fpart));
    }

    let ilen = dot - start;
    if ilen == 0 && flen == 0 {
        assert(int_part(s@).len() + frac_part(s@).len() == 0);
        return None;
    }

    // Scale the fraction to thousandths.
    let fmilli: u64 = if flen >= 3 {
        facc
    } else if flen == 2 {
        facc * 10
    } else if flen == 1 {
        facc * 100
    } else {
        0
    };
    assert(fmilli as int == frac_milli(fpart));

    let mag: i64 = (acc * 1000 + fmilli) as i64;
    assert(valid_decimal(s@));
    if neg {
        Some(-mag)
    } else {
        Some(mag)
    }
}

/// Formats a 64-bit number in decimal.
pub fn u64_to_string(n: u64) -> (r: String)
    ensures
        r@ == dec_digits(n as int),
    decreases n,
{
    if n < 10 {
        String::from_str(digit_str(n as u32))
    } else {
        let q = n / 10;
        let d = n % 10;
        let prefix = u64_to_string(q);
        prefix.concat(digit_str((d) as u32))
    }
}

} // verus!
