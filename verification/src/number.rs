//! Deciding whether a numeric span can be decoded as a 64-bit float.
//!
//! The grammar is the one standard floating-point parsing documents: an
//! optional sign, then either one of the words `inf`, `infinity` or `nan`
//! (matched case-insensitively) or a mantissa of digits with an optional
//! point and an optional `e`/`E` exponent with its own optional sign.

use vstd::prelude::*;

verus! {

/// Is `c` a decimal digit?
pub open spec fn is_digit(c: char) -> bool {
    '0' <= c && c <= '9'
}

/// First index at or after `i` that does not hold a decimal digit.
pub open spec fn digits_end(s: Seq<char>, i: int) -> int
    decreases s.len() - i,
{
    if 0 <= i < s.len() && is_digit(s[i]) {
        digits_end(s, i + 1)
    } else {
        i
    }
}

/// Does `a` match the lowercase letter `lower`, ignoring case?
pub open spec fn char_eq_ci(a: char, lower: char) -> bool {
    a == lower || a as u32 == lower as u32 - 32
}

/// Do the characters of `s` from `i` to its end spell `word` (a lowercase
/// word), ignoring case?
pub open spec fn matches_ci(s: Seq<char>, i: int, word: Seq<char>) -> bool {
    i + word.len() == s.len() && forall|k: int|
        0 <= k < word.len() ==> char_eq_ci(s[i + k], word[k])
}

/// A well-formed exponent part filling `s` from `j` to the end: `e` or
/// `E`, an optional sign, then at least one digit.
pub open spec fn exp_ok(s: Seq<char>, j: int) -> bool {
    j < s.len() && (s[j] == 'e' || s[j] == 'E') && {
        let k = if j + 1 < s.len() && (s[j + 1] == '+' || s[j + 1] == '-') {
            j + 2
        } else {
            j + 1
        };
        digits_end(s, k) == s.len() && s.len() > k
    }
}

/// A well-formed mantissa (with optional exponent) filling `s` from `b` to
/// the end: digits, an optional point with more digits, at least one digit
/// in all, then an optional exponent.
pub open spec fn number_body_ok(s: Seq<char>, b: int) -> bool {
    let i = digits_end(s, b);
    if i == s.len() {
        i > b
    } else if s[i] == '.' {
        let j = digits_end(s, i + 1);
        let has_digits = i > b || j > i + 1;
        if j == s.len() {
            has_digits
        } else {
            has_digits && exp_ok(s, j)
        }
    } else {
        i > b && exp_ok(s, i)
    }
}

/// Can `u` be decoded as a 64-bit float?
pub open spec fn number_ok(u: Seq<char>) -> bool {
    let b: int = if u.len() >= 1 && (u[0] == '+' || u[0] == '-') {
        1
    } else {
        0
    };
    ||| matches_ci(u, b, seq!['i', 'n', 'f'])
    ||| matches_ci(u, b, seq!['i', 'n', 'f', 'i', 'n', 'i', 't', 'y'])
    ||| matches_ci(u, b, seq!['n', 'a', 'n'])
    ||| number_body_ok(u, b)
}

/// First index at or after `b` that does not hold a decimal digit.
fn digits_to(s: &str, b: usize) -> (r: usize)
    requires
        b <= s@.len(),
    ensures
        r as int == digits_end(s@, b as int),
        b <= r <= s@.len(),
{
    let n = s.unicode_len();
    let mut j: usize = b;
    loop
        invariant
            n == s@.len(),
            b <= j <= n,
            digits_end(s@, b as int) == digits_end(s@, j as int),
        ensures
            b <= j <= n,
            j as int == digits_end(s@, b as int),
        decreases n - j,
    {
        if j >= n {
            break ;
        }
        let c = s.get_char(j);
        if !('0' <= c && c <= '9') {
            break ;
        }
        j = j + 1;
    }
    j
}

/// Do the characters of `s` from `b` to its end spell `w`, ignoring case?
/// `w` must be all lowercase letters.
fn matches_word_ci(s: &str, b: usize, w: &str) -> (r: bool)
    requires
        b <= s@.len(),
    ensures
        r == matches_ci(s@, b as int, w@),
{
    let n = s.unicode_len();
    let m = w.unicode_len();
    if n - b != m {
        return false;
    }
    let mut k: usize = 0;
    while k < m
        invariant
            n == s@.len(),
            m == w@.len(),
            b + m == n,
            k <= m,
            forall|q: int| 0 <= q < k ==> char_eq_ci(s@[b + q], w@[q]),
        decreases m - k,
    {
        let a = s.get_char(b + k);
        let lw = w.get_char(k);
        let d = lw as u32;
        if !(a == lw || (d >= 32 && a as u32 == d - 32)) {
            return false;
        }
        k = k + 1;
    }
    true
}

/// An exponent part filling `s` from `j` to the end.
fn exp_check(s: &str, j: usize) -> (r: bool)
    requires
        j <= s@.len(),
    ensures
        r == exp_ok(s@, j as int),
{
    let n = s.unicode_len();
    if j >= n {
        return false;
    }
    let c = s.get_char(j);
    if !(c == 'e' || c == 'E') {
        return false;
    }
    let k: usize = if j + 1 < n {
        let c1 = s.get_char(j + 1);
        if c1 == '+' || c1 == '-' {
            j + 2
        } else {
            j + 1
        }
    } else {
        j + 1
    };
    let e = digits_to(s, k);
    e == n && n > k
}

/// Decides whether `s` can be decoded as a 64-bit float, by the grammar
/// standard floating-point parsing documents.
pub fn is_valid_number(s: &str) -> (r: bool)
    ensures
        r == number_ok(s@),
{
    let n = s.unicode_len();
    if n == 0 {
        return false;
    }
    let c0 = s.get_char(0);
    let b: usize = if c0 == '+' || c0 == '-' {
        1
    } else {
        0
    };
    proof {
        reveal_strlit("inf");
        reveal_strlit("infinity");
        reveal_strlit("nan");
        assert("inf"@ =~= seq!['i', 'n', 'f']);
        assert("infinity"@ =~= seq!['i', 'n', 'f', 'i', 'n', 'i', 't', 'y']);
        assert("nan"@ =~= seq!['n', 'a', 'n']);
    }
    if matches_word_ci(s, b, "inf") {
        return true;
    }
    if matches_word_ci(s, b, "infinity") {
        return true;
    }
    if matches_word_ci(s, b, "nan") {
        return true;
    }
    let i = digits_to(s, b);
    if i == n {
        return i > b;
    }
    let ci = s.get_char(i);
    if ci == '.' {
        let j = digits_to(s, i + 1);
        let has_digits = i > b || j > i + 1;
        if j == n {
            return has_digits;
        }
        return has_digits && exp_check(s, j);
    }
    if i > b {
        return exp_check(s, i);
    }
    false
}

} // verus!
