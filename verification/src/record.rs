//! Extraction of measurement values from raw record text: locate a named
//! container, then its nested point estimate, scan the numeric token up to
//! the next delimiter, and accept it only if it reads as a decimal number.
//!
//! The lookup is by first textual occurrence; a record holding an earlier
//! same-named field of an unrelated object yields a wrong, not absent,
//! value. That ordering limitation is part of the contract here, stated by
//! `find_sub`, and is not corrected by a smarter rule.
use vstd::prelude::*;

verus! {

/// `pat` occurs in `s` starting at index `i`.
pub open spec fn match_at(s: Seq<char>, pat: Seq<char>, i: int) -> bool {
    &&& 0 <= i
    &&& i + pat.len() <= s.len()
    &&& s.subrange(i, i + pat.len()) == pat
}

/// Index of the first occurrence of `pat` at or after `i`, or -1.
pub open spec fn find_sub(s: Seq<char>, pat: Seq<char>, i: int) -> int
    decreases s.len() - i + 1,
{
    if i < 0 || i + pat.len() > s.len() {
        -1
    } else if match_at(s, pat, i) {
        i
    } else {
        find_sub(s, pat, i + 1)
    }
}

proof fn lemma_find_sub_none(s: Seq<char>, pat: Seq<char>, j: int)
    requires
        forall|i: int| j <= i ==> !match_at(s, pat, i),
    ensures
        find_sub(s, pat, j) == -1,
    decreases s.len() - j + 1,
{
    if !(j < 0 || j + pat.len() > s.len()) {
        lemma_find_sub_none(s, pat, j + 1);
    }
}

proof fn lemma_find_sub_at(s: Seq<char>, pat: Seq<char>, j: int, m: int)
    requires
        0 <= j <= m,
        match_at(s, pat, m),
        forall|i: int| j <= i < m ==> !match_at(s, pat, i),
    ensures
        find_sub(s, pat, j) == m,
    decreases m - j,
{
    if j < m {
        lemma_find_sub_at(s, pat, j + 1, m);
    }
}

/// A numeric token ends at a comma or a closing brace.
pub open spec fn is_delim(c: char) -> bool {
    c == ',' || c == '}'
}

/// Index of the first delimiter at or after `i`, or -1.
pub open spec fn find_delim(s: Seq<char>, i: int) -> int
    decreases s.len() - i,
{
    if i < 0 || i >= s.len() {
        -1
    } else if is_delim(s[i]) {
        i
    } else {
        find_delim(s, i + 1)
    }
}

proof fn lemma_find_delim_none(s: Seq<char>, j: int)
    requires
        forall|i: int| j <= i < s.len() ==> !is_delim(#[trigger] s[i]),
    ensures
        find_delim(s, j) == -1,
    decreases s.len() - j,
{
    if !(j < 0 || j >= s.len()) {
        lemma_find_delim_none(s, j + 1);
    }
}

proof fn lemma_find_delim_at(s: Seq<char>, j: int, m: int)
    requires
        0 <= j <= m < s.len(),
        is_delim(s[m]),
        forall|i: int| j <= i < m ==> !is_delim(#[trigger] s[i]),
    ensures
        find_delim(s, j) == m,
    decreases m - j,
{
    if j < m {
        lemma_find_delim_at(s, j + 1, m);
    }
}

/// The whitespace a token is trimmed of before it is read as a number.
pub open spec fn is_ws(c: char) -> bool {
    c == ' ' || c == '\t' || c == '\n' || c == '\r' || c == '\u{000B}' || c == '\u{000C}'
}

/// End (exclusive) of the whitespace run starting at `i`.
pub open spec fn ws_prefix_end(s: Seq<char>, i: int) -> int
    decreases s.len() - i,
{
    if i < 0 || i >= s.len() {
        s.len() as int
    } else if is_ws(s[i]) {
        ws_prefix_end(s, i + 1)
    } else {
        i
    }
}

/// Start of the whitespace run ending (exclusively) at `i`.
pub open spec fn ws_suffix_start(s: Seq<char>, i: int) -> int
    decreases i,
{
    if i <= 0 || i > s.len() {
        0
    } else if is_ws(s[i - 1]) {
        ws_suffix_start(s, i - 1)
    } else {
        i
    }
}

/// `s` without leading and trailing whitespace.
pub open spec fn trim_ws(s: Seq<char>) -> Seq<char> {
    let a = ws_prefix_end(s, 0);
    let b = ws_suffix_start(s, s.len() as int);
    if a <= b {
        s.subrange(a, b)
    } else {
        Seq::empty()
    }
}

proof fn lemma_ws_prefix_end(s: Seq<char>, j: int, a: int)
    requires
        0 <= j <= a <= s.len(),
        forall|i: int| j <= i < a ==> is_ws(#[trigger] s[i]),
        a < s.len() ==> !is_ws(s[a]),
    ensures
        ws_prefix_end(s, j) == a,
    decreases a - j,
{
    if j < a {
        lemma_ws_prefix_end(s, j + 1, a);
    }
}

proof fn lemma_ws_suffix_start(s: Seq<char>, j: int, b: int)
    requires
        0 <= b <= j <= s.len(),
        forall|i: int| b <= i < j ==> is_ws(#[trigger] s[i]),
        b > 0 ==> !is_ws(s[b - 1]),
    ensures
        ws_suffix_start(s, j) == b,
    decreases j - b,
{
    if b < j {
        lemma_ws_suffix_start(s, j - 1, b);
    }
}

/// Whether `c` is trimmed away at a token's edges.
fn is_ws_char(c: char) -> (r: bool)
    ensures
        r == is_ws(c),
{
    c == ' ' || c == '\t' || c == '\n' || c == '\r' || c == '\u{000B}' || c == '\u{000C}'
}

/// `t` without leading and trailing whitespace.
fn trim_str<'a>(t: &'a str) -> (r: &'a str)
    ensures
        r@ == trim_ws(t@),
{
    let n = t.unicode_len();
    let mut a: usize = 0;
    while a < n && is_ws_char(t.get_char(a))
        invariant
            a <= n,
            n == t@.len(),
            forall|i: int| 0 <= i < a ==> is_ws(#[trigger] t@[i]),
        decreases n - a,
    {
        a = a + 1;
    }
    let mut b: usize = n;
    while b > 0 && is_ws_char(t.get_char(b - 1))
        invariant
            b <= n,
            n == t@.len(),
            forall|i: int| b <= i < n ==> is_ws(#[trigger] t@[i]),
        decreases b,
    {
        b = b - 1;
    }
    proof {
        lemma_ws_prefix_end(t@, 0, a as int);
        lemma_ws_suffix_start(t@, n as int, b as int);
    }
    if a <= b {
        t.substring_char(a, b)
    } else {
        let r = t.substring_char(a, a);
        proof {
            assert(r@ =~= Seq::<char>::empty());
            assert(trim_ws(t@) =~= Seq::<char>::empty());
        }
        r
    }
}

/// An ASCII decimal digit.
pub open spec fn is_digit(c: char) -> bool {
    '0' <= c && c <= '9'
}

/// One or more digits and nothing else.
pub open spec fn is_digits1(s: Seq<char>) -> bool {
    s.len() > 0 && forall|i: int| 0 <= i < s.len() ==> is_digit(#[trigger] s[i])
}

/// `s` with one leading sign removed.
pub open spec fn strip_sign(s: Seq<char>) -> Seq<char> {
    if s.len() > 0 && (s[0] == '+' || s[0] == '-') {
        s.drop_first()
    } else {
        s
    }
}

/// The integer-and-fraction part of a number: digits with at most one
/// decimal point, holding at least one digit.
pub open spec fn is_mantissa(m: Seq<char>) -> bool {
    ||| is_digits1(m)
    ||| (m.len() >= 2 && exists|j: int|
        0 <= j < m.len() && m[j] == '.' && (forall|i: int|
            0 <= i < m.len() && i != j ==> is_digit(#[trigger] m[i])))
}

/// An exponent part: `e` or `E`, an optional sign, then digits.
pub open spec fn is_exponent(e: Seq<char>) -> bool {
    e.len() >= 1 && (e[0] == 'e' || e[0] == 'E') && is_digits1(strip_sign(e.drop_first()))
}

/// Either of the two cases of one character, ignoring ASCII case.
pub open spec fn ci(c: char, lo: char, up: char) -> bool {
    c == lo || c == up
}

/// The case-insensitive special values `inf`, `infinity` and `nan`.
pub open spec fn is_special(t: Seq<char>) -> bool {
    ||| (t.len() == 3 && ci(t[0], 'i', 'I') && ci(t[1], 'n', 'N') && ci(t[2], 'f', 'F'))
    ||| (t.len() == 8 && ci(t[0], 'i', 'I') && ci(t[1], 'n', 'N') && ci(t[2], 'f', 'F') && ci(
        t[3],
        'i',
        'I',
    ) && ci(t[4], 'n', 'N') && ci(t[5], 'i', 'I') && ci(t[6], 't', 'T') && ci(t[7], 'y', 'Y'))
    ||| (t.len() == 3 && ci(t[0], 'n', 'N') && ci(t[1], 'a', 'A') && ci(t[2], 'n', 'N'))
}

/// A mantissa optionally followed by an exponent.
pub open spec fn is_number(t: Seq<char>) -> bool {
    exists|k: int|
        0 <= k <= t.len() && is_mantissa(t.take(k)) && (k == t.len() || is_exponent(t.skip(k)))
}

/// Whether `s` reads as a decimal floating-point value: an optional sign,
/// then a special value or a number.
pub open spec fn is_float_token(s: Seq<char>) -> bool {
    is_special(strip_sign(s)) || is_number(strip_sign(s))
}

/// Digits with at most one decimal point over `t[lo..hi)`.
fn check_mantissa(t: &str, lo: usize, hi: usize) -> (r: bool)
    requires
        lo <= hi <= t@.len(),
    ensures
        r == is_mantissa(t@.subrange(lo as int, hi as int)),
{
    let ghost m = t@.subrange(lo as int, hi as int);
    let mut i = lo;
    let mut dots: usize = 0;
    let mut digits: usize = 0;
    let mut bad = false;
    let ghost mut dot1: int = -1;
    let ghost mut dot2: int = -1;
    let ghost mut badi: int = -1;
    while i < hi
        invariant
            lo <= i <= hi <= t@.len(),
            m == t@.subrange(lo as int, hi as int),
            !bad ==> i - lo == dots + digits,
            !bad ==> forall|k: int| 0 <= k < i - lo ==> is_digit(#[trigger] m[k]) || m[k] == '.',
            bad ==> 0 <= badi < i - lo && !is_digit(m[badi]) && m[badi] != '.',
            dots == 0 ==> forall|k: int| 0 <= k < i - lo ==> m[k] != '.',
            dots >= 1 ==> 0 <= dot1 < i - lo && m[dot1] == '.',
            dots == 1 ==> forall|k: int| 0 <= k < i - lo && k != dot1 ==> m[k] != '.',
            dots >= 2 ==> 0 <= dot1 < dot2 < i - lo && m[dot2] == '.',
            dots <= i - lo,
            digits <= i - lo,
            digits > 0 ==> exists|k: int| 0 <= k < i - lo && is_digit(#[trigger] m[k]),
        decreases hi - i,
    {
        let c = t.get_char(i);
        proof {
            assert(m[i - lo] == t@[i as int]);
        }
        if c == '.' {
            proof {
                if dots == 0 {
                    dot1 = i - lo;
                } else if dots == 1 {
                    dot2 = i - lo;
                }
            }
            dots = dots + 1;
        } else if '0' <= c && c <= '9' {
            digits = digits + 1;
        } else {
            if !bad {
                proof {
                    badi = i - lo;
                }
            }
            bad = true;
        }
        i = i + 1;
    }
    if bad {
        proof {
            assert forall|j: int|
                !(0 <= j < m.len() && m[j] == '.' && (forall|k: int|
                    0 <= k < m.len() && k != j ==> is_digit(#[trigger] m[k]))) by {
                if 0 <= j < m.len() && m[j] == '.' {
                    assert(badi != j);
                    assert(!is_digit(m[badi]));
                }
            }
            assert(!is_digits1(m));
        }
        false
    } else if dots == 0 {
        proof {
            if digits > 0 {
                assert(m.len() == digits);
                assert(is_digits1(m));
            } else {
                assert(m.len() == 0);
            }
        }
        digits > 0
    } else if dots == 1 {
        proof {
            if digits >= 1 {
                assert(m.len() == digits + 1 >= 2);
                assert forall|k: int| 0 <= k < m.len() && k != dot1 implies is_digit(
                    #[trigger] m[k],
                ) by {
                    assert(m[k] != '.');
                }
                assert(!is_digit(m[dot1]));
            } else {
                assert(m.len() == 1);
                assert(!is_digits1(m));
            }
        }
        digits >= 1
    } else {
        proof {
            assert forall|j: int|
                !(0 <= j < m.len() && m[j] == '.' && (forall|k: int|
                    0 <= k < m.len() && k != j ==> is_digit(#[trigger] m[k]))) by {
                if 0 <= j < m.len() {
                    if j != dot1 {
                        assert(m[dot1] == '.');
                        assert(!is_digit(m[dot1]));
                    } else {
                        assert(m[dot2] == '.');
                        assert(!is_digit(m[dot2]));
                    }
                }
            }
            assert(!is_digits1(m));
        }
        false
    }
}

/// One or more digits over `t[lo..hi)`.
fn check_digits1(t: &str, lo: usize, hi: usize) -> (r: bool)
    requires
        lo <= hi <= t@.len(),
    ensures
        r == is_digits1(t@.subrange(lo as int, hi as int)),
{
    let ghost d = t@.subrange(lo as int, hi as int);
    if lo == hi {
        return false;
    }
    let mut i = lo;
    while i < hi
        invariant
            lo <= i <= hi <= t@.len(),
            d == t@.subrange(lo as int, hi as int),
            forall|k: int| 0 <= k < i - lo ==> is_digit(#[trigger] d[k]),
        decreases hi - i,
    {
        let c = t.get_char(i);
        proof {
            assert(d[i - lo] == t@[i as int]);
        }
        if !('0' <= c && c <= '9') {
            proof {
                assert(!is_digit(d[i - lo]));
            }
            return false;
        }
        i = i + 1;
    }
    true
}

/// An exponent part over `t[lo..hi)`.
fn check_exponent(t: &str, lo: usize, hi: usize) -> (r: bool)
    requires
        lo < hi <= t@.len(),
    ensures
        r == is_exponent(t@.subrange(lo as int, hi as int)),
{
    let ghost e = t@.subrange(lo as int, hi as int);
    let c0 = t.get_char(lo);
    proof {
        assert(e[0] == t@[lo as int]);
    }
    if !(c0 == 'e' || c0 == 'E') {
        return false;
    }
    let mut d0 = lo + 1;
    if d0 < hi {
        let c1 = t.get_char(d0);
        proof {
            assert(e.drop_first()[0] == t@[lo + 1]);
        }
        if c1 == '+' || c1 == '-' {
            d0 = d0 + 1;
        }
    }
    proof {
        assert(strip_sign(e.drop_first()) =~= t@.subrange(d0 as int, hi as int));
    }
    check_digits1(t, d0, hi)
}

/// Whether `t`, as a whole, reads as a decimal floating-point value.
pub fn parses_as_float(t: &str) -> (r: bool)
    ensures
        r == is_float_token(t@),
{
    let n = t.unicode_len();
    let mut start: usize = 0;
    if n > 0 {
        let c0 = t.get_char(0);
        if c0 == '+' || c0 == '-' {
            start = 1;
        }
    }
    let ghost u = strip_sign(t@);
    proof {
        assert(u =~= t@.subrange(start as int, n as int));
    }
    let m = n - start;
    let mut special = false;
    if m == 3 {
        let a = t.get_char(start);
        let b = t.get_char(start + 1);
        let c = t.get_char(start + 2);
        special = ((a == 'i' || a == 'I') && (b == 'n' || b == 'N') && (c == 'f' || c == 'F')) || (
        (a == 'n' || a == 'N') && (b == 'a' || b == 'A') && (c == 'n' || c == 'N'));
    } else if m == 8 {
        let a = t.get_char(start);
        let b = t.get_char(start + 1);
        let c = t.get_char(start + 2);
        let d = t.get_char(start + 3);
        let e = t.get_char(start + 4);
        let f = t.get_char(start + 5);
        let g = t.get_char(start + 6);
        let h = t.get_char(start + 7);
        special = (a == 'i' || a == 'I') && (b == 'n' || b == 'N') && (c == 'f' || c == 'F') && (d
            == 'i' || d == 'I') && (e == 'n' || e == 'N') && (f == 'i' || f == 'I') && (g == 't'
            || g == 'T') && (h == 'y' || h == 'Y');
    }
    proof {
        assert(forall|k: int| 0 <= k < u.len() ==> u[k] == t@[start + k]);
        assert(special == is_special(u));
    }
    if special {
        return true;
    }
    let mut ke = start;
    while ke < n && !(t.get_char(ke) == 'e' || t.get_char(ke) == 'E')
        invariant
            start <= ke <= n,
            n == t@.len(),
            forall|i: int| start <= i < ke ==> !(t@[i] == 'e' || t@[i] == 'E'),
        decreases n - ke,
    {
        ke = ke + 1;
    }
    let mantissa_ok = check_mantissa(t, start, ke);
    let exp_ok = if ke < n {
        check_exponent(t, ke, n)
    } else {
        true
    };
    let ghost krel = ke - start;
    proof {
        assert(u.take(krel) =~= t@.subrange(start as int, ke as int));
        if ke < n {
            assert(u.skip(krel) =~= t@.subrange(ke as int, n as int));
        }
        if mantissa_ok && exp_ok {
            assert(is_number(u));
        } else {
            assert forall|k: int|
                !(0 <= k <= u.len() && is_mantissa(u.take(k)) && (k == u.len() || is_exponent(
                    u.skip(k),
                ))) by {
                if 0 <= k <= u.len() && is_mantissa(u.take(k)) {
                    if k < krel {
                        // an exponent would have to start before the first 'e'
                        if k < u.len() && is_exponent(u.skip(k)) {
                            assert(u.skip(k)[0] == t@[start + k]);
                            assert(false);
                        }
                    } else if k > krel {
                        // the first 'e' would have to sit inside the mantissa
                        assert(ke < n);
                        let w = u.take(k);
                        assert(w[krel] == t@[ke as int]);
                        assert(!is_digit(w[krel]));
                        assert(!is_digits1(w));
                        assert forall|j: int| 0 <= j < w.len() && w[j] == '.' implies !(forall|
                            kk: int,
                        |
                            0 <= kk < w.len() && kk != j ==> is_digit(#[trigger] w[kk])) by {
                            assert(j != krel);
                            assert(0 <= krel < w.len() && krel != j && !is_digit(w[krel]));
                        }
                        assert(!is_mantissa(w));
                        assert(false);
                    } else {
                        assert(u.take(krel) == u.take(k));
                        assert(mantissa_ok);
                        assert(!exp_ok);
                        if k == u.len() {
                            assert(ke == n);
                            assert(false);
                        }
                        if is_exponent(u.skip(k)) {
                            assert(u.skip(k).len() >= 1);
                            assert(ke < n);
                            assert(u.skip(k) == u.skip(krel));
                            assert(false);
                        }
                    }
                }
            }
            assert(!is_number(u));
        }
    }
    mantissa_ok && exp_ok
}

/// Index of the first occurrence of `pat` in `s` at or after `from`.
fn find_sub_str(s: &str, pat: &str, from: usize) -> (r: Option<usize>)
    requires
        from <= s@.len(),
    ensures
        match r {
            Option::Some(i) => from <= i && i + pat@.len() <= s@.len() && find_sub(
                s@,
                pat@,
                from as int,
            ) == i,
            Option::None => find_sub(s@, pat@, from as int) == -1,
        },
{
    let n = s.unicode_len();
    let p = pat.unicode_len();
    if p > n {
        proof {
            lemma_find_sub_none(s@, pat@, from as int);
        }
        return None;
    }
    if p == 0 {
        proof {
            assert(s@.subrange(from as int, from as int) =~= pat@);
            lemma_find_sub_at(s@, pat@, from as int, from as int);
        }
        return Some(from);
    }
    let mut i = from;
    while i <= n - p
        invariant
            from <= i <= n + 1,
            1 <= p <= n,
            n == s@.len(),
            p == pat@.len(),
            forall|t: int| from <= t < i ==> !match_at(s@, pat@, t),
        decreases n - p - i + 1,
    {
        let mut j: usize = 0;
        let mut hit = true;
        while j < p
            invariant
                0 <= j <= p,
                i + p <= n,
                n == s@.len(),
                p == pat@.len(),
                hit ==> forall|t: int| 0 <= t < j ==> s@[i + t] == pat@[t],
                !hit ==> !match_at(s@, pat@, i as int),
            decreases p - j,
        {
            if s.get_char(i + j) != pat.get_char(j) {
                proof {
                    if match_at(s@, pat@, i as int) {
                        assert(s@.subrange(i as int, i + p)[j as int] == pat@[j as int]);
                    }
                }
                hit = false;
                j = p;
            } else {
                j = j + 1;
            }
        }
        if hit {
            proof {
                assert(s@.subrange(i as int, i + p) =~= pat@);
                lemma_find_sub_at(s@, pat@, from as int, i as int);
            }
            return Some(i);
        }
        i = i + 1;
    }
    proof {
        assert forall|t: int| from <= t implies !match_at(s@, pat@, t) by {
            if t < i {
            } else {
                assert(t + p > n);
            }
        }
        lemma_find_sub_none(s@, pat@, from as int);
    }
    None
}

/// Index of the first comma or closing brace at or after `from`.
fn find_delim_str(s: &str, from: usize) -> (r: Option<usize>)
    requires
        from <= s@.len(),
    ensures
        match r {
            Option::Some(i) => from <= i < s@.len() && find_delim(s@, from as int) == i,
            Option::None => find_delim(s@, from as int) == -1,
        },
{
    let n = s.unicode_len();
    let mut i = from;
    while i < n
        invariant
            from <= i <= n,
            n == s@.len(),
            forall|t: int| from <= t < i ==> !is_delim(#[trigger] s@[t]),
        decreases n - i,
    {
        let c = s.get_char(i);
        if c == ',' || c == '}' {
            proof {
                lemma_find_delim_at(s@, from as int, i as int);
            }
            return Some(i);
        }
        i = i + 1;
    }
    proof {
        lemma_find_delim_none(s@, from as int);
    }
    None
}

/// The key of the nested point-estimate field inside a named container.
pub open spec fn point_estimate_key() -> Seq<char> {
    "\"point_estimate\""@
}

/// The token extracted for `key`: find the first occurrence of `key`, the
/// first point-estimate key after it, take the text up to the next comma or
/// closing brace, trim it, and keep it only if it reads as a number.
pub open spec fn extract_field_spec(c: Seq<char>, key: Seq<char>) -> Option<Seq<char>> {
    let st = find_sub(c, key, 0);
    if st < 0 {
        Option::None
    } else {
        let pe = find_sub(c, point_estimate_key(), st);
        if pe < 0 {
            Option::None
        } else {
            let vstart = pe + point_estimate_key().len() + 1;
            if vstart > c.len() {
                Option::None
            } else {
                let end = find_delim(c, vstart);
                if end < 0 {
                    Option::None
                } else {
                    let tok = trim_ws(c.subrange(vstart, end));
                    if is_float_token(tok) {
                        Option::Some(tok)
                    } else {
                        Option::None
                    }
                }
            }
        }
    }
}

/// The numeric token recorded under `field_name`'s nested point estimate,
/// or `None` when the record holds no readable number there.
pub fn extract_field(content: &str, field_name: &str) -> (r: Option<String>)
    ensures
        r.deep_view() == extract_field_spec(content@, field_name@),
{
    let st = match find_sub_str(content, field_name, 0) {
        Option::Some(i) => i,
        Option::None => {
            return None;
        },
    };
    let pe_key = "\"point_estimate\"";
    let pe = match find_sub_str(content, pe_key, st) {
        Option::Some(i) => i,
        Option::None => {
            return None;
        },
    };
    let pe_len = pe_key.unicode_len();
    let n = content.unicode_len();
    let base = pe + pe_len;
    if base >= n {
        return None;
    }
    let vstart = base + 1;
    let end = match find_delim_str(content, vstart) {
        Option::Some(i) => i,
        Option::None => {
            return None;
        },
    };
    let raw = content.substring_char(vstart, end);
    let trimmed = trim_str(raw);
    if parses_as_float(trimmed) {
        Some(trimmed.to_owned())
    } else {
        None
    }
}

/// The key whose container holds the recorded mean.
pub open spec fn mean_key() -> Seq<char> {
    "\"mean\""@
}

/// The key whose container holds the recorded standard deviation.
pub open spec fn std_dev_key() -> Seq<char> {
    "\"std_dev\""@
}

/// The token standing in for an absent standard deviation.
pub open spec fn zero_token() -> Seq<char> {
    seq!['0', '.', '0']
}

/// The (mean, standard deviation) tokens of a record: the mean is
/// mandatory, the standard deviation defaults to zero when absent.
pub open spec fn extract_pair_spec(c: Seq<char>) -> Option<(Seq<char>, Seq<char>)> {
    match extract_field_spec(c, mean_key()) {
        Option::None => Option::None,
        Option::Some(m) => match extract_field_spec(c, std_dev_key()) {
            Option::Some(s) => Option::Some((m, s)),
            Option::None => Option::Some((m, zero_token())),
        },
    }
}

/// Reads one record's mean and standard-deviation tokens.
pub fn extract_mean_and_std_dev(content: &str) -> (r: Option<(String, String)>)
    ensures
        r.deep_view() == extract_pair_spec(content@),
{
    let mean = extract_field(content, "\"mean\"");
    let std_dev = extract_field(content, "\"std_dev\"");
    match (mean, std_dev) {
        (Option::Some(m), Option::Some(s)) => Some((m, s)),
        (Option::Some(m), Option::None) => {
            let z = String::from_str("0.0");
            proof {
                reveal_strlit("0.0");
                assert(z@ =~= zero_token());
            }
            Some((m, z))
        },
        _ => None,
    }
}

/// A record whose mean cannot be extracted yields nothing, however its
/// standard-deviation field reads.
pub proof fn lemma_missing_mean_yields_none(c: Seq<char>)
    requires
        extract_field_spec(c, mean_key()) is None,
    ensures
        extract_pair_spec(c) is None,
{
}

/// A record with a readable mean but no readable standard deviation yields
/// the mean with a standard deviation of zero.
pub proof fn lemma_mean_only_defaults_std_dev(c: Seq<char>)
    requires
        extract_field_spec(c, mean_key()) is Some,
        extract_field_spec(c, std_dev_key()) is None,
    ensures
        extract_pair_spec(c) == Option::Some(
            (extract_field_spec(c, mean_key())->Some_0, zero_token()),
        ),
{
}

} // verus!
