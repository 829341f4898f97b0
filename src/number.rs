//! Decimal floating-point text, as the value field of a Carbon line carries it,
//! and its rendering as a JSON number.
use vstd::prelude::*;
use crate::carbon::is_digit;

verus! {

/// The end of the run of digits in `s` that starts at `i`.
pub open spec fn digits_end(s: Seq<char>, i: int) -> int
    decreases s.len() - i,
{
    if 0 <= i < s.len() && is_digit(s[i]) {
        digits_end(s, i + 1)
    } else {
        i
    }
}

/// The end of the run of `'0'` in `s` that starts at `i`, stopping at `e`.
pub open spec fn zeros_end(s: Seq<char>, i: int, e: int) -> int
    decreases e - i,
{
    if 0 <= i < e && e <= s.len() && s[i] == '0' {
        zeros_end(s, i + 1, e)
    } else {
        i
    }
}

/// The code of `c` with ASCII upper case letters taken to lower case.
pub open spec fn lower_code(c: char) -> u32 {
    if 'A' <= c && c <= 'Z' {
        (c as u32 + 32) as u32
    } else {
        c as u32
    }
}

/// `t` is the lower case word `w`, ignoring ASCII case.
pub open spec fn word_ci(t: Seq<char>, w: Seq<char>) -> bool {
    t.len() == w.len() && forall|i: int| 0 <= i < t.len() ==> lower_code(#[trigger] t[i]) == w[i] as u32
}

/// One of the words for an infinite or undefined value.
pub open spec fn is_special_word(t: Seq<char>) -> bool {
    word_ci(t, seq!['i', 'n', 'f']) || word_ci(t, seq!['i', 'n', 'f', 'i', 'n', 'i', 't', 'y'])
        || word_ci(t, seq!['n', 'a', 'n'])
}

/// The length of the sign that `s` starts with, if any.
pub open spec fn sign_len(s: Seq<char>) -> int {
    if s.len() > 0 && (s[0] == '+' || s[0] == '-') {
        1
    } else {
        0
    }
}

/// The end of the integer digits.
pub open spec fn int_end(s: Seq<char>) -> int {
    digits_end(s, sign_len(s))
}

/// A decimal point follows the integer digits.
pub open spec fn has_point(s: Seq<char>) -> bool {
    int_end(s) < s.len() && s[int_end(s)] == '.'
}

/// The end of the fraction digits (the end of the integer digits without a point).
pub open spec fn frac_end(s: Seq<char>) -> int {
    if has_point(s) {
        digits_end(s, int_end(s) + 1)
    } else {
        int_end(s)
    }
}

/// Where the exponent's digits start, after its marker and sign.
pub open spec fn exp_digits_start(s: Seq<char>) -> int {
    let k = frac_end(s) + 1;
    if k < s.len() && (s[k] == '+' || s[k] == '-') {
        k + 1
    } else {
        k
    }
}

/// A finite decimal: digits with an optional point, at least one digit on
/// either side of it, then an optional exponent `e` or `E`, sign, digits.
pub open spec fn is_number_text(s: Seq<char>) -> bool {
    &&& (int_end(s) > sign_len(s) || frac_end(s) > int_end(s) + 1)
    &&& (frac_end(s) == s.len() || ((s[frac_end(s)] == 'e' || s[frac_end(s)] == 'E')
        && digits_end(s, exp_digits_start(s)) > exp_digits_start(s) && digits_end(
        s,
        exp_digits_start(s),
    ) == s.len()))
}

/// A text that reads as a floating-point number: an optional sign, then
/// `inf`, `infinity` or `nan` in any case, or a finite decimal.
pub open spec fn is_float_text(s: Seq<char>) -> bool {
    is_special_word(s.subrange(sign_len(s), s.len() as int)) || is_number_text(s)
}

/// The JSON number for a float text: the sign kept if it is a minus, leading
/// zeros of the integer part dropped (one kept if all are zero), a fraction
/// kept if it has digits, the exponent kept with `e`. Infinite and undefined
/// values have no JSON number and are written `null`.
pub open spec fn json_number(s: Seq<char>) -> Seq<char> {
    if is_special_word(s.subrange(sign_len(s), s.len() as int)) {
        seq!['n', 'u', 'l', 'l']
    } else {
        let neg = if s.len() > 0 && s[0] == '-' {
            seq!['-']
        } else {
            Seq::empty()
        };
        let z = zeros_end(s, sign_len(s), int_end(s));
        let int_part = if z == int_end(s) {
            seq!['0']
        } else {
            s.subrange(z, int_end(s))
        };
        let frac = if frac_end(s) > int_end(s) + 1 {
            s.subrange(int_end(s), frac_end(s))
        } else {
            Seq::empty()
        };
        let exp = if frac_end(s) < s.len() {
            seq!['e'] + s.subrange(frac_end(s) + 1, s.len() as int)
        } else {
            Seq::empty()
        };
        neg + int_part + frac + exp
    }
}

proof fn lemma_digits_end(s: Seq<char>, i: int)
    requires
        0 <= i,
    ensures
        digits_end(s, i) >= i,
        i <= s.len() ==> digits_end(s, i) <= s.len(),
        forall|j: int| i <= j < digits_end(s, i) ==> is_digit(#[trigger] s[j]),
    decreases s.len() - i,
{
    if 0 <= i < s.len() && is_digit(s[i]) {
        lemma_digits_end(s, i + 1);
    }
}

/// A float text has no whitespace: each of its characters is a digit, a
/// sign, a point, an exponent marker or an ASCII letter.
pub proof fn lemma_float_text_chars(s: Seq<char>)
    requires
        is_float_text(s),
    ensures
        s.len() > 0,
        forall|j: int| 0 <= j < s.len() ==> is_float_char(#[trigger] s[j]),
{
    let sl = sign_len(s);
    let t = s.subrange(sl, s.len() as int);
    if is_special_word(t) {
        let w1 = seq!['i', 'n', 'f'];
        let w2 = seq!['i', 'n', 'f', 'i', 'n', 'i', 't', 'y'];
        let w3 = seq!['n', 'a', 'n'];
        assert forall|i: int| 0 <= i < w1.len() implies 0x61 <= (#[trigger] w1[i]) as u32 <= 0x7a by {}
        assert forall|i: int| 0 <= i < w2.len() implies 0x61 <= (#[trigger] w2[i]) as u32 <= 0x7a by {}
        assert forall|i: int| 0 <= i < w3.len() implies 0x61 <= (#[trigger] w3[i]) as u32 <= 0x7a by {}
        if word_ci(t, w1) {
            lemma_word_letters(t, w1);
        } else if word_ci(t, w2) {
            lemma_word_letters(t, w2);
        } else {
            lemma_word_letters(t, w3);
        }
        assert forall|j: int| 0 <= j < s.len() implies is_float_char(#[trigger] s[j]) by {
            if j >= sl {
                assert(t[j - sl] == s[j]);
            }
        }
    } else {
        lemma_digits_end(s, sl);
        let ie = int_end(s);
        if has_point(s) {
            lemma_digits_end(s, ie + 1);
        }
        let fe = frac_end(s);
        let ed = exp_digits_start(s);
        if fe < s.len() {
            lemma_digits_end(s, ed);
        }
        assert forall|j: int| 0 <= j < s.len() implies is_float_char(#[trigger] s[j]) by {
            if j < sl {
            } else if j < ie {
            } else if j < fe {
                if j > ie {
                }
            } else if j < ed {
            } else {
            }
        }
    }
}

/// A character that can stand in a float text.
pub open spec fn is_float_char(c: char) -> bool {
    is_digit(c) || c == '+' || c == '-' || c == '.' || (0x61 <= c as u32 <= 0x7a) || (0x41
        <= c as u32 <= 0x5a)
}

proof fn lemma_word_letters(t: Seq<char>, w: Seq<char>)
    requires
        word_ci(t, w),
        w.len() > 0,
        forall|i: int| 0 <= i < w.len() ==> 0x61 <= (#[trigger] w[i]) as u32 <= 0x7a,
    ensures
        t.len() > 0,
        forall|i: int| 0 <= i < t.len() ==> is_float_char(#[trigger] t[i]),
{
    assert forall|i: int| 0 <= i < t.len() implies is_float_char(#[trigger] t[i]) by {
        assert(lower_code(t[i]) == w[i] as u32);
    }
}

fn find_digits_end(s: &str, n: usize, i: usize) -> (r: usize)
    requires
        n == s@.len(),
        i <= n,
    ensures
        r == digits_end(s@, i as int),
        i <= r <= n,
{
    let mut j = i;
    let mut more = true;
    while more && j < n
        invariant
            n == s@.len(),
            i <= j <= n,
            digits_end(s@, i as int) == digits_end(s@, j as int),
            !more ==> digits_end(s@, j as int) == j,
        decreases (n - j) as int + if more { 1int } else { 0int },
    {
        let c = s.get_char(j);
        if '0' <= c && c <= '9' {
            j = j + 1;
        } else {
            more = false;
        }
    }
    j
}

fn find_zeros_end(s: &str, n: usize, i: usize, e: usize) -> (r: usize)
    requires
        n == s@.len(),
        i <= e <= n,
    ensures
        r == zeros_end(s@, i as int, e as int),
        i <= r <= e,
{
    let mut j = i;
    let mut more = true;
    while more && j < e
        invariant
            n == s@.len(),
            i <= j <= e <= n,
            zeros_end(s@, i as int, e as int) == zeros_end(s@, j as int, e as int),
            !more ==> zeros_end(s@, j as int, e as int) == j,
        decreases (e - j) as int + if more { 1int } else { 0int },
    {
        if s.get_char(j) == '0' {
            j = j + 1;
        } else {
            more = false;
        }
    }
    j
}

/// Whether the characters of `s` from `from` on are the word `w`, ignoring ASCII case.
fn is_word_from(s: &str, n: usize, from: usize, w: &str) -> (r: bool)
    requires
        n == s@.len(),
        from <= n,
    ensures
        r == word_ci(s@.subrange(from as int, n as int), w@),
{
    let ghost t = s@.subrange(from as int, n as int);
    let m = w.unicode_len();
    if n - from != m {
        return false;
    }
    let mut i: usize = 0;
    while i < m
        invariant
            n == s@.len(),
            from <= n,
            m == w@.len(),
            n - from == m,
            t == s@.subrange(from as int, n as int),
            i <= m,
            forall|k: int| 0 <= k < i ==> lower_code(#[trigger] t[k]) == w@[k] as u32,
        decreases m - i,
    {
        let c = s.get_char(from + i);
        let lc: u32 = if 'A' <= c && c <= 'Z' {
            c as u32 + 32
        } else {
            c as u32
        };
        proof {
            assert(t[i as int] == c);
        }
        if lc != w.get_char(i) as u32 {
            return false;
        }
        i = i + 1;
    }
    true
}

/// Whether `s`, from `from` on, is a word for an infinite or undefined value.
fn is_special_from(s: &str, n: usize, from: usize) -> (r: bool)
    requires
        n == s@.len(),
        from <= n,
    ensures
        r == is_special_word(s@.subrange(from as int, n as int)),
{
    proof {
        reveal_strlit("inf");
        reveal_strlit("infinity");
        reveal_strlit("nan");
        assert("inf"@ =~= seq!['i', 'n', 'f']);
        assert("infinity"@ =~= seq!['i', 'n', 'f', 'i', 'n', 'i', 't', 'y']);
        assert("nan"@ =~= seq!['n', 'a', 'n']);
    }
    is_word_from(s, n, from, "inf") || is_word_from(s, n, from, "infinity") || is_word_from(
        s,
        n,
        from,
        "nan",
    )
}

/// The positions that the grammar of a float text picks out in `s`.
struct Parts {
    sign: usize,
    int_end: usize,
    frac_end: usize,
    exp_digits: usize,
}

fn parts_of(s: &str, n: usize) -> (r: Parts)
    requires
        n == s@.len(),
    ensures
        r.sign == sign_len(s@),
        r.int_end == int_end(s@),
        r.frac_end == frac_end(s@),
        r.frac_end < n ==> r.exp_digits == exp_digits_start(s@),
        r.sign <= r.int_end <= r.frac_end <= n,
{
    let sign: usize = if n > 0 && (s.get_char(0) == '+' || s.get_char(0) == '-') {
        1
    } else {
        0
    };
    let ie = find_digits_end(s, n, sign);
    let fe = if ie < n && s.get_char(ie) == '.' {
        find_digits_end(s, n, ie + 1)
    } else {
        ie
    };
    let ed = if fe < n {
        let k = fe + 1;
        if k < n && (s.get_char(k) == '+' || s.get_char(k) == '-') {
            k + 1
        } else {
            k
        }
    } else {
        n
    };
    Parts { sign, int_end: ie, frac_end: fe, exp_digits: ed }
}

/// Whether `s` reads as a floating-point number.
pub fn is_float(s: &str) -> (r: bool)
    ensures
        r == is_float_text(s@),
{
    let n = s.unicode_len();
    let p = parts_of(s, n);
    if is_special_from(s, n, p.sign) {
        return true;
    }
    if !(p.int_end > p.sign || (p.frac_end > p.int_end && p.frac_end - p.int_end > 1)) {
        return false;
    }
    if p.frac_end == n {
        return true;
    }
    let c = s.get_char(p.frac_end);
    if !(c == 'e' || c == 'E') || p.exp_digits > n {
        return false;
    }
    let de = find_digits_end(s, n, p.exp_digits);
    de > p.exp_digits && de == n
}

/// Appends the JSON number for the float text `s` to `out`.
pub fn push_json_number(out: &mut String, s: &str)
    requires
        is_float_text(s@),
    ensures
        final(out)@ == old(out)@ + json_number(s@),
{
    let n = s.unicode_len();
    let p = parts_of(s, n);
    if is_special_from(s, n, p.sign) {
        proof {
            reveal_strlit("null");
        }
        out.append("null");
        proof {
            assert("null"@ =~= seq!['n', 'u', 'l', 'l']);
        }
        return;
    }
    proof {
        reveal_strlit("-");
        reveal_strlit("0");
        reveal_strlit("e");
    }
    let neg = n > 0 && s.get_char(0) == '-';
    if neg {
        out.append("-");
    }
    let z = find_zeros_end(s, n, p.sign, p.int_end);
    if z == p.int_end {
        out.append("0");
    } else {
        out.append(s.substring_char(z, p.int_end));
    }
    if (p.frac_end > p.int_end && p.frac_end - p.int_end > 1) {
        out.append(s.substring_char(p.int_end, p.frac_end));
    }
    if p.frac_end < n {
        out.append("e");
        out.append(s.substring_char(p.frac_end + 1, n));
    }
    proof {
        assert(final(out)@ =~= old(out)@ + json_number(s@));
    }
}

} // verus!
