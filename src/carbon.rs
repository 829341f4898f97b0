//! Parsing of Carbon plaintext lines: `<metric-name> <value> <timestamp>`.
use vstd::prelude::*;
use crate::number::{is_float, is_float_text, is_float_char, lemma_float_text_chars};
use crate::text::{dec_text, digit_char};

verus! {

/// A character of the Unicode `White_Space` property.
pub open spec fn is_ws(c: char) -> bool {
    let u = c as u32;
    (0x9 <= u <= 0xd) || u == 0x20 || u == 0x85 || u == 0xa0 || u == 0x1680 || (0x2000 <= u
        <= 0x200a) || u == 0x2028 || u == 0x2029 || u == 0x202f || u == 0x205f || u == 0x3000
}

/// A character that separates the fields of a line.
pub open spec fn is_blank(c: char) -> bool {
    c == ' ' || c == '\t'
}

/// `s` without its leading whitespace.
pub open spec fn trim_start(s: Seq<char>) -> Seq<char>
    decreases s.len(),
{
    if s.len() > 0 && is_ws(s[0]) {
        trim_start(s.drop_first())
    } else {
        s
    }
}

/// `s` without its trailing whitespace.
pub open spec fn trim_end(s: Seq<char>) -> Seq<char>
    decreases s.len(),
{
    if s.len() > 0 && is_ws(s.last()) {
        trim_end(s.drop_last())
    } else {
        s
    }
}

/// `s` without leading and trailing whitespace.
pub open spec fn trimmed(s: Seq<char>) -> Seq<char> {
    trim_end(trim_start(s))
}

/// The pieces of `s` between maximal runs of blanks. A leading or trailing
/// run gives an empty piece at that end; the empty text is one empty piece.
pub open spec fn split_blanks(s: Seq<char>) -> Seq<Seq<char>>
    decreases s.len(),
{
    if s.len() == 0 {
        seq![Seq::empty()]
    } else {
        let p = s.drop_last();
        let c = s.last();
        let q = split_blanks(p);
        if is_blank(c) {
            if p.len() > 0 && is_blank(p.last()) {
                q
            } else {
                q.push(Seq::empty())
            }
        } else {
            q.update(q.len() - 1, q.last().push(c))
        }
    }
}

/// The fields of a line: the pieces of the trimmed line between runs of blanks.
pub open spec fn fields_of(line: Seq<char>) -> Seq<Seq<char>> {
    split_blanks(trimmed(line))
}

pub proof fn lemma_split_blanks_nonempty(s: Seq<char>)
    ensures
        split_blanks(s).len() >= 1,
    decreases s.len(),
{
    if s.len() > 0 {
        lemma_split_blanks_nonempty(s.drop_last());
    }
}

/// Relies on `str::trim`: it removes leading and trailing `White_Space` characters.
#[verifier::external_body]
fn trim_str(s: &str) -> (r: &str)
    ensures
        r@ == trimmed(s@),
{
    s.trim()
}

/// The views of a vector of strings.
pub open spec fn views(v: Seq<String>) -> Seq<Seq<char>> {
    v.map_values(|x: String| x@)
}

/// Splits `s` at each maximal run of spaces and tabs.
pub fn split_on_blanks(s: &str) -> (r: Vec<String>)
    ensures
        views(r@) == split_blanks(s@),
{
    let n = s.unicode_len();
    let mut done: Vec<String> = Vec::new();
    let mut start: usize = 0;
    let mut i: usize = 0;
    proof {
        assert(s@.subrange(0, 0) =~= Seq::<char>::empty());
        assert(views(done@) =~= Seq::<Seq<char>>::empty());
        assert(split_blanks(s@.subrange(0, 0)) =~~= views(done@).push(s@.subrange(0, 0)));
    }
    while i < n
        invariant
            n == s@.len(),
            start <= i <= n,
            split_blanks(s@.subrange(0, i as int)) == views(done@).push(
                s@.subrange(start as int, i as int),
            ),
            i > 0 && is_blank(s@[i - 1]) ==> start == i,
            start > 0 ==> is_blank(s@[start - 1]),
        decreases n - i,
    {
        let c = s.get_char(i);
        let ghost t = s@.subrange(0, i + 1);
        proof {
            assert(t.drop_last() =~= s@.subrange(0, i as int));
            assert(t.last() == c);
        }
        proof {
            lemma_split_blanks_nonempty(t.drop_last());
        }
        if c == ' ' || c == '\t' {
            if !(i > 0 && start == i) {
                let piece = s.substring_char(start, i);
                let ghost before = done@;
                done.push(piece.to_string());
                proof {
                    assert(views(done@) =~= views(before).push(piece@));
                }
            }
            start = i + 1;
            proof {
                assert(s@.subrange(start as int, start as int) =~= Seq::<char>::empty());
                assert(split_blanks(t) =~~= views(done@).push(
                    s@.subrange(start as int, (i + 1) as int),
                ));
            }
        } else {
            proof {
                assert(s@.subrange(start as int, i + 1) =~= s@.subrange(start as int, i as int).push(
                    c,
                ));
                assert(split_blanks(t) =~~= views(done@).push(
                    s@.subrange(start as int, (i + 1) as int),
                ));
            }
        }
        i = i + 1;
    }
    let last = s.substring_char(start, n);
    let ghost before = done@;
    done.push(last.to_string());
    proof {
        assert(s@.subrange(0, n as int) =~= s@);
        assert(views(done@) =~= views(before).push(last@));
    }
    done
}

/// A decimal digit.
pub open spec fn is_digit(c: char) -> bool {
    '0' <= c && c <= '9'
}

/// The value of a decimal digit.
pub open spec fn digit_val(c: char) -> nat {
    (c as u32 - '0' as u32) as nat
}

/// Every character of `s` is a decimal digit.
pub open spec fn all_digits(s: Seq<char>) -> bool {
    forall|i: int| 0 <= i < s.len() ==> is_digit(#[trigger] s[i])
}

/// The number that the digits `s` write in decimal.
pub open spec fn digits_value(s: Seq<char>) -> nat
    decreases s.len(),
{
    if s.len() == 0 {
        0
    } else {
        digits_value(s.drop_last()) * 10 + digit_val(s.last())
    }
}

/// `s` without one leading plus sign.
pub open spec fn without_plus(s: Seq<char>) -> Seq<char> {
    if s.len() > 0 && s[0] == '+' {
        s.drop_first()
    } else {
        s
    }
}

/// A text that reads as a `u64`: an optional `+`, then one or more digits,
/// whose value fits.
pub open spec fn is_u64_text(s: Seq<char>) -> bool {
    let d = without_plus(s);
    d.len() > 0 && all_digits(d) && digits_value(d) <= u64::MAX
}

/// The value of a text for which `is_u64_text` holds.
pub open spec fn u64_text_value(s: Seq<char>) -> nat {
    digits_value(without_plus(s))
}

proof fn lemma_digits_prefix_le(s: Seq<char>, j: int)
    requires
        0 <= j <= s.len(),
    ensures
        digits_value(s.subrange(0, j)) <= digits_value(s),
    decreases s.len() - j,
{
    if j < s.len() {
        lemma_digits_prefix_le(s.drop_last(), j);
        assert(s.drop_last().subrange(0, j) =~= s.subrange(0, j));
    } else {
        assert(s.subrange(0, j) =~= s);
    }
}

/// Reads a `u64` in decimal, as `str::parse::<u64>` does.
pub fn parse_u64(s: &str) -> (r: Option<u64>)
    ensures
        r.is_some() == is_u64_text(s@),
        r.is_some() ==> r.unwrap() as nat == u64_text_value(s@),
{
    let n = s.unicode_len();
    let k: usize = if n > 0 && s.get_char(0) == '+' {
        1
    } else {
        0
    };
    let ghost d = without_plus(s@);
    proof {
        assert(d =~= s@.subrange(k as int, n as int));
    }
    if k == n {
        return None;
    }
    let mut acc: u64 = 0;
    let mut i: usize = k;
    proof {
        assert(d.subrange(0, 0) =~= Seq::<char>::empty());
    }
    while i < n
        invariant
            n == s@.len(),
            k <= i <= n,
            d == s@.subrange(k as int, n as int),
            d == without_plus(s@),
            all_digits(d.subrange(0, i - k)),
            acc as nat == digits_value(d.subrange(0, i - k)),
        decreases n - i,
    {
        let c = s.get_char(i);
        let ghost p = d.subrange(0, i - k + 1);
        proof {
            assert(p.drop_last() =~= d.subrange(0, i - k));
            assert(p.last() == c);
        }
        if !('0' <= c && c <= '9') {
            proof {
                assert(d[i - k] == c);
                assert(!is_digit(d[i - k]));
                assert(!all_digits(d));
            }
            return None;
        }
        let v = (c as u32 - '0' as u32) as u64;
        if acc > (u64::MAX - v) / 10 {
            proof {
                assert(acc * 10 + v > u64::MAX) by (nonlinear_arith)
                    requires
                        acc > (u64::MAX - v) / 10,
                        v <= 9,
                ;
                lemma_digits_prefix_le(d, i - k + 1);
                assert(digit_val(c) == v);
                assert(digits_value(p) == acc * 10 + v);
                assert(digits_value(d) > u64::MAX);
            }
            return None;
        }
        proof {
            assert(acc * 10 + v <= u64::MAX) by (nonlinear_arith)
                requires
                    acc <= (u64::MAX - v) / 10,
                    v <= 9,
            ;
            assert(all_digits(p));
        }
        acc = acc * 10 + v;
        i = i + 1;
    }
    proof {
        assert(d.subrange(0, n - k) =~= d);
    }
    Some(acc)
}

/// A line that makes a sample: three fields, the second a float text and
/// the third a `u64` text.
pub open spec fn is_carbon_line(line: Seq<char>) -> bool {
    let f = fields_of(line);
    f.len() == 3 && is_float_text(f[1]) && is_u64_text(f[2])
}

/// One metric sample, read from a Carbon line.
#[derive(Debug, Clone)]
pub struct GraphitePoint {
    pub metric_name: String,
    /// The value as the line wrote it: a float text.
    pub metric_value: String,
    /// Seconds since the Unix epoch.
    pub timestamp: u64,
}

impl GraphitePoint {
    /// The value is a float text.
    pub open spec fn well_formed(&self) -> bool {
        is_float_text(self.metric_value@)
    }

    /// Parses `<metric-name> <value> <timestamp>`. Lines of another shape give `None`.
    pub fn from_carbon_line(line: &str) -> (r: Option<GraphitePoint>)
        ensures
            r.is_some() == is_carbon_line(line@),
            r.is_some() ==> {
                let p = r.unwrap();
                let f = fields_of(line@);
                &&& p.well_formed()
                &&& p.metric_name@ == f[0]
                &&& p.metric_value@ == f[1]
                &&& p.timestamp as nat == u64_text_value(f[2])
            },
    {
        let fields = split_on_blanks(trim_str(line));
        if fields.len() != 3 {
            return None;
        }
        proof {
            assert(views(fields@)[1] == fields@[1]@);
            assert(views(fields@)[2] == fields@[2]@);
            assert(views(fields@)[0] == fields@[0]@);
        }
        if !is_float(fields[1].as_str()) {
            return None;
        }
        match parse_u64(fields[2].as_str()) {
            Some(ts) => Some(
                GraphitePoint {
                    metric_name: fields[0].clone(),
                    metric_value: fields[1].clone(),
                    timestamp: ts,
                },
            ),
            None => None,
        }
    }
}

proof fn lemma_split_word(w: Seq<char>)
    requires
        forall|i: int| 0 <= i < w.len() ==> !is_blank(#[trigger] w[i]),
    ensures
        split_blanks(w) == seq![w],
    decreases w.len(),
{
    if w.len() > 0 {
        lemma_split_word(w.drop_last());
        assert(seq![w.drop_last()].update(0, w.drop_last().push(w.last())) =~~= seq![w]);
    } else {
        assert(w =~= Seq::<char>::empty());
    }
}

proof fn lemma_split_then_word(s: Seq<char>, w: Seq<char>)
    requires
        s.len() > 0,
        !is_blank(s.last()),
        forall|i: int| 0 <= i < w.len() ==> !is_blank(#[trigger] w[i]),
    ensures
        split_blanks(s + seq![' '] + w) == split_blanks(s).push(w),
    decreases w.len(),
{
    let t = s + seq![' '] + w;
    lemma_split_blanks_nonempty(s);
    if w.len() == 0 {
        assert(t.drop_last() =~= s);
        assert(w =~= Seq::<char>::empty());
    } else {
        lemma_split_then_word(s, w.drop_last());
        assert(t.drop_last() =~= s + seq![' '] + w.drop_last());
        let q = split_blanks(s).push(w.drop_last());
        assert(q.update(q.len() - 1, q.last().push(w.last())) =~~= split_blanks(s).push(w));
    }
}

proof fn lemma_digit_char(k: nat)
    requires
        k < 10,
    ensures
        is_digit(digit_char(k)),
        digit_val(digit_char(k)) == k,
{
}

proof fn lemma_dec_text(n: nat)
    ensures
        dec_text(n).len() > 0,
        all_digits(dec_text(n)),
        digits_value(dec_text(n)) == n,
        is_digit(dec_text(n)[0]),
        is_digit(dec_text(n).last()),
    decreases n,
{
    let d = dec_text(n);
    lemma_digit_char(n % 10);
    if n >= 10 {
        lemma_dec_text(n / 10);
        assert(d.drop_last() =~= dec_text(n / 10));
        assert(all_digits(d));
        assert(d.last() == digit_char(n % 10));
        assert(digits_value(d) == digits_value(d.drop_last()) * 10 + digit_val(d.last()));
        assert((n / 10) * 10 + n % 10 == n);
    } else {
        lemma_digit_char(n);
        assert(d.drop_last() =~= Seq::<char>::empty());
        assert(digits_value(d) == digits_value(d.drop_last()) * 10 + digit_val(d.last()));
    }
}

/// The text of a timestamp reads back as that timestamp.
pub proof fn lemma_u64_text_round_trip(n: u64)
    ensures
        is_u64_text(dec_text(n as nat)),
        u64_text_value(dec_text(n as nat)) == n,
{
    lemma_dec_text(n as nat);
    assert(without_plus(dec_text(n as nat)) == dec_text(n as nat));
}

/// A well-formed line `name value timestamp` parses into exactly those three
/// fields, so rendering a parsed sample and parsing it again gives the same
/// sample. The name is a field: not empty, without blanks, and not starting
/// with whitespace. The value is a float text.
pub proof fn law_carbon_line_round_trip(name: Seq<char>, value: Seq<char>, ts: u64)
    requires
        name.len() > 0,
        forall|i: int| 0 <= i < name.len() ==> !is_blank(#[trigger] name[i]),
        !is_ws(name[0]),
        is_float_text(value),
    ensures
        ({
            let line = name + seq![' '] + value + seq![' '] + dec_text(ts as nat);
            &&& is_carbon_line(line)
            &&& fields_of(line) == seq![name, value, dec_text(ts as nat)]
            &&& u64_text_value(fields_of(line)[2]) == ts
        }),
{
    let d = dec_text(ts as nat);
    lemma_u64_text_round_trip(ts);
    lemma_dec_text(ts as nat);
    lemma_float_text_chars(value);
    assert forall|i: int| 0 <= i < value.len() implies !is_blank(#[trigger] value[i]) by {
        assert(is_float_char(value[i]));
    }
    let line = name + seq![' '] + value + seq![' '] + d;
    assert(line[0] == name[0]);
    assert(line.last() == d.last());
    assert(trim_start(line) == line);
    assert(trim_end(line) == line);
    assert forall|i: int| 0 <= i < d.len() implies !is_blank(#[trigger] d[i]) by {
        assert(is_digit(d[i]));
    }
    lemma_split_word(name);
    lemma_split_then_word(name, value);
    let nv = name + seq![' '] + value;
    assert(nv.last() == value.last());
    lemma_split_then_word(nv, d);
    assert(split_blanks(line) =~~= seq![name, value, d]);
}

proof fn lemma_trim_start(s: Seq<char>)
    ensures
        trim_start(s).len() > 0 ==> !is_ws(trim_start(s)[0]),
    decreases s.len(),
{
    if s.len() > 0 && is_ws(s[0]) {
        lemma_trim_start(s.drop_first());
    }
}

proof fn lemma_trim_end(s: Seq<char>)
    ensures
        trim_end(s).len() <= s.len(),
        trim_end(s) == s.subrange(0, trim_end(s).len() as int),
    decreases s.len(),
{
    if s.len() > 0 && is_ws(s.last()) {
        lemma_trim_end(s.drop_last());
        assert(s.drop_last().subrange(0, trim_end(s).len() as int) =~= s.subrange(
            0,
            trim_end(s).len() as int,
        ));
    } else {
        assert(s.subrange(0, s.len() as int) =~= s);
    }
}

proof fn lemma_split_pieces(s: Seq<char>)
    ensures
        forall|k: int, j: int|
            0 <= k < split_blanks(s).len() && 0 <= j < split_blanks(s)[k].len() ==> !is_blank(
                #[trigger] split_blanks(s)[k][j],
            ),
        s.len() > 0 && !is_blank(s[0]) ==> split_blanks(s)[0].len() > 0 && split_blanks(s)[0][0]
            == s[0],
    decreases s.len(),
{
    if s.len() > 0 {
        let p = s.drop_last();
        lemma_split_pieces(p);
        lemma_split_blanks_nonempty(p);
        if p.len() > 0 {
            assert(p[0] == s[0]);
        } else {
            assert(split_blanks(p) =~~= seq![Seq::<char>::empty()]);
        }
    }
}

/// Every line that parses renders back into a line that parses into the same
/// sample: same name, same value text, same timestamp.
pub proof fn law_parsed_sample_round_trip(line: Seq<char>)
    requires
        is_carbon_line(line),
    ensures
        ({
            let f = fields_of(line);
            let again = f[0] + seq![' '] + f[1] + seq![' '] + dec_text(u64_text_value(f[2]));
            &&& is_carbon_line(again)
            &&& fields_of(again)[0] == f[0]
            &&& fields_of(again)[1] == f[1]
            &&& u64_text_value(fields_of(again)[2]) == u64_text_value(f[2])
        }),
{
    let t = trimmed(line);
    let f = fields_of(line);
    lemma_trim_start(line);
    lemma_trim_end(trim_start(line));
    lemma_split_pieces(t);
    if t.len() == 0 {
        assert(split_blanks(t) =~~= seq![Seq::<char>::empty()]);
    }
    assert(t[0] == trim_start(line)[0]);
    assert forall|i: int| 0 <= i < f[0].len() implies !is_blank(#[trigger] f[0][i]) by {}
    let ts = u64_text_value(f[2]) as u64;
    law_carbon_line_round_trip(f[0], f[1], ts);
}

} // verus!
