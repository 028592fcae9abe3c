//! Character-level text utilities shared by the file format, the name
//! heuristic and the reports: whitespace, trimming, decimal integers.

use vstd::prelude::*;

verus! {

/// The Unicode `White_Space` property, which `char::is_whitespace`,
/// `str::trim` and `str::split_whitespace` go by.
pub open spec fn is_ws(c: char) -> bool {
    ||| ('\u{9}' <= c && c <= '\u{d}')
    ||| c == ' '
    ||| c == '\u{85}'
    ||| c == '\u{a0}'
    ||| c == '\u{1680}'
    ||| ('\u{2000}' <= c && c <= '\u{200a}')
    ||| c == '\u{2028}'
    ||| c == '\u{2029}'
    ||| c == '\u{202f}'
    ||| c == '\u{205f}'
    ||| c == '\u{3000}'
}

/// Whether `c` is a Unicode white-space character.
pub fn is_whitespace(c: char) -> (b: bool)
    ensures
        b == is_ws(c),
{
    ('\u{9}' <= c && c <= '\u{d}') || c == ' ' || c == '\u{85}' || c == '\u{a0}'
        || c == '\u{1680}' || ('\u{2000}' <= c && c <= '\u{200a}') || c == '\u{2028}'
        || c == '\u{2029}' || c == '\u{202f}' || c == '\u{205f}' || c == '\u{3000}'
}

/// The characters of `s`, in order.
pub fn chars_of(s: &str) -> (v: Vec<char>)
    ensures
        v@ == s@,
{
    let mut v: Vec<char> = Vec::new();
    for c in it: s.chars()
        invariant
            v@ == it.seq().take(it.index() as int),
    {
        v.push(c);
    }
    v
}


/// Whether two character sequences are equal.
pub fn chars_eq(a: &[char], b: &[char]) -> (r: bool)
    ensures
        r == (a@ == b@),
{
    if a.len() != b.len() {
        return false;
    }
    let mut i: usize = 0;
    while i < a.len()
        invariant
            i <= a@.len(),
            a@.len() == b@.len(),
            forall|j: int| 0 <= j < i ==> a@[j] == b@[j],
        decreases a@.len() - i,
    {
        if a[i] != b[i] {
            return false;
        }
        i = i + 1;
    }
    assert(a@ =~= b@);
    true
}

/// Appends `c` to `s` (std `String::push`).
#[verifier::external_body]
pub(crate) fn push_char(s: &mut String, c: char)
    ensures
        final(s)@ == old(s)@.push(c),
{
    s.push(c)
}

/// The string made of the characters of `v`, in order.
pub fn string_of(v: &[char]) -> (s: String)
    ensures
        s@ == v@,
{
    let mut s = String::new();
    let mut i: usize = 0;
    while i < v.len()
        invariant
            i <= v@.len(),
            s@ == v@.take(i as int),
        decreases v@.len() - i,
    {
        push_char(&mut s, v[i]);
        i = i + 1;
        assert(s@ =~= v@.take(i as int));
    }
    assert(v@.take(v@.len() as int) =~= v@);
    s
}

/// `s` without its leading white space.
pub open spec fn trim_start(s: Seq<char>) -> Seq<char>
    decreases s.len(),
{
    if s.len() > 0 && is_ws(s[0]) {
        trim_start(s.drop_first())
    } else {
        s
    }
}

/// `s` without its trailing white space.
pub open spec fn trim_end(s: Seq<char>) -> Seq<char>
    decreases s.len(),
{
    if s.len() > 0 && is_ws(s.last()) {
        trim_end(s.drop_last())
    } else {
        s
    }
}

/// `s` without leading and trailing white space (`str::trim`).
pub open spec fn trim(s: Seq<char>) -> Seq<char> {
    trim_end(trim_start(s))
}

proof fn lemma_trim_start_step(s: Seq<char>, i: int)
    requires
        0 <= i < s.len(),
        is_ws(s[i]),
    ensures
        trim_start(s.subrange(i, s.len() as int)) == trim_start(s.subrange(i + 1, s.len() as int)),
{
    assert(s.subrange(i, s.len() as int).drop_first() =~= s.subrange(i + 1, s.len() as int));
}

proof fn lemma_trim_end_step(s: Seq<char>, j: int)
    requires
        0 < j <= s.len(),
        is_ws(s[j - 1]),
    ensures
        trim_end(s.take(j)) == trim_end(s.take(j - 1)),
{
    assert(s.take(j).drop_last() =~= s.take(j - 1));
}

/// `v` without leading and trailing white space.
pub fn trim_chars(v: &[char]) -> (r: Vec<char>)
    ensures
        r@ == trim(v@),
{
    let n = v.len();
    let mut i: usize = 0;
    assert(v@.subrange(0, n as int) =~= v@);
    while i < n && is_whitespace(v[i])
        invariant
            i <= n == v@.len(),
            trim_start(v@) == trim_start(v@.subrange(i as int, n as int)),
        decreases n - i,
    {
        proof {
            lemma_trim_start_step(v@, i as int);
        }
        i = i + 1;
    }
    let ghost rest = v@.subrange(i as int, n as int);
    assert(trim_start(v@) == rest) by {
        assert(v@.subrange(0, n as int) =~= v@);
    }
    let mut j: usize = n;
    assert(rest.take(j - i) =~= rest);
    while j > i && is_whitespace(v[j - 1])
        invariant
            i <= j <= n == v@.len(),
            rest == v@.subrange(i as int, n as int),
            trim_end(rest) == trim_end(rest.take(j - i)),
        decreases j,
    {
        proof {
            lemma_trim_end_step(rest, j - i);
        }
        j = j - 1;
    }
    assert(trim_end(rest.take(j - i)) == rest.take(j - i));
    let mut r: Vec<char> = Vec::new();
    let mut k: usize = i;
    while k < j
        invariant
            i <= k <= j <= n == v@.len(),
            r@ == v@.subrange(i as int, k as int),
        decreases j - k,
    {
        r.push(v[k]);
        k = k + 1;
        assert(r@ =~= v@.subrange(i as int, k as int));
    }
    assert(r@ =~= rest.take(j - i));
    r
}


/// The decimal digit character for `d` (`0 <= d < 10`).
pub open spec fn digit_char(d: int) -> char {
    ('0' as int + d) as char
}

/// Decimal representation of a natural number, without leading zeros.
pub open spec fn digits_of(n: nat) -> Seq<char>
    decreases n,
{
    if n < 10 {
        seq![digit_char(n as int)]
    } else {
        digits_of(n / 10).push(digit_char((n % 10) as int))
    }
}

/// Decimal representation of an integer, as `Display` writes it:
/// a `-` for negative values, then the digits of the magnitude.
pub open spec fn fmt_int(n: int) -> Seq<char> {
    if n < 0 {
        seq!['-'] + digits_of((-n) as nat)
    } else {
        digits_of(n as nat)
    }
}

fn push_digits(m: u64, out: &mut Vec<char>)
    ensures
        final(out)@ == old(out)@ + digits_of(m as nat),
    decreases m,
{
    if m >= 10 {
        push_digits(m / 10, out);
    }
    let d = (m % 10) as u32;
    let c = char_from_digit(d);
    out.push(c);
    proof {
        if m >= 10 {
            assert(digits_of(m as nat) == digits_of((m / 10) as nat).push(digit_char((m % 10) as int)));
        }
    }
}

/// The decimal digit character for `d` (`d < 10`).
fn char_from_digit(d: u32) -> (c: char)
    requires
        d < 10,
    ensures
        c == digit_char(d as int),
{
    match d {
        0 => '0',
        1 => '1',
        2 => '2',
        3 => '3',
        4 => '4',
        5 => '5',
        6 => '6',
        7 => '7',
        8 => '8',
        _ => '9',
    }
}

/// Decimal representation of `n` (what `n.to_string()` gives).
pub fn fmt_i64(n: i64) -> (v: Vec<char>)
    ensures
        v@ == fmt_int(n as int),
{
    let mut v: Vec<char> = Vec::new();
    if n < 0 {
        v.push('-');
        let m: u64 = if n == i64::MIN {
            9223372036854775808u64
        } else {
            (-n) as u64
        };
        push_digits(m, &mut v);
        assert(v@ =~= seq!['-'] + digits_of((-(n as int)) as nat));
    } else {
        push_digits(n as u64, &mut v);
        assert(v@ =~= digits_of(n as nat));
    }
    v
}

/// Decimal representation of the unsigned `n` (what `n.to_string()` gives).
pub fn uint_string(n: u64) -> (s: String)
    ensures
        s@ == fmt_int(n as int),
{
    let mut v: Vec<char> = Vec::new();
    push_digits(n, &mut v);
    assert(v@ =~= digits_of(n as nat));
    string_of(v.as_slice())
}

/// Decimal representation of `n` as a `String`.
pub fn int_string(n: i64) -> (s: String)
    ensures
        s@ == fmt_int(n as int),
{
    let v = fmt_i64(n);
    string_of(v.as_slice())
}

/// Why text is not a decimal integer (the kinds of `std::num::ParseIntError`).
#[derive(Clone, Copy, Debug, PartialEq, Eq, Structural)]
pub enum IntErrorKind {
    /// The text is empty.
    Empty,
    /// A character is not a decimal digit (or the text is a lone sign).
    InvalidDigit,
    /// The value is above the largest value of the type.
    PosOverflow,
    /// The value is below the smallest value of the type.
    NegOverflow,
}

/// The message that `ParseIntError`'s `Display` gives for each kind.
pub open spec fn int_error_text(k: IntErrorKind) -> Seq<char> {
    match k {
        IntErrorKind::Empty => "cannot parse integer from empty string"@,
        IntErrorKind::InvalidDigit => "invalid digit found in string"@,
        IntErrorKind::PosOverflow => "number too large to fit in target type"@,
        IntErrorKind::NegOverflow => "number too small to fit in target type"@,
    }
}

impl IntErrorKind {
    /// The message that `ParseIntError`'s `Display` gives for this kind.
    pub fn message(&self) -> (s: String)
        ensures
            s@ == int_error_text(*self),
    {
        match self {
            IntErrorKind::Empty => String::from_str("cannot parse integer from empty string"),
            IntErrorKind::InvalidDigit => String::from_str("invalid digit found in string"),
            IntErrorKind::PosOverflow => String::from_str("number too large to fit in target type"),
            IntErrorKind::NegOverflow => String::from_str("number too small to fit in target type"),
        }
    }
}

/// Whether `c` is an ASCII decimal digit.
pub open spec fn is_digit(c: char) -> bool {
    '0' <= c && c <= '9'
}

/// The value of the decimal digits `s` (all of which are digits).
pub open spec fn digits_value(s: Seq<char>) -> int
    decreases s.len(),
{
    if s.len() == 0 {
        0
    } else {
        digits_value(s.drop_last()) * 10 + (s.last() as int - '0' as int)
    }
}

/// Number of leading decimal digits of `s`.
pub open spec fn digit_run(s: Seq<char>) -> nat
    decreases s.len(),
{
    if s.len() > 0 && is_digit(s[0]) {
        1 + digit_run(s.drop_first())
    } else {
        0
    }
}

/// What `str::parse` gives for an integer type whose values run from
/// `-neg_max` to `pos_max`: an optional `+` or `-` sign, then decimal digits.
/// Digits are read from the left, so a value that leaves the range before the
/// first non-digit is an overflow, not an invalid digit.
pub open spec fn spec_parse_int(s: Seq<char>, neg_max: int, pos_max: int) -> Result<
    int,
    IntErrorKind,
> {
    if s.len() == 0 {
        Err(IntErrorKind::Empty)
    } else if (s[0] == '+' || s[0] == '-') && s.len() == 1 {
        Err(IntErrorKind::InvalidDigit)
    } else {
        let neg = s[0] == '-';
        let body = if s[0] == '+' || s[0] == '-' { s.drop_first() } else { s };
        let k = digit_run(body);
        let v = digits_value(body.take(k as int));
        if !neg && v > pos_max {
            Err(IntErrorKind::PosOverflow)
        } else if neg && v > neg_max {
            Err(IntErrorKind::NegOverflow)
        } else if k < body.len() {
            Err(IntErrorKind::InvalidDigit)
        } else if neg {
            Ok(-v)
        } else {
            Ok(v)
        }
    }
}

/// What `str::parse::<i64>` gives.
pub open spec fn spec_parse_i64(s: Seq<char>) -> Result<i64, IntErrorKind> {
    match spec_parse_int(s, i64::MAX + 1, i64::MAX as int) {
        Ok(v) => Ok(v as i64),
        Err(e) => Err(e),
    }
}

/// What `str::parse::<i32>` gives.
pub open spec fn spec_parse_i32(s: Seq<char>) -> Result<i32, IntErrorKind> {
    match spec_parse_int(s, i32::MAX + 1, i32::MAX as int) {
        Ok(v) => Ok(v as i32),
        Err(e) => Err(e),
    }
}

proof fn lemma_digit_run_prefix(s: Seq<char>, i: int)
    requires
        0 <= i <= s.len(),
        forall|j: int| 0 <= j < i ==> is_digit(#[trigger] s[j]),
    ensures
        digit_run(s) >= i,
        i < s.len() && !is_digit(s[i]) ==> digit_run(s) == i,
    decreases i,
{
    if i > 0 {
        lemma_digit_run_prefix(s.drop_first(), i - 1);
    } else if s.len() > 0 && !is_digit(s[0]) {
    }
}

proof fn lemma_digit_run_props(s: Seq<char>)
    ensures
        digit_run(s) <= s.len(),
        forall|j: int| 0 <= j < digit_run(s) ==> is_digit(#[trigger] s[j]),
        digit_run(s) < s.len() ==> !is_digit(s[digit_run(s) as int]),
    decreases s.len(),
{
    if s.len() > 0 && is_digit(s[0]) {
        lemma_digit_run_props(s.drop_first());
        assert forall|j: int| 0 <= j < digit_run(s) implies is_digit(#[trigger] s[j]) by {
            if j > 0 {
                assert(s[j] == s.drop_first()[j - 1]);
            }
        }
    }
}

proof fn lemma_digits_value_nonneg(s: Seq<char>)
    requires
        forall|m: int| 0 <= m < s.len() ==> is_digit(#[trigger] s[m]),
    ensures
        0 <= digits_value(s),
    decreases s.len(),
{
    if s.len() > 0 {
        lemma_digits_value_nonneg(s.drop_last());
    }
}

proof fn lemma_digits_value_mono(s: Seq<char>, j: int, k: int)
    requires
        0 <= j <= k <= s.len(),
        forall|m: int| 0 <= m < k ==> is_digit(#[trigger] s[m]),
    ensures
        0 <= digits_value(s.take(j)) <= digits_value(s.take(k)),
    decreases k,
{
    if j == k {
        lemma_digits_value_nonneg(s.take(k));
    } else {
        assert(s.take(k).drop_last() =~= s.take(k - 1));
        assert(s.take(k).last() == s[k - 1]);
        lemma_digits_value_mono(s, j, k - 1);
    }
}

fn parse_int_in(v: &[char], neg_max: i128, pos_max: i128) -> (r: Result<i128, IntErrorKind>)
    requires
        0 < pos_max < neg_max <= i64::MAX + 1,
    ensures
        match r {
            Ok(x) => spec_parse_int(v@, neg_max as int, pos_max as int) == Ok::<int, IntErrorKind>(x as int),
            Err(e) => spec_parse_int(v@, neg_max as int, pos_max as int) == Err::<int, IntErrorKind>(e),
        },
{
    let n = v.len();
    if n == 0 {
        return Err(IntErrorKind::Empty);
    }
    let first = v[0];
    if (first == '+' || first == '-') && n == 1 {
        return Err(IntErrorKind::InvalidDigit);
    }
    let neg = first == '-';
    let start: usize = if first == '+' || first == '-' { 1 } else { 0 };
    let ghost body = if first == '+' || first == '-' { v@.drop_first() } else { v@ };
    assert(body =~= v@.subrange(start as int, n as int));
    let limit: i128 = if neg { neg_max } else { pos_max };
    let mut acc: i128 = 0;
    let mut i: usize = start;
    while i < n
        invariant
            start <= i <= n == v@.len(),
            n > 0,
            neg == (v@[0] == '-'),
            start == (if v@[0] == '+' || v@[0] == '-' { 1usize } else { 0usize }),
            !((v@[0] == '+' || v@[0] == '-') && n == 1),
            body == (if v@[0] == '+' || v@[0] == '-' { v@.drop_first() } else { v@ }),
            body == v@.subrange(start as int, n as int),
            forall|j: int| 0 <= j < i - start ==> is_digit(#[trigger] body[j]),
            acc == digits_value(body.take(i - start)),
            0 <= acc <= limit,
            limit == (if neg { neg_max } else { pos_max }),
            0 < pos_max < neg_max <= i64::MAX + 1,
        decreases n - i,
    {
        let c = v[i];
        let ghost k = i - start;
        assert(body[k as int] == c);
        if !('0' <= c && c <= '9') {
            proof {
                lemma_digit_run_prefix(body, k as int);
                assert(body.take(k as int) == body.take(digit_run(body) as int));
                assert(digits_value(body.take(digit_run(body) as int)) == acc);
                assert(digit_run(body) < body.len());
                assert(body.len() == v@.len() - start);
            }
            return Err(IntErrorKind::InvalidDigit);
        }
        let d = (c as u32 - '0' as u32) as i128;
        assert(body.take(k + 1).drop_last() =~= body.take(k as int));
        assert(d == body[k as int] as int - '0' as int);
        assert(body.take(k + 1).last() == body[k as int]);
        let next = acc * 10 + d;
        assert(next == digits_value(body.take(k + 1)));
        if next > limit {
            proof {
                lemma_digit_run_prefix(body, k + 1);
                lemma_digit_run_props(body);
                lemma_digits_value_mono(body, k + 1, digit_run(body) as int);
            }
            assert(digits_value(body.take(digit_run(body) as int)) > limit);
            if neg {
                return Err(IntErrorKind::NegOverflow);
            } else {
                return Err(IntErrorKind::PosOverflow);
            }
        }
        acc = next;
        i = i + 1;
    }
    proof {
        lemma_digit_run_prefix(body, (n - start) as int);
        lemma_digit_run_props(body);
        assert(body.take((n - start) as int) =~= body);
        assert(digit_run(body) == body.len());
    }
    if neg {
        Ok(-acc)
    } else {
        Ok(acc)
    }
}

/// The decimal integer written in `v` (`str::parse::<i64>` on `v`).
pub fn parse_i64(v: &[char]) -> (r: Result<i64, IntErrorKind>)
    ensures
        r == spec_parse_i64(v@),
{
    match parse_int_in(v, 9223372036854775808i128, 9223372036854775807i128) {
        Ok(x) => Ok(x as i64),
        Err(e) => Err(e),
    }
}

/// The decimal integer written in `v` (`str::parse::<i32>` on `v`).
pub fn parse_i32(v: &[char]) -> (r: Result<i32, IntErrorKind>)
    ensures
        r == spec_parse_i32(v@),
{
    match parse_int_in(v, 2147483648i128, 2147483647i128) {
        Ok(x) => Ok(x as i32),
        Err(e) => Err(e),
    }
}




proof fn lemma_digits_of(m: nat)
    ensures
        digits_of(m).len() >= 1,
        forall|j: int| 0 <= j < digits_of(m).len() ==> is_digit(#[trigger] digits_of(m)[j]),
        digits_value(digits_of(m)) == m,
    decreases m,
{
    if m < 10 {
        assert(digits_of(m).drop_last() =~= Seq::<char>::empty());
        assert(digits_value(Seq::<char>::empty()) == 0);
        assert(digit_char(m as int) as int == '0' as int + m);
    } else {
        assert(digit_char((m % 10) as int) as int == '0' as int + m % 10);
        lemma_digits_of(m / 10);
        let p = digits_of(m / 10);
        assert(digits_of(m).drop_last() =~= p);
        assert(digits_of(m).last() == digit_char((m % 10) as int));
        assert(digits_value(digits_of(m)) == digits_value(p) * 10 + (m % 10));
        assert((m / 10) * 10 + m % 10 == m);
        assert forall|j: int| 0 <= j < digits_of(m).len() implies is_digit(#[trigger] digits_of(m)[j]) by {
            if j < p.len() {
                assert(digits_of(m)[j] == p[j]);
            }
        }
    }
}

/// Text written for an integer in the range of a type reads back as the
/// same integer; it is a `-` and digits, with no white space around it.
proof fn lemma_parse_int_of_fmt(n: int, neg_max: int, pos_max: int)
    requires
        -neg_max <= n <= pos_max,
    ensures
        spec_parse_int(fmt_int(n), neg_max, pos_max) == Ok::<int, IntErrorKind>(n),
        trim(fmt_int(n)) == fmt_int(n),
        fmt_int(n).len() >= 1,
        forall|j: int|
            0 <= j < fmt_int(n).len() ==> #[trigger] fmt_int(n)[j] == '-' || is_digit(
                fmt_int(n)[j],
            ),
{
    let s = fmt_int(n);
    if n < 0 {
        let m = (-n) as nat;
        lemma_digits_of(m);
        let d = digits_of(m);
        assert(s.drop_first() =~= d);
        lemma_digit_run_prefix(d, d.len() as int);
        lemma_digit_run_props(d);
        assert(d.take(d.len() as int) =~= d);
        assert(s.last() == d.last());
        assert forall|j: int| 0 <= j < s.len() implies #[trigger] s[j] == '-' || is_digit(s[j]) by {
            if j > 0 {
                assert(s[j] == d[j - 1]);
            }
        }
    } else {
        let m = n as nat;
        lemma_digits_of(m);
        lemma_digit_run_prefix(s, s.len() as int);
        lemma_digit_run_props(s);
        assert(s.take(s.len() as int) =~= s);
    }
    assert(!is_ws(s[0]));
    assert(!is_ws(s.last()));
    assert(trim_start(s) == s);
    assert(trim_end(s) == s);
}

/// Text written for an `i64` reads back as the same `i64`.
pub proof fn lemma_parse_fmt_int(n: i64)
    ensures
        spec_parse_i64(fmt_int(n as int)) == Ok::<i64, IntErrorKind>(n),
        trim(fmt_int(n as int)) == fmt_int(n as int),
{
    lemma_parse_int_of_fmt(n as int, i64::MAX + 1, i64::MAX as int);
}

/// Text written for an `i32` reads back as the same `i32`.
pub proof fn lemma_parse_fmt_i32(n: i32)
    ensures
        spec_parse_i32(fmt_int(n as int)) == Ok::<i32, IntErrorKind>(n),
        trim(fmt_int(n as int)) == fmt_int(n as int),
{
    lemma_parse_int_of_fmt(n as int, i32::MAX + 1, i32::MAX as int);
}

/// Text written for an integer is one or more characters, each a `-` or a
/// digit.
pub proof fn lemma_fmt_int_plain(n: int)
    ensures
        fmt_int(n).len() >= 1,
        forall|j: int| 0 <= j < fmt_int(n).len() ==> #[trigger] fmt_int(n)[j] == '-' || is_digit(fmt_int(n)[j]),
{
    if n < 0 {
        lemma_parse_int_of_fmt(n, -n, 0);
    } else {
        lemma_parse_int_of_fmt(n, 0, n);
    }
}

} // verus!
