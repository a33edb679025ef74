//! Decimal integer tokens, as Rust's integer `FromStr` reads them: an
//! optional sign followed by one or more ASCII digits.

use vstd::prelude::*;
use vstd::string::*;

verus! {

pub open spec fn is_digit(c: char) -> bool {
    '0' <= c && c <= '9'
}

pub open spec fn digit_value(c: char) -> int {
    c as int - '0' as int
}

pub open spec fn all_digits(s: Seq<char>) -> bool {
    forall|i: int| 0 <= i < s.len() ==> is_digit(#[trigger] s[i])
}

/// The number that a run of decimal digits denotes.
pub open spec fn digits_value(s: Seq<char>) -> int
    decreases s.len(),
{
    if s.len() == 0 {
        0
    } else {
        digits_value(s.drop_last()) * 10 + digit_value(s.last())
    }
}

/// The value of a non-empty run of digits; `None` for anything else.
pub open spec fn magnitude_of(s: Seq<char>) -> Option<int> {
    if s.len() > 0 && all_digits(s) {
        Some(digits_value(s))
    } else {
        None
    }
}

/// The value of a token for a signed type: `+` or `-` may lead.
pub open spec fn signed_token_value(t: Seq<char>) -> Option<int> {
    if t.len() > 0 && t[0] == '+' {
        magnitude_of(t.drop_first())
    } else if t.len() > 0 && t[0] == '-' {
        match magnitude_of(t.drop_first()) {
            Some(m) => Some(-m),
            None => None,
        }
    } else {
        magnitude_of(t)
    }
}

/// The value of a token for an unsigned type: only `+` may lead.
pub open spec fn unsigned_token_value(t: Seq<char>) -> Option<int> {
    if t.len() > 0 && t[0] == '+' {
        magnitude_of(t.drop_first())
    } else {
        magnitude_of(t)
    }
}

/// What a parse into a type whose values are `lo..=hi` gives.
pub open spec fn in_range(v: Option<int>, lo: int, hi: int) -> Option<int> {
    match v {
        Some(x) => if lo <= x && x <= hi {
            Some(x)
        } else {
            None
        },
        None => None,
    }
}

pub proof fn lemma_digits_value_nonneg(s: Seq<char>)
    requires
        all_digits(s),
    ensures
        digits_value(s) >= 0,
    decreases s.len(),
{
    if s.len() > 0 {
        lemma_digits_value_nonneg(s.drop_last());
    }
}

/// A longer run of digits never denotes a smaller number.
pub proof fn lemma_prefix_value_le(s: Seq<char>, i: int)
    requires
        all_digits(s),
        0 <= i <= s.len(),
    ensures
        digits_value(s.take(i)) <= digits_value(s),
    decreases s.len() - i,
{
    if i < s.len() {
        lemma_prefix_value_le(s, i + 1);
        let p = s.take(i + 1);
        assert(p.drop_last() =~= s.take(i));
        lemma_digits_value_nonneg(s.take(i));
    } else {
        assert(s.take(i) =~= s);
    }
}

/// Reads the digits of `s` from char position `from` to the end; `None`
/// where there are none, where one is not a digit, or where the value
/// exceeds `limit`.
pub fn parse_magnitude(s: &str, from: usize, limit: u64) -> (r: Option<u64>)
    requires
        from <= s@.len(),
    ensures
        r == (match magnitude_of(s@.skip(from as int)) {
            Some(m) => if m <= limit {
                Some(m as u64)
            } else {
                None
            },
            None => None,
        }),
{
    let n = s.unicode_len();
    let ghost t = s@.skip(from as int);
    if from >= n {
        return None;
    }
    let mut acc: u64 = 0;
    let mut i: usize = from;
    while i < n
        invariant
            from <= i <= n,
            n == s@.len(),
            t == s@.skip(from as int),
            all_digits(t.take(i - from)),
            acc as int == digits_value(t.take(i - from)),
            acc <= limit,
        decreases n - i,
    {
        let c = s.get_char(i);
        assert(t[i - from] == c);
        if !('0' <= c && c <= '9') {
            return None;
        }
        let d = (c as u32 - '0' as u32) as u64;
        let ghost p = t.take(i - from + 1);
        assert(p.drop_last() =~= t.take(i - from));
        assert(all_digits(p)) by {
            assert forall|j: int| 0 <= j < p.len() implies is_digit(#[trigger] p[j]) by {
                if j < p.len() - 1 {
                    assert(p[j] == t.take(i - from)[j]);
                }
            }
        }
        if d > limit || acc > (limit - d) / 10 {
            proof {
                assert(digits_value(p) > limit) by (nonlinear_arith)
                    requires
                        digits_value(p) == acc * 10 + d,
                        d > limit || acc > (limit - d) / 10,
                        acc >= 0,
                        d >= 0,
                        d <= 9,
                ;
                if all_digits(t) {
                    lemma_prefix_value_le(t, i - from + 1);
                }
            }
            return None;
        }
        proof {
            assert(acc * 10 + d <= limit) by (nonlinear_arith)
                requires
                    acc <= (limit - d) / 10,
                    d <= limit,
            ;
        }
        acc = acc * 10 + d;
        i = i + 1;
    }
    assert(t.take(n - from) =~= t);
    Some(acc)
}

/// Reads a signed token of digits after an optional sign, the values of
/// the type being `lo..=hi` (`lo < 0 < hi`, `hi + lo` either 0 or -1).
fn parse_signed(s: &str, lo_magnitude: u64, hi: u64) -> (r: Option<i128>)
    requires
        hi <= lo_magnitude <= hi + 1,
    ensures
        match r {
            Some(v) => in_range(signed_token_value(s@), -lo_magnitude, hi as int) == Some(v as int),
            None => in_range(signed_token_value(s@), -lo_magnitude, hi as int) is None,
        },
{
    let n = s.unicode_len();
    assert(s@.skip(0) =~= s@);
    proof {
        if magnitude_of(s@) is Some {
            lemma_digits_value_nonneg(s@);
        }
        if magnitude_of(s@.drop_first()) is Some {
            lemma_digits_value_nonneg(s@.drop_first());
        }
    }
    if n > 0 {
        assert(s@.skip(1) =~= s@.drop_first());
        let c = s.get_char(0);
        if c == '+' {
            return match parse_magnitude(s, 1, hi) {
                Some(m) => Some(m as i128),
                None => None,
            };
        } else if c == '-' {
            return match parse_magnitude(s, 1, lo_magnitude) {
                Some(m) => Some(-(m as i128)),
                None => None,
            };
        }
    }
    match parse_magnitude(s, 0, hi) {
        Some(m) => Some(m as i128),
        None => None,
    }
}

/// Reads an unsigned token of digits after an optional `+`, the values of
/// the type being `0..=hi`.
fn parse_unsigned(s: &str, hi: u64) -> (r: Option<u64>)
    ensures
        match r {
            Some(v) => in_range(unsigned_token_value(s@), 0, hi as int) == Some(v as int),
            None => in_range(unsigned_token_value(s@), 0, hi as int) is None,
        },
{
    let n = s.unicode_len();
    assert(s@.skip(0) =~= s@);
    if n > 0 {
        assert(s@.skip(1) =~= s@.drop_first());
        if s.get_char(0) == '+' {
            let r = parse_magnitude(s, 1, hi);
            proof {
                if let Some(m) = magnitude_of(s@.drop_first()) {
                    lemma_digits_value_nonneg(s@.drop_first());
                }
            }
            return r;
        }
    }
    let r = parse_magnitude(s, 0, hi);
    proof {
        if let Some(m) = magnitude_of(s@) {
            lemma_digits_value_nonneg(s@);
        }
    }
    r
}

/// `s.parse::<i64>()`.
pub fn parse_i64(s: &str) -> (r: Option<i64>)
    ensures
        match r {
            Some(v) => in_range(signed_token_value(s@), i64::MIN as int, i64::MAX as int) == Some(
                v as int,
            ),
            None => in_range(signed_token_value(s@), i64::MIN as int, i64::MAX as int) is None,
        },
{
    match parse_signed(s, 0x8000_0000_0000_0000u64, 0x7fff_ffff_ffff_ffffu64) {
        Some(v) => Some(v as i64),
        None => None,
    }
}

/// `s.parse::<i32>()`.
pub fn parse_i32(s: &str) -> (r: Option<i32>)
    ensures
        match r {
            Some(v) => in_range(signed_token_value(s@), i32::MIN as int, i32::MAX as int) == Some(
                v as int,
            ),
            None => in_range(signed_token_value(s@), i32::MIN as int, i32::MAX as int) is None,
        },
{
    match parse_signed(s, 0x8000_0000u64, 0x7fff_ffffu64) {
        Some(v) => Some(v as i32),
        None => None,
    }
}

/// `s.parse::<u32>()`.
pub fn parse_u32(s: &str) -> (r: Option<u32>)
    ensures
        match r {
            Some(v) => in_range(unsigned_token_value(s@), 0, u32::MAX as int) == Some(v as int),
            None => in_range(unsigned_token_value(s@), 0, u32::MAX as int) is None,
        },
{
    match parse_unsigned(s, 0xffff_ffffu64) {
        Some(v) => Some(v as u32),
        None => None,
    }
}

/// `s.parse::<usize>()`.
pub fn parse_usize(s: &str) -> (r: Option<usize>)
    ensures
        match r {
            Some(v) => in_range(unsigned_token_value(s@), 0, usize::MAX as int) == Some(v as int),
            None => in_range(unsigned_token_value(s@), 0, usize::MAX as int) is None,
        },
{
    match parse_unsigned(s, usize::MAX as u64) {
        Some(v) => Some(v as usize),
        None => None,
    }
}

pub open spec fn digit_char(d: int) -> char {
    (d + '0' as int) as char
}

/// The decimal digits of `n`, most significant first, without leading zeros.
pub open spec fn decimal_digits(n: nat) -> Seq<char>
    decreases n,
{
    if n < 10 {
        seq![digit_char(n as int)]
    } else {
        decimal_digits(n / 10).push(digit_char((n % 10) as int))
    }
}

fn digit_str(d: u64) -> (r: &'static str)
    requires
        d < 10,
    ensures
        r@ == seq![digit_char(d as int)],
{
    proof {
        reveal_strlit("0");
        reveal_strlit("1");
        reveal_strlit("2");
        reveal_strlit("3");
        reveal_strlit("4");
        reveal_strlit("5");
        reveal_strlit("6");
        reveal_strlit("7");
        reveal_strlit("8");
        reveal_strlit("9");
    }
    let r = match d {
        0 => "0",
        1 => "1",
        2 => "2",
        3 => "3",
        4 => "4",
        5 => "5",
        6 => "6",
        7 => "7",
        8 => "8",
        _ => "9",
    };
    assert(r@ =~= seq![digit_char(d as int)]);
    r
}

/// `n.to_string()`.
pub fn to_decimal(n: u64) -> (r: String)
    ensures
        r@ == decimal_digits(n as nat),
    decreases n,
{
    if n < 10 {
        String::from_str(digit_str(n))
    } else {
        let mut r = to_decimal(n / 10);
        r.append(digit_str(n % 10));
        r
    }
}

/// `s` preceded by enough spaces to fill `width` characters.
pub open spec fn pad_left(s: Seq<char>, width: nat) -> Seq<char> {
    if s.len() >= width {
        s
    } else {
        Seq::new((width - s.len()) as nat, |i: int| ' ') + s
    }
}

/// `format!("{:>width$}", n)`.
pub fn right_aligned(n: u64, width: usize) -> (r: String)
    ensures
        r@ == pad_left(decimal_digits(n as nat), width as nat),
{
    let digits = to_decimal(n);
    let len = digits.unicode_len();
    if len >= width {
        return digits;
    }
    let mut r = String::new();
    let mut i: usize = 0;
    while i < width - len
        invariant
            len < width,
            i <= width - len,
            r@ == Seq::new(i as nat, |j: int| ' '),
        decreases width - len - i,
    {
        r.append(" ");
        proof {
            reveal_strlit(" ");
        }
        assert(r@ =~= Seq::new((i + 1) as nat, |j: int| ' '));
        i = i + 1;
    }
    r.append(digits.as_str());
    r
}

/// An integer type that a decimal token can be read into.
pub trait DecimalInt: Sized {
    /// The value that a token denotes in this type, if any.
    spec fn token_value(t: Seq<char>) -> Option<Self>;

    fn parse_decimal(s: &str) -> (r: Option<Self>)
        ensures
            r == Self::token_value(s@),
    ;
}

impl DecimalInt for i64 {
    open spec fn token_value(t: Seq<char>) -> Option<i64> {
        match in_range(signed_token_value(t), i64::MIN as int, i64::MAX as int) {
            Some(v) => Some(v as i64),
            None => None,
        }
    }

    fn parse_decimal(s: &str) -> (r: Option<i64>) {
        parse_i64(s)
    }
}

impl DecimalInt for i32 {
    open spec fn token_value(t: Seq<char>) -> Option<i32> {
        match in_range(signed_token_value(t), i32::MIN as int, i32::MAX as int) {
            Some(v) => Some(v as i32),
            None => None,
        }
    }

    fn parse_decimal(s: &str) -> (r: Option<i32>) {
        parse_i32(s)
    }
}

impl DecimalInt for u32 {
    open spec fn token_value(t: Seq<char>) -> Option<u32> {
        match in_range(unsigned_token_value(t), 0, u32::MAX as int) {
            Some(v) => Some(v as u32),
            None => None,
        }
    }

    fn parse_decimal(s: &str) -> (r: Option<u32>) {
        parse_u32(s)
    }
}

impl DecimalInt for usize {
    open spec fn token_value(t: Seq<char>) -> Option<usize> {
        match in_range(unsigned_token_value(t), 0, usize::MAX as int) {
            Some(v) => Some(v as usize),
            None => None,
        }
    }

    fn parse_decimal(s: &str) -> (r: Option<usize>) {
        parse_usize(s)
    }
}

} // verus!
