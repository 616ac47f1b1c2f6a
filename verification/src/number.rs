//! Decimal numbers as std's `FromStr` for integers reads them, and the decimal
//! and hexadecimal forms the library writes.

use vstd::prelude::*;

verus! {

/// An ASCII decimal digit.
pub open spec fn is_digit(c: char) -> bool {
    '0' <= c <= '9'
}

/// The value of the ASCII digit `c`.
pub open spec fn digit_value(c: char) -> int {
    (c as u32) - ('0' as u32)
}

/// Every character of `s` is an ASCII digit.
pub open spec fn all_digits(s: Seq<char>) -> bool {
    forall|i: int| 0 <= i < s.len() ==> is_digit(#[trigger] s[i])
}

/// The value of the digit string `s`, most significant digit first.
pub open spec fn digits_value(s: Seq<char>) -> int
    decreases s.len(),
{
    if s.len() == 0 {
        0
    } else {
        digits_value(s.drop_last()) * 10 + digit_value(s.last())
    }
}

/// What `str::parse` gives for an unsigned integer type whose largest value is
/// `max`: an optional `+`, then one or more ASCII digits whose value fits.
pub open spec fn parse_unsigned(s: Seq<char>, max: int) -> Option<int> {
    let body = if s.len() > 0 && s[0] == '+' {
        s.drop_first()
    } else {
        s
    };
    if body.len() > 0 && all_digits(body) && digits_value(body) <= max {
        Some(digits_value(body))
    } else {
        None
    }
}

/// What `str::parse` gives for a signed integer type ranging over `min..=max`:
/// a `-` followed by digits whose value is at most `-min`, or the unsigned form.
pub open spec fn parse_signed(s: Seq<char>, min: int, max: int) -> Option<int> {
    if s.len() > 0 && s[0] == '-' {
        let body = s.drop_first();
        if body.len() > 0 && all_digits(body) && digits_value(body) <= -min {
            Some(-digits_value(body))
        } else {
            None
        }
    } else {
        parse_unsigned(s, max)
    }
}

/// A digit string's value is at least that of any of its prefixes, and not negative.
pub proof fn lemma_digits_value_monotonic(s: Seq<char>, k: int)
    requires
        all_digits(s),
        0 <= k <= s.len(),
    ensures
        0 <= digits_value(s.take(k)) <= digits_value(s),
    decreases s.len(),
{
    if s.len() > 0 {
        let p = s.drop_last();
        assert(is_digit(s[s.len() - 1]));
        if k == s.len() {
            assert(s.take(k) =~= s);
            lemma_digits_value_monotonic(p, p.len() as int);
            assert(p.take(p.len() as int) =~= p);
        } else {
            lemma_digits_value_monotonic(p, k);
            assert(p.take(k) =~= s.take(k));
            lemma_digits_value_monotonic(p, p.len() as int);
            assert(p.take(p.len() as int) =~= p);
        }
    } else {
        assert(s.take(k) =~= s);
    }
}

/// The value of the digits `s[a..b]`, when all of them are digits, there is at
/// least one, and the value is at most `limit`.
pub fn parse_digits(s: &Vec<char>, a: usize, b: usize, limit: u64) -> (r: Option<u64>)
    requires
        a <= b <= s@.len(),
    ensures
        ({
            let body = s@.subrange(a as int, b as int);
            match r {
                Some(v) => body.len() > 0 && all_digits(body) && v == digits_value(body) && v
                    <= limit,
                None => !(body.len() > 0 && all_digits(body) && digits_value(body) <= limit),
            }
        }),
{
    let ghost body = s@.subrange(a as int, b as int);
    if a == b {
        return None;
    }
    let mut acc: u64 = 0;
    let mut i = a;
    while i < b
        invariant
            a <= i <= b <= s@.len(),
            body == s@.subrange(a as int, b as int),
            all_digits(body.take(i - a)),
            acc == digits_value(body.take(i - a)),
            acc <= limit,
        decreases b - i,
    {
        let c = s[i];
        if !('0' <= c && c <= '9') {
            assert(body[i - a] == c);
            return None;
        }
        let d = (c as u32 - '0' as u32) as u64;
        proof {
            let p = body.take(i + 1 - a);
            assert(p.drop_last() =~= body.take(i - a));
            assert(p.last() == c);
            assert forall|j: int| 0 <= j < p.len() implies is_digit(#[trigger] p[j]) by {
                if j < p.len() - 1 {
                    assert(p[j] == body.take(i - a)[j]);
                }
            }
        }
        if d > limit || acc > (limit - d) / 10 {
            proof {
                let p = body.take(i + 1 - a);
                assert(digits_value(p) == acc * 10 + d);
                assert(digits_value(p) > limit) by (nonlinear_arith)
                    requires
                        d > limit || acc > (limit - d) / 10,
                        acc >= 0,
                        digits_value(p) == acc * 10 + d,
                ;
                if all_digits(body) {
                    lemma_digits_value_monotonic(body, i + 1 - a);
                }
            }
            return None;
        }
        proof {
            assert(acc * 10 + d <= limit) by (nonlinear_arith)
                requires
                    acc <= (limit - d) / 10,
                    d <= limit,
            ;
        }
        acc = acc * 10 + d;
        i = i + 1;
    }
    assert(body.take(b - a) =~= body);
    Some(acc)
}


/// `s[a..b]` read as an unsigned integer no larger than `max` (see `parse_unsigned`).
pub fn parse_unsigned_at(s: &Vec<char>, a: usize, b: usize, max: u64) -> (r: Option<u64>)
    requires
        a <= b <= s@.len(),
    ensures
        match r {
            Some(v) => parse_unsigned(s@.subrange(a as int, b as int), max as int) == Some(
                v as int,
            ),
            None => parse_unsigned(s@.subrange(a as int, b as int), max as int) is None,
        },
{
    let ghost sub = s@.subrange(a as int, b as int);
    if a < b && s[a] == '+' {
        assert(sub.drop_first() =~= s@.subrange(a + 1, b as int));
        parse_digits(s, a + 1, b, max)
    } else {
        parse_digits(s, a, b, max)
    }
}

/// `s[a..b]` read as an `i64` (see `parse_signed`).
pub fn parse_i64_at(s: &Vec<char>, a: usize, b: usize) -> (r: Option<i64>)
    requires
        a <= b <= s@.len(),
    ensures
        match r {
            Some(v) => parse_signed(s@.subrange(a as int, b as int), i64::MIN as int, i64::MAX as int)
                == Some(v as int),
            None => parse_signed(s@.subrange(a as int, b as int), i64::MIN as int, i64::MAX as int) is None,
        },
{
    let ghost sub = s@.subrange(a as int, b as int);
    if a < b && s[a] == '-' {
        assert(sub.drop_first() =~= s@.subrange(a + 1, b as int));
        match parse_digits(s, a + 1, b, 0x8000_0000_0000_0000u64) {
            Some(m) => {
                let v: i128 = 0i128 - (m as i128);
                Some(v as i64)
            },
            None => None,
        }
    } else {
        match parse_unsigned_at(s, a, b, 0x7fff_ffff_ffff_ffffu64) {
            Some(m) => Some(m as i64),
            None => None,
        }
    }
}


/// The character for the digit `d` (`0..16`), lowercase for values past nine.
pub open spec fn digit_char(d: int) -> char {
    seq!['0', '1', '2', '3', '4', '5', '6', '7', '8', '9', 'a', 'b', 'c', 'd', 'e', 'f'][d]
}

/// The decimal form of `n`, without leading zeros.
pub open spec fn decimal(n: nat) -> Seq<char>
    decreases n,
{
    if n < 10 {
        seq![digit_char(n as int)]
    } else {
        decimal(n / 10) + seq![digit_char((n % 10) as int)]
    }
}

/// Two lowercase hex digits per byte, most significant first (`{:02x}` for each byte).
pub open spec fn hex_lower(bytes: Seq<u8>) -> Seq<char>
    decreases bytes.len(),
{
    if bytes.len() == 0 {
        seq![]
    } else {
        hex_lower(bytes.drop_last()) + seq![
            digit_char((bytes.last() / 16) as int),
            digit_char((bytes.last() % 16) as int),
        ]
    }
}

/// The first ten digit characters are the ASCII decimal digits, in order.
pub proof fn lemma_digit_char(d: int)
    requires
        0 <= d < 10,
    ensures
        is_digit(digit_char(d)),
        digit_value(digit_char(d)) == d,
{
    let t = seq!['0', '1', '2', '3', '4', '5', '6', '7', '8', '9', 'a', 'b', 'c', 'd', 'e', 'f'];
    assert(digit_char(d) == t[d]);
    if d == 0 {
        assert(t[0] == '0');
    } else if d == 1 {
        assert(t[1] == '1');
    } else if d == 2 {
        assert(t[2] == '2');
    } else if d == 3 {
        assert(t[3] == '3');
    } else if d == 4 {
        assert(t[4] == '4');
    } else if d == 5 {
        assert(t[5] == '5');
    } else if d == 6 {
        assert(t[6] == '6');
    } else if d == 7 {
        assert(t[7] == '7');
    } else if d == 8 {
        assert(t[8] == '8');
    } else {
        assert(t[9] == '9');
    }
}

/// The decimal form of `n` is a non-empty digit string whose value is `n`.
pub proof fn lemma_decimal(n: nat)
    ensures
        decimal(n).len() >= 1,
        all_digits(decimal(n)),
        digits_value(decimal(n)) == n,
    decreases n,
{
    if n < 10 {
        lemma_digit_char(n as int);
        let s = decimal(n);
        assert(s.drop_last() =~= Seq::<char>::empty());
        assert(digits_value(s.drop_last()) == 0);
        assert(s.last() == digit_char(n as int));
        assert(digits_value(s) == digits_value(s.drop_last()) * 10 + digit_value(s.last()));
    } else {
        let q = n / 10;
        let r = (n % 10) as int;
        lemma_decimal(q);
        lemma_digit_char(r);
        let s = decimal(n);
        assert(s == decimal(q) + seq![digit_char(r)]);
        assert(s.drop_last() =~= decimal(q));
        assert(s.last() == digit_char(r));
        assert forall|i: int| 0 <= i < s.len() implies is_digit(#[trigger] s[i]) by {
            if i < s.len() - 1 {
                assert(s[i] == decimal(q)[i]);
            }
        }
        assert(q * 10 + r == n);
        assert(digits_value(s) == digits_value(s.drop_last()) * 10 + digit_value(s.last()));
    }
}

/// A one-character string holding the digit `d`.
pub fn digit_str(d: u8) -> (s: &'static str)
    requires
        d < 16,
    ensures
        s@ == seq![digit_char(d as int)],
{
    match d {
        0 => { proof { reveal_strlit("0"); } "0" },
        1 => { proof { reveal_strlit("1"); } "1" },
        2 => { proof { reveal_strlit("2"); } "2" },
        3 => { proof { reveal_strlit("3"); } "3" },
        4 => { proof { reveal_strlit("4"); } "4" },
        5 => { proof { reveal_strlit("5"); } "5" },
        6 => { proof { reveal_strlit("6"); } "6" },
        7 => { proof { reveal_strlit("7"); } "7" },
        8 => { proof { reveal_strlit("8"); } "8" },
        9 => { proof { reveal_strlit("9"); } "9" },
        10 => { proof { reveal_strlit("a"); } "a" },
        11 => { proof { reveal_strlit("b"); } "b" },
        12 => { proof { reveal_strlit("c"); } "c" },
        13 => { proof { reveal_strlit("d"); } "d" },
        14 => { proof { reveal_strlit("e"); } "e" },
        _ => { proof { reveal_strlit("f"); } "f" },
    }
}

/// Appends the decimal form of `n` to `out`.
pub fn push_decimal(out: &mut String, n: u8)
    ensures
        final(out)@ == old(out)@ + decimal(n as nat),
{
    proof {
        reveal_with_fuel(decimal, 3);
    }
    if n >= 100 {
        out.append(digit_str(n / 100));
    }
    if n >= 10 {
        out.append(digit_str((n / 10) % 10));
    }
    out.append(digit_str(n % 10));
    proof {
        if n >= 100 {
            assert(decimal(n as nat) =~= seq![digit_char((n / 100) as int), digit_char(((n / 10) % 10) as int), digit_char((n % 10) as int)]);
        } else if n >= 10 {
            assert(decimal(n as nat) =~= seq![digit_char((n / 10) as int), digit_char((n % 10) as int)]);
        }
    }
}

/// Appends two lowercase hex digits per byte of `bytes` to `out`.
pub fn push_hex_lower(out: &mut String, bytes: &[u8])
    ensures
        final(out)@ == old(out)@ + hex_lower(bytes@),
{
    let ghost start = out@;
    let n = bytes.len();
    let mut i: usize = 0;
    while i < n
        invariant
            i <= n,
            n == bytes@.len(),
            out@ == start + hex_lower(bytes@.take(i as int)),
        decreases n - i,
    {
        let b = bytes[i];
        out.append(digit_str(b / 16));
        out.append(digit_str(b % 16));
        proof {
            let p = bytes@.take(i + 1);
            assert(p.drop_last() =~= bytes@.take(i as int));
            assert(p.last() == b);
        }
        i = i + 1;
    }
    assert(bytes@.take(n as int) =~= bytes@);
}

} // verus!
