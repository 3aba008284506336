//! Decimal and hexadecimal text of integers, as `Display`, `{:X}` and
//! `str::parse` give and take it.
use vstd::prelude::*;

verus! {

pub open spec fn is_digit(c: char) -> bool {
    '0' <= c && c <= '9'
}

pub open spec fn digit_value(c: char) -> int {
    (c as u32) - ('0' as u32)
}

/// The ASCII character of the decimal digit `d` (`0 <= d < 10`).
pub open spec fn digit_char(d: int) -> char {
    (('0' as u32) + d) as char
}

/// The hexadecimal digit of `d` (`0 <= d < 16`), upper case.
pub open spec fn hex_char(d: int) -> char {
    if d < 10 {
        (('0' as u32) + d) as char
    } else {
        (('A' as u32) + d - 10) as char
    }
}

/// Decimal digits of `n`, without leading zeros (`"0"` for zero).
pub open spec fn dec(n: nat) -> Seq<char>
    decreases n,
{
    if n < 10 {
        seq![digit_char(n as int)]
    } else {
        dec(n / 10).push(digit_char((n % 10) as int))
    }
}

/// `Display` of a signed integer.
pub open spec fn dec_int(n: int) -> Seq<char> {
    if n < 0 {
        seq!['-'] + dec((-n) as nat)
    } else {
        dec(n as nat)
    }
}

/// Upper-case hexadecimal digits of `n`, without leading zeros.
pub open spec fn hex(n: nat) -> Seq<char>
    decreases n,
{
    if n < 16 {
        seq![hex_char(n as int)]
    } else {
        hex(n / 16).push(hex_char((n % 16) as int))
    }
}

/// `format!("{:0w$X}", n)`: the hexadecimal digits left-padded with zeros to width `w`.
pub open spec fn hex_pad(n: nat, w: nat) -> Seq<char> {
    let h = hex(n);
    if h.len() < w {
        Seq::new((w - h.len()) as nat, |i: int| '0') + h
    } else {
        h
    }
}

/// Value of a string of decimal digits.
pub open spec fn digits_value(d: Seq<char>) -> int
    decreases d.len(),
{
    if d.len() == 0 {
        0
    } else {
        digits_value(d.drop_last()) * 10 + digit_value(d.last())
    }
}

pub open spec fn all_digits(d: Seq<char>) -> bool {
    forall|i: int| 0 <= i < d.len() ==> is_digit(#[trigger] d[i])
}

/// Whether `c` is a decimal digit of Unicode 16 (general category `Nd`): the class that
/// `\d` matches in the `regex` crate, ASCII digits and the digits of other scripts.
pub open spec fn is_decimal_digit(c: char) -> bool {
    let n = c as u32;
    (0x30 <= n && n <= 0x39)
    || (0x660 <= n && n <= 0x669)
    || (0x6f0 <= n && n <= 0x6f9)
    || (0x7c0 <= n && n <= 0x7c9)
    || (0x966 <= n && n <= 0x96f)
    || (0x9e6 <= n && n <= 0x9ef)
    || (0xa66 <= n && n <= 0xa6f)
    || (0xae6 <= n && n <= 0xaef)
    || (0xb66 <= n && n <= 0xb6f)
    || (0xbe6 <= n && n <= 0xbef)
    || (0xc66 <= n && n <= 0xc6f)
    || (0xce6 <= n && n <= 0xcef)
    || (0xd66 <= n && n <= 0xd6f)
    || (0xde6 <= n && n <= 0xdef)
    || (0xe50 <= n && n <= 0xe59)
    || (0xed0 <= n && n <= 0xed9)
    || (0xf20 <= n && n <= 0xf29)
    || (0x1040 <= n && n <= 0x1049)
    || (0x1090 <= n && n <= 0x1099)
    || (0x17e0 <= n && n <= 0x17e9)
    || (0x1810 <= n && n <= 0x1819)
    || (0x1946 <= n && n <= 0x194f)
    || (0x19d0 <= n && n <= 0x19d9)
    || (0x1a80 <= n && n <= 0x1a89)
    || (0x1a90 <= n && n <= 0x1a99)
    || (0x1b50 <= n && n <= 0x1b59)
    || (0x1bb0 <= n && n <= 0x1bb9)
    || (0x1c40 <= n && n <= 0x1c49)
    || (0x1c50 <= n && n <= 0x1c59)
    || (0xa620 <= n && n <= 0xa629)
    || (0xa8d0 <= n && n <= 0xa8d9)
    || (0xa900 <= n && n <= 0xa909)
    || (0xa9d0 <= n && n <= 0xa9d9)
    || (0xa9f0 <= n && n <= 0xa9f9)
    || (0xaa50 <= n && n <= 0xaa59)
    || (0xabf0 <= n && n <= 0xabf9)
    || (0xff10 <= n && n <= 0xff19)
    || (0x104a0 <= n && n <= 0x104a9)
    || (0x10d30 <= n && n <= 0x10d39)
    || (0x10d40 <= n && n <= 0x10d49)
    || (0x11066 <= n && n <= 0x1106f)
    || (0x110f0 <= n && n <= 0x110f9)
    || (0x11136 <= n && n <= 0x1113f)
    || (0x111d0 <= n && n <= 0x111d9)
    || (0x112f0 <= n && n <= 0x112f9)
    || (0x11450 <= n && n <= 0x11459)
    || (0x114d0 <= n && n <= 0x114d9)
    || (0x11650 <= n && n <= 0x11659)
    || (0x116c0 <= n && n <= 0x116c9)
    || (0x116d0 <= n && n <= 0x116e3)
    || (0x11730 <= n && n <= 0x11739)
    || (0x118e0 <= n && n <= 0x118e9)
    || (0x11950 <= n && n <= 0x11959)
    || (0x11bf0 <= n && n <= 0x11bf9)
    || (0x11c50 <= n && n <= 0x11c59)
    || (0x11d50 <= n && n <= 0x11d59)
    || (0x11da0 <= n && n <= 0x11da9)
    || (0x11f50 <= n && n <= 0x11f59)
    || (0x16130 <= n && n <= 0x16139)
    || (0x16a60 <= n && n <= 0x16a69)
    || (0x16ac0 <= n && n <= 0x16ac9)
    || (0x16b50 <= n && n <= 0x16b59)
    || (0x16d70 <= n && n <= 0x16d79)
    || (0x1ccf0 <= n && n <= 0x1ccf9)
    || (0x1d7ce <= n && n <= 0x1d7ff)
    || (0x1e140 <= n && n <= 0x1e149)
    || (0x1e2f0 <= n && n <= 0x1e2f9)
    || (0x1e4f0 <= n && n <= 0x1e4f9)
    || (0x1e5f1 <= n && n <= 0x1e5fa)
    || (0x1e950 <= n && n <= 0x1e959)
    || (0x1fbf0 <= n && n <= 0x1fbf9)
}

/// Whether every character of `d` is a Unicode decimal digit.
pub open spec fn all_decimal(d: Seq<char>) -> bool {
    forall|i: int| 0 <= i < d.len() ==> is_decimal_digit(#[trigger] d[i])
}

pub fn decimal_digit(c: char) -> (b: bool)
    ensures
        b == is_decimal_digit(c),
{
    let n = c as u32;
    (0x30 <= n && n <= 0x39)
    || (0x660 <= n && n <= 0x669)
    || (0x6f0 <= n && n <= 0x6f9)
    || (0x7c0 <= n && n <= 0x7c9)
    || (0x966 <= n && n <= 0x96f)
    || (0x9e6 <= n && n <= 0x9ef)
    || (0xa66 <= n && n <= 0xa6f)
    || (0xae6 <= n && n <= 0xaef)
    || (0xb66 <= n && n <= 0xb6f)
    || (0xbe6 <= n && n <= 0xbef)
    || (0xc66 <= n && n <= 0xc6f)
    || (0xce6 <= n && n <= 0xcef)
    || (0xd66 <= n && n <= 0xd6f)
    || (0xde6 <= n && n <= 0xdef)
    || (0xe50 <= n && n <= 0xe59)
    || (0xed0 <= n && n <= 0xed9)
    || (0xf20 <= n && n <= 0xf29)
    || (0x1040 <= n && n <= 0x1049)
    || (0x1090 <= n && n <= 0x1099)
    || (0x17e0 <= n && n <= 0x17e9)
    || (0x1810 <= n && n <= 0x1819)
    || (0x1946 <= n && n <= 0x194f)
    || (0x19d0 <= n && n <= 0x19d9)
    || (0x1a80 <= n && n <= 0x1a89)
    || (0x1a90 <= n && n <= 0x1a99)
    || (0x1b50 <= n && n <= 0x1b59)
    || (0x1bb0 <= n && n <= 0x1bb9)
    || (0x1c40 <= n && n <= 0x1c49)
    || (0x1c50 <= n && n <= 0x1c59)
    || (0xa620 <= n && n <= 0xa629)
    || (0xa8d0 <= n && n <= 0xa8d9)
    || (0xa900 <= n && n <= 0xa909)
    || (0xa9d0 <= n && n <= 0xa9d9)
    || (0xa9f0 <= n && n <= 0xa9f9)
    || (0xaa50 <= n && n <= 0xaa59)
    || (0xabf0 <= n && n <= 0xabf9)
    || (0xff10 <= n && n <= 0xff19)
    || (0x104a0 <= n && n <= 0x104a9)
    || (0x10d30 <= n && n <= 0x10d39)
    || (0x10d40 <= n && n <= 0x10d49)
    || (0x11066 <= n && n <= 0x1106f)
    || (0x110f0 <= n && n <= 0x110f9)
    || (0x11136 <= n && n <= 0x1113f)
    || (0x111d0 <= n && n <= 0x111d9)
    || (0x112f0 <= n && n <= 0x112f9)
    || (0x11450 <= n && n <= 0x11459)
    || (0x114d0 <= n && n <= 0x114d9)
    || (0x11650 <= n && n <= 0x11659)
    || (0x116c0 <= n && n <= 0x116c9)
    || (0x116d0 <= n && n <= 0x116e3)
    || (0x11730 <= n && n <= 0x11739)
    || (0x118e0 <= n && n <= 0x118e9)
    || (0x11950 <= n && n <= 0x11959)
    || (0x11bf0 <= n && n <= 0x11bf9)
    || (0x11c50 <= n && n <= 0x11c59)
    || (0x11d50 <= n && n <= 0x11d59)
    || (0x11da0 <= n && n <= 0x11da9)
    || (0x11f50 <= n && n <= 0x11f59)
    || (0x16130 <= n && n <= 0x16139)
    || (0x16a60 <= n && n <= 0x16a69)
    || (0x16ac0 <= n && n <= 0x16ac9)
    || (0x16b50 <= n && n <= 0x16b59)
    || (0x16d70 <= n && n <= 0x16d79)
    || (0x1ccf0 <= n && n <= 0x1ccf9)
    || (0x1d7ce <= n && n <= 0x1d7ff)
    || (0x1e140 <= n && n <= 0x1e149)
    || (0x1e2f0 <= n && n <= 0x1e2f9)
    || (0x1e4f0 <= n && n <= 0x1e4f9)
    || (0x1e5f1 <= n && n <= 0x1e5fa)
    || (0x1e950 <= n && n <= 0x1e959)
    || (0x1fbf0 <= n && n <= 0x1fbf9)
}

/// What `str::parse` reads from `s` as an unsigned integer, before the range check:
/// an optional `+`, then at least one ASCII digit.
pub open spec fn parse_unsigned(s: Seq<char>) -> Option<int> {
    let d = if s.len() > 0 && s[0] == '+' {
        s.drop_first()
    } else {
        s
    };
    if d.len() > 0 && all_digits(d) {
        Some(digits_value(d))
    } else {
        None
    }
}

/// What `str::parse` reads from `s` as a signed integer, before the range check.
pub open spec fn parse_signed(s: Seq<char>) -> Option<int> {
    if s.len() > 0 && s[0] == '-' {
        let d = s.drop_first();
        if d.len() > 0 && all_digits(d) {
            Some(-digits_value(d))
        } else {
            None
        }
    } else {
        parse_unsigned(s)
    }
}

pub proof fn lemma_digits_value_nonneg(d: Seq<char>)
    requires
        all_digits(d),
    ensures
        digits_value(d) >= 0,
    decreases d.len(),
{
    if d.len() > 0 {
        assert(is_digit(d[d.len() - 1]));
        assert(all_digits(d.drop_last())) by {
            assert forall|i: int| 0 <= i < d.drop_last().len() implies is_digit(
                #[trigger] d.drop_last()[i],
            ) by {
                assert(d.drop_last()[i] == d[i]);
            }
        }
        lemma_digits_value_nonneg(d.drop_last());
    }
}

/// A prefix of a digit string is worth no more than the whole string.
proof fn lemma_digits_value_prefix(d: Seq<char>, k: int)
    requires
        all_digits(d),
        0 <= k <= d.len(),
    ensures
        digits_value(d.take(k)) <= digits_value(d),
    decreases d.len() - k,
{
    if k < d.len() {
        lemma_digits_value_prefix(d, k + 1);
        assert(d.take(k + 1).drop_last() =~= d.take(k));
        assert(is_digit(d[k]));
        assert(all_digits(d.take(k))) by {
            assert forall|i: int| 0 <= i < d.take(k).len() implies is_digit(
                #[trigger] d.take(k)[i],
            ) by {
                assert(d.take(k)[i] == d[i]);
            }
        }
        lemma_digits_value_nonneg(d.take(k));
    } else {
        assert(d.take(k) =~= d);
    }
}

/// Reads the digits `s[lo..hi]`, giving up once the value passes `bound`.
fn read_digits(s: &[char], lo: usize, hi: usize, bound: u64) -> (r: Option<u64>)
    requires
        lo <= hi <= s@.len(),
    ensures
        match r {
            Some(v) => all_digits(s@.subrange(lo as int, hi as int)) && v == digits_value(
                s@.subrange(lo as int, hi as int),
            ) && v <= bound,
            None => !all_digits(s@.subrange(lo as int, hi as int)) || digits_value(
                s@.subrange(lo as int, hi as int),
            ) > bound,
        },
{
    let ghost d = s@.subrange(lo as int, hi as int);
    let mut v: u64 = 0;
    let mut i = lo;
    while i < hi
        invariant
            lo <= i <= hi <= s@.len(),
            d == s@.subrange(lo as int, hi as int),
            all_digits(d.take(i - lo)),
            v == digits_value(d.take(i - lo)),
            v <= bound,
        decreases hi - i,
    {
        let c = s[i];
        if !('0' <= c && c <= '9') {
            assert(d[i - lo] == c);
            return None;
        }
        let dv = (c as u32 - '0' as u32) as u64;
        assert(d.take(i - lo + 1).drop_last() =~= d.take(i - lo));
        assert(d.take(i - lo + 1).last() == c);
        if dv > bound || v > (bound - dv) / 10 {
            proof {
                assert(all_digits(d.take(i - lo + 1))) by {
                    assert forall|j: int| 0 <= j < d.take(i - lo + 1).len() implies is_digit(
                        #[trigger] d.take(i - lo + 1)[j],
                    ) by {
                        if j < i - lo {
                            assert(d.take(i - lo + 1)[j] == d.take(i - lo)[j]);
                        }
                    }
                }
                assert(v * 10 + dv > bound) by (nonlinear_arith)
                    requires
                        dv > bound || v > (bound - dv) / 10,
                        v >= 0,
                ;
                if all_digits(d) {
                    lemma_digits_value_prefix(d, i - lo + 1);
                }
            }
            return None;
        }
        assert(v * 10 + dv <= bound) by (nonlinear_arith)
            requires
                v <= (bound - dv) / 10,
                dv <= bound,
        ;
        v = v * 10 + dv;
        i = i + 1;
        proof {
            assert forall|j: int| 0 <= j < d.take(i - lo).len() implies is_digit(
                #[trigger] d.take(i - lo)[j],
            ) by {
                if j < i - lo - 1 {
                    assert(d.take(i - lo)[j] == d.take(i - lo - 1)[j]);
                }
            }
        }
    }
    assert(d.take(hi - lo) =~= d);
    Some(v)
}

/// `str::parse::<u64>` of `s[lo..hi]`.
pub fn parse_u64(s: &[char], lo: usize, hi: usize) -> (r: Option<u64>)
    requires
        lo <= hi <= s@.len(),
    ensures
        match r {
            Some(v) => parse_unsigned(s@.subrange(lo as int, hi as int)) == Some(v as int),
            None => match parse_unsigned(s@.subrange(lo as int, hi as int)) {
                Some(x) => x > u64::MAX,
                None => true,
            },
        },
{
    let ghost t = s@.subrange(lo as int, hi as int);
    let mut start = lo;
    if lo < hi && s[lo] == '+' {
        start = lo + 1;
        assert(t.drop_first() =~= s@.subrange(start as int, hi as int));
    } else {
        assert(t =~= s@.subrange(start as int, hi as int));
    }
    if start == hi {
        return None;
    }
    read_digits(s, start, hi, u64::MAX)
}

/// `str::parse::<usize>` of `s[lo..hi]`.
pub fn parse_usize(s: &[char], lo: usize, hi: usize) -> (r: Option<usize>)
    requires
        lo <= hi <= s@.len(),
    ensures
        match r {
            Some(v) => parse_unsigned(s@.subrange(lo as int, hi as int)) == Some(v as int),
            None => match parse_unsigned(s@.subrange(lo as int, hi as int)) {
                Some(x) => x > usize::MAX,
                None => true,
            },
        },
{
    match parse_u64(s, lo, hi) {
        Some(v) => {
            if v <= usize::MAX as u64 {
                Some(v as usize)
            } else {
                None
            }
        },
        None => None,
    }
}

/// `str::parse::<i32>` of `s[lo..hi]`.
pub fn parse_i32(s: &[char], lo: usize, hi: usize) -> (r: Option<i32>)
    requires
        lo <= hi <= s@.len(),
    ensures
        match r {
            Some(v) => parse_signed(s@.subrange(lo as int, hi as int)) == Some(v as int),
            None => match parse_signed(s@.subrange(lo as int, hi as int)) {
                Some(x) => x < i32::MIN || x > i32::MAX,
                None => true,
            },
        },
{
    let ghost t = s@.subrange(lo as int, hi as int);
    if lo < hi && s[lo] == '-' {
        assert(t.drop_first() =~= s@.subrange(lo + 1, hi as int));
        if lo + 1 == hi {
            return None;
        }
        match read_digits(s, lo + 1, hi, 0x8000_0000) {
            Some(m) => {
                let r = (0 - (m as i64)) as i32;
                Some(r)
            },
            None => None,
        }
    } else {
        let mut start = lo;
        if lo < hi && s[lo] == '+' {
            start = lo + 1;
            assert(t.drop_first() =~= s@.subrange(start as int, hi as int));
        } else {
            assert(t =~= s@.subrange(start as int, hi as int));
        }
        if start == hi {
            return None;
        }
        match read_digits(s, start, hi, 0x7fff_ffff) {
            Some(m) => Some(m as i32),
            None => None,
        }
    }
}

/// `Display` of an unsigned integer.
pub fn fmt_u64(n: u64) -> (s: String)
    ensures
        s@ == dec(n as nat),
{
    // Collect the digits from the least significant one, then emit them in order.
    let mut digits: Vec<char> = Vec::new();
    let mut m = n;
    let ghost mut rest: Seq<char> = Seq::empty();
    while m >= 10
        invariant
            dec(n as nat) == dec(m as nat) + rest,
            digits@ == rest.reverse(),
        decreases m,
    {
        let d = (m % 10) as u32;
        let c = digit(d);
        proof {
            assert(dec(m as nat) == dec((m / 10) as nat).push(digit_char((m % 10) as int)));
            assert(dec(m as nat) + rest =~= dec((m / 10) as nat) + (seq![c] + rest));
            assert((seq![c] + rest).reverse() =~= rest.reverse().push(c));
            rest = seq![c] + rest;
        }
        digits.push(c);
        m = m / 10;
    }
    let c = digit(m as u32);
    proof {
        assert((seq![c] + rest).reverse() =~= rest.reverse().push(c));
        rest = seq![c] + rest;
    }
    digits.push(c);
    let mut s = String::new();
    let mut i = digits.len();
    while i > 0
        invariant
            i <= digits@.len(),
            digits@ == rest.reverse(),
            dec(n as nat) == rest,
            s@ == rest.take(digits@.len() - i),
        decreases i,
    {
        i = i - 1;
        crate::text::push_char(&mut s, digits[i]);
        proof {
            assert(rest.take(digits@.len() - i) =~= rest.take(digits@.len() - i - 1).push(
                digits@[i as int],
            ));
        }
    }
    assert(rest.take(digits@.len() as int) =~= rest);
    s
}

/// The ASCII digit of `d` (`d < 10`).
fn digit(d: u32) -> (c: char)
    requires
        d < 10,
    ensures
        c == digit_char(d as int),
{
    let b = (48 + d) as u8;
    b as char
}

/// The upper-case hexadecimal digit of `d` (`d < 16`).
fn hex_digit(d: u32) -> (c: char)
    requires
        d < 16,
    ensures
        c == hex_char(d as int),
{
    if d < 10 {
        let b = (48 + d) as u8;
        b as char
    } else {
        let b = (55 + d) as u8;
        b as char
    }
}

/// `Display` of a signed integer.
pub fn fmt_i64(n: i64) -> (s: String)
    ensures
        s@ == dec_int(n as int),
{
    if n < 0 {
        let m: u64 = if n == i64::MIN {
            0x8000_0000_0000_0000
        } else {
            (-n) as u64
        };
        let mut s = String::new();
        crate::text::push_char(&mut s, '-');
        let t = fmt_u64(m);
        crate::text::push_str(&mut s, t.as_str());
        s
    } else {
        fmt_u64(n as u64)
    }
}

/// `Display` of a `usize`.
pub fn fmt_usize(n: usize) -> (s: String)
    ensures
        s@ == dec(n as nat),
{
    fmt_u64(n as u64)
}

/// `format!("{:0w$X}", n)`.
pub fn fmt_hex_pad(n: u32, w: usize) -> (s: String)
    requires
        w <= 8,
    ensures
        s@ == hex_pad(n as nat, w as nat),
{
    let mut digits: Vec<char> = Vec::new();
    let mut m = n;
    let ghost mut rest: Seq<char> = Seq::empty();
    assert(pow16(0) == 1);
    assert(hex(n as nat) =~= hex(m as nat) + rest);
    while m >= 16
        invariant
            hex(n as nat) == hex(m as nat) + rest,
            digits@ == rest.reverse(),
            rest.len() <= 8,
            m as nat * pow16(rest.len()) <= n,
        decreases m,
    {
        let c = hex_digit(m % 16);
        proof {
            assert(hex(m as nat) == hex((m / 16) as nat).push(hex_char((m % 16) as int)));
            assert(hex(m as nat) + rest =~= hex((m / 16) as nat) + (seq![c] + rest));
            assert((seq![c] + rest).reverse() =~= rest.reverse().push(c));
            lemma_pow16_step(m as nat, rest.len(), n as nat);
            rest = seq![c] + rest;
        }
        digits.push(c);
        m = m / 16;
    }
    let c = hex_digit(m);
    proof {
        assert((seq![c] + rest).reverse() =~= rest.reverse().push(c));
        rest = seq![c] + rest;
    }
    digits.push(c);
    let mut s = String::new();
    let mut pad: usize = 0;
    let len = digits.len();
    while pad + len < w
        invariant
            s@ == Seq::new(pad as nat, |i: int| '0'),
            pad + len <= w || pad == 0,
            w <= 8,
            len <= 9,
        decreases w - pad,
    {
        crate::text::push_char(&mut s, '0');
        pad = pad + 1;
        assert(s@ =~= Seq::new(pad as nat, |i: int| '0'));
    }
    let ghost padding = s@;
    let mut i = digits.len();
    while i > 0
        invariant
            i <= digits@.len(),
            digits@ == rest.reverse(),
            hex(n as nat) == rest,
            s@ == padding + rest.take(digits@.len() - i),
        decreases i,
    {
        i = i - 1;
        crate::text::push_char(&mut s, digits[i]);
        proof {
            assert(rest.take(digits@.len() - i) =~= rest.take(digits@.len() - i - 1).push(
                digits@[i as int],
            ));
        }
    }
    assert(rest.take(digits@.len() as int) =~= rest);
    proof {
        if rest.len() < w {
            assert(padding.len() == w - rest.len());
            assert(padding =~= Seq::new((w - rest.len()) as nat, |i: int| '0'));
        } else {
            assert(padding =~= Seq::<char>::empty());
            assert(s@ =~= rest);
        }
    }
    s
}

pub open spec fn pow16(k: nat) -> nat
    decreases k,
{
    if k == 0 {
        1
    } else {
        16 * pow16((k - 1) as nat)
    }
}

proof fn lemma_pow16_step(m: nat, k: nat, n: nat)
    requires
        m >= 16,
        m * pow16(k) <= n,
        n <= u32::MAX,
    ensures
        (m / 16) * pow16(k + 1) <= n,
        k + 1 <= 8,
{
    assert(pow16(k + 1) == 16 * pow16(k));
    assert((m / 16) * (16 * pow16(k)) <= m * pow16(k)) by (nonlinear_arith)
        requires
            m >= 16,
    ;
    lemma_pow16_mono(k);
    if k + 1 > 8 {
        lemma_pow16_ge(k + 1);
        assert((m / 16) * pow16(k + 1) >= pow16(k + 1)) by (nonlinear_arith)
            requires
                m >= 16,
        ;
    }
}

proof fn lemma_pow16_mono(k: nat)
    ensures
        pow16(k) >= 1,
    decreases k,
{
    if k > 0 {
        lemma_pow16_mono((k - 1) as nat);
    }
}

proof fn lemma_pow16_ge(k: nat)
    requires
        k >= 9,
    ensures
        pow16(k) > u32::MAX,
    decreases k,
{
    lemma_pow16_mono(k);
    if k == 9 {
        reveal_with_fuel(pow16, 10);
        assert(pow16(9) == 68719476736);
    } else {
        lemma_pow16_ge((k - 1) as nat);
    }
}


proof fn lemma_digit_char_value(d: int)
    requires
        0 <= d < 10,
    ensures
        is_digit(digit_char(d)),
        digit_value(digit_char(d)) == d,
{
    assert(((48 + d) as u32) as char == digit_char(d));
    assert((((48 + d) as u32) as char) as u32 == (48 + d) as u32);
}

/// The decimal digits of a number are ASCII digits without a leading zero (but for zero
/// itself), and read back as the number.
pub proof fn law_dec_reads_back(n: nat)
    ensures
        dec(n).len() >= 1,
        all_digits(dec(n)),
        digits_value(dec(n)) == n,
        dec(n).len() > 1 ==> dec(n)[0] != '0',
        n == 0 ==> dec(n) == seq!['0'],
    decreases n,
{
    if n < 10 {
        lemma_digit_char_value(n as int);
        assert(dec(n).drop_last() =~= Seq::<char>::empty());
        assert(digits_value(Seq::<char>::empty()) == 0);
        assert(digits_value(dec(n)) == digit_value(dec(n).last()));
        if n == 0 {
            assert(digit_char(0) == '0');
        }
    } else {
        law_dec_reads_back(n / 10);
        lemma_digit_char_value((n % 10) as int);
        let p = dec(n / 10);
        assert(dec(n).drop_last() =~= p);
        assert(dec(n).last() == digit_char((n % 10) as int));
        assert(dec(n)[0] == p[0]);
        assert(forall|i: int| 0 <= i < p.len() ==> dec(n)[i] == p[i]);
        vstd::arithmetic::div_mod::lemma_fundamental_div_mod(n as int, 10);
        assert(digits_value(dec(n)) == digits_value(p) * 10 + digit_value(digit_char((n % 10) as int)));
        if p.len() == 1 {
            assert(p.drop_last() =~= Seq::<char>::empty());
            assert(digits_value(Seq::<char>::empty()) == 0);
            assert(p.last() == p[0]);
            assert(digits_value(p) == digit_value(p[0]));
            assert(p[0] != '0');
        }
    }
}

/// A signed number is written with a `-` before the digits of its magnitude when it is
/// negative, as its digits otherwise.
pub proof fn law_dec_int_sign(n: int)
    ensures
        n < 0 ==> dec_int(n)[0] == '-' && dec_int(n).skip(1) == dec((-n) as nat),
        n >= 0 ==> dec_int(n) == dec(n as nat),
{
    if n < 0 {
        assert((seq!['-'] + dec((-n) as nat)).skip(1) =~= dec((-n) as nat));
    }
}

/// A hexadecimal digit is `0` to `9` for the values below ten and the upper-case `A` to
/// `F` above.
pub proof fn law_hex_digits_upper_case(d: int)
    requires
        0 <= d < 16,
    ensures
        d < 10 ==> '0' <= hex_char(d) <= '9' && (hex_char(d) as u32) == 48 + d,
        d >= 10 ==> 'A' <= hex_char(d) <= 'F' && (hex_char(d) as u32) == 55 + d,
{
    if d < 10 {
        assert((((48 + d) as u32) as char) as u32 == (48 + d) as u32);
    } else {
        assert((((65 + d - 10) as u32) as char) as u32 == (65 + d - 10) as u32);
    }
}

} // verus!
