//! Decimal and hexadecimal numerals: formatting integers and parsing them
//! back the way `str::parse` does.

use vstd::prelude::*;

verus! {

pub open spec fn is_digit(c: char) -> bool {
    '0' <= c && c <= '9'
}

pub open spec fn digit_char(d: nat) -> char {
    ((d + 48) as u32) as char
}

pub open spec fn digit_value(c: char) -> nat {
    ((c as u32) - 48) as nat
}

/// The decimal numeral of `n`, without leading zeros.
pub open spec fn dec_digits(n: nat) -> Seq<char>
    decreases n,
{
    if n < 10 {
        seq![digit_char(n)]
    } else {
        dec_digits(n / 10).push(digit_char(n % 10))
    }
}

/// The decimal numeral of `x`, with a leading `-` when negative.
pub open spec fn int_digits(x: int) -> Seq<char> {
    if x < 0 {
        seq!['-'] + dec_digits((-x) as nat)
    } else {
        dec_digits(x as nat)
    }
}

pub open spec fn all_digits(s: Seq<char>) -> bool {
    forall|i: int| 0 <= i < s.len() ==> is_digit(#[trigger] s[i])
}

/// The value of a string of decimal digits.
pub open spec fn digits_value(s: Seq<char>) -> nat
    decreases s.len(),
{
    if s.len() == 0 {
        0
    } else {
        digits_value(s.drop_last()) * 10 + digit_value(s.last())
    }
}

/// `s` read as an unsigned decimal: an optional `+`, then one or more
/// digits (the grammar of `str::parse` for unsigned integers).
pub open spec fn parse_unsigned(s: Seq<char>) -> Option<nat> {
    let d = if s.len() > 0 && s[0] == '+' {
        s.drop_first()
    } else {
        s
    };
    if d.len() > 0 && all_digits(d) {
        Some(digits_value(d))
    } else {
        None
    }
}

/// `s` read as a signed decimal: an optional `+` or `-`, then one or more
/// digits (the grammar of `str::parse` for signed integers).
pub open spec fn parse_signed(s: Seq<char>) -> Option<int> {
    if s.len() > 0 && s[0] == '-' {
        let d = s.drop_first();
        if d.len() > 0 && all_digits(d) {
            Some(-(digits_value(d) as int))
        } else {
            None
        }
    } else {
        match parse_unsigned(s) {
            Some(v) => Some(v as int),
            None => None,
        }
    }
}

pub proof fn lemma_dec_digits(n: nat)
    ensures
        dec_digits(n).len() > 0,
        all_digits(dec_digits(n)),
        digits_value(dec_digits(n)) == n,
        dec_digits(n)[0] != '+' && dec_digits(n)[0] != '-',
    decreases n,
{
    if n < 10 {
        let s = dec_digits(n);
        assert(s.drop_last() =~= Seq::<char>::empty());
        assert(digits_value(s.drop_last()) == 0);
        assert(digit_value(digit_char(n)) == n);
        assert(s.last() == digit_char(n));
        assert(digits_value(s) == digits_value(s.drop_last()) * 10 + digit_value(s.last()));
    } else {
        lemma_dec_digits(n / 10);
        let s = dec_digits(n);
        assert(s.drop_last() =~= dec_digits(n / 10));
        assert(digit_value(digit_char(n % 10)) == n % 10);
        assert(s.last() == digit_char(n % 10));
        assert(digits_value(s) == digits_value(s.drop_last()) * 10 + digit_value(s.last()));
        assert(all_digits(s)) by {
            assert forall|i: int| 0 <= i < s.len() implies is_digit(#[trigger] s[i]) by {
                if i < s.len() - 1 {
                    assert(s[i] == s.drop_last()[i]);
                }
            }
        }
        assert(s[0] == dec_digits(n / 10)[0]);
    }
}

/// Law: reading back a formatted unsigned number gives the number.
pub proof fn lemma_parse_unsigned_dec(n: nat)
    ensures
        parse_unsigned(dec_digits(n)) == Some(n),
{
    lemma_dec_digits(n);
}

/// Law: reading back a formatted signed number gives the number.
pub proof fn lemma_parse_signed_int(x: int)
    ensures
        parse_signed(int_digits(x)) == Some(x),
{
    if x < 0 {
        lemma_dec_digits((-x) as nat);
        let s = int_digits(x);
        assert(s.drop_first() =~= dec_digits((-x) as nat));
    } else {
        lemma_dec_digits(x as nat);
    }
}

/// The decimal numeral of `n`.
pub fn fmt_u64(n: u64) -> (v: Vec<char>)
    ensures
        v@ == dec_digits(n as nat),
    decreases n,
{
    let d = ((n % 10) as u8 + 48) as char;
    if n < 10 {
        let mut v = Vec::new();
        v.push(d);
        v
    } else {
        let mut v = fmt_u64(n / 10);
        v.push(d);
        v
    }
}

/// The decimal numeral of `x`, signed.
pub fn fmt_i64(x: i64) -> (v: Vec<char>)
    ensures
        v@ == int_digits(x as int),
{
    if x < 0 {
        let m: u64 = (0i128 - x as i128) as u64;
        let digits = fmt_u64(m);
        let mut v = Vec::new();
        v.push('-');
        crate::text::extend_chars(&mut v, &digits);
        v
    } else {
        fmt_u64(x as u64)
    }
}

/// `s[lo..hi]` read as a `u64` as `str::parse::<u64>` reads it: `None`
/// where the grammar fails or the value exceeds `u64::MAX`.
pub fn parse_u64(s: &[char], lo: usize, hi: usize) -> (r: Option<u64>)
    requires
        lo <= hi <= s@.len(),
    ensures
        r == (match parse_unsigned(s@.subrange(lo as int, hi as int)) {
            Some(v) => if v <= u64::MAX {
                Some(v as u64)
            } else {
                None
            },
            None => None,
        }),
{
    let ghost sub = s@.subrange(lo as int, hi as int);
    let mut start = lo;
    if lo < hi && s[lo] == '+' {
        start = lo + 1;
    }
    let ghost d = s@.subrange(start as int, hi as int);
    proof {
        if lo < hi && s@[lo as int] == '+' {
            assert(sub.drop_first() =~= d);
        } else {
            assert(sub =~= d);
        }
    }
    if start == hi {
        return None;
    }
    assert(parse_unsigned(sub) == (if all_digits(d) {
        Some(digits_value(d))
    } else {
        None::<nat>
    }));
    let mut acc: u64 = 0;
    let mut overflow = false;
    let mut i = start;
    while i < hi
        invariant
            lo <= start <= i <= hi <= s@.len(),
            d == s@.subrange(start as int, hi as int),
            sub == s@.subrange(lo as int, hi as int),
            d.len() > 0,
            parse_unsigned(sub) == (if all_digits(d) {
                Some(digits_value(d))
            } else {
                None::<nat>
            }),
            all_digits(s@.subrange(start as int, i as int)),
            !overflow ==> acc as nat == digits_value(s@.subrange(start as int, i as int)),
            overflow ==> digits_value(s@.subrange(start as int, i as int)) > u64::MAX,
        decreases hi - i,
    {
        let c = s[i];
        proof {
            let p = s@.subrange(start as int, i + 1);
            assert(p.drop_last() =~= s@.subrange(start as int, i as int));
        }
        if !('0' <= c && c <= '9') {
            proof {
                assert(d[i - start] == c);
                assert(!is_digit(d[i - start]));
                assert(!all_digits(d));
                assert(parse_unsigned(sub) is None);
            }
            return None;
        }
        let dv = (c as u32 - 48) as u64;
        if !overflow {
            if acc > (u64::MAX - dv) / 10 {
                overflow = true;
                proof {
                    assert(acc * 10 + dv > u64::MAX) by (nonlinear_arith)
                        requires
                            acc > (u64::MAX - dv) / 10,
                            dv <= 9,
                    ;
                }
            } else {
                proof {
                    assert(acc * 10 + dv <= u64::MAX) by (nonlinear_arith)
                        requires
                            acc <= (u64::MAX - dv) / 10,
                            dv <= 9,
                    ;
                }
                acc = acc * 10 + dv;
            }
        } else {
            proof {
                let v0 = digits_value(s@.subrange(start as int, i as int));
                assert(v0 * 10 + dv > u64::MAX) by (nonlinear_arith)
                    requires
                        v0 > u64::MAX,
                ;
            }
        }
        i = i + 1;
    }
    proof {
        assert(s@.subrange(start as int, i as int) =~= d);
    }
    if overflow {
        None
    } else {
        Some(acc)
    }
}

/// `s[lo..hi]` read as an `i32` as `str::parse::<i32>` reads it.
pub fn parse_i32(s: &[char], lo: usize, hi: usize) -> (r: Option<i32>)
    requires
        lo <= hi <= s@.len(),
    ensures
        r == (match parse_signed(s@.subrange(lo as int, hi as int)) {
            Some(v) => if i32::MIN <= v <= i32::MAX {
                Some(v as i32)
            } else {
                None
            },
            None => None,
        }),
{
    let ghost sub = s@.subrange(lo as int, hi as int);
    if lo < hi && s[lo] == '-' {
        proof {
            assert(sub.drop_first() =~= s@.subrange(lo + 1, hi as int));
        }
        if lo + 1 == hi {
            return None;
        }
        // A leading '+' after '-' is not a digit: reject it here, since
        // `parse_u64` would accept it.
        if s[lo + 1] == '+' {
            proof {
                assert(sub.drop_first()[0] == '+');
            }
            return None;
        }
        let m = parse_u64(s, lo + 1, hi);
        proof {
            let d = s@.subrange(lo + 1, hi as int);
            assert(d[0] != '+');
        }
        match m {
            Some(v) => {
                if v <= 2147483648 {
                    Some((0i64 - v as i64) as i32)
                } else {
                    None
                }
            },
            None => None,
        }
    } else {
        let m = parse_u64(s, lo, hi);
        match m {
            Some(v) => {
                if v <= 2147483647 {
                    Some(v as i32)
                } else {
                    None
                }
            },
            None => None,
        }
    }
}

// ---------------------------------------------------------------------------
// Hexadecimal.
// ---------------------------------------------------------------------------

pub open spec fn hex_digit_value(c: char) -> Option<nat> {
    if '0' <= c && c <= '9' {
        Some(((c as u32) - 48) as nat)
    } else if 'a' <= c && c <= 'f' {
        Some(((c as u32) - 87) as nat)
    } else if 'A' <= c && c <= 'F' {
        Some(((c as u32) - 55) as nat)
    } else {
        None
    }
}

pub open spec fn hex_digits_value(s: Seq<char>) -> Option<nat>
    decreases s.len(),
{
    if s.len() == 0 {
        Some(0)
    } else {
        match (hex_digits_value(s.drop_last()), hex_digit_value(s.last())) {
            (Some(v), Some(d)) => Some(v * 16 + d),
            _ => None,
        }
    }
}

/// `s` read as `u32::from_str_radix(s, 16)` reads it, for `s` short enough
/// never to overflow: an optional `+` (not alone), then one or more hex digits.
pub open spec fn hex_value(s: Seq<char>) -> Option<nat> {
    let d = if s.len() > 0 && s[0] == '+' {
        s.drop_first()
    } else {
        s
    };
    if d.len() == 0 {
        None
    } else {
        hex_digits_value(d)
    }
}

/// The lowercase hex digit of `d < 16`.
pub open spec fn hex_char(d: nat) -> char {
    if d < 10 {
        ((d + 48) as u32) as char
    } else {
        ((d + 87) as u32) as char
    }
}

pub fn hex_char_exec(d: u32) -> (c: char)
    requires
        d < 16,
    ensures
        c == hex_char(d as nat),
{
    if d < 10 {
        ((d as u8) + 48) as char
    } else {
        ((d as u8) + 87) as char
    }
}

/// `s[lo..hi]` (at most four characters) read as a hex number.
pub fn hex_value_exec(s: &[char], lo: usize, hi: usize) -> (r: Option<u32>)
    requires
        lo <= hi <= s@.len(),
        hi - lo <= 4,
    ensures
        match r {
            Some(v) => hex_value(s@.subrange(lo as int, hi as int)) == Some(v as nat),
            None => hex_value(s@.subrange(lo as int, hi as int)) is None,
        },
{
    let ghost sub = s@.subrange(lo as int, hi as int);
    let mut start = lo;
    if lo < hi && s[lo] == '+' {
        start = lo + 1;
    }
    let ghost d = s@.subrange(start as int, hi as int);
    proof {
        if lo < hi && s@[lo as int] == '+' {
            assert(sub.drop_first() =~= d);
        } else {
            assert(sub =~= d);
        }
    }
    if start == hi {
        return None;
    }
    assert(hex_value(sub) == hex_digits_value(d));
    let mut acc: u32 = 0;
    let mut i = start;
    while i < hi
        invariant
            lo <= start <= i <= hi <= s@.len(),
            hi - lo <= 4,
            d == s@.subrange(start as int, hi as int),
            hex_value(sub) == hex_digits_value(d),
            sub == s@.subrange(lo as int, hi as int),
            hex_digits_value(s@.subrange(start as int, i as int)) == Some(acc as nat),
            i - start == 0 ==> acc == 0,
            i - start == 1 ==> acc < 16,
            i - start == 2 ==> acc < 256,
            i - start == 3 ==> acc < 4096,
            i - start <= 4,
        decreases hi - i,
    {
        let c = s[i];
        proof {
            let p = s@.subrange(start as int, i + 1);
            assert(p.drop_last() =~= s@.subrange(start as int, i as int));
        }
        let dv: u32;
        if '0' <= c && c <= '9' {
            dv = c as u32 - 48;
        } else if 'a' <= c && c <= 'f' {
            dv = c as u32 - 87;
        } else if 'A' <= c && c <= 'F' {
            dv = c as u32 - 55;
        } else {
            proof {
                assert(s@.subrange(start as int, i + 1) =~= d.subrange(0, i + 1 - start));
                lemma_hex_none_extends(s@.subrange(start as int, i + 1), d);
            }
            return None;
        }
        acc = acc * 16 + dv;
        i = i + 1;
    }
    proof {
        assert(s@.subrange(start as int, i as int) =~= d);
    }
    Some(acc)
}

/// A prefix that is not all hex digits makes the whole string fail.
proof fn lemma_hex_none_extends(p: Seq<char>, d: Seq<char>)
    requires
        p.len() <= d.len(),
        p == d.subrange(0, p.len() as int),
        hex_digits_value(p) is None,
    ensures
        hex_digits_value(d) is None,
    decreases d.len(),
{
    if p.len() < d.len() {
        assert(d.drop_last().subrange(0, p.len() as int) =~= p);
        lemma_hex_none_extends(p, d.drop_last());
    } else {
        assert(p =~= d);
    }
}

} // verus!
