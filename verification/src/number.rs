//! Unsigned integer parsing with the grammar of `from_str_radix`: an optional
//! `+`, then one or more digits of the radix, with a value that fits the type.

use vstd::prelude::*;
use crate::text::chars_of;

verus! {

/// The value of one digit in `radix` (10 or 16), as `char::to_digit` gives it.
pub open spec fn digit_value(c: char, radix: nat) -> Option<nat> {
    let u = c as u32;
    if 0x30 <= u <= 0x39 && u - 0x30 < radix {
        Some((u - 0x30) as nat)
    } else if 0x61 <= u <= 0x7a && u - 0x61 + 10 < radix {
        Some((u - 0x61 + 10) as nat)
    } else if 0x41 <= u <= 0x5a && u - 0x41 + 10 < radix {
        Some((u - 0x41 + 10) as nat)
    } else {
        None
    }
}

/// The value of a string of digits in `radix`, most significant first;
/// `None` when some character is not a digit.
pub open spec fn digits_value(d: Seq<char>, radix: nat) -> Option<nat>
    decreases d.len(),
{
    if d.len() == 0 {
        Some(0)
    } else {
        match (digits_value(d.drop_last(), radix), digit_value(d.last(), radix)) {
            (Some(v), Some(x)) => Some(v * radix + x),
            _ => None,
        }
    }
}

/// What `from_str_radix` returns for an unsigned type whose largest value is
/// `max`: an optional leading `+`, at least one digit, and a value that fits.
pub open spec fn from_str_radix(t: Seq<char>, radix: nat, max: nat) -> Option<nat> {
    let d = if t.len() > 0 && t[0] == '+' {
        t.drop_first()
    } else {
        t
    };
    if d.len() == 0 {
        None
    } else {
        match digits_value(d, radix) {
            Some(v) => if v <= max {
                Some(v)
            } else {
                None
            },
            None => None,
        }
    }
}

/// Parses `t` as an unsigned integer in `radix` (10 or 16) that is at most
/// `max`, following the grammar of `from_str_radix`.
pub fn parse_radix(t: &Vec<char>, radix: u32, max: u64) -> (r: Option<u64>)
    requires
        radix == 10 || radix == 16,
    ensures
        match from_str_radix(t@, radix as nat, max as nat) {
            Some(v) => r == Some(v as u64),
            None => r is None,
        },
{
    let n = t.len();
    let start: usize = if n > 0 && t[0] == '+' {
        1
    } else {
        0
    };
    let ghost d = if t@.len() > 0 && t@[0] == '+' {
        t@.drop_first()
    } else {
        t@
    };
    assert(d =~= t@.subrange(start as int, n as int));
    if start == n {
        return None;
    }
    let cap: u128 = max as u128 + 1;
    let mut acc: u128 = 0;
    let mut bad = false;
    let ghost mut val: nat = 0;
    let mut i: usize = start;
    assert(t@.subrange(start as int, start as int) =~= Seq::<char>::empty());
    while i < n
        invariant
            n == t@.len(),
            start <= i <= n,
            cap == max + 1,
            radix == 10 || radix == 16,
            bad ==> digits_value(t@.subrange(start as int, i as int), radix as nat) is None,
            !bad ==> digits_value(t@.subrange(start as int, i as int), radix as nat) == Some(val),
            !bad ==> acc == (if val > max {
                cap as nat
            } else {
                val
            }),
        decreases n - i,
    {
        let ghost prefix = t@.subrange(start as int, i as int);
        let ghost next = t@.subrange(start as int, i + 1);
        assert(next.drop_last() =~= prefix);
        assert(next.last() == t@[i as int]);
        let c = t[i] as u32;
        let digit: Option<u32> = if 0x30 <= c && c <= 0x39 && c - 0x30 < radix {
            Some(c - 0x30)
        } else if 0x61 <= c && c <= 0x7a && c - 0x61 + 10 < radix {
            Some(c - 0x61 + 10)
        } else if 0x41 <= c && c <= 0x5a && c - 0x41 + 10 < radix {
            Some(c - 0x41 + 10)
        } else {
            None
        };
        assert(digit == (match digit_value(t@[i as int], radix as nat) {
            Some(x) => Some(x as u32),
            None => None::<u32>,
        }));
        match digit {
            None => {
                bad = true;
            },
            Some(x) => {
                if !bad {
                    proof {
                        let old_val = val;
                        val = old_val * (radix as nat) + (x as nat);
                        assert(val >= old_val) by (nonlinear_arith)
                            requires
                                val == old_val * (radix as nat) + (x as nat),
                                radix >= 10,
                        ;
                    }
                    if acc >= cap {
                        acc = cap;
                    } else {
                        assert(acc * (radix as u128) + (x as u128) <= 0xffff_ffff_ffff_ffff_ffffu128)
                            by (nonlinear_arith)
                            requires
                                acc <= 0xffff_ffff_ffff_ffffu128,
                                radix <= 16,
                                x < 16,
                        ;
                        let v = acc * (radix as u128) + (x as u128);
                        acc = if v >= cap {
                            cap
                        } else {
                            v
                        };
                    }
                }
            },
        }
        i = i + 1;
    }
    assert(t@.subrange(start as int, n as int) =~= d);
    if bad || acc >= cap {
        None
    } else {
        Some(acc as u64)
    }
}

/// Why `parse_u64` refused its input; each variant holds the input.
#[derive(Debug, Clone, PartialEq, Eq)]
pub enum NumberError {
    /// The input starts with `0x` or `0X` and the rest is not a base-16 `u64`.
    InvalidHex(String),
    /// The input is not a base-10 `u64`.
    InvalidInteger(String),
}

/// Whether `s` starts with the two characters `0x` or `0X`.
pub open spec fn has_hex_prefix(s: Seq<char>) -> bool {
    s.len() >= 2 && s[0] == '0' && (s[1] == 'x' || s[1] == 'X')
}

/// What `parse_u64` returns for the characters `s`: a `0x`/`0X`-prefixed
/// base-16 number, or else a base-10 number, each with an optional `+`.
pub open spec fn spec_parse_u64(s: Seq<char>) -> Option<u64> {
    let parsed = if has_hex_prefix(s) {
        from_str_radix(s.skip(2), 16, u64::MAX as nat)
    } else {
        from_str_radix(s, 10, u64::MAX as nat)
    };
    match parsed {
        Some(v) => Some(v as u64),
        None => None,
    }
}

/// Parses an address or length given in decimal or as `0x`-prefixed hex.
pub fn parse_u64(input: &str) -> (r: Result<u64, NumberError>)
    ensures
        match spec_parse_u64(input@) {
            Some(v) => r == Ok::<u64, NumberError>(v),
            None => if has_hex_prefix(input@) {
                r matches Err(NumberError::InvalidHex(s)) && s@ == input@
            } else {
                r matches Err(NumberError::InvalidInteger(s)) && s@ == input@
            },
        },
{
    let s = chars_of(input);
    if s.len() >= 2 && s[0] == '0' && (s[1] == 'x' || s[1] == 'X') {
        let mut rest: Vec<char> = Vec::new();
        let mut i: usize = 2;
        while i < s.len()
            invariant
                2 <= i <= s@.len(),
                rest@ == s@.subrange(2, i as int),
            decreases s@.len() - i,
        {
            rest.push(s[i]);
            i = i + 1;
            assert(rest@ =~= s@.subrange(2, i as int));
        }
        assert(rest@ =~= s@.skip(2));
        match parse_radix(&rest, 16, u64::MAX) {
            Some(v) => Ok(v),
            None => Err(NumberError::InvalidHex(input.to_owned())),
        }
    } else {
        match parse_radix(&s, 10, u64::MAX) {
            Some(v) => Ok(v),
            None => Err(NumberError::InvalidInteger(input.to_owned())),
        }
    }
}


/// The digit character of a value below 16: `0`-`9`, then `a`-`f`, or
/// `A`-`F` when `upper`.
pub open spec fn digit_char(d: nat, upper: bool) -> char {
    if d < 10 {
        (0x30 + d) as char
    } else if upper {
        (0x41 + d - 10) as char
    } else {
        (0x61 + d - 10) as char
    }
}

/// The digits of `n` in `radix` (2 to 16), most significant first, with no
/// leading zero: what `to_string` writes for radix 10, and what `{:x}` and
/// `{:X}` write for radix 16.
pub open spec fn radix_digits(n: nat, radix: nat, upper: bool) -> Seq<char>
    decreases n,
{
    if radix < 2 || n < radix {
        seq![digit_char(n, upper)]
    } else {
        proof {
            vstd::arithmetic::div_mod::lemma_div_decreases(n as int, radix as int);
        }
        radix_digits(n / radix, radix, upper).push(digit_char(n % radix, upper))
    }
}

proof fn lemma_digit_char(d: nat, radix: nat, upper: bool)
    requires
        radix == 10 || radix == 16,
        d < radix,
    ensures
        digit_value(digit_char(d, upper), radix) == Some(d),
{
}

pub(crate) proof fn lemma_radix_digits(n: nat, radix: nat, upper: bool)
    requires
        radix == 10 || radix == 16,
    ensures
        radix_digits(n, radix, upper).len() > 0,
        digits_value(radix_digits(n, radix, upper), radix) == Some(n),
        forall|i: int|
            0 <= i < radix_digits(n, radix, upper).len() ==> digit_value(
                #[trigger] radix_digits(n, radix, upper)[i],
                radix,
            ) is Some,
    decreases n,
{
    let s = radix_digits(n, radix, upper);
    if n < radix {
        lemma_digit_char(n, radix, upper);
        assert(s.drop_last() =~= Seq::<char>::empty());
        assert(digits_value(s.drop_last(), radix) == Some(0nat));
        assert(s.last() == digit_char(n, upper));
        assert(0 * radix == 0) by (nonlinear_arith);
    } else {
        vstd::arithmetic::div_mod::lemma_div_decreases(n as int, radix as int);
        vstd::arithmetic::div_mod::lemma_div_pos_is_pos(n as int, radix as int);
        vstd::arithmetic::div_mod::lemma_fundamental_div_mod(n as int, radix as int);
        vstd::arithmetic::div_mod::lemma_mod_pos_bound(n as int, radix as int);
        let q = n / radix;
        let m = n % radix;
        lemma_radix_digits(q, radix, upper);
        lemma_digit_char(m, radix, upper);
        let prefix = radix_digits(q, radix, upper);
        assert(s == prefix.push(digit_char(m, upper)));
        assert(s.drop_last() =~= prefix);
        assert(q * radix == radix * q) by (nonlinear_arith);
        assert(s.last() == digit_char(m, upper));
        assert(digits_value(s, radix) == Some(q * radix + m));
        assert forall|i: int| 0 <= i < s.len() implies digit_value(#[trigger] s[i], radix) is Some by {
            if i < prefix.len() {
                assert(s[i] == prefix[i]);
            }
        }
    }
}

proof fn lemma_from_str_radix_digits(n: u64, radix: nat, upper: bool)
    requires
        radix == 10 || radix == 16,
    ensures
        from_str_radix(radix_digits(n as nat, radix, upper), radix, u64::MAX as nat) == Some(n as nat),
{
    lemma_radix_digits(n as nat, radix, upper);
    let s = radix_digits(n as nat, radix, upper);
    assert(digit_value(s[0], radix) is Some);
    assert(s[0] != '+');
}

/// Numbers read back: `parse_u64` returns `n` for the decimal digits of `n`,
/// and for `0x` or `0X` followed by the hexadecimal digits of `n` in either
/// case, as `to_string`, `{:#x}` and `{:#X}` write them.
pub proof fn law_parse_reads_formatted_numbers(n: u64, x: char, upper: bool)
    requires
        x == 'x' || x == 'X',
    ensures
        spec_parse_u64(radix_digits(n as nat, 10, false)) == Some(n),
        spec_parse_u64(seq!['0', x] + radix_digits(n as nat, 16, upper)) == Some(n),
{
    lemma_from_str_radix_digits(n, 10, false);
    lemma_from_str_radix_digits(n, 16, upper);
    lemma_radix_digits(n as nat, 10, false);
    let d = radix_digits(n as nat, 10, false);
    if d.len() >= 2 {
        assert(digit_value(d[1], 10) is Some);
    }
    assert(!has_hex_prefix(d));
    let h = seq!['0', x] + radix_digits(n as nat, 16, upper);
    assert(has_hex_prefix(h));
    assert(h.skip(2) =~= radix_digits(n as nat, 16, upper));
}

} // verus!
