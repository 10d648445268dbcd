//! Exact decimal price parsing. A price string is parsed into a `u64` count
//! of `10^-8` units; a string of any other shape yields `None`, which the
//! caller treats as a zero price and skips.

use vstd::prelude::*;
use crate::text::{
    all_digits, dec_value, find_char, find_char_exec, is_digit, lemma_dec_value_nonneg,
    lemma_find_char, parse_u64_digits,
};

verus! {

/// Ten to the power `n`.
pub open spec fn pow10(n: int) -> int
    decreases n,
{
    if n <= 0 {
        1
    } else {
        10 * pow10(n - 1)
    }
}

/// A digit string's value is below ten to the power of its length.
pub proof fn lemma_dec_value_bound(s: Seq<char>)
    requires
        all_digits(s),
    ensures
        dec_value(s) < pow10(s.len() as int),
    decreases s.len(),
{
    if s.len() == 0 {
    } else {
        assert(all_digits(s.drop_last())) by {
            assert forall|i: int| 0 <= i < s.drop_last().len()
                implies is_digit(#[trigger] s.drop_last()[i]) by {
                assert(s.drop_last()[i] == s[i]);
            }
        }
        lemma_dec_value_bound(s.drop_last());
        assert(is_digit(s.last()));
        assert(digit_char_bound(s.last()));
    }
}

/// A digit character's value is below ten.
pub open spec fn digit_char_bound(c: char) -> bool {
    is_digit(c) ==> 0 <= crate::text::digit_val(c) <= 9
}

/// The fractional digits of a price, scaled to `10^-8` units: only the
/// first eight fractional digits carry value at this scale; any further
/// digits are truncated.
pub open spec fn frac_units(fp: Seq<char>) -> int {
    let f8 = if fp.len() <= 8 { fp } else { fp.subrange(0, 8) };
    dec_value(f8) * pow10(8 - f8.len())
}

/// The price a string denotes, in `10^-8` units: decimal digits with at
/// most one point and at least one digit. `None` on any other shape, and on
/// a value too large for sixty-four bits at this scale.
pub open spec fn price_units(s: Seq<char>) -> Option<u64> {
    let dot = find_char(s, '.');
    if dot == -1 {
        if s.len() >= 1 && all_digits(s)
            && dec_value(s) * 100000000 <= 0xffff_ffff_ffff_ffffu64 {
            Some((dec_value(s) * 100000000) as u64)
        } else {
            None
        }
    } else if !(0 <= dot < s.len()) {
        None
    } else {
        let ip = s.subrange(0, dot);
        let fp = s.subrange(dot + 1, s.len() as int);
        if all_digits(ip) && all_digits(fp) && ip.len() + fp.len() >= 1
            && dec_value(ip) * 100000000 + frac_units(fp) <= 0xffff_ffff_ffff_ffffu64 {
            Some((dec_value(ip) * 100000000 + frac_units(fp)) as u64)
        } else {
            None
        }
    }
}

/// The small powers of ten, written out.
proof fn lemma_pow10_values()
    ensures
        pow10(0) == 1,
        pow10(1) == 10,
        pow10(2) == 100,
        pow10(3) == 1000,
        pow10(4) == 10000,
        pow10(5) == 100000,
        pow10(6) == 1000000,
        pow10(7) == 10000000,
        pow10(8) == 100000000,
{
    assert(pow10(0) == 1);
    assert(pow10(1) == 10);
    assert(pow10(2) == 100);
    assert(pow10(3) == 1000);
    assert(pow10(4) == 10000);
    assert(pow10(5) == 100000);
    assert(pow10(6) == 1000000);
    assert(pow10(7) == 10000000);
    assert(pow10(8) == 100000000);
}

/// `pow10(n) * pow10(8 - n) == 10^8` for `0 <= n <= 8`.
proof fn lemma_pow10_split(n: int)
    requires
        0 <= n <= 8,
    ensures
        pow10(n) * pow10(8 - n) == 100000000,
        pow10(n) >= 1,
{
    lemma_pow10_values();
    if n == 0 {
        assert(pow10(0) * pow10(8) == 100000000);
    } else if n == 1 {
        assert(pow10(1) * pow10(7) == 100000000);
    } else if n == 2 {
        assert(pow10(2) * pow10(6) == 100000000);
    } else if n == 3 {
        assert(pow10(3) * pow10(5) == 100000000);
    } else if n == 4 {
        assert(pow10(4) * pow10(4) == 100000000);
    } else if n == 5 {
        assert(pow10(5) * pow10(3) == 100000000);
    } else if n == 6 {
        assert(pow10(6) * pow10(2) == 100000000);
    } else if n == 7 {
        assert(pow10(7) * pow10(1) == 100000000);
    } else {
        assert(pow10(8) * pow10(0) == 100000000);
    }
}

/// Ten to the power `n`, for `n <= 8`.
fn pow10_exec(n: usize) -> (r: u64)
    requires
        n <= 8,
    ensures
        r == pow10(n as int),
{
    proof {
        lemma_pow10_values();
    }
    match n {
        0 => 1,
        1 => 10,
        2 => 100,
        3 => 1000,
        4 => 10000,
        5 => 100000,
        6 => 1000000,
        7 => 10000000,
        _ => 100000000,
    }
}

/// Every character of `s` is a decimal digit.
fn is_digits_exec(s: &str) -> (r: bool)
    ensures
        r == all_digits(s@),
{
    let n = s.unicode_len();
    let mut i: usize = 0;
    while i < n
        invariant
            i <= n,
            n == s@.len(),
            forall|j: int| 0 <= j < i ==> is_digit(#[trigger] s@[j]),
        decreases n - i,
    {
        let u = s.get_char(i) as u32;
        if u < 48 || u > 57 {
            proof {
                assert(!is_digit(s@[i as int]));
            }
            return false;
        }
        i += 1;
    }
    true
}

/// Parses a price string into `10^-8` units, exactly as `price_units`
/// describes; the caller treats `None` as a zero price.
pub fn parse_price(s: &str) -> (r: Option<u64>)
    ensures
        r == price_units(s@),
{
    let n = s.unicode_len();
    match find_char_exec(s, '.') {
        None => {
            proof {
                lemma_find_char(s@, '.');
            }
            match parse_u64_digits(s) {
                None => {
                    proof {
                        if s@.len() >= 1 && all_digits(s@) {
                            lemma_dec_value_nonneg(s@);
                        }
                    }
                    None
                },
                Some(v) => {
                    if v > 0xffff_ffff_ffff_ffffu64 / 100000000 {
                        return None;
                    }
                    Some(v * 100000000)
                },
            }
        },
        Some(dot) => {
            proof {
                lemma_find_char(s@, '.');
            }
            let ip = s.substring_char(0, dot);
            let fp = s.substring_char(dot + 1, n);
            proof {
                assert(ip@ =~= s@.subrange(0, dot as int));
                assert(fp@ =~= s@.subrange(dot + 1 as int, s@.len() as int));
            }
            if !is_digits_exec(ip) || !is_digits_exec(fp) {
                return None;
            }
            let ip_len = ip.unicode_len();
            let fp_len = fp.unicode_len();
            if ip_len + fp_len < 1 {
                return None;
            }
            let f8_len: usize = if fp_len <= 8 { fp_len } else { 8 };
            let f8 = fp.substring_char(0, f8_len);
            proof {
                if fp@.len() <= 8 {
                    assert(f8@ =~= fp@);
                } else {
                    assert(f8@ =~= fp@.subrange(0, 8));
                }
                assert(all_digits(f8@)) by {
                    assert forall|j: int| 0 <= j < f8@.len()
                        implies is_digit(#[trigger] f8@[j]) by {
                        assert(f8@[j] == fp@[j]);
                    }
                }
                lemma_dec_value_bound(f8@);
                lemma_dec_value_nonneg(f8@);
                lemma_pow10_split(f8@.len() as int);
            }
            let fv = if f8_len == 0 {
                0u64
            } else {
                match parse_u64_digits(f8) {
                    None => {
                        proof {
                            assert(dec_value(f8@) < pow10(f8@.len() as int));
                            assert(pow10(f8@.len() as int) <= 100000000) by {
                                lemma_pow10_split(f8@.len() as int);
                                lemma_pow10_pos(8 - f8@.len() as int);
                                assert(pow10(f8@.len() as int) <= 100000000)
                                    by (nonlinear_arith)
                                    requires
                                        pow10(f8@.len() as int)
                                            * pow10(8 - f8@.len() as int) == 100000000,
                                        pow10(f8@.len() as int) >= 1,
                                        pow10(8 - f8@.len() as int) >= 1,
                                ;
                            }
                            assert(false);
                        }
                        return None;
                    },
                    Some(v) => v,
                }
            };
            let scale = pow10_exec(8 - f8_len);
            proof {
                assert(fv == dec_value(f8@)) by {
                    if f8_len == 0 {
                        assert(f8@.len() == 0);
                    }
                }
                assert(fv * scale == frac_units(fp@));
                assert(fv * scale < 100000000) by (nonlinear_arith)
                    requires
                        fv >= 0,
                        scale >= 1,
                        fv < pow10(f8@.len() as int),
                        scale == pow10(8 - f8@.len() as int),
                        pow10(f8@.len() as int) * pow10(8 - f8@.len() as int) == 100000000,
                ;
            }
            let frac: u64 = fv * scale;
            let iv = if ip_len == 0 {
                0u64
            } else {
                match parse_u64_digits(ip) {
                    None => {
                        proof {
                            if all_digits(ip@) && ip@.len() >= 1 {
                                lemma_dec_value_nonneg(ip@);
                                assert(dec_value(ip@) > 0xffff_ffff_ffff_ffffu64);
                            }
                        }
                        return None;
                    },
                    Some(v) => v,
                }
            };
            proof {
                assert(iv == dec_value(ip@)) by {
                    if ip_len == 0 {
                        assert(ip@.len() == 0);
                    }
                }
            }
            if iv > (0xffff_ffff_ffff_ffffu64 - frac) / 100000000 {
                return None;
            }
            Some(iv * 100000000 + frac)
        },
    }
}

/// `pow10` is positive.
pub proof fn lemma_pow10_pos(n: int)
    ensures
        pow10(n) >= 1,
    decreases n,
{
    if n > 0 {
        lemma_pow10_pos(n - 1);
    }
}

} // verus!
