//! Fixed-point money and share quantities. A unit value of `1.0` is stored
//! as `SCALE` (ten-thousandths), so prices and share counts carry four
//! decimal places exactly, with no rounding during parsing.
use crate::text::digit_val;
use crate::text::is_digit;
use vstd::prelude::*;

verus! {

/// Fixed-point scale: stored value `SCALE` means `1.0`.
pub const SCALE: u64 = 10000;

pub open spec fn all_digits(s: Seq<char>) -> bool {
    forall|i: int| 0 <= i < s.len() ==> is_digit(#[trigger] s[i])
}

/// The number a sequence of decimal digits denotes.
pub open spec fn digits_val(s: Seq<char>) -> int
    decreases s.len(),
{
    if s.len() == 0 {
        0
    } else {
        digits_val(s.drop_last()) * 10 + digit_val(s.last())
    }
}

/// Index of the first `'.'`, or `-1` if there is none.
pub open spec fn find_dot(s: Seq<char>) -> int
    decreases s.len(),
{
    if s.len() == 0 {
        -1
    } else if s[0] == '.' {
        0
    } else if find_dot(s.drop_first()) < 0 {
        -1
    } else {
        find_dot(s.drop_first()) + 1
    }
}

pub open spec fn pow10(n: nat) -> int
    decreases n,
{
    if n == 0 {
        1
    } else {
        10 * pow10((n - 1) as nat)
    }
}

/// The fixed-point value a decimal string denotes: a non-empty run of
/// digits, optionally followed by `'.'` and one to four digits, scaled by
/// `SCALE`. `None` for any other shape, and for values beyond `u64::MAX`.
pub open spec fn spec_parse_price(s: Seq<char>) -> Option<u64> {
    let k = find_dot(s);
    if k < 0 {
        if s.len() > 0 && all_digits(s) && digits_val(s) * SCALE <= u64::MAX {
            Some((digits_val(s) * SCALE) as u64)
        } else {
            None
        }
    } else {
        let ip = s.subrange(0, k);
        let fp = s.subrange(k + 1, s.len() as int);
        let v = digits_val(ip) * SCALE + digits_val(fp) * pow10((4 - fp.len()) as nat);
        if ip.len() > 0 && 1 <= fp.len() <= 4 && all_digits(ip) && all_digits(fp) && v
            <= u64::MAX {
            Some(v as u64)
        } else {
            None
        }
    }
}

/// A digit string denotes a non-negative number.
pub proof fn lemma_digits_val_nonneg(s: Seq<char>)
    requires
        all_digits(s),
    ensures
        digits_val(s) >= 0,
    decreases s.len(),
{
    if s.len() > 0 {
        assert(all_digits(s.drop_last())) by {
            assert(forall|i: int|
                0 <= i < s.len() - 1 ==> #[trigger] s.drop_last()[i] == s[i]);
        }
        lemma_digits_val_nonneg(s.drop_last());
    }
}

fn find_dot_from(s: &str, i: usize) -> (r: Option<usize>)
    requires
        i <= s@.len(),
    ensures
        (r is None) == (find_dot(s@.skip(i as int)) < 0),
        r matches Some(j) ==> i <= j < s@.len() && j == i + find_dot(s@.skip(i as int)),
    decreases s@.len() - i,
{
    let n = s.unicode_len();
    if i == n {
        None
    } else if s.get_char(i) == '.' {
        proof {
            assert(s@.skip(i as int)[0] == s@[i as int]);
        }
        Some(i)
    } else {
        let r = find_dot_from(s, i + 1);
        proof {
            assert(s@.skip(i as int)[0] == s@[i as int]);
            assert(s@.skip(i as int).drop_first() =~= s@.skip(i as int + 1));
        }
        r
    }
}

fn digits_to(s: &str, from: usize, to: usize) -> (r: Option<u64>)
    requires
        from <= to <= s@.len(),
    ensures
        ({
            let seg = s@.subrange(from as int, to as int);
            if all_digits(seg) && digits_val(seg) <= u64::MAX {
                r == Some((digits_val(seg)) as u64)
            } else {
                r is None
            }
        }),
    decreases to - from,
{
    let ghost seg = s@.subrange(from as int, to as int);
    if from == to {
        Some(0)
    } else {
        let c = s.get_char(to - 1);
        proof {
            assert(seg.drop_last() =~= s@.subrange(from as int, to as int - 1));
            assert(seg.last() == c);
            if all_digits(seg.drop_last()) && is_digit(c) {
                assert(all_digits(seg)) by {
                    assert(forall|i: int|
                        0 <= i < seg.len() - 1 ==> #[trigger] seg[i] == seg.drop_last()[i]);
                }
            }
            if all_digits(seg) {
                assert(all_digits(seg.drop_last())) by {
                    assert(forall|i: int|
                        0 <= i < seg.len() - 1 ==> #[trigger] seg.drop_last()[i] == seg[i]);
                }
                lemma_digits_val_nonneg(seg.drop_last());
            }
        }
        if !('0' <= c && c <= '9') {
            None
        } else {
            match digits_to(s, from, to - 1) {
                None => None,
                Some(acc) => {
                    let d = (c as u32 - '0' as u32) as u64;
                    match acc.checked_mul(10) {
                        None => None,
                        Some(p) => p.checked_add(d),
                    }
                },
            }
        }
    }
}

/// Parses a decimal string into a fixed-point amount, exactly as
/// `spec_parse_price` says.
pub fn parse_price(s: &str) -> (r: Option<u64>)
    ensures
        r == spec_parse_price(s@),
{
    let n = s.unicode_len();
    proof {
        assert(s@.skip(0) =~= s@);
    }
    match find_dot_from(s, 0) {
        None => {
            if n == 0 {
                return None;
            }
            proof {
                assert(s@.subrange(0, s@.len() as int) =~= s@);
                if all_digits(s@) {
                    lemma_digits_val_nonneg(s@);
                }
            }
            match digits_to(s, 0, n) {
                None => None,
                Some(v) => v.checked_mul(SCALE),
            }
        },
        Some(k) => {
            let ghost ip = s@.subrange(0, k as int);
            let ghost fp = s@.subrange(k as int + 1, s@.len() as int);
            let flen = n - k - 1;
            if k == 0 || flen == 0 || flen > 4 {
                return None;
            }
            let mult: u64 = if flen == 1 {
                1000
            } else if flen == 2 {
                100
            } else if flen == 3 {
                10
            } else {
                1
            };
            proof {
                reveal_with_fuel(pow10, 5);
                assert(mult == pow10((4 - fp.len()) as nat));
                if all_digits(ip) {
                    lemma_digits_val_nonneg(ip);
                }
                if all_digits(fp) {
                    lemma_digits_val_nonneg(fp);
                    assert(digits_val(fp) * pow10((4 - fp.len()) as nat) >= digits_val(fp)
                        && digits_val(fp) * pow10((4 - fp.len()) as nat) >= 0) by (nonlinear_arith)
                        requires
                            digits_val(fp) >= 0,
                            pow10((4 - fp.len()) as nat) >= 1,
                    ;
                }
            }
            let iv = match digits_to(s, 0, k) {
                None => {
                    return None;
                },
                Some(v) => v,
            };
            let fv = match digits_to(s, k + 1, n) {
                None => {
                    return None;
                },
                Some(v) => v,
            };
            let scaled_int = match iv.checked_mul(SCALE) {
                None => {
                    return None;
                },
                Some(v) => v,
            };
            let scaled_frac = match fv.checked_mul(mult) {
                None => {
                    return None;
                },
                Some(v) => v,
            };
            scaled_int.checked_add(scaled_frac)
        },
    }
}

/// The cost of `shares` at `price`, both fixed-point: the real-number
/// product scaled back down, rounded toward zero.
pub open spec fn cost_of(shares: u64, price: u64) -> int {
    (shares * price) / (SCALE as int)
}

/// A cost is never negative.
pub proof fn lemma_cost_of_nonneg(shares: u64, price: u64)
    ensures
        cost_of(shares, price) >= 0,
{
    assert(shares * price >= 0) by (nonlinear_arith)
        requires
            shares >= 0,
            price >= 0,
    ;
}

/// Computes `cost_of` exactly; a `u128` holds any such product.
pub fn cost(shares: u64, price: u64) -> (c: u128)
    ensures
        c == cost_of(shares, price),
{
    proof {
        assert((shares as u128) * (price as u128) <= u128::MAX) by (nonlinear_arith)
            requires
                shares <= u64::MAX,
                price <= u64::MAX,
        ;
    }
    (shares as u128) * (price as u128) / (SCALE as u128)
}

} // verus!
