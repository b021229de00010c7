//! Decimal numerals: spec-level value of a digit string, verified parsers
//! for unsigned integers and for fixed-point money amounts.
//!
//! Money is held in fixed-point with four decimal places: an amount of
//! `v` scaled units stands for `v / 10000` currency units. A money numeral is
//! a non-empty run of digits, optionally followed by `.` and one to four
//! fraction digits. This is deliberately tighter than a general real-number
//! parser: signs, exponents and more than four fraction digits are rejected
//! as malformed, which keeps every accepted amount exactly representable.

use vstd::prelude::*;
use crate::text::split_on;
use crate::text::split_str;
use crate::text::field_views;
use crate::text::lemma_split_on_nonempty;
use crate::text::lemma_split_on_at_sep;
use crate::text::lemma_split_on_no_sep;

verus! {

/// How many scaled units make one currency unit.
pub const MONEY_SCALE: u64 = 10000;

pub open spec fn is_digit(c: char) -> bool {
    48 <= c as u32 <= 57
}

pub open spec fn digit_val(c: char) -> int {
    c as u32 - 48
}

pub open spec fn all_digits(s: Seq<char>) -> bool {
    forall|i: int| 0 <= i < s.len() ==> is_digit(#[trigger] s[i])
}

/// The value of a digit string read in base ten.
pub open spec fn digits_val(s: Seq<char>) -> int
    decreases s.len(),
{
    if s.len() == 0 {
        0
    } else {
        10 * digits_val(s.drop_last()) + digit_val(s.last())
    }
}

pub open spec fn pow10(n: nat) -> int
    decreases n,
{
    if n == 0 {
        1
    } else {
        10 * pow10((n - 1) as nat)
    }
}

pub proof fn lemma_digits_val_bounds(s: Seq<char>)
    requires
        all_digits(s),
    ensures
        0 <= digits_val(s) < pow10(s.len()),
    decreases s.len(),
{
    if s.len() == 0 {
    } else {
        assert(all_digits(s.drop_last())) by {
            assert(forall|i: int|
                0 <= i < s.len() - 1 ==> s.drop_last()[i] == #[trigger] s[i]);
        }
        lemma_digits_val_bounds(s.drop_last());
        assert(is_digit(s.last()));
    }
}

/// Reading more digits never shrinks the value.
pub proof fn lemma_digits_val_prefix(s: Seq<char>, k: int)
    requires
        all_digits(s),
        0 <= k <= s.len(),
    ensures
        digits_val(s.take(k)) <= digits_val(s),
    decreases s.len() - k,
{
    if k == s.len() {
        assert(s.take(k) =~= s);
    } else {
        lemma_digits_val_prefix(s, k + 1);
        let t = s.take(k + 1);
        assert(t.drop_last() =~= s.take(k));
        assert(t.last() == s[k]);
        assert(all_digits(s.take(k))) by {
            assert(forall|i: int| 0 <= i < k ==> s.take(k)[i] == #[trigger] s[i]);
        }
        lemma_digits_val_bounds(s.take(k));
        assert(is_digit(s[k]));
        assert(digits_val(s.take(k)) <= digits_val(s.take(k + 1)));
    }
}

/// The value of a non-empty digit string, when it fits in a `u64`.
pub open spec fn spec_parse_u64(s: Seq<char>) -> Option<u64> {
    if s.len() > 0 && all_digits(s) && digits_val(s) <= u64::MAX {
        Some(digits_val(s) as u64)
    } else {
        None
    }
}

/// The value of a non-empty digit string, when it fits in a `u32`.
pub open spec fn spec_parse_u32(s: Seq<char>) -> Option<u32> {
    if s.len() > 0 && all_digits(s) && digits_val(s) <= u32::MAX {
        Some(digits_val(s) as u32)
    } else {
        None
    }
}

/// Reads a non-empty, all-digit numeral as a `u64`.
pub fn parse_u64(s: &str) -> (r: Option<u64>)
    ensures
        r == spec_parse_u64(s@),
{
    let n = s.unicode_len();
    if n == 0 {
        return None;
    }
    let mut acc: u64 = 0;
    let mut i: usize = 0;
    proof {
        assert(s@.take(0) =~= Seq::<char>::empty());
    }
    while i < n
        invariant
            0 <= i <= n,
            n == s@.len(),
            n > 0,
            forall|k: int| 0 <= k < i ==> is_digit(#[trigger] s@[k]),
            acc == digits_val(s@.take(i as int)),
        decreases n - i,
    {
        let c = s.get_char(i);
        let u = c as u32;
        if u < 48 || u > 57 {
            assert(!is_digit(s@[i as int]));
            return None;
        }
        let d = (u - 48) as u64;
        proof {
            assert(s@.take(i + 1).drop_last() =~= s@.take(i as int));
            assert(s@.take(i + 1).last() == s@[i as int]);
        }
        if acc > (u64::MAX - d) / 10 {
            proof {
                assert(10 * (acc as int) + d as int > u64::MAX) by (nonlinear_arith)
                    requires
                        acc as int > ((u64::MAX - d) as int) / 10,
                        0 <= d as int <= 9,
                ;
                assert(digits_val(s@.take(i + 1)) > u64::MAX);
                if all_digits(s@) {
                    lemma_digits_val_prefix(s@, i + 1);
                }
            }
            return None;
        }
        proof {
            assert((acc as int) * 10 + d as int <= u64::MAX) by (nonlinear_arith)
                requires
                    acc as int <= ((u64::MAX - d) as int) / 10,
                    0 <= d as int <= 9,
            ;
        }
        acc = acc * 10 + d;
        i = i + 1;
    }
    proof {
        assert(s@.take(n as int) =~= s@);
    }
    Some(acc)
}

/// Reads a non-empty, all-digit numeral as a `u32`.
pub fn parse_u32(s: &str) -> (r: Option<u32>)
    ensures
        r == spec_parse_u32(s@),
{
    match parse_u64(s) {
        Some(v) => {
            proof {
                lemma_digits_val_bounds(s@);
            }
            if v <= u32::MAX as u64 {
                Some(v as u32)
            } else {
                None
            }
        },
        None => None,
    }
}

/// The scaled value of a money numeral: `digits`, or `digits.digits` with one
/// to four fraction digits, when the scaled amount fits in a `u64`.
pub open spec fn spec_parse_money(s: Seq<char>) -> Option<u64> {
    let parts = split_on(s, '.');
    if parts.len() == 1 {
        let ip = parts[0];
        if ip.len() > 0 && all_digits(ip) && digits_val(ip) * (MONEY_SCALE as int) <= u64::MAX {
            Some((digits_val(ip) * (MONEY_SCALE as int)) as u64)
        } else {
            None
        }
    } else if parts.len() == 2 {
        let ip = parts[0];
        let fp = parts[1];
        if ip.len() > 0 && all_digits(ip) && 1 <= fp.len() <= 4 && all_digits(fp) {
            let v = digits_val(ip) * (MONEY_SCALE as int) + digits_val(fp) * pow10(
                (4 - fp.len()) as nat,
            );
            if v <= u64::MAX {
                Some(v as u64)
            } else {
                None
            }
        } else {
            None
        }
    } else {
        None
    }
}

/// The digit character of a value between zero and nine.
pub open spec fn digit_char(d: int) -> char {
    if d == 0 {
        '0'
    } else if d == 1 {
        '1'
    } else if d == 2 {
        '2'
    } else if d == 3 {
        '3'
    } else if d == 4 {
        '4'
    } else if d == 5 {
        '5'
    } else if d == 6 {
        '6'
    } else if d == 7 {
        '7'
    } else if d == 8 {
        '8'
    } else {
        '9'
    }
}

pub proof fn lemma_digit_char(d: int)
    requires
        0 <= d <= 9,
    ensures
        is_digit(digit_char(d)),
        digit_val(digit_char(d)) == d,
{
}

/// The shortest base-ten numeral of a non-negative value.
pub open spec fn render_nat(n: int) -> Seq<char>
    decreases n,
{
    if n < 10 {
        seq![digit_char(n)]
    } else {
        render_nat(n / 10).push(digit_char(n % 10))
    }
}

/// Rendering a value gives a numeral that reads back as that value.
pub proof fn lemma_render_nat(n: int)
    requires
        0 <= n,
    ensures
        render_nat(n).len() >= 1,
        all_digits(render_nat(n)),
        digits_val(render_nat(n)) == n,
    decreases n,
{
    if n < 10 {
        lemma_digit_char(n);
        let s = render_nat(n);
        assert(s.drop_last() =~= Seq::<char>::empty());
        assert(s.last() == digit_char(n));
        assert(digits_val(s) == 10 * digits_val(Seq::<char>::empty()) + digit_val(digit_char(n)));
        assert forall|i: int| 0 <= i < s.len() implies is_digit(#[trigger] s[i]) by {
            assert(s[i] == digit_char(n));
        }
    } else {
        lemma_render_nat(n / 10);
        lemma_digit_char(n % 10);
        let p = render_nat(n / 10);
        let s = p.push(digit_char(n % 10));
        assert(s.drop_last() =~= p);
        assert(s.last() == digit_char(n % 10));
        assert forall|i: int| 0 <= i < s.len() implies is_digit(#[trigger] s[i]) by {
            if i < p.len() {
                assert(s[i] == p[i]);
                assert(is_digit(p[i]));
            } else {
                assert(s[i] == digit_char(n % 10));
            }
        }
        assert(digits_val(s) == 10 * (n / 10) + n % 10);
    }
}

/// The four-digit, zero-padded numeral of a fraction value.
pub open spec fn render_frac4(f: int) -> Seq<char> {
    seq![
        digit_char(f / 1000),
        digit_char((f / 100) % 10),
        digit_char((f / 10) % 10),
        digit_char(f % 10),
    ]
}

pub proof fn lemma_render_frac4(f: int)
    requires
        0 <= f < 10000,
    ensures
        render_frac4(f).len() == 4,
        all_digits(render_frac4(f)),
        digits_val(render_frac4(f)) == f,
{
    lemma_digit_char(f / 1000);
    lemma_digit_char((f / 100) % 10);
    lemma_digit_char((f / 10) % 10);
    lemma_digit_char(f % 10);
    let s = render_frac4(f);
    let s3 = s.drop_last();
    let s2 = s3.drop_last();
    let s1 = s2.drop_last();
    assert(s1.drop_last() =~= Seq::<char>::empty());
    assert(s.last() == digit_char(f % 10));
    assert(s3.last() == digit_char((f / 10) % 10));
    assert(s2.last() == digit_char((f / 100) % 10));
    assert(s1.last() == digit_char(f / 1000));
    assert(digits_val(Seq::<char>::empty()) == 0);
    assert(digits_val(s1) == f / 1000);
    assert(digits_val(s2) == 10 * (f / 1000) + (f / 100) % 10);
    assert(digits_val(s3) == 10 * (10 * (f / 1000) + (f / 100) % 10) + (f / 10) % 10);
    assert(digits_val(s) == 10 * (10 * (10 * (f / 1000) + (f / 100) % 10) + (f / 10) % 10) + f
        % 10);
    assert(10 * (10 * (10 * (f / 1000) + (f / 100) % 10) + (f / 10) % 10) + f % 10 == f);
}

/// The canonical money numeral of a scaled amount: the whole units, a dot,
/// and the four fraction digits.
pub open spec fn render_money(v: int) -> Seq<char> {
    render_nat(v / (MONEY_SCALE as int)) + seq!['.'] + render_frac4(v % (MONEY_SCALE as int))
}

/// No digit character is `c` when `c` is not a digit.
pub proof fn lemma_digits_no_char(s: Seq<char>, c: char)
    requires
        all_digits(s),
        !is_digit(c),
    ensures
        forall|k: int| 0 <= k < s.len() ==> (#[trigger] s[k]) != c,
{
}

/// Reading back the canonical money numeral gives the amount again.
pub proof fn lemma_parse_render_money(v: u64)
    ensures
        spec_parse_money(render_money(v as int)) == Some(v),
{
    let q = (v as int) / (MONEY_SCALE as int);
    let f = (v as int) % (MONEY_SCALE as int);
    lemma_render_nat(q);
    lemma_render_frac4(f);
    let ip = render_nat(q);
    let fp = render_frac4(f);
    let s = render_money(v as int);
    assert(s == ip + seq!['.'] + fp);
    assert(!is_digit('.'));
    lemma_digits_no_char(ip, '.');
    lemma_digits_no_char(fp, '.');
    let dot = ip.len() as int;
    assert(s[dot] == '.');
    assert(forall|k: int| 0 <= k < dot ==> #[trigger] s[k] == ip[k]);
    lemma_split_on_at_sep(s, '.', 0, dot);
    assert(s.skip(0) =~= s);
    assert(s.subrange(0, dot) =~= ip);
    assert(s.skip(dot + 1) =~= fp);
    assert(forall|k: int| 0 <= k < fp.len() ==> #[trigger] fp[k] != '.');
    lemma_split_on_no_sep(fp, '.', 0);
    assert(fp.skip(0) =~= fp);
    assert(fp.subrange(0, fp.len() as int) =~= fp);
    let parts = split_on(s, '.');
    assert(parts =~= seq![ip, fp]);
    lemma_pow10_vals();
    assert(digits_val(ip) * (MONEY_SCALE as int) + digits_val(fp) * pow10((4 - fp.len()) as nat)
        == q * (MONEY_SCALE as int) + f);
    assert(q * (MONEY_SCALE as int) + f == v as int);
}

pub proof fn lemma_pow10_vals()
    ensures
        pow10(0) == 1,
        pow10(1) == 10,
        pow10(2) == 100,
        pow10(3) == 1000,
        pow10(4) == 10000,
{
    reveal_with_fuel(pow10, 5);
}

pub proof fn lemma_pow10_small(n: nat)
    requires
        n <= 4,
    ensures
        1 <= pow10(n) <= 10000,
{
    lemma_pow10_vals();
}

/// Reads a money numeral into scaled units, as `spec_parse_money` describes.
pub fn parse_money(s: &str) -> (r: Option<u64>)
    ensures
        r == spec_parse_money(s@),
{
    let parts = split_str(s, '.');
    proof {
        lemma_split_on_nonempty(s@, '.');
        assert(parts@.len() == field_views(parts@).len());
        assert(forall|j: int|
            0 <= j < parts@.len() ==> (#[trigger] parts@[j])@ == field_views(parts@)[j]);
    }
    if parts.len() == 1 {
        match parse_u64(parts[0].as_str()) {
            Some(iv) => {
                proof {
                    lemma_digits_val_bounds(field_views(parts@)[0]);
                }
                let wide: u128 = (iv as u128) * (MONEY_SCALE as u128);
                if wide <= u64::MAX as u128 {
                    Some(wide as u64)
                } else {
                    None
                }
            },
            None => {
                proof {
                    let ip = field_views(parts@)[0];
                    if ip.len() > 0 && all_digits(ip) {
                        lemma_digits_val_bounds(ip);
                        assert(digits_val(ip) * (MONEY_SCALE as int) > u64::MAX)
                            by (nonlinear_arith)
                            requires
                                digits_val(ip) > u64::MAX,
                        ;
                    }
                }
                None
            },
        }
    } else if parts.len() == 2 {
        let fp_len = parts[1].as_str().unicode_len();
        if fp_len == 0 || fp_len > 4 {
            return None;
        }
        let iv = match parse_u64(parts[0].as_str()) {
            Some(iv) => {
                proof {
                    lemma_digits_val_bounds(field_views(parts@)[0]);
                }
                iv
            },
            None => {
                proof {
                    let ip = field_views(parts@)[0];
                    let fp = field_views(parts@)[1];
                    if ip.len() > 0 && all_digits(ip) && all_digits(fp) {
                        lemma_digits_val_bounds(ip);
                        lemma_digits_val_bounds(fp);
                        lemma_pow10_small((4 - fp.len()) as nat);
                        assert(digits_val(ip) * (MONEY_SCALE as int) + digits_val(fp) * pow10(
                            (4 - fp.len()) as nat,
                        ) > u64::MAX) by (nonlinear_arith)
                            requires
                                digits_val(ip) > u64::MAX,
                                digits_val(fp) >= 0,
                                pow10((4 - fp.len()) as nat) >= 1,
                        ;
                    }
                }
                return None;
            },
        };
        let fv = match parse_u64(parts[1].as_str()) {
            Some(fv) => {
                proof {
                    lemma_digits_val_bounds(field_views(parts@)[1]);
                }
                fv
            },
            None => {
                proof {
                    let fp = field_views(parts@)[1];
                    if all_digits(fp) {
                        lemma_digits_val_bounds(fp);
                        lemma_pow10_small(fp.len() as nat);
                    }
                }
                return None;
            },
        };
        let mult: u64 = if fp_len == 1 {
            1000
        } else if fp_len == 2 {
            100
        } else if fp_len == 3 {
            10
        } else {
            1
        };
        proof {
            let fp = field_views(parts@)[1];
            lemma_pow10_vals();
            assert(mult as int == pow10((4 - fp.len()) as nat));
            assert((fv as int) * (mult as int) <= (u64::MAX as int) * 1000) by (nonlinear_arith)
                requires
                    0 <= fv as int <= u64::MAX as int,
                    0 <= mult as int <= 1000,
            ;
        }
        let wide: u128 = (iv as u128) * (MONEY_SCALE as u128) + (fv as u128) * (mult as u128);
        if wide <= u64::MAX as u128 {
            Some(wide as u64)
        } else {
            None
        }
    } else {
        None
    }
}

} // verus!
