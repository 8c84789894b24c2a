//! Exact positive rational numbers, used as conversion-rate weights.
//!
//! A weight is a positive rational `num / den` with both components in
//! `u64`. Multiplication reduces the product by its greatest common
//! divisor; a product whose reduced form does not fit in `u64` components
//! is reported as unrepresentable (`None`).

use vstd::arithmetic::div_mod::*;
use vstd::arithmetic::mul::*;
use vstd::prelude::*;

verus! {

/// Greatest common divisor, by Euclid's rule.
pub open spec fn gcd(a: nat, b: nat) -> nat
    decreases b,
{
    if b == 0 {
        a
    } else {
        gcd(b, a % b)
    }
}

/// For `a >= 1`, `gcd(a, b)` is at least 1, at most `a`, and divides both
/// arguments.
pub proof fn lemma_gcd_properties(a: nat, b: nat)
    requires
        a >= 1,
    ensures
        1 <= gcd(a, b) <= a,
        a % gcd(a, b) == 0,
        b % gcd(a, b) == 0,
        b >= 1 ==> gcd(a, b) <= b,
    decreases b,
{
    let g = gcd(a, b);
    if b == 0 {
        lemma_mod_self_0(a as int);
        lemma_small_mod(0, a);
    } else {
        lemma_mod_decreases(a, b);
        lemma_mod_bound(a as int, b as int);
        lemma_gcd_properties(b, a % b);
        assert(g == gcd(b, a % b));
        // a == (a / b) * b + a % b, and g divides both summands.
        lemma_fundamental_div_mod(a as int, b as int);
        let q = a as int / b as int;
        lemma_mul_mod_noop_right(q, b as int, g as int);
        assert((q * (b as int)) % (g as int) == (q * ((b as int) % (g as int))) % (g as int));
        assert((q * (b as int)) % (g as int) == (q * 0) % (g as int));
        lemma_small_mod(0, g);
        lemma_add_mod_noop(q * (b as int), (a % b) as int, g as int);
        assert(a % g == 0);
        // g divides a and a >= 1, so g <= a.
        if g > a {
            lemma_small_mod(a, g);
            assert(a % g == a);
            assert(false);
        }
    }
}

/// Euclid's algorithm on `u128`.
pub fn gcd_u128(a: u128, b: u128) -> (g: u128)
    requires
        a >= 1,
    ensures
        g == gcd(a as nat, b as nat),
        g >= 1,
{
    let mut x: u128 = a;
    let mut y: u128 = b;
    while y != 0
        invariant
            x >= 1,
            gcd(x as nat, y as nat) == gcd(a as nat, b as nat),
        decreases y,
    {
        let r = x % y;
        x = y;
        y = r;
    }
    proof {
        lemma_gcd_properties(a as nat, b as nat);
    }
    x
}

/// Numerator of `p / q` after dividing out the greatest common divisor.
pub open spec fn reduced_num(p: int, q: int) -> int {
    p / (gcd(p as nat, q as nat) as int)
}

/// Denominator of `p / q` after dividing out the greatest common divisor.
pub open spec fn reduced_den(p: int, q: int) -> int {
    q / (gcd(p as nat, q as nat) as int)
}

/// Whether the reduced form of `p / q` fits in `u64` components.
pub open spec fn reduce_fits(p: int, q: int) -> bool {
    reduced_num(p, q) <= u64::MAX && reduced_den(p, q) <= u64::MAX
}

/// The reduced form of `p / q` as a `Rat`.
pub open spec fn reduce(p: int, q: int) -> Rat {
    Rat { num: reduced_num(p, q) as u64, den: reduced_den(p, q) as u64 }
}

/// A positive rational number `num / den`.
#[derive(Clone, Copy, Debug, PartialEq, Eq, Structural, Hash)]
pub struct Rat {
    pub num: u64,
    pub den: u64,
}

impl Rat {
    /// Both components are positive.
    pub open spec fn wf(self) -> bool {
        self.num >= 1 && self.den >= 1
    }

    /// `self < other` as rational numbers: `num1/den1 < num2/den2`.
    pub open spec fn lt_spec(self, other: Rat) -> bool {
        self.num * other.den < other.num * self.den
    }

    /// `self * other > 1` as rational numbers.
    pub open spec fn product_exceeds_one(self, other: Rat) -> bool {
        self.num * other.num > self.den * other.den
    }

    /// The exact product `self * other` in reduced form, or `None` if its
    /// reduced components do not fit in `u64`.
    pub open spec fn mul_spec(self, other: Rat) -> Option<Rat> {
        let p = self.num * other.num;
        let q = self.den * other.den;
        if reduce_fits(p, q) {
            Some(reduce(p, q))
        } else {
            None
        }
    }

    pub fn new(num: u64, den: u64) -> (r: Rat)
        requires
            num >= 1,
            den >= 1,
        ensures
            r == (Rat { num, den }),
            r.wf(),
    {
        Rat { num, den }
    }

    /// The rational one.
    pub fn one() -> (r: Rat)
        ensures
            r == (Rat { num: 1u64, den: 1u64 }),
            r.wf(),
    {
        Rat { num: 1, den: 1 }
    }

    /// Exact comparison by cross multiplication.
    pub fn lt(self, other: Rat) -> (r: bool)
        ensures
            r == self.lt_spec(other),
    {
        proof {
            lemma_mul_upper_bound(
                self.num as int,
                u64::MAX as int,
                other.den as int,
                u64::MAX as int,
            );
            lemma_mul_upper_bound(
                other.num as int,
                u64::MAX as int,
                self.den as int,
                u64::MAX as int,
            );
        }
        (self.num as u128) * (other.den as u128) < (other.num as u128) * (self.den as u128)
    }

    /// Exact product, reduced; `None` if the reduced form does not fit.
    pub fn checked_mul(self, other: Rat) -> (r: Option<Rat>)
        requires
            self.wf(),
            other.wf(),
        ensures
            r == self.mul_spec(other),
            r is Some ==> r->0.wf(),
    {
        proof {
            lemma_mul_upper_bound(
                self.num as int,
                u64::MAX as int,
                other.num as int,
                u64::MAX as int,
            );
            lemma_mul_upper_bound(
                self.den as int,
                u64::MAX as int,
                other.den as int,
                u64::MAX as int,
            );
            lemma_mul_strictly_positive(self.num as int, other.num as int);
            lemma_mul_strictly_positive(self.den as int, other.den as int);
        }
        let p: u128 = (self.num as u128) * (other.num as u128);
        let q: u128 = (self.den as u128) * (other.den as u128);
        let g = gcd_u128(p, q);
        proof {
            lemma_gcd_properties(p as nat, q as nat);
            // g divides q and q >= 1, so g <= q and q / g >= 1.
            lemma_div_is_ordered(g as int, q as int, g as int);
            lemma_div_by_self(g as int);
            lemma_div_is_ordered(g as int, p as int, g as int);
        }
        let pn = p / g;
        let qn = q / g;
        if pn <= u64::MAX as u128 && qn <= u64::MAX as u128 {
            Some(Rat { num: pn as u64, den: qn as u64 })
        } else {
            None
        }
    }

    /// Whether `self * other` exceeds one, by cross multiplication.
    pub fn mul_exceeds_one(self, other: Rat) -> (r: bool)
        ensures
            r == self.product_exceeds_one(other),
    {
        proof {
            lemma_mul_upper_bound(
                self.num as int,
                u64::MAX as int,
                other.num as int,
                u64::MAX as int,
            );
            lemma_mul_upper_bound(
                self.den as int,
                u64::MAX as int,
                other.den as int,
                u64::MAX as int,
            );
        }
        (self.num as u128) * (other.num as u128) > (self.den as u128) * (other.den as u128)
    }
}

/// `10^n`.
pub open spec fn pow10(n: nat) -> int
    decreases n,
{
    if n == 0 {
        1
    } else {
        10 * pow10((n - 1) as nat)
    }
}

pub proof fn lemma_pow10_pos(n: nat)
    ensures
        pow10(n) >= 1,
    decreases n,
{
    if n > 0 {
        lemma_pow10_pos((n - 1) as nat);
    }
}

pub proof fn lemma_pow10_mono(m: nat, n: nat)
    requires
        m <= n,
    ensures
        pow10(m) <= pow10(n),
    decreases n,
{
    if m < n {
        lemma_pow10_mono(m, (n - 1) as nat);
        lemma_pow10_pos((n - 1) as nat);
    }
}

pub open spec fn is_digit(c: char) -> bool {
    48 <= c as int && c as int <= 57
}

pub open spec fn digit_val(c: char) -> int {
    c as int - 48
}

pub open spec fn all_digits(s: Seq<char>) -> bool {
    forall|i: int| 0 <= i < s.len() ==> is_digit(#[trigger] s[i])
}

/// The integer the digit string denotes, most significant digit first.
pub open spec fn digits_val(s: Seq<char>) -> int
    decreases s.len(),
{
    if s.len() == 0 {
        0
    } else {
        10 * digits_val(s.drop_last()) + digit_val(s.last())
    }
}

pub proof fn lemma_digits_val_nonneg(s: Seq<char>)
    requires
        all_digits(s),
    ensures
        digits_val(s) >= 0,
    decreases s.len(),
{
    if s.len() > 0 {
        assert forall|i: int| 0 <= i < s.drop_last().len() implies is_digit(
            #[trigger] s.drop_last()[i],
        ) by {
            assert(s.drop_last()[i] == s[i]);
        }
        lemma_digits_val_nonneg(s.drop_last());
    }
}

pub proof fn lemma_digits_val_append(a: Seq<char>, b: Seq<char>)
    ensures
        digits_val(a + b) == digits_val(a) * pow10(b.len()) + digits_val(b),
    decreases b.len(),
{
    if b.len() == 0 {
        assert(a + b =~= a);
    } else {
        assert((a + b).drop_last() =~= a + b.drop_last());
        assert((a + b).last() == b.last());
        lemma_digits_val_append(a, b.drop_last());
        let x = digits_val(a);
        let p1 = pow10((b.len() - 1) as nat);
        lemma_mul_is_associative(10, x, p1);
        lemma_mul_is_commutative(10, x);
        lemma_mul_is_associative(x, 10, p1);
    }
}

/// Position `i` splits `s` into `digits '.' digits`.
pub open spec fn dec_split_ok(s: Seq<char>, i: int) -> bool {
    &&& 1 <= i
    &&& i + 1 < s.len()
    &&& s[i] == '.'
    &&& all_digits(s.subrange(0, i))
    &&& all_digits(s.subrange(i + 1, s.len() as int))
}

/// The string has the shape `digits` or `digits.digits`.
pub open spec fn dec_valid(s: Seq<char>) -> bool {
    (s.len() >= 1 && all_digits(s)) || (exists|i: int| dec_split_ok(s, i))
}

pub open spec fn dec_dot(s: Seq<char>) -> int {
    choose|i: int| dec_split_ok(s, i)
}

/// The digits of the string, the decimal point removed.
pub open spec fn dec_digits(s: Seq<char>) -> Seq<char> {
    if s.len() >= 1 && all_digits(s) {
        s
    } else {
        s.subrange(0, dec_dot(s)) + s.subrange(dec_dot(s) + 1, s.len() as int)
    }
}

/// How many digits follow the decimal point.
pub open spec fn dec_frac_len(s: Seq<char>) -> int {
    if s.len() >= 1 && all_digits(s) {
        0
    } else {
        s.len() - 1 - dec_dot(s)
    }
}

/// The positive rational a decimal string denotes, in reduced form, or
/// `None` if the string is not of the shape `digits` or `digits.digits`,
/// denotes zero, has a digit sequence above `u64::MAX`, or has more than
/// 19 fractional digits.
pub open spec fn dec_rat(s: Seq<char>) -> Option<Rat> {
    if dec_valid(s) && 1 <= digits_val(dec_digits(s)) <= u64::MAX && dec_frac_len(s) <= 19 {
        Some(reduce(digits_val(dec_digits(s)), pow10(dec_frac_len(s) as nat)))
    } else {
        None
    }
}

pub proof fn lemma_dec_split_unique(s: Seq<char>, i: int, j: int)
    requires
        dec_split_ok(s, i),
        dec_split_ok(s, j),
    ensures
        i == j,
{
    if i < j {
        assert(s.subrange(i + 1, s.len() as int)[j - (i + 1)] == s[j]);
        assert(is_digit(s[j]));
        assert(false);
    }
    if j < i {
        assert(s.subrange(j + 1, s.len() as int)[i - (j + 1)] == s[i]);
        assert(is_digit(s[i]));
        assert(false);
    }
}

proof fn lemma_dec_invalid_bad_char(s: Seq<char>, i: int)
    requires
        0 <= i < s.len(),
        !is_digit(s[i]),
        s[i] != '.',
    ensures
        !dec_valid(s),
{
    assert forall|j: int| !dec_split_ok(s, j) by {
        if dec_split_ok(s, j) {
            if j == i {
                assert(false);
            } else if i < j {
                assert(s.subrange(0, j)[i] == s[i]);
                assert(false);
            } else {
                assert(s.subrange(j + 1, s.len() as int)[i - (j + 1)] == s[i]);
                assert(false);
            }
        }
    }
}

proof fn lemma_dec_invalid_two_dots(s: Seq<char>, p: int, q: int)
    requires
        0 <= p < q < s.len(),
        s[p] == '.',
        s[q] == '.',
    ensures
        !dec_valid(s),
{
    assert(!is_digit(s[p]));
    assert forall|j: int| !dec_split_ok(s, j) by {
        if dec_split_ok(s, j) {
            if j == p {
                assert(s.subrange(p + 1, s.len() as int)[q - (p + 1)] == s[q]);
                assert(false);
            } else if p < j {
                assert(s.subrange(0, j)[p] == s[p]);
                assert(false);
            } else {
                assert(s.subrange(j + 1, s.len() as int)[p - (j + 1)] == s[p]);
                assert(false);
            }
        }
    }
}

proof fn lemma_dec_invalid_leading_dot(s: Seq<char>)
    requires
        s.len() >= 1,
        s[0] == '.',
    ensures
        !dec_valid(s),
{
    assert(!is_digit(s[0]));
    assert forall|j: int| !dec_split_ok(s, j) by {
        if dec_split_ok(s, j) {
            assert(s.subrange(0, j)[0] == s[0]);
            assert(false);
        }
    }
}

proof fn lemma_dec_invalid_trailing_dot(s: Seq<char>)
    requires
        s.len() >= 1,
        s[s.len() - 1] == '.',
    ensures
        !dec_valid(s),
{
    let e = s.len() - 1;
    assert(!is_digit(s[e]));
    assert forall|j: int| !dec_split_ok(s, j) by {
        if dec_split_ok(s, j) {
            if j < e {
                assert(s.subrange(j + 1, s.len() as int)[e - (j + 1)] == s[e]);
                assert(false);
            }
        }
    }
}

/// The digit sequence scanned so far, given the dot position (or -1).
spec fn scanned(s: Seq<char>, k: int, dotp: int) -> Seq<char> {
    if dotp == -1 {
        s.subrange(0, k)
    } else {
        s.subrange(0, dotp) + s.subrange(dotp + 1, k)
    }
}

/// A scan state consistent with a valid string can only grow: the full
/// digit sequence is the scanned prefix followed by further digits.
proof fn lemma_scan_prefix_bound(s: Seq<char>, k: int, dotp: int)
    requires
        0 <= k <= s.len(),
        dotp >= -1,
        dotp == -1 ==> all_digits(s.subrange(0, k)),
        dotp >= 0 ==> 1 <= dotp < k && s[dotp] == '.' && all_digits(s.subrange(0, dotp))
            && all_digits(s.subrange(dotp + 1, k)),
        dec_valid(s),
    ensures
        digits_val(dec_digits(s)) >= digits_val(scanned(s, k, dotp)),
{
    let seen = scanned(s, k, dotp);
    let slen = s.len() as int;
    if s.len() >= 1 && all_digits(s) {
        if dotp >= 0 {
            assert(is_digit(s[dotp]));
            assert(false);
        }
        let tail = s.subrange(k, slen);
        assert(s =~= seen + tail);
        lemma_digits_val_append(seen, tail);
        assert forall|x: int| 0 <= x < tail.len() implies is_digit(#[trigger] tail[x]) by {
            assert(tail[x] == s[k + x]);
        }
        lemma_digits_val_nonneg(tail);
        lemma_pow10_pos(tail.len());
        lemma_digits_val_nonneg(seen);
        lemma_mul_inequality(1, pow10(tail.len()), digits_val(seen));
        lemma_mul_is_commutative(digits_val(seen), pow10(tail.len()));
    } else {
        let j = dec_dot(s);
        assert(dec_split_ok(s, j));
        if dotp == -1 {
            if j < k {
                assert(s.subrange(0, k)[j] == s[j]);
                assert(is_digit(s[j]));
                assert(false);
            }
            let tail = s.subrange(k, j) + s.subrange(j + 1, slen);
            assert(dec_digits(s) =~= seen + tail);
            assert forall|x: int| 0 <= x < tail.len() implies is_digit(#[trigger] tail[x]) by {
                if x < j - k {
                    assert(tail[x] == s[k + x]);
                    assert(s.subrange(0, j)[k + x] == s[k + x]);
                } else {
                    assert(tail[x] == s.subrange(j + 1, slen)[x - (j - k)]);
                }
            }
            lemma_digits_val_append(seen, tail);
            lemma_digits_val_nonneg(tail);
            lemma_pow10_pos(tail.len());
            lemma_digits_val_nonneg(seen);
            lemma_mul_inequality(1, pow10(tail.len()), digits_val(seen));
            lemma_mul_is_commutative(digits_val(seen), pow10(tail.len()));
        } else {
            if j < dotp {
                assert(s.subrange(j + 1, slen)[dotp - (j + 1)] == s[dotp]);
                assert(is_digit(s[dotp]));
                assert(false);
            }
            if j > dotp {
                if j < k {
                    assert(s.subrange(dotp + 1, k)[j - (dotp + 1)] == s[j]);
                    assert(is_digit(s[j]));
                    assert(false);
                } else {
                    assert(s.subrange(0, j)[dotp] == s[dotp]);
                    assert(is_digit(s[dotp]));
                    assert(false);
                }
            }
            let tail = s.subrange(k, slen);
            assert(dec_digits(s) =~= seen + tail);
            assert forall|x: int| 0 <= x < tail.len() implies is_digit(#[trigger] tail[x]) by {
                assert(s.subrange(dotp + 1, slen)[k + x - (dotp + 1)] == s[k + x]);
            }
            lemma_digits_val_append(seen, tail);
            lemma_digits_val_nonneg(tail);
            lemma_pow10_pos(tail.len());
            lemma_digits_val_nonneg(seen);
            lemma_mul_inequality(1, pow10(tail.len()), digits_val(seen));
            lemma_mul_is_commutative(digits_val(seen), pow10(tail.len()));
        }
    }
}

/// A completed scan that saw a dot pins down the split, the digit
/// sequence, and the number of fractional digits.
proof fn lemma_dec_at_end(s: Seq<char>, dotp: int)
    requires
        1 <= dotp,
        dotp + 1 < s.len(),
        s[dotp] == '.',
        all_digits(s.subrange(0, dotp)),
        all_digits(s.subrange(dotp + 1, s.len() as int)),
    ensures
        dec_valid(s),
        dec_digits(s) == s.subrange(0, dotp) + s.subrange(dotp + 1, s.len() as int),
        dec_frac_len(s) == s.len() - 1 - dotp,
{
    assert(dec_split_ok(s, dotp));
    assert(!is_digit(s[dotp]));
    assert(!(s.len() >= 1 && all_digits(s)));
    let j = dec_dot(s);
    assert(dec_split_ok(s, j));
    lemma_dec_split_unique(s, j, dotp);
}

/// Parses a string of the shape `digits` or `digits.digits` as an exact
/// positive rational in reduced form. Any other shape, the value zero, a
/// digit sequence above `u64::MAX`, and more than 19 fractional digits all
/// yield `None`.
pub fn parse_positive_decimal(s: &str) -> (r: Option<Rat>)
    ensures
        r == dec_rat(s@),
        r is Some ==> r->0.wf(),
{
    let len = s.unicode_len();
    let mut i: usize = 0;
    let mut m: u64 = 0;
    let mut dot: Option<usize> = None;
    while i < len
        invariant
            len == s@.len(),
            i <= len,
            match dot {
                None => {
                    &&& all_digits(s@.subrange(0, i as int))
                    &&& m == digits_val(s@.subrange(0, i as int))
                },
                Some(p) => {
                    &&& 1 <= p < i
                    &&& s@[p as int] == '.'
                    &&& all_digits(s@.subrange(0, p as int))
                    &&& all_digits(s@.subrange(p as int + 1, i as int))
                    &&& m == digits_val(scanned(s@, i as int, p as int))
                },
            },
        decreases len - i,
    {
        let c = s.get_char(i);
        let cv = c as u32;
        let ghost dotp: int = match dot {
            None => -1,
            Some(p) => p as int,
        };
        let ghost seen = scanned(s@, i as int, dotp);
        if 48 <= cv && cv <= 57 {
            let d = (cv - 48) as u64;
            let ghost seen2 = scanned(s@, i as int + 1, dotp);
            proof {
                assert(seen2.drop_last() =~= seen);
                assert(seen2.last() == s@[i as int]);
                assert(digits_val(seen2) == 10 * digits_val(seen) + digit_val(s@[i as int]));
            }
            let m10 = match m.checked_mul(10) {
                Some(v) => v,
                None => {
                    proof {
                        if dec_valid(s@) {
                            lemma_scan_prefix_bound(s@, i as int + 1, dotp);
                            lemma_digits_val_nonneg(seen);
                        }
                    }
                    return None;
                },
            };
            let m2 = match m10.checked_add(d) {
                Some(v) => v,
                None => {
                    proof {
                        if dec_valid(s@) {
                            lemma_scan_prefix_bound(s@, i as int + 1, dotp);
                            lemma_digits_val_nonneg(seen);
                        }
                    }
                    return None;
                },
            };
            proof {
                assert forall|x: int| 0 <= x < i as int + 1 && x != dotp implies is_digit(
                    #[trigger] s@[x],
                ) by {
                    if x < i as int {
                        if dotp == -1 {
                            assert(s@.subrange(0, i as int)[x] == s@[x]);
                        } else if x < dotp {
                            assert(s@.subrange(0, dotp)[x] == s@[x]);
                        } else {
                            assert(s@.subrange(dotp + 1, i as int)[x - (dotp + 1)] == s@[x]);
                        }
                    }
                }
                assert forall|x: int| 0 <= x < i as int + 1 && dotp == -1 implies is_digit(
                    #[trigger] s@.subrange(0, i as int + 1)[x],
                ) by {
                    assert(s@.subrange(0, i as int + 1)[x] == s@[x]);
                }
                if dotp >= 0 {
                    assert forall|x: int| 0 <= x < i as int + 1 - (dotp + 1) implies is_digit(
                        #[trigger] s@.subrange(dotp + 1, i as int + 1)[x],
                    ) by {
                        assert(s@.subrange(dotp + 1, i as int + 1)[x] == s@[x + dotp + 1]);
                    }
                }
            }
            m = m2;
        } else if cv == 46 {
            if i == 0 {
                proof {
                    lemma_dec_invalid_leading_dot(s@);
                }
                return None;
            }
            match dot {
                Some(p) => {
                    proof {
                        lemma_dec_invalid_two_dots(s@, p as int, i as int);
                    }
                    return None;
                },
                None => {
                    dot = Some(i);
                    proof {
                        assert(scanned(s@, i as int + 1, i as int) =~= s@.subrange(0, i as int));
                        assert(s@.subrange(i as int + 1, i as int + 1) =~= Seq::<char>::empty());
                    }
                },
            }
        } else {
            proof {
                lemma_dec_invalid_bad_char(s@, i as int);
            }
            return None;
        }
        i += 1;
    }
    if len == 0 {
        proof {
            assert(!dec_valid(s@));
        }
        return None;
    }
    match dot {
        None => {
            proof {
                assert(s@.subrange(0, len as int) =~= s@);
            }
            if m == 0 {
                return None;
            }
            proof {
                assert(dec_valid(s@));
                assert(dec_digits(s@) == s@);
                assert(dec_frac_len(s@) == 0);
                assert(pow10(0) == 1);
                assert(m as int % 1 == 0);
                assert(gcd(m as nat, 1nat) == gcd(1nat, (m as nat) % 1nat));
                assert((m as nat) % 1nat == 0);
                assert(gcd(1nat, 0nat) == 1);
                lemma_div_basics(m as int);
                lemma_div_basics(1);
                assert(reduced_num(m as int, 1) == m as int);
                assert(reduced_den(m as int, 1) == 1);
            }
            Some(Rat { num: m, den: 1 })
        },
        Some(p) => {
            if p == len - 1 {
                proof {
                    lemma_dec_invalid_trailing_dot(s@);
                }
                return None;
            }
            proof {
                lemma_dec_at_end(s@, p as int);
            }
            let fd = len - p - 1;
            if fd > 19 {
                return None;
            }
            if m == 0 {
                return None;
            }
            let mut den: u64 = 1;
            let mut k: usize = 0;
            proof {
                assert(pow10(19) == 10 * pow10(18)) by {
                    reveal_with_fuel(pow10, 20);
                }
                assert(pow10(18) == 1000000000000000000) by {
                    reveal_with_fuel(pow10, 20);
                }
            }
            while k < fd
                invariant
                    k <= fd,
                    fd <= 19,
                    den == pow10(k as nat),
                    pow10(18) == 1000000000000000000,
                decreases fd - k,
            {
                proof {
                    lemma_pow10_mono(k as nat, 18);
                }
                den = den * 10;
                k += 1;
            }
            proof {
                lemma_pow10_mono(fd as nat, 19);
                lemma_pow10_pos(fd as nat);
            }
            let g = gcd_u128(m as u128, den as u128);
            proof {
                lemma_gcd_properties(m as nat, den as nat);
                lemma_div_is_ordered(g as int, m as int, g as int);
                lemma_div_is_ordered(g as int, den as int, g as int);
                lemma_div_by_self(g as int);
                lemma_div_nonincreasing(m as int, g as int);
                lemma_div_nonincreasing(den as int, g as int);
            }
            let num_r = ((m as u128) / g) as u64;
            let den_r = ((den as u128) / g) as u64;
            Some(Rat { num: num_r, den: den_r })
        },
    }
}

} // verus!
