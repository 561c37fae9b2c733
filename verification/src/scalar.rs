//! The scalar domain of the expression language: fixed-point decimal
//! numbers with six fractional digits, stored as a count of millionths.
//!
//! Addition and subtraction saturate at the representable bounds.
//! Multiplication and division compute the exact rational result and
//! truncate it toward zero, saturating when it is out of range; division
//! by zero saturates in the direction of the dividend's sign (zero for a
//! zero dividend).

use vstd::prelude::*;

verus! {

/// Millionths in one unit: the denominator of every `Scalar`.
pub const SCALE: i64 = 1_000_000;

/// A scalar value: `micros` millionths of a unit.
#[derive(Clone, Copy, Debug, PartialEq, Eq, Structural)]
pub struct Scalar {
    pub micros: i64,
}

/// Clamps a mathematical integer into the representable micro range.
pub open spec fn sat(x: int) -> int {
    if x > i64::MAX as int {
        i64::MAX as int
    } else if x < i64::MIN as int {
        i64::MIN as int
    } else {
        x
    }
}

/// The magnitude of an integer.
pub open spec fn mag(x: int) -> nat {
    if x >= 0 {
        x as nat
    } else {
        (-x) as nat
    }
}

/// Saturating addition of two micro counts.
pub open spec fn spec_add(a: int, b: int) -> int {
    sat(a + b)
}

/// Saturating subtraction of two micro counts.
pub open spec fn spec_sub(a: int, b: int) -> int {
    sat(a - b)
}

/// Applies a sign to a magnitude and clamps into the micro range.
pub open spec fn signed_sat(q: nat, neg: bool) -> int {
    if neg {
        sat(-(q as int))
    } else {
        sat(q as int)
    }
}

/// Product of two scalars in micros: the exact rational product,
/// truncated toward zero and clamped.
pub open spec fn spec_mul(a: int, b: int) -> int {
    signed_sat((mag(a) * mag(b)) / (SCALE as nat), (a < 0) != (b < 0))
}

/// Quotient of two scalars in micros: the exact rational quotient,
/// truncated toward zero and clamped; a zero divisor saturates by the
/// dividend's sign.
pub open spec fn spec_div(a: int, b: int) -> int {
    if b == 0 {
        if a > 0 {
            i64::MAX as int
        } else if a < 0 {
            i64::MIN as int
        } else {
            0
        }
    } else {
        signed_sat((mag(a) * (SCALE as nat)) / mag(b), (a < 0) != (b < 0))
    }
}


/// Digit classification of one character.
pub open spec fn is_digit_char(c: char) -> bool {
    '0' as u32 <= c as u32 && c as u32 <= '9' as u32
}

/// The numeric value of a digit character.
pub open spec fn digit_val(c: char) -> int {
    c as u32 - '0' as u32
}

/// The character of one digit value.
pub open spec fn digit_char(d: int) -> char {
    if d == 0 {
        '0'
    } else if d == 1 {
        '1'
    } else if d == 2 {
        '2'
    } else if d == 3 {
        '3'
    } else if d == 4 {
        '4'
    } else if d == 5 {
        '5'
    } else if d == 6 {
        '6'
    } else if d == 7 {
        '7'
    } else if d == 8 {
        '8'
    } else {
        '9'
    }
}

/// The decimal digits of a number, most significant first.
pub open spec fn spec_digits(n: nat) -> Seq<char>
    decreases n,
{
    if n < 10 {
        seq![digit_char(n as int)]
    } else {
        spec_digits(n / 10) + seq![digit_char((n % 10) as int)]
    }
}

/// The value of a run of digit characters (zero for the empty run).
pub open spec fn digits_value(s: Seq<char>) -> nat
    decreases s.len(),
{
    if s.len() == 0 {
        0
    } else {
        digits_value(s.drop_last()) * 10 + (if is_digit_char(s.last()) {
            digit_val(s.last()) as nat
        } else {
            0
        })
    }
}

/// A fractional digit run padded or cut to exactly six places.
pub open spec fn pad6(s: Seq<char>) -> Seq<char> {
    Seq::new(6, |i: int| if i < s.len() { s[i] } else { '0' })
}

/// The value in micros of a fractional digit run: its first six digits.
pub open spec fn frac_value(s: Seq<char>) -> nat {
    digits_value(pad6(s))
}

/// The six digits of a fraction of a unit, most significant first.
pub open spec fn frac6(f: nat) -> Seq<char> {
    seq![
        digit_char(((f / 100000nat) % 10) as int),
        digit_char(((f / 10000nat) % 10) as int),
        digit_char(((f / 1000nat) % 10) as int),
        digit_char(((f / 100nat) % 10) as int),
        digit_char(((f / 10nat) % 10) as int),
        digit_char((f % 10) as int),
    ]
}

/// Trailing zeros removed, but at least one digit kept.
pub open spec fn trim_zeros(s: Seq<char>) -> Seq<char>
    decreases s.len(),
{
    if s.len() <= 1 {
        s
    } else if s.last() == '0' {
        trim_zeros(s.drop_last())
    } else {
        s
    }
}

/// The canonical decimal text of a scalar of `m` micros: an optional
/// sign, the whole units, a point, and the fraction with trailing
/// zeros trimmed (at least one fractional digit).
pub open spec fn spec_scalar_text(m: int) -> Seq<char> {
    let mag = mag(m);
    let whole = spec_digits(mag / 1000000nat);
    let frac = trim_zeros(frac6(mag % 1000000nat));
    if m < 0 {
        seq!['-'] + whole + seq!['.'] + frac
    } else {
        whole + seq!['.'] + frac
    }
}

/// The first index at or after `j` holding no digit (the run's end).
pub open spec fn digit_run_end(s: Seq<char>, j: int) -> int
    decreases s.len() - j,
{
    if j < 0 || j >= s.len() {
        s.len() as int
    } else if is_digit_char(s[j]) {
        digit_run_end(s, j + 1)
    } else {
        j
    }
}

/// The value of a scalar text: an optional minus sign, a digit run, and
/// an optional point with a further digit run, holding at least one
/// digit in all; the value is the exact rational, truncated to micros
/// and clamped into the representable range.
pub open spec fn spec_parse_scalar(t: Seq<char>) -> Option<int> {
    let neg = t.len() > 0 && t[0] == '-';
    let s = if neg {
        t.drop_first()
    } else {
        t
    };
    let e1 = digit_run_end(s, 0);
    let d1 = s.take(e1);
    if e1 == s.len() {
        if s.len() > 0 {
            Some(signed_sat(digits_value(d1) * 1000000, neg))
        } else {
            None
        }
    } else if s[e1] == '.' {
        let d2 = s.subrange(e1 + 1, s.len() as int);
        if digit_run_end(d2, 0) == d2.len() && s.len() > 1 {
            Some(signed_sat(digits_value(d1) * 1000000 + frac_value(d2), neg))
        } else {
            None
        }
    } else {
        None
    }
}

impl Scalar {
    /// The value of this scalar, as a count of millionths.
    pub open spec fn as_micros(&self) -> int {
        self.micros as int
    }

    pub fn new(micros: i64) -> (s: Scalar)
        ensures
            s.as_micros() == micros,
    {
        Scalar { micros }
    }

    /// The scalar closest to zero, i.e. exactly zero.
    pub fn zero() -> (s: Scalar)
        ensures
            s.as_micros() == 0,
    {
        Scalar { micros: 0 }
    }

    /// The magnitude of a micro count, exactly (also for `i64::MIN`).
    fn magnitude(x: i64) -> (m: u64)
        ensures
            m as nat == mag(x as int),
    {
        if x >= 0 {
            x as u64
        } else if x == i64::MIN {
            9223372036854775808u64
        } else {
            (-x) as u64
        }
    }

    /// Rebuilds a scalar from a magnitude and a sign, clamping.
    fn from_mag(q: u128, neg: bool) -> (r: Scalar)
        ensures
            r.as_micros() == signed_sat(q as nat, neg),
    {
        if neg {
            if q >= 9223372036854775808u128 {
                Scalar { micros: i64::MIN }
            } else {
                Scalar { micros: -(q as i64) }
            }
        } else {
            if q > i64::MAX as u128 {
                Scalar { micros: i64::MAX }
            } else {
                Scalar { micros: q as i64 }
            }
        }
    }

    /// Saturating addition.
    pub fn add(&self, other: &Scalar) -> (r: Scalar)
        ensures
            r.as_micros() == spec_add(self.as_micros(), other.as_micros()),
    {
        match self.micros.checked_add(other.micros) {
            Some(m) => Scalar { micros: m },
            None => if self.micros > 0 {
                Scalar { micros: i64::MAX }
            } else {
                Scalar { micros: i64::MIN }
            },
        }
    }

    /// Saturating subtraction.
    pub fn sub(&self, other: &Scalar) -> (r: Scalar)
        ensures
            r.as_micros() == spec_sub(self.as_micros(), other.as_micros()),
    {
        match self.micros.checked_sub(other.micros) {
            Some(m) => Scalar { micros: m },
            None => if self.micros >= 0 {
                Scalar { micros: i64::MAX }
            } else {
                Scalar { micros: i64::MIN }
            },
        }
    }

    /// Truncating, saturating multiplication.
    pub fn mul(&self, other: &Scalar) -> (r: Scalar)
        ensures
            r.as_micros() == spec_mul(self.as_micros(), other.as_micros()),
    {
        let neg = (self.micros < 0) != (other.micros < 0);
        let am = Self::magnitude(self.micros);
        let bm = Self::magnitude(other.micros);
        assert((am as u128) * (bm as u128) <= u128::MAX) by (nonlinear_arith)
            requires
                am <= u64::MAX,
                bm <= u64::MAX,
        ;
        let p: u128 = (am as u128) * (bm as u128);
        let q: u128 = p / 1_000_000u128;
        Self::from_mag(q, neg)
    }

    /// Truncating, saturating division; a zero divisor saturates by the
    /// dividend's sign.
    pub fn div(&self, other: &Scalar) -> (r: Scalar)
        ensures
            r.as_micros() == spec_div(self.as_micros(), other.as_micros()),
    {
        if other.micros == 0 {
            if self.micros > 0 {
                Scalar { micros: i64::MAX }
            } else if self.micros < 0 {
                Scalar { micros: i64::MIN }
            } else {
                Scalar { micros: 0 }
            }
        } else {
            let neg = (self.micros < 0) != (other.micros < 0);
            let am = Self::magnitude(self.micros);
            let bm = Self::magnitude(other.micros);
            assert((am as u128) * 1_000_000u128 <= u128::MAX) by (nonlinear_arith)
                requires
                    am <= u64::MAX,
            ;
            let p: u128 = (am as u128) * 1_000_000u128;
            let q: u128 = p / (bm as u128);
            Self::from_mag(q, neg)
        }
    }
}


/// Trimming keeps exactly the digits up to the last nonzero one.
proof fn lemma_trim(s: Seq<char>, k: int)
    requires
        1 <= k <= s.len(),
        forall|j: int| k <= j < s.len() ==> s[j] == '0',
        k > 1 ==> s[k - 1] != '0',
    ensures
        trim_zeros(s) == s.take(k),
    decreases s.len(),
{
    if s.len() <= 1 {
        assert(s.take(k) =~= s);
    } else if k == s.len() {
        assert(s.take(k) =~= s);
    } else {
        assert(s.last() == '0');
        lemma_trim(s.drop_last(), k);
        assert(s.drop_last().take(k) =~= s.take(k));
    }
}

/// One digit as static text.
fn digit_str(d: u64) -> (r: &'static str)
    requires
        d < 10,
    ensures
        r@ =~= seq![digit_char(d as int)],
{
    proof {
        reveal_strlit("0");
        reveal_strlit("1");
        reveal_strlit("2");
        reveal_strlit("3");
        reveal_strlit("4");
        reveal_strlit("5");
        reveal_strlit("6");
        reveal_strlit("7");
        reveal_strlit("8");
        reveal_strlit("9");
    }
    match d {
        0 => "0",
        1 => "1",
        2 => "2",
        3 => "3",
        4 => "4",
        5 => "5",
        6 => "6",
        7 => "7",
        8 => "8",
        _ => "9",
    }
}

/// Appends the decimal digits of `n`, most significant first.
fn push_digits(s: &mut String, n: u64)
    ensures
        final(s)@ == old(s)@ + spec_digits(n as nat),
    decreases n,
{
    if n < 10 {
        let d = digit_str(n);
        s.append(d);
    } else {
        push_digits(s, n / 10);
        let d = digit_str(n % 10);
        s.append(d);
        proof {
            assert(final(s)@ =~= old(s)@ + spec_digits(n as nat));
        }
    }
}

/// Digit test on one character.
fn is_digit_c(c: char) -> (r: bool)
    ensures
        r == is_digit_char(c),
{
    let u = c as u32;
    48 <= u && u <= 57
}

impl Scalar {
    /// The canonical decimal text of this scalar.
    #[verifier::loop_isolation(false)]
    pub fn to_text(&self) -> (r: String)
        ensures
            r@ == spec_scalar_text(self.as_micros()),
    {
        let mut s = String::new();
        if self.micros < 0 {
            s.append("-");
            proof {
                reveal_strlit("-");
                assert(s@ =~= seq!['-']);
            }
        }
        let m = Self::magnitude(self.micros);
        push_digits(&mut s, m / 1000000);
        s.append(".");
        proof {
            reveal_strlit(".");
        }
        let f = m % 1000000;
        let mut digs: Vec<u64> = Vec::new();
        digs.push(f / 100000 % 10);
        digs.push(f / 10000 % 10);
        digs.push(f / 1000 % 10);
        digs.push(f / 100 % 10);
        digs.push(f / 10 % 10);
        digs.push(f % 10);
        let ghost fs = frac6(f as nat);
        proof {
            assert(fs.len() == 6);
            assert forall|j: int| 0 <= j < 6 implies fs[j] == digit_char(
                digs@[j] as int,
            ) by {}
        }
        let mut k: usize = 6;
        while k > 1 && digs[k - 1] == 0
            invariant
                1 <= k <= 6,
                forall|j: int| k <= j < 6 ==> digs@[j] == 0,
            decreases k,
        {
            k -= 1;
        }
        proof {
            assert forall|j: int| k <= j < 6 implies fs[j] == '0' by {}
            if k > 1 {
                assert(fs[k - 1] != '0');
            }
            lemma_trim(fs, k as int);
        }
        let ghost base = s@;
        let mut j: usize = 0;
        while j < k
            invariant
                j <= k,
                s@ == base + fs.take(j as int),
            decreases k - j,
        {
            let d = digit_str(digs[j]);
            s.append(d);
            proof {
                assert(base + fs.take(j as int) + fs.subrange(j as int, j + 1) =~= base
                    + fs.take(j + 1));
                assert(fs.subrange(j as int, j + 1) =~= seq![fs[j as int]]);
            }
            j += 1;
        }
        proof {
            assert(s@ =~= spec_scalar_text(self.as_micros()));
        }
        s
    }
}


/// An upper bound on the value of `k` digits.
pub open spec fn dv_cap(k: int) -> nat {
    if k <= 0 {
        1
    } else if k == 1 {
        10
    } else if k == 2 {
        100
    } else if k == 3 {
        1000
    } else if k == 4 {
        10000
    } else if k == 5 {
        100000
    } else {
        1000000
    }
}

/// A digit extends a digit run by one place.
proof fn lemma_digits_step(s: Seq<char>, j: int)
    requires
        0 <= j < s.len(),
    ensures
        digits_value(s.take(j + 1)) == digits_value(s.take(j)) * 10 + (
        if is_digit_char(s[j]) {
            digit_val(s[j]) as nat
        } else {
            0
        }),
{
    assert(s.take(j + 1).drop_last() =~= s.take(j));
    assert(s.take(j + 1).last() == s[j]);
}

impl Scalar {
    /// Parses the decimal text of a scalar: an optional minus sign,
    /// digits, and optionally a point with further digits, at least one
    /// digit in all. The value is truncated to micros and clamped.
    #[verifier::loop_isolation(false)]
    #[verifier::rlimit(60)]
    pub fn from_text(t: &str) -> (r: Option<Scalar>)
        ensures
            match r {
                Some(v) => spec_parse_scalar(t@) == Some(v.as_micros()),
                None => spec_parse_scalar(t@) is None,
            },
    {
        let n = t.unicode_len();
        let neg = n > 0 && t.get_char(0) == '-';
        let off: usize = if neg {
            1
        } else {
            0
        };
        let ghost sv = if neg {
            t@.drop_first()
        } else {
            t@
        };
        proof {
            assert(sv.len() == n - off);
            assert(forall|j: int| 0 <= j < sv.len() ==> sv[j] == t@[j + off as int]);
        }
        let big: u64 = 10_000_000_000_000;
        let mut acc: u64 = 0;
        let mut i: usize = off;
        while i < n && is_digit_c(t.get_char(i))
            invariant
                off <= i <= n,
                digit_run_end(sv, 0) == digit_run_end(sv, i - off),
                acc as nat == (if digits_value(sv.take((i - off) as int)) >= big as nat {
                    big as nat
                } else {
                    digits_value(sv.take((i - off) as int))
                }),
                acc <= big,
            decreases n - i,
        {
            let d = (t.get_char(i) as u32 - 48) as u64;
            proof {
                lemma_digits_step(sv, (i - off) as int);
            }
            if acc >= big {
                acc = big;
            } else {
                let x = acc * 10 + d;
                acc = if x >= big {
                    big
                } else {
                    x
                };
            }
            i += 1;
        }
        let ghost e1 = digit_run_end(sv, 0);
        proof {
            assert(e1 == i - off);
        }
        let ghost d1v = digits_value(sv.take((i - off) as int));
        if i == n {
            if n > off {
                proof {
                    Self::lemma_clamped(acc as nat, d1v, 0, big as nat);
                }
                Some(Self::from_mag(acc as u128 * 1000000, neg))
            } else {
                None
            }
        } else if t.get_char(i) == '.' {
            let ghost d2 = sv.subrange(e1 + 1, sv.len() as int);
            let frac_start = i + 1;
            let mut f: u64 = 0;
            let mut cnt: usize = 0;
            let mut i2: usize = frac_start;
            while i2 < n && is_digit_c(t.get_char(i2))
                invariant
                    frac_start <= i2 <= n,
                    cnt == i2 - frac_start,
                    frac_start == i + 1,
                    i == e1 + off,
                    forall|j: int| 0 <= j < d2.len() ==> d2[j] == sv[e1 + 1 + j],
                    d2.len() == n - frac_start,
                    forall|j: int| 0 <= j < cnt ==> is_digit_char(d2[j]),
                    f as nat == digits_value(d2.take(if cnt <= 6 {
                        cnt as int
                    } else {
                        6
                    })),
                    (f as nat) < dv_cap((if cnt <= 6 {
                        cnt as int
                    } else {
                        6
                    })),
                decreases n - i2,
            {
                let d = (t.get_char(i2) as u32 - 48) as u64;
                if cnt < 6 {
                    proof {
                        lemma_digits_step(d2, cnt as int);
                    }
                    f = f * 10 + d;
                }
                cnt += 1;
                i2 += 1;
            }
            if i2 < n {
                proof {
                    assert(!is_digit_char(d2[(i2 - frac_start) as int]));
                    assert(digit_run_end(d2, 0) != d2.len()) by {
                        Self::lemma_run_stops(d2, 0, (i2 - frac_start) as int);
                    }
                }
                return None;
            }
            if n <= off + 1 {
                return None;
            }
            proof {
                Self::lemma_run_all(d2, 0);
            }
            let mut cnt2: usize = if cnt > 6 {
                6
            } else {
                cnt
            };
            proof {
                assert(pad6(d2).take(cnt2 as int) =~= d2.take(cnt2 as int));
            }
            while cnt2 < 6
                invariant
                    cnt2 <= 6,
                    cnt2 < 6 ==> d2.len() <= cnt2,
                    f as nat == digits_value(pad6(d2).take(cnt2 as int)),
                    (f as nat) < dv_cap(cnt2 as int),
                decreases 6 - cnt2,
            {
                proof {
                    lemma_digits_step(pad6(d2), cnt2 as int);
                    assert(pad6(d2)[cnt2 as int] == '0');
                }
                f = f * 10;
                cnt2 += 1;
            }
            proof {
                assert(pad6(d2).take(6) =~= pad6(d2));
                if d2.len() >= 6 {
                    assert(pad6(d2) =~= d2.take(6));
                }
                Self::lemma_clamped(acc as nat, d1v, f as nat, big as nat);
            }
            Some(Self::from_mag(acc as u128 * 1000000 + f as u128, neg))
        } else {
            None
        }
    }

    /// A clamped whole part saturates exactly as the true value does.
    proof fn lemma_clamped(acc: nat, d1v: nat, f: nat, big: nat)
        requires
            big == 10_000_000_000_000,
            acc == (if d1v >= big {
                big
            } else {
                d1v
            }),
            f < 1000000,
        ensures
            signed_sat(acc * 1000000 + f, true) == signed_sat(d1v * 1000000 + f, true),
            signed_sat(acc * 1000000 + f, false) == signed_sat(d1v * 1000000 + f, false),
    {
        if d1v >= big {
            assert(d1v * 1000000 >= big * 1000000) by (nonlinear_arith)
                requires
                    d1v >= big,
            ;
        }
    }

    /// A run that hits a non-digit ends no later than that character.
    proof fn lemma_run_stops(s: Seq<char>, j: int, k: int)
        requires
            0 <= j <= k < s.len(),
            forall|p: int| j <= p < k ==> is_digit_char(s[p]),
            !is_digit_char(s[k]),
        ensures
            digit_run_end(s, j) == k,
        decreases k - j,
    {
        if j < k {
            Self::lemma_run_stops(s, j + 1, k);
        }
    }

    /// A run of digits reaching the end scans to the end.
    proof fn lemma_run_all(s: Seq<char>, j: int)
        requires
            0 <= j <= s.len(),
            forall|p: int| j <= p < s.len() ==> is_digit_char(s[p]),
        ensures
            digit_run_end(s, j) == s.len(),
        decreases s.len() - j,
    {
        if j < s.len() {
            Self::lemma_run_all(s, j + 1);
        }
    }
}


/// Every character of a decimal rendering is a digit.
proof fn lemma_digits_are_digits(n: nat)
    ensures
        forall|i: int| 0 <= i < spec_digits(n).len() ==> is_digit_char(#[trigger] spec_digits(n)[i]),
        spec_digits(n).len() >= 1,
    decreases n,
{
    if n >= 10 {
        lemma_digits_are_digits(n / 10);
    }
}

/// A digit character reads back as its digit.
proof fn lemma_digit_char_val(d: int)
    requires
        0 <= d <= 9,
    ensures
        is_digit_char(digit_char(d)),
        digit_val(digit_char(d)) == d,
{
}

/// Reading the decimal rendering of a number gives the number back.
proof fn lemma_digits_value_of_digits(n: nat)
    ensures
        digits_value(spec_digits(n)) == n,
    decreases n,
{
    if n < 10 {
        lemma_digit_char_val(n as int);
        assert(digits_value(Seq::<char>::empty()) == 0);
        assert(spec_digits(n).drop_last() =~= Seq::<char>::empty());
        assert(spec_digits(n).last() == digit_char(n as int));
    } else {
        lemma_digit_char_val((n % 10) as int);
        lemma_digits_value_of_digits(n / 10);
        assert(spec_digits(n).drop_last() =~= spec_digits(n / 10));
    }
}

/// Trimming yields a nonempty prefix of the digits.
proof fn lemma_trim_prefix(s: Seq<char>)
    requires
        s.len() >= 1,
    ensures
        1 <= trim_zeros(s).len() <= s.len(),
        forall|i: int| 0 <= i < trim_zeros(s).len() ==> #[trigger] trim_zeros(s)[i] == s[i],
    decreases s.len(),
{
    if s.len() > 1 && s.last() == '0' {
        lemma_trim_prefix(s.drop_last());
    }
}

/// Trimming trailing zeros keeps the six-place value.
proof fn lemma_trim_value(s: Seq<char>)
    requires
        s.len() <= 6,
    ensures
        digits_value(pad6(trim_zeros(s))) == digits_value(pad6(s)),
    decreases s.len(),
{
    if s.len() > 1 && s.last() == '0' {
        lemma_trim_value(s.drop_last());
        assert(pad6(s.drop_last()) =~= pad6(s));
    }
}

/// The six fraction digits of `f` read back as `f`.
proof fn lemma_frac6_value(f: nat)
    requires
        f < 1000000,
    ensures
        digits_value(pad6(frac6(f))) == f,
{
    let s = frac6(f);
    assert(pad6(s) =~= s);
    lemma_digit_char_val((f % 10) as int);
    lemma_digit_char_val(((f / 10) % 10) as int);
    lemma_digit_char_val(((f / 100) % 10) as int);
    lemma_digit_char_val(((f / 1000) % 10) as int);
    lemma_digit_char_val(((f / 10000) % 10) as int);
    lemma_digit_char_val(((f / 100000) % 10) as int);
    let d5 = f % 10;
    let d4 = (f / 10) % 10;
    let d3 = (f / 100) % 10;
    let d2 = (f / 1000) % 10;
    let d1 = (f / 10000) % 10;
    let d0 = (f / 100000) % 10;
    assert(s.drop_last() =~= seq![
        digit_char(d0 as int),
        digit_char(d1 as int),
        digit_char(d2 as int),
        digit_char(d3 as int),
        digit_char(d4 as int),
    ]);
    assert(digits_value(s) == digits_value(s.drop_last()) * 10 + d5);
    let s4 = s.drop_last().drop_last();
    assert(s.drop_last().drop_last() =~= seq![
        digit_char(d0 as int),
        digit_char(d1 as int),
        digit_char(d2 as int),
        digit_char(d3 as int),
    ]);
    let s3 = s4.drop_last();
    assert(s4.drop_last() =~= seq![
        digit_char(d0 as int),
        digit_char(d1 as int),
        digit_char(d2 as int),
    ]);
    let s2 = s3.drop_last();
    assert(s3.drop_last() =~= seq![digit_char(d0 as int), digit_char(d1 as int)]);
    let s1 = s2.drop_last();
    assert(s2.drop_last() =~= seq![digit_char(d0 as int)]);
    assert(s1.drop_last() =~= Seq::<char>::empty());
    assert(digits_value(Seq::<char>::empty()) == 0);
    assert(s1.last() == digit_char(d0 as int));
    assert(digits_value(s1) == d0);
    assert(digits_value(s2) == d0 * 10 + d1);
    assert(digits_value(s3) == (d0 * 10 + d1) * 10 + d2);
    assert(digits_value(s4) == ((d0 * 10 + d1) * 10 + d2) * 10 + d3);
    assert(f == (f / 10) * 10 + f % 10);
    assert(f / 10 == (f / 100) * 10 + (f / 10) % 10) by (nonlinear_arith);
    assert(f / 100 == (f / 1000) * 10 + (f / 100) % 10) by (nonlinear_arith);
    assert(f / 1000 == (f / 10000) * 10 + (f / 1000) % 10) by (nonlinear_arith);
    assert(f / 10000 == (f / 100000) * 10 + (f / 10000) % 10) by (nonlinear_arith);
    assert(f / 100000 < 10);
}

/// The canonical text of a scalar parses back to the same value: the
/// textual round trip is exact on the scalar domain.
pub proof fn lemma_scalar_text_round_trip(m: int)
    requires
        i64::MIN <= m <= i64::MAX,
    ensures
        spec_parse_scalar(spec_scalar_text(m)) == Some(m),
{
    let mg = mag(m);
    let w = mg / 1000000nat;
    let f = mg % 1000000nat;
    let whole = spec_digits(w);
    let frac = trim_zeros(frac6(f));
    let t = spec_scalar_text(m);
    let body = whole + seq!['.'] + frac;
    lemma_digits_are_digits(w);
    lemma_trim_prefix(frac6(f));
    assert(frac.len() >= 1 && frac6(f).len() == 6);
    assert forall|i: int| 0 <= i < frac.len() implies is_digit_char(#[trigger] frac[i]) by {
        assert(frac[i] == frac6(f)[i]);
        assert(is_digit_char(frac6(f)[i]));
    }
    if m < 0 {
        assert(t =~= seq!['-'] + body);
        assert(t[0] == '-');
        assert(t.drop_first() =~= body);
    } else {
        assert(t =~= body);
        assert(t[0] == whole[0]);
        assert(is_digit_char(t[0]));
        assert(t[0] != '-');
    }
    let sv = if m < 0 {
        t.drop_first()
    } else {
        t
    };
    assert(sv =~= body);
    // the whole part is the full leading digit run
    assert forall|p: int| 0 <= p < whole.len() implies is_digit_char(#[trigger] sv[p]) by {
        assert(sv[p] == whole[p]);
    }
    assert(!is_digit_char(sv[whole.len() as int])) by {
        assert(sv[whole.len() as int] == '.');
    }
    Scalar::lemma_run_stops(sv, 0, whole.len() as int);
    let e1 = digit_run_end(sv, 0);
    assert(e1 == whole.len());
    assert(sv.take(e1) =~= whole);
    assert(sv[e1] == '.');
    let d2 = sv.subrange(e1 + 1, sv.len() as int);
    assert(d2 =~= frac);
    Scalar::lemma_run_all(d2, 0);
    assert(sv.len() > 1);
    lemma_digits_value_of_digits(w);
    lemma_trim_value(frac6(f));
    lemma_frac6_value(f);
    assert(frac_value(d2) == f);
    assert(digits_value(sv.take(e1)) * 1000000 + frac_value(d2) == w * 1000000 + f);
    assert(w * 1000000 + f == mg) by (nonlinear_arith)
        requires
            w == mg / 1000000nat,
            f == mg % 1000000nat,
    ;
    assert(signed_sat(mg, m < 0) == m);
}

} // verus!
