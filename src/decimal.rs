//! Exact decimal numbers: a sign, a `u128` magnitude and a base-10 scale.
//!
//! A `Decimal` stands for `(-1)^negative * magnitude * 10^(-scale)`. Values are
//! kept normalized (no trailing zero digits in the magnitude, zero has scale 0),
//! so two decimals are numerically equal exactly when they are equal as values.
use crate::json::{digits_value, is_digit};
use std::cmp::Ordering;
use vstd::prelude::*;

verus! {

/// 10 to the power `n`.
pub open spec fn pow10(n: nat) -> int
    decreases n,
{
    if n == 0 {
        1
    } else {
        10 * pow10((n - 1) as nat)
    }
}

/// The signed integer `m` for a sign flag and a magnitude.
pub open spec fn signed(negative: bool, magnitude: int) -> int {
    if negative {
        -magnitude
    } else {
        magnitude
    }
}

/// Strip trailing zero digits from `magnitude`, lowering `scale` by one for each.
pub open spec fn strip_zeros(magnitude: nat, scale: int) -> (nat, int)
    decreases magnitude,
{
    if magnitude != 0 && magnitude % 10 == 0 {
        strip_zeros(magnitude / 10, scale - 1)
    } else {
        (magnitude, scale)
    }
}

/// The normalized decimal for `mantissa * 10^(-scale)`, where it fits the
/// representation (a magnitude of at most `u128::MAX`, a scale within `i64`).
pub open(crate) spec fn normalized(mantissa: int, scale: int) -> Option<Decimal> {
    let magnitude: nat = if mantissa < 0 { (-mantissa) as nat } else { mantissa as nat };
    let (m, s) = strip_zeros(magnitude, scale);
    if magnitude > u128::MAX {
        None
    } else if m == 0 {
        Some(Decimal { negative: false, magnitude: 0, scale: 0 })
    } else if s < i64::MIN || s > i64::MAX {
        None
    } else {
        Some(Decimal { negative: mantissa < 0, magnitude: m as u128, scale: s as i64 })
    }
}

/// The mantissa and scale that bigdecimal reads from the text `s`
/// (`None` where it rejects the text).
pub uninterp spec fn decimal_parts(s: Seq<char>) -> Option<(int, int)>;

/// Plain decimal text: ASCII digits only, or digits, a `.` at `dot` and more
/// digits (`dot` is ignored when there is no point).
pub open spec fn plain_decimal(s: Seq<char>, dot: Option<int>) -> bool {
    match dot {
        None => s.len() > 0 && forall|i: int| 0 <= i < s.len() ==> is_digit(#[trigger] s[i]),
        Some(k) => 0 < k < s.len() - 1 && s[k] == '.' && forall|i: int|
            0 <= i < s.len() && i != k ==> is_digit(#[trigger] s[i]),
    }
}

/// The mantissa and scale of plain decimal text: the value of its digits, and
/// the number of digits after the point.
pub open spec fn plain_decimal_parts(s: Seq<char>, dot: Option<int>) -> (int, int) {
    match dot {
        None => (digits_value(s), 0),
        Some(k) => (digits_value(s.take(k) + s.skip(k + 1)), s.len() - k - 1),
    }
}

/// The decimal that the text `s` denotes, where bigdecimal accepts it and
/// the value fits the representation.
pub open spec fn decimal_of(s: Seq<char>) -> Option<Decimal> {
    match decimal_parts(s) {
        Some((m, sc)) => normalized(m, sc),
        None => None,
    }
}

/// Relies on bigdecimal's `BigDecimal::from_str` (with num-bigint's `BigInt::into_parts`
/// and `ToPrimitive::to_u128` to read out its digits): the mantissa and scale of the
/// text, split into sign and magnitude. `None` where the text is rejected or the
/// magnitude does not fit in a `u128`. Plain digit text, with at most one point
/// between digits, reads as its digits and the count of digits after the point
/// (impl_num.rs `from_str_radix`: the point is dropped from the digit buffer and
/// the trailing digits give the scale; the digits go to num-bigint unchanged).
#[verifier::external_body]
fn decimal_parts_of(s: &str) -> (r: Option<(bool, u128, i64)>)
    ensures
        match r {
            Some((negative, magnitude, scale)) => {
                &&& decimal_parts(s@) == Some((signed(negative, magnitude as int), scale as int))
                &&& negative ==> magnitude > 0
                &&& forall|dot: Option<int>| #[trigger] plain_decimal(s@, dot) ==> plain_decimal_parts(s@, dot)
                    == (signed(negative, magnitude as int), scale as int)
            },
            None => {
                &&& match decimal_parts(s@) {
                    Some((m, _)) => m > u128::MAX || m < -(u128::MAX as int),
                    None => true,
                }
                &&& forall|dot: Option<int>| #[trigger] plain_decimal(s@, dot) ==> decimal_parts(s@) == Some(
                    plain_decimal_parts(s@, dot),
                )
            },
        },
{
    let (digits, scale) = <bigdecimal::BigDecimal as std::str::FromStr>::from_str(s).ok()?.into_bigint_and_exponent();
    let (sign, magnitude) = digits.into_parts();
    Some((sign == bigdecimal::num_bigint::Sign::Minus, bigdecimal::ToPrimitive::to_u128(&magnitude)?, scale))
}

/// An exact decimal number.
#[derive(Clone, Copy, Debug, PartialEq, Eq, Structural, Hash)]
pub struct Decimal {
    pub(crate) negative: bool,
    pub(crate) magnitude: u128,
    pub(crate) scale: i64,
}

impl Decimal {
    /// Normal form: zero is `0` with scale 0 and no sign; any other value has a
    /// magnitude that does not end in a zero digit.
    #[verifier::type_invariant]
    pub open(crate) spec fn is_normal(self) -> bool {
        &&& self.magnitude == 0 ==> !self.negative && self.scale == 0
        &&& self.magnitude != 0 ==> self.magnitude % 10 != 0
    }

    pub open(crate) spec fn spec_negative(self) -> bool {
        self.negative
    }

    pub open(crate) spec fn spec_magnitude(self) -> u128 {
        self.magnitude
    }

    pub open(crate) spec fn spec_scale(self) -> i64 {
        self.scale
    }

    pub open(crate) spec fn mantissa(self) -> int {
        signed(self.negative, self.magnitude as int)
    }

    /// The value times `10^k`; an integer for every `k >= self.scale`.
    pub open(crate) spec fn scaled(self, k: int) -> int {
        self.mantissa() * pow10((k - self.scale) as nat)
    }

    /// Numeric order: compare both values at a scale that makes them integers.
    pub open(crate) spec fn lt(self, other: Decimal) -> bool {
        let k = if self.scale >= other.scale { self.scale as int } else { other.scale as int };
        self.scaled(k) < other.scaled(k)
    }

    pub open(crate) spec fn le(self, other: Decimal) -> bool {
        self == other || self.lt(other)
    }

    pub open(crate) spec fn spec_is_zero(self) -> bool {
        self.magnitude == 0
    }

    pub open(crate) spec fn spec_zero() -> Decimal {
        Decimal { negative: false, magnitude: 0, scale: 0 }
    }

    /// The decimal zero.
    pub fn zero() -> (r: Decimal)
        ensures
            r == Decimal::spec_zero(),
            r.spec_is_zero(),
    {
        Decimal { negative: false, magnitude: 0, scale: 0 }
    }

    /// Build `(-1)^negative * magnitude * 10^(-scale)` in normal form; `None` where
    /// normalizing would take the scale out of `i64`.
    pub fn from_parts(negative: bool, magnitude: u128, scale: i64) -> (r: Option<Decimal>)
        ensures
            r == normalized(signed(negative, magnitude as int), scale as int),
    {
        if magnitude == 0 {
            return Some(Decimal { negative: false, magnitude: 0, scale: 0 });
        }
        let mut m: u128 = magnitude;
        let mut s: i128 = scale as i128;
        while m % 10 == 0
            invariant
                m != 0,
                s <= i64::MAX,
                s >= i64::MIN - 128,
                m * pow10((scale - s) as nat) == magnitude,
                s <= scale,
                strip_zeros(m as nat, s as int) == strip_zeros(magnitude as nat, scale as int),
            decreases m,
        {
            proof {
                lemma_pow10_succ((scale - s) as nat);
                assert(m / 10 * 10 == m);
                assert((m / 10) * pow10((scale - (s - 1)) as nat) == magnitude) by (nonlinear_arith)
                    requires
                        m / 10 * 10 == m,
                        pow10((scale - (s - 1)) as nat) == 10 * pow10((scale - s) as nat),
                        m * pow10((scale - s) as nat) == magnitude,
                ;
                lemma_strip_bound(m as nat, (scale - s) as nat, magnitude as nat);
            }
            m = m / 10;
            s = s - 1;
        }
        proof {
            let mag: nat = magnitude as nat;
            assert(signed(negative, magnitude as int) < 0 ==> -signed(negative, magnitude as int) == mag);
        }
        if s < i64::MIN as i128 {
            None
        } else {
            Some(Decimal { negative, magnitude: m, scale: s as i64 })
        }
    }

    /// Read a decimal from text with bigdecimal; `None` where bigdecimal rejects the
    /// text or the value does not fit the representation.
    pub fn parse(s: &str) -> (r: Option<Decimal>)
        ensures
            r == decimal_of(s@),
            forall|dot: Option<int>| #[trigger] plain_decimal(s@, dot) ==> r == normalized(
                plain_decimal_parts(s@, dot).0,
                plain_decimal_parts(s@, dot).1,
            ),
    {
        match decimal_parts_of(s) {
            Some((negative, magnitude, scale)) => Decimal::from_parts(negative, magnitude, scale),
            None => {
                proof {
                    match decimal_parts(s@) {
                        Some((m, sc)) => {
                            let mag: nat = if m < 0 { (-m) as nat } else { m as nat };
                            assert(mag > u128::MAX);
                        },
                        None => {},
                    }
                }
                None
            },
        }
    }

    pub fn is_negative(&self) -> (r: bool)
        ensures
            r == self.spec_negative(),
    {
        self.negative
    }

    pub fn magnitude(&self) -> (r: u128)
        ensures
            r == self.spec_magnitude(),
    {
        self.magnitude
    }

    pub fn scale(&self) -> (r: i64)
        ensures
            r == self.spec_scale(),
    {
        self.scale
    }

    pub fn is_zero(&self) -> (r: bool)
        ensures
            r == self.spec_is_zero(),
    {
        self.magnitude == 0
    }

    /// Numeric comparison.
    pub fn compare(&self, other: &Decimal) -> (r: Ordering)
        ensures
            (r == Ordering::Less) == self.lt(*other),
            (r == Ordering::Equal) == (*self == *other),
            (r == Ordering::Greater) == other.lt(*self),
    {
        proof {
            use_type_invariant(self);
            use_type_invariant(other);
            lemma_lt_total(*self, *other);
            lemma_lt_irreflexive(*self);
            lemma_lt_asymmetric(*self, *other);
        }
        if self.negative != other.negative {
            proof {
                if self.negative {
                    lemma_sign_order(*self, *other);
                } else {
                    lemma_sign_order(*other, *self);
                }
            }
            if self.negative {
                Ordering::Less
            } else {
                Ordering::Greater
            }
        } else {
            let k: Ghost<int> = Ghost(
                if self.scale >= other.scale {
                    self.scale as int
                } else {
                    other.scale as int
                },
            );
            let m = if self.scale <= other.scale {
                let d = (other.scale as i128 - self.scale as i128) as u128;
                compare_shifted(self.magnitude, d, other.magnitude)
            } else {
                let d = (self.scale as i128 - other.scale as i128) as u128;
                reverse(compare_shifted(other.magnitude, d, self.magnitude))
            };
            proof {
                assert(self.scaled(k@) == signed(self.negative, self.magnitude * pow10((k@ - self.scale) as nat)))
                    by (nonlinear_arith);
                assert(other.scaled(k@) == signed(other.negative, other.magnitude * pow10((k@ - other.scale) as nat)))
                    by (nonlinear_arith);
                lemma_pow10_zero();
            }
            if self.negative {
                reverse(m)
            } else {
                m
            }
        }
    }
}

fn reverse(o: Ordering) -> (r: Ordering)
    ensures
        (r == Ordering::Less) == (o == Ordering::Greater),
        (r == Ordering::Equal) == (o == Ordering::Equal),
        (r == Ordering::Greater) == (o == Ordering::Less),
{
    match o {
        Ordering::Less => Ordering::Greater,
        Ordering::Equal => Ordering::Equal,
        Ordering::Greater => Ordering::Less,
    }
}

/// Compare `x * 10^d` with `y`.
fn compare_shifted(x: u128, d: u128, y: u128) -> (r: Ordering)
    ensures
        (r == Ordering::Less) == (x * pow10(d as nat) < y),
        (r == Ordering::Equal) == (x * pow10(d as nat) == y),
        (r == Ordering::Greater) == (x * pow10(d as nat) > y),
{
    if x == 0 {
        proof {
            assert(x * pow10(d as nat) == 0);
        }
        return if y == 0 {
            Ordering::Equal
        } else {
            Ordering::Less
        };
    }
    let mut v: u128 = x;
    let mut i: u128 = 0;
    proof {
        lemma_pow10_zero();
    }
    while i < d
        invariant
            i <= d,
            v as int == x * pow10(i as nat),
            x > 0,
        decreases d - i,
    {
        if v > y / 10 {
            proof {
                lemma_pow10_split(i as nat, (d - i) as nat);
                lemma_pow10_at_least_ten((d - i) as nat);
                let p = pow10((d - i) as nat);
                assert(x * pow10(d as nat) == v * p) by (nonlinear_arith)
                    requires
                        v as int == x * pow10(i as nat),
                        pow10(d as nat) == pow10(i as nat) * p,
                ;
                assert(v * p >= v * 10) by (nonlinear_arith)
                    requires
                        p >= 10,
                        v >= 0,
                ;
                assert(v * 10 > y) by (nonlinear_arith)
                    requires
                        v > y / 10,
                ;
            }
            return Ordering::Greater;
        }
        proof {
            lemma_pow10_succ(i as nat);
            assert(v * 10 == x * pow10((i + 1) as nat)) by (nonlinear_arith)
                requires
                    v as int == x * pow10(i as nat),
                    pow10((i + 1) as nat) == 10 * pow10(i as nat),
            ;
            assert(v * 10 <= y) by (nonlinear_arith)
                requires
                    v <= y / 10,
            ;
        }
        v = v * 10;
        i = i + 1;
    }
    if v < y {
        Ordering::Less
    } else if v == y {
        Ordering::Equal
    } else {
        Ordering::Greater
    }
}

pub proof fn lemma_pow10_zero()
    ensures
        pow10(0) == 1,
{
    reveal_with_fuel(pow10, 1);
}

pub proof fn lemma_pow10_succ(n: nat)
    ensures
        pow10(n + 1) == 10 * pow10(n),
{
}

pub proof fn lemma_pow10_positive(n: nat)
    ensures
        pow10(n) >= 1,
    decreases n,
{
    if n > 0 {
        lemma_pow10_positive((n - 1) as nat);
    }
}

pub proof fn lemma_pow10_at_least_ten(n: nat)
    requires
        n >= 1,
    ensures
        pow10(n) >= 10,
{
    lemma_pow10_positive((n - 1) as nat);
}

pub proof fn lemma_pow10_split(a: nat, b: nat)
    ensures
        pow10(a + b) == pow10(a) * pow10(b),
    decreases b,
{
    if b > 0 {
        lemma_pow10_split(a, (b - 1) as nat);
        assert(pow10(a + b) == 10 * pow10((a + b - 1) as nat));
        assert(pow10(a) * pow10(b) == pow10(a) * (10 * pow10((b - 1) as nat)));
        assert(pow10(a) * (10 * pow10((b - 1) as nat)) == 10 * (pow10(a) * pow10((b - 1) as nat)))
            by (nonlinear_arith);
    }
}

/// Stripping a zero digit keeps the stripped count within 128 steps.
proof fn lemma_strip_bound(m: nat, k: nat, magnitude: nat)
    requires
        m != 0,
        m % 10 == 0,
        m * pow10(k) == magnitude,
        magnitude <= u128::MAX,
    ensures
        k + 1 <= 128,
{
    lemma_pow10_positive(k);
    assert(m >= 10);
    assert(m * pow10(k) >= 10 * pow10(k)) by (nonlinear_arith)
        requires
            m >= 10,
            pow10(k) >= 1,
    ;
    if k + 1 > 128 {
        lemma_pow10_monotone(39, k + 1);
        reveal_with_fuel(pow10, 40);
        assert(pow10(39) > u128::MAX);
    }
}

pub proof fn lemma_pow10_monotone(a: nat, b: nat)
    requires
        a <= b,
    ensures
        pow10(a) <= pow10(b),
    decreases b - a,
{
    if a < b {
        lemma_pow10_monotone(a, (b - 1) as nat);
        lemma_pow10_positive((b - 1) as nat);
    }
}

/// Scaling further multiplies by a power of ten.
proof fn lemma_scaled_shift(d: Decimal, k: int, j: nat)
    requires
        k >= d.scale,
    ensures
        d.scaled(k + j) == d.scaled(k) * pow10(j),
{
    lemma_pow10_split((k - d.scale) as nat, j);
    assert(((k + j) - d.scale) as nat == (k - d.scale) as nat + j);
    assert(d.mantissa() * (pow10((k - d.scale) as nat) * pow10(j)) == (d.mantissa() * pow10(
        (k - d.scale) as nat,
    )) * pow10(j)) by (nonlinear_arith);
}

/// The order may be read at any common scale.
proof fn lemma_lt_at(a: Decimal, b: Decimal, k: int)
    requires
        k >= a.scale,
        k >= b.scale,
    ensures
        a.lt(b) <==> a.scaled(k) < b.scaled(k),
{
    let m = if a.scale >= b.scale { a.scale as int } else { b.scale as int };
    let j = (k - m) as nat;
    lemma_scaled_shift(a, m, j);
    lemma_scaled_shift(b, m, j);
    lemma_pow10_positive(j);
    let p = pow10(j);
    assert(a.scaled(m) < b.scaled(m) <==> a.scaled(m) * p < b.scaled(m) * p) by (nonlinear_arith)
        requires
            p >= 1,
    ;
    assert(m + j == k);
}

pub proof fn lemma_lt_irreflexive(a: Decimal)
    ensures
        !a.lt(a),
{
}

pub proof fn lemma_lt_asymmetric(a: Decimal, b: Decimal)
    ensures
        a.lt(b) ==> !b.lt(a),
{
}

pub proof fn lemma_lt_transitive(a: Decimal, b: Decimal, c: Decimal)
    requires
        a.lt(b),
        b.lt(c),
    ensures
        a.lt(c),
{
    let k1 = if a.scale >= b.scale { a.scale as int } else { b.scale as int };
    let k = if k1 >= c.scale { k1 } else { c.scale as int };
    lemma_lt_at(a, b, k);
    lemma_lt_at(b, c, k);
    lemma_lt_at(a, c, k);
}

/// Normal forms that are numerically equal are the same value.
proof fn lemma_equal_value(a: Decimal, b: Decimal, k: int)
    requires
        a.is_normal(),
        b.is_normal(),
        a.scale <= b.scale,
        k >= b.scale,
        a.scaled(k) == b.scaled(k),
    ensures
        a == b,
{
    let j = (k - b.scale) as nat;
    let ka = b.scale as int;
    lemma_scaled_shift(a, ka, j);
    lemma_scaled_shift(b, ka, j);
    lemma_pow10_positive(j);
    let p = pow10(j);
    assert(a.scaled(ka) == b.scaled(ka)) by (nonlinear_arith)
        requires
            a.scaled(ka) * p == b.scaled(ka) * p,
            p >= 1,
    ;
    lemma_pow10_zero();
    assert(b.scaled(ka) == b.mantissa());
    let d = (b.scale - a.scale) as nat;
    if d > 0 {
        lemma_pow10_succ((d - 1) as nat);
        let q = pow10((d - 1) as nat);
        assert(a.scaled(ka) == a.mantissa() * (10 * q));
        assert(b.mantissa() == 10 * (a.mantissa() * q)) by (nonlinear_arith)
            requires
                b.mantissa() == a.mantissa() * (10 * q),
        ;
        let t = a.mantissa() * q;
        assert(b.magnitude == 10 * t || b.magnitude == 10 * (-t));
        assert(b.magnitude % 10 == 0);
        assert(b.magnitude == 0);
        lemma_pow10_positive((d - 1) as nat);
        assert(a.mantissa() == 0) by (nonlinear_arith)
            requires
                a.mantissa() * (10 * q) == 0,
                q >= 1,
        ;
        assert(false);
    } else {
        assert((ka - a.scale) as nat == 0nat);
        assert(a.scaled(ka) == a.mantissa() * 1);
        assert(a.mantissa() == b.mantissa());
    }
}

pub proof fn lemma_lt_total(a: Decimal, b: Decimal)
    requires
        a.is_normal(),
        b.is_normal(),
    ensures
        a == b || a.lt(b) || b.lt(a),
{
    let k = if a.scale >= b.scale { a.scale as int } else { b.scale as int };
    if a.scaled(k) == b.scaled(k) {
        if a.scale <= b.scale {
            lemma_equal_value(a, b, k);
        } else {
            lemma_equal_value(b, a, k);
        }
    }
}

/// A negative value lies below a value that is not negative.
proof fn lemma_sign_order(a: Decimal, b: Decimal)
    requires
        a.is_normal(),
        b.is_normal(),
        a.negative,
        !b.negative,
    ensures
        a.lt(b),
{
    let k = if a.scale >= b.scale { a.scale as int } else { b.scale as int };
    lemma_pow10_positive((k - a.scale) as nat);
    lemma_pow10_positive((k - b.scale) as nat);
    assert(a.scaled(k) < 0) by (nonlinear_arith)
        requires
            a.mantissa() < 0,
            pow10((k - a.scale) as nat) >= 1,
            a.scaled(k) == a.mantissa() * pow10((k - a.scale) as nat),
    ;
    assert(b.scaled(k) >= 0) by (nonlinear_arith)
        requires
            b.mantissa() >= 0,
            pow10((k - b.scale) as nat) >= 1,
            b.scaled(k) == b.mantissa() * pow10((k - b.scale) as nat),
    ;
}

} // verus!
