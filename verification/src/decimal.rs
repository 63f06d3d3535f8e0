//! Exact decimal numbers: a signed 96-bit mantissa and a scale of at most 28
//! decimal places. The arithmetic itself is done by `rust_decimal`; this
//! module holds the numbers as plain integers and states what each operation
//! returns.

use vstd::prelude::*;

verus! {

/// The largest scale a decimal can carry.
pub const MAX_SCALE: u32 = 28;

/// The mantissa of a decimal lies strictly between `-MANTISSA_LIMIT` and
/// `MANTISSA_LIMIT` (2^96).
pub const MANTISSA_LIMIT: i128 = 0x1_0000_0000_0000_0000_0000_0000;

/// Ten to the power `n`.
pub open spec fn pow10(n: nat) -> nat
    decreases n,
{
    if n == 0 {
        1
    } else {
        10 * pow10((n - 1) as nat)
    }
}

/// Whether `m` fits a decimal's mantissa.
pub open spec fn within_limit(m: int) -> bool {
    -MANTISSA_LIMIT < m < MANTISSA_LIMIT
}

/// What `rust_decimal` reads from a text: the mantissa and the scale of the
/// number, or `None` where it rejects the text.
pub uninterp spec fn decimal_from_text(text: Seq<char>) -> Option<(int, nat)>;

/// How `rust_decimal` prints the decimal with the given mantissa and scale.
pub uninterp spec fn decimal_text(mantissa: int, scale: nat) -> Seq<char>;

/// The mantissa and scale of the product that `rust_decimal` computes for two
/// decimals, rounded where the exact product has no representation, or
/// `None` where it overflows.
pub uninterp spec fn decimal_product(
    mantissa: int,
    scale: nat,
    other_mantissa: int,
    other_scale: nat,
) -> Option<(int, nat)>;

/// An exact decimal number `mantissa / 10^scale`.
///
/// `==` compares representations (`1.0` and `1.00` differ); the numeric order
/// and equality are those of [`Decimal::units`].
#[derive(Clone, Copy, Debug, PartialEq, Eq, Structural)]
pub struct Decimal {
    mantissa: i128,
    scale: u32,
}

impl Decimal {
    /// Every decimal that executable code holds has a mantissa of at most 96
    /// bits and a scale of at most 28.
    #[verifier::type_invariant]
    pub closed spec fn wf(self) -> bool {
        &&& within_limit(self.mantissa as int)
        &&& self.scale <= MAX_SCALE
    }

    /// The mantissa as a mathematical integer.
    pub closed spec fn spec_mantissa(self) -> int {
        self.mantissa as int
    }

    /// The number of decimal places.
    pub closed spec fn spec_scale(self) -> nat {
        self.scale as nat
    }

    /// The number in units of 10^-28: an integer for every decimal, so that
    /// numbers of different scales compare and add as integers.
    pub open spec fn units(self) -> int {
        self.spec_mantissa() * pow10((MAX_SCALE - self.spec_scale()) as nat)
    }

    /// The mantissa that the number has when written with `scale` decimal
    /// places, for a `scale` no smaller than its own.
    pub open spec fn aligned(self, scale: nat) -> int {
        self.spec_mantissa() * pow10((scale - self.spec_scale()) as nat)
    }

    /// The larger of the two scales.
    pub open spec fn joint_scale(self, other: Decimal) -> nat {
        if self.spec_scale() >= other.spec_scale() {
            self.spec_scale()
        } else {
            other.spec_scale()
        }
    }

    /// Whether `self - other` is exact: one of them is zero, or both numbers
    /// and their difference can be written at the larger of the two scales.
    pub open spec fn can_sub(self, other: Decimal) -> bool {
        ||| self.spec_mantissa() == 0
        ||| other.spec_mantissa() == 0
        ||| {
            let s = self.joint_scale(other);
            &&& within_limit(self.aligned(s))
            &&& within_limit(other.aligned(s))
            &&& within_limit(self.aligned(s) - other.aligned(s))
        }
    }

    /// The mantissa of `self - other` where [`Decimal::can_sub`] holds.
    pub open spec fn sub_mantissa(self, other: Decimal) -> int {
        if self.spec_mantissa() == 0 {
            -other.spec_mantissa()
        } else if other.spec_mantissa() == 0 {
            self.spec_mantissa()
        } else {
            let s = self.joint_scale(other);
            self.aligned(s) - other.aligned(s)
        }
    }

    /// The scale of `self - other` where [`Decimal::can_sub`] holds: that of
    /// the other operand where one is zero, else the larger of the two.
    pub open spec fn sub_scale(self, other: Decimal) -> nat {
        if self.spec_mantissa() == 0 {
            other.spec_scale()
        } else if other.spec_mantissa() == 0 {
            self.spec_scale()
        } else {
            self.joint_scale(other)
        }
    }

    /// The difference `self - other`, in the representation that the
    /// subtraction gives it. Meaningful where [`Decimal::can_sub`] holds.
    pub closed spec fn sub_spec(self, other: Decimal) -> Decimal {
        Decimal {
            mantissa: self.sub_mantissa(other) as i128,
            scale: self.sub_scale(other) as u32,
        }
    }

    /// The number with its sign changed.
    pub closed spec fn spec_neg(self) -> Decimal {
        Decimal { mantissa: (-self.mantissa) as i128, scale: self.scale }
    }

    /// Zero, with no decimal places.
    pub closed spec fn spec_zero() -> Decimal {
        Decimal { mantissa: 0, scale: 0 }
    }

    /// The largest decimal: 2^96 - 1, with no decimal places.
    pub closed spec fn spec_max() -> Decimal {
        Decimal { mantissa: (MANTISSA_LIMIT - 1) as i128, scale: 0 }
    }

    /// The decimal that `rust_decimal` reads from a text, if it reads one.
    pub closed spec fn spec_parse(text: Seq<char>) -> Option<Decimal> {
        match decimal_from_text(text) {
            Some((m, s)) => Some(Decimal { mantissa: m as i128, scale: s as u32 }),
            None => None,
        }
    }

    /// Whether the exact product has a representation: a factor is zero, or
    /// the product of the mantissas fits and the scales add up to at most 28.
    pub open spec fn can_mul(self, other: Decimal) -> bool {
        ||| self.spec_mantissa() == 0
        ||| other.spec_mantissa() == 0
        ||| (within_limit(self.spec_mantissa() * other.spec_mantissa()) && self.spec_scale()
            + other.spec_scale() <= MAX_SCALE)
    }

    /// The decimal `mantissa / 10^scale`, where it is representable.
    pub fn new(mantissa: i128, scale: u32) -> (r: Option<Decimal>)
        ensures
            r is Some <==> within_limit(mantissa as int) && scale <= MAX_SCALE,
            r matches Some(d) ==> d.spec_mantissa() == mantissa && d.spec_scale() == scale
                && d.wf(),
    {
        if -MANTISSA_LIMIT < mantissa && mantissa < MANTISSA_LIMIT && scale <= MAX_SCALE {
            Some(Decimal { mantissa, scale })
        } else {
            None
        }
    }

    /// Zero, with no decimal places.
    pub fn zero() -> (r: Decimal)
        ensures
            r == Decimal::spec_zero(),
            r.spec_mantissa() == 0,
            r.spec_scale() == 0,
            r.units() == 0,
            r.wf(),
    {
        Decimal { mantissa: 0, scale: 0 }
    }

    /// The largest decimal: 2^96 - 1, with no decimal places.
    pub fn max_value() -> (r: Decimal)
        ensures
            r == Decimal::spec_max(),
            r.spec_mantissa() == MANTISSA_LIMIT - 1,
            r.spec_scale() == 0,
            r.wf(),
    {
        outside_max()
    }

    /// The mantissa.
    pub fn mantissa(&self) -> (m: i128)
        ensures
            m == self.spec_mantissa(),
    {
        self.mantissa
    }

    /// The number of decimal places.
    pub fn scale(&self) -> (s: u32)
        ensures
            s == self.spec_scale(),
    {
        self.scale
    }

    /// Whether the number is zero.
    pub fn is_zero(&self) -> (r: bool)
        ensures
            r == (self.units() == 0),
    {
        proof {
            lemma_pow10_positive((MAX_SCALE - self.spec_scale()) as nat);
            lemma_product_sign(
                self.spec_mantissa(),
                pow10((MAX_SCALE - self.spec_scale()) as nat) as int,
            );
        }
        self.mantissa == 0
    }

    /// Whether the number is greater than zero.
    pub fn is_positive(&self) -> (r: bool)
        ensures
            r == (self.units() > 0),
    {
        proof {
            lemma_pow10_positive((MAX_SCALE - self.spec_scale()) as nat);
            lemma_product_sign(
                self.spec_mantissa(),
                pow10((MAX_SCALE - self.spec_scale()) as nat) as int,
            );
        }
        self.mantissa > 0
    }

    /// `self <= other`, as numbers.
    pub fn le(&self, other: &Decimal) -> (r: bool)
        ensures
            r == (self.units() <= other.units()),
    {
        outside_le(*self, *other)
    }

    /// `self >= other`, as numbers.
    pub fn ge(&self, other: &Decimal) -> (r: bool)
        ensures
            r == (self.units() >= other.units()),
    {
        outside_le(*other, *self)
    }

    /// `self < other`, as numbers.
    pub fn lt(&self, other: &Decimal) -> (r: bool)
        ensures
            r == (self.units() < other.units()),
    {
        !outside_le(*other, *self)
    }

    /// Whether the two are the same number, whatever their scales.
    pub fn same_value(&self, other: &Decimal) -> (r: bool)
        ensures
            r == (self.units() == other.units()),
    {
        outside_le(*self, *other) && outside_le(*other, *self)
    }

    /// The smaller of the two numbers; `self` where they are equal.
    pub fn min(self, other: Decimal) -> (r: Decimal)
        ensures
            r == if self.units() <= other.units() {
                self
            } else {
                other
            },
    {
        if outside_le(self, other) {
            self
        } else {
            other
        }
    }

    /// The number with its sign changed.
    pub fn neg(self) -> (r: Decimal)
        ensures
            r == self.spec_neg(),
            r.spec_mantissa() == -self.spec_mantissa(),
            r.spec_scale() == self.spec_scale(),
            r.units() == -self.units(),
            r.wf(),
    {
        proof {
            use_type_invariant(&self);
            lemma_pow10_positive((MAX_SCALE - self.spec_scale()) as nat);
            lemma_product_sign(
                self.spec_mantissa(),
                pow10((MAX_SCALE - self.spec_scale()) as nat) as int,
            );
        }
        Decimal { mantissa: -self.mantissa, scale: self.scale }
    }

    /// `self - other` where the difference is exact, else `None`.
    pub fn checked_sub(self, other: Decimal) -> (r: Option<Decimal>)
        ensures
            r == if self.can_sub(other) {
                Some(self.sub_spec(other))
            } else {
                None
            },
    {
        proof {
            use_type_invariant(&self);
            use_type_invariant(&other);
        }
        if self.mantissa == 0 || other.mantissa == 0 {
            return Some(outside_sub(self, other));
        }
        let joint: u32 = if self.scale >= other.scale {
            self.scale
        } else {
            other.scale
        };
        let left = scaled_mantissa(self.mantissa, joint - self.scale);
        let right = scaled_mantissa(other.mantissa, joint - other.scale);
        match (left, right) {
            (Some(a), Some(b)) => {
                let difference: i128 = a - b;
                if -MANTISSA_LIMIT < difference && difference < MANTISSA_LIMIT {
                    Some(outside_sub(self, other))
                } else {
                    None
                }
            },
            _ => None,
        }
    }

    /// The product that `rust_decimal` computes: exact where the exact product
    /// has a representation, else rounded, and `None` on overflow.
    pub fn checked_mul(self, other: Decimal) -> (r: Option<Decimal>)
        ensures
            match r {
                Some(p) => decimal_product(
                    self.spec_mantissa(),
                    self.spec_scale(),
                    other.spec_mantissa(),
                    other.spec_scale(),
                ) == Some((p.spec_mantissa(), p.spec_scale())),
                None => decimal_product(
                    self.spec_mantissa(),
                    self.spec_scale(),
                    other.spec_mantissa(),
                    other.spec_scale(),
                ) is None,
            },
            self.can_mul(other) ==> r is Some,
            self.can_mul(other) ==> r->0.units() == product_units(self, other),
    {
        let r = outside_mul(self, other);
        proof {
            if self.can_mul(other) {
                lemma_product_units(self, other, r->0);
            }
        }
        r
    }

    /// Reads a decimal literal as `rust_decimal` reads it.
    pub fn parse(text: &str) -> (r: Option<Decimal>)
        ensures
            r == Decimal::spec_parse(text@),
            match r {
                Some(d) => decimal_from_text(text@) == Some((d.spec_mantissa(), d.spec_scale())),
                None => decimal_from_text(text@) is None,
            },
    {
        outside_parse(text)
    }

    /// Prints the decimal as `rust_decimal` prints it.
    pub fn to_text(&self) -> (r: String)
        ensures
            r@ == decimal_text(self.spec_mantissa(), self.spec_scale()),
    {
        outside_text(*self)
    }
}

/// The exact product of two decimals in units of 10^-28, where the scales
/// add up to at most 28.
pub open spec fn product_units(a: Decimal, b: Decimal) -> int {
    if a.spec_mantissa() == 0 || b.spec_mantissa() == 0 {
        0
    } else {
        a.spec_mantissa() * b.spec_mantissa() * pow10(
            (MAX_SCALE - a.spec_scale() - b.spec_scale()) as nat,
        )
    }
}

/// `Decimal::MAX` of `rust_decimal`: the documented largest value,
/// 79_228_162_514_264_337_593_543_950_335, which is 2^96 - 1 at scale 0.
#[verifier::external_body]
fn outside_max() -> (r: Decimal)
    ensures
        r.spec_mantissa() == MANTISSA_LIMIT - 1,
        r.spec_scale() == 0,
{
    let d = rust_decimal::Decimal::MAX;
    Decimal { mantissa: d.mantissa(), scale: d.scale() }
}

/// `<=` of `rust_decimal::Decimal`: it orders decimals as numbers, whatever
/// their scales. The conversion cannot panic: a `Decimal` of this module is
/// within the range that `from_i128_with_scale` accepts.
#[verifier::external_body]
fn outside_le(a: Decimal, b: Decimal) -> (r: bool)
    ensures
        r == (a.units() <= b.units()),
{
    rust_decimal::Decimal::from_i128_with_scale(a.mantissa, a.scale)
        <= rust_decimal::Decimal::from_i128_with_scale(b.mantissa, b.scale)
}

/// `-` of `rust_decimal::Decimal`, on operands whose difference is exact.
/// There the result is the exact difference: with a zero operand it keeps the
/// scale of the other one, else it has the larger of the two scales. (On other
/// operands `rust_decimal` rounds; they are left out.)
#[verifier::external_body]
fn outside_sub(a: Decimal, b: Decimal) -> (r: Decimal)
    requires
        a.can_sub(b),
    ensures
        r == a.sub_spec(b),
{
    let d = rust_decimal::Decimal::from_i128_with_scale(a.mantissa, a.scale)
        - rust_decimal::Decimal::from_i128_with_scale(b.mantissa, b.scale);
    Decimal { mantissa: d.mantissa(), scale: d.scale() }
}

/// `Decimal::checked_mul` of `rust_decimal`. The result is named; where a
/// factor is zero it is zero at scale 0, and where the product of the
/// mantissas fits 96 bits and the scales add up to at most 28 it is that
/// product at the sum of the scales.
#[verifier::external_body]
fn outside_mul(a: Decimal, b: Decimal) -> (r: Option<Decimal>)
    ensures
        match r {
            Some(p) => decimal_product(
                a.spec_mantissa(),
                a.spec_scale(),
                b.spec_mantissa(),
                b.spec_scale(),
            ) == Some((p.spec_mantissa(), p.spec_scale())),
            None => decimal_product(
                a.spec_mantissa(),
                a.spec_scale(),
                b.spec_mantissa(),
                b.spec_scale(),
            ) is None,
        },
        a.spec_mantissa() == 0 || b.spec_mantissa() == 0 ==> r is Some && r->0.spec_mantissa() == 0
            && r->0.spec_scale() == 0,
        a.spec_mantissa() != 0 && b.spec_mantissa() != 0 && a.can_mul(b) ==> r is Some
            && r->0.spec_mantissa() == a.spec_mantissa() * b.spec_mantissa() && r->0.spec_scale()
            == a.spec_scale() + b.spec_scale(),
{
    let x = rust_decimal::Decimal::from_i128_with_scale(a.mantissa, a.scale);
    let y = rust_decimal::Decimal::from_i128_with_scale(b.mantissa, b.scale);
    match x.checked_mul(y) {
        Some(d) => Some(Decimal { mantissa: d.mantissa(), scale: d.scale() }),
        None => None,
    }
}

/// `from_str` of `rust_decimal::Decimal`. The result is named: a function of
/// the text alone.
#[verifier::external_body]
fn outside_parse(text: &str) -> (r: Option<Decimal>)
    ensures
        match r {
            Some(d) => decimal_from_text(text@) == Some((d.spec_mantissa(), d.spec_scale())),
            None => decimal_from_text(text@) is None,
        },
{
    match <rust_decimal::Decimal as std::str::FromStr>::from_str(text) {
        Ok(d) => Some(Decimal { mantissa: d.mantissa(), scale: d.scale() }),
        Err(_) => None,
    }
}

/// `to_string` of `rust_decimal::Decimal`. The result is named: a function of
/// the mantissa and the scale alone.
#[verifier::external_body]
fn outside_text(d: Decimal) -> (r: String)
    ensures
        r@ == decimal_text(d.spec_mantissa(), d.spec_scale()),
{
    rust_decimal::Decimal::from_i128_with_scale(d.mantissa, d.scale).to_string()
}

/// `10^k` for a `k` up to the largest scale.
fn power_of_ten(k: u32) -> (r: i128)
    requires
        k <= MAX_SCALE,
    ensures
        r == pow10(k as nat),
        1 <= r <= 10_000_000_000_000_000_000_000_000_000,
{
    let mut r: i128 = 1;
    let mut i: u32 = 0;
    while i < k
        invariant
            i <= k <= MAX_SCALE,
            r == pow10(i as nat),
        decreases k - i,
    {
        proof {
            lemma_pow10_monotonic(i as nat, 27);
            lemma_pow10_28();
        }
        r = r * 10;
        i = i + 1;
    }
    proof {
        lemma_pow10_monotonic(k as nat, 28);
        lemma_pow10_positive(k as nat);
        lemma_pow10_28();
    }
    r
}

/// `mantissa * 10^k`, where that fits a mantissa.
fn scaled_mantissa(mantissa: i128, k: u32) -> (r: Option<i128>)
    requires
        k <= MAX_SCALE,
    ensures
        r == if within_limit(mantissa * pow10(k as nat)) {
            Some((mantissa * pow10(k as nat)) as i128)
        } else {
            None::<i128>
        },
{
    let p: i128 = power_of_ten(k);
    match mantissa.checked_mul(p) {
        Some(v) => {
            if -MANTISSA_LIMIT < v && v < MANTISSA_LIMIT {
                Some(v)
            } else {
                None
            }
        },
        None => None,
    }
}

/// Powers of ten are positive.
pub proof fn lemma_pow10_positive(n: nat)
    ensures
        pow10(n) >= 1,
    decreases n,
{
    if n > 0 {
        lemma_pow10_positive((n - 1) as nat);
    }
}

/// Powers of ten grow with the exponent.
pub proof fn lemma_pow10_monotonic(a: nat, b: nat)
    requires
        a <= b,
    ensures
        pow10(a) <= pow10(b),
    decreases b,
{
    if a < b {
        lemma_pow10_monotonic(a, (b - 1) as nat);
    }
}

/// `10^a * 10^b == 10^(a + b)`.
pub proof fn lemma_pow10_add(a: nat, b: nat)
    ensures
        pow10(a) * pow10(b) == pow10(a + b),
    decreases a,
{
    if a > 0 {
        let x = pow10((a - 1) as nat);
        let y = pow10(b);
        lemma_pow10_add((a - 1) as nat, b);
        assert(x * y == pow10((a - 1 + b) as nat));
        assert(pow10(a) == 10 * x);
        assert(pow10(a + b) == 10 * pow10((a + b - 1) as nat));
        assert((10 * x) * y == 10 * (x * y)) by (nonlinear_arith);
        assert(pow10(a) * pow10(b) == (10 * x) * y);
    } else {
        assert(pow10(0) == 1);
        assert(a + b == b);
    }
}

/// The values of `10^27` and `10^28`.
proof fn lemma_pow10_28()
    ensures
        pow10(27) == 1_000_000_000_000_000_000_000_000_000,
        pow10(28) == 10_000_000_000_000_000_000_000_000_000,
{
    assert(pow10(7) == 10_000_000) by {
        reveal_with_fuel(pow10, 8);
    }
    lemma_pow10_add(7, 7);
    lemma_pow10_add(14, 7);
    lemma_pow10_add(21, 6);
    assert(pow10(6) == 1_000_000) by {
        reveal_with_fuel(pow10, 7);
    }
    lemma_pow10_add(21, 7);
}

/// The sign of a product with a positive factor is that of the other factor.
proof fn lemma_product_sign(m: int, p: int)
    requires
        p >= 1,
    ensures
        (m * p == 0) == (m == 0),
        (m * p > 0) == (m > 0),
        (-m) * p == -(m * p),
{
    assert((m * p == 0) == (m == 0) && (m * p > 0) == (m > 0) && (-m) * p == -(m * p))
        by (nonlinear_arith)
        requires
            p >= 1,
    ;
}

/// An exact difference is the difference of the numbers, and is a decimal.
pub proof fn lemma_sub_units(a: Decimal, b: Decimal)
    requires
        a.wf(),
        b.wf(),
        a.can_sub(b),
    ensures
        a.sub_spec(b).wf(),
        a.sub_spec(b).spec_mantissa() == a.sub_mantissa(b),
        a.sub_spec(b).spec_scale() == a.sub_scale(b),
        a.sub_spec(b).units() == a.units() - b.units(),
{
    let pa = pow10((MAX_SCALE - a.spec_scale()) as nat) as int;
    let pb = pow10((MAX_SCALE - b.spec_scale()) as nat) as int;
    let ma = a.spec_mantissa();
    let mb = b.spec_mantissa();
    if ma == 0 {
        assert(ma * pa == 0) by (nonlinear_arith)
            requires
                ma == 0,
        ;
        assert((-mb) * pb == -(mb * pb)) by (nonlinear_arith);
    } else if mb == 0 {
        assert(mb * pb == 0) by (nonlinear_arith)
            requires
                mb == 0,
        ;
    } else {
        let s = a.joint_scale(b);
        lemma_aligned_units(a, s);
        lemma_aligned_units(b, s);
        let p = pow10((MAX_SCALE - s) as nat) as int;
        let x = a.aligned(s);
        let y = b.aligned(s);
        assert((x - y) * p == x * p - y * p) by (nonlinear_arith);
        assert(a.sub_spec(b).spec_mantissa() == x - y);
        assert(a.sub_spec(b).spec_scale() == s);
    }
}

/// A decimal can be subtracted from itself, and zero is left.
pub proof fn lemma_sub_self(a: Decimal)
    requires
        a.wf(),
    ensures
        a.can_sub(a),
        a.sub_spec(a).units() == 0,
{
    assert(pow10(0) == 1);
    assert(a.aligned(a.spec_scale()) == a.spec_mantissa()) by (nonlinear_arith)
        requires
            a.aligned(a.spec_scale()) == a.spec_mantissa() * 1,
    ;
    lemma_sub_units(a, a);
}

/// Two decimals that are the same number can be subtracted, whatever their
/// scales, and zero is left.
pub proof fn lemma_sub_same(a: Decimal, b: Decimal)
    requires
        a.wf(),
        b.wf(),
        a.units() == b.units(),
    ensures
        a.can_sub(b),
        a.sub_spec(b).wf(),
        a.sub_spec(b).units() == 0,
{
    if a.spec_mantissa() != 0 && b.spec_mantissa() != 0 {
        let s = a.joint_scale(b);
        lemma_aligned_units(a, s);
        lemma_aligned_units(b, s);
        let p = pow10((MAX_SCALE - s) as nat) as int;
        lemma_pow10_positive((MAX_SCALE - s) as nat);
        let x = a.aligned(s);
        let y = b.aligned(s);
        assert(x == y) by (nonlinear_arith)
            requires
                x * p == y * p,
                p > 0,
        ;
        assert(pow10(0) == 1);
        if a.spec_scale() >= b.spec_scale() {
            assert(x == a.spec_mantissa()) by (nonlinear_arith)
                requires
                    x == a.spec_mantissa() * 1,
            ;
        } else {
            assert(y == b.spec_mantissa()) by (nonlinear_arith)
                requires
                    y == b.spec_mantissa() * 1,
            ;
        }
    }
    lemma_sub_units(a, b);
}

/// Zero and the largest decimal are decimals.
pub proof fn lemma_constants()
    ensures
        Decimal::spec_zero().wf(),
        Decimal::spec_zero().units() == 0,
        Decimal::spec_max().wf(),
        Decimal::spec_max().units() > 0,
{
    lemma_pow10_positive(MAX_SCALE as nat);
    lemma_product_sign(MANTISSA_LIMIT - 1, pow10(MAX_SCALE as nat) as int);
    lemma_product_sign(0, pow10(MAX_SCALE as nat) as int);
}

/// Changing the sign of a decimal changes the sign of the number.
pub proof fn lemma_neg_units(a: Decimal)
    requires
        a.wf(),
    ensures
        a.spec_neg().units() == -a.units(),
        a.spec_neg().wf(),
{
    assert((-a.spec_mantissa()) * pow10((MAX_SCALE - a.spec_scale()) as nat) == -(
    a.spec_mantissa() * pow10((MAX_SCALE - a.spec_scale()) as nat))) by (nonlinear_arith);
}

/// A number written with more decimal places is the same number.
proof fn lemma_aligned_units(a: Decimal, s: nat)
    requires
        a.spec_scale() <= s <= MAX_SCALE,
    ensures
        a.aligned(s) * pow10((MAX_SCALE - s) as nat) == a.units(),
{
    let up = (s - a.spec_scale()) as nat;
    let down = (MAX_SCALE - s) as nat;
    lemma_pow10_add(up, down);
    let m = a.spec_mantissa();
    let x = pow10(up) as int;
    let y = pow10(down) as int;
    assert((m * x) * y == m * (x * y)) by (nonlinear_arith);
}

/// Where a product is exact, its value in units is the exact product.
proof fn lemma_product_units(a: Decimal, b: Decimal, p: Decimal)
    requires
        a.can_mul(b),
        a.spec_mantissa() == 0 || b.spec_mantissa() == 0 ==> p.spec_mantissa() == 0,
        a.spec_mantissa() != 0 && b.spec_mantissa() != 0 ==> p.spec_mantissa() == a.spec_mantissa()
            * b.spec_mantissa() && p.spec_scale() == a.spec_scale() + b.spec_scale(),
    ensures
        p.units() == product_units(a, b),
{
}

} // verus!
