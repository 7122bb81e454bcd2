//! IEEE 754 binary64 numbers, handled by their bit patterns.
use vstd::arithmetic::power2::{
    lemma_pow2_adds, lemma_pow2_pos, lemma_pow2_strictly_increases, lemma_pow2_unfold, pow2,
};
use vstd::prelude::*;

verus! {

/// The weight of the exponent field, which is also the hidden bit of a normal number.
pub const HIDDEN: u64 = 0x0010_0000_0000_0000;

/// The sign bit.
pub const SIGN: u64 = 0x8000_0000_0000_0000;

/// The bit pattern of positive infinity.
pub const INFINITY: u64 = 0x7ff0_0000_0000_0000;

/// The scale of the unsigned pattern `x`: its significand counts units of `2^scale` times the
/// smallest positive number.
pub open spec fn scale(x: u64) -> nat {
    if x < HIDDEN {
        0
    } else {
        (x / HIDDEN - 1) as nat
    }
}

/// The significand of the unsigned pattern `x`, hidden bit and all.
pub open spec fn significand(x: u64) -> nat {
    if x < HIDDEN {
        x as nat
    } else {
        (HIDDEN + x % HIDDEN) as nat
    }
}

/// The number that the unsigned pattern `x` stands for, in units of the smallest positive number
/// (which is `2^-1074`). Infinity comes out larger than every finite number.
pub open spec fn magnitude(x: u64) -> nat {
    significand(x) * pow2(scale(x))
}

/// How far apart two magnitudes are.
pub open spec fn distance(a: nat, b: nat) -> nat {
    if a <= b {
        (b - a) as nat
    } else {
        (a - b) as nat
    }
}

/// `r` is the finite unsigned pattern nearest to the magnitude `n`, and the even one of two that
/// are equally near.
pub open spec fn is_nearest(n: nat, r: u64) -> bool {
    &&& r < INFINITY
    &&& forall|x: u64| #![trigger magnitude(x)]
        x < INFINITY && x != r ==> {
            ||| distance(magnitude(r), n) < distance(magnitude(x), n)
            ||| distance(magnitude(r), n) == distance(magnitude(x), n) && r % 2 == 0
        }
}

/// The finite unsigned pattern nearest to `n`, ties to even.
pub open spec fn nearest(n: nat) -> u64 {
    choose|r: u64| is_nearest(n, r)
}

proof fn lemma_split(x: u64)
    ensures
        x == scale(x) * HIDDEN + significand(x),
        significand(x) < 2 * HIDDEN,
        significand(x) >= HIDDEN || scale(x) == 0,
{
}

proof fn lemma_pack(s: nat, q: nat, x: u64)
    requires
        x == s * HIDDEN + q,
        q <= 2 * HIDDEN,
        q >= HIDDEN || s == 0,
    ensures
        magnitude(x) == q * pow2(s),
        q < 2 * HIDDEN ==> scale(x) == s && significand(x) == q,
{
    if q < HIDDEN {
        assert(s == 0);
    } else if q < 2 * HIDDEN {
        assert(x / HIDDEN == s + 1 && x % HIDDEN == q - HIDDEN);
    } else {
        assert(x / HIDDEN == s + 2 && x % HIDDEN == 0);
        assert(scale(x) == s + 1);
        assert(significand(x) == HIDDEN);
        lemma_pow2_unfold(s + 1);
        assert(pow2(s + 1) == 2 * pow2(s));
        assert(HIDDEN * (2 * pow2(s)) == (2 * HIDDEN) * pow2(s)) by (nonlinear_arith);
    }
}

/// Consecutive patterns are one unit of the lower one's scale apart.
proof fn lemma_step(x: u64)
    requires
        x < u64::MAX,
    ensures
        magnitude((x + 1) as u64) == magnitude(x) + pow2(scale(x)),
{
    lemma_split(x);
    lemma_pack(scale(x), significand(x) + 1, (x + 1) as u64);
    assert((significand(x) + 1) * pow2(scale(x)) == significand(x) * pow2(scale(x)) + pow2(
        scale(x),
    )) by (nonlinear_arith);
}

/// Unsigned patterns are ordered as the numbers they stand for.
pub proof fn lemma_magnitude_monotone(x: u64, y: u64)
    requires
        x < y,
    ensures
        magnitude(x) < magnitude(y),
    decreases y - x,
{
    lemma_step((y - 1) as u64);
    lemma_pow2_pos(scale((y - 1) as u64));
    if x < y - 1 {
        lemma_magnitude_monotone(x, (y - 1) as u64);
    }
}

proof fn lemma_magnitude_zero()
    ensures
        magnitude(0) == 0,
{
    assert(0 * pow2(0) == 0) by (nonlinear_arith);
}

/// The nearest pattern to `n`, given the pattern just below it and what `n` exceeds it by.
proof fn lemma_nearest_between(n: nat, lo: u64, up: bool)
    requires
        lo < INFINITY,
        magnitude(lo) <= n < magnitude(lo) + pow2(scale(lo)),
        up ==> lo + 1 < INFINITY,
        ({
            let over = 2 * (n - magnitude(lo));
            let gap = pow2(scale(lo));
            up <==> (over > gap || over == gap && lo % 2 == 1)
        }),
    ensures
        is_nearest(n, if up { (lo + 1) as u64 } else { lo }),
{
    let hi = (lo + 1) as u64;
    let r = if up { hi } else { lo };
    lemma_step(lo);
    assert forall|x: u64| #![trigger magnitude(x)] x < INFINITY && x != r implies {
        ||| distance(magnitude(r), n) < distance(magnitude(x), n)
        ||| distance(magnitude(r), n) == distance(magnitude(x), n) && r % 2 == 0
    } by {
        if x < lo {
            lemma_magnitude_monotone(x, lo);
        } else if x > hi {
            lemma_magnitude_monotone(hi, x);
        }
    }
}

/// No number has two nearest patterns.
proof fn lemma_nearest_unique(n: nat, a: u64, b: u64)
    requires
        is_nearest(n, a),
        is_nearest(n, b),
    ensures
        a == b,
{
    if a != b {
        let lo = if a < b { a } else { b };
        let hi = if a < b { b } else { a };
        assert(distance(magnitude(a), n) == distance(magnitude(b), n));
        lemma_magnitude_monotone(lo, hi);
        let mid = (lo + 1) as u64;
        assert(mid < hi);
        lemma_magnitude_monotone(lo, mid);
        lemma_magnitude_monotone(mid, hi);
        assert(distance(magnitude(mid), n) < distance(magnitude(a), n));
    }
}

proof fn lemma_nearest_is(n: nat, r: u64)
    requires
        is_nearest(n, r),
    ensures
        nearest(n) == r,
{
    lemma_nearest_unique(n, nearest(n), r);
}

/// The pattern just below `n`, searched from `top` down.
proof fn lemma_floor(n: nat, top: u64) -> (lo: u64)
    requires
        top < INFINITY,
        n < magnitude((top + 1) as u64),
    ensures
        lo <= top,
        magnitude(lo) <= n < magnitude((lo + 1) as u64),
    decreases top,
{
    if magnitude(top) <= n {
        top
    } else {
        lemma_magnitude_zero();
        lemma_floor(n, (top - 1) as u64)
    }
}

/// Every magnitude up to that of a finite pattern has a nearest pattern, not above that one.
proof fn lemma_nearest_exists(n: nat, top: u64)
    requires
        top < INFINITY,
        n <= magnitude(top),
    ensures
        is_nearest(n, nearest(n)),
        nearest(n) <= top,
{
    lemma_step(top);
    lemma_pow2_pos(scale(top));
    let lo = lemma_floor(n, top);
    lemma_step(lo);
    lemma_pow2_pos(scale(lo));
    let over = 2 * (n - magnitude(lo));
    let gap = pow2(scale(lo));
    let up = over > gap || over == gap && lo % 2 == 1;
    lemma_nearest_between(n, lo, up);
    lemma_nearest_is(n, if up { (lo + 1) as u64 } else { lo });
}

/// A binary64 number, given by its bit pattern; `==` compares patterns.
#[derive(Clone, Copy, Debug, PartialEq, Eq, Structural)]
pub struct Binary64 {
    pub bits: u64,
}

impl Binary64 {
    /// The pattern without its sign.
    pub open spec fn unsigned(self) -> u64 {
        self.bits % SIGN
    }

    pub open spec fn negative(self) -> bool {
        self.bits >= SIGN
    }

    pub open spec fn nan(self) -> bool {
        self.unsigned() > INFINITY
    }

    /// Positive or negative infinity.
    pub open spec fn infinite(self) -> bool {
        self.unsigned() == INFINITY
    }

    /// The number itself, in units of the smallest positive number; it means nothing for a NaN.
    pub open spec fn value(self) -> int {
        if self.negative() {
            -(magnitude(self.unsigned()) as int)
        } else {
            magnitude(self.unsigned()) as int
        }
    }

    /// Greater than zero, which no NaN is.
    pub open spec fn positive(self) -> bool {
        !self.nan() && self.value() > 0
    }

    /// Less than or equal to zero, which no NaN is.
    pub open spec fn nonpositive(self) -> bool {
        !self.nan() && self.value() <= 0
    }

    /// Positive infinity or a NaN: what no finite amount can use up.
    pub open spec fn boundless(self) -> bool {
        self.nan() || self.infinite() && !self.negative()
    }

    /// The smaller of two numbers, and the other one where one is a NaN.
    pub open spec fn lesser(self, other: Binary64) -> Binary64 {
        if self.nan() || !other.nan() && other.value() < self.value() {
            other
        } else {
            self
        }
    }

    /// `self` minus `other`, rounded to the nearest number and to the even one of two, for a finite
    /// `other` that is not greater than `self`. A boundless `self` stays as it is.
    pub open spec fn minus(self, other: Binary64) -> Binary64 {
        if self.boundless() {
            self
        } else {
            Binary64 { bits: nearest((self.value() - other.value()) as nat) }
        }
    }

    /// The order of prices: numbers by value, with the two zeros equal, and every NaN equal to
    /// every other and above all numbers.
    pub open spec fn price_below(self, other: Binary64) -> bool {
        !self.nan() && (other.nan() || self.value() < other.value())
    }
}

/// `x` is a whole number of units of `2^k` times the smallest positive number, and at most `2^53`
/// of them.
pub open spec fn on_grid(x: Binary64, k: nat) -> bool {
    &&& x.bits < INFINITY
    &&& exists|m: nat| m <= 2 * HIDDEN && x.value() == #[trigger] (m * pow2(k))
}

/// A magnitude on a grid is that of some pattern.
proof fn lemma_representable(n: nat, top: u64, m: nat, k: nat)
    requires
        top < INFINITY,
        n <= magnitude(top),
        m <= 2 * HIDDEN,
        n == m * pow2(k),
    ensures
        magnitude(nearest(n)) == n,
        nearest(n) <= top,
{
    lemma_step(top);
    lemma_pow2_pos(scale(top));
    let lo = lemma_floor(n, top);
    let s = scale(lo);
    let gap = pow2(s);
    lemma_step(lo);
    lemma_pow2_pos(s);
    lemma_split(lo);
    if s <= k {
        lemma_pow2_adds(s, (k - s) as nat);
        let times = m * pow2((k - s) as nat);
        assert(n == times * gap) by (nonlinear_arith)
            requires
                n == m * pow2(k),
                pow2(k) == gap * pow2((k - s) as nat),
                times == m * pow2((k - s) as nat),
        ;
        assert(times == significand(lo)) by (nonlinear_arith)
            requires
                significand(lo) * gap <= times * gap < significand(lo) * gap + gap,
                gap > 0,
        ;
    } else {
        lemma_pow2_unfold(s);
        if k < s - 1 {
            lemma_pow2_strictly_increases(k, (s - 1) as nat);
        }
        assert(n <= magnitude(lo)) by (nonlinear_arith)
            requires
                n == m * pow2(k),
                m <= 2 * HIDDEN,
                magnitude(lo) == significand(lo) * gap,
                significand(lo) >= HIDDEN,
                gap >= 2 * pow2(k),
        ;
    }
    lemma_nearest_exists(n, top);
    assert(magnitude(lo) == n);
    assert(distance(magnitude(lo), n) == 0);
    if nearest(n) != lo {
        assert(distance(magnitude(nearest(n)), n) == 0);
    }
}

/// On a grid, taking one amount off another is exact.
pub proof fn lemma_exact(a: Binary64, b: Binary64, k: nat)
    requires
        on_grid(a, k),
        on_grid(b, k),
        b.value() <= a.value(),
    ensures
        a.minus(b).value() == a.value() - b.value(),
        on_grid(a.minus(b), k),
{
    let m = choose|m: nat| m <= 2 * HIDDEN && a.value() == #[trigger] (m * pow2(k));
    let q = choose|q: nat| q <= 2 * HIDDEN && b.value() == #[trigger] (q * pow2(k));
    lemma_pow2_pos(k);
    assert(q <= m) by (nonlinear_arith)
        requires
            q * pow2(k) <= m * pow2(k),
            pow2(k) > 0,
    ;
    let d = (m - q) as nat;
    let n = (a.value() - b.value()) as nat;
    assert(d * pow2(k) == m * pow2(k) - q * pow2(k)) by (nonlinear_arith)
        requires
            d == m - q,
    ;
    lemma_representable(n, a.bits, d, k);
}

/// A number that orders and identifies a price: see `lemma_price_key`.
pub open spec fn price_key(x: Binary64) -> u64 {
    if x.nan() {
        u64::MAX
    } else if x.negative() {
        (SIGN - x.unsigned()) as u64
    } else {
        (SIGN + x.unsigned()) as u64
    }
}

/// Keys are ordered as prices are.
pub proof fn lemma_price_key(a: Binary64, b: Binary64)
    ensures
        price_key(a) < price_key(b) <==> a.price_below(b),
        price_key(a) == price_key(b) <==> !a.price_below(b) && !b.price_below(a),
{
    lemma_sign(a);
    lemma_sign(b);
    let (x, y) = (a.unsigned(), b.unsigned());
    if x < y {
        lemma_magnitude_monotone(x, y);
    } else if y < x {
        lemma_magnitude_monotone(y, x);
    }
}

/// The sign of a number is that of its value.
pub proof fn lemma_sign(x: Binary64)
    ensures
        x.value() > 0 <==> !x.negative() && x.unsigned() > 0,
        x.value() < 0 <==> x.negative() && x.unsigned() > 0,
{
    lemma_magnitude_zero();
    if x.unsigned() > 0 {
        lemma_magnitude_monotone(0, x.unsigned());
    }
}

/// Taking an equal amount off leaves zero; taking less off leaves something positive and finite.
pub proof fn lemma_minus(a: Binary64, b: Binary64)
    requires
        a.positive(),
        b.positive(),
        !b.infinite(),
        b.value() <= a.value(),
    ensures
        a.infinite() ==> a.minus(b) == a,
        !a.infinite() ==> is_nearest((a.value() - b.value()) as nat, a.minus(b).bits),
        !a.infinite() && b.value() == a.value() ==> a.minus(b).bits == 0,
        !a.infinite() && b.value() < a.value() ==> a.minus(b).positive() && !a.minus(b).infinite(),
{
    lemma_sign(a);
    lemma_sign(b);
    if !a.infinite() {
        let n = (a.value() - b.value()) as nat;
        let r = a.minus(b);
        lemma_nearest_exists(n, a.bits);
        lemma_sign(r);
        lemma_magnitude_zero();
        if n == 0 {
            if r.bits != 0 {
                lemma_magnitude_monotone(0, r.bits);
                assert(distance(magnitude(0), n) == 0);
            }
        } else if r.bits == 0 {
            assert(magnitude(1) == 1) by {
                lemma_step(0);
                vstd::arithmetic::power2::lemma2_to64();
            }
            assert(distance(magnitude(1), n) < distance(magnitude(0), n));
        }
    }
}

impl Binary64 {
    /// The number with the given bit pattern.
    pub fn from_bits(bits: u64) -> (r: Binary64)
        ensures
            r.bits == bits,
    {
        Binary64 { bits }
    }

    fn abs_bits(self) -> (r: u64)
        ensures
            r == self.unsigned(),
    {
        self.bits % SIGN
    }

    pub fn is_nan(self) -> (r: bool)
        ensures
            r == self.nan(),
    {
        self.abs_bits() > INFINITY
    }

    pub fn is_infinite(self) -> (r: bool)
        ensures
            r == self.infinite(),
    {
        self.abs_bits() == INFINITY
    }

    /// Whether the number is greater than zero.
    pub fn is_positive(self) -> (r: bool)
        ensures
            r == self.positive(),
    {
        proof {
            lemma_sign(self);
        }
        0 < self.bits && self.bits <= INFINITY
    }

    /// Whether the number is less than or equal to zero.
    pub fn is_nonpositive(self) -> (r: bool)
        ensures
            r == self.nonpositive(),
    {
        proof {
            lemma_sign(self);
        }
        !self.is_nan() && (self.bits >= SIGN || self.bits == 0)
    }
}

/// The key of a price.
pub fn price_of(x: Binary64) -> (r: u64)
    ensures
        r == price_key(x),
{
    if x.is_nan() {
        u64::MAX
    } else if x.bits >= SIGN {
        SIGN - x.abs_bits()
    } else {
        SIGN + x.abs_bits()
    }
}

/// The nearest pattern to `m * 2^s`.
fn round_scaled(m: u128, s: u64, Ghost(top): Ghost<u64>) -> (r: u64)
    requires
        m < 0x1000_0000_0000_0000_0000_0000_0000,
        s < 2046,
        top < INFINITY,
        m * pow2(s as nat) <= magnitude(top),
    ensures
        is_nearest((m * pow2(s as nat)) as nat, r),
{
    let ghost n = (m * pow2(s as nat)) as nat;
    let mut whole: u128 = m;
    let mut power: u64 = s;
    while whole < HIDDEN as u128 && power > 0
        invariant
            whole * pow2(power as nat) == n,
            whole < 0x1000_0000_0000_0000_0000_0000_0000,
            power <= s < 2046,
        decreases power,
    {
        proof {
            lemma_pow2_unfold(power as nat);
            let half = pow2((power - 1) as nat);
            assert(whole * (2 * half) == (whole * 2) * half) by (nonlinear_arith);
        }
        whole = whole * 2;
        power = power - 1;
    }
    let ghost base = whole;
    let ghost base_power = power as nat;
    let mut rest: u128 = 0;
    let mut unit: u128 = 1;
    proof {
        assert(pow2(0) == 1) by {
            vstd::arithmetic::power2::lemma2_to64();
        }
    }
    while whole >= 2 * (HIDDEN as u128)
        invariant
            base == whole * unit + rest,
            base < 0x1000_0000_0000_0000_0000_0000_0000,
            rest < unit,
            base_power <= power,
            base_power < 2046,
            unit == pow2((power - base_power) as nat),
            power - base_power < unit,
            unit <= 0x100_0000_0000_0000,
            whole >= HIDDEN || power == 0,
        decreases whole,
    {
        let ghost (old_whole, old_unit) = (whole, unit);
        let odd: u128 = whole % 2;
        proof {
            lemma_pow2_unfold((power - base_power + 1) as nat);
            assert(whole == 2 * (whole / 2) + odd);
            let half: u128 = whole / 2;
            assert(whole * unit == half * (2 * unit) + odd * unit) by (nonlinear_arith)
                requires
                    whole == 2 * half + odd,
            ;
            assert(odd * unit <= unit) by (nonlinear_arith)
                requires
                    odd <= 1,
            ;
            assert(half * (2 * unit) >= HIDDEN * (2 * unit)) by (nonlinear_arith)
                requires
                    half >= HIDDEN,
            ;
            assert(odd == 0 ==> odd * unit == 0) by (nonlinear_arith);
            assert(odd == 1 ==> odd * unit == unit) by (nonlinear_arith);
        }
        rest = rest + odd * unit;
        whole = whole / 2;
        unit = 2 * unit;
        power = power + 1;
    }
    proof {
        let k = (power - base_power) as nat;
        if k > 56 {
            lemma_pow2_strictly_increases(56, k);
            vstd::arithmetic::power2::lemma2_to64_rest();
        }
    }
    let low: u64 = power * HIDDEN + whole as u64;
    let up: bool = 2 * rest > unit || 2 * rest == unit && low % 2 == 1;
    proof {
        let small = pow2(base_power);
        lemma_pack(power as nat, whole as nat, low);
        lemma_pow2_adds(base_power, (power - base_power) as nat);
        lemma_pow2_pos(base_power);
        let gap = pow2(power as nat);
        assert(gap == unit * small) by (nonlinear_arith)
            requires
                gap == small * unit,
        ;
        assert(n == whole * gap + rest * small) by (nonlinear_arith)
            requires
                n == base * small,
                base == whole * unit + rest,
                gap == unit * small,
        ;
        assert(rest * small < gap) by (nonlinear_arith)
            requires
                rest < unit,
                small > 0,
                gap == unit * small,
        ;
        assert(2 * rest > unit <==> 2 * (rest * small) > gap) by (nonlinear_arith)
            requires
                small > 0,
                gap == unit * small,
        ;
        assert(2 * rest == unit <==> 2 * (rest * small) == gap) by (nonlinear_arith)
            requires
                small > 0,
                gap == unit * small,
        ;
        assert(rest * small >= 0) by (nonlinear_arith);
        if top < low {
            lemma_magnitude_monotone(top, low);
        }
        lemma_nearest_between(n, low, up);
    }
    if up {
        low + 1
    } else {
        low
    }
}

/// A number too small to reach halfway to the next pattern below does not change what it is taken
/// off.
proof fn lemma_negligible(a: u64, b: u64)
    requires
        0 < b,
        a < INFINITY,
        scale(a) >= scale(b) + 55,
    ensures
        magnitude(b) < magnitude(a),
        is_nearest((magnitude(a) - magnitude(b)) as nat, a),
{
    let lo = (a - 1) as u64;
    let s = scale(b);
    lemma_split(a);
    lemma_split(b);
    lemma_split(lo);
    assert(scale(lo) >= s + 54);
    lemma_step(lo);
    let gap = pow2(scale(lo));
    let unit = pow2(s);
    lemma_pow2_pos(s);
    lemma_pow2_adds(s, 54);
    vstd::arithmetic::power2::lemma2_to64_rest();
    if s + 54 < scale(lo) {
        lemma_pow2_strictly_increases(s + 54, scale(lo));
    }
    assert(2 * magnitude(b) < gap) by (nonlinear_arith)
        requires
            magnitude(b) == significand(b) * unit,
            significand(b) < 0x20_0000_0000_0000,
            unit > 0,
            gap >= unit * 0x40_0000_0000_0000,
    ;
    lemma_magnitude_zero();
    lemma_magnitude_monotone(0, b);
    lemma_magnitude_monotone(b, lo);
    lemma_nearest_between((magnitude(a) - magnitude(b)) as nat, lo, true);
}

impl Binary64 {
    /// The smaller of two numbers, and the other one where one is a NaN.
    pub fn min(self, other: Binary64) -> (r: Binary64)
        ensures
            r == self.lesser(other),
    {
        proof {
            lemma_price_key(other, self);
        }
        if self.is_nan() || !other.is_nan() && price_of(other) < price_of(self) {
            other
        } else {
            self
        }
    }

    /// The scale and the significand of a finite number's pattern.
    fn parts(self) -> (r: (u64, u64))
        requires
            self.bits < INFINITY,
        ensures
            r.0 == scale(self.bits),
            r.1 == significand(self.bits),
            r.0 < 2046,
    {
        if self.bits < HIDDEN {
            (0, self.bits)
        } else {
            (self.bits / HIDDEN - 1, HIDDEN + self.bits % HIDDEN)
        }
    }

    /// `self` minus `other`, rounded to the nearest number and to the even one of two that are
    /// equally near.
    pub fn subtract(self, other: Binary64) -> (r: Binary64)
        requires
            other.positive(),
            !other.infinite(),
            self.nan() || other.value() <= self.value(),
        ensures
            r == self.minus(other),
    {
        proof {
            lemma_sign(self);
            lemma_sign(other);
        }
        if self.is_nan() || self.is_infinite() {
            return self;
        }
        proof {
            lemma_price_key(self, other);
        }
        let (power, whole) = self.parts();
        let (small_power, small) = other.parts();
        proof {
            lemma_split(self.bits);
            lemma_split(other.bits);
            vstd::arithmetic::power2::lemma2_to64_rest();
            vstd::arithmetic::power2::lemma2_to64();
        }
        let ghost n = (self.value() - other.value()) as nat;
        let shift: u64 = power - small_power;
        if shift >= 55 {
            proof {
                lemma_negligible(self.bits, other.bits);
                lemma_nearest_is(n, self.bits);
            }
            return self;
        }
        let mut wide: u128 = whole as u128;
        let mut i: u64 = 0;
        while i < shift
            invariant
                i <= shift < 55,
                wide == whole * pow2(i as nat),
                whole < 2 * HIDDEN,
                pow2(54) == 0x40_0000_0000_0000,
            decreases shift - i,
        {
            proof {
                let factor = pow2(i as nat);
                lemma_pow2_unfold((i + 1) as nat);
                lemma_pow2_strictly_increases(i as nat, 54);
                assert(whole * (2 * factor) == 2 * (whole * factor)) by (nonlinear_arith);
                assert(whole * factor < 0x20_0000_0000_0000 * 0x40_0000_0000_0000)
                    by (nonlinear_arith)
                    requires
                        whole < 0x20_0000_0000_0000,
                        factor < 0x40_0000_0000_0000,
                ;
            }
            wide = wide * 2;
            i = i + 1;
        }
        proof {
            let factor = pow2(shift as nat);
            let unit = pow2(small_power as nat);
            lemma_pow2_adds(small_power as nat, shift as nat);
            lemma_pow2_pos(small_power as nat);
            lemma_pow2_pos(shift as nat);
            if shift < 54 {
                lemma_pow2_strictly_increases(shift as nat, 54);
            }
            assert(whole * factor < 0x20_0000_0000_0000 * 0x40_0000_0000_0000) by (nonlinear_arith)
                requires
                    whole < 0x20_0000_0000_0000,
                    0 < factor <= 0x40_0000_0000_0000,
            ;
            assert(wide * unit == self.value()) by (nonlinear_arith)
                requires
                    wide == whole * factor,
                    self.value() == whole * (unit * factor),
            ;
            assert(small <= wide) by (nonlinear_arith)
                requires
                    small * unit <= wide * unit,
                    unit > 0,
            ;
            assert((wide - small) * unit == wide * unit - small * unit) by (nonlinear_arith);
        }
        let bits: u64 = round_scaled(wide - small as u128, small_power, Ghost(self.bits));
        proof {
            lemma_nearest_is(n, bits);
        }
        Binary64 { bits }
    }
}

/// The kinds of numbers, told by their patterns: the lowest patterns are zero and the positive
/// numbers up to infinity, the NaNs follow, and the same again with the sign bit.
pub proof fn law_patterns(x: Binary64)
    ensures
        x.negative() <==> x.bits >= 0x8000_0000_0000_0000,
        x.nan() <==> 0x7ff0_0000_0000_0000 < x.bits < 0x8000_0000_0000_0000 || x.bits
            > 0xfff0_0000_0000_0000,
        x.infinite() <==> x.bits == 0x7ff0_0000_0000_0000 || x.bits == 0xfff0_0000_0000_0000,
        x.positive() <==> 0 < x.bits <= 0x7ff0_0000_0000_0000,
        x.nonpositive() <==> x.bits == 0 || 0x8000_0000_0000_0000 <= x.bits
            <= 0xfff0_0000_0000_0000,
        x.boundless() <==> x.nan() || x.bits == 0x7ff0_0000_0000_0000,
{
    lemma_sign(x);
}

/// The values of numbers, in units of the smallest positive one: the lowest patterns count up from
/// zero, each block of `2^52` patterns after the second has steps twice as wide as the one before,
/// up to infinity, which comes next, and the sign bit turns a number into its opposite.
pub proof fn law_values(x: Binary64)
    ensures
        x.bits < 0x20_0000_0000_0000 ==> x.value() == x.bits,
        0x10_0000_0000_0000 <= x.bits <= 0x7fe0_0000_0000_0000 ==> (Binary64 {
            bits: (x.bits + 0x10_0000_0000_0000) as u64,
        }).value() == 2 * x.value(),
        x.bits < 0x8000_0000_0000_0000 ==> (Binary64 {
            bits: (x.bits + 0x8000_0000_0000_0000) as u64,
        }).value() == -x.value(),
{
    let (u, wide) = (x.unsigned(), (x.bits + HIDDEN) as u64);
    if x.bits < 2 * HIDDEN {
        vstd::arithmetic::power2::lemma2_to64();
        assert(scale(u) == 0 && significand(u) == u);
        assert(u * 1 == u);
    }
    if HIDDEN <= x.bits <= 0x7fe0_0000_0000_0000 {
        assert(wide / HIDDEN == x.bits / HIDDEN + 1 && wide % HIDDEN == x.bits % HIDDEN);
        lemma_pow2_unfold(scale(wide));
        assert(significand(u) * (2 * pow2(scale(u))) == 2 * (significand(u) * pow2(scale(u))))
            by (nonlinear_arith);
    }
}

/// Prices are ranked by value, and a NaN, equal to every other, above all numbers; so are their
/// keys.
pub proof fn law_prices_are_ranked_by_value(a: Binary64, b: Binary64)
    ensures
        !a.nan() && !b.nan() ==> {
            &&& price_key(a) < price_key(b) <==> a.value() < b.value()
            &&& price_key(a) == price_key(b) <==> a.value() == b.value()
            &&& a.price_below(b) <==> a.value() < b.value()
        },
        !a.nan() && b.nan() ==> price_key(a) < price_key(b) && a.price_below(b),
        a.nan() && b.nan() ==> price_key(a) == price_key(b),
        a.nan() ==> !a.price_below(b),
{
    lemma_price_key(a, b);
    lemma_price_key(b, a);
}

/// The smaller of two numbers is one of them and not above either; of equal ones it is the first.
/// A NaN gives way to the other.
pub proof fn law_lesser(a: Binary64, b: Binary64)
    ensures
        a.nan() ==> a.lesser(b) == b,
        !a.nan() && b.nan() ==> a.lesser(b) == a,
        !a.nan() && !b.nan() ==> {
            &&& a.lesser(b) == a || a.lesser(b) == b
            &&& a.lesser(b).value() <= a.value()
            &&& a.lesser(b).value() <= b.value()
            &&& a.value() == b.value() ==> a.lesser(b) == a
        },
{
}

/// What taking `b` off `a` leaves is a number as near to the exact difference as any, and where
/// another is as near, it is the one with the even pattern. Infinity and the NaNs stay as they are.
pub proof fn law_differences_are_rounded(a: Binary64, b: Binary64, y: Binary64)
    requires
        b.positive(),
        !b.infinite(),
        a.nan() || b.value() <= a.value(),
        !y.nan() && !y.infinite(),
    ensures
        ({
            let r = a.minus(b);
            let exact = a.value() - b.value();
            let off = if r.value() < exact {
                exact - r.value()
            } else {
                r.value() - exact
            };
            let other = if y.value() < exact {
                exact - y.value()
            } else {
                y.value() - exact
            };
            if a.nan() || a.infinite() {
                r == a
            } else {
                &&& r.bits < 0x7ff0_0000_0000_0000
                &&& off <= other
                &&& off == other && y.value() != r.value() ==> r.bits % 2 == 0
            }
        }),
{
    lemma_sign(a);
    lemma_sign(b);
    lemma_sign(y);
    if !a.nan() && !a.infinite() {
        let n = (a.value() - b.value()) as nat;
        lemma_minus(a, b);
        lemma_magnitude_zero();
        assert(is_nearest(n, a.minus(b).bits));
        assert(magnitude(y.unsigned()) >= 0);
    }
}

} // verus!
