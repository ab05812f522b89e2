//! The scalar capability that vector components must provide.
use vstd::prelude::*;

verus! {

/// Integer quotient of `a` by `b`, rounded toward zero as machine division does.
pub open spec fn trunc_div(a: int, b: int) -> int {
    if a >= 0 {
        if b > 0 {
            a / b
        } else {
            -(a / -b)
        }
    } else {
        if b > 0 {
            -((-a) / b)
        } else {
            (-a) / (-b)
        }
    }
}

/// `r` is the square root of `n` rounded down.
pub open spec fn is_floor_sqrt(n: int, r: int) -> bool {
    0 <= r && r * r <= n && n < (r + 1) * (r + 1)
}

/// The square root of `n` rounded down (meaningful for `n >= 0`).
pub open spec fn floor_sqrt(n: int) -> int {
    choose|r: int| is_floor_sqrt(n, r)
}

/// At most one integer is the rounded-down square root of `n`.
pub proof fn lemma_floor_sqrt_unique(n: int, r1: int, r2: int)
    requires
        is_floor_sqrt(n, r1),
        is_floor_sqrt(n, r2),
    ensures
        r1 == r2,
{
    if r1 < r2 {
        assert((r1 + 1) * (r1 + 1) <= r2 * r2) by (nonlinear_arith)
            requires
                0 <= r1,
                r1 + 1 <= r2,
        ;
    } else if r2 < r1 {
        assert((r2 + 1) * (r2 + 1) <= r1 * r1) by (nonlinear_arith)
            requires
                0 <= r2,
                r2 + 1 <= r1,
        ;
    }
}

/// A witness of the rounded-down square root is the one `floor_sqrt` names.
pub proof fn lemma_floor_sqrt_is(n: int, r: int)
    requires
        is_floor_sqrt(n, r),
    ensures
        floor_sqrt(n) == r,
{
    lemma_floor_sqrt_unique(n, floor_sqrt(n), r);
}

/// A non-negative integer has a rounded-down square root.
pub proof fn lemma_floor_sqrt_exists(n: int)
    requires
        n >= 0,
    ensures
        is_floor_sqrt(n, floor_sqrt(n)),
    decreases n,
{
    if n == 0 {
        assert(is_floor_sqrt(0, 0));
    } else {
        lemma_floor_sqrt_exists(n - 1);
        let r = floor_sqrt(n - 1);
        if (r + 1) * (r + 1) <= n {
            assert((r + 2) * (r + 2) > n) by (nonlinear_arith)
                requires
                    n - 1 < (r + 1) * (r + 1),
                    r >= 0,
            ;
            assert(is_floor_sqrt(n, r + 1));
        } else {
            assert(is_floor_sqrt(n, r));
        }
    }
}

/// The rounded-down square root of a non-negative `n` lies in `0..=n`, and is
/// zero exactly when `n` is.
pub proof fn lemma_floor_sqrt_bounds(n: int, r: int)
    requires
        n >= 0,
        is_floor_sqrt(n, r),
    ensures
        0 <= r <= n,
        r == 0 <==> n == 0,
{
    if r > n {
        assert(r * r > n) by (nonlinear_arith)
            requires
                r > n,
                n >= 0,
        ;
    }
    if r > 0 {
        assert(r * r >= 1) by (nonlinear_arith)
            requires
                r > 0,
        ;
    }
}

/// The magnitude of `trunc_div(a, b)` is at most that of `a` when `b` is nonzero.
pub proof fn lemma_trunc_div_shrinks(a: int, b: int)
    requires
        b != 0,
    ensures
        a >= 0 ==> (b > 0 ==> 0 <= trunc_div(a, b) <= a) && (b < 0 ==> -a <= trunc_div(a, b) <= 0),
        a < 0 ==> (b > 0 ==> a <= trunc_div(a, b) <= 0) && (b < 0 ==> 0 <= trunc_div(a, b) <= -a),
{
    let na: int = if a >= 0 {
        a
    } else {
        -a
    };
    let nb: int = if b > 0 {
        b
    } else {
        -b
    };
    assert(0 <= na / nb <= na) by (nonlinear_arith)
        requires
            na >= 0,
            nb >= 1,
    ;
}

/// Euclidean division by a negative divisor negates the quotient by its magnitude.
proof fn lemma_div_by_negative(n: int, d: int)
    requires
        n >= 0,
        d < 0,
    ensures
        n / d == -(n / -d),
{
    let q = n / -d;
    let r = n % -d;
    assert(n == (-d) * q + r && 0 <= r < -d) by {
        vstd::arithmetic::div_mod::lemma_fundamental_div_mod(n, -d);
    }
    assert(n == d * (-q) + r) by (nonlinear_arith)
        requires
            n == (-d) * q + r,
    ;
    vstd::arithmetic::div_mod::lemma_fundamental_div_mod(n, d);
    assert(n / d == -q) by (nonlinear_arith)
        requires
            n == d * (-q) + r,
            0 <= r < -d,
            n == d * (n / d) + n % d,
            0 <= n % d < -d,
    ;
}

/// Square root of a `u64`, rounded down, by bisection.
pub fn floor_sqrt_u64(n: u64) -> (r: u64)
    ensures
        is_floor_sqrt(n as int, r as int),
        r == floor_sqrt(n as int),
{
    let mut lo: u64 = 0;
    let mut hi: u64 = 0x1_0000_0000;
    assert(n < hi * hi);
    while hi - lo > 1
        invariant
            lo < hi <= 0x1_0000_0000,
            lo * lo <= n,
            n < hi * hi,
        decreases hi - lo,
    {
        let mid: u64 = lo + (hi - lo) / 2;
        assert(mid * mid <= 0xffff_fffe_0000_0001) by (nonlinear_arith)
            requires
                mid <= 0xffff_ffff,
        ;
        if mid * mid <= n {
            lo = mid;
        } else {
            hi = mid;
        }
    }
    proof {
        lemma_floor_sqrt_is(n as int, lo as int);
    }
    lo
}

/// What a scalar type must offer to be a vector component: closed arithmetic
/// with exact contracts over its mathematical value, a signedness query and a
/// square root rounded down.
pub trait Numeric: Copy + Sized {
    /// The mathematical value of this scalar.
    spec fn val(self) -> int;

    /// Whether the integer `v` is a value of this type.
    spec fn fits(v: int) -> bool;

    /// Whether this type holds negative values.
    spec fn signed() -> bool;

    /// Every scalar's value is representable.
    proof fn lemma_val_fits(a: Self)
        ensures
            Self::fits(a.val()),
    ;

    /// The representable values form a range around zero: anything between
    /// zero and a representable value is representable.
    proof fn lemma_fits_toward_zero(a: int, v: int)
        requires
            Self::fits(a),
            0 <= v <= a || a <= v <= 0,
        ensures
            Self::fits(v),
    ;

    /// An unsigned type holds no negative value.
    proof fn lemma_unsigned_nonnegative(v: int)
        requires
            !Self::signed(),
            Self::fits(v),
        ensures
            v >= 0,
    ;

    fn is_signed() -> (r: bool)
        ensures
            r == Self::signed(),
    ;

    fn is_zero(self) -> (r: bool)
        ensures
            r == (self.val() == 0),
    ;

    fn add(self, o: Self) -> (r: Self)
        requires
            Self::fits(self.val() + o.val()),
        ensures
            r.val() == self.val() + o.val(),
    ;

    fn sub(self, o: Self) -> (r: Self)
        requires
            Self::fits(self.val() - o.val()),
        ensures
            r.val() == self.val() - o.val(),
    ;

    fn mul(self, o: Self) -> (r: Self)
        requires
            Self::fits(self.val() * o.val()),
        ensures
            r.val() == self.val() * o.val(),
    ;

    fn div(self, o: Self) -> (r: Self)
        requires
            o.val() != 0,
            Self::fits(trunc_div(self.val(), o.val())),
        ensures
            r.val() == trunc_div(self.val(), o.val()),
    ;

    fn sqrt(self) -> (r: Self)
        requires
            self.val() >= 0,
        ensures
            r.val() == floor_sqrt(self.val()),
    ;
}

/// A scalar type with negation; only vectors over such a type can be negated.
pub trait SignedNumeric: Numeric {
    proof fn lemma_is_signed()
        ensures
            Self::signed(),
    ;

    fn neg(self) -> (r: Self)
        requires
            Self::fits(-self.val()),
        ensures
            r.val() == -self.val(),
    ;
}

impl Numeric for u8 {
    open spec fn val(self) -> int {
        self as int
    }

    open spec fn fits(v: int) -> bool {
        0 <= v <= u8::MAX
    }

    open spec fn signed() -> bool {
        false
    }

    proof fn lemma_val_fits(a: Self) {
    }

    proof fn lemma_fits_toward_zero(a: int, v: int) {
    }

    proof fn lemma_unsigned_nonnegative(v: int) {
    }

    fn is_signed() -> (r: bool) {
        false
    }

    fn is_zero(self) -> (r: bool) {
        self == 0
    }

    fn add(self, o: Self) -> (r: Self) {
        self + o
    }

    fn sub(self, o: Self) -> (r: Self) {
        self - o
    }

    fn mul(self, o: Self) -> (r: Self) {
        self * o
    }

    fn div(self, o: Self) -> (r: Self) {
        self / o
    }

    fn sqrt(self) -> (r: Self) {
        let r = floor_sqrt_u64(self as u64);
        proof {
            lemma_floor_sqrt_bounds(self as int, r as int);
        }
        r as u8
    }
}

impl Numeric for i64 {
    open spec fn val(self) -> int {
        self as int
    }

    open spec fn fits(v: int) -> bool {
        i64::MIN <= v <= i64::MAX
    }

    open spec fn signed() -> bool {
        true
    }

    proof fn lemma_val_fits(a: Self) {
    }

    proof fn lemma_fits_toward_zero(a: int, v: int) {
    }

    proof fn lemma_unsigned_nonnegative(v: int) {
    }

    fn is_signed() -> (r: bool) {
        true
    }

    fn is_zero(self) -> (r: bool) {
        self == 0
    }

    fn add(self, o: Self) -> (r: Self) {
        self + o
    }

    fn sub(self, o: Self) -> (r: Self) {
        self - o
    }

    fn mul(self, o: Self) -> (r: Self) {
        self * o
    }

    fn div(self, o: Self) -> (r: Self) {
        proof {
            if self == i64::MIN && o == -1 {
                assert(trunc_div(self as int, o as int) == 0x8000_0000_0000_0000int);
            }
            if o < 0 {
                lemma_div_by_negative(if self >= 0 {
                    self as int
                } else {
                    -self
                }, o as int);
            }
        }
        self / o
    }

    fn sqrt(self) -> (r: Self) {
        let r = floor_sqrt_u64(self as u64);
        proof {
            lemma_floor_sqrt_bounds(self as int, r as int);
        }
        r as i64
    }
}

impl SignedNumeric for i64 {
    proof fn lemma_is_signed() {
    }

    fn neg(self) -> (r: Self) {
        -self
    }
}

} // verus!
