//! Residue arithmetic modulo a small modulus, and square matrices of
//! residues with modular inversion.

use vstd::prelude::*;
use vstd::arithmetic::div_mod::{
    lemma_add_mod_noop,
    lemma_fundamental_div_mod, lemma_mod_bound, lemma_mod_multiples_vanish,
    lemma_mul_mod_noop_left, lemma_mul_mod_noop_right, lemma_small_mod,
};
use vstd::arithmetic::mul::{lemma_mul_is_distributive_add, lemma_mul_unary_negation};
use vstd::string::StringExecFns;

verus! {

/// Euclid's greatest common divisor.
pub open spec fn spec_gcd(a: nat, b: nat) -> nat
    decreases a,
{
    if a == 0 {
        b
    } else {
        spec_gcd(b % a, a)
    }
}

/// The gcd lies between 1 and the larger argument once one argument is
/// positive.
pub proof fn lemma_gcd_bounds(a: nat, b: nat)
    requires
        b >= 1,
    ensures
        1 <= spec_gcd(a, b),
        spec_gcd(a, b) <= a || spec_gcd(a, b) <= b,
    decreases a,
{
    if a == 0 {
    } else {
        lemma_mod_bound(b as int, a as int);
        lemma_gcd_bounds(b % a, a);
    }
}

/// Relies on num_integer::Integer::extended_gcd: for `a >= 0`, `b >= 1` it
/// returns the nonnegative greatest common divisor `gcd` together with
/// Bezout coefficients `x`, `y` such that `a * x + b * y == gcd`.
#[verifier::external_body]
fn extended_gcd_i32(a: i32, b: i32) -> (r: (i32, i32, i32))
    requires
        0 <= a,
        1 <= b,
    ensures
        r.0 == spec_gcd(a as nat, b as nat),
        a * r.1 + b * r.2 == r.0,
{
    let g = num_integer::Integer::extended_gcd(&a, &b);
    (g.gcd, g.x, g.y)
}

/// A residue that shares a factor with the modulus and so has no modular
/// inverse.
#[derive(Clone, Copy, Debug, PartialEq, Eq, Structural)]
pub struct CoprimeError {
    pub value: u8,
    pub modulo: u8,
    pub gcd: u8,
}

pub open spec fn decimal_digit(d: nat) -> char {
    if d == 0 {
        '0'
    } else if d == 1 {
        '1'
    } else if d == 2 {
        '2'
    } else if d == 3 {
        '3'
    } else if d == 4 {
        '4'
    } else if d == 5 {
        '5'
    } else if d == 6 {
        '6'
    } else if d == 7 {
        '7'
    } else if d == 8 {
        '8'
    } else {
        '9'
    }
}

/// The decimal digits of a byte value.
pub open spec fn decimal_chars(n: nat) -> Seq<char> {
    if n < 10 {
        seq![decimal_digit(n)]
    } else if n < 100 {
        seq![decimal_digit(n / 10), decimal_digit(n % 10)]
    } else {
        seq![decimal_digit(n / 100), decimal_digit((n / 10) % 10), decimal_digit(n % 10)]
    }
}

fn digit_str(d: u8) -> (r: &'static str)
    requires
        d < 10,
    ensures
        r@ == seq![decimal_digit(d as nat)],
{
    if d == 0 {
        proof { reveal_strlit("0"); }
        assert("0"@ =~= seq![decimal_digit(d as nat)]);
        "0"
    } else if d == 1 {
        proof { reveal_strlit("1"); }
        assert("1"@ =~= seq![decimal_digit(d as nat)]);
        "1"
    } else if d == 2 {
        proof { reveal_strlit("2"); }
        assert("2"@ =~= seq![decimal_digit(d as nat)]);
        "2"
    } else if d == 3 {
        proof { reveal_strlit("3"); }
        assert("3"@ =~= seq![decimal_digit(d as nat)]);
        "3"
    } else if d == 4 {
        proof { reveal_strlit("4"); }
        assert("4"@ =~= seq![decimal_digit(d as nat)]);
        "4"
    } else if d == 5 {
        proof { reveal_strlit("5"); }
        assert("5"@ =~= seq![decimal_digit(d as nat)]);
        "5"
    } else if d == 6 {
        proof { reveal_strlit("6"); }
        assert("6"@ =~= seq![decimal_digit(d as nat)]);
        "6"
    } else if d == 7 {
        proof { reveal_strlit("7"); }
        assert("7"@ =~= seq![decimal_digit(d as nat)]);
        "7"
    } else if d == 8 {
        proof { reveal_strlit("8"); }
        assert("8"@ =~= seq![decimal_digit(d as nat)]);
        "8"
    } else {
        proof { reveal_strlit("9"); }
        assert("9"@ =~= seq![decimal_digit(d as nat)]);
        "9"
    }
}

/// Appends the decimal digits of `v` to `s`.
pub fn append_decimal(s: &mut String, v: u8)
    ensures
        final(s)@ == old(s)@ + decimal_chars(v as nat),
{
    if v < 10 {
        s.append(digit_str(v));
        assert(s@ =~= old(s)@ + decimal_chars(v as nat));
    } else if v < 100 {
        s.append(digit_str(v / 10));
        s.append(digit_str(v % 10));
        assert(s@ =~= old(s)@ + decimal_chars(v as nat));
    } else {
        s.append(digit_str(v / 100));
        s.append(digit_str((v / 10) % 10));
        s.append(digit_str(v % 10));
        assert(s@ =~= old(s)@ + decimal_chars(v as nat));
    }
}

/// The reason string of a coprimality failure.
pub open spec fn coprime_message(value: u8, modulo: u8, gcd: u8) -> Seq<char> {
    decimal_chars(value as nat) + " is not coprime to "@ + decimal_chars(modulo as nat) + " (GCD: "@
        + decimal_chars(gcd as nat) + ")"@
}

impl CoprimeError {
    /// The human-readable reason for the failure.
    pub fn message(&self) -> (r: String)
        ensures
            r@ == coprime_message(self.value, self.modulo, self.gcd),
    {
        let mut s = String::new();
        append_decimal(&mut s, self.value);
        s.append(" is not coprime to ");
        append_decimal(&mut s, self.modulo);
        s.append(" (GCD: ");
        append_decimal(&mut s, self.gcd);
        s.append(")");
        assert(s@ =~= coprime_message(self.value, self.modulo, self.gcd));
        s
    }
}

/// An integer held in `[0, modulo)`.
#[derive(Clone, Copy, Debug, PartialEq, Eq, Structural)]
pub struct ModuloU8 {
    pub value: u8,
    pub modulo: u8,
}

impl ModuloU8 {
    /// A residue is well formed when its value has been reduced into the
    /// modulus range.
    pub open spec fn wf(&self) -> bool {
        1 <= self.modulo && self.value < self.modulo
    }

    /// Reduces a raw byte into the residue range.
    pub fn new(value: u8, modulo: u8) -> (r: Self)
        requires
            modulo >= 1,
        ensures
            r == (ModuloU8 { value: (value % modulo) as u8, modulo }),
            r.wf(),
    {
        ModuloU8 { value: value % modulo, modulo }
    }

    /// The raw byte value of the residue.
    pub fn value(&self) -> (r: u8)
        ensures
            r == self.value,
    {
        self.value
    }

    /// The modulus the residue lives under.
    pub fn modulo(&self) -> (r: u8)
        ensures
            r == self.modulo,
    {
        self.modulo
    }

    /// The sum of two residues of the same modulus.
    pub fn add(self, rhs: Self) -> (r: Self)
        requires
            self.wf(),
            rhs.wf(),
            self.modulo == rhs.modulo,
        ensures
            r.wf(),
            r.modulo == self.modulo,
            r.value as int == (self.value + rhs.value) % (self.modulo as int),
    {
        let sum: u16 = self.value as u16 + rhs.value as u16;
        ModuloU8 { value: (sum % self.modulo as u16) as u8, modulo: self.modulo }
    }

    /// The difference of two residues of the same modulus.
    pub fn sub(self, rhs: Self) -> (r: Self)
        requires
            self.wf(),
            rhs.wf(),
            self.modulo == rhs.modulo,
        ensures
            r.wf(),
            r.modulo == self.modulo,
            r.value as int == (self.value - rhs.value) % (self.modulo as int),
    {
        let diff: u16 = self.value as u16 + self.modulo as u16 - rhs.value as u16;
        let v = (diff % self.modulo as u16) as u8;
        proof {
            lemma_mod_multiples_vanish(1, self.value - rhs.value, self.modulo as int);
        }
        ModuloU8 { value: v, modulo: self.modulo }
    }

    /// The product of two residues of the same modulus.
    pub fn mul(self, rhs: Self) -> (r: Self)
        requires
            self.wf(),
            rhs.wf(),
            self.modulo == rhs.modulo,
        ensures
            r.wf(),
            r.modulo == self.modulo,
            r.value as int == (self.value * rhs.value) % (self.modulo as int),
    {
        proof {
            assert((self.value as int) * (rhs.value as int) <= 255 * 255) by (nonlinear_arith)
                requires
                    self.value <= 255,
                    rhs.value <= 255,
            ;
        }
        let prod: u16 = self.value as u16 * rhs.value as u16;
        ModuloU8 { value: (prod % self.modulo as u16) as u8, modulo: self.modulo }
    }

    /// The modular multiplicative inverse: the unique residue `x` with
    /// `self.value * x == 1` modulo the modulus, obtained from the Bezout
    /// coefficients of the extended Euclidean algorithm. Fails exactly when
    /// the value and the modulus share a factor.
    pub fn inverse(self) -> (r: Result<Self, CoprimeError>)
        requires
            self.wf(),
        ensures
            r is Ok <==> spec_gcd(self.value as nat, self.modulo as nat) == 1,
            (match r {
                Ok(v) => {
                    &&& v.wf()
                    &&& v.modulo == self.modulo
                    &&& (self.value * v.value) % (self.modulo as int) == 1int % (self.modulo as int)
                },
                Err(e) => e == (CoprimeError {
                    value: self.value,
                    modulo: self.modulo,
                    gcd: spec_gcd(self.value as nat, self.modulo as nat) as u8,
                }),
            }),
    {
        let m = self.modulo;
        let (g, x, _y) = extended_gcd_i32(self.value as i32, m as i32);
        if g != 1 {
            proof {
                lemma_gcd_bounds(self.value as nat, m as nat);
            }
            Err(CoprimeError { value: self.value, modulo: m, gcd: g as u8 })
        } else {
            // Reduce the Bezout coefficient x into [0, m).
            let xr: u8 = if x >= 0 {
                (x as u32 % m as u32) as u8
            } else {
                let p: u64 = (-(x as i64)) as u64;
                let r0: u64 = p % m as u64;
                proof {
                    let mi = m as int;
                    let pi = p as int;
                    let xi = x as int;
                    let q = pi / mi;
                    let ri = pi % mi;
                    lemma_fundamental_div_mod(pi, mi);
                    assert(pi == mi * q + ri);
                    assert(xi == -pi);
                    lemma_mul_unary_negation(mi, q);
                    assert(xi == mi * (-q) - ri);
                    // x == -p == (-q - 1) * m + (m - r0) when r0 > 0, and -q * m when r0 == 0.
                    if r0 == 0 {
                        lemma_mod_multiples_vanish(-q, 0, mi);
                        lemma_small_mod(0nat, m as nat);
                        assert(xi % mi == 0);
                    } else {
                        lemma_mul_is_distributive_add(mi, -q - 1, 1);
                        assert(mi * (-q) == mi * (-q - 1) + mi);
                        assert(xi == mi * (-q - 1) + (mi - ri));
                        lemma_mod_multiples_vanish(-q - 1, mi - ri, mi);
                        lemma_small_mod((mi - ri) as nat, m as nat);
                        assert(xi % mi == mi - ri);
                    }
                }
                if r0 == 0 {
                    0
                } else {
                    (m as u64 - r0) as u8
                }
            };
            proof {
                let mi = m as int;
                let xi = x as int;
                assert(xr as int == xi % mi);
                // self.value * x == 1 - m * y, so multiples of m vanish.
                let v = self.value as int;
                let y = _y as int;
                assert(v * xi + mi * y == 1);
                lemma_mul_unary_negation(mi, y);
                assert(v * xi == mi * (-y) + 1);
                lemma_mod_multiples_vanish(-y, 1, mi);
                assert((v * xi) % mi == 1int % mi);
                lemma_mul_mod_noop_right(v, xi, mi);
                assert((v * (xr as int)) % mi == 1int % mi);
            }
            Ok(ModuloU8 { value: xr, modulo: m })
        }
    }
}

/// Shifting by `k` and unshifting by `k` under the same modulus gives the
/// original residue back.
pub proof fn lemma_shift_round_trip(p: int, k: int, n: int)
    requires
        0 <= p < n,
        0 <= k < n,
    ensures
        ((p + k) % n + n - k) % n == p,
{
    vstd::arithmetic::div_mod::lemma_add_mod_noop_right(n - k, p + k, n);
    assert((n - k + (p + k) % n) % n == (n - k + (p + k)) % n);
    lemma_mod_multiples_vanish(1, p, n);
    assert((n + p) % n == p % n);
    lemma_small_mod(p as nat, n as nat);
}

/// The modular inverse is unique: two residues that both invert `v` under
/// the same modulus are equal.
pub proof fn lemma_inverse_unique(v: int, m: int, x1: int, x2: int)
    requires
        1 <= m,
        0 <= x1 < m,
        0 <= x2 < m,
        (v * x1) % m == 1int % m,
        (v * x2) % m == 1int % m,
    ensures
        x1 == x2,
{
    // x1 == x1 * (v * x2) == (x1 * v) * x2 == 1 * x2 == x2 (mod m).
    let a = (v * x1) % m;
    lemma_mul_mod_noop_right(x2, v * x1, m);
    lemma_mul_mod_noop_right(x1, v * x2, m);
    assert(x2 * (v * x1) == x1 * (v * x2)) by (nonlinear_arith);
    assert((x2 * a) % m == (x1 * ((v * x2) % m)) % m);
    lemma_small_mod(x1 as nat, m as nat);
    lemma_small_mod(x2 as nat, m as nat);
    assert((x2 * (1int % m)) % m == (x1 * (1int % m)) % m);
    lemma_mul_mod_noop_right(x2, 1, m);
    lemma_mul_mod_noop_right(x1, 1, m);
    assert(x2 % m == x1 % m);
}

/// A failed matrix inversion: a singular system, or a pivot residue that
/// shares a factor with the modulus.
#[derive(Clone, Copy, Debug, PartialEq, Eq, Structural)]
pub enum MatrixInversionError {
    CoprimeError(CoprimeError),
    DegenerateError,
}

impl MatrixInversionError {
    /// The human-readable reason for the failure.
    pub fn message(&self) -> (r: String)
        ensures
            (match self {
                MatrixInversionError::CoprimeError(e) => r@ == coprime_message(
                    e.value,
                    e.modulo,
                    e.gcd,
                ),
                MatrixInversionError::DegenerateError => r@ == "Degenerate matrix"@,
            }),
    {
        match self {
            MatrixInversionError::CoprimeError(e) => e.message(),
            MatrixInversionError::DegenerateError => String::from_str("Degenerate matrix"),
        }
    }
}

/// A dense square matrix of residues, stored row-major.
#[derive(Debug)]
pub struct MatrixU8 {
    size: usize,
    modulo: u8,
    arr: Vec<u8>,
}

/// The state of a `MatrixU8`: its dimension, its modulus, and its entries
/// in row-major order, each reduced into the modulus range.
pub struct MatrixView {
    pub size: nat,
    pub modulo: u8,
    pub vals: Seq<u8>,
}

impl View for MatrixU8 {
    type V = MatrixView;

    closed spec fn view(&self) -> MatrixView {
        MatrixView { size: self.size as nat, modulo: self.modulo, vals: self.arr@ }
    }
}

/// The matrix invariant: at least one row, a positive modulus, a full
/// row-major buffer, every entry reduced.
pub open spec fn matrix_wf(m: MatrixView) -> bool {
    &&& m.size >= 1
    &&& m.modulo >= 1
    &&& m.vals.len() == m.size * m.size
    &&& forall|t: int| 0 <= t < m.vals.len() ==> m.vals[t] < m.modulo
}

/// The entry of `m` at row `i`, column `j`, as an integer.
pub open spec fn mat_entry(m: MatrixView, i: int, j: int) -> int {
    m.vals[i * m.size + j] as int
}

/// The partial dot product of row `i` of `a` against column `j` of `b`,
/// over the first `k` terms.
pub open spec fn mul_dot(a: MatrixView, b: MatrixView, i: int, j: int, k: int) -> int
    decreases k,
{
    if k <= 0 {
        0
    } else {
        mul_dot(a, b, i, j, k - 1) + mat_entry(a, i, k - 1) * mat_entry(b, k - 1, j)
    }
}

/// The entry of the modular matrix product `a * b` at row `i`, column `j`.
pub open spec fn mat_mul_entry(a: MatrixView, b: MatrixView, i: int, j: int) -> int {
    mul_dot(a, b, i, j, a.size as int) % (a.modulo as int)
}

/// The modular product `a * b` is the identity matrix.
pub open spec fn mat_product_identity(a: MatrixView, b: MatrixView) -> bool {
    forall|i: int, j: int|
        0 <= i < a.size && 0 <= j < a.size ==> #[trigger] mat_mul_entry(a, b, i, j) == (
        if i == j {
            1int % (a.modulo as int)
        } else {
            0int
        })
}

/// The partial dot product of row `i` of `m` against a vector of residues,
/// over the first `k` terms.
pub open spec fn vec_dot(m: MatrixView, x: Seq<ModuloU8>, i: int, k: int) -> int
    decreases k,
{
    if k <= 0 {
        0
    } else {
        vec_dot(m, x, i, k - 1) + mat_entry(m, i, k - 1) * x[k - 1].value
    }
}

/// The entry `i` of the modular matrix-vector product `m * x`.
pub open spec fn mat_vec_entry(m: MatrixView, x: Seq<ModuloU8>, i: int) -> int {
    vec_dot(m, x, i, m.size as int) % (m.modulo as int)
}

/// The partial sum over `j < jmax` of `b[i][j]` times the dot product of
/// row `j` of `a` with `x` truncated at `t` terms: the unreduced left side
/// of the product exchange.
spec fn lhs_t(b: MatrixView, a: MatrixView, x: Seq<ModuloU8>, i: int, jmax: int, t: int) -> int
    decreases jmax,
{
    if jmax <= 0 {
        0
    } else {
        lhs_t(b, a, x, i, jmax - 1, t) + mat_entry(b, i, jmax - 1) * vec_dot(a, x, jmax - 1, t)
    }
}

/// The partial sum over `k < kmax` of entry `(i, k)` of `b * a` unreduced,
/// times `x[k]`: the right side of the product exchange.
spec fn rhs_sum(b: MatrixView, a: MatrixView, x: Seq<ModuloU8>, i: int, kmax: int) -> int
    decreases kmax,
{
    if kmax <= 0 {
        0
    } else {
        rhs_sum(b, a, x, i, kmax - 1) + mul_dot(b, a, i, kmax - 1, b.size as int) * x[kmax
            - 1].value
    }
}

/// Dropping the inner reductions does not change the outer sum modulo the
/// modulus.
proof fn lemma_mod_lift(
    b: MatrixView,
    a: MatrixView,
    x: Seq<ModuloU8>,
    y: Seq<ModuloU8>,
    i: int,
    k: int,
)
    requires
        a.modulo == b.modulo,
        1 <= a.modulo,
        0 <= k <= y.len(),
        forall|t: int|
            0 <= t < y.len() ==> (#[trigger] y[t]).value as int == vec_dot(a, x, t, a.size as int)
                % (a.modulo as int),
    ensures
        vec_dot(b, y, i, k) % (b.modulo as int) == lhs_t(b, a, x, i, k, a.size as int) % (
        b.modulo as int),
    decreases k,
{
    let md = b.modulo as int;
    if k > 0 {
        lemma_mod_lift(b, a, x, y, i, k - 1);
        let e = mat_entry(b, i, k - 1);
        let d = vec_dot(a, x, k - 1, a.size as int);
        let vd = vec_dot(b, y, i, k - 1);
        let ls = lhs_t(b, a, x, i, k - 1, a.size as int);
        // The term e * (d % md) matches e * d modulo md.
        lemma_mul_mod_noop_right(e, d, md);
        lemma_add_mod_noop(vd, e * (d % md), md);
        lemma_add_mod_noop(vd, e * d, md);
        lemma_add_mod_noop(ls, e * d, md);
        assert((vd + e * (d % md)) % md == (vd + e * d) % md);
        assert((vd + e * d) % md == (ls + e * d) % md);
    }
}

/// The sum of the first `jmax` terms vanishes when the inner dot products
/// are empty.
proof fn lemma_lhs_t_zero(b: MatrixView, a: MatrixView, x: Seq<ModuloU8>, i: int, jmax: int)
    ensures
        lhs_t(b, a, x, i, jmax, 0) == 0,
    decreases jmax,
{
    if jmax > 0 {
        lemma_lhs_t_zero(b, a, x, i, jmax - 1);
    }
}

/// Extending every inner dot product by its `t`-th term adds one column's
/// worth: the inductive step of the exchange.
proof fn lemma_lhs_t_step(
    b: MatrixView,
    a: MatrixView,
    x: Seq<ModuloU8>,
    i: int,
    jmax: int,
    t: int,
)
    requires
        0 <= t,
    ensures
        lhs_t(b, a, x, i, jmax, t + 1) == lhs_t(b, a, x, i, jmax, t) + mul_dot(b, a, i, t, jmax)
            * x[t].value,
    decreases jmax,
{
    if jmax <= 0 {
        assert(mul_dot(b, a, i, t, jmax) * x[t].value == 0) by (nonlinear_arith)
            requires
                mul_dot(b, a, i, t, jmax) == 0,
        ;
    } else {
        lemma_lhs_t_step(b, a, x, i, jmax - 1, t);
        let e = mat_entry(b, i, jmax - 1);
        let aa = mat_entry(a, jmax - 1, t);
        let xv = x[t].value as int;
        let vdt = vec_dot(a, x, jmax - 1, t);
        assert(vec_dot(a, x, jmax - 1, t + 1) == vdt + aa * xv);
        assert(e * (vdt + aa * xv) == e * vdt + e * aa * xv) by (nonlinear_arith);
        assert(mul_dot(b, a, i, t, jmax) == mul_dot(b, a, i, t, jmax - 1) + e * aa);
        assert((mul_dot(b, a, i, t, jmax - 1) + e * aa) * xv == mul_dot(b, a, i, t, jmax - 1) * xv
            + e * aa * xv) by (nonlinear_arith);
    }
}

/// The exchange itself: summing rows of reduced dot products equals
/// summing unreduced product-matrix entries against the vector.
proof fn lemma_exchange(b: MatrixView, a: MatrixView, x: Seq<ModuloU8>, i: int, t: int)
    requires
        a.size == b.size,
        0 <= t,
    ensures
        lhs_t(b, a, x, i, b.size as int, t) == rhs_sum(b, a, x, i, t),
    decreases t,
{
    if t == 0 {
        lemma_lhs_t_zero(b, a, x, i, b.size as int);
    } else {
        lemma_exchange(b, a, x, i, t - 1);
        lemma_lhs_t_step(b, a, x, i, b.size as int, t - 1);
    }
}

/// Against an identity product the right side reduces to the lone entry
/// `x[i]`.
proof fn lemma_rhs_identity(b: MatrixView, a: MatrixView, x: Seq<ModuloU8>, i: int, k: int)
    requires
        matrix_wf(a),
        matrix_wf(b),
        a.size == b.size,
        a.modulo == b.modulo,
        mat_product_identity(b, a),
        0 <= i < b.size,
        0 <= k <= b.size,
        forall|t: int| 0 <= t < x.len() ==> (#[trigger] x[t]).value < x[t].modulo,
        x.len() == a.size,
    ensures
        rhs_sum(b, a, x, i, k) % (b.modulo as int) == (if i < k {
            x[i].value as int
        } else {
            0int
        }) % (b.modulo as int),
    decreases k,
{
    let md = b.modulo as int;
    if k > 0 {
        lemma_rhs_identity(b, a, x, i, k - 1);
        let c = mul_dot(b, a, i, k - 1, b.size as int);
        let xv = x[k - 1].value as int;
        let prev = rhs_sum(b, a, x, i, k - 1);
        assert(mat_mul_entry(b, a, i, k - 1) == (if i == k - 1 {
            1int % md
        } else {
            0int
        }));
        lemma_mul_mod_noop_left(c, xv, md);
        assert((c * xv) % md == ((c % md) * xv) % md);
        lemma_add_mod_noop(prev, c * xv, md);
        if i == k - 1 {
            // The lone surviving term contributes x[i].
            lemma_mul_mod_noop_left(1, xv, md);
            assert(((1int % md) * xv) % md == (1 * xv) % md);
            assert(1 * xv == xv);
            assert((c * xv) % md == xv % md);
            assert((prev + c * xv) % md == ((prev % md) + ((c * xv) % md)) % md);
            assert(prev % md == 0int % md);
            lemma_small_mod(0nat, b.modulo as nat);
            assert((prev + c * xv) % md == (0 + (xv % md)) % md);
            vstd::arithmetic::div_mod::lemma_mod_twice(xv, md);
            assert((xv % md) % md == xv % md);
        } else {
            assert(((0int) * xv) % md == 0int % md) by {
                assert((0int) * xv == 0) by (nonlinear_arith);
            }
            assert((c * xv) % md == 0int % md);
            assert((prev + c * xv) % md == ((prev % md) + ((c * xv) % md)) % md);
            lemma_small_mod(0nat, b.modulo as nat);
            if i < k - 1 {
                lemma_add_mod_noop(x[i].value as int, 0, md);
                vstd::arithmetic::div_mod::lemma_mod_twice(x[i].value as int, md);
            } else {
                vstd::arithmetic::div_mod::lemma_mod_twice(0, md);
            }
        }
    }
}

/// A block multiplied by a matrix and then by a left inverse of that
/// matrix comes back unchanged: the heart of the Hill round trip.
pub proof fn lemma_mat_vec_round_trip(
    a: MatrixView,
    b: MatrixView,
    x: Seq<ModuloU8>,
    y: Seq<ModuloU8>,
)
    requires
        matrix_wf(a),
        matrix_wf(b),
        a.size == b.size,
        a.modulo == b.modulo,
        mat_product_identity(b, a),
        x.len() == a.size,
        forall|t: int|
            0 <= t < x.len() ==> (#[trigger] x[t]).wf() && x[t].modulo == a.modulo,
        y.len() == a.size,
        forall|t: int|
            0 <= t < y.len() ==> (#[trigger] y[t]).value as int == mat_vec_entry(a, x, t),
    ensures
        forall|i: int| 0 <= i < b.size ==> #[trigger] mat_vec_entry(b, y, i) == x[i].value,
{
    let md = b.modulo as int;
    assert forall|i: int| 0 <= i < b.size implies #[trigger] mat_vec_entry(b, y, i)
        == x[i].value by {
        lemma_mod_lift(b, a, x, y, i, b.size as int);
        lemma_exchange(b, a, x, i, b.size as int);
        lemma_rhs_identity(b, a, x, i, b.size as int);
        assert(mat_vec_entry(b, y, i) == (x[i].value as int) % md);
        lemma_small_mod(x[i].value as nat, b.modulo as nat);
    }
}

/// The unique modular inverse of a residue, where one exists.
pub open spec fn mod_inverse(v: u8, md: u8) -> u8 {
    choose|x: u8| x < md && #[trigger] ((v * x) % (md as int)) == 1int % (md as int)
}

/// A witness pins `mod_inverse` down: any residue that inverts `v` is the
/// chosen one.
pub proof fn lemma_mod_inverse_value(v: u8, md: u8, x: u8)
    requires
        1 <= md,
        x < md,
        (v * x) % (md as int) == 1int % (md as int),
    ensures
        mod_inverse(v, md) == x,
{
    assert(exists|q: u8| q < md && #[trigger] ((v * q) % (md as int)) == 1int % (md as int)) by {
        assert(x < md && (v * x) % (md as int) == 1int % (md as int));
    }
    let y = mod_inverse(v, md);
    assert(y < md && (v * y) % (md as int) == 1int % (md as int));
    lemma_inverse_unique(v as int, md as int, x as int, y as int);
}

/// The pivot search of the elimination: the largest residue in column `i`
/// among the rows from `k` down, starting from the running best.
pub open spec fn pivot_scan(a: Seq<u8>, n: int, i: int, k: int, best: u8, bi: int) -> (u8, int)
    decreases n - k,
{
    if k >= n {
        (best, bi)
    } else {
        let t = a[k * n + i];
        if t > best {
            pivot_scan(a, n, i, k + 1, t, k)
        } else {
            pivot_scan(a, n, i, k + 1, best, bi)
        }
    }
}

/// Rows `r1` and `r2` with their first `j` columns exchanged.
pub open spec fn swap_cells(a: Seq<u8>, n: int, r1: int, r2: int, j: int) -> Seq<u8>
    decreases j,
{
    if j <= 0 {
        a
    } else {
        let b = swap_cells(a, n, r1, r2, j - 1);
        b.update(r1 * n + (j - 1), b[r2 * n + (j - 1)]).update(r2 * n + (j - 1), b[r1 * n + (j - 1)])
    }
}

/// Row `j` of the forward elimination after its columns up to `upto` have
/// been reduced against pivot row `i`.
pub open spec fn elim_cells(a: Seq<u8>, n: int, md: u8, i: int, j: int, upto: int) -> Seq<u8>
    decreases upto - i - 1,
{
    if upto <= i + 1 {
        a
    } else {
        let b = elim_cells(a, n, md, i, j, upto - 1);
        let k2 = upto - 1;
        let t = (b[j * n + i] * b[i * n + k2]) % (md as int);
        b.update(j * n + k2, ((b[j * n + k2] - t) % (md as int)) as u8)
    }
}

/// The rows below pivot row `i` up to `upto`, each scaled by the pivot's
/// inverse and reduced; fails with the pivot's coprimality error when the
/// pivot has no inverse.
pub open spec fn elim_rows(a: Seq<u8>, n: int, md: u8, i: int, upto: int) -> Result<
    Seq<u8>,
    CoprimeError,
>
    decreases upto - i - 1,
{
    if upto <= i + 1 {
        Ok(a)
    } else {
        match elim_rows(a, n, md, i, upto - 1) {
            Err(e) => Err(e),
            Ok(b) => {
                let j = upto - 1;
                let piv = b[i * n + i];
                if spec_gcd(piv as nat, md as nat) != 1 {
                    Err(
                        CoprimeError {
                            value: piv,
                            modulo: md,
                            gcd: spec_gcd(piv as nat, md as nat) as u8,
                        },
                    )
                } else {
                    let scaled = ((b[j * n + i] * mod_inverse(piv, md)) % (md as int)) as u8;
                    Ok(elim_cells(b.update(j * n + i, scaled), n, md, i, j, n))
                }
            },
        }
    }
}

/// One column of the forward elimination: pivot search, row exchange, and
/// the reduction of the rows below.
pub open spec fn forward_step(st: (Seq<u8>, Seq<usize>), n: int, md: u8, i: int) -> Result<
    (Seq<u8>, Seq<usize>),
    MatrixInversionError,
> {
    let (a, p) = st;
    let (mx, im) = pivot_scan(a, n, i, i, 0, i);
    if mx == 0 {
        Err(MatrixInversionError::DegenerateError)
    } else {
        let a1 = (if im != i {
            swap_cells(a, n, i, im, n)
        } else {
            a
        });
        let p1 = (if im != i {
            p.update(i, p[im]).update(im, p[i])
        } else {
            p
        });
        match elim_rows(a1, n, md, i, n) {
            Err(e) => Err(MatrixInversionError::CoprimeError(e)),
            Ok(a2) => Ok((a2, p1)),
        }
    }
}

/// The forward elimination over the first `upto` columns.
pub open spec fn forward_elim(st: (Seq<u8>, Seq<usize>), n: int, md: u8, upto: int) -> Result<
    (Seq<u8>, Seq<usize>),
    MatrixInversionError,
>
    decreases upto,
{
    if upto <= 0 {
        Ok(st)
    } else {
        match forward_elim(st, n, md, upto - 1) {
            Err(e) => Err(e),
            Ok(st2) => forward_step(st2, n, md, upto - 1),
        }
    }
}

/// Cell `(i2, j)` of the result after its forward-substitution reductions
/// against the rows below `upto`.
pub open spec fn bs_fwd_cells(
    ia: Seq<u8>,
    a: Seq<u8>,
    n: int,
    md: u8,
    i2: int,
    j: int,
    upto: int,
) -> Seq<u8>
    decreases upto,
{
    if upto <= 0 {
        ia
    } else {
        let b = bs_fwd_cells(ia, a, n, md, i2, j, upto - 1);
        let k2 = upto - 1;
        let t = (a[i2 * n + k2] * b[k2 * n + j]) % (md as int);
        b.update(i2 * n + j, ((b[i2 * n + j] - t) % (md as int)) as u8)
    }
}

/// The forward substitution of column `j` over the first `upto` rows:
/// seed from the permuted identity, then reduce.
pub open spec fn bs_fwd(
    ia: Seq<u8>,
    a: Seq<u8>,
    p: Seq<usize>,
    n: int,
    md: u8,
    j: int,
    upto: int,
) -> Seq<u8>
    decreases upto,
{
    if upto <= 0 {
        ia
    } else {
        let b = bs_fwd(ia, a, p, n, md, j, upto - 1);
        let i2 = upto - 1;
        let b2 = b.update(
            i2 * n + j,
            (if p[i2] == j {
                ((1int % (md as int)) as u8)
            } else {
                0u8
            }),
        );
        bs_fwd_cells(b2, a, n, md, i2, j, i2)
    }
}

/// Cell `(i3, j)` reduced against the already-finished rows above `upto`.
pub open spec fn bs_back_cells(
    ia: Seq<u8>,
    a: Seq<u8>,
    n: int,
    md: u8,
    i3: int,
    j: int,
    upto: int,
) -> Seq<u8>
    decreases upto - i3 - 1,
{
    if upto <= i3 + 1 {
        ia
    } else {
        let b = bs_back_cells(ia, a, n, md, i3, j, upto - 1);
        let k2 = upto - 1;
        let t = (a[i3 * n + k2] * b[k2 * n + j]) % (md as int);
        b.update(i3 * n + j, ((b[i3 * n + j] - t) % (md as int)) as u8)
    }
}

/// The back substitution of column `j` over the `remaining` lowest rows,
/// from the bottom up; fails when a diagonal pivot has no inverse.
pub open spec fn bs_back(
    ia: Seq<u8>,
    a: Seq<u8>,
    n: int,
    md: u8,
    j: int,
    remaining: int,
) -> Result<Seq<u8>, CoprimeError>
    decreases remaining,
{
    if remaining <= 0 {
        Ok(ia)
    } else {
        let r = remaining - 1;
        let b = bs_back_cells(ia, a, n, md, r, j, n);
        let piv = a[r * n + r];
        if spec_gcd(piv as nat, md as nat) != 1 {
            Err(CoprimeError { value: piv, modulo: md, gcd: spec_gcd(piv as nat, md as nat) as u8 })
        } else {
            let nv = ((b[r * n + j] * mod_inverse(piv, md)) % (md as int)) as u8;
            bs_back(b.update(r * n + j, nv), a, n, md, j, r)
        }
    }
}

/// The whole back substitution over the first `upto` columns.
pub open spec fn bs_cols(
    ia: Seq<u8>,
    a: Seq<u8>,
    p: Seq<usize>,
    n: int,
    md: u8,
    upto: int,
) -> Result<Seq<u8>, CoprimeError>
    decreases upto,
{
    if upto <= 0 {
        Ok(ia)
    } else {
        match bs_cols(ia, a, p, n, md, upto - 1) {
            Err(e) => Err(e),
            Ok(b) => bs_back(bs_fwd(b, a, p, n, md, upto - 1, n), a, n, md, upto - 1, n),
        }
    }
}

/// An all-zero row-major buffer.
pub open spec fn zero_grid(n: int) -> Seq<u8> {
    Seq::new((n * n) as nat, |t: int| 0u8)
}

/// The identity permutation.
pub open spec fn init_perm(n: int) -> Seq<usize> {
    Seq::new(n as nat, |t: int| t as usize)
}

/// What the Gauss-Jordan elimination computes on a matrix: the candidate
/// inverse's entries, or the exact failure it stops with.
pub open spec fn gauss_candidate(m: MatrixView) -> Result<Seq<u8>, MatrixInversionError> {
    let n = m.size as int;
    match forward_elim((m.vals, init_perm(n)), n, m.modulo, n) {
        Err(e) => Err(e),
        Ok(st) => match bs_cols(zero_grid(n), st.0, st.1, n, m.modulo, n) {
            Err(e) => Err(MatrixInversionError::CoprimeError(e)),
            Ok(ia) => Ok(ia),
        },
    }
}

/// A failed row fails every longer elimination prefix.
proof fn lemma_elim_rows_err(a: Seq<u8>, n: int, md: u8, i: int, u1: int, u2: int)
    requires
        elim_rows(a, n, md, i, u1) is Err,
        u1 <= u2,
    ensures
        elim_rows(a, n, md, i, u2) == elim_rows(a, n, md, i, u1),
    decreases u2 - u1,
{
    if u1 < u2 {
        lemma_elim_rows_err(a, n, md, i, u1, u2 - 1);
    }
}

/// A failed column fails every longer forward prefix.
proof fn lemma_forward_elim_err(st: (Seq<u8>, Seq<usize>), n: int, md: u8, u1: int, u2: int)
    requires
        forward_elim(st, n, md, u1) is Err,
        u1 <= u2,
    ensures
        forward_elim(st, n, md, u2) == forward_elim(st, n, md, u1),
    decreases u2 - u1,
{
    if u1 < u2 {
        lemma_forward_elim_err(st, n, md, u1, u2 - 1);
    }
}

/// A failed column fails every longer back-substitution prefix.
proof fn lemma_bs_cols_err(
    ia: Seq<u8>,
    a: Seq<u8>,
    p: Seq<usize>,
    n: int,
    md: u8,
    u1: int,
    u2: int,
)
    requires
        bs_cols(ia, a, p, n, md, u1) is Err,
        u1 <= u2,
    ensures
        bs_cols(ia, a, p, n, md, u2) == bs_cols(ia, a, p, n, md, u1),
    decreases u2 - u1,
{
    if u1 < u2 {
        lemma_bs_cols_err(ia, a, p, n, md, u1, u2 - 1);
    }
}

/// A dot product against one column of a matrix is the corresponding
/// partial product entry.
proof fn lemma_vec_dot_is_mul_dot(
    a: MatrixView,
    b: MatrixView,
    x: Seq<ModuloU8>,
    i: int,
    j: int,
    k: int,
)
    requires
        0 <= k,
        forall|t: int| 0 <= t < k ==> (#[trigger] x[t]).value as int == mat_entry(b, t, j),
    ensures
        vec_dot(a, x, i, k) == mul_dot(a, b, i, j, k),
    decreases k,
{
    if k > 0 {
        lemma_vec_dot_is_mul_dot(a, b, x, i, j, k - 1);
    }
}

/// A dot product against a vector that is zero in all but one slot picks
/// out the matching entry.
proof fn lemma_vec_dot_delta(m: MatrixView, y: Seq<ModuloU8>, i: int, j: int, k: int)
    requires
        0 <= j,
        0 <= k,
        forall|t: int|
            0 <= t < k ==> (#[trigger] y[t]).value as int == (if t == j {
                1int % (m.modulo as int)
            } else {
                0int
            }),
    ensures
        vec_dot(m, y, i, k) == (if j < k {
            mat_entry(m, i, j) * (1int % (m.modulo as int))
        } else {
            0int
        }),
    decreases k,
{
    if k > 0 {
        lemma_vec_dot_delta(m, y, i, j, k - 1);
        if k - 1 != j {
            assert(mat_entry(m, i, k - 1) * 0 == 0) by (nonlinear_arith);
        }
    }
}

/// A matrix has at most one two-sided partner: a left inverse equals any
/// right inverse, so the modular inverse of a matrix is unique where it
/// exists.
pub proof fn lemma_matrix_inverse_unique(a: MatrixView, b1: MatrixView, b2: MatrixView)
    requires
        matrix_wf(a),
        matrix_wf(b1),
        matrix_wf(b2),
        b1.size == a.size,
        b2.size == a.size,
        b1.modulo == a.modulo,
        b2.modulo == a.modulo,
        mat_product_identity(b1, a),
        mat_product_identity(a, b2),
    ensures
        b1.vals == b2.vals,
{
    let n = a.size as int;
    let md = a.modulo as int;
    assert forall|i: int, j: int| 0 <= i < n && 0 <= j < n implies mat_entry(b1, i, j) == mat_entry(
        b2,
        i,
        j,
    ) by {
        // Column j of b2, and its image under a, which is the identity
        // column.
        let x = Seq::new(n as nat, |t: int| ModuloU8 { value: b2.vals[t * n + j], modulo: a.modulo });
        let y = Seq::new(
            n as nat,
            |t: int|
                ModuloU8 {
                    value: (if t == j {
                        (1int % md) as u8
                    } else {
                        0u8
                    }),
                    modulo: a.modulo,
                },
        );
        assert forall|t: int| 0 <= t < n implies (#[trigger] x[t]).wf() && x[t].modulo == a.modulo
            && x[t].value as int == mat_entry(b2, t, j) by {
            lemma_mat_index(t, j, n);
        }
        assert forall|t: int| 0 <= t < n implies (#[trigger] y[t]).value as int == mat_vec_entry(
            a,
            x,
            t,
        ) by {
            lemma_vec_dot_is_mul_dot(a, b2, x, t, j, n);
            assert(mat_mul_entry(a, b2, t, j) == (if t == j {
                1int % md
            } else {
                0int
            }));
        }
        lemma_mat_vec_round_trip(a, b1, x, y);
        assert(mat_vec_entry(b1, y, i) == x[i].value);
        // The same product read directly against the identity column.
        lemma_vec_dot_delta(b1, y, i, j, n);
        assert(vec_dot(b1, y, i, n) == mat_entry(b1, i, j) * (1int % md));
        lemma_mat_index(i, j, n);
        if md == 1 {
            assert(mat_entry(b1, i, j) == 0 && mat_entry(b2, i, j) == 0);
        } else {
            lemma_small_mod(1nat, a.modulo as nat);
            assert(1int % md == 1);
            assert(mat_entry(b1, i, j) * 1 == mat_entry(b1, i, j));
            lemma_small_mod(b1.vals[i * n + j] as nat, a.modulo as nat);
            assert(mat_vec_entry(b1, y, i) == mat_entry(b1, i, j));
        }
    }
    assert forall|t: int| 0 <= t < b1.vals.len() implies b1.vals[t] == b2.vals[t] by {
        let i = t / n;
        let j = t % n;
        assert(0 <= i < n && 0 <= j < n && t == i * n + j) by (nonlinear_arith)
            requires
                0 <= t < n * n,
                i == t / n,
                j == t % n,
                n >= 1,
        ;
        assert(mat_entry(b1, i, j) == mat_entry(b2, i, j));
    }
    assert(b1.vals =~= b2.vals);
}

/// A row-major index stays inside the buffer.
proof fn lemma_mat_index(i: int, j: int, n: int)
    requires
        0 <= i < n,
        0 <= j < n,
    ensures
        0 <= i * n + j < n * n,
        i * n + j <= (n - 1) * n + (n - 1),
    decreases n,
{
    assert(0 <= i * n + j && i * n + j < n * n && i * n + j <= (n - 1) * n + (n - 1)) by (
    nonlinear_arith)
        requires
            0 <= i < n,
            0 <= j < n,
    ;
}

/// Reads the entry at row `i`, column `j` of a row-major buffer.
fn grid_at(v: &Vec<u8>, n: usize, i: usize, j: usize) -> (r: u8)
    requires
        v@.len() == n * n,
        i < n,
        j < n,
    ensures
        r == v@[i as int * n + j],
        0 <= i as int * n + j < n * n,
{
    proof {
        lemma_mat_index(i as int, j as int, n as int);
    }
    let len = v.len();
    assert(i * n + j < len);
    v[i * n + j]
}

/// Writes the entry at row `i`, column `j` of a row-major buffer.
fn grid_set(v: &mut Vec<u8>, n: usize, i: usize, j: usize, val: u8)
    requires
        old(v)@.len() == n * n,
        i < n,
        j < n,
    ensures
        final(v)@ == old(v)@.update(i as int * n + j, val),
        0 <= i as int * n + j < n * n,
{
    proof {
        lemma_mat_index(i as int, j as int, n as int);
    }
    let len = v.len();
    assert(i * n + j < len);
    v.set(i * n + j, val);
}

impl MatrixU8 {
    /// Builds a matrix from its dimension and its row-major residues, all
    /// reduced under one shared modulus.
    pub fn new(size: usize, arr: Vec<ModuloU8>) -> (r: Self)
        requires
            size >= 1,
            arr@.len() == size * size,
            forall|t: int| 0 <= t < arr@.len() ==> (#[trigger] arr@[t]).wf(),
            forall|t: int| 0 <= t < arr@.len() ==> (#[trigger] arr@[t]).modulo == arr@[0].modulo,
        ensures
            r@.size == size,
            r@.modulo == arr@[0].modulo,
            r@.vals.len() == arr@.len(),
            forall|t: int| 0 <= t < arr@.len() ==> r@.vals[t] == (#[trigger] arr@[t]).value,
            matrix_wf(r@),
    {
        proof {
            lemma_mat_index(0, 0, size as int);
        }
        let modulo = arr[0].modulo;
        let mut vals: Vec<u8> = Vec::new();
        let mut t: usize = 0;
        while t < arr.len()
            invariant
                t <= arr@.len(),
                vals@.len() == t,
                forall|u: int| 0 <= u < t ==> vals@[u] == (#[trigger] arr@[u]).value,
            decreases arr@.len() - t,
        {
            vals.push(arr[t].value);
            t = t + 1;
        }
        proof {
            assert forall|u: int| 0 <= u < vals@.len() implies vals@[u] < modulo by {
                assert(vals@[u] == arr@[u].value);
                assert(arr@[u].wf());
            }
        }
        MatrixU8 { size, modulo, arr: vals }
    }

    /// The dimension of the matrix.
    pub fn size(&self) -> (r: usize)
        ensures
            r == self@.size,
    {
        self.size
    }

    /// The modulus the entries live under.
    pub fn modulo(&self) -> (r: u8)
        ensures
            r == self@.modulo,
    {
        self.modulo
    }

    /// Decides whether `self * other` is the identity matrix under the
    /// shared modulus.
    pub fn is_product_identity(&self, other: &Self) -> (r: bool)
        requires
            matrix_wf(self@),
            matrix_wf(other@),
            self@.size == other@.size,
            self@.modulo == other@.modulo,
        ensures
            r == mat_product_identity(self@, other@),
    {
        let n = self.size;
        let md = self.modulo;
        let mut i: usize = 0;
        while i < n
            invariant
                matrix_wf(self@),
                matrix_wf(other@),
                self@.size == other@.size,
                self@.modulo == other@.modulo,
                n == self@.size,
                md == self@.modulo,
                i <= n,
                forall|i0: int, j0: int|
                    0 <= i0 < i && 0 <= j0 < n ==> #[trigger] mat_mul_entry(self@, other@, i0, j0)
                        == (if i0 == j0 {
                        1int % (md as int)
                    } else {
                        0int
                    }),
            decreases n - i,
        {
            let mut j: usize = 0;
            while j < n
                invariant
                    matrix_wf(self@),
                    matrix_wf(other@),
                    self@.size == other@.size,
                    self@.modulo == other@.modulo,
                    n == self@.size,
                    md == self@.modulo,
                    i < n,
                    j <= n,
                    forall|i0: int, j0: int|
                        0 <= i0 < i && 0 <= j0 < n ==> #[trigger] mat_mul_entry(
                            self@,
                            other@,
                            i0,
                            j0,
                        ) == (if i0 == j0 {
                            1int % (md as int)
                        } else {
                            0int
                        }),
                    forall|j0: int|
                        0 <= j0 < j ==> #[trigger] mat_mul_entry(self@, other@, i as int, j0) == (
                        if i as int == j0 {
                            1int % (md as int)
                        } else {
                            0int
                        }),
                decreases n - j,
            {
                let mut acc: u8 = 0;
                let mut k: usize = 0;
                proof {
                    lemma_small_mod(0nat, md as nat);
                }
                while k < n
                    invariant
                        matrix_wf(self@),
                        matrix_wf(other@),
                        self@.size == other@.size,
                        self@.modulo == other@.modulo,
                        n == self@.size,
                        md == self@.modulo,
                        i < n,
                        j < n,
                        k <= n,
                        acc < md,
                        acc as int == mul_dot(self@, other@, i as int, j as int, k as int) % (
                        md as int),
                    decreases n - k,
                {
                    let av = grid_at(&self.arr, n, i, k);
                    let bv = grid_at(&other.arr, n, k, j);
                    let prod = ModuloU8 { value: av, modulo: md }.mul(
                        ModuloU8 { value: bv, modulo: md },
                    );
                    let ghost partial = mul_dot(self@, other@, i as int, j as int, k as int);
                    let acc2 = ModuloU8 { value: acc, modulo: md }.add(prod);
                    proof {
                        lemma_add_mod_noop(partial, av as int * bv as int, md as int);
                        assert((partial % (md as int) + (av as int * bv as int) % (md as int)) % (
                        md as int) == (partial + av as int * bv as int) % (md as int));
                    }
                    acc = acc2.value;
                    k = k + 1;
                }
                let expected: u8 = if i == j {
                    1 % md
                } else {
                    0
                };
                if acc != expected {
                    proof {
                        assert(mat_mul_entry(self@, other@, i as int, j as int) != (
                        if i as int == j as int {
                            1int % (md as int)
                        } else {
                            0int
                        }));
                        assert(!mat_product_identity(self@, other@));
                    }
                    return false;
                }
                j = j + 1;
            }
            i = i + 1;
        }
        true
    }

    /// The modular matrix-vector product: entry `i` of the result is the
    /// dot product of row `i` with `input`, reduced.
    pub fn slice_mult(&self, input: &[ModuloU8]) -> (out: Vec<ModuloU8>)
        requires
            matrix_wf(self@),
            input@.len() == self@.size,
            forall|t: int| 0 <= t < input@.len() ==> (#[trigger] input@[t]).wf(),
            forall|t: int| 0 <= t < input@.len() ==> (#[trigger] input@[t]).modulo == self@.modulo,
        ensures
            out@.len() == self@.size,
            forall|i: int|
                0 <= i < out@.len() ==> (#[trigger] out@[i]).modulo == self@.modulo && out@[i].wf()
                    && out@[i].value as int == mat_vec_entry(self@, input@, i),
    {
        let n = self.size;
        let md = self.modulo;
        let mut out: Vec<ModuloU8> = Vec::new();
        let mut i: usize = 0;
        while i < n
            invariant
                matrix_wf(self@),
                input@.len() == self@.size,
                forall|t: int| 0 <= t < input@.len() ==> (#[trigger] input@[t]).wf(),
                forall|t: int|
                    0 <= t < input@.len() ==> (#[trigger] input@[t]).modulo == self@.modulo,
                n == self@.size,
                md == self@.modulo,
                i <= n,
                out@.len() == i,
                forall|i0: int|
                    0 <= i0 < i ==> (#[trigger] out@[i0]).modulo == md && out@[i0].wf()
                        && out@[i0].value as int == mat_vec_entry(self@, input@, i0),
            decreases n - i,
        {
            let mut acc: u8 = 0;
            let mut k: usize = 0;
            proof {
                lemma_small_mod(0nat, md as nat);
            }
            while k < n
                invariant
                    matrix_wf(self@),
                    input@.len() == self@.size,
                    forall|t: int| 0 <= t < input@.len() ==> (#[trigger] input@[t]).wf(),
                    forall|t: int|
                        0 <= t < input@.len() ==> (#[trigger] input@[t]).modulo == self@.modulo,
                    n == self@.size,
                    md == self@.modulo,
                    i < n,
                    k <= n,
                    acc < md,
                    acc as int == vec_dot(self@, input@, i as int, k as int) % (md as int),
                decreases n - k,
            {
                let av = grid_at(&self.arr, n, i, k);
                let prod = ModuloU8 { value: av, modulo: md }.mul(input[k]);
                let ghost partial = vec_dot(self@, input@, i as int, k as int);
                let acc2 = ModuloU8 { value: acc, modulo: md }.add(prod);
                proof {
                    lemma_add_mod_noop(partial, av as int * input@[k as int].value, md as int);
                }
                acc = acc2.value;
                k = k + 1;
            }
            out.push(ModuloU8 { value: acc, modulo: md });
            i = i + 1;
        }
        out
    }

    /// The modular inverse of the matrix by Gauss-Jordan elimination with
    /// partial pivoting: in each column the row with the largest residue at
    /// or below the pivot row is chosen, so a non-invertible pivot can be
    /// selected even when the matrix is invertible, and the failure then
    /// surfaces as a coprimality error. The contract is exact on both
    /// sides: the elimination follows `gauss_candidate`, failing with
    /// exactly its error, and a candidate counts as the inverse only once
    /// both products check out as the identity.
    pub fn inverse(&self) -> (r: Result<Self, MatrixInversionError>)
        requires
            matrix_wf(self@),
        ensures
            (match r {
                Ok(inv) => {
                    &&& matrix_wf(inv@)
                    &&& inv@.size == self@.size
                    &&& inv@.modulo == self@.modulo
                    &&& mat_product_identity(self@, inv@)
                    &&& mat_product_identity(inv@, self@)
                },
                Err(_) => true,
            }),
            (match gauss_candidate(self@) {
                Err(e) => r == Err::<MatrixU8, MatrixInversionError>(e),
                Ok(vals) => {
                    let cand = MatrixView { size: self@.size, modulo: self@.modulo, vals };
                    if mat_product_identity(self@, cand) && mat_product_identity(cand, self@) {
                        r matches Ok(inv) && inv@ == cand
                    } else {
                        r == Err::<MatrixU8, MatrixInversionError>(
                            MatrixInversionError::DegenerateError,
                        )
                    }
                },
            }),
            (match r {
                Err(MatrixInversionError::CoprimeError(e)) => {
                    &&& e.modulo == self@.modulo
                    &&& e.gcd == spec_gcd(e.value as nat, e.modulo as nat)
                    &&& e.gcd != 1
                },
                _ => true,
            }),
    {
        let n = self.size;
        let md = self.modulo;
        let ghost st0 = (self@.vals, init_perm(n as int));
        // A scratch copy of the entries.
        let mut a: Vec<u8> = Vec::new();
        let mut t: usize = 0;
        while t < self.arr.len()
            invariant
                t <= self.arr@.len(),
                a@.len() == t,
                forall|u: int| 0 <= u < t ==> a@[u] == self.arr@[u],
            decreases self.arr@.len() - t,
        {
            a.push(self.arr[t]);
            t = t + 1;
        }
        let mut p: Vec<usize> = Vec::new();
        let mut t2: usize = 0;
        while t2 < n
            invariant
                p@.len() == t2,
                t2 <= n,
                forall|u: int| 0 <= u < t2 ==> p@[u] == u,
            decreases n - t2,
        {
            p.push(t2);
            t2 = t2 + 1;
        }
        proof {
            assert(a@ =~= self@.vals);
            assert(p@ =~= init_perm(n as int));
            assert(forward_elim(st0, n as int, md, 0) == Ok::<_, MatrixInversionError>((a@, p@)));
        }
        let mut i: usize = 0;
        while i < n
            invariant
                n == self@.size,
                md == self@.modulo,
                md >= 1,
                n >= 1,
                matrix_wf(self@),
                st0 == (self@.vals, init_perm(n as int)),
                a@.len() == n * n,
                p@.len() == n,
                i <= n,
                forall|u: int| 0 <= u < a@.len() ==> a@[u] < md,
                forward_elim(st0, n as int, md, i as int) == Ok::<_, MatrixInversionError>(
                    (a@, p@),
                ),
            decreases n - i,
        {
            let ghost apre = a@;
            let ghost ppre = p@;
            // Partial pivoting: the largest residue at or below the pivot row.
            let mut max_a: u8 = 0;
            let mut imax: usize = i;
            let mut k: usize = i;
            while k < n
                invariant
                    n == self@.size,
                    a@.len() == n * n,
                    a@ == apre,
                    i < n,
                    i <= imax < n,
                    i <= k <= n,
                    pivot_scan(apre, n as int, i as int, i as int, 0u8, i as int) == pivot_scan(
                        apre,
                        n as int,
                        i as int,
                        k as int,
                        max_a,
                        imax as int,
                    ),
                decreases n - k,
            {
                let temp = grid_at(&a, n, k, i);
                if temp > max_a {
                    max_a = temp;
                    imax = k;
                }
                k = k + 1;
            }
            proof {
                assert(pivot_scan(apre, n as int, i as int, i as int, 0u8, i as int) == (
                    max_a,
                    imax as int,
                ));
            }
            if max_a == 0 {
                proof {
                    assert(forward_step((apre, ppre), n as int, md, i as int) == Err::<
                        (Seq<u8>, Seq<usize>),
                        _,
                    >(MatrixInversionError::DegenerateError));
                    assert(forward_elim(st0, n as int, md, i + 1) == Err::<
                        (Seq<u8>, Seq<usize>),
                        _,
                    >(MatrixInversionError::DegenerateError));
                    lemma_forward_elim_err(st0, n as int, md, i + 1, n as int);
                }
                return Err(MatrixInversionError::DegenerateError);
            }
            if imax != i {
                let tmp_p = p[i];
                let tmp_p2 = p[imax];
                p.set(i, tmp_p2);
                p.set(imax, tmp_p);
                let ghost aswap0 = a@;
                let mut j: usize = 0;
                while j < n
                    invariant
                        n == self@.size,
                        md >= 1,
                        a@.len() == n * n,
                        i < n,
                        i < imax < n,
                        j <= n,
                        forall|u: int| 0 <= u < a@.len() ==> a@[u] < md,
                        a@ == swap_cells(aswap0, n as int, i as int, imax as int, j as int),
                    decreases n - j,
                {
                    let x = grid_at(&a, n, i, j);
                    let y = grid_at(&a, n, imax, j);
                    grid_set(&mut a, n, i, j, y);
                    grid_set(&mut a, n, imax, j, x);
                    j = j + 1;
                }
            }
            let ghost a1 = a@;
            let ghost p1 = p@;
            proof {
                assert(a1 == (if imax != i {
                    swap_cells(apre, n as int, i as int, imax as int, n as int)
                } else {
                    apre
                }));
                assert(p1 == (if imax != i {
                    ppre.update(i as int, ppre[imax as int]).update(imax as int, ppre[i as int])
                } else {
                    ppre
                }));
                assert(elim_rows(a1, n as int, md, i as int, i + 1) == Ok::<_, CoprimeError>(a@));
            }
            // Eliminate below the pivot.
            let mut j: usize = i + 1;
            while j < n
                invariant
                    n == self@.size,
                    md == self@.modulo,
                    md >= 1,
                    matrix_wf(self@),
                    st0 == (self@.vals, init_perm(n as int)),
                    a@.len() == n * n,
                    p@ == p1,
                    p@.len() == n,
                    i < n,
                    i < j <= n,
                    i <= imax < n,
                    max_a != 0,
                    forall|u: int| 0 <= u < a@.len() ==> a@[u] < md,
                    forward_elim(st0, n as int, md, i as int) == Ok::<_, MatrixInversionError>(
                        (apre, ppre),
                    ),
                    pivot_scan(apre, n as int, i as int, i as int, 0u8, i as int) == (
                        max_a,
                        imax as int,
                    ),
                    a1 == (if imax != i {
                        swap_cells(apre, n as int, i as int, imax as int, n as int)
                    } else {
                        apre
                    }),
                    p1 == (if imax != i {
                        ppre.update(i as int, ppre[imax as int]).update(imax as int, ppre[i as int])
                    } else {
                        ppre
                    }),
                    elim_rows(a1, n as int, md, i as int, j as int) == Ok::<_, CoprimeError>(a@),
                decreases n - j,
            {
                let ghost row0 = a@;
                let piv = ModuloU8 { value: grid_at(&a, n, i, i), modulo: md };
                let pinv = (match piv.inverse() {
                    Ok(v) => v,
                    Err(e) => {
                        proof {
                            lemma_gcd_bounds(e.value as nat, md as nat);
                            assert(elim_rows(a1, n as int, md, i as int, j + 1) == Err::<
                                Seq<u8>,
                                _,
                            >(e));
                            lemma_elim_rows_err(a1, n as int, md, i as int, j + 1, n as int);
                            assert(forward_step((apre, ppre), n as int, md, i as int) == Err::<
                                (Seq<u8>, Seq<usize>),
                                _,
                            >(MatrixInversionError::CoprimeError(e)));
                            assert(forward_elim(st0, n as int, md, i + 1) == Err::<
                                (Seq<u8>, Seq<usize>),
                                _,
                            >(MatrixInversionError::CoprimeError(e)));
                            lemma_forward_elim_err(st0, n as int, md, i + 1, n as int);
                        }
                        return Err(MatrixInversionError::CoprimeError(e));
                    },
                });
                proof {
                    lemma_mod_inverse_value(piv.value, md, pinv.value);
                }
                let scaled = ModuloU8 { value: grid_at(&a, n, j, i), modulo: md }.mul(pinv);
                grid_set(&mut a, n, j, i, scaled.value);
                let ghost b2 = a@;
                proof {
                    assert(b2 == row0.update(
                        j as int * (n as int) + i as int,
                        ((row0[j as int * (n as int) + i as int] * mod_inverse(piv.value, md)) % (
                        md as int)) as u8,
                    ));
                    assert(elim_cells(b2, n as int, md, i as int, j as int, i + 1) == a@);
                }
                let mut k2: usize = i + 1;
                while k2 < n
                    invariant
                        n == self@.size,
                        md == self@.modulo,
                        md >= 1,
                        a@.len() == n * n,
                        i < n,
                        i < j < n,
                        i < k2 <= n,
                        forall|u: int| 0 <= u < a@.len() ==> a@[u] < md,
                        a@ == elim_cells(b2, n as int, md, i as int, j as int, k2 as int),
                    decreases n - k2,
                {
                    let t3 = ModuloU8 { value: grid_at(&a, n, j, i), modulo: md }.mul(
                        ModuloU8 { value: grid_at(&a, n, i, k2), modulo: md },
                    );
                    let nv = ModuloU8 { value: grid_at(&a, n, j, k2), modulo: md }.sub(t3);
                    grid_set(&mut a, n, j, k2, nv.value);
                    k2 = k2 + 1;
                }
                proof {
                    assert(elim_rows(a1, n as int, md, i as int, j + 1) == Ok::<_, CoprimeError>(
                        a@,
                    ));
                }
                j = j + 1;
            }
            proof {
                assert(forward_step((apre, ppre), n as int, md, i as int) == Ok::<
                    _,
                    MatrixInversionError,
                >((a@, p1)));
                assert(forward_elim(st0, n as int, md, i + 1) == Ok::<_, MatrixInversionError>(
                    (a@, p@),
                ));
            }
            i = i + 1;
        }
        proof {
            assert(forward_elim(st0, n as int, md, n as int) == Ok::<_, MatrixInversionError>(
                (a@, p@),
            ));
        }
        // Back substitution against the permuted identity.
        let mut ia: Vec<u8> = Vec::new();
        let mut t4: usize = 0;
        while t4 < n
            invariant
                t4 <= n,
                ia@.len() == t4 * n,
                n == self@.size,
                forall|u: int| 0 <= u < ia@.len() ==> ia@[u] == 0,
            decreases n - t4,
        {
            let mut t5: usize = 0;
            while t5 < n
                invariant
                    t5 <= n,
                    ia@.len() == t4 * n + t5,
                    forall|u: int| 0 <= u < ia@.len() ==> ia@[u] == 0,
                decreases n - t5,
            {
                ia.push(0);
                t5 = t5 + 1;
            }
            proof {
                assert(t4 as int * n + n == (t4 + 1) as int * n) by (nonlinear_arith);
            }
            t4 = t4 + 1;
        }
        proof {
            assert(ia@.len() == n * n);
            assert(ia@ =~= zero_grid(n as int));
            assert(bs_cols(zero_grid(n as int), a@, p@, n as int, md, 0) == Ok::<_, CoprimeError>(
                ia@,
            ));
        }
        let mut j: usize = 0;
        while j < n
            invariant
                n == self@.size,
                md == self@.modulo,
                md >= 1,
                matrix_wf(self@),
                st0 == (self@.vals, init_perm(n as int)),
                forward_elim(st0, n as int, md, n as int) == Ok::<_, MatrixInversionError>(
                    (a@, p@),
                ),
                a@.len() == n * n,
                ia@.len() == n * n,
                p@.len() == n,
                j <= n,
                forall|u: int| 0 <= u < a@.len() ==> a@[u] < md,
                forall|u: int| 0 <= u < ia@.len() ==> ia@[u] < md,
                bs_cols(zero_grid(n as int), a@, p@, n as int, md, j as int) == Ok::<
                    _,
                    CoprimeError,
                >(ia@),
            decreases n - j,
        {
            let ghost col0 = ia@;
            let mut i2: usize = 0;
            while i2 < n
                invariant
                    n == self@.size,
                    md == self@.modulo,
                    md >= 1,
                    a@.len() == n * n,
                    ia@.len() == n * n,
                    p@.len() == n,
                    j < n,
                    i2 <= n,
                    forall|u: int| 0 <= u < a@.len() ==> a@[u] < md,
                    forall|u: int| 0 <= u < ia@.len() ==> ia@[u] < md,
                    bs_fwd(col0, a@, p@, n as int, md, j as int, i2 as int) == ia@,
                decreases n - i2,
            {
                let ghost pre_row = ia@;
                let start: u8 = if p[i2] == j {
                    1 % md
                } else {
                    0
                };
                grid_set(&mut ia, n, i2, j, start);
                let ghost b2g = ia@;
                proof {
                    assert(bs_fwd_cells(b2g, a@, n as int, md, i2 as int, j as int, 0) == ia@);
                }
                let mut k2: usize = 0;
                while k2 < i2
                    invariant
                        n == self@.size,
                        md == self@.modulo,
                        md >= 1,
                        a@.len() == n * n,
                        ia@.len() == n * n,
                        j < n,
                        i2 < n,
                        k2 <= i2,
                        forall|u: int| 0 <= u < a@.len() ==> a@[u] < md,
                        forall|u: int| 0 <= u < ia@.len() ==> ia@[u] < md,
                        ia@ == bs_fwd_cells(b2g, a@, n as int, md, i2 as int, j as int, k2 as int),
                    decreases i2 - k2,
                {
                    let t6 = ModuloU8 { value: grid_at(&a, n, i2, k2), modulo: md }.mul(
                        ModuloU8 { value: grid_at(&ia, n, k2, j), modulo: md },
                    );
                    let nv = ModuloU8 { value: grid_at(&ia, n, i2, j), modulo: md }.sub(t6);
                    grid_set(&mut ia, n, i2, j, nv.value);
                    k2 = k2 + 1;
                }
                proof {
                    assert(bs_fwd_cells(b2g, a@, n as int, md, i2 as int, j as int, i2 as int)
                        == ia@);
                    assert(bs_fwd(col0, a@, p@, n as int, md, j as int, i2 + 1) == ia@);
                }
                i2 = i2 + 1;
            }
            let ghost mid = ia@;
            proof {
                assert(bs_back(mid, a@, n as int, md, j as int, n as int) == bs_back(
                    ia@,
                    a@,
                    n as int,
                    md,
                    j as int,
                    n as int,
                ));
            }
            let mut i3: usize = n;
            while i3 > 0
                invariant
                    n == self@.size,
                    md == self@.modulo,
                    md >= 1,
                    matrix_wf(self@),
                    st0 == (self@.vals, init_perm(n as int)),
                    forward_elim(st0, n as int, md, n as int) == Ok::<_, MatrixInversionError>(
                        (a@, p@),
                    ),
                    a@.len() == n * n,
                    ia@.len() == n * n,
                    p@.len() == n,
                    j < n,
                    i3 <= n,
                    forall|u: int| 0 <= u < a@.len() ==> a@[u] < md,
                    forall|u: int| 0 <= u < ia@.len() ==> ia@[u] < md,
                    bs_cols(zero_grid(n as int), a@, p@, n as int, md, j as int) == Ok::<
                        _,
                        CoprimeError,
                    >(col0),
                    bs_fwd(col0, a@, p@, n as int, md, j as int, n as int) == mid,
                    bs_back(mid, a@, n as int, md, j as int, n as int) == bs_back(
                        ia@,
                        a@,
                        n as int,
                        md,
                        j as int,
                        i3 as int,
                    ),
                decreases i3,
            {
                i3 = i3 - 1;
                let ghost row0b = ia@;
                proof {
                    assert(bs_back_cells(row0b, a@, n as int, md, i3 as int, j as int, i3 + 1)
                        == ia@);
                }
                let mut k2: usize = i3 + 1;
                while k2 < n
                    invariant
                        n == self@.size,
                        md == self@.modulo,
                        md >= 1,
                        a@.len() == n * n,
                        ia@.len() == n * n,
                        j < n,
                        i3 < n,
                        i3 < k2 <= n,
                        forall|u: int| 0 <= u < a@.len() ==> a@[u] < md,
                        forall|u: int| 0 <= u < ia@.len() ==> ia@[u] < md,
                        ia@ == bs_back_cells(
                            row0b,
                            a@,
                            n as int,
                            md,
                            i3 as int,
                            j as int,
                            k2 as int,
                        ),
                    decreases n - k2,
                {
                    let t7 = ModuloU8 { value: grid_at(&a, n, i3, k2), modulo: md }.mul(
                        ModuloU8 { value: grid_at(&ia, n, k2, j), modulo: md },
                    );
                    let nv = ModuloU8 { value: grid_at(&ia, n, i3, j), modulo: md }.sub(t7);
                    grid_set(&mut ia, n, i3, j, nv.value);
                    k2 = k2 + 1;
                }
                let piv = ModuloU8 { value: grid_at(&a, n, i3, i3), modulo: md };
                let pinv = (match piv.inverse() {
                    Ok(v) => v,
                    Err(e) => {
                        proof {
                            lemma_gcd_bounds(e.value as nat, md as nat);
                            assert(bs_back(row0b, a@, n as int, md, j as int, i3 + 1) == Err::<
                                Seq<u8>,
                                _,
                            >(e));
                            assert(bs_back(mid, a@, n as int, md, j as int, n as int) == Err::<
                                Seq<u8>,
                                _,
                            >(e));
                            assert(bs_cols(zero_grid(n as int), a@, p@, n as int, md, j + 1)
                                == Err::<Seq<u8>, _>(e));
                            lemma_bs_cols_err(
                                zero_grid(n as int),
                                a@,
                                p@,
                                n as int,
                                md,
                                j + 1,
                                n as int,
                            );
                        }
                        return Err(MatrixInversionError::CoprimeError(e));
                    },
                });
                proof {
                    lemma_mod_inverse_value(piv.value, md, pinv.value);
                }
                let nv = ModuloU8 { value: grid_at(&ia, n, i3, j), modulo: md }.mul(pinv);
                grid_set(&mut ia, n, i3, j, nv.value);
                proof {
                    assert(bs_back(row0b, a@, n as int, md, j as int, i3 + 1) == bs_back(
                        ia@,
                        a@,
                        n as int,
                        md,
                        j as int,
                        i3 as int,
                    ));
                }
            }
            proof {
                assert(bs_back(mid, a@, n as int, md, j as int, n as int) == Ok::<_, CoprimeError>(
                    ia@,
                ));
                assert(bs_cols(zero_grid(n as int), a@, p@, n as int, md, j + 1) == Ok::<
                    _,
                    CoprimeError,
                >(ia@));
            }
            j = j + 1;
        }
        proof {
            assert(gauss_candidate(self@) == Ok::<_, MatrixInversionError>(ia@));
        }
        let cand = MatrixU8 { size: n, modulo: md, arr: ia };
        // The elimination is trusted for nothing: the result counts as the
        // inverse only once both products check out as the identity.
        if self.is_product_identity(&cand) && cand.is_product_identity(self) {
            Ok(cand)
        } else {
            Err(MatrixInversionError::DegenerateError)
        }
    }
}

} // verus!
