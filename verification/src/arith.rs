use vstd::prelude::*;
use vstd::arithmetic::div_mod::lemma_fundamental_div_mod;

verus! {

/// Magnitude of an integer.
pub open spec fn magnitude(x: int) -> int {
    if x < 0 {
        -x
    } else {
        x
    }
}

/// Quotient of the division that rounds toward zero.
pub open spec fn cociente_spec(dividendo: int, divisor: int) -> int {
    let q = magnitude(dividendo) / magnitude(divisor);
    if (dividendo < 0) == (divisor < 0) {
        q
    } else {
        -q
    }
}

/// Remainder of the division that rounds toward zero; it takes the sign of
/// the dividend.
pub open spec fn residuo_spec(dividendo: int, divisor: int) -> int {
    let r = magnitude(dividendo) % magnitude(divisor);
    if dividendo < 0 {
        -r
    } else {
        r
    }
}

/// Quotient and remainder never disagree with the dividend they came from,
/// and the remainder is smaller in magnitude than the divisor.
pub proof fn lemma_dividir_reconstruye(dividendo: int, divisor: int)
    requires
        divisor != 0,
    ensures
        cociente_spec(dividendo, divisor) * divisor + residuo_spec(dividendo, divisor)
            == dividendo,
        magnitude(residuo_spec(dividendo, divisor)) < magnitude(divisor),
        dividendo >= 0 ==> residuo_spec(dividendo, divisor) >= 0,
        dividendo <= 0 ==> residuo_spec(dividendo, divisor) <= 0,
{
    let a = magnitude(dividendo);
    let b = magnitude(divisor);
    lemma_fundamental_div_mod(a, b);
    let q = a / b;
    let r = a % b;
    assert(a == b * q + r);
    assert(0 <= r < b);
    assert((-q) * divisor == -(q * divisor)) by (nonlinear_arith);
    assert(q * (-divisor) == -(q * divisor)) by (nonlinear_arith);
    assert(b * q == q * b) by (nonlinear_arith);
}

/// Divides and returns `(cociente, residuo)`, rounding toward zero as the
/// machine does. The one quotient that does not fit an `i32`, the smallest
/// integer over minus one, is left out.
pub fn dividir(dividendo: i32, divisor: i32) -> (r: (i32, i32))
    requires
        divisor != 0,
        !(dividendo == i32::MIN && divisor == -1),
    ensures
        r.0 == cociente_spec(dividendo as int, divisor as int),
        r.1 == residuo_spec(dividendo as int, divisor as int),
        r.0 * divisor + r.1 == dividendo,
{
    proof {
        lemma_dividir_reconstruye(dividendo as int, divisor as int);
    }
    if divisor > 0 {
        let cociente: i32 = dividendo / divisor;
        let residuo: i32 = dividendo % divisor;
        assert(cociente == cociente_spec(dividendo as int, divisor as int));
        assert(residuo == residuo_spec(dividendo as int, divisor as int));
        (cociente, residuo)
    } else {
        let a: i64 = dividendo as i64;
        let b: i64 = -(divisor as i64);
        let q: i64 = a / b;
        let residuo: i64 = a % b;
        let ghost m = magnitude(a as int);
        assert(m / (b as int) <= m && (b >= 2 ==> (m / (b as int)) * 2 <= m)) by (nonlinear_arith)
            requires
                b >= 1,
                m >= 0,
        ;
        assert(-0x8000_0000 < q <= 0x7fff_ffff);
        let cociente: i64 = -q;
        assert(cociente == cociente_spec(dividendo as int, divisor as int));
        assert(residuo == residuo_spec(dividendo as int, divisor as int));
        (cociente as i32, residuo as i32)
    }
}

} // verus!
