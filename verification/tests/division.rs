use growable::arith::dividir;

#[test]
fn seventeen_by_five() {
    assert_eq!(dividir(17, 5), (3, 2));
}

#[test]
fn signs_follow_division_toward_zero() {
    assert_eq!(dividir(-17, 5), (-3, -2));
    assert_eq!(dividir(17, -5), (-3, 2));
    assert_eq!(dividir(-17, -5), (3, -2));
}

#[test]
fn zero_dividend_and_exact_division() {
    assert_eq!(dividir(0, 3), (0, 0));
    assert_eq!(dividir(0, -3), (0, 0));
    assert_eq!(dividir(20, 5), (4, 0));
    assert_eq!(dividir(-20, -5), (4, 0));
}

#[test]
fn extremes_of_the_range() {
    assert_eq!(dividir(i32::MIN, 1), (i32::MIN, 0));
    assert_eq!(dividir(i32::MAX, -1), (-i32::MAX, 0));
    assert_eq!(dividir(i32::MIN, i32::MIN), (1, 0));
    assert_eq!(dividir(i32::MAX, i32::MIN), (0, i32::MAX));
    assert_eq!(dividir(i32::MIN, 2), (-1073741824, 0));
    assert_eq!(dividir(i32::MIN, -2), (1073741824, 0));
}

#[test]
fn agrees_with_the_machine_on_a_grid() {
    for a in -50..=50 {
        for b in -7..=7 {
            if b != 0 {
                assert_eq!(dividir(a, b), (a / b, a % b));
                let (q, r) = dividir(a, b);
                assert_eq!(q * b + r, a);
            }
        }
    }
}
