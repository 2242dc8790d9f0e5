use prime_field::element::{FieldElement, FieldElementError};

fn fe(num: i64, prime: i64) -> FieldElement {
    FieldElement::new(num, prime).unwrap()
}

const MERSENNE_61: i64 = 2305843009213693951;

#[test]
fn scenario_add() {
    assert_eq!(fe(2, 19).add(fe(7, 19)).unwrap().to_string(), "FieldElement_19(9)");
}

#[test]
fn scenario_sub() {
    assert_eq!(fe(2, 19).sub(fe(7, 19)).unwrap().to_string(), "FieldElement_19(14)");
}

#[test]
fn scenario_mul() {
    assert_eq!(fe(2, 19).mul(fe(7, 19)).unwrap().to_string(), "FieldElement_19(14)");
}

#[test]
fn scenario_div() {
    assert_eq!(fe(2, 19).div(fe(7, 19)).unwrap().to_string(), "FieldElement_19(3)");
}

#[test]
fn scenario_pow() {
    assert_eq!(fe(2, 19).pow(3).to_string(), "FieldElement_19(8)");
    assert_eq!(fe(2, 19).pow(3), fe(8, 19));
}

#[test]
fn new_accepts_exactly_the_range() {
    for prime in [2i64, 3, 19, 97] {
        for num in -3i64..prime + 3 {
            let r = FieldElement::new(num, prime);
            if 0 <= num && num < prime {
                let e = r.unwrap();
                assert_eq!(e.num(), num);
                assert_eq!(e.prime(), prime);
            } else {
                assert_eq!(r, Err(FieldElementError::InvalidElement));
            }
        }
    }
}

#[test]
fn new_rejects_edges() {
    assert_eq!(FieldElement::new(19, 19), Err(FieldElementError::InvalidElement));
    assert_eq!(FieldElement::new(-1, 19), Err(FieldElementError::InvalidElement));
    assert_eq!(FieldElement::new(0, 0), Err(FieldElementError::InvalidElement));
    assert_eq!(FieldElement::new(i64::MIN, i64::MAX), Err(FieldElementError::InvalidElement));
    assert!(FieldElement::new(i64::MAX - 1, i64::MAX).is_ok());
}

#[test]
fn results_stay_in_range() {
    let p = 31i64;
    for x in 0..p {
        for y in 0..p {
            let a = fe(x, p);
            let b = fe(y, p);
            for r in [a.add(b), a.sub(b), a.mul(b)] {
                let r = r.unwrap();
                assert!(0 <= r.num() && r.num() < p);
                assert_eq!(r.prime(), p);
            }
        }
    }
}

#[test]
fn different_fields_are_refused() {
    let a = fe(2, 19);
    let b = fe(2, 23);
    assert_eq!(a.add(b), Err(FieldElementError::DifferentFields));
    assert_eq!(a.sub(b), Err(FieldElementError::DifferentFields));
    assert_eq!(a.mul(b), Err(FieldElementError::DifferentFields));
    assert_eq!(a.div(b), Err(FieldElementError::DifferentFields));
}

#[test]
fn additive_identity_and_inverse() {
    for p in [2i64, 19, 97] {
        for x in 0..p {
            let a = fe(x, p);
            assert_eq!(a.add(fe(0, p)).unwrap(), a);
            assert_eq!(a.sub(a).unwrap(), fe(0, p));
        }
    }
}

#[test]
fn divide_by_self_is_one() {
    for p in [2i64, 3, 19, 97] {
        for x in 1..p {
            let a = fe(x, p);
            assert_eq!(a.div(a).unwrap(), fe(1, p));
        }
    }
    let big = fe(123456789, MERSENNE_61);
    assert_eq!(big.div(big).unwrap(), fe(1, MERSENNE_61));
}

#[test]
fn fermat_power_is_one() {
    for p in [2i64, 3, 5, 19, 97] {
        for x in 1..p {
            assert_eq!(fe(x, p).pow(p - 1), fe(1, p));
        }
    }
    assert_eq!(fe(2, MERSENNE_61).pow(MERSENNE_61 - 1), fe(1, MERSENNE_61));
}

#[test]
fn division_is_multiplication_by_inverse() {
    let p = 19i64;
    for x in 0..p {
        for y in 1..p {
            let a = fe(x, p);
            let b = fe(y, p);
            assert_eq!(a.div(b).unwrap(), a.mul(b.pow(p - 2)).unwrap());
            assert_eq!(a.div(b).unwrap().mul(b).unwrap(), a);
        }
    }
}

#[test]
fn pow_edge_exponents() {
    assert_eq!(fe(5, 19).pow(0), fe(1, 19));
    assert_eq!(fe(5, 19).pow(-4).num(), 1);
    assert_eq!(fe(5, 19).pow(1), fe(5, 19));
    assert_eq!(fe(0, 19).pow(5), fe(0, 19));
    assert_eq!(fe(3, 7).pow(i64::MAX), fe(3, 7).pow(i64::MAX % 6));
}

#[test]
fn division_by_zero_gives_zero() {
    assert_eq!(fe(5, 19).div(fe(0, 19)).unwrap(), fe(0, 19));
}

#[test]
fn large_operands_do_not_overflow() {
    let p = i64::MAX;
    let m = fe(p - 1, p);
    assert_eq!(m.add(m).unwrap(), fe(p - 2, p));
    assert_eq!(m.mul(m).unwrap(), fe(1, p));
    assert_eq!(fe(0, p).sub(m).unwrap(), fe(1, p));
    assert_eq!(fe(1, p).sub(m).unwrap(), fe(2, p));
}

#[test]
fn rendering() {
    assert_eq!(fe(0, 2).to_string(), "FieldElement_2(0)");
    assert_eq!(fe(1234567, MERSENNE_61).to_string(), "FieldElement_2305843009213693951(1234567)");
    assert_eq!(fe(0, 1).pow(0).to_string(), "FieldElement_1(1)");
}

#[test]
fn error_messages() {
    assert_eq!(
        FieldElementError::DifferentFields.message(),
        "Cannot operate on elements from different fields"
    );
    assert_eq!(FieldElementError::InvalidElement.message(), "Element is not in valid field range");
}
