use gkr::field::FieldElement;

fn f(x: u64) -> FieldElement {
    FieldElement::from_u64(x)
}

// The modulus minus one, as 32 big-endian bytes.
fn minus_one_bytes() -> Vec<u8> {
    vec![
        0x30, 0x64, 0x4e, 0x72, 0xe1, 0x31, 0xa0, 0x29, 0xb8, 0x50, 0x45, 0xb6, 0x81, 0x81, 0x58,
        0x5d, 0x28, 0x33, 0xe8, 0x48, 0x79, 0xb9, 0x70, 0x91, 0x43, 0xe1, 0xf5, 0x93, 0xf0, 0x00,
        0x00, 0x00,
    ]
}

#[test]
fn add_of_small_values() {
    assert_eq!(f(2).add(&f(3)), f(5));
    assert_ne!(f(2).add(&f(3)), f(2));
}

#[test]
fn add_wraps_at_the_modulus() {
    let minus_one = FieldElement::from_be_bytes_mod_order(&minus_one_bytes());
    assert_eq!(minus_one.add(&f(1)), FieldElement::zero());
    assert_eq!(minus_one.add(&f(3)), f(2));
}

#[test]
fn sub_of_small_values() {
    assert_eq!(f(7).sub(&f(3)), f(4));
}

#[test]
fn sub_wraps_below_zero() {
    let minus_one = FieldElement::from_be_bytes_mod_order(&minus_one_bytes());
    assert_eq!(f(0).sub(&f(1)), minus_one);
    assert_eq!(f(2).sub(&f(3)), minus_one);
}

#[test]
fn mul_of_small_values() {
    assert_eq!(f(6).mul(&f(7)), f(42));
    assert_ne!(f(6).mul(&f(7)), f(6));
}

#[test]
fn mul_of_minus_one_by_itself_is_one() {
    let minus_one = FieldElement::from_be_bytes_mod_order(&minus_one_bytes());
    assert_eq!(minus_one.mul(&minus_one), FieldElement::one());
}

#[test]
fn inverse_of_zero_is_nothing() {
    assert!(FieldElement::zero().inverse().is_none());
}

#[test]
fn inverse_times_the_element_is_one() {
    let x = f(123456789);
    let inv = x.inverse().unwrap();
    assert_eq!(inv.mul(&x), FieldElement::one());
    assert_ne!(inv, x);
    assert_eq!(f(1).inverse().unwrap(), f(1));
}

#[test]
fn from_bytes_reads_big_endian() {
    assert_eq!(FieldElement::from_be_bytes_mod_order(&[1, 0]), f(256));
    assert_eq!(FieldElement::from_be_bytes_mod_order(&[]), f(0));
    assert_eq!(FieldElement::from_be_bytes_mod_order(&[0, 0, 7]), f(7));
}

#[test]
fn from_bytes_reduces_by_the_modulus() {
    // The modulus itself is congruent to zero.
    let mut bytes = minus_one_bytes();
    bytes[31] = 0x01;
    assert_eq!(FieldElement::from_be_bytes_mod_order(&bytes), f(0));
    bytes[31] = 0x06;
    assert_eq!(FieldElement::from_be_bytes_mod_order(&bytes), f(5));
}

#[test]
fn to_bytes_is_32_bytes_big_endian() {
    let bytes = f(258).to_bytes_be();
    assert_eq!(bytes.len(), 32);
    assert_eq!(bytes[31], 2);
    assert_eq!(bytes[30], 1);
    assert!(bytes[..30].iter().all(|b| *b == 0));
    let minus_one = FieldElement::from_be_bytes_mod_order(&minus_one_bytes());
    assert_eq!(minus_one.to_bytes_be(), minus_one_bytes());
}

#[test]
fn equals_compares_elements() {
    assert!(f(5).equals(&f(5)));
    assert!(!f(5).equals(&f(6)));
    assert!(FieldElement::zero().is_zero());
    assert!(!FieldElement::one().is_zero());
}
