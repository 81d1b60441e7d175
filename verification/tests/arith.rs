//! Residue and matrix arithmetic behaviour.

use cipher_engine::util::{MatrixInversionError, MatrixU8, ModuloU8};

fn gcd(a: u32, b: u32) -> u32 {
    if a == 0 {
        b
    } else {
        gcd(b % a, a)
    }
}

#[test]
fn modulo_new_reduces() {
    let r = ModuloU8::new(31, 26);
    assert_eq!(r.value(), 5);
    assert_eq!(r.modulo(), 26);
}

#[test]
fn modulo_ops() {
    let a = ModuloU8::new(20, 26);
    let b = ModuloU8::new(10, 26);
    assert_eq!(a.add(b).value(), 4);
    assert_eq!(b.sub(a).value(), 16);
    assert_eq!(a.mul(b).value(), 200 % 26);
}

#[test]
fn inverse_of_three_mod_26_is_nine() {
    let r = ModuloU8::new(3, 26).inverse().unwrap();
    assert_eq!(r.value(), 9);
    assert_eq!(r.modulo(), 26);
}

#[test]
fn inverse_times_value_is_one_for_all_coprime_residues() {
    for v in 1..26u8 {
        let r = ModuloU8::new(v, 26).inverse();
        if gcd(v as u32, 26) == 1 {
            let inv = r.unwrap();
            assert_eq!((v as u32 * inv.value() as u32) % 26, 1);
        } else {
            let e = r.unwrap_err();
            assert_eq!(e.value, v);
            assert_eq!(e.modulo, 26);
            assert_eq!(e.gcd as u32, gcd(v as u32, 26));
        }
    }
}

#[test]
fn inverse_of_zero_fails_with_full_gcd() {
    let e = ModuloU8::new(0, 26).inverse().unwrap_err();
    assert_eq!(e.gcd, 26);
    assert_eq!(e.message(), "0 is not coprime to 26 (GCD: 26)");
}

#[test]
fn coprime_error_message_shows_all_three_numbers() {
    let e = ModuloU8::new(13, 26).inverse().unwrap_err();
    assert_eq!(e.message(), "13 is not coprime to 26 (GCD: 13)");
}

fn residues(vals: &[u8]) -> Vec<ModuloU8> {
    vals.iter().map(|&v| ModuloU8::new(v, 26)).collect()
}

#[test]
fn matrix_inverse_two_by_two() {
    let m = MatrixU8::new(2, residues(&[3, 3, 2, 5]));
    let inv = m.inverse().unwrap();
    assert_eq!(inv.size(), 2);
    assert!(m.is_product_identity(&inv));
    assert!(inv.is_product_identity(&m));
}

#[test]
fn matrix_inverse_roundtrips_a_vector() {
    let m = MatrixU8::new(2, residues(&[3, 3, 2, 5]));
    let inv = m.inverse().unwrap();
    let x = residues(&[7, 19]);
    let y = m.slice_mult(&x);
    let back = inv.slice_mult(&y);
    assert_eq!(back[0].value(), 7);
    assert_eq!(back[1].value(), 19);
}

#[test]
fn matrix_inverse_three_by_three() {
    let m = MatrixU8::new(3, residues(&[3, 3, 4, 2, 5, 1, 1, 2, 2]));
    let inv = m.inverse().unwrap();
    assert!(m.is_product_identity(&inv));
    assert!(inv.is_product_identity(&m));
}

#[test]
fn matrix_pivoting_can_reject_an_invertible_matrix() {
    // The largest residue in the first column is 20, which shares the
    // factor 2 with 26, so the elimination fails although the matrix is
    // invertible: the failure mode the pivoting rule accepts.
    let m = MatrixU8::new(3, residues(&[6, 24, 1, 13, 16, 10, 20, 17, 15]));
    let e = m.inverse().unwrap_err();
    assert_eq!(e.message(), "20 is not coprime to 26 (GCD: 2)");
}

#[test]
fn matrix_all_zero_is_degenerate() {
    let m = MatrixU8::new(2, residues(&[0, 0, 0, 0]));
    let e = m.inverse().unwrap_err();
    assert!(matches!(e, MatrixInversionError::DegenerateError));
    assert_eq!(e.message(), "Degenerate matrix");
}

#[test]
fn matrix_identity_check_rejects_wrong_product() {
    let m = MatrixU8::new(2, residues(&[3, 3, 2, 5]));
    let not_inverse = MatrixU8::new(2, residues(&[1, 0, 0, 2]));
    assert!(!m.is_product_identity(&not_inverse));
}

#[test]
fn matrix_slice_mult_block() {
    let m = MatrixU8::new(3, residues(&[3, 3, 4, 2, 5, 1, 1, 2, 2]));
    let x = residues(&[0, 2, 19]);
    let y = m.slice_mult(&x);
    assert_eq!(y[0].value(), 4);
    assert_eq!(y[1].value(), 3);
    assert_eq!(y[2].value(), 16);
}
