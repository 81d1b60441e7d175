//! Behaviour of the five ciphers and the combinators, streamed byte by
//! byte through the engine.

use cipher_engine::affine::Affine;
use cipher_engine::ciphers::{decrypt_all, encrypt_all, CipherError, Decryptor, Encryptor};
use cipher_engine::hill::Hill;
use cipher_engine::playfair::{byte_mapping, byte_unmapping, Playfair};
use cipher_engine::vigenere::{Vignere, Vignere256, VignereAutokey};

fn enc<C: Encryptor>(c: &mut C, input: &[u8]) -> Result<Vec<u8>, CipherError> {
    encrypt_all(c, &input.to_vec())
}

fn dec<D: Decryptor>(d: &mut D, input: &[u8]) -> Result<Vec<u8>, CipherError> {
    decrypt_all(d, &input.to_vec())
}

fn strip(bytes: &[u8]) -> Vec<u8> {
    bytes.iter().copied().filter(|b| b.is_ascii_alphabetic()).collect()
}

#[test]
fn vigenere_identity_key_formats_five_and_sixty() {
    let mut c = Vignere::new(b"A").unwrap();
    let out = enc(&mut c, b"AAAAAAAAAAAA").unwrap();
    assert_eq!(out, b"AAAAA AAAAA AA".to_vec());
}

#[test]
fn vigenere_newline_after_sixty_letters() {
    let mut c = Vignere::new(b"A").unwrap();
    let out = enc(&mut c, &[b'A'; 61]).unwrap();
    // Twelve groups of five, then a newline instead of a space.
    assert_eq!(out[71], b'\n');
    assert_eq!(out.iter().filter(|&&b| b == b'\n').count(), 1);
    assert_eq!(out.iter().filter(|&&b| b == b' ').count(), 11);
}

#[test]
fn vigenere_classical_example() {
    let mut c = Vignere::new(b"LEMON").unwrap();
    let out = enc(&mut c, b"attackatdawn").unwrap();
    assert_eq!(out, b"LXFOP VEFRN HR".to_vec());
}

#[test]
fn vigenere_round_trip() {
    let mut c = Vignere::new(b"LEMON").unwrap();
    let out = enc(&mut c, b"AttackAtDawn").unwrap();
    let mut d = Vignere::new(b"LEMON").unwrap();
    let back = dec(&mut d, &strip(&out)).unwrap();
    assert_eq!(back, b"ATTACKATDAWN".to_vec());
}

#[test]
fn vigenere_rejects_empty_key() {
    assert_eq!(Vignere::new(b"").unwrap_err(), "key cannot be empty");
}

#[test]
fn vigenere_key_without_letters_fails_to_construct() {
    assert_eq!(Vignere::new(b"123").unwrap_err(), "key cannot be empty");
    assert_eq!(VignereAutokey::new(b"-- --").unwrap_err(), "key cannot be empty");
}

#[test]
fn vigenere_rejects_nonletter_input() {
    let mut c = Vignere::new(b"KEY").unwrap();
    assert!(enc(&mut c, b"AB!").is_err());
    let mut d = Vignere::new(b"KEY").unwrap();
    assert!(dec(&mut d, b"A B").is_err());
}

#[test]
fn vigenere_deterministic() {
    let mut c1 = Vignere::new(b"SECRET").unwrap();
    let mut c2 = Vignere::new(b"SECRET").unwrap();
    let out1 = enc(&mut c1, b"HELLOWORLD").unwrap();
    let out2 = enc(&mut c2, b"HELLOWORLD").unwrap();
    assert_eq!(out1, out2);
}

#[test]
fn vigenere256_round_trip_all_bytes() {
    let key = [0u8, 7, 255, 128];
    let data: Vec<u8> = (0..=255u8).collect();
    let mut c = Vignere256::new(&key).unwrap();
    let out = enc(&mut c, &data).unwrap();
    let mut d = Vignere256::new(&key).unwrap();
    let back = dec(&mut d, &out).unwrap();
    assert_eq!(back, data);
}

#[test]
fn vigenere256_wraps_and_does_not_format() {
    let mut c = Vignere256::new(&[1]).unwrap();
    let out = enc(&mut c, &[255, 0, 65, 66, 67, 68, 69, 70]).unwrap();
    assert_eq!(out, vec![0, 1, 66, 67, 68, 69, 70, 71]);
}

#[test]
fn vigenere256_rejects_empty_key() {
    assert_eq!(Vignere256::new(b"").unwrap_err(), "key cannot be empty");
}

#[test]
fn autokey_classical_example() {
    let mut c = VignereAutokey::new(b"QUEENLY").unwrap();
    let out = enc(&mut c, b"attackatdawn").unwrap();
    assert_eq!(out, b"QNXEP VYTWT WP".to_vec());
}

#[test]
fn autokey_round_trip() {
    let mut c = VignereAutokey::new(b"QUEENLY").unwrap();
    let out = enc(&mut c, b"attackatdawn").unwrap();
    let mut d = VignereAutokey::new(b"QUEENLY").unwrap();
    let back = dec(&mut d, &strip(&out)).unwrap();
    assert_eq!(back, b"ATTACKATDAWN".to_vec());
}

#[test]
fn autokey_rejects_empty_key() {
    assert_eq!(VignereAutokey::new(b"").unwrap_err(), "key cannot be empty");
}

#[test]
fn affine_classical_example() {
    let mut c = Affine::new(5, 8).unwrap();
    let out = enc(&mut c, b"AFFINECIPHER").unwrap();
    assert_eq!(out, b"IHHWV CSWFR CP".to_vec());
}

#[test]
fn affine_round_trip() {
    let mut c = Affine::new(5, 8).unwrap();
    let out = enc(&mut c, b"affineCIPHER").unwrap();
    let mut d = Affine::new(5, 8).unwrap();
    let back = dec(&mut d, &strip(&out)).unwrap();
    assert_eq!(back, b"AFFINECIPHER".to_vec());
}

#[test]
fn affine_rejects_even_multiplier() {
    let e = Affine::new(2, 1).unwrap_err();
    assert_eq!(e, "2 is not coprime to 26 (GCD: 2)");
}

#[test]
fn affine_rejects_zero_multiplier() {
    assert_eq!(Affine::new(0, 5).unwrap_err(), "m is 0");
}

#[test]
fn affine_rejects_thirteen() {
    let e = Affine::new(13, 0).unwrap_err();
    assert_eq!(e, "13 is not coprime to 26 (GCD: 13)");
}

#[test]
fn affine_rejects_nonletter() {
    let mut c = Affine::new(5, 8).unwrap();
    assert!(c.encrypt_byte(b'!').is_err());
}

#[test]
fn playfair_classical_example() {
    let mut c = Playfair::new(b"playfair example").unwrap();
    let out = enc(&mut c, b"hidethegoldinthetreestump").unwrap();
    assert_eq!(out, b"BMODZ BXDNA BEKUD MUIXM MOUVI F".to_vec());
}

#[test]
fn playfair_digraph_repair_balloon() {
    // The double L is broken up by an X filler, so LL never forms one
    // digraph: BA LX LO ON under the "playfair example" square.
    let mut c = Playfair::new(b"playfair example").unwrap();
    let out = enc(&mut c, b"BALLOON").unwrap();
    assert_eq!(out, b"DPYRA NQO".to_vec());
}

#[test]
fn playfair_balloon_decrypts_with_filler() {
    let mut d = Playfair::new(b"playfair example").unwrap();
    let back = dec(&mut d, b"DPYRANQO").unwrap();
    assert_eq!(back, b"BALXLOON".to_vec());
}

#[test]
fn playfair_pads_odd_plaintext_with_x() {
    let mut c = Playfair::new(b"playfair example").unwrap();
    // HID + pad X: digraphs HI DX.
    let out = enc(&mut c, b"HID").unwrap();
    assert_eq!(strip(&out).len(), 4);
    let mut d = Playfair::new(b"playfair example").unwrap();
    let back = dec(&mut d, &strip(&out)).unwrap();
    assert_eq!(back, b"HIDX".to_vec());
}

#[test]
fn playfair_double_x_forms_its_own_digraph() {
    // Only a doubled letter other than X is repaired; X X stays one
    // digraph and both letters shift along their shared row.
    let mut c = Playfair::new(b"playfair example").unwrap();
    let out = enc(&mut c, b"XX").unwrap();
    assert_eq!(out, b"MM".to_vec());
}

#[test]
fn playfair_decrypt_fails_on_odd_input() {
    let mut d = Playfair::new(b"playfair example").unwrap();
    assert!(dec(&mut d, b"BMODZ").is_err());
}

#[test]
fn playfair_rejects_empty_key() {
    assert_eq!(Playfair::new(b"").unwrap_err(), "key cannot be empty");
}

#[test]
fn playfair_rejects_digits() {
    let mut c = Playfair::new(b"key").unwrap();
    assert!(c.encrypt_byte(b'3').is_err());
}

#[test]
fn playfair_merges_i_and_j() {
    assert_eq!(byte_mapping(b'I'), byte_mapping(b'j'));
    assert_eq!(byte_mapping(b'I'), Some(8));
    assert_eq!(byte_mapping(b'#'), None);
    assert_eq!(byte_unmapping(8), b'I');
    assert_eq!(byte_unmapping(24), b'Z');
}

#[test]
fn playfair_pair_substitution_round_trips() {
    let c = Playfair::new(b"monarchy").unwrap();
    for a in 0..25u8 {
        for b in 0..25u8 {
            let (x, y) = c.encrypt_pair(a, b);
            assert_eq!(c.decrypt_pair(x, y), (a, b));
        }
    }
}

#[test]
fn hill_first_block() {
    let mut c = Hill::new(&[3, 3, 4, 2, 5, 1, 1, 2, 2]).unwrap();
    let out = enc(&mut c, b"ACT").unwrap();
    assert_eq!(out, b"EDQ".to_vec());
}

#[test]
fn hill_pivot_can_reject_an_invertible_key() {
    // The partial pivoting picks the largest residue at or below the pivot
    // row, so a non-invertible pivot can be chosen even though the matrix
    // has an inverse modulo 26: here 20 is picked and shares the factor 2.
    let e = Hill::new(&[6, 24, 1, 13, 16, 10, 20, 17, 15]).unwrap_err();
    assert_eq!(e, "20 is not coprime to 26 (GCD: 2)");
}

#[test]
fn hill_round_trip_block_aligned() {
    let key = [3, 3, 4, 2, 5, 1, 1, 2, 2];
    let mut c = Hill::new(&key).unwrap();
    let out = enc(&mut c, b"ACTNOWCAB").unwrap();
    let mut d = Hill::new(&key).unwrap();
    let back = dec(&mut d, &strip(&out)).unwrap();
    assert_eq!(back, b"ACTNOWCAB".to_vec());
}

#[test]
fn hill_buffers_and_pads_on_finish() {
    let key = [3, 3, 4, 2, 5, 1, 1, 2, 2];
    let mut c = Hill::new(&key).unwrap();
    let mut out: Vec<u8> = Vec::new();
    for &b in b"ACTNOWC" {
        out.extend(c.encrypt_byte(b).unwrap());
    }
    // Seven letters: two full blocks out, the seventh buffered.
    assert_eq!(strip(&out).len(), 6);
    let tail = c.encrypt_finish().unwrap();
    // The finish pads with two letters A and flushes one more block.
    assert_eq!(strip(&tail).len(), 3);
    let mut d = Hill::new(&key).unwrap();
    let mut whole = strip(&out);
    whole.extend(strip(&tail));
    let back = dec(&mut d, &whole).unwrap();
    assert_eq!(back, b"ACTNOWCAA".to_vec());
}

#[test]
fn hill_decrypt_fails_on_partial_block() {
    let key = [3, 3, 4, 2, 5, 1, 1, 2, 2];
    let mut d = Hill::new(&key).unwrap();
    for &b in b"EDQEDQ" {
        d.decrypt_byte(b).unwrap();
    }
    d.decrypt_byte(b'A').unwrap();
    assert!(d.decrypt_finish().is_err());
}

#[test]
fn hill_rejects_non_square_key() {
    assert_eq!(Hill::new(&[1, 2, 3]).unwrap_err(), "Matrix is not square!");
    assert_eq!(Hill::new(&[]).unwrap_err(), "Matrix is not square!");
}

#[test]
fn hill_rejects_singular_key() {
    assert_eq!(Hill::new(&[0, 0, 0, 0]).unwrap_err(), "Degenerate matrix");
}

#[test]
fn hill_deterministic() {
    let key = [3, 3, 4, 2, 5, 1, 1, 2, 2];
    let mut c1 = Hill::new(&key).unwrap();
    let mut c2 = Hill::new(&key).unwrap();
    assert_eq!(enc(&mut c1, b"MIRACLE").unwrap(), enc(&mut c2, b"MIRACLE").unwrap());
}

#[test]
fn chain_composes_two_ciphers() {
    let inner1 = Vignere256::new(&[11, 22]).unwrap();
    let inner2 = Vignere256::new(&[99]).unwrap();
    let mut c = Encryptor::chain(inner1, inner2);
    let out = enc(&mut c, b"chained bytes").unwrap();
    let d1 = Vignere256::new(&[99]).unwrap();
    let d2 = Vignere256::new(&[11, 22]).unwrap();
    let mut d = Decryptor::chain(d1, d2);
    let back = dec(&mut d, &out).unwrap();
    assert_eq!(back, b"chained bytes".to_vec());
}

#[test]
fn chain_propagates_failure() {
    let first = Vignere256::new(&[3]).unwrap();
    let second = Vignere::new(b"KEY").unwrap();
    // The second stage rejects the shifted non-letter bytes.
    let mut c = Encryptor::chain(first, second);
    assert!(enc(&mut c, &[200]).is_err());
}

#[test]
fn invert_swaps_directions() {
    let enc_side = Vignere::new(b"KEY").unwrap();
    let mut inv = Encryptor::invert(enc_side);
    // Used as a decryptor, the inverted encryptor encrypts.
    let out = inv.decrypt_byte(b'H').unwrap();
    let mut plain = Vignere::new(b"KEY").unwrap();
    assert_eq!(out, plain.encrypt_byte(b'H').unwrap());
    let dec_side = Vignere::new(b"KEY").unwrap();
    let mut inv2 = Decryptor::invert(dec_side);
    let out2 = inv2.encrypt_byte(b'R').unwrap();
    let mut plain2 = Vignere::new(b"KEY").unwrap();
    assert_eq!(out2, plain2.decrypt_byte(b'R').unwrap());
}

#[test]
fn map_rewrites_input_bytes() {
    let inner = Vignere::new(b"A").unwrap();
    let mut c = Encryptor::map(inner, |b: u8| if b == b'?' { b'Q' } else { b });
    let out = enc(&mut c, b"WHY?").unwrap();
    assert_eq!(out, b"WHYQ".to_vec());
}

#[test]
fn filter_drops_rejected_bytes() {
    let inner = Vignere::new(b"LEMON").unwrap();
    let mut c = Encryptor::filter(inner, |b: u8| b.is_ascii_alphabetic());
    let out = enc(&mut c, b"attack at dawn!").unwrap();
    assert_eq!(out, b"LXFOP VEFRN HR".to_vec());
}

#[test]
fn filter_map_drops_and_rewrites() {
    let inner = Vignere::new(b"A").unwrap();
    let mut c = Encryptor::filter_map(
        inner,
        |b: u8| {
            if b.is_ascii_alphabetic() {
                Some(b.to_ascii_uppercase())
            } else {
                None
            }
        },
    );
    let out = enc(&mut c, b"a b-c").unwrap();
    assert_eq!(out, b"ABC".to_vec());
}

#[test]
fn cipher_error_constructs() {
    let e = CipherError::new();
    assert_eq!(e, CipherError::new());
}
