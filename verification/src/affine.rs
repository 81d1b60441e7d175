//! The affine cipher: a linear congruential map over the letter alphabet.
//! The key is a multiplier `m`, required coprime to 26, and an additive
//! offset `n`; encryption computes `m*p + n` modulo 26.

use vstd::prelude::*;
use vstd::arithmetic::div_mod::{
    lemma_add_mod_noop_right, lemma_mod_multiples_vanish, lemma_mul_mod_noop_left,
    lemma_mul_mod_noop_right, lemma_small_mod,
};
use vstd::string::StringExecFns;
use crate::ciphers::{dec_run, enc_complete, enc_run, CipherError, Decryptor, Encryptor, CAPACITY};
use crate::letters::{
    canonical_letters, format_letter, is_letter, letter_index, letter_of, lemma_strip_append,
    lemma_strip_single, push_formatted, strip_formatting, to_letter_index, A_UPPER, MODULO,
};
use crate::util::{coprime_message, spec_gcd, ModuloU8};

verus! {

/// The affine cipher over letters: encrypt maps residue `p` to
/// `m*p + n (mod 26)`, decrypt maps residue `c` to `(c - n)*m_inv (mod 26)`.
#[derive(Debug)]
pub struct Affine {
    m: ModuloU8,
    n: ModuloU8,
    m_inv: ModuloU8,
    count: usize,
}

/// The state of an `Affine`: the key residues, the precomputed inverse of
/// the multiplier, and how many letters have been processed.
pub struct AffineView {
    pub m: u8,
    pub n: u8,
    pub m_inv: u8,
    pub count: nat,
}

impl View for Affine {
    type V = AffineView;

    closed spec fn view(&self) -> AffineView {
        AffineView {
            m: self.m.value,
            n: self.n.value,
            m_inv: self.m_inv.value,
            count: self.count as nat,
        }
    }
}

/// The key residues are reduced and the stored inverse really inverts the
/// multiplier.
pub open spec fn affine_wf(m: AffineView) -> bool {
    &&& m.m < MODULO
    &&& m.n < MODULO
    &&& m.m_inv < MODULO
    &&& (m.m * m.m_inv) % (MODULO as int) == 1int % (MODULO as int)
}

/// One encryption step: `m*p + n (mod 26)`, emitted with its formatting.
pub open spec fn affine_enc_byte(m: AffineView, byte: u8) -> Option<(AffineView, Seq<u8>)> {
    if m.count >= CAPACITY {
        None
    } else {
        match letter_index(byte) {
            None => None,
            Some(p) => {
                let c = letter_of(((m.m * p + m.n) % 26) as u8);
                Some(
                    (
                        AffineView { m: m.m, n: m.n, m_inv: m.m_inv, count: m.count + 1 },
                        format_letter(m.count, c),
                    ),
                )
            },
        }
    }
}

/// One decryption step: `(c - n) * m_inv (mod 26)`, with no formatting.
pub open spec fn affine_dec_byte(m: AffineView, byte: u8) -> Option<(AffineView, Seq<u8>)> {
    if m.count >= CAPACITY {
        None
    } else {
        match letter_index(byte) {
            None => None,
            Some(c) => {
                let p = letter_of((((c + 26 - m.n) * m.m_inv) % 26) as u8);
                Some(
                    (
                        AffineView { m: m.m, n: m.n, m_inv: m.m_inv, count: m.count + 1 },
                        seq![p],
                    ),
                )
            },
        }
    }
}

impl Affine {
    /// Builds the cipher from the multiplier and the additive offset, both
    /// reduced modulo 26. Fails when the multiplier is zero or shares a
    /// factor with 26, naming the computed gcd.
    pub fn new(m: u8, n: u8) -> (r: Result<Self, String>)
        ensures
            r is Ok <==> (m != 0 && spec_gcd((m % MODULO) as nat, MODULO as nat) == 1),
            (match r {
                Ok(c) => {
                    &&& c@.m == m % MODULO
                    &&& c@.n == n % MODULO
                    &&& c@.count == 0
                    &&& affine_wf(c@)
                },
                Err(e) => {
                    if m == 0 {
                        e@ == "m is 0"@
                    } else {
                        e@ == coprime_message(
                            m % MODULO,
                            MODULO,
                            spec_gcd((m % MODULO) as nat, MODULO as nat) as u8,
                        )
                    }
                },
            }),
    {
        if m == 0 {
            return Err(String::from_str("m is 0"));
        }
        let mm = ModuloU8::new(m, MODULO);
        let m_inv = (match mm.inverse() {
            Ok(v) => v,
            Err(e) => {
                return Err(e.message());
            },
        });
        let nn = ModuloU8::new(n, MODULO);
        Ok(Affine { m: mm, n: nn, m_inv, count: 0 })
    }
}

impl Encryptor for Affine {
    open spec fn enc_wf(m: AffineView) -> bool {
        affine_wf(m)
    }

    open spec fn enc_byte_m(m: AffineView, byte: u8) -> Option<(AffineView, Seq<u8>)> {
        affine_enc_byte(m, byte)
    }

    open spec fn enc_finish_m(m: AffineView) -> Option<(AffineView, Seq<u8>)> {
        Some((m, Seq::empty()))
    }

    fn encrypt_byte(&mut self, byte: u8) -> (r: Result<Vec<u8>, CipherError>)
        ensures
            r is Err ==> final(self)@ == old(self)@,
    {
        if self.count >= CAPACITY {
            return Err(CipherError::new());
        }
        match to_letter_index(byte) {
            None => Err(CipherError::new()),
            Some(p) => {
                proof {
                    assert((self.m.value as int) * (p as int) <= 25 * 25) by (nonlinear_arith)
                        requires
                            self.m.value <= 25,
                            p <= 25,
                    ;
                }
                let c = ((self.m.value as u16 * p as u16 + self.n.value as u16) % 26) as u8
                    + A_UPPER;
                let pos = self.count;
                self.count = self.count + 1;
                let mut out: Vec<u8> = Vec::new();
                push_formatted(&mut out, pos, c);
                proof {
                    assert(out@ =~= format_letter(pos as nat, c));
                }
                Ok(out)
            },
        }
    }

    fn encrypt_finish(&mut self) -> (r: Result<Vec<u8>, CipherError>)
        ensures
            r is Err ==> final(self)@ == old(self)@,
    {
        let out: Vec<u8> = Vec::new();
        proof {
            assert(out@ =~= Seq::<u8>::empty());
        }
        Ok(out)
    }
}

impl Decryptor for Affine {
    open spec fn dec_wf(m: AffineView) -> bool {
        affine_wf(m)
    }

    open spec fn dec_byte_m(m: AffineView, byte: u8) -> Option<(AffineView, Seq<u8>)> {
        affine_dec_byte(m, byte)
    }

    open spec fn dec_finish_m(m: AffineView) -> Option<(AffineView, Seq<u8>)> {
        Some((m, Seq::empty()))
    }

    fn decrypt_byte(&mut self, byte: u8) -> (r: Result<Vec<u8>, CipherError>)
        ensures
            r is Err ==> final(self)@ == old(self)@,
    {
        if self.count >= CAPACITY {
            return Err(CipherError::new());
        }
        match to_letter_index(byte) {
            None => Err(CipherError::new()),
            Some(c) => {
                let shifted: u16 = c as u16 + 26 - self.n.value as u16;
                proof {
                    assert((shifted as int) * (self.m_inv.value as int) <= 51 * 25) by (
                    nonlinear_arith)
                        requires
                            shifted <= 51,
                            self.m_inv.value <= 25,
                    ;
                }
                let p = ((shifted * self.m_inv.value as u16) % 26) as u8 + A_UPPER;
                self.count = self.count + 1;
                let mut out: Vec<u8> = Vec::new();
                out.push(p);
                proof {
                    assert(out@ =~= seq![
                        letter_of((((c + 26 - self.n.value) * self.m_inv.value) % 26) as u8),
                    ]);
                }
                Ok(out)
            },
        }
    }

    fn decrypt_finish(&mut self) -> (r: Result<Vec<u8>, CipherError>)
        ensures
            r is Err ==> final(self)@ == old(self)@,
    {
        let out: Vec<u8> = Vec::new();
        proof {
            assert(out@ =~= Seq::<u8>::empty());
        }
        Ok(out)
    }
}

/// The affine map and its inverse map cancel on every letter residue.
proof fn lemma_affine_step_round_trip(mv: int, nv: int, mi: int, p: int)
    requires
        0 <= mv < 26,
        0 <= nv < 26,
        0 <= mi < 26,
        0 <= p < 26,
        (mv * mi) % 26 == 1int % 26,
    ensures
        (((mv * p + nv) % 26 + 26 - nv) * mi) % 26 == p,
{
    let c = (mv * p + nv) % 26;
    // c + 26 - nv is congruent to mv * p.
    lemma_add_mod_noop_right(26 - nv, mv * p + nv, 26);
    assert((26 - nv + c) % 26 == (26 - nv + (mv * p + nv)) % 26);
    lemma_mod_multiples_vanish(1, mv * p, 26);
    assert((26 + mv * p) % 26 == (mv * p) % 26);
    assert((c + 26 - nv) % 26 == (mv * p) % 26);
    // Multiplying by the inverse undoes the multiplier.
    lemma_mul_mod_noop_left(c + 26 - nv, mi, 26);
    assert(((c + 26 - nv) * mi) % 26 == (((c + 26 - nv) % 26) * mi) % 26);
    lemma_mul_mod_noop_left(mv * p, mi, 26);
    assert((((mv * p) % 26) * mi) % 26 == ((mv * p) * mi) % 26);
    assert((mv * p) * mi == p * (mv * mi)) by (nonlinear_arith);
    lemma_mul_mod_noop_right(p, mv * mi, 26);
    assert((p * ((mv * mi) % 26)) % 26 == (p * (mv * mi)) % 26);
    assert(1int % 26 == 1);
    assert(p * 1 == p);
    lemma_small_mod(p as nat, 26);
    assert(((c + 26 - nv) * mi) % 26 == p);
}

/// Encrypting a letters-only text and then decrypting the letters of the
/// formatted output under the same key recovers the case-folded text.
pub proof fn lemma_affine_round_trip_run(v: AffineView, s: Seq<u8>)
    requires
        affine_wf(v),
        forall|i: int| 0 <= i < s.len() ==> is_letter(#[trigger] s[i]),
        v.count + s.len() <= CAPACITY,
    ensures
        (match enc_run::<Affine>(v, s) {
            Some((m2, out)) => dec_run::<Affine>(v, strip_formatting(out)) == Some(
                (m2, canonical_letters(s)),
            ),
            None => false,
        }),
    decreases s.len(),
{
    if s.len() == 0 {
        assert(enc_run::<Affine>(v, s) == Some((v, Seq::<u8>::empty())));
        assert(strip_formatting(Seq::<u8>::empty()) == Seq::<u8>::empty());
        assert(canonical_letters(s) == Seq::<u8>::empty());
    } else {
        let p = (match letter_index(s[0]) {
            Some(x) => x,
            None => 0u8,
        });
        assert(letter_index(s[0]) == Some(p));
        assert(p < 26);
        let ci = ((v.m * p + v.n) % 26) as u8;
        let c = letter_of(ci);
        assert(is_letter(c) && letter_index(c) == Some(ci));
        let v1 = AffineView { m: v.m, n: v.n, m_inv: v.m_inv, count: v.count + 1 };
        let tail = s.subrange(1, s.len() as int);
        lemma_affine_round_trip_run(v1, tail);
        match enc_run::<Affine>(v1, tail) {
            Some((m2, rest)) => {
                assert(enc_run::<Affine>(v, s) == Some((m2, format_letter(v.count, c) + rest)));
                lemma_strip_append(format_letter(v.count, c), rest);
                lemma_strip_single(v.count, c);
                let stripped = seq![c] + strip_formatting(rest);
                assert(strip_formatting(format_letter(v.count, c) + rest) == stripped);
                assert(stripped[0] == c);
                assert(stripped.subrange(1, stripped.len() as int) =~= strip_formatting(rest));
                lemma_affine_step_round_trip(v.m as int, v.n as int, v.m_inv as int, p as int);
                assert((((ci + 26 - v.n) * v.m_inv) % 26) as u8 == p);
                assert(dec_run::<Affine>(v, stripped) == Some(
                    (m2, seq![letter_of(p)] + canonical_letters(tail)),
                ));
                assert(canonical_letters(s) == seq![letter_of(p)] + canonical_letters(tail));
            },
            None => {
                assert(false);
            },
        }
    }
}

/// The affine round trip over a whole session.
pub proof fn lemma_affine_round_trip(v: AffineView, s: Seq<u8>)
    requires
        affine_wf(v),
        v.count == 0,
        forall|i: int| 0 <= i < s.len() ==> is_letter(#[trigger] s[i]),
        s.len() <= CAPACITY,
    ensures
        (match enc_complete::<Affine>(v, s) {
            Some((m2, out)) => crate::ciphers::dec_complete::<Affine>(
                v,
                strip_formatting(out),
            ) == Some((m2, canonical_letters(s))),
            None => false,
        }),
{
    lemma_affine_round_trip_run(v, s);
    match enc_run::<Affine>(v, s) {
        Some((m2, out)) => {
            assert(out + Seq::<u8>::empty() =~= out);
            assert(canonical_letters(s) + Seq::<u8>::empty() =~= canonical_letters(s));
        },
        None => {},
    }
}

} // verus!
