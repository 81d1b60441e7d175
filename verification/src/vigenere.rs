//! The Vigenere family: the classical letters-only cipher with a repeating
//! key, its autokey variant whose key stream is extended by the processed
//! text itself, and a full byte-range variant.

use vstd::prelude::*;
use crate::ciphers::{dec_run, enc_complete, enc_run, CipherError, Decryptor, Encryptor, CAPACITY};
use crate::letters::{
    canonical_letters, format_letter, is_letter, letter_index, letter_of, letters_of,
    lemma_letters_of_append,
    lemma_strip_append, lemma_strip_single, push_formatted, strip_formatting, to_letter_index,
    A_UPPER, MODULO,
};
use crate::util::lemma_shift_round_trip;

verus! {

/// Vigenere over the full byte range: each input byte is shifted by the
/// next raw key byte, wrapping modulo 256; no alphabet restriction and no
/// output formatting.
#[derive(Debug)]
pub struct Vignere256 {
    key: Vec<u8>,
    offset: usize,
}

/// The state of a `Vignere256`: the raw key and how many bytes have been
/// processed.
pub struct Vignere256View {
    pub key: Seq<u8>,
    pub offset: nat,
}

impl View for Vignere256 {
    type V = Vignere256View;

    closed spec fn view(&self) -> Vignere256View {
        Vignere256View { key: self.key@, offset: self.offset as nat }
    }
}

/// One encryption step of `Vignere256`: the byte shifted by the key byte at
/// the current offset, wrapping modulo 256.
pub open spec fn v256_enc_byte(m: Vignere256View, byte: u8) -> Option<(Vignere256View, Seq<u8>)> {
    if m.key.len() == 0 || m.offset >= CAPACITY {
        None
    } else {
        let k = m.key[(m.offset % m.key.len()) as int];
        Some(
            (
                Vignere256View { key: m.key, offset: m.offset + 1 },
                seq![((byte + k) % 256) as u8],
            ),
        )
    }
}

/// One decryption step of `Vignere256`: the exact inverse shift.
pub open spec fn v256_dec_byte(m: Vignere256View, byte: u8) -> Option<(Vignere256View, Seq<u8>)> {
    if m.key.len() == 0 || m.offset >= CAPACITY {
        None
    } else {
        let k = m.key[(m.offset % m.key.len()) as int];
        Some(
            (
                Vignere256View { key: m.key, offset: m.offset + 1 },
                seq![((byte + 256 - k) % 256) as u8],
            ),
        )
    }
}

impl Vignere256 {
    /// Builds the cipher from a raw, non-empty key.
    pub fn new(key: &[u8]) -> (r: Result<Self, &'static str>)
        ensures
            r is Ok <==> key@.len() > 0,
            (match r {
                Ok(c) => c@ == (Vignere256View { key: key@, offset: 0 }),
                Err(e) => e@ == "key cannot be empty"@,
            }),
    {
        if key.len() == 0 {
            return Err("key cannot be empty");
        }
        let mut k: Vec<u8> = Vec::new();
        let mut i: usize = 0;
        while i < key.len()
            invariant
                i <= key@.len(),
                k@ == key@.subrange(0, i as int),
            decreases key@.len() - i,
        {
            k.push(key[i]);
            proof {
                assert(k@ =~= key@.subrange(0, i + 1));
            }
            i = i + 1;
        }
        proof {
            assert(k@ =~= key@);
        }
        Ok(Vignere256 { key: k, offset: 0 })
    }
}

impl Encryptor for Vignere256 {
    open spec fn enc_wf(m: Vignere256View) -> bool {
        true
    }

    open spec fn enc_byte_m(m: Vignere256View, byte: u8) -> Option<(Vignere256View, Seq<u8>)> {
        v256_enc_byte(m, byte)
    }

    open spec fn enc_finish_m(m: Vignere256View) -> Option<(Vignere256View, Seq<u8>)> {
        Some((m, Seq::empty()))
    }

    fn encrypt_byte(&mut self, byte: u8) -> (r: Result<Vec<u8>, CipherError>)
        ensures
            r is Err ==> final(self)@ == old(self)@,
    {
        if self.key.len() == 0 || self.offset >= CAPACITY {
            return Err(CipherError::new());
        }
        let k = self.key[self.offset % self.key.len()];
        let c = ((byte as u16 + k as u16) % 256) as u8;
        self.offset = self.offset + 1;
        let mut out: Vec<u8> = Vec::new();
        out.push(c);
        proof {
            assert(out@ =~= seq![((byte + k) % 256) as u8]);
        }
        Ok(out)
    }

    fn encrypt_finish(&mut self) -> (r: Result<Vec<u8>, CipherError>)
        ensures
            r is Err ==> final(self)@ == old(self)@,
    {
        let out: Vec<u8> = Vec::new();
        proof {
            assert(out@ =~= Seq::<u8>::empty());
        }
        Ok(out)
    }
}

impl Decryptor for Vignere256 {
    open spec fn dec_wf(m: Vignere256View) -> bool {
        true
    }

    open spec fn dec_byte_m(m: Vignere256View, byte: u8) -> Option<(Vignere256View, Seq<u8>)> {
        v256_dec_byte(m, byte)
    }

    open spec fn dec_finish_m(m: Vignere256View) -> Option<(Vignere256View, Seq<u8>)> {
        Some((m, Seq::empty()))
    }

    fn decrypt_byte(&mut self, byte: u8) -> (r: Result<Vec<u8>, CipherError>)
        ensures
            r is Err ==> final(self)@ == old(self)@,
    {
        if self.key.len() == 0 || self.offset >= CAPACITY {
            return Err(CipherError::new());
        }
        let k = self.key[self.offset % self.key.len()];
        let p = ((byte as u16 + 256 - k as u16) % 256) as u8;
        self.offset = self.offset + 1;
        let mut out: Vec<u8> = Vec::new();
        out.push(p);
        proof {
            assert(out@ =~= seq![((byte + 256 - k) % 256) as u8]);
        }
        Ok(out)
    }

    fn decrypt_finish(&mut self) -> (r: Result<Vec<u8>, CipherError>)
        ensures
            r is Err ==> final(self)@ == old(self)@,
    {
        let out: Vec<u8> = Vec::new();
        proof {
            assert(out@ =~= Seq::<u8>::empty());
        }
        Ok(out)
    }
}

/// The classical Vigenere cipher: letters only, shifted by a repeating key
/// of letter residues; encryption formats its output with the 5/60 rule,
/// decryption does not.
#[derive(Debug)]
pub struct Vignere {
    key: Vec<u8>,
    count: usize,
}

/// The state of a letters-based Vigenere cipher: the key residues and how
/// many letters have been processed. The autokey variant shares this state
/// shape and mutates the key as it goes.
pub struct VignereView {
    pub key: Seq<u8>,
    pub count: nat,
}

impl View for Vignere {
    type V = VignereView;

    closed spec fn view(&self) -> VignereView {
        VignereView { key: self.key@, count: self.count as nat }
    }
}

/// Every key residue lies below 26.
pub open spec fn vig_key_wf(key: Seq<u8>) -> bool {
    forall|i: int| 0 <= i < key.len() ==> key[i] < MODULO
}

/// One encryption step of `Vignere`: the letter shifted forward by the key
/// residue at the current rotation index, emitted with its formatting.
pub open spec fn vig_enc_byte(m: VignereView, byte: u8) -> Option<(VignereView, Seq<u8>)> {
    if m.key.len() == 0 || m.count >= CAPACITY {
        None
    } else {
        match letter_index(byte) {
            None => None,
            Some(p) => {
                let k = m.key[(m.count % m.key.len()) as int];
                let c = letter_of(((p + k) % 26) as u8);
                Some((VignereView { key: m.key, count: m.count + 1 }, format_letter(m.count, c)))
            },
        }
    }
}

/// One decryption step of `Vignere`: the inverse shift, with no formatting.
pub open spec fn vig_dec_byte(m: VignereView, byte: u8) -> Option<(VignereView, Seq<u8>)> {
    if m.key.len() == 0 || m.count >= CAPACITY {
        None
    } else {
        match letter_index(byte) {
            None => None,
            Some(c) => {
                let k = m.key[(m.count % m.key.len()) as int];
                let p = letter_of(((c + 26 - k) % 26) as u8);
                Some((VignereView { key: m.key, count: m.count + 1 }, seq![p]))
            },
        }
    }
}

impl Vignere {
    /// Builds the cipher from a key string, keeping only its letters as
    /// residues. A key with no letters at all yields no key material and
    /// is rejected.
    pub fn new(key: &[u8]) -> (r: Result<Self, &'static str>)
        ensures
            r is Ok <==> letters_of(key@).len() > 0,
            (match r {
                Ok(c) => c@ == (VignereView { key: letters_of(key@), count: 0 }),
                Err(e) => e@ == "key cannot be empty"@,
            }),
    {
        let k = collect_letters(key);
        if k.len() == 0 {
            return Err("key cannot be empty");
        }
        Ok(Vignere { key: k, count: 0 })
    }
}

/// Gathers the letter residues of a byte string in order.
fn collect_letters(key: &[u8]) -> (r: Vec<u8>)
    ensures
        r@ == letters_of(key@),
{
    let mut k: Vec<u8> = Vec::new();
    let mut i: usize = 0;
    while i < key.len()
        invariant
            i <= key@.len(),
            k@ == letters_of(key@.subrange(0, i as int)),
        decreases key@.len() - i,
    {
        let ghost done = key@.subrange(0, i as int);
        let b = key[i];
        match to_letter_index(b) {
            Some(v) => {
                k.push(v);
            },
            None => {},
        }
        proof {
            lemma_letters_of_append(done, seq![b]);
            assert(seq![b].subrange(1, 1) =~= Seq::<u8>::empty());
            assert(letters_of(Seq::<u8>::empty()) == Seq::<u8>::empty());
            match letter_index(b) {
                Some(v) => {
                    assert(letters_of(seq![b]) =~= seq![v]);
                    assert(k@ =~= letters_of(done) + letters_of(seq![b]));
                },
                None => {
                    assert(letters_of(seq![b]) =~= Seq::<u8>::empty());
                    assert(k@ =~= letters_of(done) + letters_of(seq![b]));
                },
            }
            assert(done + seq![b] =~= key@.subrange(0, i + 1));
        }
        i = i + 1;
    }
    proof {
        assert(key@.subrange(0, key@.len() as int) =~= key@);
    }
    k
}

impl Encryptor for Vignere {
    open spec fn enc_wf(m: VignereView) -> bool {
        vig_key_wf(m.key)
    }

    open spec fn enc_byte_m(m: VignereView, byte: u8) -> Option<(VignereView, Seq<u8>)> {
        vig_enc_byte(m, byte)
    }

    open spec fn enc_finish_m(m: VignereView) -> Option<(VignereView, Seq<u8>)> {
        Some((m, Seq::empty()))
    }

    fn encrypt_byte(&mut self, byte: u8) -> (r: Result<Vec<u8>, CipherError>)
        ensures
            r is Err ==> final(self)@ == old(self)@,
    {
        if self.key.len() == 0 || self.count >= CAPACITY {
            return Err(CipherError::new());
        }
        match to_letter_index(byte) {
            None => Err(CipherError::new()),
            Some(p) => {
                let k = self.key[self.count % self.key.len()];
                let c = (p + k) % 26 + A_UPPER;
                let pos = self.count;
                self.count = self.count + 1;
                let mut out: Vec<u8> = Vec::new();
                push_formatted(&mut out, pos, c);
                proof {
                    assert(out@ =~= format_letter(pos as nat, c));
                }
                Ok(out)
            },
        }
    }

    fn encrypt_finish(&mut self) -> (r: Result<Vec<u8>, CipherError>)
        ensures
            r is Err ==> final(self)@ == old(self)@,
    {
        let out: Vec<u8> = Vec::new();
        proof {
            assert(out@ =~= Seq::<u8>::empty());
        }
        Ok(out)
    }
}

impl Decryptor for Vignere {
    open spec fn dec_wf(m: VignereView) -> bool {
        vig_key_wf(m.key)
    }

    open spec fn dec_byte_m(m: VignereView, byte: u8) -> Option<(VignereView, Seq<u8>)> {
        vig_dec_byte(m, byte)
    }

    open spec fn dec_finish_m(m: VignereView) -> Option<(VignereView, Seq<u8>)> {
        Some((m, Seq::empty()))
    }

    fn decrypt_byte(&mut self, byte: u8) -> (r: Result<Vec<u8>, CipherError>)
        ensures
            r is Err ==> final(self)@ == old(self)@,
    {
        if self.key.len() == 0 || self.count >= CAPACITY {
            return Err(CipherError::new());
        }
        match to_letter_index(byte) {
            None => Err(CipherError::new()),
            Some(c) => {
                let k = self.key[self.count % self.key.len()];
                let p = (c + 26 - k) % 26 + A_UPPER;
                self.count = self.count + 1;
                let mut out: Vec<u8> = Vec::new();
                out.push(p);
                proof {
                    assert(out@ =~= seq![letter_of(((c + 26 - k) % 26) as u8)]);
                }
                Ok(out)
            },
        }
    }

    fn decrypt_finish(&mut self) -> (r: Result<Vec<u8>, CipherError>)
        ensures
            r is Err ==> final(self)@ == old(self)@,
    {
        let out: Vec<u8> = Vec::new();
        proof {
            assert(out@ =~= Seq::<u8>::empty());
        }
        Ok(out)
    }
}

/// The autokey variant: the key buffer slot at the current rotation index
/// is overwritten with the plaintext residue just processed, so the key is
/// consumed once and the text then keys itself.
#[derive(Debug)]
pub struct VignereAutokey {
    key: Vec<u8>,
    count: usize,
}

impl View for VignereAutokey {
    type V = VignereView;

    closed spec fn view(&self) -> VignereView {
        VignereView { key: self.key@, count: self.count as nat }
    }
}

/// One encryption step of the autokey cipher: shift as Vigenere, then
/// overwrite the used key slot with the plaintext residue.
pub open spec fn autokey_enc_byte(m: VignereView, byte: u8) -> Option<(VignereView, Seq<u8>)> {
    if m.key.len() == 0 || m.count >= CAPACITY {
        None
    } else {
        match letter_index(byte) {
            None => None,
            Some(p) => {
                let ix = (m.count % m.key.len()) as int;
                let k = m.key[ix];
                let c = letter_of(((p + k) % 26) as u8);
                Some(
                    (
                        VignereView { key: m.key.update(ix, p), count: m.count + 1 },
                        format_letter(m.count, c),
                    ),
                )
            },
        }
    }
}

/// One decryption step of the autokey cipher: recover the plaintext residue
/// and write it into the same key slot the encryptor used.
pub open spec fn autokey_dec_byte(m: VignereView, byte: u8) -> Option<(VignereView, Seq<u8>)> {
    if m.key.len() == 0 || m.count >= CAPACITY {
        None
    } else {
        match letter_index(byte) {
            None => None,
            Some(c) => {
                let ix = (m.count % m.key.len()) as int;
                let k = m.key[ix];
                let p = ((c + 26 - k) % 26) as u8;
                Some(
                    (
                        VignereView { key: m.key.update(ix, p), count: m.count + 1 },
                        seq![letter_of(p)],
                    ),
                )
            },
        }
    }
}

impl VignereAutokey {
    /// Builds the cipher from a key string, keeping only its letters as
    /// residues. A key with no letters at all yields no key material and
    /// is rejected.
    pub fn new(key: &[u8]) -> (r: Result<Self, &'static str>)
        ensures
            r is Ok <==> letters_of(key@).len() > 0,
            (match r {
                Ok(c) => c@ == (VignereView { key: letters_of(key@), count: 0 }),
                Err(e) => e@ == "key cannot be empty"@,
            }),
    {
        let k = collect_letters(key);
        if k.len() == 0 {
            return Err("key cannot be empty");
        }
        Ok(VignereAutokey { key: k, count: 0 })
    }
}

impl Encryptor for VignereAutokey {
    open spec fn enc_wf(m: VignereView) -> bool {
        vig_key_wf(m.key)
    }

    open spec fn enc_byte_m(m: VignereView, byte: u8) -> Option<(VignereView, Seq<u8>)> {
        autokey_enc_byte(m, byte)
    }

    open spec fn enc_finish_m(m: VignereView) -> Option<(VignereView, Seq<u8>)> {
        Some((m, Seq::empty()))
    }

    fn encrypt_byte(&mut self, byte: u8) -> (r: Result<Vec<u8>, CipherError>)
        ensures
            r is Err ==> final(self)@ == old(self)@,
    {
        if self.key.len() == 0 || self.count >= CAPACITY {
            return Err(CipherError::new());
        }
        match to_letter_index(byte) {
            None => Err(CipherError::new()),
            Some(p) => {
                let ix = self.count % self.key.len();
                let k = self.key[ix];
                self.key.set(ix, p);
                let c = (p + k) % 26 + A_UPPER;
                let pos = self.count;
                self.count = self.count + 1;
                let mut out: Vec<u8> = Vec::new();
                push_formatted(&mut out, pos, c);
                proof {
                    assert(out@ =~= format_letter(pos as nat, c));
                }
                Ok(out)
            },
        }
    }

    fn encrypt_finish(&mut self) -> (r: Result<Vec<u8>, CipherError>)
        ensures
            r is Err ==> final(self)@ == old(self)@,
    {
        let out: Vec<u8> = Vec::new();
        proof {
            assert(out@ =~= Seq::<u8>::empty());
        }
        Ok(out)
    }
}

impl Decryptor for VignereAutokey {
    open spec fn dec_wf(m: VignereView) -> bool {
        vig_key_wf(m.key)
    }

    open spec fn dec_byte_m(m: VignereView, byte: u8) -> Option<(VignereView, Seq<u8>)> {
        autokey_dec_byte(m, byte)
    }

    open spec fn dec_finish_m(m: VignereView) -> Option<(VignereView, Seq<u8>)> {
        Some((m, Seq::empty()))
    }

    fn decrypt_byte(&mut self, byte: u8) -> (r: Result<Vec<u8>, CipherError>)
        ensures
            r is Err ==> final(self)@ == old(self)@,
    {
        if self.key.len() == 0 || self.count >= CAPACITY {
            return Err(CipherError::new());
        }
        match to_letter_index(byte) {
            None => Err(CipherError::new()),
            Some(c) => {
                let ix = self.count % self.key.len();
                let k = self.key[ix];
                let p = (c + 26 - k) % 26;
                self.key.set(ix, p);
                self.count = self.count + 1;
                let mut out: Vec<u8> = Vec::new();
                out.push(p + A_UPPER);
                proof {
                    assert(out@ =~= seq![letter_of(((c + 26 - k) % 26) as u8)]);
                }
                Ok(out)
            },
        }
    }

    fn decrypt_finish(&mut self) -> (r: Result<Vec<u8>, CipherError>)
        ensures
            r is Err ==> final(self)@ == old(self)@,
    {
        let out: Vec<u8> = Vec::new();
        proof {
            assert(out@ =~= Seq::<u8>::empty());
        }
        Ok(out)
    }
}

/// Encrypting a letters-only text and then decrypting the letters of the
/// formatted output under the same key recovers the case-folded text.
pub proof fn lemma_vignere_round_trip_run(key: Seq<u8>, cnt: nat, s: Seq<u8>)
    requires
        key.len() >= 1,
        vig_key_wf(key),
        forall|i: int| 0 <= i < s.len() ==> is_letter(#[trigger] s[i]),
        cnt + s.len() <= CAPACITY,
    ensures
        (match enc_run::<Vignere>(VignereView { key, count: cnt }, s) {
            Some((m2, out)) => dec_run::<Vignere>(
                VignereView { key, count: cnt },
                strip_formatting(out),
            ) == Some((m2, canonical_letters(s))),
            None => false,
        }),
    decreases s.len(),
{
    let m = VignereView { key, count: cnt };
    if s.len() == 0 {
        assert(enc_run::<Vignere>(m, s) == Some((m, Seq::<u8>::empty())));
        assert(strip_formatting(Seq::<u8>::empty()) == Seq::<u8>::empty());
        assert(canonical_letters(s) == Seq::<u8>::empty());
    } else {
        let p = (match letter_index(s[0]) {
            Some(v) => v,
            None => 0u8,
        });
        assert(letter_index(s[0]) == Some(p));
        let k = key[(cnt % key.len()) as int];
        assert(p < 26 && k < 26);
        let ci = ((p + k) % 26) as u8;
        let c = letter_of(ci);
        assert(is_letter(c) && letter_index(c) == Some(ci));
        let m1 = VignereView { key, count: cnt + 1 };
        let tail = s.subrange(1, s.len() as int);
        lemma_vignere_round_trip_run(key, cnt + 1, tail);
        match enc_run::<Vignere>(m1, tail) {
            Some((m2, rest)) => {
                assert(enc_run::<Vignere>(m, s) == Some((m2, format_letter(cnt, c) + rest)));
                lemma_strip_append(format_letter(cnt, c), rest);
                lemma_strip_single(cnt, c);
                let stripped = seq![c] + strip_formatting(rest);
                assert(strip_formatting(format_letter(cnt, c) + rest) == stripped);
                assert(stripped[0] == c);
                assert(stripped.subrange(1, stripped.len() as int) =~= strip_formatting(rest));
                lemma_shift_round_trip(p as int, k as int, 26);
                assert(((ci + 26 - k) % 26) as u8 == p);
                assert(dec_run::<Vignere>(m, stripped) == Some(
                    (m2, seq![letter_of(p)] + canonical_letters(tail)),
                ));
                assert(canonical_letters(s) == seq![letter_of(p)] + canonical_letters(tail));
            },
            None => {
                assert(false);
            },
        }
    }
}

/// The round trip of `Vignere` over a whole session: for a non-empty key
/// of residues and a letters-only input, stripping the separators from the
/// encryption and decrypting gives the case-folded input.
pub proof fn lemma_vignere_round_trip(key: Seq<u8>, s: Seq<u8>)
    requires
        key.len() >= 1,
        vig_key_wf(key),
        forall|i: int| 0 <= i < s.len() ==> is_letter(#[trigger] s[i]),
        s.len() <= CAPACITY,
    ensures
        (match enc_complete::<Vignere>(VignereView { key, count: 0 }, s) {
            Some((m2, out)) => crate::ciphers::dec_complete::<Vignere>(
                VignereView { key, count: 0 },
                strip_formatting(out),
            ) == Some((m2, canonical_letters(s))),
            None => false,
        }),
{
    let m = VignereView { key, count: 0 };
    lemma_vignere_round_trip_run(key, 0, s);
    match enc_run::<Vignere>(m, s) {
        Some((m2, out)) => {
            assert(out + Seq::<u8>::empty() =~= out);
            assert(canonical_letters(s) + Seq::<u8>::empty() =~= canonical_letters(s));
        },
        None => {},
    }
}

/// The autokey round trip: the decryptor recovers each plaintext residue
/// and writes it into the same key slot the encryptor overwrote, so the
/// two key buffers stay equal and the case-folded text comes back.
pub proof fn lemma_vignere_autokey_round_trip_run(key: Seq<u8>, cnt: nat, s: Seq<u8>)
    requires
        key.len() >= 1,
        vig_key_wf(key),
        forall|i: int| 0 <= i < s.len() ==> is_letter(#[trigger] s[i]),
        cnt + s.len() <= CAPACITY,
    ensures
        (match enc_run::<VignereAutokey>(VignereView { key, count: cnt }, s) {
            Some((m2, out)) => dec_run::<VignereAutokey>(
                VignereView { key, count: cnt },
                strip_formatting(out),
            ) == Some((m2, canonical_letters(s))),
            None => false,
        }),
    decreases s.len(),
{
    let m = VignereView { key, count: cnt };
    if s.len() == 0 {
        assert(enc_run::<VignereAutokey>(m, s) == Some((m, Seq::<u8>::empty())));
        assert(strip_formatting(Seq::<u8>::empty()) == Seq::<u8>::empty());
        assert(canonical_letters(s) == Seq::<u8>::empty());
    } else {
        let p = (match letter_index(s[0]) {
            Some(v) => v,
            None => 0u8,
        });
        assert(letter_index(s[0]) == Some(p));
        let ix = (cnt % key.len()) as int;
        let k = key[ix];
        assert(p < 26 && k < 26);
        let ci = ((p + k) % 26) as u8;
        let c = letter_of(ci);
        assert(is_letter(c) && letter_index(c) == Some(ci));
        let key1 = key.update(ix, p);
        let m1 = VignereView { key: key1, count: cnt + 1 };
        let tail = s.subrange(1, s.len() as int);
        assert(vig_key_wf(key1));
        lemma_vignere_autokey_round_trip_run(key1, cnt + 1, tail);
        match enc_run::<VignereAutokey>(m1, tail) {
            Some((m2, rest)) => {
                assert(enc_run::<VignereAutokey>(m, s) == Some(
                    (m2, format_letter(cnt, c) + rest),
                ));
                lemma_strip_append(format_letter(cnt, c), rest);
                lemma_strip_single(cnt, c);
                let stripped = seq![c] + strip_formatting(rest);
                assert(strip_formatting(format_letter(cnt, c) + rest) == stripped);
                assert(stripped[0] == c);
                assert(stripped.subrange(1, stripped.len() as int) =~= strip_formatting(rest));
                lemma_shift_round_trip(p as int, k as int, 26);
                assert(((ci + 26 - k) % 26) as u8 == p);
                assert(dec_run::<VignereAutokey>(m, stripped) == Some(
                    (m2, seq![letter_of(p)] + canonical_letters(tail)),
                ));
                assert(canonical_letters(s) == seq![letter_of(p)] + canonical_letters(tail));
            },
            None => {
                assert(false);
            },
        }
    }
}

/// The autokey round trip over a whole session.
pub proof fn lemma_vignere_autokey_round_trip(key: Seq<u8>, s: Seq<u8>)
    requires
        key.len() >= 1,
        vig_key_wf(key),
        forall|i: int| 0 <= i < s.len() ==> is_letter(#[trigger] s[i]),
        s.len() <= CAPACITY,
    ensures
        (match enc_complete::<VignereAutokey>(VignereView { key, count: 0 }, s) {
            Some((m2, out)) => crate::ciphers::dec_complete::<VignereAutokey>(
                VignereView { key, count: 0 },
                strip_formatting(out),
            ) == Some((m2, canonical_letters(s))),
            None => false,
        }),
{
    let m = VignereView { key, count: 0 };
    lemma_vignere_autokey_round_trip_run(key, 0, s);
    match enc_run::<VignereAutokey>(m, s) {
        Some((m2, out)) => {
            assert(out + Seq::<u8>::empty() =~= out);
            assert(canonical_letters(s) + Seq::<u8>::empty() =~= canonical_letters(s));
        },
        None => {},
    }
}

/// Encrypting and then decrypting under the same key and starting offset
/// gives the plaintext back, byte for byte.
pub proof fn lemma_vignere256_round_trip_run(key: Seq<u8>, off: nat, s: Seq<u8>)
    requires
        key.len() >= 1,
        off + s.len() <= CAPACITY,
    ensures
        (match enc_run::<Vignere256>(Vignere256View { key, offset: off }, s) {
            Some((m2, c)) => dec_run::<Vignere256>(Vignere256View { key, offset: off }, c)
                == Some((m2, s)),
            None => false,
        }),
    decreases s.len(),
{
    let m = Vignere256View { key, offset: off };
    if s.len() == 0 {
        assert(enc_run::<Vignere256>(m, s) == Some((m, Seq::<u8>::empty())));
        assert(dec_run::<Vignere256>(m, Seq::<u8>::empty()) == Some((m, Seq::<u8>::empty())));
        assert(Seq::<u8>::empty() =~= s);
    } else {
        let p = s[0];
        let k = key[(off % key.len()) as int];
        let c0 = ((p + k) % 256) as u8;
        let m1 = Vignere256View { key, offset: off + 1 };
        let tail = s.subrange(1, s.len() as int);
        lemma_vignere256_round_trip_run(key, off + 1, tail);
        match enc_run::<Vignere256>(m1, tail) {
            Some((m2, crest)) => {
                assert(enc_run::<Vignere256>(m, s) == Some((m2, seq![c0] + crest)));
                // Decrypting the first ciphertext byte recovers the first
                // plaintext byte.
                lemma_shift_round_trip(p as int, k as int, 256);
                assert(((c0 + 256 - k) % 256) as u8 == p);
                let c = seq![c0] + crest;
                assert(c[0] == c0);
                assert(c.subrange(1, c.len() as int) =~= crest);
                assert(dec_run::<Vignere256>(m1, crest) == Some((m2, tail)));
                assert(dec_run::<Vignere256>(m, c) == Some((m2, seq![p] + tail)));
                assert(seq![p] + tail =~= s);
            },
            None => {
                assert(false);
            },
        }
    }
}

/// The round trip of `Vignere256` over a whole session: decrypting an
/// encryption of any byte string under the same non-empty key returns the
/// input unchanged.
pub proof fn lemma_vignere256_round_trip(key: Seq<u8>, s: Seq<u8>)
    requires
        key.len() >= 1,
        s.len() <= CAPACITY,
    ensures
        (match crate::ciphers::enc_complete::<Vignere256>(
            Vignere256View { key, offset: 0 },
            s,
        ) {
            Some((m2, c)) => crate::ciphers::dec_complete::<Vignere256>(
                Vignere256View { key, offset: 0 },
                c,
            ) == Some((m2, s)),
            None => false,
        }),
{
    let m = Vignere256View { key, offset: 0 };
    lemma_vignere256_round_trip_run(key, 0, s);
    match enc_run::<Vignere256>(m, s) {
        Some((m2, c)) => {
            assert(c + Seq::<u8>::empty() =~= c);
            assert(s + Seq::<u8>::empty() =~= s);
        },
        None => {},
    }
}

} // verus!
