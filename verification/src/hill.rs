//! The Hill cipher: blocks of N letters multiplied by an invertible N-by-N
//! key matrix over the residues modulo 26. Encryption buffers exactly N
//! letters, emits the transformed block with the 5/60 formatting, and pads
//! a trailing partial block with the letter A on finish; decryption uses
//! the precomputed inverse matrix and fails on finish if the input was not
//! block-aligned.

use vstd::prelude::*;
use vstd::arithmetic::div_mod::{lemma_mod_bound, lemma_mod_decreases};
use crate::ciphers::{
    dec_run, enc_run, lemma_dec_run_append, lemma_enc_run_append, CipherError, Decryptor,
    Encryptor, CAPACITY,
};
use crate::letters::{
    canonical_letters, format_letters, is_letter, lemma_canonical_append,
    lemma_canonical_letters_index, lemma_format_letters_snoc, lemma_strip_append,
    lemma_strip_format_letters, letter_index, letter_of, letter_value, push_formatted,
    strip_formatting, to_letter_index, A_UPPER, MODULO,
};
use crate::util::{
    gauss_candidate, mat_product_identity, mat_vec_entry, matrix_wf, MatrixInversionError,
    MatrixU8, MatrixView, ModuloU8,
};

verus! {

/// The Hill cipher: the key matrix, its inverse, the running letter count,
/// and the partially filled input block.
#[derive(Debug)]
pub struct Hill {
    mat: MatrixU8,
    mat_inv: MatrixU8,
    count: usize,
    block: Vec<ModuloU8>,
}

/// The state of a `Hill`: both matrices, the count of letters processed,
/// and the block buffer whose slots below `count % size` hold the letters
/// of the current block.
pub struct HillView {
    pub mat: MatrixView,
    pub inv: MatrixView,
    pub count: nat,
    pub block: Seq<ModuloU8>,
}

impl View for Hill {
    type V = HillView;

    closed spec fn view(&self) -> HillView {
        HillView {
            mat: self.mat@,
            inv: self.mat_inv@,
            count: self.count as nat,
            block: self.block@,
        }
    }
}

/// The Hill invariant: well-formed matrices of one size over the letter
/// alphabet, a block buffer of that size, and the two matrices inverse to
/// each other on both sides.
pub open spec fn hill_wf(m: HillView) -> bool {
    &&& matrix_wf(m.mat)
    &&& matrix_wf(m.inv)
    &&& m.inv.size == m.mat.size
    &&& m.mat.modulo == MODULO
    &&& m.inv.modulo == MODULO
    &&& m.block.len() == m.mat.size
    &&& (forall|t: int|
        0 <= t < m.block.len() ==> (#[trigger] m.block[t]).wf() && m.block[t].modulo == MODULO)
    &&& mat_product_identity(m.mat, m.inv)
    &&& mat_product_identity(m.inv, m.mat)
}

/// The letters of one transformed block: entry `k` of the matrix-vector
/// product, rebased to uppercase ASCII, for `k` below `upto`.
pub open spec fn hill_block_letters(m: MatrixView, block: Seq<ModuloU8>, upto: int) -> Seq<u8>
    decreases upto,
{
    if upto <= 0 {
        Seq::empty()
    } else {
        hill_block_letters(m, block, upto - 1).push(
            letter_of(mat_vec_entry(m, block, upto - 1) as u8),
        )
    }
}

/// One encryption step: the letter joins the block; on the block's last
/// slot the whole transformed block is emitted with its formatting.
pub open spec fn hill_enc_byte(m: HillView, byte: u8) -> Option<(HillView, Seq<u8>)> {
    if m.count >= CAPACITY {
        None
    } else {
        match letter_index(byte) {
            None => None,
            Some(p) => {
                let i = m.count % m.mat.size;
                let block2 = m.block.update(i as int, ModuloU8 { value: p, modulo: MODULO });
                let m2 = HillView { mat: m.mat, inv: m.inv, count: m.count + 1, block: block2 };
                if i + 1 < m.mat.size {
                    Some((m2, Seq::empty()))
                } else {
                    Some(
                        (
                            m2,
                            format_letters(
                                (m.count + 1 - m.mat.size) as nat,
                                hill_block_letters(m.mat, block2, m.mat.size as int),
                            ),
                        ),
                    )
                }
            },
        }
    }
}

/// One decryption step: as encryption, but through the inverse matrix and
/// with no formatting.
pub open spec fn hill_dec_byte(m: HillView, byte: u8) -> Option<(HillView, Seq<u8>)> {
    if m.count >= CAPACITY {
        None
    } else {
        match letter_index(byte) {
            None => None,
            Some(p) => {
                let i = m.count % m.mat.size;
                let block2 = m.block.update(i as int, ModuloU8 { value: p, modulo: MODULO });
                let m2 = HillView { mat: m.mat, inv: m.inv, count: m.count + 1, block: block2 };
                if i + 1 < m.mat.size {
                    Some((m2, Seq::empty()))
                } else {
                    Some((m2, hill_block_letters(m.inv, block2, m.inv.size as int)))
                }
            },
        }
    }
}

/// Feeding `pads` padding letters A, concatenating whatever comes out.
pub open spec fn hill_pad_m(m: HillView, pads: nat) -> Option<(HillView, Seq<u8>)>
    decreases pads,
{
    if pads == 0 {
        Some((m, Seq::empty()))
    } else {
        match hill_enc_byte(m, A_UPPER) {
            None => None,
            Some((m2, out)) => match hill_pad_m(m2, (pads - 1) as nat) {
                None => None,
                Some((m3, rest)) => Some((m3, out + rest)),
            },
        }
    }
}

/// Flushing an encryption: pad with the letter A until the block boundary,
/// emitting the final block.
pub open spec fn hill_enc_finish(m: HillView) -> Option<(HillView, Seq<u8>)> {
    if m.mat.size == 0 {
        Some((m, Seq::empty()))
    } else {
        hill_pad_m(m, (((m.mat.size - m.count % m.mat.size) as int % m.mat.size as int) as nat))
    }
}

/// Whether a length is a positive perfect square.
pub open spec fn is_square(len: nat) -> bool {
    exists|k: int| 1 <= k && #[trigger] (k * k) == len
}

/// The positive side of a perfect square.
pub open spec fn square_side(len: nat) -> int {
    choose|k: int| 1 <= k && #[trigger] (k * k) == len
}

/// A perfect square has only one positive side.
proof fn lemma_square_side(len: nat, k: int)
    requires
        1 <= k,
        k * k == len,
    ensures
        is_square(len),
        square_side(len) == k,
{
    assert(is_square(len)) by {
        assert(1 <= k && (k * k) == len);
    }
    let q = square_side(len);
    assert(1 <= q && q * q == len);
    assert(q == k) by (nonlinear_arith)
        requires
            1 <= q,
            1 <= k,
            q * q == k * k,
    ;
}

/// The key matrix a flat key list describes: its entries reduced modulo
/// 26, arranged as the square its length admits.
pub open spec fn hill_key_matrix(mat: Seq<u8>) -> MatrixView {
    MatrixView {
        size: square_side(mat.len()) as nat,
        modulo: MODULO,
        vals: Seq::new(mat.len(), |t: int| (mat[t] % MODULO) as u8),
    }
}

/// When Hill construction succeeds: the key list is a perfect square and
/// the elimination of its reduced matrix yields a checked two-sided
/// inverse.
pub open spec fn hill_key_ok(mat: Seq<u8>) -> bool {
    &&& is_square(mat.len())
    &&& (match gauss_candidate(hill_key_matrix(mat)) {
        Ok(vals) => {
            let km = hill_key_matrix(mat);
            let cand = MatrixView { size: km.size, modulo: MODULO, vals };
            mat_product_identity(km, cand) && mat_product_identity(cand, km)
        },
        Err(_) => false,
    })
}

/// When every smaller candidate's square falls short of `len` and the
/// candidate's own square exceeds it, `len` is no perfect square.
proof fn lemma_no_smaller_square(len: int, n: int)
    requires
        0 <= len,
        1 <= n,
        forall|k: int| 1 <= k < n ==> #[trigger] (k * k) < len,
        n * n > len,
    ensures
        !is_square(len as nat),
{
    if is_square(len as nat) {
        let k = choose|k: int| 1 <= k && #[trigger] (k * k) == len as nat;
        assert(k < n ==> k * k < len);
        assert(k >= n ==> k * k >= n * n) by (nonlinear_arith)
            requires
                1 <= n,
        ;
        assert(false);
    }
}

impl Hill {
    /// Builds the cipher from a flat list of key-matrix entries in
    /// row-major order, reduced modulo 26. Succeeds exactly when the
    /// length is a perfect square and the elimination of the reduced
    /// matrix yields a checked two-sided inverse; fails otherwise with the
    /// reason: a non-square length, or the inversion failure's own text.
    pub fn new(mat: &[u8]) -> (r: Result<Self, String>)
        ensures
            r is Ok <==> hill_key_ok(mat@),
            (match r {
                Ok(c) => {
                    &&& hill_wf(c@)
                    &&& c@.mat == hill_key_matrix(mat@)
                    &&& c@.mat.size * c@.mat.size == mat@.len()
                    &&& (forall|t: int|
                        0 <= t < mat@.len() ==> c@.mat.vals[t] == (#[trigger] mat@[t]) % MODULO)
                    &&& c@.count == 0
                    &&& (forall|t: int|
                        0 <= t < c@.block.len() ==> (#[trigger] c@.block[t]) == (ModuloU8 {
                            value: 0,
                            modulo: MODULO,
                        }))
                },
                Err(e) => {
                    if !is_square(mat@.len()) {
                        e@ == "Matrix is not square!"@
                    } else {
                        match gauss_candidate(hill_key_matrix(mat@)) {
                            Err(fe) => (match fe {
                                MatrixInversionError::CoprimeError(ce) => e@
                                    == crate::util::coprime_message(ce.value, ce.modulo, ce.gcd),
                                MatrixInversionError::DegenerateError => e@
                                    == "Degenerate matrix"@,
                            }),
                            Ok(_) => e@ == "Degenerate matrix"@,
                        }
                    }
                },
            }),
    {
        let len = mat.len();
        let mut n: usize = 1;
        loop
            invariant_except_break
                1 <= n,
                len == mat@.len(),
                n <= len || n == 1,
                forall|k: int| 1 <= k < n ==> #[trigger] (k * k) < len,
            ensures
                1 <= n,
                len == mat@.len(),
                n * n == len,
            decreases len - n,
        {
            match n.checked_mul(n) {
                None => {
                    proof {
                        lemma_no_smaller_square(len as int, n as int);
                    }
                    return Err(String::from_str("Matrix is not square!"));
                },
                Some(sq) => {
                    if sq == len {
                        break ;
                    }
                    if sq > len {
                        proof {
                            lemma_no_smaller_square(len as int, n as int);
                        }
                        return Err(String::from_str("Matrix is not square!"));
                    }
                    proof {
                        assert((n + 1) <= len) by (nonlinear_arith)
                            requires
                                1 <= n,
                                n * n < len,
                        ;
                    }
                    n = n + 1;
                },
            }
        }
        let mut entries: Vec<ModuloU8> = Vec::new();
        let mut t: usize = 0;
        while t < len
            invariant
                t <= len,
                len == mat@.len(),
                entries@.len() == t,
                forall|u: int|
                    0 <= u < t ==> (#[trigger] entries@[u]) == (ModuloU8 {
                        value: (mat@[u] % MODULO) as u8,
                        modulo: MODULO,
                    }),
                forall|u: int| 0 <= u < t ==> (#[trigger] entries@[u]).wf(),
            decreases len - t,
        {
            entries.push(ModuloU8::new(mat[t], MODULO));
            t = t + 1;
        }
        proof {
            assert(n <= len && 1 <= len) by (nonlinear_arith)
                requires
                    1 <= n,
                    n * n == len,
            ;
            assert((n as int) * (n as int) == len as int);
            lemma_square_side(mat@.len(), n as int);
        }
        let ghost entseq = entries@;
        let key = MatrixU8::new(n, entries);
        proof {
            assert(entseq[0].modulo == MODULO);
            assert forall|t: int| 0 <= t < mat@.len() implies key@.vals[t] == (#[trigger] mat@[t])
                % MODULO by {
                assert(key@.vals[t] == entseq[t].value);
            }
            assert(key@.vals =~= hill_key_matrix(mat@).vals);
            assert(key@ =~= hill_key_matrix(mat@));
        }
        let key_inv = (match key.inverse() {
            Ok(v) => v,
            Err(e) => {
                return Err(e.message());
            },
        });
        let mut block: Vec<ModuloU8> = Vec::new();
        let mut t2: usize = 0;
        while t2 < n
            invariant
                t2 <= n,
                block@.len() == t2,
                forall|u: int|
                    0 <= u < t2 ==> (#[trigger] block@[u]) == (ModuloU8 {
                        value: 0,
                        modulo: MODULO,
                    }),
            decreases n - t2,
        {
            block.push(ModuloU8 { value: 0, modulo: MODULO });
            t2 = t2 + 1;
        }
        Ok(Hill { mat: key, mat_inv: key_inv, count: 0, block })
    }
}

impl Encryptor for Hill {
    open spec fn enc_wf(m: HillView) -> bool {
        hill_wf(m)
    }

    open spec fn enc_byte_m(m: HillView, byte: u8) -> Option<(HillView, Seq<u8>)> {
        hill_enc_byte(m, byte)
    }

    open spec fn enc_finish_m(m: HillView) -> Option<(HillView, Seq<u8>)> {
        hill_enc_finish(m)
    }

    fn encrypt_byte(&mut self, byte: u8) -> (r: Result<Vec<u8>, CipherError>)
        ensures
            r is Err ==> final(self)@ == old(self)@,
    {
        if self.count >= CAPACITY {
            return Err(CipherError::new());
        }
        match to_letter_index(byte) {
            None => Err(CipherError::new()),
            Some(p) => {
                let n = self.mat.size();
                let i = self.count % n;
                proof {
                    lemma_mod_bound(self.count as int, n as int);
                }
                self.block.set(i, ModuloU8 { value: p, modulo: MODULO });
                self.count = self.count + 1;
                if i + 1 < n {
                    let out: Vec<u8> = Vec::new();
                    proof {
                        assert(out@ =~= Seq::<u8>::empty());
                    }
                    Ok(out)
                } else {
                    proof {
                        lemma_mod_decreases((self.count - 1) as nat, n as nat);
                        assert(self.count >= n);
                    }
                    let base = self.count - n;
                    let ghost block2 = self.block@;
                    let transformed = self.mat.slice_mult(self.block.as_slice());
                    let mut out: Vec<u8> = Vec::new();
                    let mut k: usize = 0;
                    while k < n
                        invariant
                            n == self@.mat.size,
                            transformed@.len() == n,
                            forall|u: int|
                                0 <= u < n ==> (#[trigger] transformed@[u]).value as int
                                    == mat_vec_entry(self@.mat, block2, u) && transformed@[u].value
                                    < MODULO,
                            base + n <= usize::MAX,
                            k <= n,
                            out@ == format_letters(
                                base as nat,
                                hill_block_letters(self@.mat, block2, k as int),
                            ),
                        decreases n - k,
                    {
                        proof {
                            lemma_format_letters_snoc(
                                base as nat,
                                hill_block_letters(self@.mat, block2, k as int),
                                letter_of(mat_vec_entry(self@.mat, block2, k as int) as u8),
                            );
                            assert(hill_block_letters(self@.mat, block2, k as int).len()
                                == k as int) by {
                                lemma_hill_block_letters_len(self@.mat, block2, k as int);
                            }
                        }
                        push_formatted(&mut out, base + k, transformed[k].value() + A_UPPER);
                        k = k + 1;
                    }
                    Ok(out)
                }
            },
        }
    }

    fn encrypt_finish(&mut self) -> (r: Result<Vec<u8>, CipherError>)
        ensures
            final(self)@.mat == old(self)@.mat && final(self)@.inv == old(self)@.inv,
    {
        let ghost m0 = self@;
        let n = self.mat.size();
        let mut pads = (n - self.count % n) % n;
        let ghost pads0 = pads as nat;
        let mut acc: Vec<u8> = Vec::new();
        proof {
            lemma_mod_bound(self.count as int, n as int);
        }
        while pads > 0
            invariant
                m0 == old(self)@,
                hill_enc_finish(m0) == hill_pad_m(m0, pads0),
                self@.mat == old(self)@.mat && self@.inv == old(self)@.inv,
                hill_wf(self@),
                hill_pad_m(m0, pads0) == (match hill_pad_m(self@, pads as nat) {
                    None => None::<(HillView, Seq<u8>)>,
                    Some((mf, o)) => Some((mf, acc@ + o)),
                }),
            decreases pads,
        {
            let ghost pre = self@;
            match self.encrypt_byte(A_UPPER) {
                Ok(v) => {
                    let ghost vo = v@;
                    let ghost acc0 = acc@;
                    let mut v = v;
                    acc.append(&mut v);
                    proof {
                        assert(hill_enc_byte(pre, A_UPPER) == Some((self@, vo)));
                        match hill_pad_m(self@, (pads - 1) as nat) {
                            None => {},
                            Some((mf, o2)) => {
                                assert(acc0 + (vo + o2) =~= acc@ + o2);
                            },
                        }
                    }
                },
                Err(e) => {
                    proof {
                        assert(hill_enc_byte(pre, A_UPPER) is None);
                        assert(hill_pad_m(pre, pads as nat) is None);
                    }
                    return Err(e);
                },
            }
            pads = pads - 1;
        }
        proof {
            assert(hill_pad_m(self@, 0nat) == Some((self@, Seq::<u8>::empty())));
            assert(acc@ + Seq::<u8>::empty() =~= acc@);
        }
        Ok(acc)
    }
}

/// The transformed block has one letter per row.
proof fn lemma_hill_block_letters_len(m: MatrixView, block: Seq<ModuloU8>, upto: int)
    ensures
        hill_block_letters(m, block, upto).len() == (if upto <= 0 {
            0int
        } else {
            upto
        }),
    decreases upto,
{
    if upto > 0 {
        lemma_hill_block_letters_len(m, block, upto - 1);
    }
}

/// The block buffer after the first `j` letters of a block have been
/// taken in.
pub open spec fn hill_filled(m0: HillView, bytes: Seq<u8>, j: int) -> Seq<ModuloU8>
    decreases j,
{
    if j <= 0 {
        m0.block
    } else {
        hill_filled(m0, bytes, j - 1).update(
            j - 1,
            ModuloU8 { value: letter_value(bytes[j - 1]), modulo: MODULO },
        )
    }
}

/// The state after the first `j` letters of a block have been taken in.
pub open spec fn hill_at(m0: HillView, bytes: Seq<u8>, j: int) -> HillView {
    HillView {
        mat: m0.mat,
        inv: m0.inv,
        count: (m0.count + j) as nat,
        block: hill_filled(m0, bytes, j),
    }
}

proof fn lemma_hill_filled_props(m0: HillView, bytes: Seq<u8>, j: int)
    requires
        0 <= j <= m0.block.len(),
    ensures
        hill_filled(m0, bytes, j).len() == m0.block.len(),
        forall|t: int|
            0 <= t < m0.block.len() ==> hill_filled(m0, bytes, j)[t] == (if t < j {
                (ModuloU8 { value: letter_value(bytes[t]), modulo: MODULO })
            } else {
                m0.block[t]
            }),
    decreases j,
{
    if j > 0 {
        lemma_hill_filled_props(m0, bytes, j - 1);
        let prev = hill_filled(m0, bytes, j - 1);
        let cur = hill_filled(m0, bytes, j);
        assert(cur == prev.update(
            j - 1,
            ModuloU8 { value: letter_value(bytes[j - 1]), modulo: MODULO },
        ));
        assert(cur.len() == prev.len());
        assert forall|t: int| 0 <= t < m0.block.len() implies cur[t] == (if t < j {
            (ModuloU8 { value: letter_value(bytes[t]), modulo: MODULO })
        } else {
            m0.block[t]
        }) by {
            if t != j - 1 {
                assert(cur[t] == prev[t]);
            }
        }
    } else {
        assert(hill_filled(m0, bytes, j) == m0.block);
    }
}

/// Inside a block that starts at a block boundary, the buffer index of the
/// `j`-th letter is `j` itself.
proof fn lemma_block_offset(count: nat, j: int, size: nat)
    requires
        size >= 1,
        count % size == 0,
        0 <= j < size,
    ensures
        (count + j) % (size as int) == j,
{
    let q = count as int / size as int;
    vstd::arithmetic::div_mod::lemma_fundamental_div_mod(count as int, size as int);
    assert(count as int == size as int * q);
    vstd::arithmetic::div_mod::lemma_mod_multiples_vanish(q, j, size as int);
    vstd::arithmetic::div_mod::lemma_small_mod(j as nat, size);
}

/// Feeding the tail of one plaintext block from its `j`-th letter: nothing
/// comes out until the last letter, which flushes the whole transformed
/// block with its formatting.
#[verifier::spinoff_prover]
proof fn lemma_hill_enc_block(m0: HillView, bytes: Seq<u8>, j: int)
    requires
        hill_wf(m0),
        m0.count % m0.mat.size == 0,
        bytes.len() == m0.mat.size,
        forall|i: int| 0 <= i < bytes.len() ==> is_letter(#[trigger] bytes[i]),
        m0.count + m0.mat.size <= CAPACITY,
        0 <= j < m0.mat.size,
    ensures
        enc_run::<Hill>(hill_at(m0, bytes, j), bytes.subrange(j, bytes.len() as int)) == Some(
            (
                hill_at(m0, bytes, m0.mat.size as int),
                format_letters(
                    m0.count,
                    hill_block_letters(
                        m0.mat,
                        hill_filled(m0, bytes, m0.mat.size as int),
                        m0.mat.size as int,
                    ),
                ),
            ),
        ),
    decreases m0.mat.size as int - j,
{
    let n = m0.mat.size as int;
    let mj = hill_at(m0, bytes, j);
    let sfx = bytes.subrange(j, n);
    assert(sfx[0] == bytes[j]);
    lemma_block_offset(m0.count, j, m0.mat.size);
    assert(mj.count % m0.mat.size == j);
    let p = letter_value(bytes[j]);
    assert(letter_index(bytes[j]) == Some(p));
    assert(hill_filled(m0, bytes, j).update(j, ModuloU8 { value: p, modulo: MODULO })
        == hill_filled(m0, bytes, j + 1));
    let out_all = format_letters(
        m0.count,
        hill_block_letters(m0.mat, hill_filled(m0, bytes, n), n),
    );
    if j + 1 < n {
        assert(hill_enc_byte(mj, bytes[j]) == Some(
            (hill_at(m0, bytes, j + 1), Seq::<u8>::empty()),
        ));
        lemma_hill_enc_block(m0, bytes, j + 1);
        assert(sfx.subrange(1, sfx.len() as int) =~= bytes.subrange(j + 1, n));
        assert(enc_run::<Hill>(mj, sfx) == Some(
            (hill_at(m0, bytes, n), Seq::<u8>::empty() + out_all),
        ));
        assert(Seq::<u8>::empty() + out_all =~= out_all);
    } else {
        assert(mj.count + 1 - n == m0.count);
        assert(hill_enc_byte(mj, bytes[j]) == Some((hill_at(m0, bytes, n), out_all)));
        assert(sfx.subrange(1, sfx.len() as int) =~= Seq::<u8>::empty());
        assert(enc_run::<Hill>(hill_at(m0, bytes, n), Seq::<u8>::empty()) == Some(
            (hill_at(m0, bytes, n), Seq::<u8>::empty()),
        ));
        assert(out_all + Seq::<u8>::empty() =~= out_all);
    }
}

/// Feeding the tail of one ciphertext block from its `j`-th letter: the
/// last letter flushes the block transformed through the inverse matrix,
/// with no formatting.
#[verifier::spinoff_prover]
proof fn lemma_hill_dec_block(m0: HillView, bytes: Seq<u8>, j: int)
    requires
        hill_wf(m0),
        m0.count % m0.mat.size == 0,
        bytes.len() == m0.mat.size,
        forall|i: int| 0 <= i < bytes.len() ==> is_letter(#[trigger] bytes[i]),
        m0.count + m0.mat.size <= CAPACITY,
        0 <= j < m0.mat.size,
    ensures
        dec_run::<Hill>(hill_at(m0, bytes, j), bytes.subrange(j, bytes.len() as int)) == Some(
            (
                hill_at(m0, bytes, m0.mat.size as int),
                hill_block_letters(
                    m0.inv,
                    hill_filled(m0, bytes, m0.mat.size as int),
                    m0.mat.size as int,
                ),
            ),
        ),
    decreases m0.mat.size as int - j,
{
    let n = m0.mat.size as int;
    let mj = hill_at(m0, bytes, j);
    let sfx = bytes.subrange(j, n);
    assert(sfx[0] == bytes[j]);
    lemma_block_offset(m0.count, j, m0.mat.size);
    assert(mj.count % m0.mat.size == j);
    let p = letter_value(bytes[j]);
    assert(letter_index(bytes[j]) == Some(p));
    assert(hill_filled(m0, bytes, j).update(j, ModuloU8 { value: p, modulo: MODULO })
        == hill_filled(m0, bytes, j + 1));
    let out_all = hill_block_letters(m0.inv, hill_filled(m0, bytes, n), n);
    if j + 1 < n {
        assert(hill_dec_byte(mj, bytes[j]) == Some(
            (hill_at(m0, bytes, j + 1), Seq::<u8>::empty()),
        ));
        lemma_hill_dec_block(m0, bytes, j + 1);
        assert(sfx.subrange(1, sfx.len() as int) =~= bytes.subrange(j + 1, n));
        assert(dec_run::<Hill>(mj, sfx) == Some(
            (hill_at(m0, bytes, n), Seq::<u8>::empty() + out_all),
        ));
        assert(Seq::<u8>::empty() + out_all =~= out_all);
    } else {
        assert(hill_dec_byte(mj, bytes[j]) == Some((hill_at(m0, bytes, n), out_all)));
        assert(sfx.subrange(1, sfx.len() as int) =~= Seq::<u8>::empty());
        assert(dec_run::<Hill>(hill_at(m0, bytes, n), Seq::<u8>::empty()) == Some(
            (hill_at(m0, bytes, n), Seq::<u8>::empty()),
        ));
        assert(out_all + Seq::<u8>::empty() =~= out_all);
    }
}

/// The Hill round trip over a byte run: for a letters-only text whose
/// length is a whole number of blocks, decrypting the letters of the
/// formatted encryption under the stored inverse recovers the case-folded
/// text, block by block.
#[verifier::rlimit(100)]
#[verifier::spinoff_prover]
pub proof fn lemma_hill_round_trip_run(me0: HillView, md0: HillView, s: Seq<u8>)
    requires
        hill_wf(me0),
        hill_wf(md0),
        md0.mat == me0.mat,
        md0.inv == me0.inv,
        md0.count == me0.count,
        me0.count % me0.mat.size == 0,
        s.len() as int % (me0.mat.size as int) == 0,
        forall|i: int| 0 <= i < s.len() ==> is_letter(#[trigger] s[i]),
        me0.count + s.len() <= CAPACITY,
    ensures
        (match enc_run::<Hill>(me0, s) {
            Some((me, out)) => match dec_run::<Hill>(md0, strip_formatting(out)) {
                Some((md, plain)) => {
                    &&& plain == canonical_letters(s)
                    &&& me.mat == me0.mat && me.inv == me0.inv
                    &&& me.count == me0.count + s.len()
                    &&& md.mat == me.mat && md.inv == me.inv && md.count == me.count
                },
                None => false,
            },
            None => false,
        }),
    decreases s.len(),
{
    let n = me0.mat.size as int;
    if s.len() == 0 {
        assert(enc_run::<Hill>(me0, s) == Some((me0, Seq::<u8>::empty())));
        assert(strip_formatting(Seq::<u8>::empty()) == Seq::<u8>::empty());
        assert(dec_run::<Hill>(md0, Seq::<u8>::empty()) == Some((md0, Seq::<u8>::empty())));
        assert(canonical_letters(s) == Seq::<u8>::empty());
    } else {
        if s.len() < n {
            lemma_mod_bound(s.len() as int, n);
            vstd::arithmetic::div_mod::lemma_small_mod(s.len(), me0.mat.size);
            assert(false);
        }
        let block = s.subrange(0, n);
        let rest = s.subrange(n, s.len() as int);
        assert(block + rest =~= s);
        assert forall|i: int| 0 <= i < block.len() implies is_letter(#[trigger] block[i]) by {
            assert(block[i] == s[i]);
        }
        assert forall|i: int| 0 <= i < rest.len() implies is_letter(#[trigger] rest[i]) by {
            assert(rest[i] == s[i + n]);
        }
        vstd::arithmetic::div_mod::lemma_mod_multiples_vanish(1, s.len() - n, n);
        assert(rest.len() as int % n == 0);
        // The plaintext block goes through in one piece.
        lemma_hill_enc_block(me0, block, 0);
        assert(hill_at(me0, block, 0) == me0);
        assert(block.subrange(0, block.len() as int) =~= block);
        let xfill = hill_filled(me0, block, n);
        let me1 = hill_at(me0, block, n);
        let letters1 = hill_block_letters(me0.mat, xfill, n);
        let out1 = format_letters(me0.count, letters1);
        assert(enc_run::<Hill>(me0, block) == Some((me1, out1)));
        lemma_hill_filled_props(me0, block, n);
        lemma_hill_block_letters_len(me0.mat, xfill, n);
        assert forall|i: int| 0 <= i < n implies letters1[i] == letter_of(
            mat_vec_entry(me0.mat, xfill, i) as u8,
        ) && is_letter(#[trigger] letters1[i]) by {
            lemma_hill_block_letters_index(me0.mat, xfill, n, i);
            lemma_mod_bound(
                crate::util::vec_dot(me0.mat, xfill, i, n),
                MODULO as int,
            );
        }
        assert(hill_wf(me1));
        lemma_block_boundary(me0.count, me0.mat.size);
        assert(me1.count % me1.mat.size == 0);
        // The ciphertext block letters drive the decryptor to the matching
        // state.
        lemma_hill_dec_block(md0, letters1, 0);
        assert(hill_at(md0, letters1, 0) == md0);
        assert(letters1.subrange(0, letters1.len() as int) =~= letters1);
        let yfill = hill_filled(md0, letters1, n);
        let md1 = hill_at(md0, letters1, n);
        let plain1 = hill_block_letters(md0.inv, yfill, n);
        assert(dec_run::<Hill>(md0, letters1) == Some((md1, plain1)));
        lemma_hill_filled_props(md0, letters1, n);
        assert(hill_wf(md1));
        // The inverse matrix undoes the block.
        assert forall|t: int| 0 <= t < n implies (#[trigger] yfill[t]).value as int
            == mat_vec_entry(me0.mat, xfill, t) by {
            assert(yfill[t] == (ModuloU8 { value: letter_value(letters1[t]), modulo: MODULO }));
            let e = mat_vec_entry(me0.mat, xfill, t);
            lemma_mod_bound(crate::util::vec_dot(me0.mat, xfill, t, n), MODULO as int);
            assert(letter_value(letter_of(e as u8)) == e);
        }
        assert forall|t: int| 0 <= t < n implies (#[trigger] xfill[t]).wf() && xfill[t].modulo
            == MODULO by {
            assert(xfill[t] == (ModuloU8 { value: letter_value(block[t]), modulo: MODULO }));
            assert(is_letter(block[t]));
        }
        lemma_hill_block_round_trip(me0, xfill, yfill);
        lemma_hill_block_letters_len(md0.inv, yfill, n);
        lemma_canonical_letters_index(block);
        assert forall|i: int| 0 <= i < n implies plain1[i] == canonical_letters(block)[i] by {
            lemma_hill_block_letters_index(md0.inv, yfill, n, i);
            assert(mat_vec_entry(me0.inv, yfill, i) == xfill[i].value);
            assert(xfill[i].value == letter_value(block[i]));
        }
        assert(plain1 =~= canonical_letters(block));
        // The remaining blocks follow by induction, glued on both sides.
        lemma_hill_round_trip_run(me1, md1, rest);
        lemma_enc_run_append::<Hill>(me0, block, rest);
        match enc_run::<Hill>(me1, rest) {
            Some((me, out_rest)) => {
                assert(enc_run::<Hill>(me0, s) == Some((me, out1 + out_rest)));
                lemma_strip_append(out1, out_rest);
                lemma_strip_format_letters(me0.count, letters1);
                assert(strip_formatting(out1 + out_rest) == letters1 + strip_formatting(
                    out_rest,
                ));
                lemma_dec_run_append::<Hill>(md0, letters1, strip_formatting(out_rest));
                match dec_run::<Hill>(md1, strip_formatting(out_rest)) {
                    Some((md, plain_rest)) => {
                        assert(dec_run::<Hill>(md0, letters1 + strip_formatting(out_rest))
                            == Some((md, plain1 + plain_rest)));
                        lemma_canonical_append(block, rest);
                        assert(canonical_letters(s) == canonical_letters(block)
                            + canonical_letters(rest));
                        assert(plain1 + plain_rest =~= canonical_letters(s));
                    },
                    None => {
                        assert(false);
                    },
                }
            },
            None => {
                assert(false);
            },
        }
    }
}

/// Two whole blocks after a block boundary is again a block boundary.
proof fn lemma_block_boundary(count: nat, size: nat)
    requires
        size >= 1,
        count % size == 0,
    ensures
        (count + size) % size == 0,
{
    let q = count as int / size as int;
    vstd::arithmetic::div_mod::lemma_fundamental_div_mod(count as int, size as int);
    assert(count as int == size as int * q);
    vstd::arithmetic::mul::lemma_mul_is_distributive_add(size as int, q, 1);
    vstd::arithmetic::mul::lemma_mul_basics(size as int);
    assert(count + size == size as int * (q + 1));
    vstd::arithmetic::div_mod::lemma_mod_multiples_basic(q + 1, size as int);
}

/// The Hill round trip over a whole session: a block-aligned letters-only
/// text needs no padding on finish, and decrypting the letters of the
/// encryption recovers the case-folded text.
pub proof fn lemma_hill_round_trip(m: HillView, s: Seq<u8>)
    requires
        hill_wf(m),
        m.count == 0,
        s.len() as int % (m.mat.size as int) == 0,
        forall|i: int| 0 <= i < s.len() ==> is_letter(#[trigger] s[i]),
        s.len() <= CAPACITY,
    ensures
        (match crate::ciphers::enc_complete::<Hill>(m, s) {
            Some((me, out)) => match crate::ciphers::dec_complete::<Hill>(
                m,
                strip_formatting(out),
            ) {
                Some((md, plain)) => plain == canonical_letters(s),
                None => false,
            },
            None => false,
        }),
{
    vstd::arithmetic::div_mod::lemma_small_mod(0nat, m.mat.size);
    lemma_hill_round_trip_run(m, m, s);
    match enc_run::<Hill>(m, s) {
        Some((me, out)) => {
            assert(me.count == s.len());
            assert(me.count % me.mat.size == 0);
            vstd::arithmetic::div_mod::lemma_mod_self_0(me.mat.size as int);
            assert(hill_enc_finish(me) == hill_pad_m(me, 0nat));
            assert(out + Seq::<u8>::empty() =~= out);
            match dec_run::<Hill>(m, strip_formatting(out)) {
                Some((md, plain)) => {
                    assert(md.count % md.mat.size == 0);
                    assert(plain + Seq::<u8>::empty() =~= plain);
                },
                None => {},
            }
        },
        None => {},
    }
}

/// Construction is deterministic: two well-formed Hill states over the
/// same key matrix, counter and block buffer agree on everything, because
/// a matrix has only one two-sided inverse. Two fresh instances built from
/// the same key therefore behave identically.
pub proof fn lemma_hill_state_deterministic(c1: HillView, c2: HillView)
    requires
        hill_wf(c1),
        hill_wf(c2),
        c1.mat == c2.mat,
        c1.count == c2.count,
        c1.block == c2.block,
    ensures
        c1 == c2,
{
    crate::util::lemma_matrix_inverse_unique(c1.mat, c1.inv, c2.inv);
    assert(c1.inv =~= c2.inv) by {
        assert(c1.inv.vals == c2.inv.vals);
        assert(c1.inv.size == c2.inv.size && c1.inv.modulo == c2.inv.modulo);
    }
}

/// The Hill round trip on one block: a block of letter residues encrypted
/// through the key matrix and decrypted through its stored inverse comes
/// back unchanged, letter for letter.
pub proof fn lemma_hill_block_round_trip(m: HillView, x: Seq<ModuloU8>, y: Seq<ModuloU8>)
    requires
        hill_wf(m),
        x.len() == m.mat.size,
        forall|t: int| 0 <= t < x.len() ==> (#[trigger] x[t]).wf() && x[t].modulo == MODULO,
        y.len() == m.mat.size,
        forall|t: int| 0 <= t < y.len() ==> (#[trigger] y[t]).value as int == mat_vec_entry(m.mat, x, t),
    ensures
        forall|i: int| 0 <= i < m.mat.size ==> #[trigger] mat_vec_entry(m.inv, y, i) == x[i].value,
        forall|i: int|
            0 <= i < m.mat.size ==> hill_block_letters(m.inv, y, m.mat.size as int)[i]
                == letter_of(x[i].value),
{
    crate::util::lemma_mat_vec_round_trip(m.mat, m.inv, x, y);
    assert forall|i: int| 0 <= i < m.mat.size implies hill_block_letters(
        m.inv,
        y,
        m.mat.size as int,
    )[i] == letter_of(x[i].value) by {
        lemma_hill_block_letters_index(m.inv, y, m.mat.size as int, i);
    }
}

/// Each letter of a transformed block is the letter of its entry.
proof fn lemma_hill_block_letters_index(m: MatrixView, block: Seq<ModuloU8>, upto: int, i: int)
    requires
        0 <= i < upto,
    ensures
        hill_block_letters(m, block, upto)[i] == letter_of(mat_vec_entry(m, block, i) as u8),
    decreases upto,
{
    lemma_hill_block_letters_len(m, block, upto - 1);
    if i < upto - 1 {
        lemma_hill_block_letters_index(m, block, upto - 1, i);
    }
}

impl Decryptor for Hill {
    open spec fn dec_wf(m: HillView) -> bool {
        hill_wf(m)
    }

    open spec fn dec_byte_m(m: HillView, byte: u8) -> Option<(HillView, Seq<u8>)> {
        hill_dec_byte(m, byte)
    }

    open spec fn dec_finish_m(m: HillView) -> Option<(HillView, Seq<u8>)> {
        if m.count % m.mat.size == 0 {
            Some((m, Seq::empty()))
        } else {
            None
        }
    }

    fn decrypt_byte(&mut self, byte: u8) -> (r: Result<Vec<u8>, CipherError>)
        ensures
            r is Err ==> final(self)@ == old(self)@,
    {
        if self.count >= CAPACITY {
            return Err(CipherError::new());
        }
        match to_letter_index(byte) {
            None => Err(CipherError::new()),
            Some(p) => {
                let n = self.mat.size();
                let i = self.count % n;
                proof {
                    lemma_mod_bound(self.count as int, n as int);
                }
                self.block.set(i, ModuloU8 { value: p, modulo: MODULO });
                self.count = self.count + 1;
                if i + 1 < n {
                    let out: Vec<u8> = Vec::new();
                    proof {
                        assert(out@ =~= Seq::<u8>::empty());
                    }
                    Ok(out)
                } else {
                    let ghost block2 = self.block@;
                    let transformed = self.mat_inv.slice_mult(self.block.as_slice());
                    let mut out: Vec<u8> = Vec::new();
                    let mut k: usize = 0;
                    while k < n
                        invariant
                            n == self@.inv.size,
                            transformed@.len() == n,
                            forall|u: int|
                                0 <= u < n ==> (#[trigger] transformed@[u]).value as int
                                    == mat_vec_entry(self@.inv, block2, u) && transformed@[u].value
                                    < MODULO,
                            k <= n,
                            out@ == hill_block_letters(self@.inv, block2, k as int),
                        decreases n - k,
                    {
                        out.push(transformed[k].value() + A_UPPER);
                        k = k + 1;
                    }
                    Ok(out)
                }
            },
        }
    }

    fn decrypt_finish(&mut self) -> (r: Result<Vec<u8>, CipherError>)
        ensures
            r is Err ==> final(self)@ == old(self)@,
    {
        let n = self.mat.size();
        if self.count % n == 0 {
            let out: Vec<u8> = Vec::new();
            proof {
                assert(out@ =~= Seq::<u8>::empty());
            }
            Ok(out)
        } else {
            Err(CipherError::new())
        }
    }
}

} // verus!
