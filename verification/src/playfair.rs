//! The Playfair cipher: a 5x5 key square over the 25-letter alphabet with
//! I and J unified, substituting two letters (a digraph) at a time. The
//! square holds the key's letters, deduplicated in order of first
//! appearance, then the unused letters in alphabetical order; its inverse
//! table gives each letter's cell in constant time.

use vstd::prelude::*;
use crate::ciphers::{dec_run, enc_run, CipherError, Decryptor, Encryptor, CAPACITY};
use crate::letters::{format_letters, is_letter, letter_index, strip_formatting, to_letter_index};

verus! {

/// The Playfair cipher: the key square (cell to letter), its inverse
/// (letter to cell), the running letter counter, and the first letter of a
/// half-finished digraph, live while the counter is odd.
#[derive(Debug)]
pub struct Playfair {
    key: Vec<u8>,
    key_inv: Vec<u8>,
    count: usize,
    pending: u8,
}

/// The state of a `Playfair`.
pub struct PlayfairView {
    pub key: Seq<u8>,
    pub key_inv: Seq<u8>,
    pub count: nat,
    pub pending: u8,
}

impl View for Playfair {
    type V = PlayfairView;

    closed spec fn view(&self) -> PlayfairView {
        PlayfairView {
            key: self.key@,
            key_inv: self.key_inv@,
            count: self.count as nat,
            pending: self.pending,
        }
    }
}

/// The merged 25-letter index of a byte: letters map to their residue with
/// I and J sharing one slot; every other byte is rejected.
pub open spec fn pf_index(b: u8) -> Option<u8> {
    match letter_index(b) {
        None => None,
        Some(v) => Some(
            if v < 9 {
                v
            } else {
                (v - 1) as u8
            },
        ),
    }
}

/// The uppercase letter of a merged index, J never chosen.
pub open spec fn pf_unindex(v: u8) -> u8
    recommends
        v < 25,
{
    if v < 9 {
        (65 + v) as u8
    } else {
        (66 + v) as u8
    }
}

/// Maps a byte to its cell value in the 25-letter alphabet: letters only,
/// I and J unified.
pub fn byte_mapping(v: u8) -> (r: Option<u8>)
    ensures
        r == pf_index(v),
        (match r {
            Some(k) => k < 25,
            None => true,
        }),
{
    match to_letter_index(v) {
        None => None,
        Some(x) => {
            if x < 9 {
                Some(x)
            } else {
                Some(x - 1)
            }
        },
    }
}

/// Maps a cell value back to its uppercase letter.
pub fn byte_unmapping(v: u8) -> (r: u8)
    requires
        v < 25,
    ensures
        r == pf_unindex(v),
{
    if v < 9 {
        65 + v
    } else {
        66 + v
    }
}

/// The square is a bijection between the 25 cells and the 25 letter
/// values, and any pending letter is a valid value.
pub open spec fn pf_wf(m: PlayfairView) -> bool {
    &&& m.key.len() == 25
    &&& m.key_inv.len() == 25
    &&& (forall|i: int| 0 <= i < 25 ==> (#[trigger] m.key[i]) < 25 && m.key_inv[m.key[i] as int] == i)
    &&& (forall|v: int| 0 <= v < 25 ==> (#[trigger] m.key_inv[v]) < 25 && m.key[m.key_inv[v] as int] == v)
    &&& m.pending < 25
}

/// The Playfair substitution of one digraph of cell values: same row moves
/// each letter one column right, same column one row down, otherwise the
/// two letters swap columns.
#[verifier::opaque]
pub open spec fn pf_encrypt_pair(m: PlayfairView, a: u8, b: u8) -> (u8, u8)
    recommends
        pf_wf(m),
        a < 25,
        b < 25,
{
    let pa = m.key_inv[a as int] as int;
    let pb = m.key_inv[b as int] as int;
    let da = pa / 5;
    let ra = pa % 5;
    let db = pb / 5;
    let rb = pb % 5;
    if da == db {
        (m.key[da * 5 + (ra + 1) % 5], m.key[db * 5 + (rb + 1) % 5])
    } else if ra == rb {
        (m.key[((da + 1) % 5) * 5 + ra], m.key[((db + 1) % 5) * 5 + rb])
    } else {
        (m.key[da * 5 + rb], m.key[db * 5 + ra])
    }
}

/// The exact mirror of `pf_encrypt_pair`: one column left, one row up, or
/// the same column swap.
#[verifier::opaque]
pub open spec fn pf_decrypt_pair(m: PlayfairView, a: u8, b: u8) -> (u8, u8)
    recommends
        pf_wf(m),
        a < 25,
        b < 25,
{
    let pa = m.key_inv[a as int] as int;
    let pb = m.key_inv[b as int] as int;
    let da = pa / 5;
    let ra = pa % 5;
    let db = pb / 5;
    let rb = pb % 5;
    if da == db {
        (m.key[da * 5 + (ra + 4) % 5], m.key[db * 5 + (rb + 4) % 5])
    } else if ra == rb {
        (m.key[((da + 4) % 5) * 5 + ra], m.key[((db + 4) % 5) * 5 + rb])
    } else {
        (m.key[da * 5 + rb], m.key[db * 5 + ra])
    }
}

/// One encryption step: the first letter of a digraph is held back; the
/// second completes the pair and the substituted pair is emitted with its
/// formatting. A doubled letter other than X is broken up by an X filler,
/// the counter advancing one extra step and the doubled letter staying
/// queued for the next digraph.
pub open spec fn pf_enc_byte(m: PlayfairView, byte: u8) -> Option<(PlayfairView, Seq<u8>)> {
    if m.count >= CAPACITY {
        None
    } else {
        match pf_index(byte) {
            None => None,
            Some(k) => {
                if m.count % 2 == 0 {
                    Some(
                        (
                            PlayfairView {
                                key: m.key,
                                key_inv: m.key_inv,
                                count: m.count + 1,
                                pending: k,
                            },
                            Seq::empty(),
                        ),
                    )
                } else {
                    let a = m.pending;
                    if a == k && k != 22 {
                        let (x, y) = pf_encrypt_pair(m, a, 22);
                        Some(
                            (
                                PlayfairView {
                                    key: m.key,
                                    key_inv: m.key_inv,
                                    count: m.count + 2,
                                    pending: a,
                                },
                                format_letters(
                                    (m.count - 1) as nat,
                                    seq![pf_unindex(x), pf_unindex(y)],
                                ),
                            ),
                        )
                    } else {
                        let (x, y) = pf_encrypt_pair(m, a, k);
                        Some(
                            (
                                PlayfairView {
                                    key: m.key,
                                    key_inv: m.key_inv,
                                    count: m.count + 1,
                                    pending: m.pending,
                                },
                                format_letters(
                                    (m.count - 1) as nat,
                                    seq![pf_unindex(x), pf_unindex(y)],
                                ),
                            ),
                        )
                    }
                }
            },
        }
    }
}

/// One decryption step: strict digraphs, the mirror substitution, no
/// formatting and no filler repair.
pub open spec fn pf_dec_byte(m: PlayfairView, byte: u8) -> Option<(PlayfairView, Seq<u8>)> {
    if m.count >= CAPACITY {
        None
    } else {
        match pf_index(byte) {
            None => None,
            Some(k) => {
                if m.count % 2 == 0 {
                    Some(
                        (
                            PlayfairView {
                                key: m.key,
                                key_inv: m.key_inv,
                                count: m.count + 1,
                                pending: k,
                            },
                            Seq::empty(),
                        ),
                    )
                } else {
                    let (x, y) = pf_decrypt_pair(m, m.pending, k);
                    Some(
                        (
                            PlayfairView {
                                key: m.key,
                                key_inv: m.key_inv,
                                count: m.count + 1,
                                pending: m.pending,
                            },
                            seq![pf_unindex(x), pf_unindex(y)],
                        ),
                    )
                }
            },
        }
    }
}

/// How many slots of the tracking table are taken.
pub open spec fn count_true(s: Seq<bool>) -> int
    decreases s.len(),
{
    if s.len() == 0 {
        0
    } else {
        count_true(s.drop_last()) + (if s.last() {
            1int
        } else {
            0int
        })
    }
}

proof fn lemma_count_true_le(s: Seq<bool>)
    ensures
        count_true(s) <= s.len(),
    decreases s.len(),
{
    if s.len() > 0 {
        lemma_count_true_le(s.drop_last());
    }
}

proof fn lemma_count_true_missing(s: Seq<bool>, k: int)
    requires
        0 <= k < s.len(),
        !s[k],
    ensures
        count_true(s) < s.len(),
    decreases s.len(),
{
    if k == s.len() - 1 {
        lemma_count_true_le(s.drop_last());
    } else {
        lemma_count_true_missing(s.drop_last(), k);
    }
}

proof fn lemma_count_true_update(s: Seq<bool>, k: int)
    requires
        0 <= k < s.len(),
        !s[k],
    ensures
        count_true(s.update(k, true)) == count_true(s) + 1,
    decreases s.len(),
{
    let s2 = s.update(k, true);
    if k == s.len() - 1 {
        assert(s2.drop_last() =~= s.drop_last());
        assert(s2.last());
    } else {
        assert(s2.drop_last() =~= s.drop_last().update(k, true));
        lemma_count_true_update(s.drop_last(), k);
        assert(s2.last() == s.last());
    }
}

proof fn lemma_count_true_full(s: Seq<bool>)
    requires
        forall|i: int| 0 <= i < s.len() ==> s[i],
    ensures
        count_true(s) == s.len(),
    decreases s.len(),
{
    if s.len() > 0 {
        lemma_count_true_full(s.drop_last());
    }
}

/// The partially built square: placed cells, the inverse table, and the
/// tracking table.
pub struct SquareBuild {
    pub cells: Seq<u8>,
    pub inv: Seq<u8>,
    pub seen: Seq<bool>,
}

/// The empty square.
pub open spec fn square_start() -> SquareBuild {
    SquareBuild {
        cells: Seq::empty(),
        inv: Seq::new(25, |i: int| 0u8),
        seen: Seq::new(25, |i: int| false),
    }
}

/// Places one cell value: a fresh value takes the next cell, a repeated
/// one is dropped.
pub open spec fn square_place(b: SquareBuild, k: u8) -> SquareBuild {
    if k < 25 && !b.seen[k as int] {
        SquareBuild {
            cells: b.cells.push(k),
            inv: b.inv.update(k as int, b.cells.len() as u8),
            seen: b.seen.update(k as int, true),
        }
    } else {
        b
    }
}

/// Absorbs a key string: its letters' cell values in order, repetitions
/// dropped.
pub open spec fn square_absorb(b: SquareBuild, key: Seq<u8>) -> SquareBuild
    decreases key.len(),
{
    if key.len() == 0 {
        b
    } else {
        let b2 = (match pf_index(key[0]) {
            Some(k) => square_place(b, k),
            None => b,
        });
        square_absorb(b2, key.subrange(1, key.len() as int))
    }
}

/// Fills the remaining cells with the unused values in increasing order,
/// starting from value `k`.
pub open spec fn square_fill(b: SquareBuild, k: int) -> SquareBuild
    decreases 25 - k,
{
    if k < 0 || k >= 25 {
        b
    } else {
        square_fill(square_place(b, k as u8), k + 1)
    }
}

/// The finished square of a key string.
pub open spec fn square_of(key: Seq<u8>) -> SquareBuild {
    square_fill(square_absorb(square_start(), key), 0)
}

/// The invariant of a partial build: the placed cells are distinct values
/// below 25, the inverse table points back at them, the tracking table
/// marks exactly the placed values.
pub open spec fn square_build_wf(b: SquareBuild) -> bool {
    &&& b.inv.len() == 25
    &&& b.seen.len() == 25
    &&& b.cells.len() <= 25
    &&& (forall|i: int|
        0 <= i < b.cells.len() ==> (#[trigger] b.cells[i]) < 25 && b.seen[b.cells[i] as int]
            && b.inv[b.cells[i] as int] == i)
    &&& (forall|v: int|
        0 <= v < 25 && b.seen[v] ==> (#[trigger] b.inv[v]) < b.cells.len()
            && b.cells[b.inv[v] as int] == v)
    &&& b.cells.len() == count_true(b.seen)
}

proof fn lemma_square_place_wf(b: SquareBuild, k: u8)
    requires
        square_build_wf(b),
        k < 25,
    ensures
        square_build_wf(square_place(b, k)),
        square_place(b, k).seen[k as int],
        forall|v: int| 0 <= v < 25 && b.seen[v] ==> square_place(b, k).seen[v],
{
    if !b.seen[k as int] {
        lemma_count_true_missing(b.seen, k as int);
        lemma_count_true_update(b.seen, k as int);
        let b2 = square_place(b, k);
        assert forall|i: int|
            0 <= i < b2.cells.len() implies (#[trigger] b2.cells[i]) < 25
            && b2.seen[b2.cells[i] as int] && b2.inv[b2.cells[i] as int] == i by {
            if i < b.cells.len() {
                assert(b.cells[i] != k);
            }
        }
        assert forall|v: int|
            0 <= v < 25 && b2.seen[v] implies (#[trigger] b2.inv[v]) < b2.cells.len()
            && b2.cells[b2.inv[v] as int] == v by {
            if v != k as int {
                assert(b.seen[v]);
            }
        }
    }
}

proof fn lemma_square_fill_wf(b: SquareBuild, k: int)
    requires
        square_build_wf(b),
        0 <= k <= 25,
        forall|v: int| 0 <= v < k ==> b.seen[v],
    ensures
        square_build_wf(square_fill(b, k)),
        forall|v: int| 0 <= v < 25 ==> square_fill(b, k).seen[v],
        square_fill(b, k).cells.len() == 25,
    decreases 25 - k,
{
    if k >= 25 {
        lemma_count_true_full(b.seen);
    } else {
        lemma_square_place_wf(b, k as u8);
        lemma_square_fill_wf(square_place(b, k as u8), k + 1);
    }
}

impl Playfair {
    /// Builds the key square from a non-empty key string: its letters
    /// deduplicated in order of first appearance, the unused letters after
    /// them in alphabetical order.
    pub fn new(key: &[u8]) -> (r: Result<Self, &'static str>)
        ensures
            r is Ok <==> key@.len() > 0,
            (match r {
                Ok(c) => {
                    &&& c@ == (PlayfairView {
                        key: square_of(key@).cells,
                        key_inv: square_of(key@).inv,
                        count: 0,
                        pending: 0,
                    })
                    &&& pf_wf(c@)
                },
                Err(e) => e@ == "key cannot be empty"@,
            }),
    {
        if key.len() == 0 {
            return Err("key cannot be empty");
        }
        let mut cells: Vec<u8> = Vec::new();
        let mut inv: Vec<u8> = Vec::new();
        let mut seen: Vec<bool> = Vec::new();
        let mut t: usize = 0;
        while t < 25
            invariant
                t <= 25,
                inv@.len() == t,
                seen@.len() == t,
                forall|u: int| 0 <= u < t ==> inv@[u] == 0u8,
                forall|u: int| 0 <= u < t ==> !(#[trigger] seen@[u]),
            decreases 25 - t,
        {
            inv.push(0);
            seen.push(false);
            t = t + 1;
        }
        proof {
            assert(cells@ =~= square_start().cells);
            assert(inv@ =~= square_start().inv);
            assert(seen@ =~= square_start().seen);
            assert(count_true(square_start().seen) == 0) by {
                lemma_count_true_zeros(square_start().seen);
            }
            assert(SquareBuild { cells: cells@, inv: inv@, seen: seen@ } == square_start());
            assert(key@.subrange(0, key@.len() as int) =~= key@);
        }
        let ghost absorbed = square_absorb(square_start(), key@);
        let mut i: usize = 0;
        while i < key.len()
            invariant
                i <= key@.len(),
                square_build_wf(SquareBuild { cells: cells@, inv: inv@, seen: seen@ }),
                square_absorb(
                    SquareBuild { cells: cells@, inv: inv@, seen: seen@ },
                    key@.subrange(i as int, key@.len() as int),
                ) == absorbed,
            decreases key@.len() - i,
        {
            let ghost pre = SquareBuild { cells: cells@, inv: inv@, seen: seen@ };
            let ghost rest = key@.subrange(i as int, key@.len() as int);
            let b = key[i];
            match byte_mapping(b) {
                Some(k) => {
                    proof {
                        lemma_square_place_wf(pre, k);
                    }
                    if !seen[k as usize] {
                        proof {
                            lemma_count_true_missing(pre.seen, k as int);
                        }
                        inv.set(k as usize, cells.len() as u8);
                        seen.set(k as usize, true);
                        cells.push(k);
                    }
                    proof {
                        assert(SquareBuild { cells: cells@, inv: inv@, seen: seen@ }
                            == square_place(pre, k));
                    }
                },
                None => {},
            }
            proof {
                assert(rest[0] == b);
                assert(rest.subrange(1, rest.len() as int) =~= key@.subrange(
                    i + 1,
                    key@.len() as int,
                ));
            }
            i = i + 1;
        }
        proof {
            assert(key@.subrange(key@.len() as int, key@.len() as int) =~= Seq::<u8>::empty());
            assert(SquareBuild { cells: cells@, inv: inv@, seen: seen@ } == absorbed);
        }
        let ghost filled = square_of(key@);
        let mut k: usize = 0;
        while k < 25
            invariant
                k <= 25,
                square_build_wf(SquareBuild { cells: cells@, inv: inv@, seen: seen@ }),
                forall|v: int|
                    0 <= v < k ==> (SquareBuild { cells: cells@, inv: inv@, seen: seen@ }).seen[v],
                square_fill(SquareBuild { cells: cells@, inv: inv@, seen: seen@ }, k as int)
                    == filled,
            decreases 25 - k,
        {
            let ghost pre = SquareBuild { cells: cells@, inv: inv@, seen: seen@ };
            proof {
                lemma_square_place_wf(pre, k as u8);
            }
            if !seen[k] {
                proof {
                    lemma_count_true_missing(pre.seen, k as int);
                }
                inv.set(k, cells.len() as u8);
                seen.set(k, true);
                cells.push(k as u8);
            }
            proof {
                assert(SquareBuild { cells: cells@, inv: inv@, seen: seen@ } == square_place(
                    pre,
                    k as u8,
                ));
            }
            k = k + 1;
        }
        proof {
            assert(SquareBuild { cells: cells@, inv: inv@, seen: seen@ } == filled);
            lemma_square_fill_wf(absorbed, 0);
        }
        Ok(Playfair { key: cells, key_inv: inv, count: 0, pending: 0 })
    }

    /// Substitutes one digraph of cell values for encryption.
    pub fn encrypt_pair(&self, a: u8, b: u8) -> (r: (u8, u8))
        requires
            pf_wf(self@),
            a < 25,
            b < 25,
        ensures
            r == pf_encrypt_pair(self@, a, b),
            r.0 < 25,
            r.1 < 25,
    {
        proof {
            reveal(pf_encrypt_pair);
        }
        let pa = self.key_inv[a as usize];
        let pb = self.key_inv[b as usize];
        let (mut da, mut ra) = (pa / 5, pa % 5);
        let (mut db, mut rb) = (pb / 5, pb % 5);
        if da == db {
            ra = (ra + 1) % 5;
            rb = (rb + 1) % 5;
        } else if ra == rb {
            da = (da + 1) % 5;
            db = (db + 1) % 5;
        } else {
            let tmp = ra;
            ra = rb;
            rb = tmp;
        }
        let x = self.key[(da * 5 + ra) as usize];
        let y = self.key[(db * 5 + rb) as usize];
        (x, y)
    }

    /// Substitutes one digraph of cell values for decryption.
    pub fn decrypt_pair(&self, a: u8, b: u8) -> (r: (u8, u8))
        requires
            pf_wf(self@),
            a < 25,
            b < 25,
        ensures
            r == pf_decrypt_pair(self@, a, b),
            r.0 < 25,
            r.1 < 25,
    {
        proof {
            reveal(pf_decrypt_pair);
        }
        let pa = self.key_inv[a as usize];
        let pb = self.key_inv[b as usize];
        let (mut da, mut ra) = (pa / 5, pa % 5);
        let (mut db, mut rb) = (pb / 5, pb % 5);
        if da == db {
            ra = (ra + 4) % 5;
            rb = (rb + 4) % 5;
        } else if ra == rb {
            da = (da + 4) % 5;
            db = (db + 4) % 5;
        } else {
            let tmp = ra;
            ra = rb;
            rb = tmp;
        }
        let x = self.key[(da * 5 + ra) as usize];
        let y = self.key[(db * 5 + rb) as usize];
        (x, y)
    }
}

proof fn lemma_count_true_zeros(s: Seq<bool>)
    requires
        forall|i: int| 0 <= i < s.len() ==> !s[i],
    ensures
        count_true(s) == 0,
    decreases s.len(),
{
    if s.len() > 0 {
        lemma_count_true_zeros(s.drop_last());
    }
}

impl Encryptor for Playfair {
    open spec fn enc_wf(m: PlayfairView) -> bool {
        pf_wf(m)
    }

    open spec fn enc_byte_m(m: PlayfairView, byte: u8) -> Option<(PlayfairView, Seq<u8>)> {
        pf_enc_byte(m, byte)
    }

    open spec fn enc_finish_m(m: PlayfairView) -> Option<(PlayfairView, Seq<u8>)> {
        if m.count % 2 == 0 {
            Some((m, Seq::empty()))
        } else {
            pf_enc_byte(m, 88)
        }
    }

    fn encrypt_byte(&mut self, byte: u8) -> (r: Result<Vec<u8>, CipherError>)
        ensures
            r is Err ==> final(self)@ == old(self)@,
    {
        if self.count >= CAPACITY {
            return Err(CipherError::new());
        }
        match byte_mapping(byte) {
            None => Err(CipherError::new()),
            Some(k) => {
                if self.count % 2 == 0 {
                    self.pending = k;
                    self.count = self.count + 1;
                    let out: Vec<u8> = Vec::new();
                    proof {
                        assert(out@ =~= Seq::<u8>::empty());
                    }
                    Ok(out)
                } else {
                    let a = self.pending;
                    let pos = self.count - 1;
                    let (x, y) = (if a == k && k != 22 {
                        let pair = self.encrypt_pair(a, 22);
                        self.count = self.count + 2;
                        pair
                    } else {
                        let pair = self.encrypt_pair(a, k);
                        self.count = self.count + 1;
                        pair
                    });
                    let mut out: Vec<u8> = Vec::new();
                    crate::letters::push_formatted(&mut out, pos, byte_unmapping(x));
                    crate::letters::push_formatted(&mut out, pos + 1, byte_unmapping(y));
                    proof {
                        lemma_format_two(pos as nat, pf_unindex(x), pf_unindex(y));
                        assert(out@ =~= format_letters(
                            pos as nat,
                            seq![pf_unindex(x), pf_unindex(y)],
                        ));
                    }
                    Ok(out)
                }
            },
        }
    }

    fn encrypt_finish(&mut self) -> (r: Result<Vec<u8>, CipherError>)
        ensures
            r is Err ==> final(self)@ == old(self)@,
    {
        if self.count % 2 == 0 {
            let out: Vec<u8> = Vec::new();
            proof {
                assert(out@ =~= Seq::<u8>::empty());
            }
            Ok(out)
        } else {
            self.encrypt_byte(88)
        }
    }
}

impl Decryptor for Playfair {
    open spec fn dec_wf(m: PlayfairView) -> bool {
        pf_wf(m)
    }

    open spec fn dec_byte_m(m: PlayfairView, byte: u8) -> Option<(PlayfairView, Seq<u8>)> {
        pf_dec_byte(m, byte)
    }

    open spec fn dec_finish_m(m: PlayfairView) -> Option<(PlayfairView, Seq<u8>)> {
        if m.count % 2 == 0 {
            Some((m, Seq::empty()))
        } else {
            None
        }
    }

    fn decrypt_byte(&mut self, byte: u8) -> (r: Result<Vec<u8>, CipherError>)
        ensures
            r is Err ==> final(self)@ == old(self)@,
    {
        if self.count >= CAPACITY {
            return Err(CipherError::new());
        }
        match byte_mapping(byte) {
            None => Err(CipherError::new()),
            Some(k) => {
                if self.count % 2 == 0 {
                    self.pending = k;
                    self.count = self.count + 1;
                    let out: Vec<u8> = Vec::new();
                    proof {
                        assert(out@ =~= Seq::<u8>::empty());
                    }
                    Ok(out)
                } else {
                    let (x, y) = self.decrypt_pair(self.pending, k);
                    self.count = self.count + 1;
                    let mut out: Vec<u8> = Vec::new();
                    out.push(byte_unmapping(x));
                    out.push(byte_unmapping(y));
                    proof {
                        assert(out@ =~= seq![pf_unindex(x), pf_unindex(y)]);
                    }
                    Ok(out)
                }
            },
        }
    }

    fn decrypt_finish(&mut self) -> (r: Result<Vec<u8>, CipherError>)
        ensures
            r is Err ==> final(self)@ == old(self)@,
    {
        if self.count % 2 == 0 {
            let out: Vec<u8> = Vec::new();
            proof {
                assert(out@ =~= Seq::<u8>::empty());
            }
            Ok(out)
        } else {
            Err(CipherError::new())
        }
    }
}

/// Formatting a digraph is the two letters formatted at consecutive
/// positions.
proof fn lemma_format_two(pos: nat, x: u8, y: u8)
    ensures
        format_letters(pos, seq![x, y]) == crate::letters::format_letter(pos, x)
            + crate::letters::format_letter(pos + 1, y),
{
    let s = seq![x, y];
    assert(s.subrange(1, 2) =~= seq![y]);
    assert(seq![y].subrange(1, 1) =~= Seq::<u8>::empty());
    assert(format_letters(pos + 2, Seq::<u8>::empty()) == Seq::<u8>::empty());
    assert(format_letters(pos + 1, seq![y]) =~= crate::letters::format_letter(pos + 1, y));
    assert(format_letters(pos, s) =~= crate::letters::format_letter(pos, x)
        + crate::letters::format_letter(pos + 1, y));
}

/// The cell values of a byte string through the merged alphabet, folded
/// back to uppercase letters with J written as I: what Playfair decryption
/// recovers of a plaintext.
pub open spec fn pf_canonical(s: Seq<u8>) -> Seq<u8>
    decreases s.len(),
{
    if s.len() == 0 {
        Seq::empty()
    } else {
        let rest = pf_canonical(s.subrange(1, s.len() as int));
        match pf_index(s[0]) {
            Some(v) => seq![pf_unindex(v)] + rest,
            None => rest,
        }
    }
}

/// No digraph holds one letter twice, except the filler letter X itself:
/// on such input encryption inserts no filler and the pairing stays fixed.
pub open spec fn pf_no_doubled_pair(s: Seq<u8>) -> bool {
    forall|j: int|
        0 <= j && j % 2 == 0 && j + 1 < s.len() ==> ((#[trigger] pf_index(s[j])) == pf_index(
            s[j + 1],
        ) ==> pf_index(s[j]) == Some(22u8))
}


/// A state with the same square but a new counter and pending slot.
pub open spec fn pf_with(m: PlayfairView, count: nat, pending: u8) -> PlayfairView {
    PlayfairView { key: m.key, key_inv: m.key_inv, count, pending }
}

/// What one clean digraph does, on both sides: two encryption steps emit
/// the substituted pair with its formatting, and the two decryption steps
/// fed that pair emit the original letters.
#[verifier::spinoff_prover]
proof fn lemma_pf_digraph_steps(me0: PlayfairView, md0: PlayfairView, b0: u8, b1: u8, k0: u8, k1: u8)
    requires
        pf_wf(me0),
        pf_wf(md0),
        me0.key == md0.key,
        me0.key_inv == md0.key_inv,
        me0.count == md0.count,
        me0.count % 2 == 0,
        me0.count + 2 <= CAPACITY,
        pf_index(b0) == Some(k0),
        pf_index(b1) == Some(k1),
        k0 < 25,
        k1 < 25,
        k0 == k1 ==> k0 == 22,
    ensures
        ({
            let me1 = pf_with(me0, (me0.count + 1) as nat, k0);
            let (x, y) = pf_encrypt_pair(me1, k0, k1);
            let me2 = pf_with(me0, (me0.count + 2) as nat, k0);
            let md1 = pf_with(md0, (md0.count + 1) as nat, x);
            let md2 = pf_with(md0, (md0.count + 2) as nat, x);
            &&& x < 25 && y < 25
            &&& pf_enc_byte(me0, b0) == Some((me1, Seq::<u8>::empty()))
            &&& pf_enc_byte(me1, b1) == Some(
                (me2, format_letters(me0.count, seq![pf_unindex(x), pf_unindex(y)])),
            )
            &&& pf_wf(me2)
            &&& pf_dec_byte(md0, pf_unindex(x)) == Some((md1, Seq::<u8>::empty()))
            &&& pf_dec_byte(md1, pf_unindex(y)) == Some(
                (md2, seq![pf_unindex(k0), pf_unindex(k1)]),
            )
            &&& pf_wf(md2)
        }),
{
    let me1 = pf_with(me0, (me0.count + 1) as nat, k0);
    let (x, y) = pf_encrypt_pair(me1, k0, k1);
    lemma_pf_pair_bounds(me1, k0, k1);
    assert(pf_encrypt_pair(me1, me1.pending, k1) == (x, y));
    assert(pf_index(pf_unindex(x)) == Some(x));
    assert(pf_index(pf_unindex(y)) == Some(y));
    let md1 = pf_with(md0, (md0.count + 1) as nat, x);
    lemma_playfair_pair_round_trip(me1, k0, k1);
    lemma_pf_pair_same_square(me1, md1, x, y);
    assert(pf_decrypt_pair(md1, md1.pending, y) == (k0, k1));
}

/// The Playfair round trip over a byte run: for a letters-only text of
/// even length in which no digraph doubles a letter other than X,
/// decrypting the letters of the formatted encryption recovers the text
/// with case folded and J merged into I. The two streams end with equal
/// counters and the same square; only the dead half-digraph slot may
/// differ.
#[verifier::rlimit(100)]
#[verifier::spinoff_prover]
pub proof fn lemma_playfair_round_trip_run(me0: PlayfairView, md0: PlayfairView, s: Seq<u8>)
    requires
        pf_wf(me0),
        pf_wf(md0),
        me0.key == md0.key,
        me0.key_inv == md0.key_inv,
        me0.count == md0.count,
        me0.count % 2 == 0,
        s.len() % 2 == 0,
        forall|i: int| 0 <= i < s.len() ==> is_letter(#[trigger] s[i]),
        pf_no_doubled_pair(s),
        me0.count + s.len() <= CAPACITY,
    ensures
        (match enc_run::<Playfair>(me0, s) {
            Some((me, out)) => match dec_run::<Playfair>(md0, strip_formatting(out)) {
                Some((md, plain)) => {
                    &&& plain == pf_canonical(s)
                    &&& me.count == me0.count + s.len()
                    &&& md.count == me.count
                    &&& md.key == me.key
                    &&& md.key_inv == me.key_inv
                },
                None => false,
            },
            None => false,
        }),
    decreases s.len(),
{
    if s.len() == 0 {
        assert(enc_run::<Playfair>(me0, s) == Some((me0, Seq::<u8>::empty())));
        assert(strip_formatting(Seq::<u8>::empty()) == Seq::<u8>::empty());
        assert(dec_run::<Playfair>(md0, Seq::<u8>::empty()) == Some((md0, Seq::<u8>::empty())));
        assert(pf_canonical(s) == Seq::<u8>::empty());
    } else {
        let k0 = (match pf_index(s[0]) {
            Some(v) => v,
            None => 0u8,
        });
        let k1 = (match pf_index(s[1]) {
            Some(v) => v,
            None => 0u8,
        });
        assert(pf_index(s[0]) == Some(k0) && pf_index(s[1]) == Some(k1));
        assert(k0 < 25 && k1 < 25);
        assert(k0 == k1 ==> k0 == 22) by {
            assert(pf_index(s[0]) == pf_index(s[0]));
        }
        lemma_pf_digraph_steps(me0, md0, s[0], s[1], k0, k1);
        let me1 = pf_with(me0, (me0.count + 1) as nat, k0);
        let (x, y) = pf_encrypt_pair(me1, k0, k1);
        let me2 = pf_with(me0, (me0.count + 2) as nat, k0);
        let md1 = pf_with(md0, (md0.count + 1) as nat, x);
        let md2 = pf_with(md0, (md0.count + 2) as nat, x);
        let pos = me0.count;
        let out2 = format_letters(pos, seq![pf_unindex(x), pf_unindex(y)]);
        let plain2 = seq![pf_unindex(k0), pf_unindex(k1)];
        let tail1 = s.subrange(1, s.len() as int);
        let rest = s.subrange(2, s.len() as int);
        assert(tail1[0] == s[1]);
        assert(tail1.subrange(1, tail1.len() as int) =~= rest);
        // The remaining text is still clean and letters-only.
        lemma_pf_tail_clean(s);
        lemma_playfair_round_trip_run(me2, md2, rest);
        match enc_run::<Playfair>(me2, rest) {
            Some((me, out_rest)) => {
                assert(enc_run::<Playfair>(me2, tail1.subrange(1, tail1.len() as int))
                    == enc_run::<Playfair>(me2, rest));
                assert(enc_run::<Playfair>(me1, tail1) == Some((me, out2 + out_rest)));
                assert(enc_run::<Playfair>(me0, s) == Some(
                    (me, Seq::<u8>::empty() + (out2 + out_rest)),
                ));
                let whole = Seq::<u8>::empty() + (out2 + out_rest);
                assert(whole =~= out2 + out_rest);
                // Stripping recovers the pair's letters and the rest's.
                assert(is_letter(pf_unindex(x)) && is_letter(pf_unindex(y)));
                crate::letters::lemma_strip_format_letters(
                    pos,
                    seq![pf_unindex(x), pf_unindex(y)],
                );
                crate::letters::lemma_strip_append(out2, out_rest);
                let stripped = seq![pf_unindex(x), pf_unindex(y)] + strip_formatting(out_rest);
                assert(strip_formatting(whole) == stripped);
                // Decryption consumes the pair and undoes the substitution.
                assert(stripped[0] == pf_unindex(x));
                assert(stripped[1] == pf_unindex(y));
                let strip1 = stripped.subrange(1, stripped.len() as int);
                assert(strip1[0] == pf_unindex(y));
                assert(strip1.subrange(1, strip1.len() as int) =~= strip_formatting(out_rest));
                match dec_run::<Playfair>(md2, strip_formatting(out_rest)) {
                    Some((md, plain_rest)) => {
                        assert(dec_run::<Playfair>(md2, strip1.subrange(1, strip1.len() as int))
                            == dec_run::<Playfair>(md2, strip_formatting(out_rest)));
                        assert(dec_run::<Playfair>(md1, strip1) == Some(
                            (md, plain2 + plain_rest),
                        ));
                        assert(dec_run::<Playfair>(md0, stripped) == Some(
                            (md, Seq::<u8>::empty() + (plain2 + plain_rest)),
                        ));
                        assert(Seq::<u8>::empty() + (plain2 + plain_rest) =~= plain2 + plain_rest);
                        assert(plain_rest == pf_canonical(rest));
                        assert(pf_canonical(tail1) == seq![pf_unindex(k1)] + pf_canonical(rest));
                        assert(pf_canonical(s) == seq![pf_unindex(k0)] + pf_canonical(tail1));
                        assert(plain2 + pf_canonical(rest) =~= pf_canonical(s));
                    },
                    None => {
                        assert(false);
                    },
                }
            },
            None => {
                assert(false);
            },
        }
    }
}

/// The Playfair round trip over a whole session: encryption of a clean
/// even-length letters-only text flushes nothing more, and decrypting the
/// letters of its output recovers the text, case folded and with J merged
/// into I.
pub proof fn lemma_playfair_round_trip(m: PlayfairView, s: Seq<u8>)
    requires
        pf_wf(m),
        m.count == 0,
        s.len() % 2 == 0,
        forall|i: int| 0 <= i < s.len() ==> is_letter(#[trigger] s[i]),
        pf_no_doubled_pair(s),
        s.len() <= CAPACITY,
    ensures
        (match crate::ciphers::enc_complete::<Playfair>(m, s) {
            Some((me, out)) => match crate::ciphers::dec_complete::<Playfair>(
                m,
                strip_formatting(out),
            ) {
                Some((md, plain)) => plain == pf_canonical(s),
                None => false,
            },
            None => false,
        }),
{
    lemma_playfair_round_trip_run(m, m, s);
    match enc_run::<Playfair>(m, s) {
        Some((me, out)) => {
            assert(me.count % 2 == 0);
            assert(out + Seq::<u8>::empty() =~= out);
            match dec_run::<Playfair>(m, strip_formatting(out)) {
                Some((md, plain)) => {
                    assert(md.count % 2 == 0);
                    assert(plain + Seq::<u8>::empty() =~= plain);
                },
                None => {},
            }
        },
        None => {},
    }
}

/// Dropping one digraph from a clean letters-only text leaves a clean
/// letters-only text.
proof fn lemma_pf_tail_clean(s: Seq<u8>)
    requires
        s.len() >= 2,
        forall|i: int| 0 <= i < s.len() ==> is_letter(#[trigger] s[i]),
        pf_no_doubled_pair(s),
    ensures
        forall|i: int|
            0 <= i < s.subrange(2, s.len() as int).len() ==> is_letter(
                #[trigger] s.subrange(2, s.len() as int)[i],
            ),
        pf_no_doubled_pair(s.subrange(2, s.len() as int)),
{
    let rest = s.subrange(2, s.len() as int);
    assert forall|i: int| 0 <= i < rest.len() implies is_letter(#[trigger] rest[i]) by {
        assert(rest[i] == s[i + 2]);
    }
    assert forall|j: int|
        0 <= j && j % 2 == 0 && j + 1 < rest.len() implies ((#[trigger] pf_index(rest[j]))
        != pf_index(rest[j + 1]) || pf_index(rest[j]) == Some(22u8)) by {
        assert(rest[j] == s[j + 2] && rest[j + 1] == s[j + 3]);
        assert((j + 2) % 2 == 0);
    }
}

/// The digraph substitution reads only the square, never the counter or
/// the pending slot.
pub proof fn lemma_pf_pair_same_square(m1: PlayfairView, m2: PlayfairView, a: u8, b: u8)
    requires
        m1.key == m2.key,
        m1.key_inv == m2.key_inv,
    ensures
        pf_encrypt_pair(m1, a, b) == pf_encrypt_pair(m2, a, b),
        pf_decrypt_pair(m1, a, b) == pf_decrypt_pair(m2, a, b),
{
    reveal(pf_encrypt_pair);
    reveal(pf_decrypt_pair);
}

/// Both letters of a substituted digraph are valid cell values.
pub proof fn lemma_pf_pair_bounds(m: PlayfairView, a: u8, b: u8)
    requires
        pf_wf(m),
        a < 25,
        b < 25,
    ensures
        pf_encrypt_pair(m, a, b).0 < 25,
        pf_encrypt_pair(m, a, b).1 < 25,
        pf_decrypt_pair(m, a, b).0 < 25,
        pf_decrypt_pair(m, a, b).1 < 25,
{
    reveal(pf_encrypt_pair);
    reveal(pf_decrypt_pair);
    let pa = m.key_inv[a as int] as int;
    let pb = m.key_inv[b as int] as int;
    assert(0 <= pa < 25 && 0 <= pb < 25);
    assert(0 <= pa / 5 < 5 && 0 <= pa % 5 < 5 && 0 <= pb / 5 < 5 && 0 <= pb % 5 < 5) by (
    nonlinear_arith)
        requires
            0 <= pa < 25,
            0 <= pb < 25,
    ;
    assert forall|d: int, r: int| 0 <= d < 5 && 0 <= r < 5 implies 0 <= #[trigger] (d * 5 + r)
        < 25 by {
        assert(0 <= d * 5 + r < 25) by (nonlinear_arith)
            requires
                0 <= d < 5,
                0 <= r < 5,
        ;
    }
}

/// The digraph substitution and its mirror cancel: decrypting an encrypted
/// digraph under the same square gives the original pair back.
pub proof fn lemma_playfair_pair_round_trip(m: PlayfairView, a: u8, b: u8)
    requires
        pf_wf(m),
        a < 25,
        b < 25,
    ensures
        pf_decrypt_pair(m, pf_encrypt_pair(m, a, b).0, pf_encrypt_pair(m, a, b).1) == (a, b),
{
    reveal(pf_encrypt_pair);
    reveal(pf_decrypt_pair);
    let pa = m.key_inv[a as int] as int;
    let pb = m.key_inv[b as int] as int;
    let da = pa / 5;
    let ra = pa % 5;
    let db = pb / 5;
    let rb = pb % 5;
    assert(0 <= pa < 25 && 0 <= pb < 25);
    assert(0 <= da < 5 && 0 <= ra < 5 && 0 <= db < 5 && 0 <= rb < 5) by (nonlinear_arith)
        requires
            0 <= pa < 25,
            0 <= pb < 25,
            da == pa / 5,
            ra == pa % 5,
            db == pb / 5,
            rb == pb % 5,
    ;
    if da == db {
        let qa = da * 5 + (ra + 1) % 5;
        let qb = db * 5 + (rb + 1) % 5;
        assert(0 <= qa < 25 && qa / 5 == da && qa % 5 == (ra + 1) % 5) by (nonlinear_arith)
            requires
                0 <= da < 5,
                0 <= (ra + 1) % 5 < 5,
                qa == da * 5 + (ra + 1) % 5,
        ;
        assert(0 <= qb < 25 && qb / 5 == db && qb % 5 == (rb + 1) % 5) by (nonlinear_arith)
            requires
                0 <= db < 5,
                0 <= (rb + 1) % 5 < 5,
                qb == db * 5 + (rb + 1) % 5,
        ;
        let x = m.key[qa];
        let y = m.key[qb];
        assert(m.key_inv[x as int] == qa && m.key_inv[y as int] == qb);
        assert(((ra + 1) % 5 + 4) % 5 == ra);
        assert(((rb + 1) % 5 + 4) % 5 == rb);
        assert(da * 5 + ra == pa && db * 5 + rb == pb) by (nonlinear_arith)
            requires
                da == pa / 5,
                ra == pa % 5,
                db == pb / 5,
                rb == pb % 5,
                0 <= pa < 25,
                0 <= pb < 25,
        ;
        assert(m.key[pa] == a && m.key[pb] == b);
    } else if ra == rb {
        let qa = ((da + 1) % 5) * 5 + ra;
        let qb = ((db + 1) % 5) * 5 + rb;
        assert(0 <= qa < 25 && qa / 5 == (da + 1) % 5 && qa % 5 == ra) by (nonlinear_arith)
            requires
                0 <= (da + 1) % 5 < 5,
                0 <= ra < 5,
                qa == ((da + 1) % 5) * 5 + ra,
        ;
        assert(0 <= qb < 25 && qb / 5 == (db + 1) % 5 && qb % 5 == rb) by (nonlinear_arith)
            requires
                0 <= (db + 1) % 5 < 5,
                0 <= rb < 5,
                qb == ((db + 1) % 5) * 5 + rb,
        ;
        let x = m.key[qa];
        let y = m.key[qb];
        assert(m.key_inv[x as int] == qa && m.key_inv[y as int] == qb);
        assert((da + 1) % 5 != (db + 1) % 5);
        assert(((da + 1) % 5 + 4) % 5 == da);
        assert(((db + 1) % 5 + 4) % 5 == db);
        assert(da * 5 + ra == pa && db * 5 + rb == pb) by (nonlinear_arith)
            requires
                da == pa / 5,
                ra == pa % 5,
                db == pb / 5,
                rb == pb % 5,
                0 <= pa < 25,
                0 <= pb < 25,
        ;
        assert(m.key[pa] == a && m.key[pb] == b);
    } else {
        let qa = da * 5 + rb;
        let qb = db * 5 + ra;
        assert(0 <= qa < 25 && qa / 5 == da && qa % 5 == rb) by (nonlinear_arith)
            requires
                0 <= da < 5,
                0 <= rb < 5,
                qa == da * 5 + rb,
        ;
        assert(0 <= qb < 25 && qb / 5 == db && qb % 5 == ra) by (nonlinear_arith)
            requires
                0 <= db < 5,
                0 <= ra < 5,
                qb == db * 5 + ra,
        ;
        let x = m.key[qa];
        let y = m.key[qb];
        assert(m.key_inv[x as int] == qa && m.key_inv[y as int] == qb);
        assert(da * 5 + ra == pa && db * 5 + rb == pb) by (nonlinear_arith)
            requires
                da == pa / 5,
                ra == pa % 5,
                db == pb / 5,
                rb == pb % 5,
                0 <= pa < 25,
                0 <= pb < 25,
        ;
        assert(m.key[pa] == a && m.key[pb] == b);
    }
}

} // verus!
