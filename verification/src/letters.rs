//! The letter alphabet shared by the classical ciphers: mapping ASCII letters
//! to residues 0..26, and the output formatting rule (a space after every
//! 5th output letter, a newline instead after every 60th).

use vstd::prelude::*;

verus! {

pub const A_UPPER: u8 = 65;

pub const Z_UPPER: u8 = 90;

pub const A_LOWER: u8 = 97;

pub const Z_LOWER: u8 = 122;

pub const SPACE: u8 = 32;

pub const NEWLINE: u8 = 10;

/// The alphabet size of the letter ciphers.
pub const MODULO: u8 = 26;

/// The residue 0..26 of an ASCII letter, upper or lower case; `None` for
/// every other byte.
pub open spec fn letter_index(b: u8) -> Option<u8> {
    if A_UPPER <= b <= Z_UPPER {
        Some((b - A_UPPER) as u8)
    } else if A_LOWER <= b <= Z_LOWER {
        Some((b - A_LOWER) as u8)
    } else {
        None
    }
}

pub open spec fn is_letter(b: u8) -> bool {
    letter_index(b) is Some
}

/// The uppercase letter of a residue below 26.
pub open spec fn letter_of(idx: u8) -> u8
    recommends
        idx < MODULO,
{
    (A_UPPER + idx) as u8
}

/// Maps a letter byte to its residue 0..26.
pub fn to_letter_index(b: u8) -> (r: Option<u8>)
    ensures
        r == letter_index(b),
{
    if A_UPPER <= b && b <= Z_UPPER {
        Some(b - A_UPPER)
    } else if A_LOWER <= b && b <= Z_LOWER {
        Some(b - A_LOWER)
    } else {
        None
    }
}

/// The separator owed before the output letter that follows `pos` letters:
/// a newline at every 60-letter boundary, a space at the other 5-letter
/// boundaries.
pub open spec fn separator_at(pos: nat) -> u8 {
    if (pos / 5) % 12 == 0 {
        NEWLINE
    } else {
        SPACE
    }
}

/// One output letter with its formatting: when `pos` letters have been
/// produced already and `pos` is a positive multiple of 5, a separator
/// precedes the letter.
pub open spec fn format_letter(pos: nat, letter: u8) -> Seq<u8> {
    if pos > 0 && pos % 5 == 0 {
        seq![separator_at(pos), letter]
    } else {
        seq![letter]
    }
}

/// A run of output letters with their formatting, the first standing at
/// output position `pos`.
pub open spec fn format_letters(pos: nat, letters: Seq<u8>) -> Seq<u8>
    decreases letters.len(),
{
    if letters.len() == 0 {
        Seq::empty()
    } else {
        format_letter(pos, letters[0]) + format_letters(pos + 1, letters.subrange(1, letters.len() as int))
    }
}

/// Appends one output letter to `out`, preceded by its separator where the
/// formatting rule asks for one.
pub fn push_formatted(out: &mut Vec<u8>, pos: usize, letter: u8)
    ensures
        final(out)@ == old(out)@ + format_letter(pos as nat, letter),
{
    if pos > 0 && pos % 5 == 0 {
        let sep: u8 = if (pos / 5) % 12 == 0 {
            NEWLINE
        } else {
            SPACE
        };
        out.push(sep);
        out.push(letter);
        assert(out@ =~= old(out)@ + format_letter(pos as nat, letter));
    } else {
        out.push(letter);
        assert(out@ =~= old(out)@ + format_letter(pos as nat, letter));
    }
}

/// Formatting a run extended by one letter appends that letter's formatted
/// bytes.
pub proof fn lemma_format_letters_snoc(pos: nat, letters: Seq<u8>, c: u8)
    ensures
        format_letters(pos, letters.push(c)) == format_letters(pos, letters) + format_letter(
            pos + letters.len(),
            c,
        ),
    decreases letters.len(),
{
    if letters.len() == 0 {
        assert(letters.push(c)[0] == c);
        assert(letters.push(c).subrange(1, 1) =~= Seq::<u8>::empty());
        assert(format_letters(pos + 1, Seq::<u8>::empty()) == Seq::<u8>::empty());
        assert(format_letters(pos, letters.push(c)) =~= format_letters(pos, letters)
            + format_letter(pos + letters.len(), c));
    } else {
        let t = letters.subrange(1, letters.len() as int);
        assert(letters.push(c)[0] == letters[0]);
        assert(letters.push(c).subrange(1, letters.push(c).len() as int) =~= t.push(c));
        lemma_format_letters_snoc(pos + 1, t, c);
        assert(format_letters(pos, letters.push(c)) =~= format_letters(pos, letters)
            + format_letter(pos + letters.len(), c));
    }
}

/// The letters of a byte sequence, everything else dropped: what is left of
/// a formatted output once the separators are stripped.
pub open spec fn strip_formatting(s: Seq<u8>) -> Seq<u8>
    decreases s.len(),
{
    if s.len() == 0 {
        Seq::empty()
    } else if is_letter(s[0]) {
        seq![s[0]] + strip_formatting(s.subrange(1, s.len() as int))
    } else {
        strip_formatting(s.subrange(1, s.len() as int))
    }
}

/// Stripping distributes over concatenation.
pub proof fn lemma_strip_append(a: Seq<u8>, b: Seq<u8>)
    ensures
        strip_formatting(a + b) == strip_formatting(a) + strip_formatting(b),
    decreases a.len(),
{
    if a.len() == 0 {
        assert(a + b =~= b);
        assert(strip_formatting(a) + strip_formatting(b) =~= strip_formatting(b));
    } else {
        let t = a.subrange(1, a.len() as int);
        assert((a + b).subrange(1, (a + b).len() as int) =~= t + b);
        lemma_strip_append(t, b);
        assert((a + b)[0] == a[0]);
        if is_letter(a[0]) {
            assert(strip_formatting(a + b) =~= strip_formatting(a) + strip_formatting(b));
        } else {
            assert(strip_formatting(a + b) =~= strip_formatting(a) + strip_formatting(b));
        }
    }
}

/// Formatting inserts only separators: stripping a formatted run of letters
/// gives the letters back.
pub proof fn lemma_strip_format_letters(pos: nat, letters: Seq<u8>)
    requires
        forall|i: int| 0 <= i < letters.len() ==> is_letter(#[trigger] letters[i]),
    ensures
        strip_formatting(format_letters(pos, letters)) == letters,
    decreases letters.len(),
{
    if letters.len() == 0 {
        assert(strip_formatting(format_letters(pos, letters)) =~= letters);
    } else {
        let rest = letters.subrange(1, letters.len() as int);
        lemma_strip_format_letters(pos + 1, rest);
        lemma_strip_append(format_letter(pos, letters[0]), format_letters(pos + 1, rest));
        lemma_strip_single(pos, letters[0]);
        assert(strip_formatting(format_letters(pos, letters)) =~= seq![letters[0]] + rest);
        assert(seq![letters[0]] + rest =~= letters);
    }
}

pub proof fn lemma_strip_single(pos: nat, letter: u8)
    requires
        is_letter(letter),
    ensures
        strip_formatting(format_letter(pos, letter)) == seq![letter],
{
    assert(!is_letter(SPACE));
    assert(!is_letter(NEWLINE));
    let one = seq![letter];
    assert(one.subrange(1, 1) =~= Seq::<u8>::empty());
    assert(strip_formatting(Seq::<u8>::empty()) =~= Seq::<u8>::empty());
    assert(strip_formatting(one) =~= seq![letter] + Seq::<u8>::empty());
    assert(strip_formatting(one) =~= seq![letter]);
    if pos > 0 && pos % 5 == 0 {
        let s = seq![separator_at(pos), letter];
        assert(s.subrange(1, 2) =~= one);
        assert(!is_letter(s[0]));
        assert(strip_formatting(s) == strip_formatting(one));
    }
}

/// The letter residues of a byte sequence in order, non-letters dropped:
/// how a key string becomes key material.
pub open spec fn letters_of(s: Seq<u8>) -> Seq<u8>
    decreases s.len(),
{
    if s.len() == 0 {
        Seq::empty()
    } else {
        let rest = letters_of(s.subrange(1, s.len() as int));
        match letter_index(s[0]) {
            Some(v) => seq![v] + rest,
            None => rest,
        }
    }
}

pub proof fn lemma_letters_of_append(a: Seq<u8>, b: Seq<u8>)
    ensures
        letters_of(a + b) == letters_of(a) + letters_of(b),
    decreases a.len(),
{
    if a.len() == 0 {
        assert(a + b =~= b);
        assert(letters_of(a) + letters_of(b) =~= letters_of(b));
    } else {
        let t = a.subrange(1, a.len() as int);
        assert((a + b)[0] == a[0]);
        assert((a + b).subrange(1, (a + b).len() as int) =~= t + b);
        lemma_letters_of_append(t, b);
        match letter_index(a[0]) {
            Some(v) => {
                assert(letters_of(a + b) =~= letters_of(a) + letters_of(b));
            },
            None => {
                assert(letters_of(a + b) =~= letters_of(a) + letters_of(b));
            },
        }
    }
}

/// Every residue a key string yields lies below 26.
pub proof fn lemma_letters_of_bounds(s: Seq<u8>)
    ensures
        forall|i: int| 0 <= i < letters_of(s).len() ==> letters_of(s)[i] < MODULO,
    decreases s.len(),
{
    if s.len() == 0 {
    } else {
        let t = s.subrange(1, s.len() as int);
        lemma_letters_of_bounds(t);
        match letter_index(s[0]) {
            Some(v) => {
                assert(v < MODULO);
                assert(letters_of(s) == seq![v] + letters_of(t));
                assert forall|i: int| 0 <= i < letters_of(s).len() implies letters_of(s)[i]
                    < MODULO by {
                    if i > 0 {
                        assert(letters_of(s)[i] == letters_of(t)[i - 1]);
                    } else {
                        assert(letters_of(s)[0] == v);
                    }
                }
            },
            None => {
                assert(letters_of(s) == letters_of(t));
                assert forall|i: int| 0 <= i < letters_of(s).len() implies letters_of(s)[i]
                    < MODULO by {
                    assert(letters_of(s)[i] == letters_of(t)[i]);
                }
            },
        }
    }
}

/// The case-folded uppercase letters of a letters-only byte sequence.
pub open spec fn canonical_letters(s: Seq<u8>) -> Seq<u8>
    decreases s.len(),
{
    if s.len() == 0 {
        Seq::empty()
    } else {
        let rest = canonical_letters(s.subrange(1, s.len() as int));
        match letter_index(s[0]) {
            Some(v) => seq![letter_of(v)] + rest,
            None => rest,
        }
    }
}

/// The residue of a letter byte, zero for anything else.
pub open spec fn letter_value(b: u8) -> u8 {
    match letter_index(b) {
        Some(v) => v,
        None => 0u8,
    }
}

/// Case folding distributes over concatenation.
pub proof fn lemma_canonical_append(a: Seq<u8>, b: Seq<u8>)
    ensures
        canonical_letters(a + b) == canonical_letters(a) + canonical_letters(b),
    decreases a.len(),
{
    if a.len() == 0 {
        assert(a + b =~= b);
        assert(canonical_letters(a) + canonical_letters(b) =~= canonical_letters(b));
    } else {
        let t = a.subrange(1, a.len() as int);
        assert((a + b)[0] == a[0]);
        assert((a + b).subrange(1, (a + b).len() as int) =~= t + b);
        lemma_canonical_append(t, b);
        match letter_index(a[0]) {
            Some(v) => {
                assert(canonical_letters(a + b) =~= canonical_letters(a) + canonical_letters(b));
            },
            None => {
                assert(canonical_letters(a + b) =~= canonical_letters(a) + canonical_letters(b));
            },
        }
    }
}

/// On a letters-only sequence, case folding keeps the length and maps each
/// letter to the uppercase letter of its residue.
pub proof fn lemma_canonical_letters_index(s: Seq<u8>)
    requires
        forall|i: int| 0 <= i < s.len() ==> is_letter(#[trigger] s[i]),
    ensures
        canonical_letters(s).len() == s.len(),
        forall|t: int|
            0 <= t < s.len() ==> canonical_letters(s)[t] == letter_of(letter_value(#[trigger] s[t])),
    decreases s.len(),
{
    if s.len() > 0 {
        let tail = s.subrange(1, s.len() as int);
        lemma_canonical_letters_index(tail);
        assert forall|t: int|
            0 <= t < s.len() implies canonical_letters(s)[t] == letter_of(
            letter_value(#[trigger] s[t]),
        ) by {
            if t > 0 {
                assert(canonical_letters(s)[t] == canonical_letters(tail)[t - 1]);
                assert(tail[t - 1] == s[t]);
            }
        }
    }
}

} // verus!
