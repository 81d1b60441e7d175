//! The streaming byte-transform contract every cipher implements, and the
//! combinators built generically on top of it.
//!
//! A cipher is fed one byte at a time through `encrypt_byte`/`decrypt_byte`
//! and flushed once through `encrypt_finish`/`decrypt_finish`. Each
//! implementation gives a mathematical model of both operations as spec
//! functions over its view: from one state and one input byte, either the
//! next state together with the bytes produced, or a failure. The executable
//! methods are proved to follow the model exactly, so two instances with
//! equal views are interchangeable.

use vstd::prelude::*;

verus! {

/// A failure while streaming: an input byte outside the cipher's alphabet,
/// an incomplete block at the end of the stream, or a counter at capacity.
#[derive(Clone, Copy, Debug, PartialEq, Eq, Structural)]
pub struct CipherError;

impl CipherError {
    pub fn new() -> (r: Self)
        ensures
            r == CipherError,
    {
        CipherError
    }
}

/// The most input bytes a single cipher instance accepts: the streaming
/// counters must not overflow, and Playfair's filler may advance its counter
/// by two for one byte.
pub const CAPACITY: usize = usize::MAX - 1;

/// The plaintext-to-ciphertext half of a streaming transform.
///
/// `enc_byte_m` and `enc_finish_m` are the model: from a state, either the
/// next state and the output bytes, or `None` for a failure. The executable
/// methods follow the model exactly on success; after a failure only
/// well-formedness of the state is promised, and any output of the failing
/// call is discarded.
pub trait Encryptor: View + Sized {
    /// The state invariant that `encrypt_byte` and `encrypt_finish` keep.
    spec fn enc_wf(m: Self::V) -> bool;

    /// What feeding one byte does: the next state and the bytes produced,
    /// or `None` when the byte is rejected.
    spec fn enc_byte_m(m: Self::V, byte: u8) -> Option<(Self::V, Seq<u8>)>;

    /// What flushing at the end of the stream does.
    spec fn enc_finish_m(m: Self::V) -> Option<(Self::V, Seq<u8>)>;

    /// Feeds exactly one input byte and returns the bytes produced so far
    /// by this call.
    fn encrypt_byte(&mut self, byte: u8) -> (r: Result<Vec<u8>, CipherError>)
        requires
            Self::enc_wf(old(self)@),
        ensures
            Self::enc_wf(final(self)@),
            (match r {
                Ok(out) => Self::enc_byte_m(old(self)@, byte) == Some((final(self)@, out@)),
                Err(_) => Self::enc_byte_m(old(self)@, byte) is None,
            }),
    ;

    /// Flushes trailing state after the last input byte.
    fn encrypt_finish(&mut self) -> (r: Result<Vec<u8>, CipherError>)
        requires
            Self::enc_wf(old(self)@),
        ensures
            Self::enc_wf(final(self)@),
            (match r {
                Ok(out) => Self::enc_finish_m(old(self)@) == Some((final(self)@, out@)),
                Err(_) => Self::enc_finish_m(old(self)@) is None,
            }),
    ;

    /// Feeds every output byte of `self` into `other`.
    fn chain<C: View>(self, other: C) -> (r: Chain<Self, C>)
        ensures
            r@ == (ChainView { first: self@, second: other@ }),
    {
        Chain { child_1: self, child_2: other }
    }

    /// Uses this encryptor as a decryptor.
    fn invert(self) -> (r: Invert<Self>)
        ensures
            r@ == self@,
    {
        Invert(self)
    }

    /// Applies a pure byte map to every input byte before it is fed in.
    fn map<F: Fn(u8) -> u8>(self, f: F) -> (r: MapCipher<Self, F>)
        ensures
            r@ == (MapCipherView { inner: self@, f }),
    {
        MapCipher { cipher: self, f }
    }

    /// Drops every input byte the predicate rejects.
    fn filter<F: Fn(u8) -> bool>(self, f: F) -> (r: Filter<Self, F>)
        ensures
            r@ == (FilterView { inner: self@, f }),
    {
        Filter { cipher: self, f }
    }

    /// Maps every input byte, dropping those mapped to `None`.
    fn filter_map<F: Fn(u8) -> Option<u8>>(self, f: F) -> (r: FilterMap<Self, F>)
        ensures
            r@ == (FilterMapView { inner: self@, f }),
    {
        FilterMap { cipher: self, f }
    }
}

/// The ciphertext-to-plaintext half of a streaming transform, the exact
/// dual of `Encryptor`.
pub trait Decryptor: View + Sized {
    /// The state invariant that `decrypt_byte` and `decrypt_finish` keep.
    spec fn dec_wf(m: Self::V) -> bool;

    /// What feeding one byte does: the next state and the bytes produced,
    /// or `None` when the byte is rejected.
    spec fn dec_byte_m(m: Self::V, byte: u8) -> Option<(Self::V, Seq<u8>)>;

    /// What flushing at the end of the stream does.
    spec fn dec_finish_m(m: Self::V) -> Option<(Self::V, Seq<u8>)>;

    /// Feeds exactly one input byte and returns the bytes produced so far
    /// by this call.
    fn decrypt_byte(&mut self, byte: u8) -> (r: Result<Vec<u8>, CipherError>)
        requires
            Self::dec_wf(old(self)@),
        ensures
            Self::dec_wf(final(self)@),
            (match r {
                Ok(out) => Self::dec_byte_m(old(self)@, byte) == Some((final(self)@, out@)),
                Err(_) => Self::dec_byte_m(old(self)@, byte) is None,
            }),
    ;

    /// Flushes trailing state after the last input byte.
    fn decrypt_finish(&mut self) -> (r: Result<Vec<u8>, CipherError>)
        requires
            Self::dec_wf(old(self)@),
        ensures
            Self::dec_wf(final(self)@),
            (match r {
                Ok(out) => Self::dec_finish_m(old(self)@) == Some((final(self)@, out@)),
                Err(_) => Self::dec_finish_m(old(self)@) is None,
            }),
    ;

    /// Feeds every output byte of `self` into `other`.
    fn chain<D: View>(self, other: D) -> (r: Chain<Self, D>)
        ensures
            r@ == (ChainView { first: self@, second: other@ }),
    {
        Chain { child_1: self, child_2: other }
    }

    /// Uses this decryptor as an encryptor.
    fn invert(self) -> (r: Invert<Self>)
        ensures
            r@ == self@,
    {
        Invert(self)
    }

    /// Applies a pure byte map to every input byte before it is fed in.
    fn map<F: Fn(u8) -> u8>(self, f: F) -> (r: MapCipher<Self, F>)
        ensures
            r@ == (MapCipherView { inner: self@, f }),
    {
        MapCipher { cipher: self, f }
    }

    /// Drops every input byte the predicate rejects.
    fn filter<F: Fn(u8) -> bool>(self, f: F) -> (r: Filter<Self, F>)
        ensures
            r@ == (FilterView { inner: self@, f }),
    {
        Filter { cipher: self, f }
    }

    /// Maps every input byte, dropping those mapped to `None`.
    fn filter_map<F: Fn(u8) -> Option<u8>>(self, f: F) -> (r: FilterMap<Self, F>)
        ensures
            r@ == (FilterMapView { inner: self@, f }),
    {
        FilterMap { cipher: self, f }
    }
}

/// Two transforms in sequence: every output byte of the first is fed into
/// the second.
pub struct Chain<C1, C2> {
    pub child_1: C1,
    pub child_2: C2,
}

pub struct ChainView<V1, V2> {
    pub first: V1,
    pub second: V2,
}

impl<C1: View, C2: View> View for Chain<C1, C2> {
    type V = ChainView<C1::V, C2::V>;

    open spec fn view(&self) -> Self::V {
        ChainView { first: self.child_1@, second: self.child_2@ }
    }
}

/// A transform with the two directions swapped: an `Encryptor` built from a
/// `Decryptor`, and the other way round.
pub struct Invert<T>(pub T);

impl<T: View> View for Invert<T> {
    type V = T::V;

    open spec fn view(&self) -> Self::V {
        self.0@
    }
}

/// A transform that applies a pure byte map to every input byte before
/// forwarding it.
pub struct MapCipher<C, F> {
    pub cipher: C,
    pub f: F,
}

pub struct MapCipherView<V0, F> {
    pub inner: V0,
    pub f: F,
}

impl<C: View, F> View for MapCipher<C, F> {
    type V = MapCipherView<C::V, F>;

    open spec fn view(&self) -> Self::V {
        MapCipherView { inner: self.cipher@, f: self.f }
    }
}

/// A transform that forwards only the input bytes a predicate accepts and
/// silently drops the rest.
pub struct Filter<C, F> {
    pub cipher: C,
    pub f: F,
}

pub struct FilterView<V0, F> {
    pub inner: V0,
    pub f: F,
}

impl<C: View, F> View for Filter<C, F> {
    type V = FilterView<C::V, F>;

    open spec fn view(&self) -> Self::V {
        FilterView { inner: self.cipher@, f: self.f }
    }
}

/// A transform that maps every input byte and drops those mapped to `None`.
pub struct FilterMap<C, F> {
    pub cipher: C,
    pub f: F,
}

pub struct FilterMapView<V0, F> {
    pub inner: V0,
    pub f: F,
}

impl<C: View, F> View for FilterMap<C, F> {
    type V = FilterMapView<C::V, F>;

    open spec fn view(&self) -> Self::V {
        FilterMapView { inner: self.cipher@, f: self.f }
    }
}

/// A whole run of `enc_byte_m` over a byte sequence: the final state and
/// the concatenated output, or the first failure.
pub open spec fn enc_run<C: Encryptor>(m: C::V, bytes: Seq<u8>) -> Option<(C::V, Seq<u8>)>
    decreases bytes.len(),
{
    if bytes.len() == 0 {
        Some((m, Seq::empty()))
    } else {
        match C::enc_byte_m(m, bytes[0]) {
            None => None,
            Some((m2, out)) => match enc_run::<C>(m2, bytes.subrange(1, bytes.len() as int)) {
                None => None,
                Some((m3, rest)) => Some((m3, out + rest)),
            },
        }
    }
}

/// A whole encryption session: every byte fed in order, then the flush.
pub open spec fn enc_complete<C: Encryptor>(m: C::V, bytes: Seq<u8>) -> Option<(C::V, Seq<u8>)> {
    match enc_run::<C>(m, bytes) {
        None => None,
        Some((m2, out)) => match C::enc_finish_m(m2) {
            None => None,
            Some((m3, tail)) => Some((m3, out + tail)),
        },
    }
}

/// A whole run of `dec_byte_m` over a byte sequence.
pub open spec fn dec_run<D: Decryptor>(m: D::V, bytes: Seq<u8>) -> Option<(D::V, Seq<u8>)>
    decreases bytes.len(),
{
    if bytes.len() == 0 {
        Some((m, Seq::empty()))
    } else {
        match D::dec_byte_m(m, bytes[0]) {
            None => None,
            Some((m2, out)) => match dec_run::<D>(m2, bytes.subrange(1, bytes.len() as int)) {
                None => None,
                Some((m3, rest)) => Some((m3, out + rest)),
            },
        }
    }
}

/// A whole decryption session: every byte fed in order, then the flush.
pub open spec fn dec_complete<D: Decryptor>(m: D::V, bytes: Seq<u8>) -> Option<(D::V, Seq<u8>)> {
    match dec_run::<D>(m, bytes) {
        None => None,
        Some((m2, out)) => match D::dec_finish_m(m2) {
            None => None,
            Some((m3, tail)) => Some((m3, out + tail)),
        },
    }
}

/// Running over a concatenation is running over the parts in order.
pub proof fn lemma_enc_run_append<C: Encryptor>(m: C::V, a: Seq<u8>, b: Seq<u8>)
    ensures
        enc_run::<C>(m, a + b) == (match enc_run::<C>(m, a) {
            None => None::<(C::V, Seq<u8>)>,
            Some((m2, out)) => match enc_run::<C>(m2, b) {
                None => None,
                Some((m3, rest)) => Some((m3, out + rest)),
            },
        }),
    decreases a.len(),
{
    if a.len() == 0 {
        assert(a + b =~= b);
        match enc_run::<C>(m, b) {
            None => {},
            Some((m3, rest)) => {
                assert(Seq::<u8>::empty() + rest =~= rest);
            },
        }
    } else {
        let t = a.subrange(1, a.len() as int);
        assert((a + b)[0] == a[0]);
        assert((a + b).subrange(1, (a + b).len() as int) =~= t + b);
        match C::enc_byte_m(m, a[0]) {
            None => {},
            Some((m2, out)) => {
                lemma_enc_run_append::<C>(m2, t, b);
                match enc_run::<C>(m2, t) {
                    None => {},
                    Some((m3, rest)) => {
                        match enc_run::<C>(m3, b) {
                            None => {},
                            Some((m4, rest2)) => {
                                assert(out + (rest + rest2) =~= (out + rest) + rest2);
                            },
                        }
                    },
                }
            },
        }
    }
}

/// Running over a concatenation is running over the parts in order.
pub proof fn lemma_dec_run_append<D: Decryptor>(m: D::V, a: Seq<u8>, b: Seq<u8>)
    ensures
        dec_run::<D>(m, a + b) == (match dec_run::<D>(m, a) {
            None => None::<(D::V, Seq<u8>)>,
            Some((m2, out)) => match dec_run::<D>(m2, b) {
                None => None,
                Some((m3, rest)) => Some((m3, out + rest)),
            },
        }),
    decreases a.len(),
{
    if a.len() == 0 {
        assert(a + b =~= b);
        match dec_run::<D>(m, b) {
            None => {},
            Some((m3, rest)) => {
                assert(Seq::<u8>::empty() + rest =~= rest);
            },
        }
    } else {
        let t = a.subrange(1, a.len() as int);
        assert((a + b)[0] == a[0]);
        assert((a + b).subrange(1, (a + b).len() as int) =~= t + b);
        match D::dec_byte_m(m, a[0]) {
            None => {},
            Some((m2, out)) => {
                lemma_dec_run_append::<D>(m2, t, b);
                match dec_run::<D>(m2, t) {
                    None => {},
                    Some((m3, rest)) => {
                        match dec_run::<D>(m3, b) {
                            None => {},
                            Some((m4, rest2)) => {
                                assert(out + (rest + rest2) =~= (out + rest) + rest2);
                            },
                        }
                    },
                }
            },
        }
    }
}

/// Two fresh instances with the same state produce the same outputs for the
/// same inputs: every step of the model is a function of the state and the
/// input byte, and each cipher's constructor pins the starting state as a
/// function of the key alone.
pub proof fn lemma_encryptor_deterministic<C: Encryptor>(m1: C::V, m2: C::V, bytes: Seq<u8>)
    requires
        m1 == m2,
    ensures
        enc_complete::<C>(m1, bytes) == enc_complete::<C>(m2, bytes),
{
}

/// The decryption half of determinism, stated the same way.
pub proof fn lemma_decryptor_deterministic<D: Decryptor>(m1: D::V, m2: D::V, bytes: Seq<u8>)
    requires
        m1 == m2,
    ensures
        dec_complete::<D>(m1, bytes) == dec_complete::<D>(m2, bytes),
{
}

/// Feeds every byte of `input` into the cipher in order, concatenating
/// what comes out; does not flush.
pub fn feed_encrypt<C: Encryptor>(cipher: &mut C, input: &Vec<u8>) -> (r: Result<
    Vec<u8>,
    CipherError,
>)
    requires
        C::enc_wf(old(cipher)@),
    ensures
        C::enc_wf(final(cipher)@),
        (match r {
            Ok(out) => enc_run::<C>(old(cipher)@, input@) == Some((final(cipher)@, out@)),
            Err(_) => enc_run::<C>(old(cipher)@, input@) is None,
        }),
{
    let ghost m0 = cipher@;
    let mut out: Vec<u8> = Vec::new();
    let mut i: usize = 0;
    while i < input.len()
        invariant
            m0 == old(cipher)@,
            C::enc_wf(cipher@),
            i <= input.len(),
            enc_run::<C>(m0, input@.subrange(0, i as int)) == Some((cipher@, out@)),
        decreases input.len() - i,
    {
        let ghost pre = cipher@;
        let ghost done = input@.subrange(0, i as int);
        let b = input[i];
        match cipher.encrypt_byte(b) {
            Ok(v) => {
                let ghost vo = v@;
                let ghost prefix = out@;
                let mut v = v;
                out.append(&mut v);
                proof {
                    lemma_enc_run_append::<C>(m0, done, seq![b]);
                    assert(seq![b][0] == b);
                    assert(seq![b].subrange(1, 1) =~= Seq::<u8>::empty());
                    assert(enc_run::<C>(cipher@, Seq::<u8>::empty()) == Some(
                        (cipher@, Seq::<u8>::empty()),
                    ));
                    assert(enc_run::<C>(pre, seq![b]) == Some((cipher@, vo + Seq::<u8>::empty())));
                    assert(prefix + (vo + Seq::<u8>::empty()) =~= out@);
                    assert(done + seq![b] =~= input@.subrange(0, i + 1));
                }
            },
            Err(e) => {
                proof {
                    let suffix = input@.subrange(i as int, input@.len() as int);
                    lemma_enc_run_append::<C>(m0, done, suffix);
                    assert(done + suffix =~= input@);
                    assert(suffix[0] == b);
                    assert(enc_run::<C>(pre, suffix) is None);
                    assert(enc_run::<C>(m0, input@) is None);
                }
                return Err(e);
            },
        }
        i = i + 1;
    }
    assert(input@.subrange(0, input@.len() as int) =~= input@);
    Ok(out)
}

/// Encrypts a whole message: feeds every byte of `input` in order, then
/// flushes, and concatenates everything produced. Fails with the first
/// failure of the cipher, discarding any partial output.
pub fn encrypt_all<C: Encryptor>(cipher: &mut C, input: &Vec<u8>) -> (r: Result<
    Vec<u8>,
    CipherError,
>)
    requires
        C::enc_wf(old(cipher)@),
    ensures
        C::enc_wf(final(cipher)@),
        (match r {
            Ok(out) => enc_complete::<C>(old(cipher)@, input@) == Some((final(cipher)@, out@)),
            Err(_) => enc_complete::<C>(old(cipher)@, input@) is None,
        }),
{
    let mut out = (match feed_encrypt(cipher, input) {
        Ok(v) => v,
        Err(e) => {
            return Err(e);
        },
    });
    match cipher.encrypt_finish() {
        Ok(v) => {
            let mut v = v;
            out.append(&mut v);
            Ok(out)
        },
        Err(e) => Err(e),
    }
}

/// Feeds every byte of `input` into the cipher in order, concatenating
/// what comes out; does not flush.
pub fn feed_decrypt<D: Decryptor>(cipher: &mut D, input: &Vec<u8>) -> (r: Result<
    Vec<u8>,
    CipherError,
>)
    requires
        D::dec_wf(old(cipher)@),
    ensures
        D::dec_wf(final(cipher)@),
        (match r {
            Ok(out) => dec_run::<D>(old(cipher)@, input@) == Some((final(cipher)@, out@)),
            Err(_) => dec_run::<D>(old(cipher)@, input@) is None,
        }),
{
    let ghost m0 = cipher@;
    let mut out: Vec<u8> = Vec::new();
    let mut i: usize = 0;
    while i < input.len()
        invariant
            m0 == old(cipher)@,
            D::dec_wf(cipher@),
            i <= input.len(),
            dec_run::<D>(m0, input@.subrange(0, i as int)) == Some((cipher@, out@)),
        decreases input.len() - i,
    {
        let ghost pre = cipher@;
        let ghost done = input@.subrange(0, i as int);
        let b = input[i];
        match cipher.decrypt_byte(b) {
            Ok(v) => {
                let ghost vo = v@;
                let ghost prefix = out@;
                let mut v = v;
                out.append(&mut v);
                proof {
                    lemma_dec_run_append::<D>(m0, done, seq![b]);
                    assert(seq![b][0] == b);
                    assert(seq![b].subrange(1, 1) =~= Seq::<u8>::empty());
                    assert(dec_run::<D>(cipher@, Seq::<u8>::empty()) == Some(
                        (cipher@, Seq::<u8>::empty()),
                    ));
                    assert(dec_run::<D>(pre, seq![b]) == Some((cipher@, vo + Seq::<u8>::empty())));
                    assert(prefix + (vo + Seq::<u8>::empty()) =~= out@);
                    assert(done + seq![b] =~= input@.subrange(0, i + 1));
                }
            },
            Err(e) => {
                proof {
                    let suffix = input@.subrange(i as int, input@.len() as int);
                    lemma_dec_run_append::<D>(m0, done, suffix);
                    assert(done + suffix =~= input@);
                    assert(suffix[0] == b);
                    assert(dec_run::<D>(pre, suffix) is None);
                    assert(dec_run::<D>(m0, input@) is None);
                }
                return Err(e);
            },
        }
        i = i + 1;
    }
    assert(input@.subrange(0, input@.len() as int) =~= input@);
    Ok(out)
}

/// Decrypts a whole message: the dual of `encrypt_all`.
pub fn decrypt_all<D: Decryptor>(cipher: &mut D, input: &Vec<u8>) -> (r: Result<
    Vec<u8>,
    CipherError,
>)
    requires
        D::dec_wf(old(cipher)@),
    ensures
        D::dec_wf(final(cipher)@),
        (match r {
            Ok(out) => dec_complete::<D>(old(cipher)@, input@) == Some((final(cipher)@, out@)),
            Err(_) => dec_complete::<D>(old(cipher)@, input@) is None,
        }),
{
    let mut out = (match feed_decrypt(cipher, input) {
        Ok(v) => v,
        Err(e) => {
            return Err(e);
        },
    });
    match cipher.decrypt_finish() {
        Ok(v) => {
            let mut v = v;
            out.append(&mut v);
            Ok(out)
        },
        Err(e) => Err(e),
    }
}

/// The chained transform fails exactly where one of its stages fails, and
/// otherwise relays the first stage's output through the second.
impl<C1: Encryptor, C2: Encryptor> Encryptor for Chain<C1, C2> {
    open spec fn enc_wf(m: ChainView<C1::V, C2::V>) -> bool {
        C1::enc_wf(m.first) && C2::enc_wf(m.second)
    }

    open spec fn enc_byte_m(m: ChainView<C1::V, C2::V>, byte: u8) -> Option<
        (ChainView<C1::V, C2::V>, Seq<u8>),
    > {
        match C1::enc_byte_m(m.first, byte) {
            None => None,
            Some((f2, mid)) => match enc_run::<C2>(m.second, mid) {
                None => None,
                Some((s2, out)) => Some((ChainView { first: f2, second: s2 }, out)),
            },
        }
    }

    open spec fn enc_finish_m(m: ChainView<C1::V, C2::V>) -> Option<
        (ChainView<C1::V, C2::V>, Seq<u8>),
    > {
        match C1::enc_finish_m(m.first) {
            None => None,
            Some((f2, mid)) => match enc_run::<C2>(m.second, mid) {
                None => None,
                Some((s2, relayed)) => match C2::enc_finish_m(s2) {
                    None => None,
                    Some((s3, tail)) => Some(
                        (ChainView { first: f2, second: s3 }, relayed + tail),
                    ),
                },
            },
        }
    }

    fn encrypt_byte(&mut self, byte: u8) -> (r: Result<Vec<u8>, CipherError>) {
        let mid = (match self.child_1.encrypt_byte(byte) {
            Ok(v) => v,
            Err(e) => {
                return Err(e);
            },
        });
        feed_encrypt(&mut self.child_2, &mid)
    }

    fn encrypt_finish(&mut self) -> (r: Result<Vec<u8>, CipherError>) {
        let mid = (match self.child_1.encrypt_finish() {
            Ok(v) => v,
            Err(e) => {
                return Err(e);
            },
        });
        let mut relayed = (match feed_encrypt(&mut self.child_2, &mid) {
            Ok(v) => v,
            Err(e) => {
                return Err(e);
            },
        });
        match self.child_2.encrypt_finish() {
            Ok(v) => {
                let mut v = v;
                relayed.append(&mut v);
                Ok(relayed)
            },
            Err(e) => Err(e),
        }
    }
}

/// The decryption half of `Chain`, identical in structure.
impl<C1: Decryptor, C2: Decryptor> Decryptor for Chain<C1, C2> {
    open spec fn dec_wf(m: ChainView<C1::V, C2::V>) -> bool {
        C1::dec_wf(m.first) && C2::dec_wf(m.second)
    }

    open spec fn dec_byte_m(m: ChainView<C1::V, C2::V>, byte: u8) -> Option<
        (ChainView<C1::V, C2::V>, Seq<u8>),
    > {
        match C1::dec_byte_m(m.first, byte) {
            None => None,
            Some((f2, mid)) => match dec_run::<C2>(m.second, mid) {
                None => None,
                Some((s2, out)) => Some((ChainView { first: f2, second: s2 }, out)),
            },
        }
    }

    open spec fn dec_finish_m(m: ChainView<C1::V, C2::V>) -> Option<
        (ChainView<C1::V, C2::V>, Seq<u8>),
    > {
        match C1::dec_finish_m(m.first) {
            None => None,
            Some((f2, mid)) => match dec_run::<C2>(m.second, mid) {
                None => None,
                Some((s2, relayed)) => match C2::dec_finish_m(s2) {
                    None => None,
                    Some((s3, tail)) => Some(
                        (ChainView { first: f2, second: s3 }, relayed + tail),
                    ),
                },
            },
        }
    }

    fn decrypt_byte(&mut self, byte: u8) -> (r: Result<Vec<u8>, CipherError>) {
        let mid = (match self.child_1.decrypt_byte(byte) {
            Ok(v) => v,
            Err(e) => {
                return Err(e);
            },
        });
        feed_decrypt(&mut self.child_2, &mid)
    }

    fn decrypt_finish(&mut self) -> (r: Result<Vec<u8>, CipherError>) {
        let mid = (match self.child_1.decrypt_finish() {
            Ok(v) => v,
            Err(e) => {
                return Err(e);
            },
        });
        let mut relayed = (match feed_decrypt(&mut self.child_2, &mid) {
            Ok(v) => v,
            Err(e) => {
                return Err(e);
            },
        });
        match self.child_2.decrypt_finish() {
            Ok(v) => {
                let mut v = v;
                relayed.append(&mut v);
                Ok(relayed)
            },
            Err(e) => Err(e),
        }
    }
}

/// An inverted decryptor encrypts by running the wrapped decryption.
impl<T: Decryptor> Encryptor for Invert<T> {
    open spec fn enc_wf(m: T::V) -> bool {
        T::dec_wf(m)
    }

    open spec fn enc_byte_m(m: T::V, byte: u8) -> Option<(T::V, Seq<u8>)> {
        T::dec_byte_m(m, byte)
    }

    open spec fn enc_finish_m(m: T::V) -> Option<(T::V, Seq<u8>)> {
        T::dec_finish_m(m)
    }

    fn encrypt_byte(&mut self, byte: u8) -> (r: Result<Vec<u8>, CipherError>) {
        self.0.decrypt_byte(byte)
    }

    fn encrypt_finish(&mut self) -> (r: Result<Vec<u8>, CipherError>) {
        self.0.decrypt_finish()
    }
}

/// An inverted encryptor decrypts by running the wrapped encryption.
impl<T: Encryptor> Decryptor for Invert<T> {
    open spec fn dec_wf(m: T::V) -> bool {
        T::enc_wf(m)
    }

    open spec fn dec_byte_m(m: T::V, byte: u8) -> Option<(T::V, Seq<u8>)> {
        T::enc_byte_m(m, byte)
    }

    open spec fn dec_finish_m(m: T::V) -> Option<(T::V, Seq<u8>)> {
        T::enc_finish_m(m)
    }

    fn decrypt_byte(&mut self, byte: u8) -> (r: Result<Vec<u8>, CipherError>) {
        self.0.encrypt_byte(byte)
    }

    fn decrypt_finish(&mut self) -> (r: Result<Vec<u8>, CipherError>) {
        self.0.encrypt_finish()
    }
}

/// Every byte is accepted by the function.
pub open spec fn fn_total<F, R>(f: F) -> bool where F: Fn(u8) -> R {
    forall|b: u8| #[trigger] f.requires((b,))
}

/// The function relates every byte to at most one result: it is pure.
pub open spec fn fn_deterministic<F, R>(f: F) -> bool where F: Fn(u8) -> R {
    forall|b: u8, y1: R, y2: R|
        #[trigger] f.ensures((b,), y1) && #[trigger] f.ensures((b,), y2) ==> y1 == y2
}

/// A pure total byte function: what the mapping and filtering combinators
/// require of the functions handed to them.
pub open spec fn fn_pure<F, R>(f: F) -> bool where F: Fn(u8) -> R {
    fn_total::<F, R>(f) && fn_deterministic::<F, R>(f)
}

/// The one result a pure function gives for a byte.
pub open spec fn fn_value<F, R>(f: F, b: u8) -> R where F: Fn(u8) -> R {
    choose|y: R| f.ensures((b,), y)
}

impl<C: Encryptor, F: Fn(u8) -> u8> Encryptor for MapCipher<C, F> {
    open spec fn enc_wf(m: MapCipherView<C::V, F>) -> bool {
        C::enc_wf(m.inner) && fn_pure::<F, u8>(m.f)
    }

    open spec fn enc_byte_m(m: MapCipherView<C::V, F>, byte: u8) -> Option<
        (MapCipherView<C::V, F>, Seq<u8>),
    > {
        match C::enc_byte_m(m.inner, fn_value::<F, u8>(m.f, byte)) {
            None => None,
            Some((i2, out)) => Some((MapCipherView { inner: i2, f: m.f }, out)),
        }
    }

    open spec fn enc_finish_m(m: MapCipherView<C::V, F>) -> Option<
        (MapCipherView<C::V, F>, Seq<u8>),
    > {
        match C::enc_finish_m(m.inner) {
            None => None,
            Some((i2, out)) => Some((MapCipherView { inner: i2, f: m.f }, out)),
        }
    }

    fn encrypt_byte(&mut self, byte: u8) -> (r: Result<Vec<u8>, CipherError>) {
        let b2 = (self.f)(byte);
        proof {
            assert(call_ensures(self.f, (byte,), b2));
            assert(self.f.ensures((byte,), fn_value::<F, u8>(self.f, byte)));
            assert(b2 == fn_value::<F, u8>(self.f, byte));
        }
        self.cipher.encrypt_byte(b2)
    }

    fn encrypt_finish(&mut self) -> (r: Result<Vec<u8>, CipherError>) {
        self.cipher.encrypt_finish()
    }
}

impl<C: Decryptor, F: Fn(u8) -> u8> Decryptor for MapCipher<C, F> {
    open spec fn dec_wf(m: MapCipherView<C::V, F>) -> bool {
        C::dec_wf(m.inner) && fn_pure::<F, u8>(m.f)
    }

    open spec fn dec_byte_m(m: MapCipherView<C::V, F>, byte: u8) -> Option<
        (MapCipherView<C::V, F>, Seq<u8>),
    > {
        match C::dec_byte_m(m.inner, fn_value::<F, u8>(m.f, byte)) {
            None => None,
            Some((i2, out)) => Some((MapCipherView { inner: i2, f: m.f }, out)),
        }
    }

    open spec fn dec_finish_m(m: MapCipherView<C::V, F>) -> Option<
        (MapCipherView<C::V, F>, Seq<u8>),
    > {
        match C::dec_finish_m(m.inner) {
            None => None,
            Some((i2, out)) => Some((MapCipherView { inner: i2, f: m.f }, out)),
        }
    }

    fn decrypt_byte(&mut self, byte: u8) -> (r: Result<Vec<u8>, CipherError>) {
        let b2 = (self.f)(byte);
        proof {
            assert(call_ensures(self.f, (byte,), b2));
            assert(self.f.ensures((byte,), fn_value::<F, u8>(self.f, byte)));
            assert(b2 == fn_value::<F, u8>(self.f, byte));
        }
        self.cipher.decrypt_byte(b2)
    }

    fn decrypt_finish(&mut self) -> (r: Result<Vec<u8>, CipherError>) {
        self.cipher.decrypt_finish()
    }
}

impl<C: Encryptor, F: Fn(u8) -> bool> Encryptor for Filter<C, F> {
    open spec fn enc_wf(m: FilterView<C::V, F>) -> bool {
        C::enc_wf(m.inner) && fn_pure::<F, bool>(m.f)
    }

    open spec fn enc_byte_m(m: FilterView<C::V, F>, byte: u8) -> Option<
        (FilterView<C::V, F>, Seq<u8>),
    > {
        if fn_value::<F, bool>(m.f, byte) {
            match C::enc_byte_m(m.inner, byte) {
                None => None,
                Some((i2, out)) => Some((FilterView { inner: i2, f: m.f }, out)),
            }
        } else {
            Some((m, Seq::empty()))
        }
    }

    open spec fn enc_finish_m(m: FilterView<C::V, F>) -> Option<(FilterView<C::V, F>, Seq<u8>)> {
        match C::enc_finish_m(m.inner) {
            None => None,
            Some((i2, out)) => Some((FilterView { inner: i2, f: m.f }, out)),
        }
    }

    fn encrypt_byte(&mut self, byte: u8) -> (r: Result<Vec<u8>, CipherError>) {
        let keep = (self.f)(byte);
        proof {
            assert(call_ensures(self.f, (byte,), keep));
            assert(self.f.ensures((byte,), fn_value::<F, bool>(self.f, byte)));
            assert(keep == fn_value::<F, bool>(self.f, byte));
        }
        if keep {
            self.cipher.encrypt_byte(byte)
        } else {
            let out: Vec<u8> = Vec::new();
            proof {
                assert(out@ =~= Seq::<u8>::empty());
            }
            Ok(out)
        }
    }

    fn encrypt_finish(&mut self) -> (r: Result<Vec<u8>, CipherError>) {
        self.cipher.encrypt_finish()
    }
}

impl<C: Decryptor, F: Fn(u8) -> bool> Decryptor for Filter<C, F> {
    open spec fn dec_wf(m: FilterView<C::V, F>) -> bool {
        C::dec_wf(m.inner) && fn_pure::<F, bool>(m.f)
    }

    open spec fn dec_byte_m(m: FilterView<C::V, F>, byte: u8) -> Option<
        (FilterView<C::V, F>, Seq<u8>),
    > {
        if fn_value::<F, bool>(m.f, byte) {
            match C::dec_byte_m(m.inner, byte) {
                None => None,
                Some((i2, out)) => Some((FilterView { inner: i2, f: m.f }, out)),
            }
        } else {
            Some((m, Seq::empty()))
        }
    }

    open spec fn dec_finish_m(m: FilterView<C::V, F>) -> Option<(FilterView<C::V, F>, Seq<u8>)> {
        match C::dec_finish_m(m.inner) {
            None => None,
            Some((i2, out)) => Some((FilterView { inner: i2, f: m.f }, out)),
        }
    }

    fn decrypt_byte(&mut self, byte: u8) -> (r: Result<Vec<u8>, CipherError>) {
        let keep = (self.f)(byte);
        proof {
            assert(call_ensures(self.f, (byte,), keep));
            assert(self.f.ensures((byte,), fn_value::<F, bool>(self.f, byte)));
            assert(keep == fn_value::<F, bool>(self.f, byte));
        }
        if keep {
            self.cipher.decrypt_byte(byte)
        } else {
            let out: Vec<u8> = Vec::new();
            proof {
                assert(out@ =~= Seq::<u8>::empty());
            }
            Ok(out)
        }
    }

    fn decrypt_finish(&mut self) -> (r: Result<Vec<u8>, CipherError>) {
        self.cipher.decrypt_finish()
    }
}

impl<C: Encryptor, F: Fn(u8) -> Option<u8>> Encryptor for FilterMap<C, F> {
    open spec fn enc_wf(m: FilterMapView<C::V, F>) -> bool {
        C::enc_wf(m.inner) && fn_pure::<F, Option<u8>>(m.f)
    }

    open spec fn enc_byte_m(m: FilterMapView<C::V, F>, byte: u8) -> Option<
        (FilterMapView<C::V, F>, Seq<u8>),
    > {
        match fn_value::<F, Option<u8>>(m.f, byte) {
            Some(b2) => match C::enc_byte_m(m.inner, b2) {
                None => None,
                Some((i2, out)) => Some((FilterMapView { inner: i2, f: m.f }, out)),
            },
            None => Some((m, Seq::empty())),
        }
    }

    open spec fn enc_finish_m(m: FilterMapView<C::V, F>) -> Option<
        (FilterMapView<C::V, F>, Seq<u8>),
    > {
        match C::enc_finish_m(m.inner) {
            None => None,
            Some((i2, out)) => Some((FilterMapView { inner: i2, f: m.f }, out)),
        }
    }

    fn encrypt_byte(&mut self, byte: u8) -> (r: Result<Vec<u8>, CipherError>) {
        let mapped = (self.f)(byte);
        proof {
            assert(call_ensures(self.f, (byte,), mapped));
            assert(self.f.ensures((byte,), fn_value::<F, Option<u8>>(self.f, byte)));
            assert(mapped == fn_value::<F, Option<u8>>(self.f, byte));
        }
        match mapped {
            Some(b2) => self.cipher.encrypt_byte(b2),
            None => {
                let out: Vec<u8> = Vec::new();
                proof {
                    assert(out@ =~= Seq::<u8>::empty());
                }
                Ok(out)
            },
        }
    }

    fn encrypt_finish(&mut self) -> (r: Result<Vec<u8>, CipherError>) {
        self.cipher.encrypt_finish()
    }
}

impl<C: Decryptor, F: Fn(u8) -> Option<u8>> Decryptor for FilterMap<C, F> {
    open spec fn dec_wf(m: FilterMapView<C::V, F>) -> bool {
        C::dec_wf(m.inner) && fn_pure::<F, Option<u8>>(m.f)
    }

    open spec fn dec_byte_m(m: FilterMapView<C::V, F>, byte: u8) -> Option<
        (FilterMapView<C::V, F>, Seq<u8>),
    > {
        match fn_value::<F, Option<u8>>(m.f, byte) {
            Some(b2) => match C::dec_byte_m(m.inner, b2) {
                None => None,
                Some((i2, out)) => Some((FilterMapView { inner: i2, f: m.f }, out)),
            },
            None => Some((m, Seq::empty())),
        }
    }

    open spec fn dec_finish_m(m: FilterMapView<C::V, F>) -> Option<
        (FilterMapView<C::V, F>, Seq<u8>),
    > {
        match C::dec_finish_m(m.inner) {
            None => None,
            Some((i2, out)) => Some((FilterMapView { inner: i2, f: m.f }, out)),
        }
    }

    fn decrypt_byte(&mut self, byte: u8) -> (r: Result<Vec<u8>, CipherError>) {
        let mapped = (self.f)(byte);
        proof {
            assert(call_ensures(self.f, (byte,), mapped));
            assert(self.f.ensures((byte,), fn_value::<F, Option<u8>>(self.f, byte)));
            assert(mapped == fn_value::<F, Option<u8>>(self.f, byte));
        }
        match mapped {
            Some(b2) => self.cipher.decrypt_byte(b2),
            None => {
                let out: Vec<u8> = Vec::new();
                proof {
                    assert(out@ =~= Seq::<u8>::empty());
                }
                Ok(out)
            },
        }
    }

    fn decrypt_finish(&mut self) -> (r: Result<Vec<u8>, CipherError>) {
        self.cipher.decrypt_finish()
    }
}

} // verus!
