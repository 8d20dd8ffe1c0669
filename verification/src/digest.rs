//! Content digests: a byte stream is absorbed piece by piece and finished
//! into a lower-case hexadecimal fingerprint.

use sha2::Digest;
use vstd::prelude::*;

verus! {

/// The digest algorithm of a run.
#[derive(Clone, Copy, Debug, PartialEq, Eq, Structural)]
pub enum Algorithm {
    /// Fast, with a real risk of collisions.
    Md5,
    /// Cryptographic.
    Sha256,
}

/// A running MD5 computation: an `md5::Md5` of the `md-5` crate. Proofs see
/// nothing inside it; what they know of it is `md5_absorbed`.
#[verifier::external_body]
pub struct Md5State {
    inner: md5::Md5,
}

/// A running SHA-256 computation: a `sha2::Sha256`. Proofs see nothing
/// inside it; what they know of it is `sha256_absorbed`.
#[verifier::external_body]
pub struct Sha256State {
    inner: sha2::Sha256,
}

/// The bytes that a running MD5 computation has been fed, in order.
pub uninterp spec fn md5_absorbed(state: Md5State) -> Seq<u8>;

/// The bytes that a running SHA-256 computation has been fed, in order.
pub uninterp spec fn sha256_absorbed(state: Sha256State) -> Seq<u8>;

/// The MD5 digest of a byte string, as `md5::Md5` computes it.
pub uninterp spec fn md5_digest(data: Seq<u8>) -> Seq<u8>;

/// The SHA-256 digest of a byte string, as `sha2::Sha256` computes it.
pub uninterp spec fn sha256_digest(data: Seq<u8>) -> Seq<u8>;

/// `Digest::new` for `md5::Md5`: a fresh computation has been fed nothing.
#[verifier::external_body]
fn md5_start() -> (state: Md5State)
    ensures
        md5_absorbed(state) == Seq::<u8>::empty(),
{
    Md5State { inner: md5::Md5::new() }
}

/// `Digest::update` for `md5::Md5`: the data is appended to what was fed
/// before.
#[verifier::external_body]
fn md5_update(state: &mut Md5State, data: &[u8])
    ensures
        md5_absorbed(*final(state)) == md5_absorbed(*old(state)) + data@,
{
    state.inner.update(data);
}

/// `Digest::finalize` for `md5::Md5`: the digest of all that was fed, which
/// has 16 bytes.
#[verifier::external_body]
fn md5_finalize(state: Md5State) -> (out: Vec<u8>)
    ensures
        out@ == md5_digest(md5_absorbed(state)),
        out@.len() == 16,
{
    state.inner.finalize().to_vec()
}

/// `Digest::new` for `sha2::Sha256`: a fresh computation has been fed
/// nothing.
#[verifier::external_body]
fn sha256_start() -> (state: Sha256State)
    ensures
        sha256_absorbed(state) == Seq::<u8>::empty(),
{
    Sha256State { inner: sha2::Sha256::new() }
}

/// `Digest::update` for `sha2::Sha256`: the data is appended to what was fed
/// before.
#[verifier::external_body]
fn sha256_update(state: &mut Sha256State, data: &[u8])
    ensures
        sha256_absorbed(*final(state)) == sha256_absorbed(*old(state)) + data@,
{
    state.inner.update(data);
}

/// `Digest::finalize` for `sha2::Sha256`: the digest of all that was fed,
/// which has 32 bytes.
#[verifier::external_body]
fn sha256_finalize(state: Sha256State) -> (out: Vec<u8>)
    ensures
        out@ == sha256_digest(sha256_absorbed(state)),
        out@.len() == 32,
{
    state.inner.finalize().to_vec()
}

/// The sixteen hexadecimal digits, lower case.
pub open spec fn hex_digits() -> Seq<char> {
    seq!['0', '1', '2', '3', '4', '5', '6', '7', '8', '9', 'a', 'b', 'c', 'd', 'e', 'f']
}

/// Lower-case hexadecimal text of a byte string: two digits per byte, the
/// high half first.
pub open spec fn hex_lower(bytes: Seq<u8>) -> Seq<char> {
    Seq::new(
        2 * bytes.len(),
        |i: int|
            if i % 2 == 0 {
                hex_digits()[bytes[i / 2] as int / 16]
            } else {
                hex_digits()[bytes[i / 2] as int % 16]
            },
    )
}

/// `base16ct::lower::encode_string`: each byte becomes two lower-case
/// hexadecimal digits, the high half first. The outside function panics on an
/// input whose doubled length does not fit in `usize`.
#[verifier::external_body]
fn encode_hex(bytes: &[u8]) -> (text: String)
    requires
        2 * bytes@.len() <= usize::MAX,
    ensures
        text@ == hex_lower(bytes@),
{
    base16ct::lower::encode_string(bytes)
}

/// The digest of a byte string under an algorithm.
pub open spec fn digest(algorithm: Algorithm, data: Seq<u8>) -> Seq<u8> {
    match algorithm {
        Algorithm::Md5 => md5_digest(data),
        Algorithm::Sha256 => sha256_digest(data),
    }
}

/// The fingerprint under which a file's content is filed: its digest in
/// lower-case hexadecimal.
pub open spec fn fingerprint(algorithm: Algorithm, data: Seq<u8>) -> Seq<char> {
    hex_lower(digest(algorithm, data))
}

enum HashState {
    Md5(Md5State),
    Sha256(Sha256State),
}

/// A digest computation in progress. Content is fed in pieces of any size, so
/// a file never has to be held in memory as a whole.
pub struct Hasher {
    state: HashState,
}

impl Hasher {
    /// The algorithm this computation was started with.
    pub closed spec fn algorithm(&self) -> Algorithm {
        match self.state {
            HashState::Md5(_) => Algorithm::Md5,
            HashState::Sha256(_) => Algorithm::Sha256,
        }
    }

    /// All bytes fed so far, in order.
    pub closed spec fn absorbed(&self) -> Seq<u8> {
        match self.state {
            HashState::Md5(s) => md5_absorbed(s),
            HashState::Sha256(s) => sha256_absorbed(s),
        }
    }

    /// Starts a computation that has been fed nothing.
    pub fn new(algorithm: Algorithm) -> (h: Hasher)
        ensures
            h.algorithm() == algorithm,
            h.absorbed() == Seq::<u8>::empty(),
    {
        match algorithm {
            Algorithm::Md5 => Hasher { state: HashState::Md5(md5_start()) },
            Algorithm::Sha256 => Hasher { state: HashState::Sha256(sha256_start()) },
        }
    }

    /// Feeds the next piece of content.
    pub fn update(&mut self, data: &[u8])
        ensures
            final(self).algorithm() == old(self).algorithm(),
            final(self).absorbed() == old(self).absorbed() + data@,
    {
        match &mut self.state {
            HashState::Md5(s) => md5_update(s, data),
            HashState::Sha256(s) => sha256_update(s, data),
        }
    }

    /// Ends the computation and returns the fingerprint of all that was fed.
    pub fn finish(self) -> (text: String)
        ensures
            text@ == fingerprint(self.algorithm(), self.absorbed()),
    {
        match self.state {
            HashState::Md5(s) => {
                let raw = md5_finalize(s);
                encode_hex(raw.as_slice())
            },
            HashState::Sha256(s) => {
                let raw = sha256_finalize(s);
                encode_hex(raw.as_slice())
            },
        }
    }
}

/// The fingerprint of content that is already in memory.
pub fn digest_hex(algorithm: Algorithm, data: &[u8]) -> (text: String)
    ensures
        text@ == fingerprint(algorithm, data@),
{
    let mut hasher = Hasher::new(algorithm);
    hasher.update(data);
    proof {
        assert(Seq::<u8>::empty() + data@ =~= data@);
    }
    hasher.finish()
}

/// Different digests have different hexadecimal text.
pub proof fn lemma_hex_lower_injective(a: Seq<u8>, b: Seq<u8>)
    requires
        hex_lower(a) == hex_lower(b),
    ensures
        a == b,
{
    assert(hex_lower(a).len() == 2 * a.len());
    assert(hex_lower(b).len() == 2 * b.len());
    assert forall|i: int| 0 <= i < a.len() implies a[i] == b[i] by {
        let x = a[i] as int;
        let y = b[i] as int;
        assert(hex_lower(a)[2 * i] == hex_digits()[x / 16]);
        assert(hex_lower(b)[2 * i] == hex_digits()[y / 16]);
        assert(hex_lower(a)[2 * i + 1] == hex_digits()[x % 16]);
        assert(hex_lower(b)[2 * i + 1] == hex_digits()[y % 16]);
        lemma_hex_digit_injective(x / 16, y / 16);
        lemma_hex_digit_injective(x % 16, y % 16);
    }
    assert(a =~= b);
}

proof fn lemma_hex_digit_injective(m: int, n: int)
    requires
        0 <= m < 16,
        0 <= n < 16,
        hex_digits()[m] == hex_digits()[n],
    ensures
        m == n,
{
}

} // verus!
