//! Content signatures.
//!
//! A signature is the lowercase hexadecimal encoding of the MD5 digest of a
//! file's bytes, computed by streaming the bytes through a bounded-memory
//! hasher. Equal contents always yield equal signatures; distinct contents
//! yield distinct signatures up to the collision resistance of the digest,
//! which is all a content-derived key can promise.

use vstd::prelude::*;

use crypto::digest::Digest;

verus! {

/// The MD5 hasher state of the outside crate, opaque to verification.
#[verifier::external_type_specification]
#[verifier::external_body]
pub struct ExMd5(crypto::md5::Md5);

/// The 16-byte MD5 digest of a byte sequence. The digest is a pure function
/// of its input; its value is not spelled out here, only named.
pub uninterp spec fn md5_of(bytes: Seq<u8>) -> Seq<u8>;

/// One nibble as a lowercase hexadecimal digit.
pub open spec fn hex_digit(n: u8) -> char
    recommends
        n < 16,
{
    seq!['0', '1', '2', '3', '4', '5', '6', '7', '8', '9', 'a', 'b', 'c', 'd', 'e', 'f'][n as int]
}

/// Each byte as two lowercase hexadecimal digits, high nibble first.
pub open spec fn hex_of(bytes: Seq<u8>) -> Seq<char>
    decreases bytes.len(),
{
    if bytes.len() == 0 {
        Seq::empty()
    } else {
        hex_of(bytes.drop_last()) + seq![
            hex_digit(bytes.last() / 16),
            hex_digit(bytes.last() % 16),
        ]
    }
}

/// The content signature of a byte sequence.
pub open spec fn signature_of(bytes: Seq<u8>) -> Seq<char> {
    hex_of(md5_of(bytes))
}

/// Signature equality: byte-identical contents always receive the same
/// signature, however they were chunked while streaming.
pub proof fn lemma_signature_equality(a: Seq<u8>, b: Seq<u8>)
    requires
        a == b,
    ensures
        signature_of(a) == signature_of(b),
{
}

/// A streaming content hasher. Bytes are fed in bounded chunks; the
/// signature only depends on the concatenation of all chunks fed.
pub struct ContentHasher {
    inner: crypto::md5::Md5,
    fed: Ghost<Seq<u8>>,
}

impl ContentHasher {
    /// All bytes fed so far.
    pub closed spec fn fed(&self) -> Seq<u8> {
        self.fed@
    }

    /// A fresh hasher that has absorbed no bytes.
    pub fn new() -> (r: Self)
        ensures
            r.fed() == Seq::<u8>::empty(),
    {
        ContentHasher { inner: md5_new(), fed: Ghost(Seq::empty()) }
    }

    /// Absorbs one chunk into the digest state.
    pub fn update(&mut self, chunk: &[u8])
        ensures
            final(self).fed() == old(self).fed() + chunk@,
    {
        md5_input(&mut self.inner, chunk);
        self.fed = Ghost(self.fed@ + chunk@);
    }

    /// Relies on crypto::md5::Md5::result: writes the 16-byte MD5 digest of
    /// everything absorbed into a buffer of exactly the digest's length.
    #[verifier::external_body]
    fn digest(self) -> (r: Vec<u8>)
        ensures
            r@ == md5_of(self.fed()),
            r@.len() == 16,
    {
        let mut inner = self.inner;
        let mut out = vec![0u8; 16];
        inner.result(&mut out);
        out
    }

    /// Finishes the stream and returns the content signature of the fed
    /// bytes.
    pub fn finish_hex(self) -> (r: String)
        ensures
            r@ == signature_of(self.fed()),
    {
        let ghost fed = self.fed();
        let digest = self.digest();
        hex_encode(&digest)
    }
}

/// Relies on crypto::md5::Md5::new: a fresh digest state.
#[verifier::external_body]
fn md5_new() -> crypto::md5::Md5 {
    crypto::md5::Md5::new()
}

/// Relies on crypto::md5::Md5::input (the Digest trait): absorbs message
/// data. It panics only when called after `result`, which this module's
/// one-way stream (`update` then a consuming `finish_hex`) never does.
#[verifier::external_body]
fn md5_input(h: &mut crypto::md5::Md5, chunk: &[u8]) {
    h.input(chunk);
}

/// Relies on hex::encode: each input byte becomes two lowercase hexadecimal
/// digits, high nibble first.
#[verifier::external_body]
fn hex_encode(bytes: &Vec<u8>) -> (r: String)
    ensures
        r@ == hex_of(bytes@),
{
    hex::encode(bytes)
}

} // verus!
