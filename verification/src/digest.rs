use vstd::prelude::*;

use sha2::Digest;

verus! {

use crate::text::hex_of;
use crate::text::to_hex;

/// The SHA-256 digest, as 32 bytes, of a byte sequence. What the digest of
/// given bytes is stays unstated here: sha2 computes it, and the contracts
/// of this crate speak of it only through this name.
pub uninterp spec fn sha256_of(data: Seq<u8>) -> Seq<u8>;

#[verifier::external_type_specification]
#[verifier::external_body]
pub struct ExSha256(sha2::Sha256);

/// A streaming SHA-256 accumulator. `processed` is the ghost record of
/// every byte fed so far, in order; the digest finally produced is the
/// digest of exactly that sequence, so one pass over a file suffices.
pub struct Digester {
    inner: sha2::Sha256,
    processed: Ghost<Seq<u8>>,
}

impl Digester {
    /// The bytes this accumulator has absorbed so far, in order.
    pub closed spec fn bytes(self) -> Seq<u8> {
        self.processed@
    }
}

/// Relies on sha2: `Sha256::new` starts a digest over no bytes. Nothing is
/// claimed of the opaque hasher itself; `Digester` pairs it with the ghost
/// record of what it has absorbed.
#[verifier::external_body]
fn sha256_new() -> (r: sha2::Sha256)
{
    sha2::Sha256::new()
}

impl Digester {
    pub fn new() -> (r: Digester)
        ensures
            r.bytes() == Seq::<u8>::empty(),
    {
        Digester { inner: sha256_new(), processed: Ghost(Seq::empty()) }
    }

    /// Relies on sha2: `Digest::update` absorbs the chunk after everything
    /// fed before it.
    #[verifier::external_body]
    pub fn update(&mut self, chunk: &[u8])
        ensures
            final (self).bytes() == old(self).bytes() + chunk@,
    {
        self.inner.update(chunk);
    }

    /// Relies on sha2: `Digest::finalize` returns the 32-byte SHA-256
    /// digest of all bytes fed.
    #[verifier::external_body]
    pub fn finalize(self) -> (r: Vec<u8>)
        ensures
            r@ == sha256_of(self.bytes()),
            r@.len() == 32,
    {
        self.inner.finalize().as_slice().to_vec()
    }

    /// The digest of everything fed, as lower-case hexadecimal text.
    pub fn finalize_hex(self) -> (r: String)
        ensures
            r@ == hex_of(sha256_of(self.bytes())),
    {
        let bytes = self.finalize();
        to_hex(&bytes)
    }
}

/// Relies on sha2: `Digest::digest` computes the same SHA-256 digest in a
/// single call, which independent checks compare the streamed digest to.
#[verifier::external_body]
pub fn sha256_digest(data: &[u8]) -> (r: Vec<u8>)
    ensures
        r@ == sha256_of(data@),
        r@.len() == 32,
{
    sha2::Sha256::digest(data).as_slice().to_vec()
}

/// The hex digest of a whole in-memory byte slice, one call.
pub fn sha256_hex(data: &[u8]) -> (r: String)
    ensures
        r@ == hex_of(sha256_of(data@)),
{
    let bytes = sha256_digest(data);
    to_hex(&bytes)
}

} // verus!
