//! The hash primitive: SHA-256 digests of byte streams, fed in bounded
//! chunks so memory use stays constant in the size of the stream.
//!
//! The digest itself is computed by the `sha2` crate; this module gives the
//! stream a ghost model (the bytes fed so far) so that callers can reason
//! about which byte string a digest belongs to.

use vstd::prelude::*;
use sha2::Digest;

verus! {

/// The SHA-256 digest of a byte string, as the `sha2` crate computes it:
/// a function of the bytes alone, the same in every process.
pub uninterp spec fn sha256_of(data: Seq<u8>) -> Seq<u8>;

/// The `sha2` crate's SHA-256 context, held opaquely so that a `Hasher` can
/// carry it through verified code.
#[verifier::external_type_specification]
#[verifier::external_body]
pub struct ExSha256(sha2::Sha256);

/// A streaming digest context: bytes go in chunk by chunk, one 256-bit
/// digest comes out at the end.
pub struct Hasher {
    ctx: sha2::Sha256,
    fed: Ghost<Seq<u8>>,
}

impl Hasher {
    /// The bytes fed to this context so far.
    pub closed spec fn fed(&self) -> Seq<u8> {
        self.fed@
    }

    /// Relies on `sha2::Sha256::default`: a fresh context that has seen no
    /// bytes.
    #[verifier::external_body]
    pub fn new() -> (h: Hasher)
        ensures
            h.fed() == Seq::<u8>::empty(),
    {
        Hasher { ctx: sha2::Sha256::default(), fed: Ghost(Seq::empty()) }
    }

    /// Relies on `digest::Digest::input` for `sha2::Sha256`: feeding a chunk
    /// appends it to the hashed stream.
    #[verifier::external_body]
    pub fn update(&mut self, chunk: &[u8])
        ensures
            final(self).fed() == old(self).fed() + chunk@,
    {
        self.ctx.input(chunk);
    }

    /// Relies on `digest::Digest::result` for `sha2::Sha256`: the 32-byte
    /// SHA-256 digest of exactly the bytes fed, a function of those bytes
    /// alone.
    #[verifier::external_body]
    pub fn finalize(self) -> (digest: Vec<u8>)
        ensures
            digest@ == sha256_of(self.fed()),
            digest@.len() == 32,
    {
        self.ctx.result().to_vec()
    }
}

/// The concatenation of a sequence of chunks into one byte string.
pub open spec fn concat_of(chunks: Seq<Seq<u8>>) -> Seq<u8>
    decreases chunks.len(),
{
    if chunks.len() == 0 {
        Seq::empty()
    } else {
        concat_of(chunks.drop_last()) + chunks.last()
    }
}

/// Streams a sequence of chunks through one digest context. The digest is
/// that of the concatenated stream, however the chunks split it.
pub fn hash_chunks(chunks: &Vec<Vec<u8>>) -> (digest: Vec<u8>)
    ensures
        digest@ == sha256_of(concat_of(chunks.deep_view())),
        digest@.len() == 32,
{
    let mut h = Hasher::new();
    let mut i: usize = 0;
    while i < chunks.len()
        invariant
            i <= chunks.len(),
            h.fed() == concat_of(chunks.deep_view().take(i as int)),
        decreases chunks.len() - i,
    {
        h.update(chunks[i].as_slice());
        proof {
            let dv = chunks.deep_view();
            assert(chunks[i as int].deep_view() =~= chunks[i as int]@);
            assert(dv.take(i + 1).drop_last() =~= dv.take(i as int));
            assert(dv.take(i + 1).last() == dv[i as int]);
        }
        i += 1;
    }
    proof {
        assert(chunks.deep_view().take(chunks.deep_view().len() as int) =~= chunks.deep_view());
    }
    h.finalize()
}

/// The digest of a byte string held whole in memory: one chunk, one stream.
pub fn hash_bytes(data: &Vec<u8>) -> (digest: Vec<u8>)
    ensures
        digest@ == sha256_of(data@),
        digest@.len() == 32,
{
    let mut h = Hasher::new();
    h.update(data.as_slice());
    proof {
        assert(Seq::<u8>::empty() + data@ =~= data@);
    }
    h.finalize()
}

} // verus!
