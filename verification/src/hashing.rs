//! XXH3-64 hashes of file contents: read whole for small files, streamed in
//! chunks for large ones.

use vstd::prelude::*;
use xxhash_rust::xxh3::Xxh3;

verus! {

/// Files larger than this (64 MiB) are hashed in chunks to spare memory.
pub const STREAMING_THRESHOLD: u64 = 64 * 1024 * 1024;

/// The size of the chunks a large file is read in (64 KiB).
pub const HASH_BUFFER_SIZE: usize = 64 * 1024;

/// The XXH3 64-bit hash (default seed and secret) of `data`, as
/// `xxhash_rust::xxh3::xxh3_64` computes it.
pub uninterp spec fn xxh3_64_of(data: Seq<u8>) -> u64;

/// The bytes a streaming XXH3 hasher holds: all it has been fed since it
/// was created (the hashers here are all made by `Xxh3::new`, with the
/// default seed and secret).
pub uninterp spec fn xxh3_fed(h: Xxh3) -> Seq<u8>;

#[verifier::external_type_specification]
#[verifier::external_body]
pub struct ExXxh3(Xxh3);

/// Calls `xxhash_rust::xxh3::xxh3_64`. Trusted: the result is the XXH3-64
/// hash of the bytes given, a function of them alone.
#[verifier::external_body]
fn xxh3_64(data: &[u8]) -> (r: u64)
    ensures
        r == xxh3_64_of(data@),
{
    xxhash_rust::xxh3::xxh3_64(data)
}

/// Calls `Xxh3::new`. Trusted: a new hasher has been fed nothing.
#[verifier::external_body]
fn xxh3_new() -> (r: Xxh3)
    ensures
        xxh3_fed(r) == Seq::<u8>::empty(),
{
    Xxh3::new()
}

/// Calls `Xxh3::update`. Trusted: the chunk is appended to what the hasher
/// has been fed.
#[verifier::external_body]
fn xxh3_update(h: &mut Xxh3, data: &[u8])
    ensures
        xxh3_fed(*final(h)) == xxh3_fed(*old(h)) + data@,
{
    h.update(data)
}

/// Calls `Xxh3::digest`. Trusted: the digest of a default hasher is the
/// one-shot `xxh3_64` hash of all it has been fed (the crate's test vectors
/// check exactly this).
#[verifier::external_body]
fn xxh3_digest(h: &Xxh3) -> (r: u64)
    ensures
        r == xxh3_64_of(xxh3_fed(*h)),
{
    h.digest()
}

/// How a file of a given size is hashed.
#[derive(PartialEq, Eq, Structural, Clone, Copy, Debug)]
pub enum HashMode {
    /// Read the whole file and hash it at once.
    WholeFile,
    /// Read the file in chunks of `HASH_BUFFER_SIZE` bytes and stream them.
    Streaming,
}

/// Files up to `STREAMING_THRESHOLD` bytes are hashed whole, larger ones
/// streamed.
pub fn hash_mode(size: u64) -> (r: HashMode)
    ensures
        r == (if size <= STREAMING_THRESHOLD {
            HashMode::WholeFile
        } else {
            HashMode::Streaming
        }),
{
    if size <= STREAMING_THRESHOLD {
        HashMode::WholeFile
    } else {
        HashMode::Streaming
    }
}

/// The hash of a whole file's contents.
pub fn hash_contents(contents: &[u8]) -> (r: u64)
    ensures
        r == xxh3_64_of(contents@),
{
    xxh3_64(contents)
}

/// A hash computed over chunks of a file read one after another.
pub struct StreamingHash {
    state: Xxh3,
}

impl View for StreamingHash {
    type V = Seq<u8>;

    /// The bytes fed so far.
    closed spec fn view(&self) -> Seq<u8> {
        xxh3_fed(self.state)
    }
}

impl StreamingHash {
    /// A hash over no bytes yet.
    pub fn new() -> (r: Self)
        ensures
            r@ == Seq::<u8>::empty(),
    {
        StreamingHash { state: xxh3_new() }
    }

    /// Feeds the next chunk.
    pub fn update(&mut self, chunk: &[u8])
        ensures
            final(self)@ == old(self)@ + chunk@,
    {
        xxh3_update(&mut self.state, chunk);
    }

    /// The hash of all bytes fed: the same as hashing them at once.
    pub fn digest(&self) -> (r: u64)
        ensures
            r == xxh3_64_of(self@),
    {
        xxh3_digest(&self.state)
    }
}

} // verus!
