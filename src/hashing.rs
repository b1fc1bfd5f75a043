//! Content hashes recorded in the log (xxh3-64).
use vstd::prelude::*;

use xxhash_rust::xxh3::{xxh3_64, Xxh3};

verus! {

#[verifier::external_type_specification]
#[verifier::external_body]
pub struct ExXxh3(Xxh3);

/// The xxh3-64 hash of a byte string.
pub uninterp spec fn xxh3_of(b: Seq<u8>) -> u64;

/// The digest of a streaming xxh3 hasher fed with these bytes.
pub uninterp spec fn stream_digest_of(b: Seq<u8>) -> u64;

/// Relies on `xxh3::xxh3_64`: the hash depends on the bytes alone.
#[verifier::external_body]
fn one_shot(b: &[u8]) -> (r: u64)
    ensures
        r == xxh3_of(b@),
{
    xxh3_64(b)
}

/// The hash recorded for a symbolic link: that of its raw target bytes.
pub fn symlink_hash(target: &[u8]) -> (r: u64)
    ensures
        r == xxh3_of(target@),
{
    one_shot(target)
}

/// Hashes file content chunk by chunk as it is copied.
pub struct ContentHasher {
    inner: Xxh3,
    fed: Ghost<Seq<u8>>,
}

impl View for ContentHasher {
    /// The bytes fed so far.
    type V = Seq<u8>;

    closed spec fn view(&self) -> Seq<u8> {
        self.fed@
    }
}

impl ContentHasher {
    /// Relies on `Xxh3::new`: a fresh hasher, fed nothing.
    #[verifier::external_body]
    fn fresh() -> (r: ContentHasher)
        ensures
            r.fed@ == Seq::<u8>::empty(),
    {
        ContentHasher { inner: Xxh3::new(), fed: Ghost(Seq::empty()) }
    }

    /// Relies on `Xxh3::update`: hashes the next chunk of the stream.
    #[verifier::external_body]
    fn feed(&mut self, chunk: &[u8])
        ensures
            final(self).fed@ == old(self).fed@ + chunk@,
    {
        self.inner.update(chunk);
        self.fed = Ghost(self.fed@ + chunk@);
    }

    /// Relies on `Xxh3::digest`: the digest of the stream fed since `new`,
    /// which depends on those bytes alone.
    #[verifier::external_body]
    fn digest(&self) -> (r: u64)
        ensures
            r == stream_digest_of(self.fed@),
    {
        self.inner.digest()
    }

    pub fn new() -> (r: ContentHasher)
        ensures
            r@ == Seq::<u8>::empty(),
    {
        ContentHasher::fresh()
    }

    pub fn update(&mut self, chunk: &[u8])
        ensures
            final(self)@ == old(self)@ + chunk@,
    {
        self.feed(chunk);
    }

    /// The hash of everything fed so far.
    pub fn finish(&self) -> (r: u64)
        ensures
            r == stream_digest_of(self@),
    {
        self.digest()
    }
}

} // verus!
