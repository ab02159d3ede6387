//! Incremental XXH3-128 content hashing, a chunk at a time, so that no file has to be
//! held in memory as a whole.

use vstd::prelude::*;

use xxhash_rust::xxh3::Xxh3Default;

use crate::chars::{hex_digits, hex_string, lemma_hex_digits};

verus! {

/// The streaming XXH3 state of `xxhash-rust`, opaque here: what it holds is named by
/// [`hashed_input`].
#[verifier::external_type_specification]
#[verifier::external_body]
pub struct ExXxh3Default(Xxh3Default);

/// The bytes a streaming XXH3 state has been given so far, in order.
pub uninterp spec fn hashed_input(state: Xxh3Default) -> Seq<u8>;

/// The XXH3-128 digest, with the default secret, of everything a state was given.
pub uninterp spec fn xxh3_digest(input: Seq<u8>) -> u128;

/// Trusted: `Xxh3Default::new` starts a state that has been given nothing.
#[verifier::external_body]
fn xxh3_new() -> (res: Xxh3Default)
    ensures
        hashed_input(res) == Seq::<u8>::empty(),
{
    Xxh3Default::new()
}

/// Trusted: `Xxh3Default::update` hashes the chunk after everything given before it.
#[verifier::external_body]
fn xxh3_update(state: &mut Xxh3Default, chunk: &[u8])
    ensures
        hashed_input(*final(state)) == hashed_input(*old(state)) + chunk@,
{
    state.update(chunk)
}

/// Trusted: `Xxh3Default::digest128` depends on nothing but the bytes the state was
/// given, named [`xxh3_digest`], and leaves the state as it was.
#[verifier::external_body]
fn xxh3_digest128(state: &Xxh3Default) -> (res: u128)
    ensures
        res == xxh3_digest(hashed_input(*state)),
{
    state.digest128()
}

/// Incremental XXH3-128 content hasher: feed it a file a chunk at a time.
pub struct Hasher {
    state: Xxh3Default,
}

impl View for Hasher {
    type V = Seq<u8>;

    /// The bytes fed so far.
    closed spec fn view(&self) -> Seq<u8> {
        hashed_input(self.state)
    }
}

/// The digest of some content, as 32 lowercase hex characters.
pub open spec fn digest_hex(content: Seq<u8>) -> Seq<char> {
    hex_digits(xxh3_digest(content) as nat, 32)
}

impl Hasher {
    /// A hasher that has been fed nothing.
    pub fn new() -> (res: Hasher)
        ensures
            res@ == Seq::<u8>::empty(),
    {
        Hasher { state: xxh3_new() }
    }

    /// Adds the next chunk of content.
    pub fn update(&mut self, chunk: &[u8])
        ensures
            final(self)@ == old(self)@ + chunk@,
    {
        xxh3_update(&mut self.state, chunk);
    }

    /// Returns the digest of everything fed, as 32 lowercase hex characters.
    pub fn finish(self) -> (res: String)
        ensures
            res@ == digest_hex(self@),
    {
        hex_string(xxh3_digest128(&self.state), 32)
    }
}

impl Default for Hasher {
    fn default() -> (res: Hasher)
        ensures
            res@ == Seq::<u8>::empty(),
    {
        Hasher::new()
    }
}

/// Chunk boundaries do not affect the digest: content fed in two chunks gives the
/// digest of the two chunks joined.
pub proof fn lemma_chunks(before: Seq<u8>, a: Seq<u8>, b: Seq<u8>)
    ensures
        digest_hex((before + a) + b) == digest_hex(before + (a + b)),
{
    assert((before + a) + b =~= before + (a + b));
}

/// A digest is 32 characters, each one of `0-9a-f`.
pub proof fn lemma_digest_shape(content: Seq<u8>)
    ensures
        digest_hex(content).len() == 32,
        forall|i: int| 0 <= i < 32 ==> {
            let c = #[trigger] digest_hex(content)[i];
            ('0' <= c <= '9') || ('a' <= c <= 'f')
        },
{
    lemma_hex_digits(xxh3_digest(content) as nat, 32);
}

} // verus!
