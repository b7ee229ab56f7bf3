//! Streaming content digests.
use vstd::prelude::*;

verus! {

/// The bytes a BLAKE3 hasher has been fed so far.
pub uninterp spec fn hasher_input(h: blake3::Hasher) -> Seq<u8>;

/// The lowercase hexadecimal BLAKE3 digest of a byte sequence.
pub uninterp spec fn blake3_hex(data: Seq<u8>) -> Seq<char>;

#[verifier::external_type_specification]
#[verifier::external_body]
pub struct ExHasher(blake3::Hasher);

/// A character of `0-9a-f`.
pub open spec fn is_lower_hex_char(c: char) -> bool {
    ('0' <= c && c <= '9') || ('a' <= c && c <= 'f')
}

/// A 256-bit digest written as 64 lowercase hex characters.
pub open spec fn is_hex_digest(s: Seq<char>) -> bool {
    &&& s.len() == 64
    &&& forall|i: int| 0 <= i < s.len() ==> #[trigger] is_lower_hex_char(s[i])
}

/// Relies on blake3::Hasher::new: a fresh hasher for the regular hash
/// function, which has absorbed nothing.
#[verifier::external_body]
fn hasher_new() -> (h: blake3::Hasher)
    ensures
        hasher_input(h) == Seq::<u8>::empty(),
{
    blake3::Hasher::new()
}

/// Relies on blake3::Hasher::update: appends `data` to the hashed input.
/// (It panics only for hashers built with an input offset, which this
/// library never makes.)
#[verifier::external_body]
fn hasher_update(h: &mut blake3::Hasher, data: &[u8])
    ensures
        hasher_input(*final(h)) == hasher_input(*old(h)) + data@,
{
    h.update(data);
}

/// Relies on blake3::Hasher::finalize and blake3::Hash::to_hex: the digest of
/// everything absorbed, as 64 lowercase hex characters.
#[verifier::external_body]
fn hasher_hex(h: &blake3::Hasher) -> (r: String)
    ensures
        r@ == blake3_hex(hasher_input(*h)),
        is_hex_digest(r@),
{
    h.finalize().to_hex().to_string()
}

/// Digests a file's content chunk by chunk, counting the bytes it has seen.
pub struct ContentDigester {
    hasher: blake3::Hasher,
    bytes: u64,
}

impl ContentDigester {
    /// Everything absorbed so far.
    pub closed spec fn content(&self) -> Seq<u8> {
        hasher_input(self.hasher)
    }

    pub closed spec fn wf(&self) -> bool {
        self.bytes as int == hasher_input(self.hasher).len()
    }

    /// A digester that has absorbed nothing.
    pub fn new() -> (r: ContentDigester)
        ensures
            r.wf(),
            r.content() == Seq::<u8>::empty(),
    {
        ContentDigester { hasher: hasher_new(), bytes: 0 }
    }

    /// Number of bytes absorbed so far.
    pub fn byte_count(&self) -> (r: u64)
        requires
            self.wf(),
        ensures
            r as int == self.content().len(),
    {
        self.bytes
    }

    /// Appends one chunk of content.
    pub fn absorb(&mut self, chunk: &[u8])
        requires
            old(self).wf(),
            old(self).content().len() + chunk@.len() <= u64::MAX,
        ensures
            final(self).wf(),
            final(self).content() == old(self).content() + chunk@,
    {
        hasher_update(&mut self.hasher, chunk);
        self.bytes = self.bytes + chunk.len() as u64;
    }

    /// The digest of the content absorbed so far and its length in bytes.
    pub fn finish(&self) -> (r: (String, u64))
        requires
            self.wf(),
        ensures
            r.0@ == blake3_hex(self.content()),
            is_hex_digest(r.0@),
            r.1 as int == self.content().len(),
    {
        (hasher_hex(&self.hasher), self.bytes)
    }
}

/// Digesting is deterministic: two digesters that absorbed the same bytes,
/// however those bytes were split into chunks, finish with the same digest
/// and the same byte count.
pub proof fn lemma_digest_deterministic(a: ContentDigester, b: ContentDigester)
    requires
        a.wf(),
        b.wf(),
        a.content() == b.content(),
    ensures
        blake3_hex(a.content()) == blake3_hex(b.content()),
        a.content().len() == b.content().len(),
{
}

} // verus!
