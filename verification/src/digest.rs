//! The hash of a file, taken piece by piece.

use vstd::prelude::*;

verus! {

/// The incremental hasher of the `blake3` crate.
#[verifier::external_type_specification]
#[verifier::external_body]
pub struct ExHasher(blake3::Hasher);

/// The bytes that a hasher has been given so far.
pub uninterp spec fn hasher_input(hasher: blake3::Hasher) -> Seq<u8>;

/// Whether a hasher computes the regular hash function, from offset 0: it was
/// made without a key or a context.
pub uninterp spec fn hasher_is_regular(hasher: blake3::Hasher) -> bool;

/// The 32 bytes of the BLAKE3 hash of an input.
pub uninterp spec fn blake3_digest(input: Seq<u8>) -> Seq<u8>;

/// `blake3::Hasher::new` makes a hasher for the regular hash function that
/// has been given nothing yet.
#[verifier::external_body]
fn new_hasher() -> (hasher: blake3::Hasher)
    ensures
        hasher_input(hasher) == Seq::<u8>::empty(),
        hasher_is_regular(hasher),
{
    blake3::Hasher::new()
}

/// `blake3::Hasher::update` adds bytes to what a regular hasher has been given,
/// and leaves it regular. The hasher counts the bytes in 64 bits, and does not
/// panic as long as they can be counted. (A hasher that starts at another
/// offset than 0 takes fewer bytes, and panics beyond them.)
#[verifier::external_body]
fn update_hasher(hasher: &mut blake3::Hasher, data: &[u8])
    requires
        hasher_is_regular(*old(hasher)),
        hasher_input(*old(hasher)).len() + data@.len() <= u64::MAX,
    ensures
        hasher_input(*final(hasher)) == hasher_input(*old(hasher)) + data@,
        hasher_is_regular(*final(hasher)),
    no_unwind
{
    hasher.update(data);
}

/// `blake3::Hasher::finalize` returns the hash of all that a regular hasher
/// has been given, which is 32 bytes long and depends on those bytes alone.
#[verifier::external_body]
fn finalize_hasher(hasher: &blake3::Hasher) -> (digest: [u8; 32])
    requires
        hasher_is_regular(*hasher),
    ensures
        digest@ == blake3_digest(hasher_input(*hasher)),
{
    *hasher.finalize().as_bytes()
}

/// The lowercase hexadecimal digit of a number below 16.
pub open spec fn hex_digit(n: int) -> char {
    "0123456789abcdef"@[n]
}

/// Bytes in lowercase hexadecimal, two digits for each.
pub open spec fn hex_text(bytes: Seq<u8>) -> Seq<char> {
    Seq::new(
        2 * bytes.len(),
        |i: int|
            if i % 2 == 0 {
                hex_digit(bytes[i / 2] as int / 16)
            } else {
                hex_digit(bytes[i / 2] as int % 16)
            },
    )
}

/// The text of a `blake3::Hash`, which its `Display` impl writes, is its bytes
/// in lowercase hexadecimal.
#[verifier::external_body]
fn hash_to_string(digest: [u8; 32]) -> (text: String)
    ensures
        text@ == hex_text(digest@),
{
    blake3::Hash::from_bytes(digest).to_string()
}

/// The hash of a content, as manifests and messages carry it.
pub open spec fn content_hash(content: Seq<u8>) -> Seq<char> {
    hex_text(blake3_digest(content))
}

/// Hashes a content that comes in pieces.
pub struct FileHasher {
    hasher: blake3::Hasher,
}

impl View for FileHasher {
    type V = Seq<u8>;

    /// All pieces so far, put together.
    closed spec fn view(&self) -> Seq<u8> {
        hasher_input(self.hasher)
    }
}

impl FileHasher {
    #[verifier::type_invariant]
    spec fn inv(self) -> bool {
        hasher_is_regular(self.hasher)
    }

    pub fn new() -> (hasher: Self)
        ensures
            hasher@ == Seq::<u8>::empty(),
    {
        FileHasher { hasher: new_hasher() }
    }

    /// Takes the next piece.
    pub fn absorb(&mut self, piece: &[u8])
        requires
            old(self)@.len() + piece@.len() <= u64::MAX,
        ensures
            final(self)@ == old(self)@ + piece@,
    {
        proof {
            use_type_invariant(&*self);
        }
        update_hasher(&mut self.hasher, piece);
    }

    /// The hash of the content so far. How it was cut into pieces plays no
    /// part.
    pub fn finish(&self) -> (hash: String)
        ensures
            hash@ == content_hash(self@),
            hash@.len() == 64,
            blake3_digest(self@).len() == 32,
            forall|i: int|
                #![trigger blake3_digest(self@)[i]]
                0 <= i < 32 ==> hash@[2 * i] == "0123456789abcdef"@[blake3_digest(self@)[i] as int / 16]
                    && hash@[2 * i + 1] == "0123456789abcdef"@[blake3_digest(self@)[i] as int % 16],
    {
        proof {
            use_type_invariant(self);
        }
        hash_to_string(finalize_hasher(&self.hasher))
    }
}

/// Different bytes have different texts.
pub proof fn hex_text_is_injective(a: Seq<u8>, b: Seq<u8>)
    requires
        hex_text(a) == hex_text(b),
    ensures
        a == b,
{
    assert(hex_text(a).len() == 2 * a.len());
    assert(hex_text(b).len() == 2 * b.len());
    assert forall|i: int| 0 <= i < a.len() implies a[i] == b[i] by {
        let high = 2 * i;
        let low = 2 * i + 1;
        assert(high / 2 == i && high % 2 == 0 && low / 2 == i && low % 2 == 1);
        assert(hex_text(a)[high] == hex_digit(a[i] as int / 16));
        assert(hex_text(b)[high] == hex_digit(b[i] as int / 16));
        assert(hex_text(a)[low] == hex_digit(a[i] as int % 16));
        assert(hex_text(b)[low] == hex_digit(b[i] as int % 16));
        lemma_hex_digit_injective(a[i] as int / 16, b[i] as int / 16);
        lemma_hex_digit_injective(a[i] as int % 16, b[i] as int % 16);
    }
    assert(a =~= b);
}

proof fn lemma_hex_digit_injective(m: int, n: int)
    requires
        0 <= m < 16,
        0 <= n < 16,
        hex_digit(m) == hex_digit(n),
    ensures
        m == n,
{
    reveal_strlit("0123456789abcdef");
}

} // verus!
