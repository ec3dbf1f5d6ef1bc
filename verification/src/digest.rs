//! Content digests: SHA-512 rendered as lower-case hexadecimal.

use sha2::{Digest, Sha512};
use vstd::prelude::*;

verus! {

/// The SHA-512 digest of a byte string, as computed by the `sha2` crate.
pub uninterp spec fn sha512_digest(data: Seq<u8>) -> Seq<u8>;

/// A SHA-512 computation in progress: the `sha2` hasher, which cannot be
/// declared to the verifier as it stands, held out of its sight.
#[verifier::external_body]
pub struct ContentHasher {
    inner: Sha512,
}

/// The bytes that a hasher has taken in so far, in the order in which they
/// came.
pub uninterp spec fn absorbed(h: ContentHasher) -> Seq<u8>;

/// Calls `Digest::new` of `sha2::Sha512`: a hasher that has taken in nothing.
#[verifier::external_body]
fn sha512_new() -> (h: ContentHasher)
    ensures
        absorbed(h) == Seq::<u8>::empty(),
{
    ContentHasher { inner: Sha512::new() }
}

/// Calls `Digest::update` of `sha2::Sha512`: the data is appended to what
/// the hasher has taken in; feeding a message in pieces is feeding it whole.
#[verifier::external_body]
fn sha512_update(h: &mut ContentHasher, data: &[u8])
    ensures
        absorbed(*final(h)) == absorbed(*old(h)) + data@,
{
    h.inner.update(data)
}

/// Calls `Digest::finalize` of `sha2::Sha512` and copies the output array
/// into a vector: the SHA-512 digest of all that the hasher has taken in,
/// which is 64 bytes long.
#[verifier::external_body]
fn sha512_finalize(h: ContentHasher) -> (out: Vec<u8>)
    ensures
        out@ == sha512_digest(absorbed(h)),
        out@.len() == 64,
{
    h.inner.finalize().to_vec()
}

/// `String::push` appends one character to the end of the string.
pub assume_specification[ String::push ](s: &mut String, c: char)
    ensures
        final(s)@ == old(s)@.push(c),
;

/// The lower-case hexadecimal digit for a value below sixteen.
pub open spec fn hex_digit(n: u8) -> char {
    if n == 0 {
        '0'
    } else if n == 1 {
        '1'
    } else if n == 2 {
        '2'
    } else if n == 3 {
        '3'
    } else if n == 4 {
        '4'
    } else if n == 5 {
        '5'
    } else if n == 6 {
        '6'
    } else if n == 7 {
        '7'
    } else if n == 8 {
        '8'
    } else if n == 9 {
        '9'
    } else if n == 10 {
        'a'
    } else if n == 11 {
        'b'
    } else if n == 12 {
        'c'
    } else if n == 13 {
        'd'
    } else if n == 14 {
        'e'
    } else {
        'f'
    }
}

/// Two lower-case hexadecimal digits per byte, high nibble first.
pub open spec fn hex_string(bytes: Seq<u8>) -> Seq<char>
    decreases bytes.len(),
{
    if bytes.len() == 0 {
        Seq::empty()
    } else {
        hex_string(bytes.drop_last()).push(hex_digit(bytes.last() / 16)).push(
            hex_digit(bytes.last() % 16),
        )
    }
}

/// The digest by which file contents are compared: SHA-512 in hexadecimal.
pub open spec fn digest_of(data: Seq<u8>) -> Seq<char> {
    hex_string(sha512_digest(data))
}

fn hex_char(n: u8) -> (c: char)
    ensures
        c == hex_digit(n),
{
    if n == 0 {
        '0'
    } else if n == 1 {
        '1'
    } else if n == 2 {
        '2'
    } else if n == 3 {
        '3'
    } else if n == 4 {
        '4'
    } else if n == 5 {
        '5'
    } else if n == 6 {
        '6'
    } else if n == 7 {
        '7'
    } else if n == 8 {
        '8'
    } else if n == 9 {
        '9'
    } else if n == 10 {
        'a'
    } else if n == 11 {
        'b'
    } else if n == 12 {
        'c'
    } else if n == 13 {
        'd'
    } else if n == 14 {
        'e'
    } else {
        'f'
    }
}

/// Every byte becomes two characters.
pub proof fn lemma_hex_string_len(bytes: Seq<u8>)
    ensures
        hex_string(bytes).len() == 2 * bytes.len(),
    decreases bytes.len(),
{
    if bytes.len() > 0 {
        lemma_hex_string_len(bytes.drop_last());
    }
}

/// Renders bytes as lower-case hexadecimal, two digits per byte.
pub fn checksum_to_hex(bytes: &[u8]) -> (s: String)
    ensures
        s@ == hex_string(bytes@),
{
    let mut s: String = String::new();
    let mut i: usize = 0;
    while i < bytes.len()
        invariant
            i <= bytes.len(),
            s@ == hex_string(bytes@.take(i as int)),
        decreases bytes.len() - i,
    {
        let b: u8 = bytes[i];
        proof {
            assert(bytes@.take(i + 1).drop_last() == bytes@.take(i as int));
            assert(bytes@.take(i + 1).last() == b);
        }
        s.push(hex_char(b / 16));
        s.push(hex_char(b % 16));
        i = i + 1;
    }
    proof {
        assert(bytes@.take(bytes.len() as int) == bytes@);
    }
    s
}

impl ContentHasher {
    /// The bytes taken in so far.
    pub open spec fn view(self) -> Seq<u8> {
        absorbed(self)
    }

    /// Starts the digest of a content that comes in pieces.
    pub fn new() -> (h: ContentHasher)
        ensures
            h@ == Seq::<u8>::empty(),
    {
        sha512_new()
    }

    /// Takes in the next piece of the content.
    pub fn update(&mut self, data: &[u8])
        ensures
            final(self)@ == old(self)@ + data@,
    {
        sha512_update(self, data)
    }

    /// The hexadecimal digest of the pieces taken in, laid end to end.
    pub fn finalize(self) -> (s: String)
        ensures
            s@ == digest_of(self@),
            s@.len() == 128,
    {
        let raw: Vec<u8> = sha512_finalize(self);
        proof {
            lemma_hex_string_len(raw@);
        }
        checksum_to_hex(raw.as_slice())
    }
}

/// The hexadecimal SHA-512 digest of exactly the bytes given.
pub fn content_digest(data: &[u8]) -> (s: String)
    ensures
        s@ == digest_of(data@),
        s@.len() == 128,
{
    let mut hasher = ContentHasher::new();
    hasher.update(data);
    assert(hasher@ =~= data@);
    hasher.finalize()
}

} // verus!
