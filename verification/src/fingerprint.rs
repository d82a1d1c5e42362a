//! The fingerprint of a document: the BLAKE3 hash of its bytes, in hexadecimal digits.

use vstd::prelude::*;

verus! {

/// The incremental state of the `blake3` crate, which is carried and never looked into.
#[verifier::external_type_specification]
#[verifier::external_body]
pub struct ExHasher(blake3::Hasher);

/// The bytes that a hasher has taken in so far.
pub uninterp spec fn absorbed(hasher: blake3::Hasher) -> Seq<u8>;

/// Whether a hasher computes the hash without a key and of an input from its beginning.
pub uninterp spec fn unkeyed(hasher: blake3::Hasher) -> bool;

/// The BLAKE3 hash of bytes.
pub uninterp spec fn blake3_digest(bytes: Seq<u8>) -> Seq<u8>;

/// Starts hashing: `blake3::Hasher::new` makes a hasher without a key that has taken in nothing.
#[verifier::external_body]
fn new_hasher() -> (r: blake3::Hasher)
    ensures
        unkeyed(r),
        absorbed(r) == Seq::<u8>::empty(),
{
    blake3::Hasher::new()
}

/// Goes on hashing: `blake3::Hasher::update` takes the bytes in behind those before them.
#[verifier::external_body]
fn update_hasher(hasher: &mut blake3::Hasher, bytes: &[u8])
    requires
        unkeyed(*old(hasher)),
    ensures
        unkeyed(*final(hasher)),
        absorbed(*final(hasher)) == absorbed(*old(hasher)) + bytes@,
{
    hasher.update(bytes);
}

/// Ends hashing: the bytes of `blake3::Hasher::finalize` are a function of the bytes that were
/// taken in, however they were divided among the updates.
#[verifier::external_body]
fn finalize_hasher(hasher: &blake3::Hasher) -> (r: [u8; 32])
    requires
        unkeyed(*hasher),
    ensures
        r@ == blake3_digest(absorbed(*hasher)),
{
    *hasher.finalize().as_bytes()
}

/// A number below sixteen as a hexadecimal digit.
pub open spec fn hex_digit(value: int) -> char {
    if value < 10 {
        (48 + value) as char
    } else {
        (87 + value) as char
    }
}

/// Bytes in hexadecimal digits, two for each.
pub open spec fn lower_hex(bytes: Seq<u8>) -> Seq<char> {
    Seq::new(
        2 * bytes.len(),
        |i: int|
            hex_digit(
                if i % 2 == 0 {
                    bytes[i / 2] as int / 16
                } else {
                    bytes[i / 2] as int % 16
                },
            ),
    )
}

/// Appends a hexadecimal digit.
fn push_digit(text: &mut String, value: u8)
    requires
        value < 16,
    ensures
        final(text)@ == old(text)@.push(hex_digit(value as int)),
{
    let code: u8 = if value < 10 {
        48 + value
    } else {
        87 + value
    };
    text.push(code as char);
}

/// Writes bytes in hexadecimal digits.
pub fn hex_text(bytes: &[u8]) -> (r: String)
    ensures
        r@ == lower_hex(bytes@),
{
    let mut text: String = String::new();
    let mut i: usize = 0;
    while i < bytes.len()
        invariant
            i <= bytes@.len(),
            text@ == lower_hex(bytes@.take(i as int)),
        decreases bytes@.len() - i,
    {
        let byte: u8 = bytes[i];
        let ghost before = text@;
        push_digit(&mut text, byte / 16);
        push_digit(&mut text, byte % 16);
        proof {
            let longer = lower_hex(bytes@.take(i + 1));
            assert forall|k: int| 0 <= k < longer.len() implies longer[k] == text@[k] by {
                if k < before.len() {
                    assert(bytes@.take(i + 1)[k / 2] == bytes@.take(i as int)[k / 2]);
                } else {
                    assert(k / 2 == i);
                }
            }
            assert(text@ =~= longer);
        }
        i = i + 1;
    }
    assert(bytes@.take(bytes@.len() as int) =~= bytes@);
    text
}

/// A fingerprint in the making.
pub struct Fingerprint {
    hasher: blake3::Hasher,
}

impl View for Fingerprint {
    type V = Seq<u8>;

    /// The bytes that were read so far.
    closed spec fn view(&self) -> Seq<u8> {
        absorbed(self.hasher)
    }
}

impl Fingerprint {
    /// The state is that of an unkeyed hash.
    pub closed spec fn wf(self) -> bool {
        unkeyed(self.hasher)
    }

    /// Starts with nothing read.
    pub fn new() -> (r: Self)
        ensures
            r.wf(),
            r@ == Seq::<u8>::empty(),
    {
        Fingerprint { hasher: new_hasher() }
    }

    /// Takes in what was read next.
    pub fn update(&mut self, bytes: &[u8])
        requires
            old(self).wf(),
        ensures
            final(self).wf(),
            final(self)@ == old(self)@ + bytes@,
    {
        update_hasher(&mut self.hasher, bytes);
    }

    /// The fingerprint of all that was read: 64 digits.
    pub fn finish(&self) -> (r: String)
        requires
            self.wf(),
        ensures
            r@ == lower_hex(blake3_digest(self@)),
            r@.len() == 64,
    {
        hex_text(finalize_hasher(&self.hasher).as_slice())
    }
}

/// What a hexadecimal digit is worth.
pub open spec fn digit_worth(digit: char) -> int {
    if '0' <= digit <= '9' {
        digit as int - '0' as int
    } else if 'a' <= digit <= 'f' {
        digit as int - 'a' as int + 10
    } else {
        -1
    }
}

/// The digits of a fingerprint give back the bytes that they were written for, the sixteens before
/// the ones, in small letters; so fingerprints are equal only for equal hashes.
pub proof fn law_fingerprints_tell_hashes_apart(bytes: Seq<u8>, others: Seq<u8>)
    ensures
        lower_hex(bytes).len() == 2 * bytes.len(),
        forall|i: int|
            0 <= i < bytes.len() ==> #[trigger] bytes[i] == 16 * digit_worth(
                lower_hex(bytes)[2 * i],
            ) + digit_worth(lower_hex(bytes)[2 * i + 1]),
        forall|k: int|
            0 <= k < lower_hex(bytes).len() ==> 0 <= digit_worth(#[trigger] lower_hex(bytes)[k])
                < 16,
        lower_hex(bytes) == lower_hex(others) ==> bytes == others,
{
    lemma_digits_give_bytes(bytes);
    lemma_digits_give_bytes(others);
    if lower_hex(bytes) == lower_hex(others) {
        assert(lower_hex(bytes).len() == lower_hex(others).len());
        assert forall|i: int| 0 <= i < bytes.len() implies #[trigger] bytes[i] == others[i] by {
            assert(bytes[i] == 16 * digit_worth(lower_hex(bytes)[2 * i]) + digit_worth(
                lower_hex(bytes)[2 * i + 1],
            ));
        }
        assert(bytes =~= others);
    }
}

/// The digits give back the bytes.
proof fn lemma_digits_give_bytes(bytes: Seq<u8>)
    ensures
        forall|i: int|
            0 <= i < bytes.len() ==> #[trigger] bytes[i] == 16 * digit_worth(
                lower_hex(bytes)[2 * i],
            ) + digit_worth(lower_hex(bytes)[2 * i + 1]),
        forall|k: int|
            0 <= k < lower_hex(bytes).len() ==> 0 <= digit_worth(#[trigger] lower_hex(bytes)[k])
                < 16,
{
    assert forall|value: int| 0 <= value < 16 implies digit_worth(#[trigger] hex_digit(value))
        == value by {}
    let text = lower_hex(bytes);
    assert forall|i: int| 0 <= i < bytes.len() implies #[trigger] bytes[i] == 16 * digit_worth(
        text[2 * i],
    ) + digit_worth(text[2 * i + 1]) by {
        assert((2 * i) / 2 == i && (2 * i) % 2 == 0);
        assert((2 * i + 1) / 2 == i && (2 * i + 1) % 2 == 1);
        assert(text[2 * i] == hex_digit(bytes[i] as int / 16));
        assert(text[2 * i + 1] == hex_digit(bytes[i] as int % 16));
    }
    assert forall|k: int| 0 <= k < text.len() implies 0 <= digit_worth(#[trigger] text[k]) < 16 by {
        let byte = bytes[k / 2] as int;
        assert(0 <= byte / 16 < 16 && 0 <= byte % 16 < 16);
        assert(text[k] == hex_digit(
            if k % 2 == 0 {
                byte / 16
            } else {
                byte % 16
            },
        ));
    }
}

/// Taking in two pieces is taking in both as one: how a file is divided as it is read does not
/// change its fingerprint.
pub proof fn law_fingerprint_ignores_pieces(seen: Seq<u8>, first: Seq<u8>, second: Seq<u8>)
    ensures
        lower_hex(blake3_digest(seen + first + second)) == lower_hex(
            blake3_digest(seen + (first + second)),
        ),
{
    assert(seen + first + second =~= seen + (first + second));
}

} // verus!
