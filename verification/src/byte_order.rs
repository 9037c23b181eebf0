//! Byte order of the 32-bit words on the wire.

use vstd::prelude::*;

verus! {

/// The order in which the four bytes of a word travel.
#[derive(Clone, Copy, Debug, PartialEq, Eq, Structural)]
pub enum ByteOrder {
    /// Least significant byte first.
    Little,
    /// Most significant byte first.
    Big,
}

/// `u32::to_ne_bytes` hands out the bytes of a word as this machine holds
/// them in memory. Which order that is depends on the machine; it is one of
/// the two.
#[verifier::external_body]
fn memory_bytes(word: u32) -> (bytes: [u8; 4])
    ensures
        bytes@ == word_to_bytes(ByteOrder::Little, word) || bytes@ == word_to_bytes(
            ByteOrder::Big,
            word,
        ),
{
    word.to_ne_bytes()
}

impl ByteOrder {
    /// The order in which this machine holds the bytes of a word in memory:
    /// the order in which the bytes it holds the word one as spell one.
    ///
    /// The answer depends on the machine, so nothing is stated of it here;
    /// `spelling_one` states which answer follows from which bytes.
    pub fn native() -> ByteOrder {
        Self::spelling_one(memory_bytes(1))
    }

    /// The order in which `bytes` spell the word one: least significant byte
    /// first where the first byte is the one, most significant first else.
    /// Where `bytes` spell one in either order, they do so in the order
    /// returned.
    pub fn spelling_one(bytes: [u8; 4]) -> (order: ByteOrder)
        ensures
            order == (if bytes@[0] == 1 {
                ByteOrder::Little
            } else {
                ByteOrder::Big
            }),
            bytes@ == word_to_bytes(ByteOrder::Little, 1) || bytes@ == word_to_bytes(
                ByteOrder::Big,
                1,
            ) ==> bytes@ == word_to_bytes(order, 1),
    {
        if bytes[0] == 1 {
            ByteOrder::Little
        } else {
            ByteOrder::Big
        }
    }
}

/// The word that four bytes stand for, the first of them being the least significant.
pub open spec fn word_of(b0: u8, b1: u8, b2: u8, b3: u8) -> u32 {
    (b0 + 256 * b1 + 65536 * b2 + 16777216 * b3) as u32
}

/// The four bytes of `word` as they travel in `order`.
pub open spec fn word_to_bytes(order: ByteOrder, word: u32) -> Seq<u8> {
    let b0 = (word % 256) as u8;
    let b1 = (word / 256 % 256) as u8;
    let b2 = (word / 65536 % 256) as u8;
    let b3 = (word / 16777216) as u8;
    match order {
        ByteOrder::Little => seq![b0, b1, b2, b3],
        ByteOrder::Big => seq![b3, b2, b1, b0],
    }
}

/// The word that the first four bytes of `bytes` stand for in `order`.
pub open spec fn word_from_bytes(order: ByteOrder, bytes: Seq<u8>) -> u32
    recommends
        bytes.len() >= 4,
{
    match order {
        ByteOrder::Little => word_of(bytes[0], bytes[1], bytes[2], bytes[3]),
        ByteOrder::Big => word_of(bytes[3], bytes[2], bytes[1], bytes[0]),
    }
}

/// Packing the bytes of a word gives the word back.
pub proof fn lemma_word_round_trip(order: ByteOrder, word: u32)
    ensures
        word_to_bytes(order, word).len() == 4,
        word_from_bytes(order, word_to_bytes(order, word)) == word,
{
    let w = word as int;
    let b0 = w % 256;
    let b1 = w / 256 % 256;
    let b2 = w / 65536 % 256;
    let b3 = w / 16777216;
    assert(w / 256 == 256 * (w / 65536) + b1) by {
        assert(w / 65536 == w / 256 / 256);
    }
    assert(w / 65536 == 256 * b3 + b2) by {
        assert(w / 16777216 == w / 65536 / 256);
    }
    assert(w == b0 + 256 * b1 + 65536 * b2 + 16777216 * b3);
}

/// Unpacking the word made of four bytes gives the four bytes back.
pub proof fn lemma_bytes_round_trip(order: ByteOrder, bytes: Seq<u8>)
    requires
        bytes.len() == 4,
    ensures
        word_to_bytes(order, word_from_bytes(order, bytes)) == bytes,
{
    let (b0, b1, b2, b3) = match order {
        ByteOrder::Little => (bytes[0], bytes[1], bytes[2], bytes[3]),
        ByteOrder::Big => (bytes[3], bytes[2], bytes[1], bytes[0]),
    };
    lemma_word_of_digits(b0, b1, b2, b3);
    assert(word_to_bytes(order, word_from_bytes(order, bytes)) =~= bytes);
}

/// The bytes that make a word are its base-256 digits.
proof fn lemma_word_of_digits(b0: u8, b1: u8, b2: u8, b3: u8)
    ensures
        word_of(b0, b1, b2, b3) == b0 + 256 * b1 + 65536 * b2 + 16777216 * b3,
        word_of(b0, b1, b2, b3) % 256 == b0,
        word_of(b0, b1, b2, b3) / 256 % 256 == b1,
        word_of(b0, b1, b2, b3) / 65536 % 256 == b2,
        word_of(b0, b1, b2, b3) / 16777216 == b3,
{
    let w: int = b0 + 256 * b1 + 65536 * b2 + 16777216 * b3;
    assert(0 <= w <= u32::MAX);
    let r1: int = b1 + 256 * b2 + 65536 * b3;
    let r2: int = b2 + 256 * b3;
    assert(w == 256 * r1 + b0);
    assert(w / 256 == r1 && w % 256 == b0);
    assert(r1 == 256 * r2 + b1);
    assert(r1 / 256 == r2 && r1 % 256 == b1);
    assert(w / 65536 == r2) by {
        assert(w == 65536 * r2 + (b0 + 256 * b1));
    }
    assert(r2 / 256 == b3 && r2 % 256 == b2);
    assert(w / 16777216 == b3) by {
        assert(w == 16777216 * b3 + (b0 + 256 * b1 + 65536 * b2));
    }
}

/// Packs four bytes, given in wire order, into a word.
pub fn pack_word(order: ByteOrder, b0: u8, b1: u8, b2: u8, b3: u8) -> (word: u32)
    ensures
        word == word_from_bytes(order, seq![b0, b1, b2, b3]),
{
    match order {
        ByteOrder::Little => {
            (b0 as u32) + 256 * (b1 as u32) + 65536 * (b2 as u32) + 16777216 * (b3 as u32)
        },
        ByteOrder::Big => {
            (b3 as u32) + 256 * (b2 as u32) + 65536 * (b1 as u32) + 16777216 * (b0 as u32)
        },
    }
}

/// Unpacks a word into its four bytes in wire order.
pub fn unpack_word(order: ByteOrder, word: u32) -> (bytes: [u8; 4])
    ensures
        bytes@ == word_to_bytes(order, word),
{
    let b0: u8 = (word % 256) as u8;
    let b1: u8 = (word / 256 % 256) as u8;
    let b2: u8 = (word / 65536 % 256) as u8;
    let b3: u8 = (word / 16777216) as u8;
    match order {
        ByteOrder::Little => [b0, b1, b2, b3],
        ByteOrder::Big => [b3, b2, b1, b0],
    }
}

} // verus!
