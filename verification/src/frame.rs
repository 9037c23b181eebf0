//! The eight-byte header that frames every message, and the conversion
//! between a message's body and its argument words.
//!
//! A header is two words. The first is the id of the object. The second
//! holds the opcode in its low half and, in its high half, the length in
//! bytes of the whole message, header included.

use crate::byte_order::{
    lemma_bytes_round_trip, lemma_word_round_trip, pack_word, unpack_word, word_from_bytes,
    word_to_bytes, ByteOrder,
};
use crate::layout::{bytes_to_words, words_to_bytes};
use vstd::prelude::*;

verus! {

/// The length of a header in bytes.
pub const HEADER_LEN: usize = 8;

/// Why a message could not be read.
#[derive(Clone, Copy, Debug, PartialEq, Eq, Structural)]
pub enum ReadError {
    /// The source ended before the message did.
    UnexpectedEof,
    /// The length that the header declares is below the length of a header
    /// or is no whole number of words.
    InvalidData,
}

/// The length field of a header word: its high half.
pub open spec fn size_field(word: u32) -> u16 {
    (word / 65536) as u16
}

/// The opcode field of a header word: its low half.
pub open spec fn opcode_field(word: u32) -> u16 {
    (word % 65536) as u16
}

/// A declared message length that a reader accepts.
pub open spec fn size_is_valid(size: u16) -> bool {
    size % 4 == 0 && size >= 8
}

/// The length field written for a message of `count` argument words: the
/// message's length in bytes, cut to the sixteen bits of the field.
pub open spec fn size_of_args(count: nat) -> u16 {
    ((8 + 4 * count) % 65536) as u16
}

/// The second word of a header.
pub open spec fn header_word(size: u16, opcode: u16) -> u32 {
    (size * 65536 + opcode) as u32
}

/// The most argument words that a message can hold with its length still
/// fitting the header's field.
pub const MAX_ARGS: usize = 16381;

/// The fields of a header.
#[derive(Clone, Copy, Debug, PartialEq, Eq, Structural)]
pub struct FrameHeader {
    /// The object that the message is for or from.
    pub object: u32,
    /// The operation within the object's interface.
    pub opcode: u16,
    /// The length of the whole message in bytes.
    pub size: u16,
}

impl FrameHeader {
    /// The header that the first eight bytes of `bytes` spell.
    pub open spec fn of_bytes(order: ByteOrder, bytes: Seq<u8>) -> FrameHeader
        recommends
            bytes.len() >= 8,
    {
        let second = word_from_bytes(order, bytes.subrange(4, 8));
        FrameHeader {
            object: word_from_bytes(order, bytes.subrange(0, 4)),
            opcode: opcode_field(second),
            size: size_field(second),
        }
    }

    /// The eight bytes that spell this header.
    pub open spec fn to_bytes(self, order: ByteOrder) -> Seq<u8> {
        word_to_bytes(order, self.object) + word_to_bytes(
            order,
            header_word(self.size, self.opcode),
        )
    }

    /// The number of body bytes that follow this header: what the declared
    /// length leaves once the header is taken off.
    pub open spec fn spec_body_len(self) -> nat {
        if self.size >= 8 {
            (self.size - 8) as nat
        } else {
            0
        }
    }

    /// Decodes a header from the front of `bytes`.
    ///
    /// Fails with `UnexpectedEof` where fewer than eight bytes are given, and
    /// with `InvalidData` where the declared length is not acceptable.
    pub fn parse(bytes: &[u8], order: ByteOrder) -> (parsed: Result<FrameHeader, ReadError>)
        ensures
            bytes@.len() < 8 ==> parsed == Err::<FrameHeader, ReadError>(ReadError::UnexpectedEof),
            bytes@.len() >= 8 && !size_is_valid(Self::of_bytes(order, bytes@).size) ==> parsed
                == Err::<FrameHeader, ReadError>(ReadError::InvalidData),
            bytes@.len() >= 8 && size_is_valid(Self::of_bytes(order, bytes@).size) ==> parsed
                == Ok::<FrameHeader, ReadError>(Self::of_bytes(order, bytes@)),
    {
        if bytes.len() < HEADER_LEN {
            return Err(ReadError::UnexpectedEof);
        }
        let object = pack_word(order, bytes[0], bytes[1], bytes[2], bytes[3]);
        let second = pack_word(order, bytes[4], bytes[5], bytes[6], bytes[7]);
        proof {
            assert(bytes@.subrange(0, 4) =~= seq![bytes[0], bytes[1], bytes[2], bytes[3]]);
            assert(bytes@.subrange(4, 8) =~= seq![bytes[4], bytes[5], bytes[6], bytes[7]]);
        }
        let size: u16 = (second / 65536) as u16;
        let opcode: u16 = (second % 65536) as u16;
        if size % 4 != 0 || size < 8 {
            return Err(ReadError::InvalidData);
        }
        Ok(FrameHeader { object, opcode, size })
    }

    /// The number of body bytes that follow this header.
    pub fn body_len(&self) -> (n: usize)
        ensures
            n == self.spec_body_len(),
    {
        if self.size >= 8 {
            (self.size - 8) as usize
        } else {
            0
        }
    }
}

/// The two fields of a header word are read back from it.
pub proof fn lemma_header_fields(size: u16, opcode: u16)
    ensures
        size_field(header_word(size, opcode)) == size,
        opcode_field(header_word(size, opcode)) == opcode,
{
    let word = size * 65536 + opcode;
    assert(0 <= word <= u32::MAX);
    assert(word / 65536 == size && word % 65536 == opcode);
}

/// A header word is made of its two fields.
pub proof fn lemma_header_word(word: u32)
    ensures
        header_word(size_field(word), opcode_field(word)) == word,
{
    assert(word == word / 65536 * 65536 + word % 65536);
}

/// A message of at most `MAX_ARGS` argument words declares its true length,
/// which a reader accepts; the length of a longer one does not fit the field.
pub proof fn lemma_size_of_args(count: nat)
    ensures
        count <= MAX_ARGS ==> size_of_args(count) == 8 + 4 * count && size_is_valid(
            size_of_args(count),
        ),
        count > MAX_ARGS ==> size_of_args(count) != 8 + 4 * count,
{
}

/// A declared length that a reader accepts is the length of a message of
/// the argument words that follow the header.
pub proof fn lemma_size_of_body(size: u16)
    requires
        size_is_valid(size),
    ensures
        (size - 8) / 4 <= MAX_ARGS,
        size_of_args(((size - 8) / 4) as nat) == size,
{
}

/// A header is read back from the bytes that spell it, whatever follows them.
pub proof fn lemma_header_round_trip(order: ByteOrder, header: FrameHeader, tail: Seq<u8>)
    ensures
        header.to_bytes(order).len() == 8,
        FrameHeader::of_bytes(order, header.to_bytes(order) + tail) == header,
{
    let second = header_word(header.size, header.opcode);
    let input = header.to_bytes(order) + tail;
    lemma_word_round_trip(order, header.object);
    lemma_word_round_trip(order, second);
    lemma_header_fields(header.size, header.opcode);
    assert(input.subrange(0, 4) =~= word_to_bytes(order, header.object));
    assert(input.subrange(4, 8) =~= word_to_bytes(order, second));
}

/// The header that eight bytes spell is spelt by those eight bytes.
pub proof fn lemma_header_bytes(order: ByteOrder, bytes: Seq<u8>)
    requires
        bytes.len() >= 8,
    ensures
        FrameHeader::of_bytes(order, bytes).to_bytes(order) == bytes.take(8),
{
    let first = bytes.subrange(0, 4);
    let second = bytes.subrange(4, 8);
    lemma_bytes_round_trip(order, first);
    lemma_bytes_round_trip(order, second);
    lemma_header_word(word_from_bytes(order, second));
    assert(first + second =~= bytes.take(8));
}

/// Appends the four bytes of `word` to `out`.
pub fn write_word(out: &mut Vec<u8>, word: u32, order: ByteOrder)
    ensures
        final(out)@ == old(out)@ + word_to_bytes(order, word),
{
    let bytes = unpack_word(order, word);
    out.push(bytes[0]);
    out.push(bytes[1]);
    out.push(bytes[2]);
    out.push(bytes[3]);
    assert(out@ =~= old(out)@ + word_to_bytes(order, word));
}

/// Appends the bytes of `words` to `out`, word after word.
pub fn write_words(out: &mut Vec<u8>, words: &[u32], order: ByteOrder)
    ensures
        final(out)@ == old(out)@ + words_to_bytes(order, words@),
{
    let mut i: usize = 0;
    while i < words.len()
        invariant
            i <= words.len(),
            out@ == old(out)@ + words_to_bytes(order, words@.take(i as int)),
        decreases words.len() - i,
    {
        let ghost before = out@;
        write_word(out, words[i], order);
        proof {
            let done = words@.take(i as int);
            let more = words@.take(i + 1);
            assert(more =~= done + seq![words[i as int]]);
            crate::layout::lemma_words_to_bytes_concat(order, done, seq![words[i as int]]);
            assert(words_to_bytes(order, seq![words[i as int]]) =~= word_to_bytes(
                order,
                words[i as int],
            ));
        }
        i += 1;
    }
    assert(words@.take(words.len() as int) =~= words@);
}

/// Packs `bytes` into words, four bytes to the word. Bytes beyond the last
/// whole word are ignored.
pub fn read_words(bytes: &[u8], order: ByteOrder) -> (words: Vec<u32>)
    ensures
        words@ == bytes_to_words(order, bytes@),
{
    let count = bytes.len() / 4;
    let mut words: Vec<u32> = Vec::new();
    let mut i: usize = 0;
    while i < count
        invariant
            count == bytes.len() / 4,
            i <= count,
            words@ == bytes_to_words(order, bytes@).take(i as int),
        decreases count - i,
    {
        let at = 4 * i;
        let word = pack_word(order, bytes[at], bytes[at + 1], bytes[at + 2], bytes[at + 3]);
        proof {
            assert(bytes@.subrange(4 * i, 4 * i + 4) =~= seq![
                bytes[at as int],
                bytes[at + 1],
                bytes[at + 2],
                bytes[at + 3],
            ]);
        }
        words.push(word);
        assert(words@ =~= bytes_to_words(order, bytes@).take(i + 1));
        i += 1;
    }
    assert(words@ =~= bytes_to_words(order, bytes@));
    words
}

} // verus!
