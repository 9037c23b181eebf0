//! What is written can be read back.
//!
//! The theorems here relate the encoders to the decoders over their
//! mathematical descriptions, for either byte order.

use crate::byte_order::ByteOrder;
use crate::frame::{
    lemma_header_bytes, lemma_header_round_trip, lemma_size_of_args, lemma_size_of_body,
    FrameHeader, ReadError,
};
use crate::layout::{
    after_field, array_field, bytes_to_words, field_bytes, field_fits, i32_of_word,
    lemma_bytes_words_bytes, lemma_until_nul_of_nul_free, lemma_until_nul_stops,
    lemma_words_bytes_words, nul_free, str_field, until_nul, word_of_i32, words_for,
    words_to_bytes, zeros,
};
use crate::message::{read_rest, read_result, MessageView};
use vstd::prelude::*;
use vstd::utf8::{
    decode_utf8, encode_utf8, encode_utf8_decode_utf8, encode_utf8_valid_utf8, valid_utf8,
};

verus! {

/// A message whose length fits the header's field, sent and read back in the
/// same byte order, comes out as it went in, object, opcode and arguments,
/// and the reader stops exactly behind it.
pub proof fn lemma_send_then_read(order: ByteOrder, message: MessageView, tail: Seq<u8>)
    requires
        message.fits_frame(),
    ensures
        read_result(order, message.to_bytes(order) + tail) == Ok::<MessageView, ReadError>(
            message,
        ),
        read_rest(order, message.to_bytes(order) + tail) == tail,
{
    let header = message.header();
    let head = header.to_bytes(order);
    let body = words_to_bytes(order, message.args);
    let input = message.to_bytes(order) + tail;
    lemma_size_of_args(message.args.len());
    lemma_words_bytes_words(order, message.args);
    assert(FrameHeader::of_bytes(order, input) == header) by {
        lemma_header_round_trip(order, header, body + tail);
        assert(input =~= head + (body + tail));
    }
    assert(head.len() == 8) by {
        lemma_header_round_trip(order, header, tail);
    }
    assert(input.subrange(8, header.size as int) =~= body);
    assert(input.skip(header.size as int) =~= tail);
}

/// A message that was read is sent as the very bytes it was read from.
pub proof fn lemma_read_then_send(order: ByteOrder, input: Seq<u8>)
    requires
        read_result(order, input).is_ok(),
    ensures
        read_result(order, input).unwrap().fits_frame(),
        read_result(order, input).unwrap().to_bytes(order) + read_rest(order, input) == input,
{
    let message = read_result(order, input).unwrap();
    let header = FrameHeader::of_bytes(order, input);
    let size = header.size as int;
    let body = input.subrange(8, size);
    lemma_size_of_body(header.size);
    assert(message.args.len() == (size - 8) / 4);
    assert(message.header() == header);
    lemma_header_bytes(order, input);
    lemma_bytes_words_bytes(order, body);
    assert(input.take(8) + body + input.skip(size) =~= input);
}

/// A header whose declared length is no whole number of words, or is below
/// the length of a header, is refused, and none of the bytes behind the
/// header is consumed.
pub proof fn lemma_bad_size_is_refused(order: ByteOrder, input: Seq<u8>)
    requires
        input.len() >= 8,
        FrameHeader::of_bytes(order, input).size % 4 != 0 || FrameHeader::of_bytes(
            order,
            input,
        ).size < 8,
    ensures
        read_result(order, input) == Err::<MessageView, ReadError>(ReadError::InvalidData),
        read_rest(order, input) == input.skip(8),
{
}

/// A length word followed by the words of a payload that fills exactly the
/// words that the length asks for is a field that fits; it declares the front
/// of the payload, and what follows the payload is left behind it.
proof fn lemma_field_of_payload(
    order: ByteOrder,
    declared_len: u32,
    payload: Seq<u8>,
    tail: Seq<u32>,
)
    requires
        payload.len() == 4 * words_for(declared_len as nat),
    ensures
        field_fits(seq![declared_len] + bytes_to_words(order, payload) + tail),
        field_bytes(order, seq![declared_len] + bytes_to_words(order, payload) + tail)
            == payload.take(declared_len as int),
        after_field(seq![declared_len] + bytes_to_words(order, payload) + tail) == tail,
{
    let packed = bytes_to_words(order, payload);
    let words = seq![declared_len] + packed + tail;
    let count = words_for(declared_len as nat) as int;
    assert(packed.len() == count);
    assert(words.len() == 1 + count + tail.len());
    assert(words[0] == declared_len);
    assert(words.subrange(1, 1 + count) =~= packed);
    assert(words.skip(1 + count) =~= tail);
    lemma_bytes_words_bytes(order, payload);
}

/// A string that was written is read back up to its first zero byte, and
/// whole where it holds none; the cursor stops exactly behind it.
pub proof fn lemma_str_read_back(order: ByteOrder, content: Seq<u8>, tail: Seq<u32>)
    requires
        content.len() < u32::MAX,
    ensures
        field_fits(str_field(order, content) + tail),
        until_nul(field_bytes(order, str_field(order, content) + tail)) == until_nul(content),
        nul_free(content) ==> until_nul(field_bytes(order, str_field(order, content) + tail))
            == content,
        after_field(str_field(order, content) + tail) == tail,
{
    let n = content.len() as int;
    let declared_len = (n + 1) as u32;
    let padding = zeros((4 - n % 4) as nat);
    let payload = content + padding;
    assert(words_for(declared_len as nat) == n / 4 + 1);
    assert(payload.len() == 4 * (n / 4 + 1));
    lemma_field_of_payload(order, declared_len, payload, tail);
    assert(payload.take(n + 1) =~= content + seq![0u8]);
    lemma_until_nul_stops(content, seq![0u8]);
    if nul_free(content) {
        lemma_until_nul_of_nul_free(content);
    }
}

/// An array that was written is read back whole, zero bytes and all, and the
/// cursor stops exactly behind it. Read as a string instead, the same words
/// give the array's bytes up to its first zero byte.
pub proof fn lemma_array_read_back(order: ByteOrder, content: Seq<u8>, tail: Seq<u32>)
    requires
        content.len() <= u32::MAX,
    ensures
        field_fits(array_field(order, content) + tail),
        field_bytes(order, array_field(order, content) + tail) == content,
        until_nul(field_bytes(order, array_field(order, content) + tail)) == until_nul(content),
        after_field(array_field(order, content) + tail) == tail,
{
    let n = content.len();
    let declared_len = n as u32;
    let payload = content + zeros((4 * words_for(n) - n) as nat);
    assert(payload.len() == 4 * words_for(n));
    lemma_field_of_payload(order, declared_len, payload, tail);
    assert(payload.take(n as int) =~= content);
}

/// The description of a new object, written as the interface's name, the
/// version and the id, is read back part by part: the name is found to be
/// text and decodes to the interface, and the version and the id stand
/// behind it.
pub proof fn lemma_new_id_read_back(
    order: ByteOrder,
    interface: Seq<char>,
    version: u32,
    id: u32,
    tail: Seq<u32>,
)
    requires
        encode_utf8(interface).len() < u32::MAX,
        nul_free(encode_utf8(interface)),
    ensures
        ({
            let words = str_field(order, encode_utf8(interface)) + (seq![version, id] + tail);
            let name = until_nul(field_bytes(order, words));
            &&& field_fits(words)
            &&& valid_utf8(name)
            &&& decode_utf8(name) == interface
            &&& after_field(words) == seq![version, id] + tail
        }),
{
    lemma_str_read_back(order, encode_utf8(interface), seq![version, id] + tail);
    encode_utf8_valid_utf8(interface);
    encode_utf8_decode_utf8(interface);
}

/// A signed integer that was written as a word is read back as itself, and
/// a word that was read as a signed integer is written back as itself.
pub proof fn lemma_i32_read_back(value: i32, word: u32)
    ensures
        i32_of_word(word_of_i32(value)) == value,
        word_of_i32(i32_of_word(word)) == word,
{
}

} // verus!
