//! How runs of words and length-prefixed fields are laid out.
//!
//! Everything after a message's header is a run of 32-bit words. A string or
//! an array occupies one word that declares its length in bytes, followed by
//! as many words as it takes to hold that many bytes.

use crate::byte_order::{
    lemma_bytes_round_trip, lemma_word_round_trip, word_from_bytes, word_to_bytes, ByteOrder,
};
use vstd::prelude::*;

verus! {

/// The bytes of a run of words, word after word.
pub open spec fn words_to_bytes(order: ByteOrder, words: Seq<u32>) -> Seq<u8> {
    Seq::new(4 * words.len(), |i: int| word_to_bytes(order, words[i / 4])[i % 4])
}

/// The words that a run of bytes holds, four bytes to the word. Bytes beyond
/// the last whole word are ignored.
pub open spec fn bytes_to_words(order: ByteOrder, bytes: Seq<u8>) -> Seq<u32> {
    Seq::new(bytes.len() / 4, |i: int| word_from_bytes(order, bytes.subrange(4 * i, 4 * i + 4)))
}

/// The word that has the bit pattern of `value` in two's complement.
pub open spec fn word_of_i32(value: i32) -> u32 {
    if value >= 0 {
        value as u32
    } else {
        (value + 0x1_0000_0000) as u32
    }
}

/// The signed integer whose bit pattern in two's complement `word` has.
pub open spec fn i32_of_word(word: u32) -> i32 {
    if word < 0x8000_0000 {
        word as i32
    } else {
        (word - 0x1_0000_0000) as i32
    }
}

/// The number of words that it takes to hold `len` bytes.
pub open spec fn words_for(len: nat) -> nat {
    (len + 3) / 4
}

/// `n` zero bytes.
pub open spec fn zeros(n: nat) -> Seq<u8> {
    Seq::new(n, |i: int| 0u8)
}

/// The bytes of `bytes` that come before its first zero byte; all of them
/// where there is none.
pub open spec fn until_nul(bytes: Seq<u8>) -> Seq<u8>
    decreases bytes.len(),
{
    if bytes.len() == 0 || bytes[0] == 0 {
        Seq::empty()
    } else {
        seq![bytes[0]] + until_nul(bytes.drop_first())
    }
}

/// No byte of `bytes` is zero.
pub open spec fn nul_free(bytes: Seq<u8>) -> bool {
    forall|i: int| 0 <= i < bytes.len() ==> bytes[i] != 0
}

/// Whether `words` begin with a length word that is followed by enough words
/// to hold the bytes it declares.
pub open spec fn field_fits(words: Seq<u32>) -> bool {
    words.len() > 0 && words_for(words[0] as nat) <= words.len() - 1
}

/// The bytes that the length-prefixed field at the front of `words` declares.
pub open spec fn field_bytes(order: ByteOrder, words: Seq<u32>) -> Seq<u8>
    recommends
        field_fits(words),
{
    let count = words_for(words[0] as nat) as int;
    words_to_bytes(order, words.subrange(1, 1 + count)).take(words[0] as int)
}

/// What an attempt to read a length-prefixed field from the front of `words`
/// leaves: the words behind the field where it fits, else the words behind the
/// length word; nothing is consumed where there is no length word.
pub open spec fn after_field(words: Seq<u32>) -> Seq<u32> {
    if words.len() == 0 {
        words
    } else if field_fits(words) {
        words.skip(1 + words_for(words[0] as nat) as int)
    } else {
        words.skip(1)
    }
}

/// The words of a string field: the content's length plus one for the
/// terminator, then the content, closed by one to four zero bytes so that it
/// ends on a word boundary.
pub open spec fn str_field(order: ByteOrder, content: Seq<u8>) -> Seq<u32> {
    seq![(content.len() + 1) as u32] + bytes_to_words(
        order,
        content + zeros((4 - content.len() % 4) as nat),
    )
}

/// The words of an array field: the content's length, then the content,
/// filled up with zero bytes to the next word boundary.
pub open spec fn array_field(order: ByteOrder, content: Seq<u8>) -> Seq<u32> {
    seq![content.len() as u32] + bytes_to_words(
        order,
        content + zeros((4 * words_for(content.len()) - content.len()) as nat),
    )
}

/// Where no word is left there is no field, and an attempt to read one
/// leaves the run as empty as it was.
pub proof fn lemma_empty_holds_no_field()
    ensures
        !field_fits(Seq::<u32>::empty()),
        after_field(Seq::<u32>::empty()) == Seq::<u32>::empty(),
{
}

/// A field whose declared length takes more words than are left behind its
/// length word does not fit: no word is read that is not there.
pub proof fn lemma_field_needs_its_words(words: Seq<u32>)
    requires
        words.len() > 0,
        4 * (words.len() - 1) < words[0],
    ensures
        !field_fits(words),
        after_field(words) == words.skip(1),
{
}

/// `until_nul` cuts at the first position that holds a zero or ends the run.
pub proof fn lemma_until_nul_at(bytes: Seq<u8>, k: int)
    requires
        0 <= k <= bytes.len(),
        nul_free(bytes.take(k)),
        k == bytes.len() || bytes[k] == 0,
    ensures
        until_nul(bytes) == bytes.take(k),
    decreases k,
{
    if k == 0 {
        assert(bytes.take(0) =~= Seq::<u8>::empty());
    } else {
        assert(bytes.take(k)[0] != 0);
        let rest = bytes.drop_first();
        let shorter = rest.take(k - 1);
        assert forall|i: int| 0 <= i < shorter.len() implies shorter[i] != 0 by {
            assert(bytes.take(k)[i + 1] != 0);
        }
        lemma_until_nul_at(rest, k - 1);
        assert(bytes.take(k) =~= seq![bytes[0]] + rest.take(k - 1));
    }
}

/// A run without a zero byte is kept whole.
pub proof fn lemma_until_nul_of_nul_free(bytes: Seq<u8>)
    requires
        nul_free(bytes),
    ensures
        until_nul(bytes) == bytes,
{
    assert(bytes.take(bytes.len() as int) =~= bytes);
    lemma_until_nul_at(bytes, bytes.len() as int);
}

/// What follows a zero byte does not matter.
pub proof fn lemma_until_nul_stops(head: Seq<u8>, tail: Seq<u8>)
    requires
        tail.len() > 0,
        tail[0] == 0,
    ensures
        until_nul(head + tail) == until_nul(head),
    decreases head.len(),
{
    if head.len() == 0 {
        assert(head + tail =~= tail);
    } else if head[0] == 0 {
        assert((head + tail)[0] == 0);
    } else {
        assert((head + tail)[0] == head[0]);
        assert((head + tail).drop_first() =~= head.drop_first() + tail);
        lemma_until_nul_stops(head.drop_first(), tail);
    }
}

/// Words made of bytes unpack to those bytes, where the bytes fill whole words.
pub proof fn lemma_bytes_words_bytes(order: ByteOrder, bytes: Seq<u8>)
    requires
        bytes.len() % 4 == 0,
    ensures
        words_to_bytes(order, bytes_to_words(order, bytes)) == bytes,
{
    let words = bytes_to_words(order, bytes);
    let back = words_to_bytes(order, words);
    assert(back.len() == bytes.len());
    assert forall|i: int| 0 <= i < bytes.len() implies back[i] == bytes[i] by {
        let chunk = bytes.subrange(4 * (i / 4), 4 * (i / 4) + 4);
        lemma_bytes_round_trip(order, chunk);
        assert(word_to_bytes(order, words[i / 4]) == chunk);
        assert(chunk[i % 4] == bytes[i]);
    }
    assert(back =~= bytes);
}

/// Bytes made of words pack to those words.
pub proof fn lemma_words_bytes_words(order: ByteOrder, words: Seq<u32>)
    ensures
        words_to_bytes(order, words).len() == 4 * words.len(),
        bytes_to_words(order, words_to_bytes(order, words)) == words,
{
    let bytes = words_to_bytes(order, words);
    let back = bytes_to_words(order, bytes);
    assert(back.len() == words.len());
    assert forall|i: int| 0 <= i < words.len() implies back[i] == words[i] by {
        lemma_word_round_trip(order, words[i]);
        assert(bytes.subrange(4 * i, 4 * i + 4) =~= word_to_bytes(order, words[i])) by {
            assert forall|j: int| 0 <= j < 4 implies bytes.subrange(4 * i, 4 * i + 4)[j]
                == word_to_bytes(order, words[i])[j] by {
                assert((4 * i + j) / 4 == i);
                assert((4 * i + j) % 4 == j);
            }
        }
    }
    assert(back =~= words);
}

/// The bytes of two runs of words, one after the other.
pub proof fn lemma_words_to_bytes_concat(order: ByteOrder, a: Seq<u32>, b: Seq<u32>)
    ensures
        words_to_bytes(order, a + b) == words_to_bytes(order, a) + words_to_bytes(order, b),
{
    let whole = words_to_bytes(order, a + b);
    let parts = words_to_bytes(order, a) + words_to_bytes(order, b);
    assert(whole.len() == parts.len());
    assert forall|i: int| 0 <= i < whole.len() implies whole[i] == parts[i] by {
        if i < 4 * a.len() {
            assert(i / 4 < a.len());
        } else {
            assert((i - 4 * a.len()) / 4 == i / 4 - a.len());
            assert((i - 4 * a.len()) % 4 == i % 4);
        }
    }
    assert(whole =~= parts);
}

} // verus!
