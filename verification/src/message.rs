//! Messages, and the cursor that reads their arguments.

use crate::byte_order::{pack_word, unpack_word, word_from_bytes, ByteOrder};
use crate::frame::{
    read_words, size_is_valid, size_of_args, write_word, write_words, FrameHeader, ReadError,
    HEADER_LEN, MAX_ARGS,
};
use crate::layout::{
    after_field, array_field, bytes_to_words, field_bytes, field_fits, i32_of_word,
    lemma_until_nul_at, nul_free, str_field, until_nul, word_of_i32, words_for, words_to_bytes,
    zeros,
};
use crate::reader::Reader;
use crate::types::{DispatchError, Fixed, NewId};
use vstd::prelude::*;
use vstd::slice::slice_subrange;
use vstd::utf8::{decode_utf8, encode_utf8_decode_utf8, valid_utf8};

verus! {

/// A message over the wire: an action to carry out on an object, with the
/// arguments that the object's interface defines for it.
#[derive(Clone, Debug, PartialEq, Eq)]
pub struct Message {
    /// The object instance that the message refers to.
    pub object: u32,
    /// The event or request to carry out.
    pub opcode: u16,
    /// The untyped arguments to pass to the callee.
    pub args: Vec<u32>,
}

/// What a message is, apart from how it is held in memory.
pub struct MessageView {
    /// The object instance that the message refers to.
    pub object: u32,
    /// The event or request to carry out.
    pub opcode: u16,
    /// The argument words in their order.
    pub args: Seq<u32>,
}

impl View for Message {
    type V = MessageView;

    open spec fn view(&self) -> MessageView {
        MessageView { object: self.object, opcode: self.opcode, args: self.args@ }
    }
}

impl MessageView {
    /// The header written in front of this message.
    pub open spec fn header(self) -> FrameHeader {
        FrameHeader {
            object: self.object,
            opcode: self.opcode,
            size: size_of_args(self.args.len()),
        }
    }

    /// Whether the length of this message in bytes fits the header's field.
    pub open spec fn fits_frame(self) -> bool {
        self.args.len() <= MAX_ARGS
    }

    /// This message with `more` appended to its arguments.
    pub open spec fn with_args(self, more: Seq<u32>) -> MessageView {
        MessageView { object: self.object, opcode: self.opcode, args: self.args + more }
    }

    /// The bytes that this message is sent as.
    pub open spec fn to_bytes(self, order: ByteOrder) -> Seq<u8> {
        self.header().to_bytes(order) + words_to_bytes(order, self.args)
    }
}

/// What reading one message from `input` gives.
pub open spec fn read_result(order: ByteOrder, input: Seq<u8>) -> Result<MessageView, ReadError> {
    if input.len() < 8 {
        Err(ReadError::UnexpectedEof)
    } else {
        let header = FrameHeader::of_bytes(order, input);
        if !size_is_valid(header.size) {
            Err(ReadError::InvalidData)
        } else if input.len() < header.size {
            Err(ReadError::UnexpectedEof)
        } else {
            Ok(
                MessageView {
                    object: header.object,
                    opcode: header.opcode,
                    args: bytes_to_words(order, input.subrange(8, header.size as int)),
                },
            )
        }
    }
}

/// What reading one message from `input` leaves unread. A message that was
/// read leaves what follows it; a header that was refused leaves what follows
/// the header, the body untouched; a source that ended early is left empty.
pub open spec fn read_rest(order: ByteOrder, input: Seq<u8>) -> Seq<u8> {
    if input.len() < 8 {
        Seq::empty()
    } else {
        let header = FrameHeader::of_bytes(order, input);
        if !size_is_valid(header.size) {
            input.skip(8)
        } else if input.len() < header.size {
            Seq::empty()
        } else {
            input.skip(header.size as int)
        }
    }
}

impl Message {
    /// Decodes the next message from `reader`.
    ///
    /// Fails with `UnexpectedEof` where the source ends before the header or
    /// the declared length does, and the source is then drained. Fails with
    /// `InvalidData` where the declared length is below the length of a
    /// header or is no whole number of words; the header is then consumed and
    /// nothing behind it.
    pub fn read(reader: &mut Reader, order: ByteOrder) -> (message: Result<Message, ReadError>)
        ensures
            match message {
                Ok(m) => read_result(order, old(reader)@) == Ok::<MessageView, ReadError>(m@),
                Err(e) => read_result(order, old(reader)@) == Err::<MessageView, ReadError>(e),
            },
            final(reader)@ == read_rest(order, old(reader)@),
    {
        let head = match reader.take(HEADER_LEN) {
            Some(head) => head,
            None => {
                return Err(ReadError::UnexpectedEof);
            },
        };
        proof {
            assert(head@.subrange(0, 4) =~= old(reader)@.subrange(0, 4));
            assert(head@.subrange(4, 8) =~= old(reader)@.subrange(4, 8));
        }
        let header = match FrameHeader::parse(head, order) {
            Ok(header) => header,
            Err(e) => {
                return Err(e);
            },
        };
        let body = match reader.take(header.body_len()) {
            Some(body) => body,
            None => {
                return Err(ReadError::UnexpectedEof);
            },
        };
        proof {
            assert(body@ =~= old(reader)@.subrange(8, header.size as int));
            assert(reader@ =~= old(reader)@.skip(header.size as int));
        }
        Ok(Message { object: header.object, opcode: header.opcode, args: read_words(body, order) })
    }

    /// Encodes the message and appends its bytes to `writer`.
    ///
    /// The header's length field has sixteen bits. The length of a message of
    /// more than `MAX_ARGS` argument words does not fit, and is written cut
    /// to those bits.
    pub fn send(self, writer: &mut Vec<u8>, order: ByteOrder)
        ensures
            final(writer)@ == old(writer)@ + self@.to_bytes(order),
    {
        let count = self.args.len();
        let size: u16 = ((8u128 + 4u128 * (count as u128)) % 65536u128) as u16;
        let info: u32 = (size as u32) * 65536 + (self.opcode as u32);
        write_word(writer, self.object, order);
        write_word(writer, info, order);
        write_words(writer, self.args.as_slice(), order);
        assert(writer@ =~= old(writer)@ + self@.to_bytes(order));
    }

    /// A cursor over the arguments, placed before the first of them.
    pub fn args<'a>(&'a self) -> (cursor: Args<'a>)
        ensures
            cursor@ == self.args@,
    {
        Args { args: self.args.as_slice() }
    }

    /// Appends an unsigned integer to the arguments.
    pub fn push_u32(&mut self, value: u32)
        ensures
            final(self)@ == old(self)@.with_args(seq![value]),
    {
        self.args.push(value);
        assert(self@.args =~= old(self)@.args + seq![value]);
    }

    /// Appends a signed integer to the arguments, as the word of the same
    /// bit pattern.
    pub fn push_i32(&mut self, value: i32)
        ensures
            final(self)@ == old(self)@.with_args(seq![word_of_i32(value)]),
    {
        self.args.push(to_word(value));
        assert(self@.args =~= old(self)@.args + seq![word_of_i32(value)]);
    }

    /// Appends a fixed-point number to the arguments, as the word of the same
    /// bit pattern as its raw representation.
    pub fn push_fixed(&mut self, fixed: Fixed)
        ensures
            final(self)@ == old(self)@.with_args(seq![word_of_i32(fixed.0)]),
    {
        self.args.push(to_word(fixed.0));
        assert(self@.args =~= old(self)@.args + seq![word_of_i32(fixed.0)]);
    }

    /// Appends a string to the arguments and terminates it with a zero byte.
    ///
    /// The declared length counts the terminator, so the content has to be
    /// shorter than the largest length that a word can declare.
    pub fn push_str(&mut self, text: &[u8], order: ByteOrder)
        requires
            text@.len() < u32::MAX,
        ensures
            final(self)@ == old(self)@.with_args(str_field(order, text@)),
    {
        let n = text.len();
        let count = n / 4 + 1;
        self.args.push(n as u32 + 1);
        append_padded(&mut self.args, text, count, order);
        proof {
            let declared = (n + 1) as u32;
            let packed = bytes_to_words(order, text@ + zeros((4 * count - n) as nat));
            assert(4 * count - n == 4 - n % 4);
            assert(self.args@ == old(self).args@.push(declared) + packed);
            assert(str_field(order, text@) == seq![declared] + packed);
            assert(old(self).args@.push(declared) + packed =~= old(self).args@ + (seq![declared]
                + packed));
        }
    }

    /// Appends an array of bytes to the arguments, filled up with zero bytes
    /// to a whole number of words.
    ///
    /// The length word declares the exact number of content bytes and holds
    /// nothing else, no flag bits: the array reader takes the whole word for
    /// the length, and gets back what was pushed only if it is that.
    pub fn push_bytes(&mut self, bytes: &[u8], order: ByteOrder)
        requires
            bytes@.len() <= u32::MAX,
        ensures
            final(self)@ == old(self)@.with_args(array_field(order, bytes@)),
    {
        let n = bytes.len();
        let count = if n % 4 != 0 {
            n / 4 + 1
        } else {
            n / 4
        };
        assert(count == words_for(n as nat));
        self.args.push(n as u32);
        append_padded(&mut self.args, bytes, count, order);
        proof {
            let packed = bytes_to_words(order, bytes@ + zeros((4 * count - n) as nat));
            assert(self.args@ == old(self).args@.push(n as u32) + packed);
            assert(array_field(order, bytes@) == seq![n as u32] + packed);
            assert(old(self).args@.push(n as u32) + packed =~= old(self).args@ + (seq![n as u32]
                + packed));
        }
    }
}

/// The word made of the four bytes of `bytes` from position `at` on, with
/// zero bytes standing in for those beyond the end.
fn pack_at(bytes: &[u8], at: usize, order: ByteOrder) -> (word: u32)
    requires
        at <= bytes@.len(),
    ensures
        word == word_from_bytes(order, (bytes@ + zeros(4)).subrange(at as int, at + 4)),
{
    let left = bytes.len() - at;
    let b0: u8 = if left > 0 {
        bytes[at]
    } else {
        0
    };
    let b1: u8 = if left > 1 {
        bytes[at + 1]
    } else {
        0
    };
    let b2: u8 = if left > 2 {
        bytes[at + 2]
    } else {
        0
    };
    let b3: u8 = if left > 3 {
        bytes[at + 3]
    } else {
        0
    };
    assert((bytes@ + zeros(4)).subrange(at as int, at + 4) =~= seq![b0, b1, b2, b3]);
    pack_word(order, b0, b1, b2, b3)
}

/// Appends to `words` the `count` words that hold `bytes` and the zero bytes
/// that fill the last of them.
fn append_padded(words: &mut Vec<u32>, bytes: &[u8], count: usize, order: ByteOrder)
    requires
        bytes@.len() <= 4 * count <= bytes@.len() + 4,
    ensures
        final(words)@ == old(words)@ + bytes_to_words(
            order,
            bytes@ + zeros((4 * count - bytes@.len()) as nat),
        ),
{
    let n = bytes.len();
    let ghost padded = bytes@ + zeros((4 * count - n) as nat);
    let ghost packed = bytes_to_words(order, padded);
    let mut k: usize = 0;
    while k < count
        invariant
            k <= count,
            n == bytes@.len(),
            n <= 4 * count <= n + 4,
            padded == bytes@ + zeros((4 * count - n) as nat),
            packed == bytes_to_words(order, padded),
            words@ == old(words)@ + packed.take(k as int),
        decreases count - k,
    {
        let word = pack_at(bytes, 4 * k, order);
        proof {
            assert(padded.subrange(4 * k, 4 * k + 4) =~= (bytes@ + zeros(4)).subrange(
                4 * k,
                4 * k + 4,
            ));
            assert(word == packed[k as int]);
        }
        words.push(word);
        assert(words@ =~= old(words)@ + packed.take(k + 1));
        k += 1;
    }
    assert(packed.take(count as int) =~= packed);
}

/// A cursor over the argument words of a message. Each read consumes words
/// from the front.
///
/// Its view is the words that are left.
pub struct Args<'a> {
    args: &'a [u32],
}

impl<'a> View for Args<'a> {
    type V = Seq<u32>;

    closed spec fn view(&self) -> Seq<u32> {
        self.args@
    }
}

/// The word of the same bit pattern as `value`.
fn to_word(value: i32) -> (word: u32)
    ensures
        word == word_of_i32(value),
{
    if value >= 0 {
        value as u32
    } else {
        ((value - i32::MIN) as u32) + 0x8000_0000
    }
}

/// The signed integer of the same bit pattern as `word`.
fn to_signed(word: u32) -> (value: i32)
    ensures
        value == i32_of_word(word),
{
    if word < 0x8000_0000 {
        word as i32
    } else {
        ((word - 0x8000_0000) as i32) + i32::MIN
    }
}

/// The number of words that hold `len` bytes.
fn word_count(len: u32) -> (count: usize)
    ensures
        count == words_for(len as nat),
{
    let whole = (len / 4) as usize;
    if len % 4 != 0 {
        whole + 1
    } else {
        whole
    }
}

/// The byte at position `i` of the bytes of `words`.
fn byte_at(words: &[u32], i: usize, order: ByteOrder) -> (byte: u8)
    requires
        i < 4 * words@.len(),
    ensures
        byte == words_to_bytes(order, words@)[i as int],
{
    let bytes = unpack_word(order, words[i / 4]);
    bytes[i % 4]
}

impl<'a> Args<'a> {
    /// Takes the next argument as an unsigned integer.
    pub fn next_u32(&mut self) -> (next: Option<u32>)
        ensures
            old(self)@.len() == 0 ==> next.is_none() && final(self)@ == old(self)@,
            old(self)@.len() > 0 ==> next == Some(old(self)@[0])
                && final(self)@ == old(self)@.skip(1),
    {
        let len = self.args.len();
        if len == 0 {
            None
        } else {
            let word = self.args[0];
            self.args = slice_subrange(self.args, 1, len);
            assert(self.args@ =~= old(self)@.skip(1));
            Some(word)
        }
    }

    /// Takes the next argument as a signed integer: the word's bit pattern
    /// read as two's complement.
    pub fn next_i32(&mut self) -> (next: Option<i32>)
        ensures
            old(self)@.len() == 0 ==> next.is_none() && final(self)@ == old(self)@,
            old(self)@.len() > 0 ==> next == Some(i32_of_word(old(self)@[0])) && final(self)@
                == old(self)@.skip(1),
    {
        match self.next_u32() {
            Some(word) => Some(to_signed(word)),
            None => None,
        }
    }

    /// Takes the next argument as a fixed-point number whose raw
    /// representation is the word's bit pattern.
    pub fn next_fixed(&mut self) -> (next: Option<Fixed>)
        ensures
            old(self)@.len() == 0 ==> next.is_none() && final(self)@ == old(self)@,
            old(self)@.len() > 0 ==> next == Some(Fixed(i32_of_word(old(self)@[0])))
                && final(self)@ == old(self)@.skip(1),
    {
        match self.next_i32() {
            Some(raw) => Some(Fixed(raw)),
            None => None,
        }
    }

    /// Takes the next argument as a byte string: the declared bytes up to,
    /// and without, the first zero byte among them.
    ///
    /// Nothing is handed out where no length word is left, or where the words
    /// behind it cannot hold the declared length; the length word is consumed
    /// all the same.
    pub fn next_str(&mut self, order: ByteOrder) -> (next: Option<Vec<u8>>)
        ensures
            next.is_some() <==> field_fits(old(self)@),
            next matches Some(bytes) ==> bytes@ == until_nul(field_bytes(order, old(self)@)),
            final(self)@ == after_field(old(self)@),
    {
        let len = match self.next_u32() {
            Some(len) => len,
            None => {
                return None;
            },
        };
        let count = word_count(len);
        let words: &[u32] = self.args;
        if count > words.len() {
            return None;
        }
        let n = len as usize;
        let ghost declared = field_bytes(order, old(self)@);
        proof {
            assert(old(self)@.subrange(1, 1 + count) =~= words@.take(count as int));
        }
        let mut out: Vec<u8> = Vec::new();
        let mut i: usize = 0;
        let mut done = false;
        while i < n && !done
            invariant
                i <= n,
                n <= 4 * count,
                count <= words@.len(),
                declared == words_to_bytes(order, words@.take(count as int)).take(n as int),
                out@ == declared.take(i as int),
                nul_free(declared.take(i as int)),
                done ==> i < n && declared[i as int] == 0,
            decreases n - i + (if done { 0int } else { 1int }),
        {
            let byte = byte_at(words, i, order);
            assert(byte == declared[i as int]);
            if byte == 0 {
                done = true;
            } else {
                out.push(byte);
                assert(out@ =~= declared.take(i + 1));
                i += 1;
            }
        }
        proof {
            lemma_until_nul_at(declared, i as int);
        }
        self.args = slice_subrange(words, count, words.len());
        assert(self.args@ =~= old(self)@.skip(1 + count));
        Some(out)
    }

    /// Takes the next argument as an array of bytes: all the declared bytes,
    /// zero bytes among them too.
    ///
    /// Nothing is handed out where no length word is left, or where the words
    /// behind it cannot hold the declared length; the length word is consumed
    /// all the same.
    pub fn next_array(&mut self, order: ByteOrder) -> (next: Option<Vec<u8>>)
        ensures
            next.is_some() <==> field_fits(old(self)@),
            next matches Some(bytes) ==> bytes@ == field_bytes(order, old(self)@),
            final(self)@ == after_field(old(self)@),
    {
        let len = match self.next_u32() {
            Some(len) => len,
            None => {
                return None;
            },
        };
        let count = word_count(len);
        let words: &[u32] = self.args;
        if count > words.len() {
            return None;
        }
        let n = len as usize;
        let ghost declared = field_bytes(order, old(self)@);
        proof {
            assert(old(self)@.subrange(1, 1 + count) =~= words@.take(count as int));
        }
        let mut out: Vec<u8> = Vec::new();
        let mut i: usize = 0;
        while i < n
            invariant
                i <= n,
                n <= 4 * count,
                count <= words@.len(),
                declared == words_to_bytes(order, words@.take(count as int)).take(n as int),
                out@ == declared.take(i as int),
            decreases n - i,
        {
            let byte = byte_at(words, i, order);
            out.push(byte);
            assert(out@ =~= declared.take(i + 1));
            i += 1;
        }
        assert(out@ =~= declared);
        self.args = slice_subrange(words, count, words.len());
        assert(self.args@ =~= old(self)@.skip(1 + count));
        Some(out)
    }

    /// Takes the next arguments as the description of a new object whose
    /// interface is not known beforehand: the interface's name as a string,
    /// then its version, then the new object's id.
    ///
    /// Each part that is missing is reported by its name. A name that is not
    /// UTF-8 is reported once the string has been consumed, and the version
    /// and the id are then left unread.
    pub fn next_new_id(&mut self, order: ByteOrder) -> (next: Result<NewId, DispatchError>)
        ensures
            ({
                let words = old(self)@;
                let name = until_nul(field_bytes(order, words));
                let behind = after_field(words);
                &&& !field_fits(words) ==> {
                    &&& next matches Err(DispatchError::ExpectedArgument(what))
                    &&& what@ == "new_id interface"@
                    &&& final(self)@ == behind
                }
                &&& field_fits(words) && !valid_utf8(name) ==> {
                    &&& next matches Err(DispatchError::Utf8Error(_, what))
                    &&& what@ == "Interface name for a generic new_id"@
                    &&& final(self)@ == behind
                }
                &&& field_fits(words) && valid_utf8(name) && behind.len() == 0 ==> {
                    &&& next matches Err(DispatchError::ExpectedArgument(what))
                    &&& what@ == "new_id version"@
                    &&& final(self)@ == behind
                }
                &&& field_fits(words) && valid_utf8(name) && behind.len() == 1 ==> {
                    &&& next matches Err(DispatchError::ExpectedArgument(what))
                    &&& what@ == "new_id id"@
                    &&& final(self)@ == behind.skip(1)
                }
                &&& field_fits(words) && valid_utf8(name) && behind.len() >= 2 ==> {
                    &&& next matches Ok(new_id)
                    &&& new_id.interface@ == decode_utf8(name)
                    &&& new_id.version == behind[0]
                    &&& new_id.id == behind[1]
                    &&& final(self)@ == behind.skip(2)
                }
            }),
    {
        let name = match self.next_str(order) {
            Some(name) => name,
            None => {
                return Err(DispatchError::ExpectedArgument("new_id interface"));
            },
        };
        let interface = match core::str::from_utf8(name.as_slice()) {
            Ok(text) => {
                proof {
                    encode_utf8_decode_utf8(text@);
                }
                text.to_owned()
            },
            Err(e) => {
                return Err(DispatchError::Utf8Error(e, "Interface name for a generic new_id"));
            },
        };
        let version = match self.next_u32() {
            Some(version) => version,
            None => {
                return Err(DispatchError::ExpectedArgument("new_id version"));
            },
        };
        let id = match self.next_u32() {
            Some(id) => id,
            None => {
                return Err(DispatchError::ExpectedArgument("new_id id"));
            },
        };
        Ok(NewId { interface, version, id })
    }

    /// File descriptors do not travel in a message's words, so none can be
    /// taken from them: this always fails, and consumes nothing.
    pub fn next_fd(&mut self) -> (next: Result<i32, DispatchError>)
        ensures
            next matches Err(DispatchError::Unsupported(what)) && what@ == "file descriptor"@,
            final(self)@ == old(self)@,
    {
        Err(DispatchError::Unsupported("file descriptor"))
    }
}

} // verus!
