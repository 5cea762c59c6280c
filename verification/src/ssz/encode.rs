//! Encoding: values to bytes.

use super::little_endian::le_bytes;
use vstd::prelude::*;

verus! {

/// The number of bytes that announce the length of a variable-length item.
pub const LENGTH_BYTES: usize = 4;

/// A value with a canonical byte encoding.
///
/// A fixed-width integer is its bytes, least significant first. A record is its fields, one
/// after the other in the order of the schema, with nothing in between.
pub trait Encodable {
    /// The canonical encoding of `self`.
    spec fn ssz_bytes(&self) -> Seq<u8>;

    /// Appends the encoding of `self` to `s`.
    fn ssz_append(&self, s: &mut SszStream)
        ensures
            final(s)@ == old(s)@ + self.ssz_bytes(),
    ;
}

/// The encodings of `items`, one after the other, with nothing in between.
pub open spec fn concat_bytes<E: Encodable>(items: Seq<E>) -> Seq<u8>
    decreases items.len(),
{
    if items.len() == 0 {
        Seq::empty()
    } else {
        items[0].ssz_bytes() + concat_bytes(items.drop_first())
    }
}

/// `payload` behind the four bytes that give its length, least significant first.
pub open spec fn length_prefixed(payload: Seq<u8>) -> Seq<u8> {
    le_bytes(payload.len(), LENGTH_BYTES as nat) + payload
}

/// The encoding of a list: the encodings of its items behind their total length.
pub open spec fn list_bytes<E: Encodable>(items: Seq<E>) -> Seq<u8> {
    length_prefixed(concat_bytes(items))
}

/// Items that take `width` bytes each take `width` bytes for each of them.
pub proof fn lemma_concat_bytes_len<E: Encodable>(items: Seq<E>, width: nat)
    requires
        forall|i: int| 0 <= i < items.len() ==> (#[trigger] items[i]).ssz_bytes().len() == width,
    ensures
        concat_bytes(items).len() == items.len() * width,
    decreases items.len(),
{
    if items.len() > 0 {
        let rest = items.drop_first();
        assert forall|i: int| 0 <= i < rest.len() implies (#[trigger] rest[i]).ssz_bytes().len()
            == width by {
            assert(rest[i] == items[i + 1]);
        }
        lemma_concat_bytes_len(rest, width);
        assert(width + rest.len() * width == items.len() * width) by (nonlinear_arith)
            requires
                items.len() == rest.len() + 1,
        ;
    }
}

/// Bytes encode to themselves, one item each.
pub proof fn lemma_concat_bytes_of_bytes(bytes: Seq<u8>)
    ensures
        concat_bytes(bytes) == bytes,
    decreases bytes.len(),
{
    if bytes.len() > 0 {
        assert(le_bytes(bytes[0] as nat, 1) == seq![bytes[0]]) by {
            reveal_with_fuel(le_bytes, 2);
        }
        lemma_concat_bytes_of_bytes(bytes.drop_first());
        assert(seq![bytes[0]] + bytes.drop_first() == bytes);
    } else {
        assert(bytes == Seq::<u8>::empty());
    }
}

/// A buffer that encodings are appended to.
pub struct SszStream {
    buffer: Vec<u8>,
}

impl View for SszStream {
    type V = Seq<u8>;

    /// The bytes appended so far.
    closed spec fn view(&self) -> Seq<u8> {
        self.buffer@
    }
}

impl SszStream {
    /// Create a new, empty stream for writing SSZ values.
    pub fn new() -> (s: Self)
        ensures
            s@ == Seq::<u8>::empty(),
    {
        SszStream { buffer: Vec::new() }
    }

    /// Append some SSZ encodable value to the stream.
    pub fn append<E: Encodable>(&mut self, value: &E)
        ensures
            final(self)@ == old(self)@ + value.ssz_bytes(),
    {
        value.ssz_append(self);
    }

    /// Appends the `width` low bytes of `value`, least significant first.
    fn append_le(&mut self, value: u64, width: usize)
        ensures
            final(self)@ == old(self)@ + le_bytes(value as nat, width as nat),
    {
        let ghost start = self.buffer@;
        let mut rest: u64 = value;
        let mut written: usize = 0;
        while written < width
            invariant
                written <= width,
                self.buffer@ + le_bytes(rest as nat, (width - written) as nat) == start + le_bytes(
                    value as nat,
                    width as nat,
                ),
            decreases width - written,
        {
            let ghost before = self.buffer@;
            let ghost tail = le_bytes((rest / 256) as nat, (width - written - 1) as nat);
            assert(before.push((rest % 256) as u8) + tail == before + le_bytes(
                rest as nat,
                (width - written) as nat,
            ));
            self.buffer.push((rest % 256) as u8);
            rest = rest / 256;
            written = written + 1;
        }
    }

    /// Append some bytes to the stream as they are, without a length prefix.
    pub fn append_encoded_raw(&mut self, bytes: &[u8])
        ensures
            final(self)@ == old(self)@ + bytes@,
    {
        let ghost start = self.buffer@;
        let mut copied: usize = 0;
        while copied < bytes.len()
            invariant
                copied <= bytes@.len(),
                self.buffer@ == start + bytes@.take(copied as int),
            decreases bytes@.len() - copied,
        {
            self.buffer.push(bytes[copied]);
            copied = copied + 1;
        }
    }

    /// Append some bytes to the stream behind their length prefix. There may be no more of
    /// them than the prefix can announce.
    pub fn append_encoded_val(&mut self, bytes: &[u8])
        requires
            bytes@.len() <= u32::MAX,
        ensures
            final(self)@ == old(self)@ + length_prefixed(bytes@),
    {
        self.append_le(bytes.len() as u64, LENGTH_BYTES);
        self.append_encoded_raw(bytes);
    }

    /// Append some list of encodable values to the stream: their encodings behind their
    /// total length, which may be no more than the prefix can announce.
    pub fn append_vec<E: Encodable>(&mut self, items: &[E])
        requires
            concat_bytes(items@).len() <= u32::MAX,
        ensures
            final(self)@ == old(self)@ + list_bytes(items@),
    {
        let mut list_stream = SszStream::new();
        let mut done: usize = 0;
        assert(items@.skip(0) == items@);
        while done < items.len()
            invariant
                done <= items@.len(),
                list_stream@ + concat_bytes(items@.skip(done as int)) == concat_bytes(items@),
            decreases items@.len() - done,
        {
            let ghost before = list_stream@;
            let ghost pending = items@.skip(done as int);
            assert(pending.drop_first() == items@.skip(done + 1));
            assert(before + items@[done as int].ssz_bytes() + concat_bytes(pending.drop_first())
                == before + concat_bytes(pending));
            items[done].ssz_append(&mut list_stream);
            done = done + 1;
        }
        assert(items@.skip(done as int) == Seq::<E>::empty());
        self.append_encoded_val(list_stream.buffer.as_slice());
    }

    /// Consume the stream and return the underlying bytes.
    pub fn drain(self) -> (bytes: Vec<u8>)
        ensures
            bytes@ == self@,
    {
        self.buffer
    }
}

/// Convenience function to SSZ encode an object supporting `Encodable`.
pub fn ssz_encode<T: Encodable>(value: &T) -> (bytes: Vec<u8>)
    ensures
        bytes@ == value.ssz_bytes(),
{
    let mut stream = SszStream::new();
    stream.append(value);
    stream.drain()
}

impl Encodable for u8 {
    open spec fn ssz_bytes(&self) -> Seq<u8> {
        le_bytes(*self as nat, 1)
    }

    fn ssz_append(&self, s: &mut SszStream) {
        s.append_le(*self as u64, 1);
    }
}

impl Encodable for u16 {
    open spec fn ssz_bytes(&self) -> Seq<u8> {
        le_bytes(*self as nat, 2)
    }

    fn ssz_append(&self, s: &mut SszStream) {
        s.append_le(*self as u64, 2);
    }
}

impl Encodable for u32 {
    open spec fn ssz_bytes(&self) -> Seq<u8> {
        le_bytes(*self as nat, 4)
    }

    fn ssz_append(&self, s: &mut SszStream) {
        s.append_le(*self as u64, 4);
    }
}

impl Encodable for u64 {
    open spec fn ssz_bytes(&self) -> Seq<u8> {
        le_bytes(*self as nat, 8)
    }

    fn ssz_append(&self, s: &mut SszStream) {
        s.append_le(*self, 8);
    }
}

} // verus!
