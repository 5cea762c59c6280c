//! Decoding: bytes to values.

use super::encode::LENGTH_BYTES;
use super::little_endian::{
    le_value, lemma_le_value_bound, lemma_pow256_monotonic, lemma_pow256_values, pow256,
};
use vstd::prelude::*;
use vstd::slice::slice_subrange;

verus! {

/// Why a decoder gave up.
#[derive(Debug, Clone, Copy, PartialEq, Eq, Structural)]
pub enum DecodeError {
    /// The bytes ended before the item did.
    TooShort,
    /// The bytes are all there, but they are not an item of the type asked for.
    Invalid,
}

/// What a decoder handed back, in terms of the model: the value by its view, the offset as a
/// number.
pub open spec fn decoded<T: View>(outcome: Result<(T, usize), DecodeError>) -> Result<
    (T::V, int),
    DecodeError,
> {
    match outcome {
        Ok((value, next)) => Ok((value@, next as int)),
        Err(error) => Err(error),
    }
}

/// A value that can be read from its canonical encoding.
///
/// A decoder is a function of the bytes and of the offset at which it starts. It hands back
/// the offset of the first byte that it did not consume, so that the next decoder can go on
/// from there.
pub trait Decodable: Sized + View {
    /// The least number of bytes that an encoding of this type takes.
    spec fn ssz_min_len() -> nat;

    /// What decoding `bytes` from offset `index` yields: the value and the offset behind it,
    /// or the reason why there is none.
    spec fn ssz_parse(bytes: Seq<u8>, index: int) -> Result<(Self::V, int), DecodeError>;

    /// An item takes at least one byte, and a decoder that succeeds has consumed at least the
    /// minimum and has not read beyond the end of `bytes`.
    proof fn lemma_parse_consumes(bytes: Seq<u8>, index: int)
        requires
            0 <= index,
        ensures
            Self::ssz_min_len() > 0,
            Self::ssz_parse(bytes, index) matches Ok((_, next)) ==> index + Self::ssz_min_len()
                <= next <= bytes.len(),
    ;

    /// Where fewer bytes are left than the least encoding takes, the decoder reports
    /// `TooShort`.
    proof fn lemma_parse_too_short(bytes: Seq<u8>, index: int)
        requires
            0 <= index,
            bytes.len() < index + Self::ssz_min_len(),
        ensures
            Self::ssz_parse(bytes, index) == Err::<(Self::V, int), _>(DecodeError::TooShort),
    ;

    /// Decodes one item of `bytes` from offset `index`.
    fn ssz_decode(bytes: &[u8], index: usize) -> (outcome: Result<(Self, usize), DecodeError>)
        ensures
            decoded(outcome) == Self::ssz_parse(bytes@, index as int),
    ;
}

/// What reading a little-endian number of `width` bytes from offset `index` yields.
pub open spec fn parse_le(bytes: Seq<u8>, index: int, width: nat) -> Result<
    (nat, int),
    DecodeError,
> {
    if index + width <= bytes.len() {
        Ok((le_value(bytes.subrange(index, index + width)), index + width))
    } else {
        Err(DecodeError::TooShort)
    }
}

/// Reads a little-endian number of `width` bytes from offset `index`.
fn read_le(bytes: &[u8], index: usize, width: usize) -> (outcome: Result<
    (u64, usize),
    DecodeError,
>)
    requires
        width <= 8,
    ensures
        match outcome {
            Ok((value, next)) => value < pow256(width as nat) && parse_le(
                bytes@,
                index as int,
                width as nat,
            ) == Ok::<_, DecodeError>((value as nat, next as int)),
            Err(error) => parse_le(bytes@, index as int, width as nat) == Err::<(nat, int), _>(
                error,
            ),
        },
{
    if index > bytes.len() || bytes.len() - index < width {
        return Err(DecodeError::TooShort);
    }
    let end = index + width;
    let mut value: u64 = 0;
    let mut at: usize = end;
    while at > index
        invariant
            index <= at <= end,
            end == index + width,
            end <= bytes@.len(),
            width <= 8,
            value == le_value(bytes@.subrange(at as int, end as int)),
        decreases at - index,
    {
        let ghost read = bytes@.subrange(at as int, end as int);
        let ghost more = bytes@.subrange(at - 1, end as int);
        proof {
            assert(more.drop_first() == read);
            lemma_le_value_bound(more);
            lemma_pow256_values();
            lemma_pow256_monotonic(more.len(), 8);
        }
        at = at - 1;
        value = value * 256 + bytes[at] as u64;
    }
    proof {
        lemma_le_value_bound(bytes@.subrange(index as int, end as int));
    }
    Ok((value, end))
}

impl Decodable for u8 {
    open spec fn ssz_min_len() -> nat {
        1
    }

    open spec fn ssz_parse(bytes: Seq<u8>, index: int) -> Result<(u8, int), DecodeError> {
        match parse_le(bytes, index, 1) {
            Ok((value, next)) => Ok((value as u8, next)),
            Err(error) => Err(error),
        }
    }

    proof fn lemma_parse_consumes(bytes: Seq<u8>, index: int) {
    }

    proof fn lemma_parse_too_short(bytes: Seq<u8>, index: int) {
    }

    fn ssz_decode(bytes: &[u8], index: usize) -> (outcome: Result<(Self, usize), DecodeError>) {
        proof {
            lemma_pow256_values();
        }
        match read_le(bytes, index, 1) {
            Ok((value, next)) => Ok((value as u8, next)),
            Err(error) => Err(error),
        }
    }
}

impl Decodable for u16 {
    open spec fn ssz_min_len() -> nat {
        2
    }

    open spec fn ssz_parse(bytes: Seq<u8>, index: int) -> Result<(u16, int), DecodeError> {
        match parse_le(bytes, index, 2) {
            Ok((value, next)) => Ok((value as u16, next)),
            Err(error) => Err(error),
        }
    }

    proof fn lemma_parse_consumes(bytes: Seq<u8>, index: int) {
    }

    proof fn lemma_parse_too_short(bytes: Seq<u8>, index: int) {
    }

    fn ssz_decode(bytes: &[u8], index: usize) -> (outcome: Result<(Self, usize), DecodeError>) {
        proof {
            lemma_pow256_values();
        }
        match read_le(bytes, index, 2) {
            Ok((value, next)) => Ok((value as u16, next)),
            Err(error) => Err(error),
        }
    }
}

impl Decodable for u32 {
    open spec fn ssz_min_len() -> nat {
        4
    }

    open spec fn ssz_parse(bytes: Seq<u8>, index: int) -> Result<(u32, int), DecodeError> {
        match parse_le(bytes, index, 4) {
            Ok((value, next)) => Ok((value as u32, next)),
            Err(error) => Err(error),
        }
    }

    proof fn lemma_parse_consumes(bytes: Seq<u8>, index: int) {
    }

    proof fn lemma_parse_too_short(bytes: Seq<u8>, index: int) {
    }

    fn ssz_decode(bytes: &[u8], index: usize) -> (outcome: Result<(Self, usize), DecodeError>) {
        proof {
            lemma_pow256_values();
        }
        match read_le(bytes, index, 4) {
            Ok((value, next)) => Ok((value as u32, next)),
            Err(error) => Err(error),
        }
    }
}

impl Decodable for u64 {
    open spec fn ssz_min_len() -> nat {
        8
    }

    open spec fn ssz_parse(bytes: Seq<u8>, index: int) -> Result<(u64, int), DecodeError> {
        match parse_le(bytes, index, 8) {
            Ok((value, next)) => Ok((value as u64, next)),
            Err(error) => Err(error),
        }
    }

    proof fn lemma_parse_consumes(bytes: Seq<u8>, index: int) {
    }

    proof fn lemma_parse_too_short(bytes: Seq<u8>, index: int) {
    }

    fn ssz_decode(bytes: &[u8], index: usize) -> (outcome: Result<(Self, usize), DecodeError>) {
        read_le(bytes, index, 8)
    }
}

/// Decodes one item of `bytes` from offset `index`. An offset at the end of `bytes` or
/// beyond it is `TooShort`.
pub fn decode_ssz<T: Decodable>(bytes: &[u8], index: usize) -> (outcome: Result<
    (T, usize),
    DecodeError,
>)
    ensures
        decoded(outcome) == T::ssz_parse(bytes@, index as int),
{
    if index >= bytes.len() {
        proof {
            T::lemma_parse_consumes(bytes@, index as int);
            T::lemma_parse_too_short(bytes@, index as int);
        }
        return Err(DecodeError::TooShort);
    }
    T::ssz_decode(bytes, index)
}

/// The views of `items`, in their order.
pub open spec fn views<T: View>(items: Seq<T>) -> Seq<T::V> {
    items.map_values(|item: T| item@)
}

/// `done` in front of what `rest` holds, or the error of `rest`.
pub open spec fn prepend<V>(done: Seq<V>, rest: Result<Seq<V>, DecodeError>) -> Result<
    Seq<V>,
    DecodeError,
> {
    match rest {
        Ok(items) => Ok(done + items),
        Err(error) => Err(error),
    }
}

/// What decoding item after item yields, from offset `index` up to the end of `window`: the
/// items, or the error of the first one that fails.
pub open spec fn parse_items<T: Decodable>(window: Seq<u8>, index: int) -> Result<
    Seq<T::V>,
    DecodeError,
>
    decreases window.len() - index,
{
    if index < 0 || index >= window.len() {
        Ok(Seq::empty())
    } else {
        proof {
            T::lemma_parse_consumes(window, index);
        }
        match T::ssz_parse(window, index) {
            Ok((item, next)) => prepend(seq![item], parse_items::<T>(window, next)),
            Err(error) => Err(error),
        }
    }
}

/// What decoding a list from offset `index` yields. The four bytes at `index` give the
/// number of bytes that the items take. The items are decoded from those bytes and no
/// others: an item that would reach beyond them is `TooShort`.
pub open spec fn parse_list<T: Decodable>(bytes: Seq<u8>, index: int) -> Result<
    (Seq<T::V>, int),
    DecodeError,
> {
    match parse_le(bytes, index, LENGTH_BYTES as nat) {
        Err(error) => Err(error),
        Ok((length, start)) => if bytes.len() < start + length {
            Err(DecodeError::TooShort)
        } else {
            match parse_items::<T>(bytes.subrange(0, start + length), start) {
                Ok(items) => Ok((items, start + length)),
                Err(error) => Err(error),
            }
        },
    }
}

/// What a list decoder handed back, in terms of the model.
pub open spec fn decoded_list<T: View>(outcome: Result<(Vec<T>, usize), DecodeError>) -> Result<
    (Seq<T::V>, int),
    DecodeError,
> {
    match outcome {
        Ok((items, next)) => Ok((views(items@), next as int)),
        Err(error) => Err(error),
    }
}

/// Decodes a list of `bytes` from offset `index`: its length prefix, then item after item
/// until the bytes that the prefix announced are used up.
pub fn decode_ssz_list<T: Decodable>(bytes: &[u8], index: usize) -> (outcome: Result<
    (Vec<T>, usize),
    DecodeError,
>)
    ensures
        decoded_list(outcome) == parse_list::<T>(bytes@, index as int),
{
    let (length, start) = match read_le(bytes, index, LENGTH_BYTES) {
        Ok(prefix) => prefix,
        Err(error) => { return Err(error); },
    };
    if length > (bytes.len() - start) as u64 {
        return Err(DecodeError::TooShort);
    }
    let end: usize = start + length as usize;
    let window = slice_subrange(bytes, 0, end);
    let mut items: Vec<T> = Vec::new();
    let mut at: usize = start;
    assert(views(items@) == Seq::<T::V>::empty());
    while at < end
        invariant
            start <= at <= end,
            end == start + length,
            end <= bytes@.len(),
            window@ == bytes@.subrange(0, end as int),
            parse_le(bytes@, index as int, LENGTH_BYTES as nat) == Ok::<_, DecodeError>(
                (length as nat, start as int),
            ),
            parse_items::<T>(window@, start as int) == prepend(
                views(items@),
                parse_items::<T>(window@, at as int),
            ),
        decreases end - at,
    {
        proof {
            T::lemma_parse_consumes(window@, at as int);
        }
        match T::ssz_decode(window, at) {
            Err(error) => { return Err(error); },
            Ok((item, next)) => {
                let ghost before = views(items@);
                items.push(item);
                assert(views(items@) == before + seq![item@]);
                assert forall|rest: Seq<T::V>| before + (seq![item@] + rest) == before + seq![
                    item@,
                ] + rest by {
                    assert(before + (seq![item@] + rest) =~= before + seq![item@] + rest);
                }
                at = next;
            },
        }
    }
    assert(views(items@) + Seq::<T::V>::empty() == views(items@));
    Ok((items, end))
}

/// What reading a length-prefixed run of bytes from offset `index` yields: the bytes behind
/// the prefix, as many as it announces, and the offset behind them.
pub open spec fn parse_blob(bytes: Seq<u8>, index: int) -> Result<(Seq<u8>, int), DecodeError> {
    match parse_le(bytes, index, LENGTH_BYTES as nat) {
        Err(error) => Err(error),
        Ok((length, start)) => if bytes.len() < start + length {
            Err(DecodeError::TooShort)
        } else {
            Ok((bytes.subrange(start, start + length), start + length))
        },
    }
}

/// Bytes decode to themselves, one item each.
pub proof fn lemma_parse_bytes(window: Seq<u8>, index: int)
    requires
        0 <= index <= window.len(),
    ensures
        parse_items::<u8>(window, index) == Ok::<_, DecodeError>(
            window.subrange(index, window.len() as int),
        ),
    decreases window.len() - index,
{
    if index < window.len() {
        let one = window.subrange(index, index + 1);
        assert(one.drop_first().len() == 0);
        assert(le_value(one) == window[index] as nat) by {
            reveal_with_fuel(le_value, 2);
        }
        lemma_parse_bytes(window, index + 1);
        assert(seq![window[index]] + window.subrange(index + 1, window.len() as int)
            == window.subrange(index, window.len() as int));
    } else {
        assert(window.subrange(index, window.len() as int) == Seq::<u8>::empty());
    }
}

/// A list of bytes is the run of bytes behind its length prefix.
pub proof fn lemma_parse_list_of_bytes(bytes: Seq<u8>, index: int)
    requires
        0 <= index,
    ensures
        parse_list::<u8>(bytes, index) == parse_blob(bytes, index),
{
    match parse_le(bytes, index, LENGTH_BYTES as nat) {
        Err(_) => {},
        Ok((length, start)) => {
            if bytes.len() >= start + length {
                let window = bytes.subrange(0, start + length);
                lemma_parse_bytes(window, start);
                assert(window.subrange(start, window.len() as int) == bytes.subrange(
                    start,
                    start + length,
                ));
            }
        },
    }
}

} // verus!
