//! The wire encoding of message arguments.
//!
//! Integers travel as variable length quantities (VLQ): big-endian groups of seven bits, with
//! the high bit set on every byte but the last. The two bits below the high bit of the first
//! byte, both set, mark a negative number. Strings and byte arrays travel as their length, a VLQ,
//! followed by their bytes.
use crate::text::{checked_utf8, chars_of, push_decimal, push_signed_decimal, utf8_text};
use vstd::prelude::*;

verus! {

/// An issue met while decoding a message.
#[derive(Debug, Clone, Copy, PartialEq, Eq, Structural)]
pub enum MessageDecodeError {
    /// The data ended in the middle of a message
    InsufficientData,
    /// A string argument is not valid UTF-8
    InvalidUtf8,
}

// ---------------------------------------------------------------------------
// Variable length quantities
// ---------------------------------------------------------------------------

/// Takes the first byte off the input.
pub fn next_byte(data: &mut &[u8]) -> (r: Result<u8, MessageDecodeError>)
    ensures
        old(data)@.len() == 0 ==> r == Err::<u8, MessageDecodeError>(
            MessageDecodeError::InsufficientData,
        ) && final(data)@ == old(data)@,
        old(data)@.len() > 0 ==> r == Ok::<u8, MessageDecodeError>(old(data)@[0]) && final(data)@
            == old(data)@.skip(1),
{
    let n: usize = data.len();
    if n == 0 {
        Err(MessageDecodeError::InsufficientData)
    } else {
        let b: u8 = data[0];
        *data = &data[1..n];
        Ok(b)
    }
}

/// The seven bits of `v` that start at bit `shift`.
pub open spec fn vlq_group(v: i32, shift: i32) -> u8 {
    ((v >> shift) & 0x7F) as u8
}

/// The VLQ encoding of a 32 bit number, signed or not.
pub open spec fn vlq_encode(v: u32) -> Seq<u8> {
    let s = v as i32;
    if -0x20 <= s < 0x60 {
        seq![vlq_group(s, 0)]
    } else if -0x1000 <= s < 0x3000 {
        seq![vlq_group(s, 7) | 0x80, vlq_group(s, 0)]
    } else if -0x8_0000 <= s < 0x18_0000 {
        seq![vlq_group(s, 14) | 0x80, vlq_group(s, 7) | 0x80, vlq_group(s, 0)]
    } else if -0x400_0000 <= s < 0xC00_0000 {
        seq![
            vlq_group(s, 21) | 0x80,
            vlq_group(s, 14) | 0x80,
            vlq_group(s, 7) | 0x80,
            vlq_group(s, 0),
        ]
    } else {
        seq![
            vlq_group(s, 28) | 0x80,
            vlq_group(s, 21) | 0x80,
            vlq_group(s, 14) | 0x80,
            vlq_group(s, 7) | 0x80,
            vlq_group(s, 0),
        ]
    }
}

/// The value that the first byte of a VLQ stands for.
pub open spec fn vlq_first(c: u8) -> u32 {
    if c & 0x60 == 0x60 {
        (c & 0x7F) as u32 | 0xFFFF_FFE0
    } else {
        (c & 0x7F) as u32
    }
}

/// The value of a VLQ whose bytes so far gave `v`, with one more byte.
pub open spec fn vlq_shift_in(v: u32, c: u8) -> u32 {
    (v << 7) | (c & 0x7F) as u32
}

/// Goes on with a VLQ of which at least one more byte must follow.
pub open spec fn vlq_continue(v: u32, input: Seq<u8>) -> Option<(u32, Seq<u8>)>
    decreases input.len(),
{
    if input.len() == 0 {
        None
    } else {
        let w = vlq_shift_in(v, input[0]);
        if input[0] & 0x80 == 0 {
            Some((w, input.skip(1)))
        } else {
            vlq_continue(w, input.skip(1))
        }
    }
}

/// The VLQ at the start of the input, and the input behind it.
pub open spec fn vlq_decode(input: Seq<u8>) -> Option<(u32, Seq<u8>)> {
    if input.len() == 0 {
        None
    } else {
        let v = vlq_first(input[0]);
        if input[0] & 0x80 == 0 {
            Some((v, input.skip(1)))
        } else {
            vlq_continue(v, input.skip(1))
        }
    }
}

/// Takes a VLQ off the input. Where the input ends within it, all of the input is gone.
pub fn parse_vlq_int(data: &mut &[u8]) -> (r: Result<u32, MessageDecodeError>)
    ensures
        match vlq_decode(old(data)@) {
            Some((v, rest)) => r == Ok::<u32, MessageDecodeError>(v) && final(data)@ == rest,
            None => r == Err::<u32, MessageDecodeError>(MessageDecodeError::InsufficientData)
                && final(data)@.len() == 0,
        },
{
    let mut c: u8 = match next_byte(data) {
        Ok(b) => b,
        Err(e) => {
            return Err(e);
        },
    };
    let mut v: u32 = (c & 0x7F) as u32;
    if c & 0x60 == 0x60 {
        v = v | 0xFFFF_FFE0;
    }
    while c & 0x80 != 0
        invariant
            vlq_decode(old(data)@) == (if c & 0x80 == 0 {
                Some((v, data@))
            } else {
                vlq_continue(v, data@)
            }),
        decreases data@.len(), c & 0x80,
    {
        c = match next_byte(data) {
            Ok(b) => b,
            Err(e) => {
                return Err(e);
            },
        };
        v = (v << 7) | (c & 0x7F) as u32;
    }
    Ok(v)
}

/// Appends the VLQ encoding of a number.
pub fn encode_vlq_int(buf: &mut Vec<u8>, v: u32)
    ensures
        final(buf)@ == old(buf)@ + vlq_encode(v),
{
    let ghost before = buf@;
    let s: i32 = v as i32;
    if !(-0x400_0000 <= s && s < 0xC00_0000) {
        buf.push(((s >> 28) & 0x7F) as u8 | 0x80);
    }
    if !(-0x8_0000 <= s && s < 0x18_0000) {
        buf.push(((s >> 21) & 0x7F) as u8 | 0x80);
    }
    if !(-0x1000 <= s && s < 0x3000) {
        buf.push(((s >> 14) & 0x7F) as u8 | 0x80);
    }
    if !(-0x20 <= s && s < 0x60) {
        buf.push(((s >> 7) & 0x7F) as u8 | 0x80);
    }
    buf.push((s & 0x7F) as u8);
    assert(s & 0x7F == (s >> 0) & 0x7F) by (bit_vector);
    assert(buf@ =~= before + vlq_encode(v));
}

/// A number comes back from its encoding, whatever bytes follow, and those bytes are left.
pub proof fn vlq_round_trip(v: u32, rest: Seq<u8>)
    ensures
        vlq_decode(vlq_encode(v) + rest) == Some((v, rest)),
{
    let s = v as i32;
    let g0 = vlq_group(s, 0);
    let g1 = vlq_group(s, 7);
    let g2 = vlq_group(s, 14);
    let g3 = vlq_group(s, 21);
    let g4 = vlq_group(s, 28);
    reveal_with_fuel(vlq_continue, 5);
    let e = vlq_encode(v) + rest;
    assert(vlq_group(s, 0) & 0x80 == 0) by (bit_vector);
    assert((g1 | 0x80) & 0x80 != 0 && (g2 | 0x80) & 0x80 != 0 && (g3 | 0x80) & 0x80 != 0 && (g4
        | 0x80) & 0x80 != 0) by (bit_vector);
    if -0x20 <= s < 0x60 {
        assert(vlq_first(vlq_group(s, 0)) == v) by (bit_vector)
            requires
                s == v as i32,
                -0x20 <= s < 0x60,
        ;
        assert(e.skip(1) =~= rest);
    } else if -0x1000 <= s < 0x3000 {
        assert(vlq_shift_in(vlq_first(vlq_group(s, 7) | 0x80), vlq_group(s, 0)) == v)
            by (bit_vector)
            requires
                s == v as i32,
                -0x1000 <= s < 0x3000,
        ;
        assert(e.skip(1).skip(1) =~= rest);
    } else if -0x8_0000 <= s < 0x18_0000 {
        assert(vlq_shift_in(
            vlq_shift_in(vlq_first(vlq_group(s, 14) | 0x80), vlq_group(s, 7) | 0x80),
            vlq_group(s, 0),
        ) == v) by (bit_vector)
            requires
                s == v as i32,
                -0x8_0000 <= s < 0x18_0000,
        ;
        assert(e.skip(1).skip(1).skip(1) =~= rest);
    } else if -0x400_0000 <= s < 0xC00_0000 {
        assert(vlq_shift_in(
            vlq_shift_in(
                vlq_shift_in(vlq_first(vlq_group(s, 21) | 0x80), vlq_group(s, 14) | 0x80),
                vlq_group(s, 7) | 0x80,
            ),
            vlq_group(s, 0),
        ) == v) by (bit_vector)
            requires
                s == v as i32,
                -0x400_0000 <= s < 0xC00_0000,
        ;
        assert(e.skip(1).skip(1).skip(1).skip(1) =~= rest);
    } else {
        assert(vlq_shift_in(
            vlq_shift_in(
                vlq_shift_in(
                    vlq_shift_in(vlq_first(vlq_group(s, 28) | 0x80), vlq_group(s, 21) | 0x80),
                    vlq_group(s, 14) | 0x80,
                ),
                vlq_group(s, 7) | 0x80,
            ),
            vlq_group(s, 0),
        ) == v) by (bit_vector)
            requires
                s == v as i32,
        ;
        assert(e.skip(1).skip(1).skip(1).skip(1).skip(1) =~= rest);
    }
}

// ---------------------------------------------------------------------------
// Field types and values
// ---------------------------------------------------------------------------

/// The type of a message argument.
#[derive(Debug, Clone, Copy, PartialEq, Eq, Structural)]
pub enum FieldType {
    U32,
    I32,
    U16,
    I16,
    U8,
    String,
    ByteArray,
}

/// A decoded message argument.
#[derive(Debug, Clone)]
pub enum FieldValue {
    U32(u32),
    I32(i32),
    U16(u16),
    I16(i16),
    U8(u8),
    String(String),
    ByteArray(Vec<u8>),
}

/// What a [`FieldValue`] holds.
pub enum FieldData {
    U32(u32),
    I32(i32),
    U16(u16),
    I16(i16),
    U8(u8),
    Text(Seq<char>),
    Bytes(Seq<u8>),
}

impl View for FieldValue {
    type V = FieldData;

    open spec fn view(&self) -> FieldData {
        match *self {
            FieldValue::U32(v) => FieldData::U32(v),
            FieldValue::I32(v) => FieldData::I32(v),
            FieldValue::U16(v) => FieldData::U16(v),
            FieldValue::I16(v) => FieldData::I16(v),
            FieldValue::U8(v) => FieldData::U8(v),
            FieldValue::String(s) => FieldData::Text(s@),
            FieldValue::ByteArray(b) => FieldData::Bytes(b@),
        }
    }
}

/// The type that a value has.
pub open spec fn type_of(d: FieldData) -> FieldType {
    match d {
        FieldData::U32(_) => FieldType::U32,
        FieldData::I32(_) => FieldType::I32,
        FieldData::U16(_) => FieldType::U16,
        FieldData::I16(_) => FieldType::I16,
        FieldData::U8(_) => FieldType::U8,
        FieldData::Text(_) => FieldType::String,
        FieldData::Bytes(_) => FieldType::ByteArray,
    }
}

/// The encoding of a byte array.
pub open spec fn chunk_encode(b: Seq<u8>) -> Seq<u8> {
    vlq_encode(b.len() as u32) + b
}

/// The encoding of a value.
pub open spec fn field_encode(d: FieldData) -> Seq<u8> {
    match d {
        FieldData::U32(v) => vlq_encode(v),
        FieldData::I32(v) => vlq_encode(v as u32),
        FieldData::U16(v) => vlq_encode(v as u32),
        FieldData::I16(v) => vlq_encode(v as u32),
        FieldData::U8(v) => vlq_encode(v as u32),
        FieldData::Text(s) => chunk_encode(vstd::utf8::encode_utf8(s)),
        FieldData::Bytes(b) => chunk_encode(b),
    }
}

/// What comes of taking a value off an input: the value or the error, and the input that is left.
pub struct Decoded<T> {
    pub result: Result<T, MessageDecodeError>,
    pub rest: Seq<u8>,
}

/// Takes an integer off the input.
pub open spec fn int_decode(input: Seq<u8>) -> Decoded<u32> {
    match vlq_decode(input) {
        Some((v, rest)) => Decoded { result: Ok(v), rest },
        None => Decoded {
            result: Err(MessageDecodeError::InsufficientData),
            rest: Seq::empty(),
        },
    }
}

/// Takes a byte array off the input.
pub open spec fn chunk_decode(input: Seq<u8>) -> Decoded<Seq<u8>> {
    match vlq_decode(input) {
        Some((n, rest)) => if n <= rest.len() {
            Decoded { result: Ok(rest.take(n as int)), rest: rest.skip(n as int) }
        } else {
            Decoded { result: Err(MessageDecodeError::InsufficientData), rest }
        },
        None => Decoded {
            result: Err(MessageDecodeError::InsufficientData),
            rest: Seq::empty(),
        },
    }
}

/// Takes a value of the given type off the input.
pub open spec fn field_decode(ty: FieldType, input: Seq<u8>) -> Decoded<FieldData> {
    match ty {
        FieldType::String => {
            let d = chunk_decode(input);
            Decoded {
                result: match d.result {
                    Ok(b) => if vstd::utf8::valid_utf8(b) {
                        Ok(FieldData::Text(vstd::utf8::decode_utf8(b)))
                    } else {
                        Err(MessageDecodeError::InvalidUtf8)
                    },
                    Err(e) => Err(e),
                },
                rest: d.rest,
            }
        },
        FieldType::ByteArray => {
            let d = chunk_decode(input);
            Decoded {
                result: match d.result {
                    Ok(b) => Ok(FieldData::Bytes(b)),
                    Err(e) => Err(e),
                },
                rest: d.rest,
            }
        },
        _ => {
            let d = int_decode(input);
            Decoded {
                result: match d.result {
                    Ok(v) => Ok(
                        match ty {
                            FieldType::U32 => FieldData::U32(v),
                            FieldType::I32 => FieldData::I32(v as i32),
                            FieldType::U16 => FieldData::U16(v as u16),
                            FieldType::I16 => FieldData::I16(v as i16),
                            _ => FieldData::U8(v as u8),
                        },
                    ),
                    Err(e) => Err(e),
                },
                rest: d.rest,
            }
        },
    }
}

/// What follows a VLQ is shorter than the input.
proof fn vlq_continue_shortens(v: u32, input: Seq<u8>)
    ensures
        vlq_continue(v, input) matches Some((_, rest)) ==> rest.len() < input.len(),
    decreases input.len(),
{
    if input.len() > 0 {
        vlq_continue_shortens(vlq_shift_in(v, input[0]), input.skip(1));
    }
}

/// Taking a value off an input leaves no more than there was.
pub proof fn field_decode_shortens(ty: FieldType, input: Seq<u8>)
    ensures
        field_decode(ty, input).rest.len() <= input.len(),
{
    if input.len() > 0 {
        vlq_continue_shortens(vlq_first(input[0]), input.skip(1));
    }
}

/// Takes a byte array off the input, without a copy.
pub fn read_chunk<'a>(input: &mut &'a [u8]) -> (r: Result<&'a [u8], MessageDecodeError>)
    ensures
        final(input)@ == chunk_decode(old(input)@).rest,
        match chunk_decode(old(input)@).result {
            Ok(b) => r matches Ok(s) && s@ == b,
            Err(e) => r matches Err(f) && f == e,
        },
{
    let n: u32 = match parse_vlq_int(input) {
        Ok(n) => n,
        Err(e) => {
            assert(input@ =~= Seq::<u8>::empty());
            return Err(e);
        },
    };
    let all: &'a [u8] = *input;
    let left: usize = all.len();
    if n as u64 > left as u64 {
        return Err(MessageDecodeError::InsufficientData);
    }
    let k: usize = n as usize;
    *input = &all[k..left];
    Ok(&all[0..k])
}

impl FieldType {
    /// Takes a value of this type off the input.
    pub fn read(&self, input: &mut &[u8]) -> (r: Result<FieldValue, MessageDecodeError>)
        ensures
            final(input)@ == field_decode(*self, old(input)@).rest,
            match field_decode(*self, old(input)@).result {
                Ok(d) => r matches Ok(v) && v@ == d,
                Err(e) => r matches Err(f) && f == e,
            },
    {
        match *self {
            FieldType::String => {
                let b = match read_chunk(input) {
                    Ok(b) => b,
                    Err(e) => {
                        return Err(e);
                    },
                };
                match utf8_text(b) {
                    Some(s) => Ok(FieldValue::String(s)),
                    None => Err(MessageDecodeError::InvalidUtf8),
                }
            },
            FieldType::ByteArray => {
                let b = match read_chunk(input) {
                    Ok(b) => b,
                    Err(e) => {
                        return Err(e);
                    },
                };
                Ok(FieldValue::ByteArray(vstd::slice::slice_to_vec(b)))
            },
            ty => {
                let v: u32 = match parse_vlq_int(input) {
                    Ok(v) => v,
                    Err(e) => {
                        assert(input@ =~= Seq::<u8>::empty());
                        return Err(e);
                    },
                };
                Ok(
                    match ty {
                        FieldType::U32 => FieldValue::U32(v),
                        FieldType::I32 => FieldValue::I32(v as i32),
                        FieldType::U16 => FieldValue::U16(v as u16),
                        FieldType::I16 => FieldValue::I16(v as i16),
                        _ => FieldValue::U8(v as u8),
                    },
                )
            },
        }
    }

    /// Passes over a value of this type. It fails where [`FieldType::read`] fails, with the same
    /// error, and leaves the same input.
    pub fn skip(&self, input: &mut &[u8]) -> (r: Result<(), MessageDecodeError>)
        ensures
            final(input)@ == field_decode(*self, old(input)@).rest,
            match field_decode(*self, old(input)@).result {
                Ok(_) => r is Ok,
                Err(e) => r matches Err(f) && f == e,
            },
    {
        match *self {
            FieldType::String => match read_chunk(input) {
                Ok(b) => match checked_utf8(b) {
                    Some(_) => Ok(()),
                    None => Err(MessageDecodeError::InvalidUtf8),
                },
                Err(e) => Err(e),
            },
            FieldType::ByteArray => match read_chunk(input) {
                Ok(_) => Ok(()),
                Err(e) => Err(e),
            },
            _ => match parse_vlq_int(input) {
                Ok(_) => Ok(()),
                Err(e) => {
                    assert(input@ =~= Seq::<u8>::empty());
                    Err(e)
                },
            },
        }
    }
}

/// The value that a field holds comes back from its encoding, whatever bytes follow, and those
/// bytes are left.
pub proof fn field_round_trip(d: FieldData, rest: Seq<u8>)
    requires
        d matches FieldData::Text(s) ==> vstd::utf8::encode_utf8(s).len() <= u32::MAX,
        d matches FieldData::Bytes(b) ==> b.len() <= u32::MAX,
    ensures
        field_decode(type_of(d), field_encode(d) + rest) == (Decoded {
            result: Ok::<FieldData, MessageDecodeError>(d),
            rest,
        }),
{
    match d {
        FieldData::U32(v) => {
            vlq_round_trip(v, rest);
        },
        FieldData::I32(v) => {
            vlq_round_trip(v as u32, rest);
            assert((v as u32) as i32 == v) by (bit_vector);
        },
        FieldData::U16(v) => {
            vlq_round_trip(v as u32, rest);
        },
        FieldData::I16(v) => {
            vlq_round_trip(v as u32, rest);
            assert((v as u32) as i16 == v) by (bit_vector);
        },
        FieldData::U8(v) => {
            vlq_round_trip(v as u32, rest);
        },
        FieldData::Text(s) => {
            broadcast use vstd::utf8::encode_utf8_decode_utf8, vstd::utf8::encode_utf8_valid_utf8;

            let b = vstd::utf8::encode_utf8(s);
            chunk_round_trip(b, rest);
        },
        FieldData::Bytes(b) => {
            chunk_round_trip(b, rest);
        },
    }
}

proof fn chunk_round_trip(b: Seq<u8>, rest: Seq<u8>)
    requires
        b.len() <= u32::MAX,
    ensures
        chunk_decode(chunk_encode(b) + rest) == (Decoded {
            result: Ok::<Seq<u8>, MessageDecodeError>(b),
            rest,
        }),
{
    vlq_round_trip(b.len() as u32, b + rest);
    assert(chunk_encode(b) + rest =~= vlq_encode(b.len() as u32) + (b + rest));
    assert((b + rest).take(b.len() as int) =~= b);
    assert((b + rest).skip(b.len() as int) =~= rest);
}

// ---------------------------------------------------------------------------
// Format directives
// ---------------------------------------------------------------------------

/// The format directive that a type is written as.
pub open spec fn directive(ty: FieldType) -> Seq<char> {
    match ty {
        FieldType::U32 => seq!['%', 'u'],
        FieldType::I32 => seq!['%', 'i'],
        FieldType::U16 => seq!['%', 'h', 'u'],
        FieldType::I16 => seq!['%', 'h', 'i'],
        FieldType::U8 => seq!['%', 'c'],
        FieldType::String => seq!['%', 's'],
        FieldType::ByteArray => seq!['%', '*', 's'],
    }
}

/// Whether `s` starts with `prefix`.
pub open spec fn starts_with(s: Seq<char>, prefix: Seq<char>) -> bool {
    prefix.len() <= s.len() && s.take(prefix.len() as int) == prefix
}

/// The type of the format directive at the start of `s`, and the directive's length. A byte array
/// has two directives, `%*s` and `%.*s`.
pub open spec fn leading_directive(s: Seq<char>) -> Option<(FieldType, int)> {
    if starts_with(s, directive(FieldType::U32)) {
        Some((FieldType::U32, 2))
    } else if starts_with(s, directive(FieldType::I32)) {
        Some((FieldType::I32, 2))
    } else if starts_with(s, directive(FieldType::U16)) {
        Some((FieldType::U16, 3))
    } else if starts_with(s, directive(FieldType::I16)) {
        Some((FieldType::I16, 3))
    } else if starts_with(s, directive(FieldType::U8)) {
        Some((FieldType::U8, 2))
    } else if starts_with(s, directive(FieldType::String)) {
        Some((FieldType::String, 2))
    } else if starts_with(s, directive(FieldType::ByteArray)) {
        Some((FieldType::ByteArray, 3))
    } else if starts_with(s, seq!['%', '.', '*', 's']) {
        Some((FieldType::ByteArray, 4))
    } else {
        None
    }
}

/// The type that a text names, where all of the text is one format directive.
pub open spec fn named_type(s: Seq<char>) -> Option<FieldType> {
    match leading_directive(s) {
        Some((ty, n)) => if n == s.len() {
            Some(ty)
        } else {
            None
        },
        None => None,
    }
}

proof fn starts_with_by_chars(s: Seq<char>, prefix: Seq<char>)
    ensures
        starts_with(s, prefix) <==> prefix.len() <= s.len() && forall|i: int|
            0 <= i < prefix.len() ==> s[i] == prefix[i],
{
    if prefix.len() <= s.len() {
        assert forall|i: int| 0 <= i < prefix.len() implies s[i] == s.take(
            prefix.len() as int,
        )[i] by {}
        if forall|i: int| 0 <= i < prefix.len() ==> s[i] == prefix[i] {
            assert(s.take(prefix.len() as int) =~= prefix);
        }
    }
}

impl FieldType {
    /// The type of the format directive at position `at` of `format`, and the directive's length.
    pub fn from_format(format: &Vec<char>, at: usize) -> (r: Option<(FieldType, usize)>)
        requires
            at <= format@.len(),
        ensures
            match leading_directive(format@.skip(at as int)) {
                Some((ty, n)) => r matches Some((t, k)) && t == ty && k == n,
                None => r is None,
            },
            r matches Some((_, k)) ==> 2 <= k && at + k <= format@.len(),
    {
        let ghost s = format@.skip(at as int);
        proof {
            starts_with_by_chars(s, seq!['%', 'u']);
            starts_with_by_chars(s, seq!['%', 'i']);
            starts_with_by_chars(s, seq!['%', 'h', 'u']);
            starts_with_by_chars(s, seq!['%', 'h', 'i']);
            starts_with_by_chars(s, seq!['%', 'c']);
            starts_with_by_chars(s, seq!['%', 's']);
            starts_with_by_chars(s, seq!['%', '*', 's']);
            starts_with_by_chars(s, seq!['%', '.', '*', 's']);
        }
        let n: usize = format.len() - at;
        if n < 2 || format[at] != '%' {
            assert(n >= 2 ==> s[0] != '%');
            return None;
        }
        let c1: char = format[at + 1];
        assert(s[0] == '%' && s[1] == c1);
        assert(n >= 3 ==> s[2] == format@[at + 2]);
        assert(n >= 4 ==> s[3] == format@[at + 3]);
        if c1 == 'u' {
            Some((FieldType::U32, 2))
        } else if c1 == 'i' {
            Some((FieldType::I32, 2))
        } else if c1 == 'c' {
            Some((FieldType::U8, 2))
        } else if c1 == 's' {
            Some((FieldType::String, 2))
        } else if n >= 3 && c1 == 'h' && format[at + 2] == 'u' {
            Some((FieldType::U16, 3))
        } else if n >= 3 && c1 == 'h' && format[at + 2] == 'i' {
            Some((FieldType::I16, 3))
        } else if n >= 3 && c1 == '*' && format[at + 2] == 's' {
            Some((FieldType::ByteArray, 3))
        } else if n >= 4 && c1 == '.' && format[at + 2] == '*' && format[at + 3] == 's' {
            Some((FieldType::ByteArray, 4))
        } else {
            None
        }
    }

    /// The type that the type part of a message argument names.
    pub fn from_msg(ty: &str) -> (r: Option<FieldType>)
        ensures
            r == named_type(ty@),
    {
        let chars = chars_of(ty);
        assert(chars@.skip(0) =~= chars@);
        match FieldType::from_format(&chars, 0) {
            Some((t, n)) => if n == chars.len() {
                Some(t)
            } else {
                None
            },
            None => None,
        }
    }

    /// The format directive of this type.
    pub fn to_format(&self) -> (r: &'static str)
        ensures
            r@ == directive(*self),
    {
        proof {
            reveal_strlit("%u");
            reveal_strlit("%i");
            reveal_strlit("%hu");
            reveal_strlit("%hi");
            reveal_strlit("%c");
            reveal_strlit("%s");
            reveal_strlit("%*s");
        }
        let r: &'static str = match *self {
            FieldType::U32 => "%u",
            FieldType::I32 => "%i",
            FieldType::U16 => "%hu",
            FieldType::I16 => "%hi",
            FieldType::U8 => "%c",
            FieldType::String => "%s",
            FieldType::ByteArray => "%*s",
        };
        assert(r@ =~= directive(*self));
        r
    }
}

/// A type is what its own format directive names.
pub proof fn directive_names_its_type(ty: FieldType)
    ensures
        named_type(directive(ty)) == Some(ty),
{
    let s = directive(ty);
    starts_with_by_chars(s, seq!['%', 'u']);
    starts_with_by_chars(s, seq!['%', 'i']);
    starts_with_by_chars(s, seq!['%', 'h', 'u']);
    starts_with_by_chars(s, seq!['%', 'h', 'i']);
    starts_with_by_chars(s, seq!['%', 'c']);
    starts_with_by_chars(s, seq!['%', 's']);
    starts_with_by_chars(s, seq!['%', '*', 's']);
    starts_with_by_chars(s, seq!['%', '.', '*', 's']);
}

// ---------------------------------------------------------------------------
// Values as text
// ---------------------------------------------------------------------------

/// Numbers in decimal, with a comma and a space between each two.
pub open spec fn joined_decimals(b: Seq<u8>) -> Seq<char>
    decreases b.len(),
{
    if b.len() == 0 {
        Seq::empty()
    } else if b.len() == 1 {
        crate::text::decimal(b[0] as nat)
    } else {
        joined_decimals(b.drop_last()) + seq![',', ' '] + crate::text::decimal(b.last() as nat)
    }
}

/// A value as text: a number in decimal, a string as it is, and a byte array as the list of its
/// bytes in brackets.
pub open spec fn value_text(d: FieldData) -> Seq<char> {
    match d {
        FieldData::U32(v) => crate::text::decimal(v as nat),
        FieldData::I32(v) => crate::text::signed_decimal(v as int),
        FieldData::U16(v) => crate::text::decimal(v as nat),
        FieldData::I16(v) => crate::text::signed_decimal(v as int),
        FieldData::U8(v) => crate::text::decimal(v as nat),
        FieldData::Text(s) => s,
        FieldData::Bytes(b) => seq!['['] + joined_decimals(b) + seq![']'],
    }
}

impl FieldValue {
    /// Appends the value as text.
    pub fn push_text(&self, buf: &mut String)
        ensures
            final(buf)@ == old(buf)@ + value_text(self@),
    {
        let ghost before = buf@;
        match self {
            FieldValue::U32(v) => push_decimal(buf, *v as u64),
            FieldValue::I32(v) => push_signed_decimal(buf, *v as i64),
            FieldValue::U16(v) => push_decimal(buf, *v as u64),
            FieldValue::I16(v) => push_signed_decimal(buf, *v as i64),
            FieldValue::U8(v) => push_decimal(buf, *v as u64),
            FieldValue::String(s) => buf.append(s.as_str()),
            FieldValue::ByteArray(b) => {
                buf.push('[');
                let n: usize = b.len();
                let mut i: usize = 0;
                assert(joined_decimals(b@.take(0)) =~= Seq::<char>::empty());
                while i < n
                    invariant
                        i <= n == b@.len(),
                        buf@ == before + seq!['['] + joined_decimals(b@.take(i as int)),
                    decreases n - i,
                {
                    if i != 0 {
                        buf.push(',');
                        buf.push(' ');
                    }
                    push_decimal(buf, b[i] as u64);
                    assert(b@.take(i + 1).drop_last() =~= b@.take(i as int));
                    i += 1;
                    assert(buf@ =~= before + seq!['['] + joined_decimals(b@.take(i as int)));
                }
                assert(b@.take(n as int) =~= b@);
                buf.push(']');
                assert(buf@ =~= before + value_text(self@));
            },
        }
    }
}

// ---------------------------------------------------------------------------
// Rust types as message arguments
// ---------------------------------------------------------------------------

/// A type that stands for a message argument type.
pub trait ToFieldType {
    /// The argument type.
    spec fn field_type() -> FieldType;

    /// The argument type.
    fn as_field_type() -> (r: FieldType)
        ensures
            r == Self::field_type(),
    ;
}

/// A value that can be written as a message argument.
pub trait Writable {
    /// The argument that is written.
    spec fn datum(&self) -> FieldData;

    /// Appends the encoded argument.
    fn write(&self, buf: &mut Vec<u8>)
        ensures
            final(buf)@ == old(buf)@ + field_encode(self.datum()),
    ;
}

/// A value that can be read from a message, without a copy where it is a string or a byte array.
pub trait Readable<'de>: Sized {
    /// The argument type that is read.
    spec fn read_type() -> FieldType;

    /// The argument that the value holds.
    spec fn read_datum(&self) -> FieldData;

    /// Takes the value off the input.
    fn read(data: &mut &'de [u8]) -> (r: Result<Self, MessageDecodeError>)
        ensures
            final(data)@ == field_decode(Self::read_type(), old(data)@).rest,
            match field_decode(Self::read_type(), old(data)@).result {
                Ok(d) => r matches Ok(v) && v.read_datum() == d,
                Err(e) => r matches Err(f) && f == e,
            },
    ;
}

/// An owned argument type with a borrowed form.
pub trait Borrowable: Sized {
    /// The borrowed form.
    type Borrowed<'a>;

    /// Whether an owned value holds what a borrowed one holds.
    spec fn same<'a>(owned: Self, borrowed: Self::Borrowed<'a>) -> bool;

    /// The owned form of a borrowed value.
    fn from_borrowed<'a>(src: Self::Borrowed<'a>) -> (r: Self)
        ensures
            Self::same(r, src),
    ;
}

impl ToFieldType for u32 {
    open spec fn field_type() -> FieldType {
        FieldType::U32
    }

    fn as_field_type() -> (r: FieldType) {
        FieldType::U32
    }
}

impl Writable for u32 {
    open spec fn datum(&self) -> FieldData {
        FieldData::U32(*self)
    }

    fn write(&self, buf: &mut Vec<u8>) {
        encode_vlq_int(buf, *self);
    }
}

impl<'de> Readable<'de> for u32 {
    open spec fn read_type() -> FieldType {
        FieldType::U32
    }

    open spec fn read_datum(&self) -> FieldData {
        FieldData::U32(*self)
    }

    fn read(data: &mut &'de [u8]) -> (r: Result<Self, MessageDecodeError>) {
        match parse_vlq_int(data) {
            Ok(v) => Ok(v),
            Err(e) => {
                assert(data@ =~= Seq::<u8>::empty());
                Err(e)
            },
        }
    }
}

impl Borrowable for u32 {
    type Borrowed<'a> = u32;

    open spec fn same<'a>(owned: Self, borrowed: u32) -> bool {
        owned == borrowed
    }

    fn from_borrowed<'a>(src: u32) -> (r: Self) {
        src
    }
}

impl ToFieldType for i32 {
    open spec fn field_type() -> FieldType {
        FieldType::I32
    }

    fn as_field_type() -> (r: FieldType) {
        FieldType::I32
    }
}

impl Writable for i32 {
    open spec fn datum(&self) -> FieldData {
        FieldData::I32(*self)
    }

    fn write(&self, buf: &mut Vec<u8>) {
        encode_vlq_int(buf, *self as u32);
    }
}

impl<'de> Readable<'de> for i32 {
    open spec fn read_type() -> FieldType {
        FieldType::I32
    }

    open spec fn read_datum(&self) -> FieldData {
        FieldData::I32(*self)
    }

    fn read(data: &mut &'de [u8]) -> (r: Result<Self, MessageDecodeError>) {
        match parse_vlq_int(data) {
            Ok(v) => Ok(v as i32),
            Err(e) => {
                assert(data@ =~= Seq::<u8>::empty());
                Err(e)
            },
        }
    }
}

impl Borrowable for i32 {
    type Borrowed<'a> = i32;

    open spec fn same<'a>(owned: Self, borrowed: i32) -> bool {
        owned == borrowed
    }

    fn from_borrowed<'a>(src: i32) -> (r: Self) {
        src
    }
}

impl ToFieldType for u16 {
    open spec fn field_type() -> FieldType {
        FieldType::U16
    }

    fn as_field_type() -> (r: FieldType) {
        FieldType::U16
    }
}

impl Writable for u16 {
    open spec fn datum(&self) -> FieldData {
        FieldData::U16(*self)
    }

    fn write(&self, buf: &mut Vec<u8>) {
        encode_vlq_int(buf, *self as u32);
    }
}

impl<'de> Readable<'de> for u16 {
    open spec fn read_type() -> FieldType {
        FieldType::U16
    }

    open spec fn read_datum(&self) -> FieldData {
        FieldData::U16(*self)
    }

    fn read(data: &mut &'de [u8]) -> (r: Result<Self, MessageDecodeError>) {
        match parse_vlq_int(data) {
            Ok(v) => Ok(v as u16),
            Err(e) => {
                assert(data@ =~= Seq::<u8>::empty());
                Err(e)
            },
        }
    }
}

impl Borrowable for u16 {
    type Borrowed<'a> = u16;

    open spec fn same<'a>(owned: Self, borrowed: u16) -> bool {
        owned == borrowed
    }

    fn from_borrowed<'a>(src: u16) -> (r: Self) {
        src
    }
}

impl ToFieldType for i16 {
    open spec fn field_type() -> FieldType {
        FieldType::I16
    }

    fn as_field_type() -> (r: FieldType) {
        FieldType::I16
    }
}

impl Writable for i16 {
    open spec fn datum(&self) -> FieldData {
        FieldData::I16(*self)
    }

    fn write(&self, buf: &mut Vec<u8>) {
        encode_vlq_int(buf, *self as u32);
    }
}

impl<'de> Readable<'de> for i16 {
    open spec fn read_type() -> FieldType {
        FieldType::I16
    }

    open spec fn read_datum(&self) -> FieldData {
        FieldData::I16(*self)
    }

    fn read(data: &mut &'de [u8]) -> (r: Result<Self, MessageDecodeError>) {
        match parse_vlq_int(data) {
            Ok(v) => Ok(v as i16),
            Err(e) => {
                assert(data@ =~= Seq::<u8>::empty());
                Err(e)
            },
        }
    }
}

impl Borrowable for i16 {
    type Borrowed<'a> = i16;

    open spec fn same<'a>(owned: Self, borrowed: i16) -> bool {
        owned == borrowed
    }

    fn from_borrowed<'a>(src: i16) -> (r: Self) {
        src
    }
}

impl ToFieldType for u8 {
    open spec fn field_type() -> FieldType {
        FieldType::U8
    }

    fn as_field_type() -> (r: FieldType) {
        FieldType::U8
    }
}

impl Writable for u8 {
    open spec fn datum(&self) -> FieldData {
        FieldData::U8(*self)
    }

    fn write(&self, buf: &mut Vec<u8>) {
        encode_vlq_int(buf, *self as u32);
    }
}

impl<'de> Readable<'de> for u8 {
    open spec fn read_type() -> FieldType {
        FieldType::U8
    }

    open spec fn read_datum(&self) -> FieldData {
        FieldData::U8(*self)
    }

    fn read(data: &mut &'de [u8]) -> (r: Result<Self, MessageDecodeError>) {
        match parse_vlq_int(data) {
            Ok(v) => Ok(v as u8),
            Err(e) => {
                assert(data@ =~= Seq::<u8>::empty());
                Err(e)
            },
        }
    }
}

impl Borrowable for u8 {
    type Borrowed<'a> = u8;

    open spec fn same<'a>(owned: Self, borrowed: u8) -> bool {
        owned == borrowed
    }

    fn from_borrowed<'a>(src: u8) -> (r: Self) {
        src
    }
}

impl ToFieldType for Vec<u8> {
    open spec fn field_type() -> FieldType {
        FieldType::ByteArray
    }

    fn as_field_type() -> (r: FieldType) {
        FieldType::ByteArray
    }
}

impl<'s> Writable for &'s [u8] {
    open spec fn datum(&self) -> FieldData {
        FieldData::Bytes(self@)
    }

    fn write(&self, buf: &mut Vec<u8>) {
        encode_vlq_int(buf, self.len() as u32);
        buf.extend_from_slice(self);
        assert(buf@ =~= old(buf)@ + field_encode(self.datum()));
    }
}

impl<'de> Readable<'de> for &'de [u8] {
    open spec fn read_type() -> FieldType {
        FieldType::ByteArray
    }

    open spec fn read_datum(&self) -> FieldData {
        FieldData::Bytes(self@)
    }

    fn read(data: &mut &'de [u8]) -> (r: Result<Self, MessageDecodeError>) {
        read_chunk(data)
    }
}

impl Borrowable for Vec<u8> {
    type Borrowed<'a> = &'a [u8];

    open spec fn same<'a>(owned: Self, borrowed: &'a [u8]) -> bool {
        owned@ == borrowed@
    }

    fn from_borrowed<'a>(src: &'a [u8]) -> (r: Self) {
        vstd::slice::slice_to_vec(src)
    }
}

impl ToFieldType for String {
    open spec fn field_type() -> FieldType {
        FieldType::String
    }

    fn as_field_type() -> (r: FieldType) {
        FieldType::String
    }
}

impl<'s> Writable for &'s str {
    open spec fn datum(&self) -> FieldData {
        FieldData::Text(self@)
    }

    fn write(&self, buf: &mut Vec<u8>) {
        let bytes = self.as_bytes();
        encode_vlq_int(buf, bytes.len() as u32);
        buf.extend_from_slice(bytes);
        assert(buf@ =~= old(buf)@ + field_encode(self.datum()));
    }
}

impl<'de> Readable<'de> for &'de str {
    open spec fn read_type() -> FieldType {
        FieldType::String
    }

    open spec fn read_datum(&self) -> FieldData {
        FieldData::Text(self@)
    }

    fn read(data: &mut &'de [u8]) -> (r: Result<Self, MessageDecodeError>) {
        match read_chunk(data) {
            Ok(b) => match checked_utf8(b) {
                Some(s) => {
                    proof {
                        vstd::utf8::encode_utf8_decode_utf8(s@);
                    }
                    Ok(s)
                },
                None => Err(MessageDecodeError::InvalidUtf8),
            },
            Err(e) => Err(e),
        }
    }
}

impl Borrowable for String {
    type Borrowed<'a> = &'a str;

    open spec fn same<'a>(owned: Self, borrowed: &'a str) -> bool {
        owned@ == borrowed@
    }

    fn from_borrowed<'a>(src: &'a str) -> (r: Self) {
        src.to_owned()
    }
}

// ---------------------------------------------------------------------------
// What the bytes mean
// ---------------------------------------------------------------------------

/// The number so far with more groups of seven bits behind it.
pub open spec fn vlq_more(number: int, bytes: Seq<u8>) -> int
    decreases bytes.len(),
{
    if bytes.len() == 0 {
        number
    } else {
        vlq_more(number * 128 + bytes[0] as int % 128, bytes.skip(1))
    }
}

/// The number that the bytes of a VLQ stand for: groups of seven bits, the most significant one
/// first. The first group counts as negative from 96 on.
pub open spec fn vlq_number(bytes: Seq<u8>) -> int {
    let first = bytes[0] as int % 128;
    vlq_more(
        if first >= 96 {
            first - 128
        } else {
            first
        },
        bytes.skip(1),
    )
}

/// Whether bytes are one VLQ: the high bit is set in each of them but the last.
pub open spec fn is_vlq(bytes: Seq<u8>) -> bool {
    &&& bytes.len() > 0
    &&& forall|i: int| 0 <= i < bytes.len() - 1 ==> #[trigger] bytes[i] >= 128
    &&& bytes[bytes.len() - 1] < 128
}

/// One group more.
proof fn vlq_more_group(number: int, group: u8, rest: Seq<u8>)
    requires
        group < 128,
    ensures
        vlq_more(number, seq![group] + rest) == vlq_more(number * 128 + group, rest),
        vlq_more(number, seq![(group + 128) as u8] + rest) == vlq_more(number * 128 + group, rest),
{
    assert((seq![group] + rest).skip(1) =~= rest);
    assert((seq![(group + 128) as u8] + rest).skip(1) =~= rest);
}

/// The encoding of a number is a VLQ that stands for it, as a signed number, and each length is
/// used for just the numbers that the next shorter one has no room for.
pub proof fn vlq_encoding_stands_for_its_number(v: u32)
    ensures
        is_vlq(vlq_encode(v)),
        vlq_number(vlq_encode(v)) == (v as i32) as int,
        vlq_encode(v).len() <= 1 <==> -32 <= (v as i32) < 96,
        vlq_encode(v).len() <= 2 <==> -4096 <= (v as i32) < 12288,
        vlq_encode(v).len() <= 3 <==> -524288 <= (v as i32) < 1572864,
        vlq_encode(v).len() <= 4 <==> -67108864 <= (v as i32) < 201326592,
        vlq_encode(v).len() <= 5,
{
    let s = v as i32;
    let g0 = vlq_group(s, 0);
    let g1 = vlq_group(s, 7);
    let g2 = vlq_group(s, 14);
    let g3 = vlq_group(s, 21);
    let g4 = vlq_group(s, 28);
    let e = vlq_encode(v);
    assert(g0 < 128 && g1 < 128 && g2 < 128 && g3 < 128 && g4 < 128) by (bit_vector)
        requires
            g0 == ((s >> 0i32) & 0x7F) as u8,
            g1 == ((s >> 7i32) & 0x7F) as u8,
            g2 == ((s >> 14i32) & 0x7F) as u8,
            g3 == ((s >> 21i32) & 0x7F) as u8,
            g4 == ((s >> 28i32) & 0x7F) as u8,
    ;
    assert(g1 | 0x80 == g1 + 128 && g2 | 0x80 == g2 + 128 && g3 | 0x80 == g3 + 128 && g4 | 0x80
        == g4 + 128) by (bit_vector)
        requires
            g1 < 128,
            g2 < 128,
            g3 < 128,
            g4 < 128,
    ;
    let none = Seq::<u8>::empty();
    let e0 = seq![g0] + none;
    let h1 = (g1 + 128) as u8;
    let h2 = (g2 + 128) as u8;
    let h3 = (g3 + 128) as u8;
    if -0x20 <= s < 0x60 {
        assert((if g0 >= 96 {
            g0 - 128
        } else {
            g0 as int
        }) == s) by (bit_vector)
            requires
                -0x20 <= s < 0x60,
                g0 == ((s >> 0i32) & 0x7F) as u8,
        ;
        assert(e.skip(1) =~= none);
    } else if -0x1000 <= s < 0x3000 {
        assert((if g1 >= 96 {
            g1 - 128
        } else {
            g1 as int
        }) * 128 + g0 == s) by (bit_vector)
            requires
                -0x1000 <= s < 0x3000,
                g0 == ((s >> 0i32) & 0x7F) as u8,
                g1 == ((s >> 7i32) & 0x7F) as u8,
        ;
        let n1 = if g1 >= 96 {
            g1 - 128
        } else {
            g1 as int
        };
        vlq_more_group(n1, g0, none);
        assert(e.skip(1) =~= e0);
    } else if -0x8_0000 <= s < 0x18_0000 {
        assert(((if g2 >= 96 {
            g2 - 128
        } else {
            g2 as int
        }) * 128 + g1) * 128 + g0 == s) by (bit_vector)
            requires
                -0x8_0000 <= s < 0x18_0000,
                g0 == ((s >> 0i32) & 0x7F) as u8,
                g1 == ((s >> 7i32) & 0x7F) as u8,
                g2 == ((s >> 14i32) & 0x7F) as u8,
        ;
        let n2 = if g2 >= 96 {
            g2 - 128
        } else {
            g2 as int
        };
        vlq_more_group(n2, g1, e0);
        let n1 = n2 * 128 + g1;
        vlq_more_group(n1, g0, none);
        assert(e.skip(1) =~= seq![h1] + e0);
    } else if -0x400_0000 <= s < 0xC00_0000 {
        assert((((if g3 >= 96 {
            g3 - 128
        } else {
            g3 as int
        }) * 128 + g2) * 128 + g1) * 128 + g0 == s) by (bit_vector)
            requires
                -0x400_0000 <= s < 0xC00_0000,
                g0 == ((s >> 0i32) & 0x7F) as u8,
                g1 == ((s >> 7i32) & 0x7F) as u8,
                g2 == ((s >> 14i32) & 0x7F) as u8,
                g3 == ((s >> 21i32) & 0x7F) as u8,
        ;
        let n3 = if g3 >= 96 {
            g3 - 128
        } else {
            g3 as int
        };
        vlq_more_group(n3, g2, seq![h1] + e0);
        let n2 = n3 * 128 + g2;
        vlq_more_group(n2, g1, e0);
        let n1 = n2 * 128 + g1;
        vlq_more_group(n1, g0, none);
        assert(e.skip(1) =~= seq![h2] + (seq![h1] + e0));
    } else {
        assert(((((if g4 >= 96 {
            g4 - 128
        } else {
            g4 as int
        }) * 128 + g3) * 128 + g2) * 128 + g1) * 128 + g0 == s) by (bit_vector)
            requires
                g0 == ((s >> 0i32) & 0x7F) as u8,
                g1 == ((s >> 7i32) & 0x7F) as u8,
                g2 == ((s >> 14i32) & 0x7F) as u8,
                g3 == ((s >> 21i32) & 0x7F) as u8,
                g4 == ((s >> 28i32) & 0x7F) as u8,
        ;
        let n4 = if g4 >= 96 {
            g4 - 128
        } else {
            g4 as int
        };
        vlq_more_group(n4, g3, seq![h2] + (seq![h1] + e0));
        let n3 = n4 * 128 + g3;
        vlq_more_group(n3, g2, seq![h1] + e0);
        let n2 = n3 * 128 + g2;
        vlq_more_group(n2, g1, e0);
        let n1 = n2 * 128 + g1;
        vlq_more_group(n1, g0, none);
        assert(e.skip(1) =~= seq![h3] + (seq![h2] + (seq![h1] + e0)));
    }
}

/// One step of reading a VLQ, in arithmetic.
proof fn vlq_steps(v: u32, c: u8)
    ensures
        vlq_shift_in(v, c) == (v * 128 + c % 128) % 0x1_0000_0000,
        (c & 0x80 == 0) == (c < 128),
        vlq_first(c) as int == (if c % 128 >= 96 {
            c % 128 + 0xFFFF_FF80
        } else {
            c as int % 128
        }),
{
    assert(vlq_shift_in(v, c) == (v * 128 + c % 128) % 0x1_0000_0000) by (bit_vector);
    assert((c & 0x80 == 0) == (c < 128)) by (bit_vector);
    assert(c % 128 >= 96 ==> vlq_first(c) == c % 128 + 0xFFFF_FF80u32) by (bit_vector);
    assert(c % 128 < 96 ==> vlq_first(c) == c % 128) by (bit_vector);
}

/// Going on modulo 2^32 is the same as going on and then reducing.
proof fn shift_in_modulo(number: int, x: int)
    ensures
        ((number % 0x1_0000_0000) * 128 + x) % 0x1_0000_0000 == (number * 128 + x) % 0x1_0000_0000,
{
    let q = number / 0x1_0000_0000;
    let v = number % 0x1_0000_0000;
    assert(number * 128 + x == 0x1_0000_0000 * (128 * q) + (v * 128 + x));
    vstd::arithmetic::div_mod::lemma_mod_multiples_vanish(128 * q, v * 128 + x, 0x1_0000_0000);
}

proof fn vlq_continues_with_its_number(v: u32, number: int, bytes: Seq<u8>, rest: Seq<u8>)
    requires
        is_vlq(bytes),
        v == number % 0x1_0000_0000,
    ensures
        vlq_continue(v, bytes + rest) matches Some((w, left)) && left == rest && w == vlq_more(
            number,
            bytes,
        ) % 0x1_0000_0000,
    decreases bytes.len(),
{
    let input = bytes + rest;
    let c = bytes[0];
    let next = number * 128 + c as int % 128;
    vlq_steps(v, c);
    shift_in_modulo(number, c as int % 128);
    assert(input.skip(1) =~= bytes.skip(1) + rest);
    if bytes.len() == 1 {
        assert(bytes.skip(1) + rest =~= rest);
        assert(vlq_more(next, bytes.skip(1)) == next);
    } else {
        let more = bytes.skip(1);
        assert forall|i: int| 0 <= i < more.len() - 1 implies #[trigger] more[i] >= 128 by {
            assert(more[i] == bytes[i + 1]);
        }
        assert(bytes[0] >= 128);
        vlq_continues_with_its_number(vlq_shift_in(v, c), next, more, rest);
    }
}

/// Reading takes the VLQ off the front of the input, whatever follows, and gives the number that it
/// stands for, in 32 bits.
pub proof fn vlq_is_read_as_its_number(bytes: Seq<u8>, rest: Seq<u8>)
    requires
        is_vlq(bytes),
    ensures
        vlq_decode(bytes + rest) matches Some((v, left)) && left == rest && v == vlq_number(bytes)
            % 0x1_0000_0000,
{
    let input = bytes + rest;
    let c = bytes[0];
    let first = if c as int % 128 >= 96 {
        c as int % 128 - 128
    } else {
        c as int % 128
    };
    vlq_steps(0, c);
    assert(vlq_first(c) == first % 0x1_0000_0000);
    assert(input.skip(1) =~= bytes.skip(1) + rest);
    if bytes.len() == 1 {
        assert(bytes.skip(1) + rest =~= rest);
    } else {
        let more = bytes.skip(1);
        assert forall|i: int| 0 <= i < more.len() - 1 implies #[trigger] more[i] >= 128 by {
            assert(more[i] == bytes[i + 1]);
        }
        assert(bytes[0] >= 128);
        vlq_continues_with_its_number(vlq_first(c), first, more, rest);
    }
}

proof fn vlq_continue_cut_off(v: u32, input: Seq<u8>)
    requires
        forall|i: int| 0 <= i < input.len() ==> #[trigger] input[i] >= 128,
    ensures
        vlq_continue(v, input) is None,
    decreases input.len(),
{
    if input.len() > 0 {
        vlq_steps(v, input[0]);
        let more = input.skip(1);
        assert forall|i: int| 0 <= i < more.len() implies #[trigger] more[i] >= 128 by {
            assert(more[i] == input[i + 1]);
        }
        vlq_continue_cut_off(vlq_shift_in(v, input[0]), more);
    }
}

/// An input in which each byte has its high bit set ends within a VLQ, and an empty one has none.
pub proof fn cut_off_vlq_is_not_read(input: Seq<u8>)
    requires
        forall|i: int| 0 <= i < input.len() ==> #[trigger] input[i] >= 128,
    ensures
        vlq_decode(input) is None,
{
    if input.len() > 0 {
        vlq_steps(0, input[0]);
        let more = input.skip(1);
        assert forall|i: int| 0 <= i < more.len() implies #[trigger] more[i] >= 128 by {
            assert(more[i] == input[i + 1]);
        }
        vlq_continue_cut_off(vlq_first(input[0]), more);
    }
}

/// An integer argument is written as the VLQ that stands for it.
pub proof fn integer_field_is_written_as_a_vlq(d: FieldData)
    ensures
        match d {
            FieldData::U32(v) => is_vlq(field_encode(d)) && vlq_number(field_encode(d)) == (
            v as i32) as int,
            FieldData::I32(v) => is_vlq(field_encode(d)) && vlq_number(field_encode(d)) == v,
            FieldData::U16(v) => is_vlq(field_encode(d)) && vlq_number(field_encode(d)) == v,
            FieldData::I16(v) => is_vlq(field_encode(d)) && vlq_number(field_encode(d)) == v,
            FieldData::U8(v) => is_vlq(field_encode(d)) && vlq_number(field_encode(d)) == v,
            FieldData::Text(s) => field_encode(d) == vlq_encode(
                vstd::utf8::encode_utf8(s).len() as u32,
            ) + vstd::utf8::encode_utf8(s),
            FieldData::Bytes(b) => field_encode(d) == vlq_encode(b.len() as u32) + b,
        },
{
    match d {
        FieldData::U32(v) => {
            vlq_encoding_stands_for_its_number(v);
        },
        FieldData::I32(v) => {
            vlq_encoding_stands_for_its_number(v as u32);
            assert((v as u32) as i32 == v) by (bit_vector);
        },
        FieldData::U16(v) => {
            vlq_encoding_stands_for_its_number(v as u32);
            assert((v as u32) as i32 == v) by (bit_vector);
        },
        FieldData::I16(v) => {
            vlq_encoding_stands_for_its_number(v as u32);
            assert((v as u32) as i32 == v) by (bit_vector);
        },
        FieldData::U8(v) => {
            vlq_encoding_stands_for_its_number(v as u32);
            assert((v as u32) as i32 == v) by (bit_vector);
        },
        _ => {},
    }
}

/// An integer argument is read as the VLQ at the front of the input, cut to the width of its type.
/// A string or byte array is read as a length, a VLQ, and as many bytes; where fewer are left, it
/// is not there. A string must be UTF-8.
pub proof fn fields_are_read_by_their_types(input: Seq<u8>)
    ensures
        match vlq_decode(input) {
            Some((v, rest)) => {
                &&& field_decode(FieldType::U32, input) == (Decoded {
                    result: Ok::<FieldData, MessageDecodeError>(FieldData::U32(v)),
                    rest,
                })
                &&& field_decode(FieldType::I32, input).rest == rest
                &&& field_decode(FieldType::I32, input).result matches Ok(FieldData::I32(x)) && (x
                    - v) % 0x1_0000_0000 == 0
                &&& field_decode(FieldType::U16, input).rest == rest
                &&& field_decode(FieldType::U16, input).result matches Ok(FieldData::U16(x)) && x
                    == v % 0x1_0000
                &&& field_decode(FieldType::I16, input).rest == rest
                &&& field_decode(FieldType::I16, input).result matches Ok(FieldData::I16(x)) && (x
                    - v) % 0x1_0000 == 0
                &&& field_decode(FieldType::U8, input).rest == rest
                &&& field_decode(FieldType::U8, input).result matches Ok(FieldData::U8(x)) && x
                    == v % 0x100
                &&& v <= rest.len() ==> {
                    let bytes = rest.take(v as int);
                    &&& field_decode(FieldType::ByteArray, input) == (Decoded {
                        result: Ok::<FieldData, MessageDecodeError>(FieldData::Bytes(bytes)),
                        rest: rest.skip(v as int),
                    })
                    &&& field_decode(FieldType::String, input) == (Decoded {
                        result: if vstd::utf8::valid_utf8(bytes) {
                            Ok::<FieldData, MessageDecodeError>(
                                FieldData::Text(vstd::utf8::decode_utf8(bytes)),
                            )
                        } else {
                            Err::<FieldData, MessageDecodeError>(MessageDecodeError::InvalidUtf8)
                        },
                        rest: rest.skip(v as int),
                    })
                }
                &&& v > rest.len() ==> {
                    let missing = Decoded {
                        result: Err::<FieldData, MessageDecodeError>(
                            MessageDecodeError::InsufficientData,
                        ),
                        rest,
                    };
                    &&& field_decode(FieldType::ByteArray, input) == missing
                    &&& field_decode(FieldType::String, input) == missing
                }
            },
            None => forall|ty: FieldType| #[trigger]
                field_decode(ty, input).result == Err::<FieldData, MessageDecodeError>(
                    MessageDecodeError::InsufficientData,
                ) && field_decode(ty, input).rest.len() == 0,
        },
{
    if let Some((v, rest)) = vlq_decode(input) {
        assert((v as i32 - v) % 0x1_0000_0000 == 0 && v as u16 == v % 0x1_0000 && (v as i16 - v)
            % 0x1_0000 == 0 && v as u8 == v % 0x100) by (bit_vector);
    }
}

/// Whether a text is one of the eight directives, and of which type.
pub open spec fn is_directive_of(s: Seq<char>, ty: FieldType) -> bool {
    match ty {
        FieldType::U32 => s == seq!['%', 'u'],
        FieldType::I32 => s == seq!['%', 'i'],
        FieldType::U16 => s == seq!['%', 'h', 'u'],
        FieldType::I16 => s == seq!['%', 'h', 'i'],
        FieldType::U8 => s == seq!['%', 'c'],
        FieldType::String => s == seq!['%', 's'],
        FieldType::ByteArray => s == seq!['%', '*', 's'] || s == seq!['%', '.', '*', 's'],
    }
}

/// There are eight directives: each names its type, also where more text follows, and nothing else
/// names a type.
pub proof fn eight_directives_name_types(s: Seq<char>, ty: FieldType, rest: Seq<char>)
    ensures
        named_type(s) == Some(ty) <==> is_directive_of(s, ty),
        is_directive_of(s, ty) ==> leading_directive(s + rest) == Some((ty, s.len() as int)),
        leading_directive(s) == Some((ty, s.len() as int)) <==> is_directive_of(s, ty),
{
    let all = s + rest;
    starts_with_by_chars(s, seq!['%', 'u']);
    starts_with_by_chars(s, seq!['%', 'i']);
    starts_with_by_chars(s, seq!['%', 'h', 'u']);
    starts_with_by_chars(s, seq!['%', 'h', 'i']);
    starts_with_by_chars(s, seq!['%', 'c']);
    starts_with_by_chars(s, seq!['%', 's']);
    starts_with_by_chars(s, seq!['%', '*', 's']);
    starts_with_by_chars(s, seq!['%', '.', '*', 's']);
    starts_with_by_chars(all, seq!['%', 'u']);
    starts_with_by_chars(all, seq!['%', 'i']);
    starts_with_by_chars(all, seq!['%', 'h', 'u']);
    starts_with_by_chars(all, seq!['%', 'h', 'i']);
    starts_with_by_chars(all, seq!['%', 'c']);
    starts_with_by_chars(all, seq!['%', 's']);
    starts_with_by_chars(all, seq!['%', '*', 's']);
    starts_with_by_chars(all, seq!['%', '.', '*', 's']);
    assert(s.take(s.len() as int) =~= s);
    assert forall|i: int| 0 <= i < s.len() implies #[trigger] all[i] == s[i] by {}
}

/// Integers are shown in decimal, strings as they are, and byte arrays in brackets, with a comma
/// and a space between each two bytes.
pub proof fn values_are_shown(n: int, s: Seq<char>, b: Seq<u8>, last: u8)
    ensures
        0 <= n <= u32::MAX ==> value_text(FieldData::U32(n as u32)) == crate::text::decimal(n as nat),
        0 <= n <= u16::MAX ==> value_text(FieldData::U16(n as u16)) == crate::text::decimal(n as nat),
        0 <= n <= u8::MAX ==> value_text(FieldData::U8(n as u8)) == crate::text::decimal(n as nat),
        i32::MIN <= n <= i32::MAX ==> value_text(FieldData::I32(n as i32))
            == crate::text::signed_decimal(n),
        i16::MIN <= n <= i16::MAX ==> value_text(FieldData::I16(n as i16))
            == crate::text::signed_decimal(n),
        value_text(FieldData::Text(s)) == s,
        value_text(FieldData::Bytes(Seq::empty())) == seq!['[', ']'],
        value_text(FieldData::Bytes(seq![last])) == seq!['['] + crate::text::decimal(last as nat) + seq![
            ']',
        ],
        b.len() > 0 ==> value_text(FieldData::Bytes(b.push(last))) == value_text(
            FieldData::Bytes(b),
        ).drop_last() + seq![',', ' '] + crate::text::decimal(last as nat) + seq![']'],
{
    assert(value_text(FieldData::Bytes(Seq::empty())) =~= seq!['[', ']']);
    assert(b.push(last).drop_last() =~= b);
    assert(value_text(FieldData::Bytes(b)).drop_last() =~= seq!['['] + joined_decimals(b));
    if b.len() > 0 {
        assert(value_text(FieldData::Bytes(b.push(last))) =~= value_text(
            FieldData::Bytes(b),
        ).drop_last() + seq![',', ' '] + crate::text::decimal(last as nat) + seq![']']);
    }
}

/// A directive that is found at the start of a text is one of the eight.
pub proof fn leading_directive_is_a_directive(s: Seq<char>)
    ensures
        leading_directive(s) matches Some((ty, n)) ==> 2 <= n <= s.len() && is_directive_of(
            s.take(n),
            ty,
        ),
{
}

/// A value holds just what it is made of.
pub proof fn field_values_hold_their_contents(
    n: u32,
    i: i32,
    h: u16,
    j: i16,
    c: u8,
    s: String,
    b: Vec<u8>,
)
    ensures
        FieldValue::U32(n)@ == FieldData::U32(n),
        FieldValue::I32(i)@ == FieldData::I32(i),
        FieldValue::U16(h)@ == FieldData::U16(h),
        FieldValue::I16(j)@ == FieldData::I16(j),
        FieldValue::U8(c)@ == FieldData::U8(c),
        FieldValue::String(s)@ == FieldData::Text(s@),
        FieldValue::ByteArray(b)@ == FieldData::Bytes(b@),
        type_of(FieldData::U32(n)) == FieldType::U32,
        type_of(FieldData::I32(i)) == FieldType::I32,
        type_of(FieldData::U16(h)) == FieldType::U16,
        type_of(FieldData::I16(j)) == FieldType::I16,
        type_of(FieldData::U8(c)) == FieldType::U8,
        type_of(FieldData::Text(s@)) == FieldType::String,
        type_of(FieldData::Bytes(b@)) == FieldType::ByteArray,
{
}

/// A Rust value is written and read as the argument that holds just that value.
pub proof fn rust_values_are_their_arguments(
    n: u32,
    i: i32,
    h: u16,
    j: i16,
    c: u8,
    s: &str,
    b: &[u8],
)
    ensures
        <u32 as Writable>::datum(&n) == FieldData::U32(n),
        <i32 as Writable>::datum(&i) == FieldData::I32(i),
        <u16 as Writable>::datum(&h) == FieldData::U16(h),
        <i16 as Writable>::datum(&j) == FieldData::I16(j),
        <u8 as Writable>::datum(&c) == FieldData::U8(c),
        <&str as Writable>::datum(&s) == FieldData::Text(s@),
        <&[u8] as Writable>::datum(&b) == FieldData::Bytes(b@),
        <u32 as Readable>::read_datum(&n) == FieldData::U32(n),
        <i32 as Readable>::read_datum(&i) == FieldData::I32(i),
        <u16 as Readable>::read_datum(&h) == FieldData::U16(h),
        <i16 as Readable>::read_datum(&j) == FieldData::I16(j),
        <u8 as Readable>::read_datum(&c) == FieldData::U8(c),
        <&str as Readable>::read_datum(&s) == FieldData::Text(s@),
        <&[u8] as Readable>::read_datum(&b) == FieldData::Bytes(b@),
        <u32 as Readable>::read_type() == FieldType::U32,
        <i32 as Readable>::read_type() == FieldType::I32,
        <u16 as Readable>::read_type() == FieldType::U16,
        <i16 as Readable>::read_type() == FieldType::I16,
        <u8 as Readable>::read_type() == FieldType::U8,
        <&str as Readable>::read_type() == FieldType::String,
        <&[u8] as Readable>::read_type() == FieldType::ByteArray,
        <u32 as ToFieldType>::field_type() == FieldType::U32,
        <i32 as ToFieldType>::field_type() == FieldType::I32,
        <u16 as ToFieldType>::field_type() == FieldType::U16,
        <i16 as ToFieldType>::field_type() == FieldType::I16,
        <u8 as ToFieldType>::field_type() == FieldType::U8,
        <String as ToFieldType>::field_type() == FieldType::String,
        <Vec<u8> as ToFieldType>::field_type() == FieldType::ByteArray,
{
}

/// An owned value holds what the borrowed one holds that it was made of, and nothing else.
pub proof fn owned_values_hold_the_same(
    n: (u32, u32),
    i: (i32, i32),
    h: (u16, u16),
    j: (i16, i16),
    c: (u8, u8),
    s: (String, &str),
    b: (Vec<u8>, &[u8]),
)
    ensures
        <u32 as Borrowable>::same(n.0, n.1) <==> n.0 == n.1,
        <i32 as Borrowable>::same(i.0, i.1) <==> i.0 == i.1,
        <u16 as Borrowable>::same(h.0, h.1) <==> h.0 == h.1,
        <i16 as Borrowable>::same(j.0, j.1) <==> j.0 == j.1,
        <u8 as Borrowable>::same(c.0, c.1) <==> c.0 == c.1,
        <String as Borrowable>::same(s.0, s.1) <==> s.0@ == s.1@,
        <Vec<u8> as Borrowable>::same(b.0, b.1) <==> b.0@ == b.1@,
{
}

} // verus!
