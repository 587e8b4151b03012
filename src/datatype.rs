//! Column types and the codec of a single column value.
use vstd::prelude::*;
use vstd::utf8::{decode_utf8, encode_utf8, valid_utf8};
use vstd::string::StringSliceAdditionalSpecFns;
use crate::bytes::{
    be_u16_at, be_u16_bytes, be_u32_at, be_u32_bytes, lemma_be_u16_round_trip,
    lemma_be_u32_round_trip, push_all, push_u16, push_u32, read_u16, read_u32,
};

verus! {

broadcast use vstd::utf8::group_utf8_lib;

/// Seconds in a day: a time of day counts strictly fewer.
pub const SECONDS_PER_DAY: u32 = 86400;

/// Longest text payload, in UTF-8 bytes, that a `u16` length prefix can announce.
pub const MAX_TEXT_BYTES: usize = 65535;

/// The closed set of column types.
#[derive(Debug, Clone, Copy, PartialEq, Eq, Structural)]
pub enum DataType {
    Number,
    Float,
    DateTime,
    Date,
    Text,
    Boolean,
}

/// One column value, tagged by its type.
///
/// A `Float` is held as the bits of its IEEE-754 single-precision pattern. A
/// `Date` is a day count from 1970-01-01 in the proleptic Gregorian calendar;
/// a `DateTime` adds whole seconds since midnight.
#[derive(Debug, Clone, PartialEq)]
pub enum Value {
    Number(i32),
    Float(u32),
    DateTime { days: i32, seconds: u32 },
    Date { days: i32 },
    Text(String),
    Boolean(bool),
}

/// What a `Value` denotes: the same variants, with text as characters.
pub enum ValueView {
    Number(i32),
    Float(u32),
    DateTime { days: i32, seconds: u32 },
    Date { days: i32 },
    Text(Seq<char>),
    Boolean(bool),
}

impl View for Value {
    type V = ValueView;

    open spec fn view(&self) -> ValueView {
        match self {
            Value::Number(x) => ValueView::Number(*x),
            Value::Float(x) => ValueView::Float(*x),
            Value::DateTime { days, seconds } => ValueView::DateTime {
                days: *days,
                seconds: *seconds,
            },
            Value::Date { days } => ValueView::Date { days: *days },
            Value::Text(s) => ValueView::Text(s@),
            Value::Boolean(b) => ValueView::Boolean(*b),
        }
    }
}

/// Why a value could not be decoded.
#[derive(Debug, Clone, Copy, PartialEq, Eq, Structural)]
pub enum DecodeError {
    /// The buffer holds `got` bytes where the value needs `expected`.
    InsufficientBytes { expected: usize, got: usize },
    /// A text payload is not valid UTF-8.
    InvalidUtf8,
    /// A day or second count names no calendar date or time of day.
    InvalidCalendarValue,
}

/// Whether chrono's calendar has a date `days` days after 1970-01-01.
pub uninterp spec fn is_epoch_day(days: i32) -> bool;

/// Relies on chrono's `NaiveDate::from_epoch_days`: it returns a date exactly
/// when `days` days after 1970-01-01 lies in the range of dates chrono models.
#[verifier::external_body]
fn epoch_day_exists(days: i32) -> (r: bool)
    ensures
        r == is_epoch_day(days),
{
    chrono::NaiveDate::from_epoch_days(days).is_some()
}

/// Relies on chrono's `NaiveTime::from_num_seconds_from_midnight_opt`: with no
/// fraction, it returns a time exactly when `secs` is under 86400.
#[verifier::external_body]
fn second_of_day_exists(secs: u32) -> (r: bool)
    ensures
        r == (secs < SECONDS_PER_DAY),
{
    chrono::NaiveTime::from_num_seconds_from_midnight_opt(secs, 0).is_some()
}

/// Relies on `String::from_utf8`: it accepts exactly the valid UTF-8 byte
/// strings, and the string it builds holds the characters they encode.
#[verifier::external_body]
fn utf8_string(bytes: &[u8]) -> (r: Option<String>)
    ensures
        r is Some <==> valid_utf8(bytes@),
        r matches Some(s) ==> s@ == decode_utf8(bytes@),
{
    String::from_utf8(bytes.to_vec()).ok()
}

impl ValueView {
    /// The column type this value belongs to.
    pub open spec fn data_type(self) -> DataType {
        match self {
            ValueView::Number(_) => DataType::Number,
            ValueView::Float(_) => DataType::Float,
            ValueView::DateTime { .. } => DataType::DateTime,
            ValueView::Date { .. } => DataType::Date,
            ValueView::Text(_) => DataType::Text,
            ValueView::Boolean(_) => DataType::Boolean,
        }
    }

    /// The value has an encoding: a text's UTF-8 length fits its `u16` prefix.
    pub open spec fn encodable(self) -> bool {
        match self {
            ValueView::Text(s) => encode_utf8(s).len() <= MAX_TEXT_BYTES,
            _ => true,
        }
    }

    /// The value is encodable and, for dates and times, names a real calendar value.
    pub open spec fn valid(self) -> bool {
        match self {
            ValueView::Text(s) => encode_utf8(s).len() <= MAX_TEXT_BYTES,
            ValueView::Date { days } => is_epoch_day(days),
            ValueView::DateTime { days, seconds } => is_epoch_day(days) && seconds
                < SECONDS_PER_DAY,
            _ => true,
        }
    }
}

/// The bytes of one value: the layout of its column type.
pub open spec fn encode_value(v: ValueView) -> Seq<u8> {
    match v {
        ValueView::Number(x) => be_u32_bytes(x as u32),
        ValueView::Float(bits) => be_u32_bytes(bits),
        ValueView::DateTime { days, seconds } => be_u32_bytes(days as u32) + be_u32_bytes(
            seconds,
        ),
        ValueView::Date { days } => be_u32_bytes(days as u32),
        ValueView::Text(s) => be_u16_bytes(encode_utf8(s).len() as u16) + encode_utf8(s),
        ValueView::Boolean(b) => seq![if b { 1u8 } else { 0u8 }],
    }
}

/// The error for a buffer of `len` bytes where `need` are required.
pub open spec fn short(need: int, len: int) -> DecodeError {
    DecodeError::InsufficientBytes { expected: need as usize, got: len as usize }
}

/// Decoding a value of type `t` from the front of `b`: the value and the
/// number of bytes it took, or the first reason it fails.
pub open spec fn decode_value(t: DataType, b: Seq<u8>) -> Result<(ValueView, int), DecodeError> {
    match t {
        DataType::Number => if b.len() < 4 {
            Err(short(4, b.len() as int))
        } else {
            Ok((ValueView::Number(be_u32_at(b, 0) as i32), 4))
        },
        DataType::Float => if b.len() < 4 {
            Err(short(4, b.len() as int))
        } else {
            Ok((ValueView::Float(be_u32_at(b, 0)), 4))
        },
        DataType::Boolean => if b.len() < 1 {
            Err(short(1, b.len() as int))
        } else {
            Ok((ValueView::Boolean(b[0] == 1), 1))
        },
        DataType::Text => if b.len() < 2 {
            Err(short(2, b.len() as int))
        } else {
            let n = be_u16_at(b, 0) as int;
            if b.len() < 2 + n {
                Err(short(2 + n, b.len() as int))
            } else if !valid_utf8(b.subrange(2, 2 + n)) {
                Err(DecodeError::InvalidUtf8)
            } else {
                Ok((ValueView::Text(decode_utf8(b.subrange(2, 2 + n))), 2 + n))
            }
        },
        DataType::Date => if b.len() < 4 {
            Err(short(4, b.len() as int))
        } else {
            let days = be_u32_at(b, 0) as i32;
            if !is_epoch_day(days) {
                Err(DecodeError::InvalidCalendarValue)
            } else {
                Ok((ValueView::Date { days }, 4))
            }
        },
        DataType::DateTime => if b.len() < 8 {
            Err(short(8, b.len() as int))
        } else {
            let days = be_u32_at(b, 0) as i32;
            let seconds = be_u32_at(b, 4);
            if !is_epoch_day(days) || seconds >= SECONDS_PER_DAY {
                Err(DecodeError::InvalidCalendarValue)
            } else {
                Ok((ValueView::DateTime { days, seconds }, 8))
            }
        },
    }
}

impl Value {
    /// The column type this value belongs to.
    pub fn data_type(&self) -> (r: DataType)
        ensures
            r == self@.data_type(),
    {
        match self {
            Value::Number(_) => DataType::Number,
            Value::Float(_) => DataType::Float,
            Value::DateTime { .. } => DataType::DateTime,
            Value::Date { .. } => DataType::Date,
            Value::Text(_) => DataType::Text,
            Value::Boolean(_) => DataType::Boolean,
        }
    }

    /// Whether the value has an encoding.
    pub fn is_encodable(&self) -> (r: bool)
        ensures
            r == self@.encodable(),
    {
        match self {
            Value::Text(s) => s.as_str().as_bytes().len() <= MAX_TEXT_BYTES,
            _ => true,
        }
    }
}

impl DataType {
    /// Encodes a value of this type.
    pub fn to_u8(&self, value: &Value) -> (r: Vec<u8>)
        requires
            value@.data_type() == *self,
            value@.encodable(),
        ensures
            r@ == encode_value(value@),
    {
        let mut bytes: Vec<u8> = Vec::new();
        match value {
            Value::Number(x) => push_u32(&mut bytes, *x as u32),
            Value::Float(bits) => push_u32(&mut bytes, *bits),
            Value::Boolean(b) => bytes.push(if *b { 1u8 } else { 0u8 }),
            Value::Text(s) => {
                let payload = s.as_str().as_bytes();
                push_u16(&mut bytes, payload.len() as u16);
                push_all(&mut bytes, payload);
            },
            Value::Date { days } => push_u32(&mut bytes, *days as u32),
            Value::DateTime { days, seconds } => {
                push_u32(&mut bytes, *days as u32);
                push_u32(&mut bytes, *seconds);
            },
        }
        assert(bytes@ =~= encode_value(value@));
        bytes
    }

    /// Decodes a value of this type from the front of `buffer`, with the
    /// number of bytes it took.
    pub fn from_u8(&self, buffer: &[u8]) -> (r: Result<(Value, usize), DecodeError>)
        ensures
            match decode_value(*self, buffer@) {
                Ok((v, n)) => r matches Ok((w, m)) && w@ == v && m == n,
                Err(e) => r == Err::<(Value, usize), DecodeError>(e),
            },
    {
        let len = buffer.len();
        match self {
            DataType::Number => {
                if len < 4 {
                    return Err(DecodeError::InsufficientBytes { expected: 4, got: len });
                }
                Ok((Value::Number(read_u32(buffer, 0) as i32), 4))
            },
            DataType::Float => {
                if len < 4 {
                    return Err(DecodeError::InsufficientBytes { expected: 4, got: len });
                }
                Ok((Value::Float(read_u32(buffer, 0)), 4))
            },
            DataType::Boolean => {
                if len < 1 {
                    return Err(DecodeError::InsufficientBytes { expected: 1, got: len });
                }
                Ok((Value::Boolean(buffer[0] == 1), 1))
            },
            DataType::Text => {
                if len < 2 {
                    return Err(DecodeError::InsufficientBytes { expected: 2, got: len });
                }
                let n = read_u16(buffer, 0) as usize;
                if len - 2 < n {
                    return Err(DecodeError::InsufficientBytes { expected: n + 2, got: len });
                }
                let payload = vstd::slice::slice_subrange(buffer, 2, n + 2);
                match utf8_string(payload) {
                    Some(s) => Ok((Value::Text(s), n + 2)),
                    None => Err(DecodeError::InvalidUtf8),
                }
            },
            DataType::Date => {
                if len < 4 {
                    return Err(DecodeError::InsufficientBytes { expected: 4, got: len });
                }
                let days = read_u32(buffer, 0) as i32;
                if !epoch_day_exists(days) {
                    return Err(DecodeError::InvalidCalendarValue);
                }
                Ok((Value::Date { days }, 4))
            },
            DataType::DateTime => {
                if len < 8 {
                    return Err(DecodeError::InsufficientBytes { expected: 8, got: len });
                }
                let days = read_u32(buffer, 0) as i32;
                let seconds = read_u32(buffer, 4);
                if !epoch_day_exists(days) || !second_of_day_exists(seconds) {
                    return Err(DecodeError::InvalidCalendarValue);
                }
                Ok((Value::DateTime { days, seconds }, 8))
            },
        }
    }
}

/// Decoding the encoding of a valid value, whatever bytes follow it, gives
/// back the value and the length of its encoding.
pub proof fn lemma_decode_encoded_value(v: ValueView, rest: Seq<u8>)
    requires
        v.valid(),
    ensures
        decode_value(v.data_type(), encode_value(v) + rest) == Ok::<(ValueView, int), DecodeError>(
            (v, encode_value(v).len() as int),
        ),
{
    let e = encode_value(v);
    let b = e + rest;
    assert(b.subrange(0, e.len() as int) =~= e);
    match v {
        ValueView::Number(x) => {
            assert(b.subrange(0, 4) =~= be_u32_bytes(x as u32));
            lemma_be_u32_round_trip(b, 0, x as u32);
            assert((x as u32) as i32 == x) by (bit_vector);
        },
        ValueView::Float(bits) => {
            assert(b.subrange(0, 4) =~= be_u32_bytes(bits));
            lemma_be_u32_round_trip(b, 0, bits);
        },
        ValueView::Date { days } => {
            assert(b.subrange(0, 4) =~= be_u32_bytes(days as u32));
            lemma_be_u32_round_trip(b, 0, days as u32);
            assert((days as u32) as i32 == days) by (bit_vector);
        },
        ValueView::DateTime { days, seconds } => {
            assert(b.subrange(0, 4) =~= be_u32_bytes(days as u32));
            assert(b.subrange(4, 8) =~= be_u32_bytes(seconds));
            lemma_be_u32_round_trip(b, 0, days as u32);
            lemma_be_u32_round_trip(b, 4, seconds);
            assert((days as u32) as i32 == days) by (bit_vector);
        },
        ValueView::Text(s) => {
            let u = encode_utf8(s);
            assert(b.subrange(0, 2) =~= be_u16_bytes(u.len() as u16));
            lemma_be_u16_round_trip(b, 0, u.len() as u16);
            assert(b.subrange(2, 2 + u.len() as int) =~= u);
        },
        ValueView::Boolean(x) => {},
    }
}

/// Decoding the encoding of a valid value gives back the value and the length
/// of its encoding.
pub proof fn lemma_value_round_trip(v: ValueView)
    requires
        v.valid(),
    ensures
        decode_value(v.data_type(), encode_value(v)) == Ok::<(ValueView, int), DecodeError>(
            (v, encode_value(v).len() as int),
        ),
{
    lemma_decode_encoded_value(v, Seq::empty());
    assert(encode_value(v) + Seq::<u8>::empty() =~= encode_value(v));
}

/// A buffer shorter than the fixed width of a type is refused as too short,
/// naming that width and the buffer's length.
pub proof fn lemma_truncated_input(t: DataType, b: Seq<u8>)
    requires
        t != DataType::Text,
        b.len() < fixed_width(t),
    ensures
        decode_value(t, b) == Err::<(ValueView, int), DecodeError>(short(fixed_width(t), b.len() as int)),
{
}

/// A text buffer too short for its length prefix, or for the payload that
/// prefix announces, is refused as too short.
pub proof fn lemma_truncated_text(b: Seq<u8>)
    requires
        b.len() < 2 || b.len() < 2 + be_u16_at(b, 0),
    ensures
        decode_value(DataType::Text, b) matches Err(DecodeError::InsufficientBytes { .. }),
{
}

/// The width of the types whose encoding has a fixed length.
pub open spec fn fixed_width(t: DataType) -> int {
    match t {
        DataType::Number | DataType::Float | DataType::Date => 4,
        DataType::DateTime => 8,
        DataType::Boolean => 1,
        DataType::Text => 2,
    }
}

} // verus!
