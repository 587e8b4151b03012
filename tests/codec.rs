use page_store::datatype::{DataType, DecodeError, Value};
use page_store::row::{Row, RowDecodeError};

fn text(s: &str) -> Value {
    Value::Text(s.to_string())
}

fn round_trip(t: DataType, v: Value, width: usize) {
    let bytes = t.to_u8(&v);
    assert_eq!(bytes.len(), width);
    let (back, used) = t.from_u8(&bytes).unwrap();
    assert_eq!(back, v);
    assert_eq!(used, width);
}

#[test]
fn number_encodes_big_endian() {
    assert_eq!(DataType::Number.to_u8(&Value::Number(42)), vec![0, 0, 0, 0x2A]);
    assert_eq!(DataType::Number.to_u8(&Value::Number(-2)), vec![0xFF, 0xFF, 0xFF, 0xFE]);
}

#[test]
fn float_encodes_ieee_bits() {
    let v = Value::Float(1.5f32.to_bits());
    assert_eq!(DataType::Float.to_u8(&v), vec![0x3F, 0xC0, 0, 0]);
}

#[test]
fn boolean_encodes_one_byte() {
    assert_eq!(DataType::Boolean.to_u8(&Value::Boolean(true)), vec![1]);
    assert_eq!(DataType::Boolean.to_u8(&Value::Boolean(false)), vec![0]);
}

#[test]
fn text_encodes_length_prefix_and_utf8() {
    assert_eq!(DataType::Text.to_u8(&text("ab")), vec![0, 2, 0x61, 0x62]);
    assert_eq!(DataType::Text.to_u8(&text("é")), vec![0, 2, 0xC3, 0xA9]);
    assert_eq!(DataType::Text.to_u8(&text("")), vec![0, 0]);
}

#[test]
fn date_and_datetime_encode_day_and_second_counts() {
    assert_eq!(DataType::Date.to_u8(&Value::Date { days: -1 }), vec![0xFF, 0xFF, 0xFF, 0xFF]);
    let dt = Value::DateTime { days: 1, seconds: 86399 };
    assert_eq!(DataType::DateTime.to_u8(&dt), vec![0, 0, 0, 1, 0, 1, 0x51, 0x7F]);
}

#[test]
fn every_type_round_trips() {
    round_trip(DataType::Number, Value::Number(i32::MIN), 4);
    round_trip(DataType::Number, Value::Number(i32::MAX), 4);
    round_trip(DataType::Float, Value::Float((-0.25f32).to_bits()), 4);
    round_trip(DataType::Boolean, Value::Boolean(true), 1);
    round_trip(DataType::Boolean, Value::Boolean(false), 1);
    round_trip(DataType::Text, text("héllo, wörld"), 2 + "héllo, wörld".len());
    round_trip(DataType::Text, text(""), 2);
    round_trip(DataType::Date, Value::Date { days: 0 }, 4);
    round_trip(DataType::Date, Value::Date { days: -719_162 }, 4);
    round_trip(DataType::Date, Value::Date { days: 13036 }, 4);
    round_trip(DataType::DateTime, Value::DateTime { days: -5, seconds: 0 }, 8);
    round_trip(DataType::DateTime, Value::DateTime { days: 20000, seconds: 86399 }, 8);
}

#[test]
fn longest_text_round_trips() {
    let s = "x".repeat(65535);
    let v = Value::Text(s);
    assert!(v.is_encodable());
    round_trip(DataType::Text, v, 65537);
    assert!(!Value::Text("x".repeat(65536)).is_encodable());
}

#[test]
fn decode_ignores_trailing_bytes() {
    let (v, used) = DataType::Text.from_u8(&[0, 1, 0x78, 9, 9]).unwrap();
    assert_eq!(v, text("x"));
    assert_eq!(used, 3);
}

#[test]
fn boolean_decodes_only_one_as_true() {
    assert_eq!(DataType::Boolean.from_u8(&[1]).unwrap().0, Value::Boolean(true));
    assert_eq!(DataType::Boolean.from_u8(&[2]).unwrap().0, Value::Boolean(false));
}

#[test]
fn number_from_three_bytes_is_insufficient() {
    assert_eq!(
        DataType::Number.from_u8(&[1, 2, 3]),
        Err(DecodeError::InsufficientBytes { expected: 4, got: 3 })
    );
}

#[test]
fn truncated_fixed_width_inputs_are_insufficient() {
    assert_eq!(
        DataType::Float.from_u8(&[]),
        Err(DecodeError::InsufficientBytes { expected: 4, got: 0 })
    );
    assert_eq!(
        DataType::Boolean.from_u8(&[]),
        Err(DecodeError::InsufficientBytes { expected: 1, got: 0 })
    );
    assert_eq!(
        DataType::Date.from_u8(&[0, 0]),
        Err(DecodeError::InsufficientBytes { expected: 4, got: 2 })
    );
    assert_eq!(
        DataType::DateTime.from_u8(&[0, 0, 0, 0, 0, 0, 0]),
        Err(DecodeError::InsufficientBytes { expected: 8, got: 7 })
    );
}

#[test]
fn truncated_text_is_insufficient() {
    assert_eq!(
        DataType::Text.from_u8(&[0]),
        Err(DecodeError::InsufficientBytes { expected: 2, got: 1 })
    );
    assert_eq!(
        DataType::Text.from_u8(&[0, 3, 0x61, 0x62]),
        Err(DecodeError::InsufficientBytes { expected: 5, got: 4 })
    );
}

#[test]
fn invalid_utf8_is_rejected() {
    assert_eq!(DataType::Text.from_u8(&[0, 1, 0xFF]), Err(DecodeError::InvalidUtf8));
    assert_eq!(DataType::Text.from_u8(&[0, 1, 0xC3]), Err(DecodeError::InvalidUtf8));
}

#[test]
fn out_of_range_calendar_values_are_rejected() {
    let far = 100_000_000i32.to_be_bytes();
    assert_eq!(DataType::Date.from_u8(&far), Err(DecodeError::InvalidCalendarValue));
    let mut dt = vec![0, 0, 0, 0];
    dt.extend_from_slice(&86400u32.to_be_bytes());
    assert_eq!(DataType::DateTime.from_u8(&dt), Err(DecodeError::InvalidCalendarValue));
    let mut far_dt = far.to_vec();
    far_dt.extend_from_slice(&[0, 0, 0, 0]);
    assert_eq!(DataType::DateTime.from_u8(&far_dt), Err(DecodeError::InvalidCalendarValue));
}

fn id_name_schema() -> Vec<DataType> {
    vec![DataType::Number, DataType::Text]
}

#[test]
fn id_and_name_row_encodes_to_ten_bytes() {
    let row = Row { null_map: vec![false, false], values: vec![Value::Number(42), text("ab")] };
    let bytes = row.to_bytes(&id_name_schema());
    assert_eq!(bytes, vec![0x00, 0x00, 0x00, 0x00, 0x00, 0x2A, 0x00, 0x02, 0x61, 0x62]);
}

#[test]
fn null_number_is_left_out_of_row_bytes() {
    let row = Row { null_map: vec![true, false], values: vec![text("x")] };
    let bytes = row.to_bytes(&id_name_schema());
    assert_eq!(bytes, vec![0x01, 0x00, 0x00, 0x01, 0x78]);
}

#[test]
fn new_row_is_all_null() {
    let row = Row::new(3);
    assert_eq!(row.null_map, vec![true, true, true]);
    assert!(row.values.is_empty());
    let schema = vec![DataType::Number, DataType::Boolean, DataType::Date];
    assert!(row.fits_schema(&schema));
    assert_eq!(row.to_bytes(&schema), vec![1, 1, 1]);
}

#[test]
fn rows_round_trip_for_every_null_pattern() {
    let schema = vec![DataType::Number, DataType::Text, DataType::Boolean, DataType::DateTime];
    let all = [
        Value::Number(-7),
        text("row"),
        Value::Boolean(true),
        Value::DateTime { days: 19000, seconds: 3600 },
    ];
    for pattern in 0u32..16 {
        let null_map: Vec<bool> = (0..4).map(|i| pattern & (1 << i) != 0).collect();
        let values: Vec<Value> =
            (0..4).filter(|i| !null_map[*i]).map(|i| all[i].clone()).collect();
        let row = Row { null_map, values };
        assert!(row.fits_schema(&schema));
        let bytes = row.to_bytes(&schema);
        let mut back = Row::new(0);
        assert_eq!(back.from_bytes(&bytes, &schema), Ok(bytes.len()));
        assert_eq!(back, row);
    }
}

#[test]
fn row_decode_reports_the_failing_column() {
    let schema = id_name_schema();
    let mut row = Row::new(0);
    assert_eq!(
        row.from_bytes(&[0, 0, 0, 0, 0, 1, 0, 5, 0x61], &schema),
        Err(RowDecodeError {
            column: 1,
            error: DecodeError::InsufficientBytes { expected: 7, got: 3 }
        })
    );
    assert_eq!(row, Row::new(0));
    assert_eq!(
        row.from_bytes(&[0], &schema),
        Err(RowDecodeError {
            column: 1,
            error: DecodeError::InsufficientBytes { expected: 2, got: 1 }
        })
    );
}

#[test]
fn row_fit_checks_types_and_counts() {
    let schema = id_name_schema();
    let wrong_type = Row { null_map: vec![false, true], values: vec![text("no")] };
    assert!(!wrong_type.fits_schema(&schema));
    let missing = Row { null_map: vec![false, false], values: vec![Value::Number(1)] };
    assert!(!missing.fits_schema(&schema));
    let extra = Row { null_map: vec![true, true], values: vec![Value::Number(1)] };
    assert!(!extra.fits_schema(&schema));
    let short_map = Row { null_map: vec![true], values: vec![] };
    assert!(!short_map.fits_schema(&schema));
}
