use page_store::datatype::{DataType, DecodeError, Value};
use page_store::page::{Page, PageError, PAGE_SIZE, PAGE_SLACK};
use page_store::row::{Row, RowDecodeError};

fn id_name_page() -> Page {
    Page::new(
        3,
        1,
        vec!["id".to_string(), "name".to_string()],
        vec![DataType::Number, DataType::Text],
    )
}

fn id_name_row(id: i32, name: &str) -> Row {
    Row { null_map: vec![false, false], values: vec![Value::Number(id), Value::Text(name.to_string())] }
}

/// A row of exactly 200 encoded bytes against a one-column text schema.
fn two_hundred_byte_row() -> Row {
    Row { null_map: vec![false], values: vec![Value::Text("z".repeat(197))] }
}

fn lowest(page: &Page) -> usize {
    page.row_offset.last().map(|o| *o as usize).unwrap_or(PAGE_SIZE)
}

#[test]
fn new_page_is_empty_and_clean() {
    let page = id_name_page();
    assert_eq!(page.page_id, 3);
    assert_eq!(page.page_type, 1);
    assert_eq!(page.free_space_offset, 16);
    assert_eq!(page.row_count, 0);
    assert_eq!(page.checksum, 0);
    assert!(page.row_offset.is_empty());
    assert!(page.rows.is_empty());
    assert!(!page.is_dirty);
}

#[test]
fn first_row_lands_at_page_end() {
    let mut page = id_name_page();
    assert_eq!(page.add_row(id_name_row(42, "ab")), Ok(()));
    assert_eq!(page.row_offset, vec![4086]);
    assert_eq!(page.row_count, 1);
    assert_eq!(page.free_space_offset, 18);
    assert!(page.is_dirty);
}

#[test]
fn rows_pack_back_to_front() {
    let mut page = id_name_page();
    page.add_row(id_name_row(1, "ab")).unwrap();
    page.add_row(id_name_row(2, "abcd")).unwrap();
    page.add_row(Row { null_map: vec![true, false], values: vec![Value::Text("x".to_string())] })
        .unwrap();
    assert_eq!(page.row_offset, vec![4086, 4074, 4069]);
    assert_eq!(page.free_space_offset, 22);
}

#[test]
fn admission_stops_at_the_slack() {
    let mut page = Page::new(0, 1, vec!["t".to_string()], vec![DataType::Text]);
    let mut accepted = 0;
    loop {
        let before_count = page.row_count;
        let before_fso = page.free_space_offset;
        let before_offsets = page.row_offset.clone();
        let before_rows = page.rows.clone();
        match page.add_row(two_hundred_byte_row()) {
            Ok(()) => {
                accepted += 1;
                assert_eq!(page.row_count, before_count + 1);
                assert_eq!(page.free_space_offset, before_fso + 2);
                assert!(lowest(&page) - page.free_space_offset as usize >= PAGE_SLACK);
            }
            Err(e) => {
                assert_eq!(e, PageError::PageFull);
                assert_eq!(page.row_count, before_count);
                assert_eq!(page.free_space_offset, before_fso);
                assert_eq!(page.row_offset, before_offsets);
                assert_eq!(page.rows, before_rows);
                break;
            }
        }
    }
    assert_eq!(accepted, 16);
    // Physically there is room for more: the refusal comes from the slack.
    assert!(lowest(&page) - page.free_space_offset as usize >= 200 + 2);
}

#[test]
fn oversized_row_is_refused_on_empty_page() {
    let mut page = Page::new(0, 1, vec!["t".to_string()], vec![DataType::Text]);
    let row = Row { null_map: vec![false], values: vec![Value::Text("q".repeat(3300))] };
    assert_eq!(page.add_row(row), Err(PageError::PageFull));
    assert_eq!(page.row_count, 0);
    assert!(!page.is_dirty);
    // 4096 - 18 - 819 = 3259 bytes is the largest row an empty page takes.
    let fits = Row { null_map: vec![false], values: vec![Value::Text("q".repeat(3256))] };
    assert_eq!(page.add_row(fits), Ok(()));
    let mut other = Page::new(0, 1, vec!["t".to_string()], vec![DataType::Text]);
    let too_big = Row { null_map: vec![false], values: vec![Value::Text("q".repeat(3257))] };
    assert_eq!(other.add_row(too_big), Err(PageError::PageFull));
}

#[test]
fn image_layout_is_exact() {
    let mut page = id_name_page();
    page.checksum = 0xBEEF;
    page.add_row(id_name_row(42, "ab")).unwrap();
    let image = page.to_image();
    assert_eq!(image.len(), PAGE_SIZE);
    assert_eq!(&image[0..16], &[0, 0, 0, 3, 1, 0, 18, 0, 1, 0xBE, 0xEF, 0, 0, 0, 0, 0]);
    assert_eq!(&image[16..18], &[0x0F, 0xF6]);
    assert!(image[18..4086].iter().all(|b| *b == 0));
    assert_eq!(&image[4086..], &[0, 0, 0, 0, 0, 0x2A, 0, 2, 0x61, 0x62]);
}

#[test]
fn page_round_trips_through_its_image() {
    let mut page = id_name_page();
    page.add_row(id_name_row(42, "ab")).unwrap();
    page.add_row(Row { null_map: vec![true, false], values: vec![Value::Text("x".to_string())] })
        .unwrap();
    page.add_row(Row { null_map: vec![false, true], values: vec![Value::Number(-1)] }).unwrap();
    let image = page.to_image();
    let mut back = Page::new(3, 0, page.columns.clone(), page.schema.clone());
    back.is_dirty = true;
    assert_eq!(back.load_image(&image), Ok(()));
    assert_eq!(back.page_id, page.page_id);
    assert_eq!(back.page_type, page.page_type);
    assert_eq!(back.row_count, page.row_count);
    assert_eq!(back.free_space_offset, page.free_space_offset);
    assert_eq!(back.checksum, page.checksum);
    assert_eq!(back.row_offset, page.row_offset);
    assert_eq!(back.rows, page.rows);
    assert!(!back.is_dirty);
    // A loaded page takes further rows.
    assert_eq!(back.add_row(id_name_row(7, "more")), Ok(()));
    assert_eq!(back.row_count, 4);
}

#[test]
fn empty_page_round_trips() {
    let page = Page::new(9, 2, vec![], vec![]);
    let image = page.to_image();
    let mut back = Page::new(0, 0, vec![], vec![]);
    assert_eq!(back.load_image(&image), Ok(()));
    assert_eq!(back.page_id, 9);
    assert_eq!(back.page_type, 2);
    assert_eq!(back.row_count, 0);
    assert_eq!(back.free_space_offset, 16);
}

#[test]
fn inconsistent_header_is_bad_layout() {
    let mut page = id_name_page();
    page.add_row(id_name_row(42, "ab")).unwrap();
    let mut image = page.to_image();
    image[6] = 20; // free space offset no longer matches one slot
    let mut back = id_name_page();
    assert_eq!(back.load_image(&image), Err(PageError::BadLayout));
    assert_eq!(back.row_count, 0);
}

#[test]
fn slot_out_of_order_is_bad_layout() {
    let mut page = id_name_page();
    page.add_row(id_name_row(42, "ab")).unwrap();
    page.add_row(id_name_row(43, "cd")).unwrap();
    let mut image = page.to_image();
    image[18] = 0x0F;
    image[19] = 0xFF; // second slot above the first row's start
    let mut back = id_name_page();
    assert_eq!(back.load_image(&image), Err(PageError::BadLayout));
}

#[test]
fn corrupt_row_is_reported_with_its_slot() {
    let mut page = id_name_page();
    page.add_row(id_name_row(42, "ab")).unwrap();
    let mut image = page.to_image();
    image[4095] = 0xFF; // last byte of the text payload
    let mut back = id_name_page();
    assert_eq!(
        back.load_image(&image),
        Err(PageError::BadRow {
            slot: 0,
            error: RowDecodeError { column: 1, error: DecodeError::InvalidUtf8 }
        })
    );
}

#[test]
fn well_formedness_follows_the_slots() {
    let mut page = id_name_page();
    assert!(page.is_well_formed());
    page.add_row(id_name_row(1, "ab")).unwrap();
    page.add_row(id_name_row(2, "cd")).unwrap();
    assert!(page.is_well_formed());
    let mut moved = Page::new(3, 1, page.columns.clone(), page.schema.clone());
    moved.add_row(id_name_row(1, "ab")).unwrap();
    moved.row_offset[0] = 4080;
    assert!(!moved.is_well_formed());
    let mut mistyped = Page::new(3, 1, page.columns.clone(), page.schema.clone());
    mistyped.add_row(id_name_row(1, "ab")).unwrap();
    mistyped.rows[0] = Row { null_map: vec![false, false], values: vec![Value::Number(1), Value::Number(2)] };
    assert!(!mistyped.is_well_formed());
}

#[test]
fn dates_survive_a_page_round_trip() {
    let schema = vec![DataType::Date, DataType::DateTime, DataType::Float, DataType::Boolean];
    let mut page = Page::new(1, 7, vec!["d".into(), "t".into(), "f".into(), "b".into()], schema.clone());
    let row = Row {
        null_map: vec![false, false, false, true],
        values: vec![
            Value::Date { days: -3 },
            Value::DateTime { days: 19500, seconds: 45296 },
            Value::Float(2.5f32.to_bits()),
        ],
    };
    page.add_row(row.clone()).unwrap();
    let mut back = Page::new(1, 0, vec![], schema);
    assert_eq!(back.load_image(&page.to_image()), Ok(()));
    assert_eq!(back.page_type, 7);
    assert_eq!(back.rows, vec![row]);
}
