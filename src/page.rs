//! Fixed-size slotted pages of rows: header, slot directory, and rows packed
//! back to front from the end of the page.
use vstd::prelude::*;
use crate::bytes::{
    be_u16_at, be_u16_bytes, be_u32_at, be_u32_bytes, lemma_be_u16_round_trip,
    lemma_be_u32_round_trip, push_all, push_u16, push_u32, read_u16, read_u32,
};
use crate::datatype::DataType;
use crate::row::{decode_row, encode_row, lemma_row_round_trip, Row, RowDecodeError, RowView};

verus! {

/// Bytes in a page.
pub const PAGE_SIZE: usize = 4096;

/// Bytes in the page header; the slot directory starts right after it.
pub const PAGE_HEADER_SIZE: usize = 16;

/// Bytes that admission keeps free between the slot directory and the rows:
/// the 20% of a page that a fill factor of 0.8 leaves unused, rounded down.
pub const PAGE_SLACK: usize = 819;

/// Why a page operation failed.
#[derive(Debug, Clone, Copy, PartialEq, Eq, Structural)]
pub enum PageError {
    /// Admission refused the row: the page would keep less than its slack.
    PageFull,
    /// The header or slot directory of a page image is inconsistent.
    BadLayout,
    /// The row of slot `slot` in a page image does not decode.
    BadRow { slot: usize, error: RowDecodeError },
}

/// A slotted page of rows sharing one schema.
#[derive(Debug)]
pub struct Page {
    pub page_id: u32,
    pub page_type: u8,
    pub free_space_offset: u16,
    pub row_count: u16,
    pub checksum: u16,
    pub row_offset: Vec<u16>,
    pub is_dirty: bool,
    pub rows: Vec<Row>,
    pub columns: Vec<String>,
    pub schema: Vec<DataType>,
}

/// The 16-byte page header.
pub open spec fn header_bytes(page_id: u32, page_type: u8, free_space_offset: u16, row_count: u16, checksum: u16) -> Seq<u8> {
    be_u32_bytes(page_id) + seq![page_type] + be_u16_bytes(free_space_offset) + be_u16_bytes(
        row_count,
    ) + be_u16_bytes(checksum) + Seq::new(5, |i: int| 0u8)
}

/// The slot directory: each offset as two big-endian bytes, in order.
pub open spec fn slot_bytes(offsets: Seq<u16>) -> Seq<u8>
    decreases offsets.len(),
{
    if offsets.len() == 0 {
        Seq::empty()
    } else {
        slot_bytes(offsets.drop_last()) + be_u16_bytes(offsets.last())
    }
}

/// The bytes of rows `j..` of `rows`, latest first, as they lie from the
/// lowest row up to the page end.
pub open spec fn rows_from(rows: Seq<RowView>, j: int) -> Seq<u8>
    decreases rows.len() - j,
{
    if j >= rows.len() || j < 0 {
        Seq::empty()
    } else {
        rows_from(rows, j + 1) + encode_row(rows[j])
    }
}

/// `n` zero bytes.
pub open spec fn zeros(n: int) -> Seq<u8> {
    Seq::new(n as nat, |i: int| 0u8)
}

/// What a page image holds: the header fields, the slot directory and the rows.
pub struct PageContents {
    pub page_id: u32,
    pub page_type: u8,
    pub free_space_offset: u16,
    pub row_count: u16,
    pub checksum: u16,
    pub row_offset: Seq<u16>,
    pub rows: Seq<RowView>,
}

/// The offset stored in slot `i` of image `b`.
pub open spec fn slot_at(b: Seq<u8>, i: int) -> u16 {
    be_u16_at(b, PAGE_HEADER_SIZE + 2 * i)
}

/// The upper end of the row of slot `i` of image `b`.
pub open spec fn slot_bound(b: Seq<u8>, i: int) -> int {
    if i == 0 {
        PAGE_SIZE as int
    } else {
        slot_at(b, i - 1) as int
    }
}

/// Decoding the rows of the first `k` slots of image `b`, whose slot
/// directory ends at `dir_end`: each slot must lie between the directory end
/// and the slot before it, and its bytes up to that slot must decode.
pub open spec fn read_rows(b: Seq<u8>, schema: Seq<DataType>, dir_end: int, k: int) -> Result<
    Seq<RowView>,
    PageError,
>
    decreases k,
{
    if k <= 0 {
        Ok(seq![])
    } else {
        match read_rows(b, schema, dir_end, k - 1) {
            Err(e) => Err(e),
            Ok(rows) => {
                let i = k - 1;
                if slot_at(b, i) < dir_end || slot_at(b, i) > slot_bound(b, i) {
                    Err(PageError::BadLayout)
                } else {
                    match decode_row(b.subrange(slot_at(b, i) as int, slot_bound(b, i)), schema) {
                        Err(e) => Err(PageError::BadRow { slot: i as usize, error: e }),
                        Ok((row, _)) => Ok(rows.push(row)),
                    }
                }
            },
        }
    }
}

/// Reading a page image against `schema`: its contents, or the first failure.
pub open spec fn read_page(b: Seq<u8>, schema: Seq<DataType>) -> Result<PageContents, PageError> {
    let row_count = be_u16_at(b, 7);
    let free_space_offset = be_u16_at(b, 5);
    if free_space_offset != PAGE_HEADER_SIZE + 2 * row_count || free_space_offset > PAGE_SIZE {
        Err(PageError::BadLayout)
    } else {
        match read_rows(b, schema, free_space_offset as int, row_count as int) {
            Err(e) => Err(e),
            Ok(rows) => Ok(
                PageContents {
                    page_id: be_u32_at(b, 0),
                    page_type: b[4],
                    free_space_offset,
                    row_count,
                    checksum: be_u16_at(b, 9),
                    row_offset: Seq::new(row_count as nat, |i: int| slot_at(b, i)),
                    rows,
                },
            ),
        }
    }
}

/// Once reading the first `k` slots fails, reading more fails the same way.
proof fn lemma_read_rows_err_persists(b: Seq<u8>, schema: Seq<DataType>, dir_end: int, k: int, m: int)
    requires
        0 <= k <= m,
        read_rows(b, schema, dir_end, k) is Err,
    ensures
        read_rows(b, schema, dir_end, m) == read_rows(b, schema, dir_end, k),
    decreases m - k,
{
    if k < m {
        lemma_read_rows_err_persists(b, schema, dir_end, k, m - 1);
    }
}

impl Page {
    /// The header fields, slot directory and rows of the page.
    pub open spec fn contents(&self) -> PageContents {
        PageContents {
            page_id: self.page_id,
            page_type: self.page_type,
            free_space_offset: self.free_space_offset,
            row_count: self.row_count,
            checksum: self.checksum,
            row_offset: self.row_offset@,
            rows: self.row_views(),
        }
    }

    /// The full page image: header, slot directory, zeros up to the lowest
    /// row, then the rows.
    pub open spec fn image(&self) -> Seq<u8> {
        header_bytes(
            self.page_id,
            self.page_type,
            self.free_space_offset,
            self.row_count,
            self.checksum,
        ) + slot_bytes(self.row_offset@) + zeros(self.lowest() - self.free_space_offset)
            + rows_from(self.row_views(), 0)
    }

    /// Where the lowest row starts: the last slot, or the page end when empty.
    pub open spec fn lowest(&self) -> int {
        if self.row_offset@.len() == 0 {
            PAGE_SIZE as int
        } else {
            self.row_offset@.last() as int
        }
    }

    /// The upper end of row `i`: the page end for the first row, else the
    /// start of the row inserted before it.
    pub open spec fn boundary(&self, i: int) -> int {
        if i == 0 {
            PAGE_SIZE as int
        } else {
            self.row_offset@[i - 1] as int
        }
    }

    /// The views of the rows, in insertion order.
    pub open spec fn row_views(&self) -> Seq<RowView> {
        self.rows@.map_values(|r: Row| r@)
    }

    /// The header and slot directory agree with each other and with the rows.
    pub open spec fn layout_ok(&self) -> bool {
        &&& self.row_offset@.len() == self.row_count
        &&& self.rows@.len() == self.row_count
        &&& self.free_space_offset == PAGE_HEADER_SIZE + 2 * self.row_count
        &&& self.free_space_offset <= self.lowest() <= PAGE_SIZE
    }

    /// The page is laid out as insertion builds it: every row fits the schema
    /// and occupies exactly the bytes between its slot and its boundary.
    pub open spec fn wf(&self) -> bool {
        &&& self.layout_ok()
        &&& forall|i: int|
            0 <= i < self.row_count ==> #[trigger] self.rows@[i]@.conforms(self.schema@)
        &&& forall|i: int|
            #![trigger self.rows@[i]]
            0 <= i < self.row_count ==> self.row_offset@[i] == self.boundary(i) - encode_row(
                self.rows@[i]@,
            ).len()
    }

    /// An empty page.
    pub fn new(page_id: u32, page_type: u8, columns: Vec<String>, schema: Vec<DataType>) -> (r:
        Page)
        ensures
            r.wf(),
            r.page_id == page_id,
            r.page_type == page_type,
            r.free_space_offset == PAGE_HEADER_SIZE,
            r.row_count == 0,
            r.checksum == 0,
            r.row_offset@.len() == 0,
            r.rows@.len() == 0,
            !r.is_dirty,
            r.columns == columns,
            r.schema == schema,
    {
        Page {
            page_id,
            page_type,
            free_space_offset: PAGE_HEADER_SIZE as u16,
            row_count: 0,
            checksum: 0,
            row_offset: Vec::new(),
            rows: Vec::new(),
            is_dirty: false,
            columns,
            schema,
        }
    }

    /// Whether admission takes a row whose encoding has `len` bytes: the bytes
    /// left between the slot directory, grown by one slot, and the lowest row
    /// must stay at least the slack once the row is placed.
    pub open spec fn admits(&self, len: int) -> bool {
        self.lowest() - (self.free_space_offset + 2) - len >= PAGE_SLACK
    }

    /// Inserts a row below the lowest one, with a new slot, if admission
    /// takes it; otherwise fails with `PageFull` and changes nothing.
    pub fn add_row(&mut self, row: Row) -> (r: Result<(), PageError>)
        requires
            old(self).layout_ok(),
            row@.conforms(old(self).schema@),
        ensures
            ({
                let len = encode_row(row@).len() as int;
                if old(self).admits(len) {
                    &&& r == Ok::<(), PageError>(())
                    &&& final(self).row_count == old(self).row_count + 1
                    &&& final(self).free_space_offset == old(self).free_space_offset + 2
                    &&& final(self).row_offset@ == old(self).row_offset@.push(
                        (old(self).lowest() - len) as u16,
                    )
                    &&& final(self).rows@ == old(self).rows@.push(row)
                    &&& final(self).is_dirty
                    &&& final(self).page_id == old(self).page_id
                    &&& final(self).page_type == old(self).page_type
                    &&& final(self).checksum == old(self).checksum
                    &&& final(self).columns == old(self).columns
                    &&& final(self).schema == old(self).schema
                    &&& final(self).layout_ok()
                    &&& final(self).lowest() - final(self).free_space_offset >= PAGE_SLACK
                    &&& old(self).wf() ==> final(self).wf()
                } else {
                    r == Err::<(), PageError>(PageError::PageFull) && *final(self) == *old(self)
                }
            }),
    {
        let row_data = row.to_bytes(&self.schema);
        let row_size = row_data.len();
        let lowest: usize = if self.row_count == 0 {
            PAGE_SIZE
        } else {
            self.row_offset[self.row_count as usize - 1] as usize
        };
        let slots_end = self.free_space_offset as usize + 2;
        if lowest < slots_end + PAGE_SLACK || row_size > lowest - slots_end - PAGE_SLACK {
            return Err(PageError::PageFull);
        }
        let ghost before = *self;
        self.rows.push(row);
        self.row_offset.push((lowest - row_size) as u16);
        self.free_space_offset = self.free_space_offset + 2;
        self.row_count = self.row_count + 1;
        self.is_dirty = true;
        proof {
            assert(self.rows@[self.row_count - 1] == row);
            if before.wf() {
                assert forall|i: int| 0 <= i < self.row_count implies self.row_offset@[i]
                    == self.boundary(i) - encode_row(#[trigger] self.rows@[i]@).len() by {
                    if i < before.row_count {
                        assert(self.row_offset@[i] == before.row_offset@[i]);
                        assert(self.boundary(i) == before.boundary(i));
                        assert(self.rows@[i] == before.rows@[i]);
                    }
                }
                assert forall|i: int| 0 <= i < self.row_count implies #[trigger] self.rows@[
                    i
                ]@.conforms(self.schema@) by {
                    if i < before.row_count {
                        assert(self.rows@[i] == before.rows@[i]);
                    }
                }
            }
        }
        Ok(())
    }

    /// Whether the page is laid out as insertion builds it.
    pub fn is_well_formed(&self) -> (r: bool)
        ensures
            r == self.wf(),
    {
        let n = self.row_count as usize;
        if self.row_offset.len() != n || self.rows.len() != n
            || self.free_space_offset as usize != PAGE_HEADER_SIZE + 2 * n {
            return false;
        }
        let lowest: usize = if n == 0 {
            PAGE_SIZE
        } else {
            self.row_offset[n - 1] as usize
        };
        if (self.free_space_offset as usize) > lowest || lowest > PAGE_SIZE {
            return false;
        }
        let mut bound: usize = PAGE_SIZE;
        let mut i: usize = 0;
        while i < n
            invariant
                i <= n,
                n == self.row_count,
                self.layout_ok(),
                bound == self.boundary(i as int),
                forall|k: int| 0 <= k < i ==> #[trigger] self.rows@[k]@.conforms(self.schema@),
                forall|k: int|
                    #![trigger self.rows@[k]]
                    0 <= k < i ==> self.row_offset@[k] == self.boundary(k) - encode_row(
                        self.rows@[k]@,
                    ).len(),
            decreases n - i,
        {
            if !self.rows[i].fits_schema(&self.schema) {
                return false;
            }
            let len = self.rows[i].to_bytes(&self.schema).len();
            let offset = self.row_offset[i] as usize;
            if offset > bound || bound - offset != len {
                return false;
            }
            proof {
                assert(self.rows@[i as int]@ == self.row_views()[i as int]);
            }
            bound = offset;
            i = i + 1;
        }
        true
    }

    /// The page image that is stored on disk.
    pub fn to_image(&self) -> (r: Vec<u8>)
        requires
            self.wf(),
        ensures
            r@ == self.image(),
            r@.len() == PAGE_SIZE,
    {
        let mut buffer: Vec<u8> = Vec::new();
        push_u32(&mut buffer, self.page_id);
        buffer.push(self.page_type);
        push_u16(&mut buffer, self.free_space_offset);
        push_u16(&mut buffer, self.row_count);
        push_u16(&mut buffer, self.checksum);
        let mut k: usize = 0;
        while k < 5
            invariant
                k <= 5,
                buffer@ == be_u32_bytes(self.page_id) + seq![self.page_type] + be_u16_bytes(
                    self.free_space_offset,
                ) + be_u16_bytes(self.row_count) + be_u16_bytes(self.checksum) + zeros(k as int),
            decreases 5 - k,
        {
            buffer.push(0);
            k = k + 1;
            assert(buffer@ =~= be_u32_bytes(self.page_id) + seq![self.page_type] + be_u16_bytes(
                self.free_space_offset,
            ) + be_u16_bytes(self.row_count) + be_u16_bytes(self.checksum) + zeros(k as int));
        }
        let ghost header = buffer@;
        let n = self.row_count as usize;
        let mut i: usize = 0;
        while i < n
            invariant
                i <= n,
                n == self.row_offset@.len(),
                buffer@ == header + slot_bytes(self.row_offset@.subrange(0, i as int)),
            decreases n - i,
        {
            push_u16(&mut buffer, self.row_offset[i]);
            i = i + 1;
            assert(self.row_offset@.subrange(0, i as int).drop_last() =~= self.row_offset@.subrange(0, i as int - 1));
        }
        assert(self.row_offset@.subrange(0, n as int) =~= self.row_offset@);
        let lowest: usize = if n == 0 {
            PAGE_SIZE
        } else {
            self.row_offset[n - 1] as usize
        };
        let gap = lowest - self.free_space_offset as usize;
        let ghost filled = buffer@;
        let mut k: usize = 0;
        while k < gap
            invariant
                k <= gap,
                buffer@ == filled + zeros(k as int),
            decreases gap - k,
        {
            buffer.push(0);
            k = k + 1;
            assert(buffer@ =~= filled + zeros(k as int));
        }
        let ghost placed = buffer@;
        let ghost rv = self.row_views();
        let mut j: usize = n;
        while j > 0
            invariant
                j <= n,
                n == self.rows@.len(),
                forall|i: int| 0 <= i < n ==> #[trigger] self.rows@[i]@.conforms(self.schema@),
                rv == self.row_views(),
                buffer@ == placed + rows_from(rv, j as int),
            decreases j,
        {
            let bytes = self.rows[j - 1].to_bytes(&self.schema);
            push_all(&mut buffer, bytes.as_slice());
            j = j - 1;
        }
        proof {
            lemma_rows_from_len(self, 0);
            lemma_image_len(self);
        }
        buffer
    }
}

impl Page {
    /// Replaces the page's header, slots and rows with those of a page image,
    /// decoded against the page's schema, and marks the page clean. On
    /// failure the page is unchanged.
    pub fn load_image(&mut self, image: &[u8]) -> (r: Result<(), PageError>)
        requires
            image@.len() == PAGE_SIZE,
        ensures
            match read_page(image@, old(self).schema@) {
                Ok(c) => {
                    &&& r == Ok::<(), PageError>(())
                    &&& final(self).contents() == c
                    &&& !final(self).is_dirty
                    &&& final(self).columns == old(self).columns
                    &&& final(self).schema == old(self).schema
                    &&& final(self).layout_ok()
                },
                Err(e) => r == Err::<(), PageError>(e) && *final(self) == *old(self),
            },
    {
        let free_space_offset = read_u16(image, 5);
        let row_count = read_u16(image, 7);
        if free_space_offset as usize != PAGE_HEADER_SIZE + 2 * row_count as usize
            || free_space_offset as usize > PAGE_SIZE {
            return Err(PageError::BadLayout);
        }
        let ghost b = image@;
        let ghost schema = self.schema@;
        let n = row_count as usize;
        let dir_end = free_space_offset as usize;
        let mut offsets: Vec<u16> = Vec::new();
        let mut rows: Vec<Row> = Vec::new();
        let mut bound: usize = PAGE_SIZE;
        let mut i: usize = 0;
        assert(rows@.map_values(|r: Row| r@) =~= Seq::<RowView>::empty());
        while i < n
            invariant
                i <= n,
                n == row_count,
                dir_end == free_space_offset,
                dir_end == PAGE_HEADER_SIZE + 2 * n,
                dir_end <= PAGE_SIZE,
                b == image@,
                b.len() == PAGE_SIZE,
                free_space_offset == be_u16_at(b, 5),
                row_count == be_u16_at(b, 7),
                schema == self.schema@,
                bound == slot_bound(b, i as int),
                dir_end <= bound <= PAGE_SIZE,
                offsets@ == Seq::new(i as nat, |k: int| slot_at(b, k)),
                rows@.len() == i,
                read_rows(b, schema, dir_end as int, i as int) == Ok::<Seq<RowView>, PageError>(
                    rows@.map_values(|r: Row| r@),
                ),
            decreases n - i,
        {
            let offset = read_u16(image, PAGE_HEADER_SIZE + 2 * i);
            if (offset as usize) < dir_end || offset as usize > bound {
                proof {
                    assert(read_rows(b, schema, dir_end as int, i as int + 1) == Err::<Seq<RowView>, PageError>(PageError::BadLayout));
                    lemma_read_rows_err_persists(b, schema, dir_end as int, i as int + 1, n as int);
                    assert(read_rows(b, schema, dir_end as int, n as int) == Err::<Seq<RowView>, PageError>(PageError::BadLayout));
                    assert(read_page(b, schema) == Err::<PageContents, PageError>(PageError::BadLayout));
                }
                return Err(PageError::BadLayout);
            }
            assert(offset == slot_at(b, i as int));
            let bytes = vstd::slice::slice_subrange(image, offset as usize, bound);
            let row = match decode_slot(bytes, &self.schema) {
                Err(e) => {
                    proof {
                        lemma_read_rows_err_persists(b, schema, dir_end as int, i as int + 1, n as int);
                        assert(read_page(b, schema) == Err::<PageContents, PageError>(PageError::BadRow { slot: i, error: e }));
                    }
                    return Err(PageError::BadRow { slot: i, error: e });
                },
                Ok(row) => row,
            };
            rows.push(row);
            offsets.push(offset);
            bound = offset as usize;
            i = i + 1;
            assert(offsets@ =~= Seq::new(i as nat, |k: int| slot_at(b, k)));
            assert(rows@.map_values(|r: Row| r@) =~= read_rows(b, schema, dir_end as int, i as int)->Ok_0);
        }
        self.page_id = read_u32(image, 0);
        self.page_type = image[4];
        self.free_space_offset = free_space_offset;
        self.row_count = row_count;
        self.checksum = read_u16(image, 9);
        self.row_offset = offsets;
        self.rows = rows;
        self.is_dirty = false;
        assert(self.row_views() =~= read_rows(b, schema, dir_end as int, n as int)->Ok_0);
        assert(read_page(b, schema) is Ok);
        assert(self.row_offset@ =~= read_page(b, schema)->Ok_0.row_offset);
        assert(self.contents() == read_page(b, schema)->Ok_0);
        assert(n > 0 ==> self.lowest() == bound);
        Ok(())
    }
}

/// Decodes the row stored in `bytes`, keeping only the row.
fn decode_slot(bytes: &[u8], schema: &Vec<DataType>) -> (r: Result<Row, RowDecodeError>)
    ensures
        match decode_row(bytes@, schema@) {
            Ok((row, _)) => r matches Ok(x) && x@ == row,
            Err(e) => r == Err::<Row, RowDecodeError>(e),
        },
{
    let mut row = Row::new(0);
    match row.from_bytes(bytes, schema) {
        Ok(_) => Ok(row),
        Err(e) => Err(e),
    }
}

/// The slot directory takes two bytes per slot.
proof fn lemma_slot_bytes_len(offsets: Seq<u16>)
    ensures
        slot_bytes(offsets).len() == 2 * offsets.len(),
    decreases offsets.len(),
{
    if offsets.len() > 0 {
        lemma_slot_bytes_len(offsets.drop_last());
    }
}

/// Rows `j..` of a well-formed page span from the lowest row to the boundary of row `j`.
proof fn lemma_rows_from_len(page: &Page, j: int)
    requires
        page.wf(),
        0 <= j <= page.row_count,
    ensures
        rows_from(page.row_views(), j).len() == page.boundary(j) - page.lowest(),
    decreases page.row_count - j,
{
    if j < page.row_count {
        lemma_rows_from_len(page, j + 1);
        assert(page.row_views()[j] == page.rows@[j]@);
    }
}

/// The image of a well-formed page fills the page exactly.
proof fn lemma_image_len(page: &Page)
    requires
        page.layout_ok(),
        rows_from(page.row_views(), 0).len() == PAGE_SIZE - page.lowest(),
    ensures
        page.image().len() == PAGE_SIZE,
{
    lemma_slot_bytes_len(page.row_offset@);
    let h = header_bytes(
        page.page_id,
        page.page_type,
        page.free_space_offset,
        page.row_count,
        page.checksum,
    );
    assert(h.len() == 16);
    let z = zeros(page.lowest() - page.free_space_offset);
    assert(z.len() == page.lowest() - page.free_space_offset);
}

/// Slot `i` of the directory holds the bytes of offset `i`.
proof fn lemma_slot_bytes_at(offsets: Seq<u16>, i: int)
    requires
        0 <= i < offsets.len(),
    ensures
        slot_bytes(offsets).subrange(2 * i, 2 * i + 2) == be_u16_bytes(offsets[i]),
    decreases offsets.len(),
{
    let prev = offsets.drop_last();
    lemma_slot_bytes_len(prev);
    if i < offsets.len() - 1 {
        lemma_slot_bytes_at(prev, i);
        assert(slot_bytes(offsets).subrange(2 * i, 2 * i + 2) =~= slot_bytes(prev).subrange(
            2 * i,
            2 * i + 2,
        ));
    } else {
        assert(slot_bytes(offsets).subrange(2 * i, 2 * i + 2) =~= be_u16_bytes(offsets.last()));
    }
}

/// The bytes of rows `i..` begin the bytes of rows `j..` for `j <= i`.
proof fn lemma_rows_from_prefix(rows: Seq<RowView>, j: int, i: int)
    requires
        0 <= j <= i <= rows.len(),
    ensures
        rows_from(rows, i).len() <= rows_from(rows, j).len(),
        rows_from(rows, j).subrange(0, rows_from(rows, i).len() as int) == rows_from(rows, i),
    decreases i - j,
{
    if j < i {
        lemma_rows_from_prefix(rows, j + 1, i);
        let a = rows_from(rows, j + 1);
        assert(rows_from(rows, j).subrange(0, rows_from(rows, i).len() as int) =~= a.subrange(
            0,
            rows_from(rows, i).len() as int,
        ));
    } else {
        assert(rows_from(rows, j).subrange(0, rows_from(rows, j).len() as int) =~= rows_from(
            rows,
            j,
        ));
    }
}

/// In the image of a well-formed page, row `i` lies between its slot and its boundary.
proof fn lemma_image_row(page: &Page, i: int)
    requires
        page.layout_ok(),
        0 <= i < page.row_count,
        rows_from(page.row_views(), i).len() == page.boundary(i) - page.lowest(),
        rows_from(page.row_views(), i + 1).len() == page.boundary(i + 1) - page.lowest(),
    ensures
        page.lowest() <= page.row_offset@[i] <= page.boundary(i),
        page.image().subrange(page.row_offset@[i] as int, page.boundary(i)) == encode_row(
            page.row_views()[i],
        ),
{
    let rv = page.row_views();
    let low = page.lowest();
    lemma_rows_from_prefix(rv, 0, i);
    lemma_slot_bytes_len(page.row_offset@);
    assert(page.boundary(i + 1) == page.row_offset@[i]);
    let all = rows_from(rv, 0);
    let mine = rows_from(rv, i);
    assert(mine == rows_from(rv, i + 1) + encode_row(rv[i]));
    assert(all.subrange(page.row_offset@[i] - low, page.boundary(i) - low) =~= mine.subrange(
        page.row_offset@[i] - low,
        page.boundary(i) - low,
    ));
    assert(mine.subrange(page.row_offset@[i] - low, page.boundary(i) - low) =~= encode_row(rv[i]));
    let h = header_bytes(
        page.page_id,
        page.page_type,
        page.free_space_offset,
        page.row_count,
        page.checksum,
    );
    let pre = h + slot_bytes(page.row_offset@) + zeros(low - page.free_space_offset);
    assert(pre.len() == low);
    assert(page.image() == pre + all);
    assert(page.image().subrange(page.row_offset@[i] as int, page.boundary(i)) =~= all.subrange(
        page.row_offset@[i] - low,
        page.boundary(i) - low,
    ));
}

/// The header and slot directory read back from the image of a well-formed page.
proof fn lemma_image_header(page: &Page)
    requires
        page.layout_ok(),
    ensures
        ({
            let b = page.image();
            &&& be_u32_at(b, 0) == page.page_id
            &&& b[4] == page.page_type
            &&& be_u16_at(b, 5) == page.free_space_offset
            &&& be_u16_at(b, 7) == page.row_count
            &&& be_u16_at(b, 9) == page.checksum
            &&& forall|i: int| 0 <= i < page.row_count ==> #[trigger] slot_at(b, i) == page.row_offset@[i]
        }),
{
    let b = page.image();
    lemma_slot_bytes_len(page.row_offset@);
    let h = header_bytes(
        page.page_id,
        page.page_type,
        page.free_space_offset,
        page.row_count,
        page.checksum,
    );
    let slots = slot_bytes(page.row_offset@);
    assert(b.subrange(0, 16) =~= h);
    assert(b.subrange(0, 4) =~= be_u32_bytes(page.page_id));
    assert(b.subrange(5, 7) =~= be_u16_bytes(page.free_space_offset));
    assert(b.subrange(7, 9) =~= be_u16_bytes(page.row_count));
    assert(b.subrange(9, 11) =~= be_u16_bytes(page.checksum));
    lemma_be_u32_round_trip(b, 0, page.page_id);
    lemma_be_u16_round_trip(b, 5, page.free_space_offset);
    lemma_be_u16_round_trip(b, 7, page.row_count);
    lemma_be_u16_round_trip(b, 9, page.checksum);
    assert forall|i: int| 0 <= i < page.row_count implies #[trigger] slot_at(b, i)
        == page.row_offset@[i] by {
        lemma_slot_bytes_at(page.row_offset@, i);
        assert(b.subrange(16 + 2 * i, 18 + 2 * i) =~= slots.subrange(2 * i, 2 * i + 2));
        lemma_be_u16_round_trip(b, 16 + 2 * i, page.row_offset@[i]);
    }
}

/// Reading the image of a well-formed page whose rows are all valid, against
/// the page's schema, gives back its header fields, slot directory and rows.
pub proof fn lemma_page_round_trip(page: &Page)
    requires
        page.wf(),
        forall|i: int| 0 <= i < page.row_count ==> #[trigger] page.rows@[i]@.valid(page.schema@),
    ensures
        read_page(page.image(), page.schema@) == Ok::<PageContents, PageError>(page.contents()),
{
    let b = page.image();
    let schema = page.schema@;
    let fso = page.free_space_offset as int;
    lemma_image_header(page);
    lemma_read_rows_image(page, page.row_count as int);
    assert(page.row_views().subrange(0, page.row_count as int) =~= page.row_views());
    assert(Seq::new(page.row_count as nat, |i: int| slot_at(b, i)) =~= page.row_offset@);
}

/// The first `k` slots of the image of a well-formed page with valid rows
/// read back as its first `k` rows.
proof fn lemma_read_rows_image(page: &Page, k: int)
    requires
        page.wf(),
        forall|i: int| 0 <= i < page.row_count ==> #[trigger] page.rows@[i]@.valid(page.schema@),
        0 <= k <= page.row_count,
    ensures
        read_rows(page.image(), page.schema@, page.free_space_offset as int, k) == Ok::<
            Seq<RowView>,
            PageError,
        >(page.row_views().subrange(0, k)),
    decreases k,
{
    let b = page.image();
    if k == 0 {
        assert(page.row_views().subrange(0, 0) =~= seq![]);
    } else {
        let i = k - 1;
        lemma_read_rows_image(page, i);
        lemma_image_header(page);
        lemma_rows_from_len(page, i);
        lemma_rows_from_len(page, i + 1);
        lemma_image_row(page, i);
        assert(slot_at(b, i) == page.row_offset@[i]);
        if i > 0 {
            assert(slot_at(b, i - 1) == page.row_offset@[i - 1]);
        }
        assert(slot_bound(b, i) == page.boundary(i));
        let rv = page.row_views()[i];
        assert(rv == page.rows@[i]@);
        lemma_row_round_trip(rv, page.schema@);
        assert(page.row_views().subrange(0, k) =~= page.row_views().subrange(0, i).push(rv));
    }
}

} // verus!
