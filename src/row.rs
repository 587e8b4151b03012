//! Rows: a null indicator per column followed by the encodings of the present values.
use vstd::prelude::*;
use crate::bytes::push_all;
use crate::datatype::{
    decode_value, encode_value, lemma_decode_encoded_value, short, DataType, DecodeError, Value,
    ValueView,
};

verus! {

/// One row: for each column whether it is null, and the values of the
/// present columns in column order.
#[derive(Debug, Clone, PartialEq)]
pub struct Row {
    pub null_map: Vec<bool>,
    pub values: Vec<Value>,
}

/// What a `Row` denotes.
pub struct RowView {
    pub null_map: Seq<bool>,
    pub values: Seq<ValueView>,
}

impl View for Row {
    type V = RowView;

    open spec fn view(&self) -> RowView {
        RowView { null_map: self.null_map@, values: self.values@.map_values(|v: Value| v@) }
    }
}

/// Why a row could not be decoded: the column at fault and the cause.
#[derive(Debug, Clone, Copy, PartialEq, Eq, Structural)]
pub struct RowDecodeError {
    pub column: usize,
    pub error: DecodeError,
}

/// How many of the first `k` columns are present (not null).
pub open spec fn present_before(null_map: Seq<bool>, k: int) -> int
    decreases k,
{
    if k <= 0 {
        0
    } else {
        present_before(null_map, k - 1) + if null_map[k - 1] {
            0int
        } else {
            1int
        }
    }
}

impl RowView {
    /// The row fits the schema: one indicator per column, one value per
    /// present column, each of that column's type and encodable.
    pub open spec fn conforms(self, schema: Seq<DataType>) -> bool {
        &&& self.null_map.len() == schema.len()
        &&& self.values.len() == present_before(self.null_map, schema.len() as int)
        &&& forall|i: int|
            #![trigger self.null_map[i]]
            0 <= i < schema.len() && !self.null_map[i] ==> self.values[present_before(
                self.null_map,
                i,
            )].data_type() == schema[i]
        &&& forall|j: int| 0 <= j < self.values.len() ==> #[trigger] self.values[j].encodable()
    }

    /// The row fits the schema and every value in it is valid.
    pub open spec fn valid(self, schema: Seq<DataType>) -> bool {
        &&& self.conforms(schema)
        &&& forall|j: int| 0 <= j < self.values.len() ==> #[trigger] self.values[j].valid()
    }
}

/// The null-indicator region: `1` for a null column, `0` for a present one.
pub open spec fn indicator_bytes(null_map: Seq<bool>) -> Seq<u8> {
    Seq::new(null_map.len(), |i: int| if null_map[i] { 1u8 } else { 0u8 })
}

/// The encodings of `values`, one after the other.
pub open spec fn values_bytes(values: Seq<ValueView>) -> Seq<u8>
    decreases values.len(),
{
    if values.len() == 0 {
        Seq::empty()
    } else {
        values_bytes(values.drop_last()) + encode_value(values.last())
    }
}

/// The bytes of a row.
pub open spec fn encode_row(r: RowView) -> Seq<u8> {
    indicator_bytes(r.null_map) + values_bytes(r.values)
}

/// Decoding the first `k` columns of `schema` from `b`, whose indicator region
/// is already known to be there: the partial row and the position reached.
pub open spec fn decode_columns(b: Seq<u8>, schema: Seq<DataType>, k: int) -> Result<
    (RowView, int),
    RowDecodeError,
>
    decreases k,
{
    if k <= 0 {
        Ok((RowView { null_map: seq![], values: seq![] }, schema.len() as int))
    } else {
        match decode_columns(b, schema, k - 1) {
            Err(e) => Err(e),
            Ok((r, pos)) => if b[k - 1] != 0 {
                Ok((RowView { null_map: r.null_map.push(true), values: r.values }, pos))
            } else {
                match decode_value(schema[k - 1], b.subrange(pos, b.len() as int)) {
                    Err(e) => Err(RowDecodeError { column: (k - 1) as usize, error: e }),
                    Ok((v, n)) => Ok(
                        (
                            RowView { null_map: r.null_map.push(false), values: r.values.push(v) },
                            pos + n,
                        ),
                    ),
                }
            },
        }
    }
}

/// Decoding a row of `schema` from the front of `b`: the row and the number
/// of bytes it took, or the first failure.
pub open spec fn decode_row(b: Seq<u8>, schema: Seq<DataType>) -> Result<
    (RowView, int),
    RowDecodeError,
> {
    if b.len() < schema.len() {
        Err(
            RowDecodeError {
                column: b.len() as usize,
                error: short(schema.len() as int, b.len() as int),
            },
        )
    } else {
        decode_columns(b, schema, schema.len() as int)
    }
}

proof fn lemma_present_before_bounds(null_map: Seq<bool>, i: int, k: int)
    requires
        0 <= i <= k,
    ensures
        present_before(null_map, i) <= present_before(null_map, k),
        0 <= present_before(null_map, i),
    decreases k,
{
    if i < k {
        lemma_present_before_bounds(null_map, i, k - 1);
    } else if k > 0 {
        lemma_present_before_bounds(null_map, k - 1, k - 1);
    }
}

proof fn lemma_decode_value_len(t: DataType, b: Seq<u8>)
    ensures
        decode_value(t, b) matches Ok((_, n)) ==> 0 <= n <= b.len(),
{
}

proof fn lemma_values_bytes_concat(vs: Seq<ValueView>, ws: Seq<ValueView>)
    ensures
        values_bytes(vs + ws) == values_bytes(vs) + values_bytes(ws),
    decreases ws.len(),
{
    if ws.len() == 0 {
        assert(vs + ws =~= vs);
        assert(values_bytes(vs) + values_bytes(ws) =~= values_bytes(vs));
    } else {
        assert((vs + ws).drop_last() =~= vs + ws.drop_last());
        lemma_values_bytes_concat(vs, ws.drop_last());
        assert(values_bytes(vs + ws) =~= values_bytes(vs) + values_bytes(ws));
    }
}

impl Row {
    /// A row of `column_count` columns, all null.
    pub fn new(column_count: usize) -> (r: Row)
        ensures
            r@.null_map == Seq::new(column_count as nat, |i: int| true),
            r@.values.len() == 0,
    {
        let mut null_map: Vec<bool> = Vec::new();
        let mut i: usize = 0;
        while i < column_count
            invariant
                i <= column_count,
                null_map@ == Seq::new(i as nat, |k: int| true),
            decreases column_count - i,
        {
            null_map.push(true);
            i = i + 1;
            assert(null_map@ =~= Seq::new(i as nat, |k: int| true));
        }
        let values: Vec<Value> = Vec::new();
        let r = Row { null_map, values };
        assert(r@.values =~= Seq::<ValueView>::empty());
        r
    }

    /// Whether the row fits `schema` and so can be encoded against it.
    pub fn fits_schema(&self, schema: &Vec<DataType>) -> (r: bool)
        ensures
            r == self@.conforms(schema@),
    {
        let n = schema.len();
        if self.null_map.len() != n {
            return false;
        }
        let ghost nm = self@.null_map;
        let ghost vs = self@.values;
        let mut i: usize = 0;
        let mut offset: usize = 0;
        while i < n
            invariant
                i <= n,
                n == schema@.len(),
                nm.len() == n,
                nm == self@.null_map,
                vs == self@.values,
                offset == present_before(nm, i as int),
                offset <= i,
                forall|k: int|
                    #![trigger nm[k]]
                    0 <= k < i && !nm[k] ==> present_before(nm, k) < vs.len() && vs[present_before(
                        nm,
                        k,
                    )].data_type() == schema@[k] && vs[present_before(nm, k)].encodable(),
            decreases n - i,
        {
            if !self.null_map[i] {
                if offset >= self.values.len() {
                    proof {
                        lemma_present_before_bounds(nm, i as int + 1, n as int);
                    }
                    return false;
                }
                let v = &self.values[offset];
                if v.data_type() != schema[i] || !v.is_encodable() {
                    return false;
                }
                offset = offset + 1;
            }
            i = i + 1;
        }
        if offset != self.values.len() {
            return false;
        }
        assert forall|j: int| 0 <= j < vs.len() implies #[trigger] vs[j].encodable() by {
            lemma_present_index_hit(nm, j, n as int);
        }
        true
    }

    /// Encodes the row against `schema`: the null-indicator region, then each
    /// present value's encoding in column order.
    pub fn to_bytes(&self, schema: &Vec<DataType>) -> (r: Vec<u8>)
        requires
            self@.conforms(schema@),
        ensures
            r@ == encode_row(self@),
    {
        let n = self.null_map.len();
        let ghost nm = self@.null_map;
        let ghost vs = self@.values;
        let mut buffer: Vec<u8> = Vec::new();
        let mut i: usize = 0;
        while i < n
            invariant
                i <= n,
                n == nm.len(),
                nm == self@.null_map,
                buffer@ == indicator_bytes(nm.subrange(0, i as int)),
            decreases n - i,
        {
            buffer.push(if self.null_map[i] { 1u8 } else { 0u8 });
            i = i + 1;
            assert(buffer@ =~= indicator_bytes(nm.subrange(0, i as int)));
        }
        assert(nm.subrange(0, n as int) =~= nm);
        let mut i: usize = 0;
        let mut offset: usize = 0;
        while i < n
            invariant
                i <= n,
                n == nm.len(),
                n == schema@.len(),
                nm == self@.null_map,
                vs == self@.values,
                self@.conforms(schema@),
                offset == present_before(nm, i as int),
                offset <= vs.len(),
                buffer@ == indicator_bytes(nm) + values_bytes(vs.subrange(0, offset as int)),
            decreases n - i,
        {
            proof {
                lemma_present_before_bounds(nm, i as int + 1, n as int);
            }
            if !self.null_map[i] {
                assert(present_before(nm, i as int + 1) == offset + 1);
                assert(offset < self.values.len());
                let bytes = schema[i].to_u8(&self.values[offset]);
                push_all(&mut buffer, bytes.as_slice());
                proof {
                    assert(vs.subrange(0, offset + 1).drop_last() =~= vs.subrange(0, offset as int));
                }
                offset = offset + 1;
            }
            i = i + 1;
        }
        assert(vs.subrange(0, offset as int) =~= vs);
        buffer
    }

    /// Decodes a row of `schema` from the front of `buffer` into this row,
    /// returning the number of bytes it took. On failure the row is unchanged.
    pub fn from_bytes(&mut self, buffer: &[u8], schema: &Vec<DataType>) -> (r: Result<
        usize,
        RowDecodeError,
    >)
        ensures
            match decode_row(buffer@, schema@) {
                Ok((row, n)) => r == Ok::<usize, RowDecodeError>(n as usize) && final(self)@
                    == row,
                Err(e) => r == Err::<usize, RowDecodeError>(e) && *final(self) == *old(self),
            },
    {
        let n = schema.len();
        let len = buffer.len();
        if len < n {
            return Err(
                RowDecodeError {
                    column: len,
                    error: DecodeError::InsufficientBytes { expected: n, got: len },
                },
            );
        }
        let mut null_map: Vec<bool> = Vec::new();
        let mut values: Vec<Value> = Vec::new();
        let mut pos: usize = n;
        let mut i: usize = 0;
        assert(values@.map_values(|v: Value| v@) =~= Seq::<ValueView>::empty());
        assert(null_map@ =~= Seq::<bool>::empty());
        while i < n
            invariant
                i <= n,
                n == schema@.len(),
                n <= len,
                len == buffer@.len(),
                pos <= len,
                decode_columns(buffer@, schema@, i as int) == Ok::<(RowView, int), RowDecodeError>(
                    (RowView { null_map: null_map@, values: values@.map_values(|v: Value| v@) }, pos as int),
                ),
            decreases n - i,
        {
            if buffer[i] != 0 {
                null_map.push(true);
            } else {
                let rest = vstd::slice::slice_subrange(buffer, pos, len);
                proof {
                    lemma_decode_value_len(schema@[i as int], rest@);
                }
                match schema[i].from_u8(rest) {
                    Err(e) => {
                        proof {
                            lemma_decode_columns_err_persists(buffer@, schema@, i as int + 1, n as int);
                        }
                        return Err(RowDecodeError { column: i, error: e });
                    },
                    Ok((v, m)) => {
                        null_map.push(false);
                        values.push(v);
                        pos = pos + m;
                    },
                }
            }
            i = i + 1;
            assert(values@.map_values(|v: Value| v@) =~= decode_columns(buffer@, schema@, i as int)->Ok_0.0.values);
        }
        self.null_map = null_map;
        self.values = values;
        Ok(pos)
    }
}

/// Decoding the encoding of a row that is valid for `schema`, against that
/// schema, gives back the row and the length of its encoding.
pub proof fn lemma_row_round_trip(row: RowView, schema: Seq<DataType>)
    requires
        row.valid(schema),
    ensures
        decode_row(encode_row(row), schema) == Ok::<(RowView, int), RowDecodeError>(
            (row, encode_row(row).len() as int),
        ),
{
    let n = schema.len() as int;
    let b = encode_row(row);
    lemma_decode_columns_encoded(row, schema, n);
    assert(row.null_map.subrange(0, n) =~= row.null_map);
    assert(row.values.subrange(0, row.values.len() as int) =~= row.values);
}

/// The first `k` columns of an encoded valid row decode to the first `k`
/// indicators and the values among them.
proof fn lemma_decode_columns_encoded(row: RowView, schema: Seq<DataType>, k: int)
    requires
        row.valid(schema),
        0 <= k <= schema.len(),
    ensures
        ({
            let p = present_before(row.null_map, k);
            decode_columns(encode_row(row), schema, k) == Ok::<(RowView, int), RowDecodeError>(
                (
                    RowView {
                        null_map: row.null_map.subrange(0, k),
                        values: row.values.subrange(0, p),
                    },
                    schema.len() + values_bytes(row.values.subrange(0, p)).len() as int,
                ),
            )
        }),
    decreases k,
{
    let nm = row.null_map;
    let vs = row.values;
    let b = encode_row(row);
    let n = schema.len() as int;
    if k == 0 {
        assert(nm.subrange(0, 0) =~= seq![]);
        assert(vs.subrange(0, 0) =~= seq![]);
    } else {
        lemma_decode_columns_encoded(row, schema, k - 1);
        lemma_present_before_bounds(nm, k, n);
        lemma_present_before_bounds(nm, k - 1, k);
        assert(b[k - 1] == indicator_bytes(nm)[k - 1]);
        assert(nm.subrange(0, k) =~= nm.subrange(0, k - 1).push(nm[k - 1]));
        if !nm[k - 1] {
            let p = present_before(nm, k - 1);
            assert(present_before(nm, k) == p + 1);
            assert(row.values[p].data_type() == schema[k - 1]);
            lemma_present_column_decodes(row, schema, k - 1, p);
        }
    }
}

/// The present value at column `c`, the `p`-th value, decodes from where the
/// values before it end.
proof fn lemma_present_column_decodes(row: RowView, schema: Seq<DataType>, c: int, p: int)
    requires
        row.null_map.len() == schema.len(),
        0 <= c < schema.len(),
        !row.null_map[c],
        0 <= p < row.values.len(),
        row.values[p].valid(),
        row.values[p].data_type() == schema[c],
    ensures
        ({
            let vs = row.values;
            let b = encode_row(row);
            let pos = schema.len() + values_bytes(vs.subrange(0, p)).len() as int;
            &&& decode_value(schema[c], b.subrange(pos, b.len() as int)) == Ok::<
                (ValueView, int),
                DecodeError,
            >((vs[p], encode_value(vs[p]).len() as int))
            &&& values_bytes(vs.subrange(0, p + 1)) == values_bytes(vs.subrange(0, p))
                + encode_value(vs[p])
            &&& vs.subrange(0, p + 1) == vs.subrange(0, p).push(vs[p])
        }),
{
    let vs = row.values;
    let b = encode_row(row);
    let n = schema.len() as int;
    let pos = n + values_bytes(vs.subrange(0, p)).len() as int;
    let v = vs[p];
    let rest = values_bytes(vs.subrange(p + 1, vs.len() as int));
    lemma_values_bytes_split(vs, p);
    assert(b.subrange(pos, b.len() as int) =~= encode_value(v) + rest);
    lemma_decode_encoded_value(v, rest);
    assert(vs.subrange(0, p + 1) =~= vs.subrange(0, p).push(v));
    assert(vs.subrange(0, p + 1).drop_last() =~= vs.subrange(0, p));
}

/// The encodings of `vs` split around its value at `p`.
proof fn lemma_values_bytes_split(vs: Seq<ValueView>, p: int)
    requires
        0 <= p < vs.len(),
    ensures
        values_bytes(vs) == values_bytes(vs.subrange(0, p)) + (encode_value(vs[p])
            + values_bytes(vs.subrange(p + 1, vs.len() as int))),
{
    let v = vs[p];
    let tail = vs.subrange(p + 1, vs.len() as int);
    assert(vs =~= vs.subrange(0, p) + (seq![v] + tail));
    lemma_values_bytes_concat(vs.subrange(0, p), seq![v] + tail);
    lemma_values_bytes_concat(seq![v], tail);
    assert(seq![v].drop_last() =~= Seq::<ValueView>::empty());
    assert(seq![v].last() == v);
    assert(values_bytes(Seq::<ValueView>::empty()) =~= Seq::<u8>::empty());
    assert(values_bytes(seq![v]) =~= encode_value(v));
}

/// Once decoding the first `k` columns fails, decoding more columns fails the same way.
proof fn lemma_decode_columns_err_persists(b: Seq<u8>, schema: Seq<DataType>, k: int, m: int)
    requires
        0 <= k <= m,
        decode_columns(b, schema, k) is Err,
    ensures
        decode_columns(b, schema, m) == decode_columns(b, schema, k),
    decreases m - k,
{
    if k < m {
        lemma_decode_columns_err_persists(b, schema, k, m - 1);
    }
}

/// Every present-value index below the count is the index of some present column.
proof fn lemma_present_index_hit(nm: Seq<bool>, j: int, k: int)
    requires
        0 <= j < present_before(nm, k),
        k <= nm.len(),
    ensures
        exists|i: int|
            #![trigger nm[i]]
            0 <= i < k && !nm[i] && present_before(nm, i) == j,
    decreases k,
{
    if k > 0 {
        if j < present_before(nm, k - 1) {
            lemma_present_index_hit(nm, j, k - 1);
            let i = choose|i: int|
                #![trigger nm[i]]
                0 <= i < k - 1 && !nm[i] && present_before(nm, i) == j;
            assert(0 <= i < k && !nm[i] && present_before(nm, i) == j);
        } else {
            assert(!nm[k - 1] && present_before(nm, k - 1) == j);
        }
    }
}

} // verus!
