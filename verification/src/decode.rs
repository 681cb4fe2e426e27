//! From point records to columns.

use vstd::prelude::*;

use crate::bounds::Bounds;
use crate::bytes;
use crate::bytes::{read_u16, read_u32, read_u64};
use crate::cancel::{CancelCheck, CANCEL_POLL_STRIDE};
use crate::columns;
use crate::columns::{
    layout_for_las_format, ColumnData, ColumnModel, ColumnSelection, ColumnSpec, LasDimension,
    ScalarType,
};
use crate::error::{Error, Fault, Result};
use crate::float::{F32, F64};
use crate::info::read_f64;
use crate::point_format::PointFormat;

verus! {

/// Where the optional fields stand in an extended point record.
#[derive(Clone, Copy, Debug, PartialEq, Eq, Structural)]
pub struct ExtendedPointLayout {
    pub color_offset: Option<usize>,
    pub nir_offset: Option<usize>,
    pub waveform_offset: Option<usize>,
    pub extra_offset: usize,
    pub extra_len: usize,
}

/// What [`ExtendedPointLayout::for_format`] answers: behind the 30 bytes that all extended
/// formats have come color, near infrared, waveform and extra bytes.
pub open spec fn layout_of(format: PointFormat) -> Result<ExtendedPointLayout> {
    let color = 30int;
    let nir = color + if format.has_color {
        6int
    } else {
        0int
    };
    let waveform = nir + if format.has_nir {
        2int
    } else {
        0int
    };
    let extra = waveform + if format.has_waveform {
        29int
    } else {
        0int
    };
    if !format.is_extended {
        Err(Error::Unsupported(Fault::NotExtendedFormat))
    } else {
        Ok(
            ExtendedPointLayout {
                color_offset: if format.has_color {
                    Some(color as usize)
                } else {
                    None
                },
                nir_offset: if format.has_nir {
                    Some(nir as usize)
                } else {
                    None
                },
                waveform_offset: if format.has_waveform {
                    Some(waveform as usize)
                } else {
                    None
                },
                extra_offset: extra as usize,
                extra_len: format.extra_bytes as usize,
            },
        )
    }
}

impl ExtendedPointLayout {
    /// Every field lies in a record of `len` bytes.
    pub open spec fn fits(self, len: nat) -> bool {
        &&& len >= 30
        &&& self.color_offset matches Some(o) ==> o + 6 <= len
        &&& self.nir_offset matches Some(o) ==> o + 2 <= len
        &&& self.waveform_offset matches Some(o) ==> o + 29 <= len
        &&& self.extra_offset + self.extra_len <= len
    }

    pub fn for_format(format: &PointFormat) -> (r: Result<ExtendedPointLayout>)
        ensures
            r == layout_of(*format),
            r is Ok && format.has_gps_time ==> r->Ok_0.fits(format.record_len() as nat)
                && r->Ok_0.extra_offset + r->Ok_0.extra_len == format.record_len(),
    {
        if !format.is_extended {
            return Err(Error::Unsupported(Fault::NotExtendedFormat));
        }
        let mut cursor: usize = 30;
        let color_offset = if format.has_color {
            let offset: usize = cursor;
            cursor = cursor + 6;
            Some(offset)
        } else {
            None
        };
        let nir_offset = if format.has_nir {
            let offset: usize = cursor;
            cursor = cursor + 2;
            Some(offset)
        } else {
            None
        };
        let waveform_offset = if format.has_waveform {
            let offset: usize = cursor;
            cursor = cursor + 29;
            Some(offset)
        } else {
            None
        };
        Ok(
            ExtendedPointLayout {
                color_offset,
                nir_offset,
                waveform_offset,
                extra_offset: cursor,
                extra_len: format.extra_bytes as usize,
            },
        )
    }
}

/// What arithmetic on a record's integers gives: the coordinates under the file's transform
/// and the scan angle in degrees.
#[derive(Clone, Copy, Debug)]
pub struct ScaledPoint {
    pub x: F64,
    pub y: F64,
    pub z: F64,
    pub scan_angle: F32,
}

/// A point record together with its scaled values.
pub struct Record {
    pub buf: Seq<u8>,
    pub layout: ExtendedPointLayout,
    pub scaled: ScaledPoint,
}

/// One value of a column other than extra bytes.
#[derive(Clone, Copy, Debug)]
pub enum FieldValue {
    F64(F64),
    F32(F32),
    U64(u64),
    U32(u32),
    U16(u16),
    U8(u8),
    Bool(bool),
}

/// The 16-bit integer at an optional place, zero where it is missing.
pub open spec fn optional_u16(s: Seq<u8>, place: Option<usize>, delta: int) -> u16 {
    match place {
        Some(offset) => bytes::le_at(s, offset + delta, 2) as u16,
        None => 0,
    }
}

/// The classification code for points in the overlap of two swaths. It is reported as the
/// overlap flag, with the class of unclassified points.
pub const OVERLAP_CLASSIFICATION_CODE: u8 = 12;

/// The value of a dimension in a record. Extra bytes have no single value.
pub open spec fn field_of(dimension: LasDimension, rec: Record) -> Option<FieldValue> {
    let buf = rec.buf;
    let color = rec.layout.color_offset;
    match dimension {
        LasDimension::X => Some(FieldValue::F64(rec.scaled.x)),
        LasDimension::Y => Some(FieldValue::F64(rec.scaled.y)),
        LasDimension::Z => Some(FieldValue::F64(rec.scaled.z)),
        LasDimension::Intensity => Some(FieldValue::U16(bytes::le_at(buf, 12, 2) as u16)),
        LasDimension::ReturnNumber => Some(FieldValue::U8((buf[14] % 16) as u8)),
        LasDimension::NumberOfReturns => Some(FieldValue::U8((buf[14] / 16) as u8)),
        LasDimension::Classification => Some(
            FieldValue::U8(
                if buf[16] == OVERLAP_CLASSIFICATION_CODE {
                    1
                } else {
                    buf[16]
                },
            ),
        ),
        LasDimension::ScanDirectionFlag => Some(FieldValue::Bool(buf[15] / 64 % 2 == 1)),
        LasDimension::EdgeOfFlightLine => Some(FieldValue::Bool(buf[15] / 128 == 1)),
        LasDimension::ScanAngle => Some(FieldValue::F32(rec.scaled.scan_angle)),
        LasDimension::UserData => Some(FieldValue::U8(buf[17])),
        LasDimension::PointSourceId => Some(FieldValue::U16(bytes::le_at(buf, 20, 2) as u16)),
        LasDimension::Synthetic => Some(FieldValue::Bool(buf[15] % 2 == 1)),
        LasDimension::KeyPoint => Some(FieldValue::Bool(buf[15] / 2 % 2 == 1)),
        LasDimension::Withheld => Some(FieldValue::Bool(buf[15] / 4 % 2 == 1)),
        LasDimension::Overlap => Some(
            FieldValue::Bool(buf[15] / 8 % 2 == 1 || buf[16] == OVERLAP_CLASSIFICATION_CODE),
        ),
        LasDimension::ScanChannel => Some(FieldValue::U8((buf[15] / 16 % 4) as u8)),
        LasDimension::GpsTime => Some(FieldValue::F64(crate::info::f64_at(buf, 22))),
        LasDimension::Red => Some(FieldValue::U16(optional_u16(buf, color, 0))),
        LasDimension::Green => Some(FieldValue::U16(optional_u16(buf, color, 2))),
        LasDimension::Blue => Some(FieldValue::U16(optional_u16(buf, color, 4))),
        LasDimension::Nir => Some(FieldValue::U16(optional_u16(buf, rec.layout.nir_offset, 0))),
        LasDimension::WaveformPacketDescriptorIndex => Some(
            FieldValue::U8(
                match rec.layout.waveform_offset {
                    Some(offset) => buf[offset as int],
                    None => 0,
                },
            ),
        ),
        LasDimension::WaveformPacketByteOffset => Some(
            FieldValue::U64(
                match rec.layout.waveform_offset {
                    Some(offset) => bytes::le_at(buf, offset + 1, 8) as u64,
                    None => 0,
                },
            ),
        ),
        LasDimension::WaveformPacketSize => Some(
            FieldValue::U32(
                match rec.layout.waveform_offset {
                    Some(offset) => bytes::le_at(buf, offset + 9, 4) as u32,
                    None => 0,
                },
            ),
        ),
        LasDimension::WavePacketReturnPointWaveformLocation => Some(
            FieldValue::F32(
                match rec.layout.waveform_offset {
                    Some(offset) => F32 { bits: bytes::le_at(buf, offset + 13, 4) as u32 },
                    None => F32 { bits: 0 },
                },
            ),
        ),
        LasDimension::ExtraBytes => None,
    }
}

/// The column with one more value, where the types agree.
pub open spec fn pushed(column: ColumnModel, value: FieldValue) -> Option<ColumnModel> {
    match (column, value) {
        (ColumnModel::F64(values), FieldValue::F64(v)) => Some(ColumnModel::F64(values.push(v))),
        (ColumnModel::F32(values), FieldValue::F32(v)) => Some(ColumnModel::F32(values.push(v))),
        (ColumnModel::U64(values), FieldValue::U64(v)) => Some(ColumnModel::U64(values.push(v))),
        (ColumnModel::U32(values), FieldValue::U32(v)) => Some(ColumnModel::U32(values.push(v))),
        (ColumnModel::U16(values), FieldValue::U16(v)) => Some(ColumnModel::U16(values.push(v))),
        (ColumnModel::U8(values), FieldValue::U8(v)) => Some(ColumnModel::U8(values.push(v))),
        (ColumnModel::Bool(values), FieldValue::Bool(v)) => Some(
            ColumnModel::Bool(values.push(v)),
        ),
        _ => None,
    }
}

/// The column with the record's value of its dimension.
pub open spec fn appended(spec: ColumnSpec, column: ColumnModel, rec: Record) -> Result<
    ColumnModel,
> {
    let mismatch = Err(
        Error::InvalidData(
            Fault::ColumnDataType { dimension: spec.dimension, scalar: column.kind() },
        ),
    );
    match field_of(spec.dimension, rec) {
        Some(value) => match pushed(column, value) {
            Some(longer) => Ok(longer),
            None => mismatch,
        },
        None => match column {
            ColumnModel::U8(values) => match spec.width() {
                None => Err(Error::InvalidData(Fault::ExtraBytesWidth)),
                Some(width) => if rec.layout.extra_len != width {
                    Err(
                        Error::InvalidData(
                            Fault::ExtraBytesLength {
                                len: rec.layout.extra_len,
                                expected: width,
                            },
                        ),
                    )
                } else {
                    let start = rec.layout.extra_offset as int;
                    Ok(ColumnModel::U8(values + rec.buf.subrange(start, start + width)))
                },
            },
            _ => mismatch,
        },
    }
}

fn optional_u16_at(buf: &[u8], place: Option<usize>, delta: usize) -> (r: u16)
    requires
        place matches Some(offset) ==> offset + delta + 2 <= buf@.len(),
        delta <= 4,
    ensures
        r == optional_u16(buf@, place, delta as int),
{
    match place {
        Some(offset) => {
            let len: usize = buf.len();
            read_u16(buf, offset + delta)
        },
        None => 0,
    }
}

fn field_value(
    dimension: LasDimension,
    buf: &[u8],
    layout: &ExtendedPointLayout,
    scaled: &ScaledPoint,
) -> (r: Option<FieldValue>)
    requires
        layout.fits(buf@.len()),
    ensures
        r == field_of(dimension, Record { buf: buf@, layout: *layout, scaled: *scaled }),
{
    let len: usize = buf.len();
    let color = layout.color_offset;
    let value = match dimension {
        LasDimension::X => FieldValue::F64(scaled.x),
        LasDimension::Y => FieldValue::F64(scaled.y),
        LasDimension::Z => FieldValue::F64(scaled.z),
        LasDimension::Intensity => FieldValue::U16(read_u16(buf, 12)),
        LasDimension::ReturnNumber => FieldValue::U8(buf[14] % 16),
        LasDimension::NumberOfReturns => FieldValue::U8(buf[14] / 16),
        LasDimension::Classification => {
            let class: u8 = buf[16];
            if class == OVERLAP_CLASSIFICATION_CODE {
                FieldValue::U8(1)
            } else {
                FieldValue::U8(class)
            }
        },
        LasDimension::ScanDirectionFlag => FieldValue::Bool(buf[15] / 64 % 2 == 1),
        LasDimension::EdgeOfFlightLine => FieldValue::Bool(buf[15] / 128 == 1),
        LasDimension::ScanAngle => FieldValue::F32(scaled.scan_angle),
        LasDimension::UserData => FieldValue::U8(buf[17]),
        LasDimension::PointSourceId => FieldValue::U16(read_u16(buf, 20)),
        LasDimension::Synthetic => FieldValue::Bool(buf[15] % 2 == 1),
        LasDimension::KeyPoint => FieldValue::Bool(buf[15] / 2 % 2 == 1),
        LasDimension::Withheld => FieldValue::Bool(buf[15] / 4 % 2 == 1),
        LasDimension::Overlap => FieldValue::Bool(
            buf[15] / 8 % 2 == 1 || buf[16] == OVERLAP_CLASSIFICATION_CODE,
        ),
        LasDimension::ScanChannel => FieldValue::U8(buf[15] / 16 % 4),
        LasDimension::GpsTime => FieldValue::F64(read_f64(buf, 22)),
        LasDimension::Red => FieldValue::U16(optional_u16_at(buf, color, 0)),
        LasDimension::Green => FieldValue::U16(optional_u16_at(buf, color, 2)),
        LasDimension::Blue => FieldValue::U16(optional_u16_at(buf, color, 4)),
        LasDimension::Nir => FieldValue::U16(optional_u16_at(buf, layout.nir_offset, 0)),
        LasDimension::WaveformPacketDescriptorIndex => match layout.waveform_offset {
            Some(offset) => FieldValue::U8(buf[offset]),
            None => FieldValue::U8(0),
        },
        LasDimension::WaveformPacketByteOffset => match layout.waveform_offset {
            Some(offset) => FieldValue::U64(read_u64(buf, offset + 1)),
            None => FieldValue::U64(0),
        },
        LasDimension::WaveformPacketSize => match layout.waveform_offset {
            Some(offset) => FieldValue::U32(read_u32(buf, offset + 9)),
            None => FieldValue::U32(0),
        },
        LasDimension::WavePacketReturnPointWaveformLocation => match layout.waveform_offset {
            Some(offset) => FieldValue::F32(F32 { bits: read_u32(buf, offset + 13) }),
            None => FieldValue::F32(F32 { bits: 0 }),
        },
        LasDimension::ExtraBytes => {
            return None;
        },
    };
    Some(value)
}

/// Adds the value to the column, where the types agree.
fn push_value(data: &mut ColumnData, value: FieldValue) -> (r: bool)
    ensures
        match pushed(old(data).model(), value) {
            Some(longer) => r && final(data).model() == longer,
            None => !r && *final(data) == *old(data),
        },
{
    match (data, value) {
        (ColumnData::F64(values), FieldValue::F64(v)) => {
            values.push(v);
            true
        },
        (ColumnData::F32(values), FieldValue::F32(v)) => {
            values.push(v);
            true
        },
        (ColumnData::U64(values), FieldValue::U64(v)) => {
            values.push(v);
            true
        },
        (ColumnData::U32(values), FieldValue::U32(v)) => {
            values.push(v);
            true
        },
        (ColumnData::U16(values), FieldValue::U16(v)) => {
            values.push(v);
            true
        },
        (ColumnData::U8(values), FieldValue::U8(v)) => {
            values.push(v);
            true
        },
        (ColumnData::Bool(values), FieldValue::Bool(v)) => {
            values.push(v);
            true
        },
        _ => false,
    }
}

/// Adds the record's value of the column's dimension to the column.
pub fn append_column(
    spec: ColumnSpec,
    data: &mut ColumnData,
    buf: &[u8],
    layout: &ExtendedPointLayout,
    scaled: &ScaledPoint,
) -> (r: Result<()>)
    requires
        layout.fits(buf@.len()),
    ensures
        match appended(
            spec,
            old(data).model(),
            Record { buf: buf@, layout: *layout, scaled: *scaled },
        ) {
            Ok(longer) => r is Ok && final(data).model() == longer,
            Err(error) => r == Err::<(), Error>(error) && *final(data) == *old(data),
        },
{
    let scalar = data.scalar();
    let mismatch = Error::InvalidData(
        Fault::ColumnDataType { dimension: spec.dimension, scalar },
    );
    match field_value(spec.dimension, buf, layout, scaled) {
        Some(value) => {
            if push_value(data, value) {
                Ok(())
            } else {
                Err(mismatch)
            }
        },
        None => {
            if scalar != ScalarType::U8 {
                return Err(mismatch);
            }
            match spec.extra_byte_width() {
                None => Err(Error::InvalidData(Fault::ExtraBytesWidth)),
                Some(width) => {
                    if layout.extra_len != width {
                        return Err(
                            Error::InvalidData(
                                Fault::ExtraBytesLength { len: layout.extra_len, expected: width },
                            ),
                        );
                    }
                    let total: usize = buf.len();
                    let part = vstd::slice::slice_subrange(
                        buf,
                        layout.extra_offset,
                        layout.extra_offset + width,
                    );
                    match data {
                        ColumnData::U8(values) => {
                            bytes::push_bytes(values, part);
                        },
                        _ => {},
                    }
                    Ok(())
                },
            }
        },
    }
}

/// Columns with their values as mathematical sequences.
pub open spec fn column_models(columns: Seq<(ColumnSpec, ColumnData)>) -> Seq<
    (ColumnSpec, ColumnModel),
> {
    Seq::new(columns.len(), |i: int| (columns[i].0, columns[i].1.model()))
}

/// The columns after the first `n` of them were given the record's values.
pub open spec fn row_appended(
    columns: Seq<(ColumnSpec, ColumnModel)>,
    n: nat,
    rec: Record,
) -> Result<Seq<(ColumnSpec, ColumnModel)>>
    decreases n,
{
    if n == 0 {
        Ok(columns)
    } else {
        match row_appended(columns, (n - 1) as nat, rec) {
            Err(error) => Err(error),
            Ok(before) => {
                let (spec, column) = columns[n - 1];
                match appended(spec, column, rec) {
                    Err(error) => Err(error),
                    Ok(longer) => Ok(before.update(n - 1, (spec, longer))),
                }
            },
        }
    }
}

proof fn lemma_row_error(
    columns: Seq<(ColumnSpec, ColumnModel)>,
    n: nat,
    m: nat,
    rec: Record,
)
    requires
        n <= m,
        row_appended(columns, n, rec) is Err,
    ensures
        row_appended(columns, m, rec) == row_appended(columns, n, rec),
    decreases m,
{
    if n < m {
        lemma_row_error(columns, n, (m - 1) as nat, rec);
    }
}

proof fn lemma_row_untouched(
    columns: Seq<(ColumnSpec, ColumnModel)>,
    n: nat,
    rec: Record,
)
    requires
        n <= columns.len(),
        row_appended(columns, n, rec) is Ok,
    ensures
        ({
            let after = row_appended(columns, n, rec)->Ok_0;
            &&& after.len() == columns.len()
            &&& forall|i: int| n <= i < columns.len() ==> #[trigger] after[i] == columns[i]
        }),
    decreases n,
{
    if n > 0 {
        lemma_row_untouched(columns, (n - 1) as nat, rec);
    }
}

/// Whether the record's values were added up to a column that does not take its value: the
/// columns before it have theirs, and the others are as they were.
pub open spec fn stopped_at(
    columns: Seq<(ColumnSpec, ColumnModel)>,
    after: Seq<(ColumnSpec, ColumnModel)>,
    rec: Record,
) -> bool {
    exists|k: nat|
        {
            &&& k < columns.len()
            &&& #[trigger] row_appended(columns, k, rec) == Ok::<
                Seq<(ColumnSpec, ColumnModel)>,
                Error,
            >(after)
            &&& appended(columns[k as int].0, columns[k as int].1, rec) is Err
        }
}

/// Adds a record's values to all columns.
pub fn append_columns(
    columns: &mut Vec<(ColumnSpec, ColumnData)>,
    buf: &[u8],
    layout: &ExtendedPointLayout,
    scaled: &ScaledPoint,
) -> (r: Result<()>)
    requires
        layout.fits(buf@.len()),
    ensures
        match row_appended(
            column_models(old(columns)@),
            old(columns)@.len(),
            Record { buf: buf@, layout: *layout, scaled: *scaled },
        ) {
            Ok(after) => r is Ok && column_models(final(columns)@) == after,
            Err(error) => r == Err::<(), Error>(error) && stopped_at(
                column_models(old(columns)@),
                column_models(final(columns)@),
                Record { buf: buf@, layout: *layout, scaled: *scaled },
            ),
        },
{
    let ghost rec = Record { buf: buf@, layout: *layout, scaled: *scaled };
    let ghost start = column_models(columns@);
    let count: usize = columns.len();
    let mut i: usize = 0;
    while i < count
        invariant
            i <= count,
            count == columns@.len(),
            count == old(columns)@.len(),
            start == column_models(old(columns)@),
            layout.fits(buf@.len()),
            rec == (Record { buf: buf@, layout: *layout, scaled: *scaled }),
            row_appended(start, i as nat, rec) == Ok::<Seq<(ColumnSpec, ColumnModel)>, Error>(
                column_models(columns@),
            ),
        decreases count - i,
    {
        let ghost before = columns@;
        proof {
            lemma_row_untouched(start, i as nat, rec);
            assert(column_models(columns@)[i as int] == start[i as int]);
        }
        let spec = columns[i].0;
        match append_column(spec, &mut columns[i].1, buf, layout, scaled) {
            Ok(_) => {},
            Err(error) => {
                proof {
                    lemma_row_error(start, (i + 1) as nat, count as nat, rec);
                    assert(column_models(columns@) =~= column_models(before));
                    assert(row_appended(start, i as nat, rec) == Ok::<
                        Seq<(ColumnSpec, ColumnModel)>,
                        Error,
                    >(column_models(columns@)));
                    assert(stopped_at(start, column_models(columns@), rec));
                }
                return Err(error);
            },
        }
        proof {
            assert(column_models(columns@) =~= column_models(before).update(
                i as int,
                (spec, columns@[i as int].1.model()),
            ));
        }
        i = i + 1;
    }
    Ok(())
}

/// The record with the index `i` in a run of records of equal length.
pub open spec fn record_at(
    records: Seq<u8>,
    size: int,
    i: int,
    layout: ExtendedPointLayout,
    scaled: Seq<ScaledPoint>,
) -> Record {
    Record { buf: records.subrange(i * size, i * size + size), layout, scaled: scaled[i] }
}

/// Whether a point passes the filter.
pub open spec fn accepted(point: ScaledPoint, bounds: Option<Bounds>) -> bool {
    bounds matches Some(b) ==> b.holds(point.x, point.y, point.z)
}

/// How many of the first `n` points pass the filter.
pub open spec fn accepted_count(
    scaled: Seq<ScaledPoint>,
    n: nat,
    bounds: Option<Bounds>,
) -> nat
    decreases n,
{
    if n == 0 {
        0
    } else {
        accepted_count(scaled, (n - 1) as nat, bounds) + if accepted(scaled[n - 1], bounds) {
            1nat
        } else {
            0nat
        }
    }
}

/// The columns after the accepted ones of the first `n` records were added.
pub open spec fn chunk_appended(
    columns: Seq<(ColumnSpec, ColumnModel)>,
    records: Seq<u8>,
    size: int,
    n: nat,
    layout: ExtendedPointLayout,
    scaled: Seq<ScaledPoint>,
    bounds: Option<Bounds>,
) -> Result<Seq<(ColumnSpec, ColumnModel)>>
    decreases n,
{
    if n == 0 {
        Ok(columns)
    } else {
        match chunk_appended(columns, records, size, (n - 1) as nat, layout, scaled, bounds) {
            Err(error) => Err(error),
            Ok(before) => if accepted(scaled[n - 1], bounds) {
                row_appended(
                    before,
                    before.len(),
                    record_at(records, size, n - 1, layout, scaled),
                )
            } else {
                Ok(before)
            },
        }
    }
}

proof fn lemma_chunk_error(
    columns: Seq<(ColumnSpec, ColumnModel)>,
    records: Seq<u8>,
    size: int,
    n: nat,
    m: nat,
    layout: ExtendedPointLayout,
    scaled: Seq<ScaledPoint>,
    bounds: Option<Bounds>,
)
    requires
        n <= m,
        chunk_appended(columns, records, size, n, layout, scaled, bounds) is Err,
    ensures
        chunk_appended(columns, records, size, m, layout, scaled, bounds) == chunk_appended(
            columns,
            records,
            size,
            n,
            layout,
            scaled,
            bounds,
        ),
    decreases m,
{
    if n < m {
        lemma_chunk_error(columns, records, size, n, (m - 1) as nat, layout, scaled, bounds);
    }
}

/// Adds the records of a chunk that lie in the bounds, and says how many did.
///
/// `scaled` holds what the records' integers stand for, one for each record.
pub fn append_chunk<C: CancelCheck>(
    columns: &mut Vec<(ColumnSpec, ColumnData)>,
    records: &[u8],
    record_size: usize,
    layout: &ExtendedPointLayout,
    scaled: &[ScaledPoint],
    bounds: Option<Bounds>,
    cancel: &C,
) -> (r: Result<usize>)
    requires
        layout.fits(record_size as nat),
        records@.len() == scaled@.len() * record_size,
    ensures
        match r {
            Ok(count) => {
                &&& count == accepted_count(scaled@, scaled@.len(), bounds)
                &&& chunk_appended(
                    column_models(old(columns)@),
                    records@,
                    record_size as int,
                    scaled@.len(),
                    *layout,
                    scaled@,
                    bounds,
                ) == Ok::<Seq<(ColumnSpec, ColumnModel)>, Error>(column_models(final(columns)@))
            },
            Err(error) => cancel.may_answer(error) || chunk_appended(
                column_models(old(columns)@),
                records@,
                record_size as int,
                scaled@.len(),
                *layout,
                scaled@,
                bounds,
            ) == Err::<Seq<(ColumnSpec, ColumnModel)>, Error>(error),
        },
{
    let ghost start = column_models(columns@);
    let count: usize = scaled.len();
    let total: usize = records.len();
    let mut found: usize = 0;
    let mut i: usize = 0;
    while i < count
        invariant
            i <= count,
            count == scaled@.len(),
            total == records@.len(),
            found <= i,
            start == column_models(old(columns)@),
            layout.fits(record_size as nat),
            records@.len() == count * record_size,
            found == accepted_count(scaled@, i as nat, bounds),
            chunk_appended(
                start,
                records@,
                record_size as int,
                i as nat,
                *layout,
                scaled@,
                bounds,
            ) == Ok::<Seq<(ColumnSpec, ColumnModel)>, Error>(column_models(columns@)),
        decreases count - i,
    {
        if i % CANCEL_POLL_STRIDE == 0 {
            cancel.check()?;
        }
        let keep = match bounds {
            Some(b) => b.contains_xyz(scaled[i].x, scaled[i].y, scaled[i].z),
            None => true,
        };
        if keep {
            proof {
                assert(i * record_size + record_size <= count * record_size) by (nonlinear_arith)
                    requires
                        i < count,
                ;
            }
            let offset: usize = i * record_size;
            let buf = vstd::slice::slice_subrange(records, offset, offset + record_size);
            let ghost before = column_models(columns@);
            match append_columns(columns, buf, layout, &scaled[i]) {
                Ok(_) => {},
                Err(error) => {
                    proof {
                        lemma_chunk_error(
                            start,
                            records@,
                            record_size as int,
                            (i + 1) as nat,
                            count as nat,
                            *layout,
                            scaled@,
                            bounds,
                        );
                    }
                    return Err(error);
                },
            }
            found = found + 1;
        }
        i = i + 1;
    }
    Ok(found)
}

/// A column of the declared type without values.
pub open spec fn empty_model(scalar: ScalarType) -> ColumnModel {
    match scalar {
        ScalarType::F64 => ColumnModel::F64(Seq::empty()),
        ScalarType::F32 => ColumnModel::F32(Seq::empty()),
        ScalarType::I64 => ColumnModel::I64(Seq::empty()),
        ScalarType::I32 => ColumnModel::I32(Seq::empty()),
        ScalarType::I16 => ColumnModel::I16(Seq::empty()),
        ScalarType::I8 => ColumnModel::I8(Seq::empty()),
        ScalarType::U64 => ColumnModel::U64(Seq::empty()),
        ScalarType::U32 => ColumnModel::U32(Seq::empty()),
        ScalarType::U16 => ColumnModel::U16(Seq::empty()),
        ScalarType::U8 => ColumnModel::U8(Seq::empty()),
        ScalarType::Bool => ColumnModel::Bool(Seq::empty()),
    }
}

/// What [`empty_column`] refuses: extra bytes without a width, or with one for which the
/// room for `capacity` points is too large.
pub open spec fn capacity_check(spec: ColumnSpec, capacity: usize) -> Result<()> {
    if spec.scalar == ScalarType::U8 && spec.dimension == LasDimension::ExtraBytes {
        match spec.width() {
            None => Err(Error::InvalidInput(Fault::ExtraBytesWidth)),
            Some(width) => if capacity * width > usize::MAX {
                Err(Error::InvalidInput(Fault::ColumnCapacity))
            } else {
                Ok(())
            },
        }
    } else {
        Ok(())
    }
}

/// An empty column with room for `capacity` points.
pub fn empty_column(spec: ColumnSpec, capacity: usize) -> (r: Result<(ColumnSpec, ColumnData)>)
    ensures
        match r {
            Ok((declared, data)) => {
                &&& capacity_check(spec, capacity) is Ok
                &&& declared == spec
                &&& data.model() == empty_model(spec.scalar)
            },
            Err(error) => capacity_check(spec, capacity) == Err::<(), Error>(error),
        },
{
    let mut room: usize = capacity;
    if spec.scalar == ScalarType::U8 && spec.dimension == LasDimension::ExtraBytes {
        match spec.extra_byte_width() {
            None => {
                return Err(Error::InvalidInput(Fault::ExtraBytesWidth));
            },
            Some(width) => match capacity.checked_mul(width) {
                None => {
                    return Err(Error::InvalidInput(Fault::ColumnCapacity));
                },
                Some(product) => {
                    room = product;
                },
            },
        }
    }
    let data = match spec.scalar {
        ScalarType::F64 => ColumnData::F64(Vec::with_capacity(room)),
        ScalarType::F32 => ColumnData::F32(Vec::with_capacity(room)),
        ScalarType::I64 => ColumnData::I64(Vec::with_capacity(room)),
        ScalarType::I32 => ColumnData::I32(Vec::with_capacity(room)),
        ScalarType::I16 => ColumnData::I16(Vec::with_capacity(room)),
        ScalarType::I8 => ColumnData::I8(Vec::with_capacity(room)),
        ScalarType::U64 => ColumnData::U64(Vec::with_capacity(room)),
        ScalarType::U32 => ColumnData::U32(Vec::with_capacity(room)),
        ScalarType::U16 => ColumnData::U16(Vec::with_capacity(room)),
        ScalarType::U8 => ColumnData::U8(Vec::with_capacity(room)),
        ScalarType::Bool => ColumnData::Bool(Vec::with_capacity(room)),
    };
    proof {
        assert(data.model() =~= empty_model(spec.scalar));
    }
    Ok((spec, data))
}

/// The selected ones of the first `n` declarations, as empty columns.
pub open spec fn selected_empty(
    specs: Seq<ColumnSpec>,
    n: nat,
    selection: Seq<LasDimension>,
) -> Seq<(ColumnSpec, ColumnModel)>
    decreases n,
{
    if n == 0 {
        Seq::empty()
    } else {
        let before = selected_empty(specs, (n - 1) as nat, selection);
        let spec = specs[n - 1];
        if selection.contains(spec.dimension) {
            before.push((spec, empty_model(spec.scalar)))
        } else {
            before
        }
    }
}

/// Whether the room for `capacity` points of extra bytes is too large.
pub open spec fn builders_overflow(
    format: PointFormat,
    selection: Seq<LasDimension>,
    capacity: usize,
) -> bool {
    format.extra_bytes > 0 && selection.contains(LasDimension::ExtraBytes) && capacity
        * format.extra_bytes > usize::MAX
}

/// Empty columns for the dimensions of the format that are selected.
pub fn selected_column_builders(
    format: PointFormat,
    selection: &ColumnSelection,
    capacity: usize,
) -> (r: Result<Vec<(ColumnSpec, ColumnData)>>)
    ensures
        match r {
            Ok(built) => {
                let specs = columns::format_columns(format);
                &&& !builders_overflow(format, selection@, capacity)
                &&& column_models(built@) == selected_empty(specs, specs.len(), selection@)
            },
            Err(error) => {
                &&& builders_overflow(format, selection@, capacity)
                &&& error == Error::InvalidInput(Fault::ColumnCapacity)
            },
        },
{
    let specs = layout_for_las_format(format);
    let mut built: Vec<(ColumnSpec, ColumnData)> = Vec::new();
    let mut i: usize = 0;
    proof {
        assert(column_models(built@) =~= Seq::empty());
    }
    while i < specs.len()
        invariant
            i <= specs@.len(),
            specs@ == columns::format_columns(format),
            column_models(built@) == selected_empty(specs@, i as nat, selection@),
            i < specs@.len() || !builders_overflow(format, selection@, capacity),
        decreases specs@.len() - i,
    {
        let spec = specs[i];
        let ghost before = built@;
        proof {
            lemma_format_column(format, i as int);
        }
        if selection.contains(spec.dimension) {
            let column = empty_column(spec, capacity)?;
            built.push(column);
            proof {
                assert(column_models(built@) =~= column_models(before).push(
                    (spec, empty_model(spec.scalar)),
                ));
            }
        }
        i = i + 1;
    }
    Ok(built)
}

/// A format's column is extra bytes exactly where it is the last one of a format that has
/// some.
proof fn lemma_format_column(format: PointFormat, i: int)
    requires
        0 <= i < columns::format_columns(format).len(),
    ensures
        ({
            let specs = columns::format_columns(format);
            let last = format.extra_bytes > 0 && i == specs.len() - 1;
            &&& last ==> specs[i] == columns::extra_spec(format.extra_bytes as usize)
            &&& !last ==> specs[i].dimension != LasDimension::ExtraBytes
        }),
{
    let dims = columns::format_dimensions(format);
    if i < dims.len() {
        assert(columns::format_columns(format)[i].dimension == dims[i]);
        assert(dims[i] != LasDimension::ExtraBytes);
    }
}

/// The values of `b` behind those of `a`, where the types agree.
pub open spec fn joined(a: ColumnModel, b: ColumnModel) -> Option<ColumnModel> {
    match (a, b) {
        (ColumnModel::F64(x), ColumnModel::F64(y)) => Some(ColumnModel::F64(x + y)),
        (ColumnModel::F32(x), ColumnModel::F32(y)) => Some(ColumnModel::F32(x + y)),
        (ColumnModel::I64(x), ColumnModel::I64(y)) => Some(ColumnModel::I64(x + y)),
        (ColumnModel::I32(x), ColumnModel::I32(y)) => Some(ColumnModel::I32(x + y)),
        (ColumnModel::I16(x), ColumnModel::I16(y)) => Some(ColumnModel::I16(x + y)),
        (ColumnModel::I8(x), ColumnModel::I8(y)) => Some(ColumnModel::I8(x + y)),
        (ColumnModel::U64(x), ColumnModel::U64(y)) => Some(ColumnModel::U64(x + y)),
        (ColumnModel::U32(x), ColumnModel::U32(y)) => Some(ColumnModel::U32(x + y)),
        (ColumnModel::U16(x), ColumnModel::U16(y)) => Some(ColumnModel::U16(x + y)),
        (ColumnModel::U8(x), ColumnModel::U8(y)) => Some(ColumnModel::U8(x + y)),
        (ColumnModel::Bool(x), ColumnModel::Bool(y)) => Some(ColumnModel::Bool(x + y)),
        _ => None,
    }
}

fn join_data(dst: &mut ColumnData, src: ColumnData) -> (r: bool)
    ensures
        match joined(old(dst).model(), src.model()) {
            Some(both) => r && final(dst).model() == both,
            None => !r && *final(dst) == *old(dst),
        },
{
    match (dst, src) {
        (ColumnData::F64(x), ColumnData::F64(y)) => {
            let mut y = y;
            x.append(&mut y);
            true
        },
        (ColumnData::F32(x), ColumnData::F32(y)) => {
            let mut y = y;
            x.append(&mut y);
            true
        },
        (ColumnData::I64(x), ColumnData::I64(y)) => {
            let mut y = y;
            x.append(&mut y);
            true
        },
        (ColumnData::I32(x), ColumnData::I32(y)) => {
            let mut y = y;
            x.append(&mut y);
            true
        },
        (ColumnData::I16(x), ColumnData::I16(y)) => {
            let mut y = y;
            x.append(&mut y);
            true
        },
        (ColumnData::I8(x), ColumnData::I8(y)) => {
            let mut y = y;
            x.append(&mut y);
            true
        },
        (ColumnData::U64(x), ColumnData::U64(y)) => {
            let mut y = y;
            x.append(&mut y);
            true
        },
        (ColumnData::U32(x), ColumnData::U32(y)) => {
            let mut y = y;
            x.append(&mut y);
            true
        },
        (ColumnData::U16(x), ColumnData::U16(y)) => {
            let mut y = y;
            x.append(&mut y);
            true
        },
        (ColumnData::U8(x), ColumnData::U8(y)) => {
            let mut y = y;
            x.append(&mut y);
            true
        },
        (ColumnData::Bool(x), ColumnData::Bool(y)) => {
            let mut y = y;
            x.append(&mut y);
            true
        },
        _ => false,
    }
}

/// The columns after the first `n` of them were joined with those of a chunk.
pub open spec fn columns_joined(
    a: Seq<(ColumnSpec, ColumnModel)>,
    b: Seq<(ColumnSpec, ColumnModel)>,
    n: nat,
) -> Result<Seq<(ColumnSpec, ColumnModel)>>
    decreases n,
{
    if n == 0 {
        Ok(a)
    } else {
        match columns_joined(a, b, (n - 1) as nat) {
            Err(error) => Err(error),
            Ok(before) => if a[n - 1].0 != b[n - 1].0 {
                Err(
                    Error::InvalidData(
                        Fault::MergeColumnSpec { found: b[n - 1].0, expected: a[n - 1].0 },
                    ),
                )
            } else {
                match joined(a[n - 1].1, b[n - 1].1) {
                    None => Err(Error::InvalidData(Fault::MergeColumnScalar)),
                    Some(both) => Ok(before.update(n - 1, (a[n - 1].0, both))),
                }
            },
        }
    }
}

proof fn lemma_joined_error(
    a: Seq<(ColumnSpec, ColumnModel)>,
    b: Seq<(ColumnSpec, ColumnModel)>,
    n: nat,
    m: nat,
)
    requires
        n <= m,
        columns_joined(a, b, n) is Err,
    ensures
        columns_joined(a, b, m) == columns_joined(a, b, n),
    decreases m,
{
    if n < m {
        lemma_joined_error(a, b, n, (m - 1) as nat);
    }
}

proof fn lemma_joined_untouched(
    a: Seq<(ColumnSpec, ColumnModel)>,
    b: Seq<(ColumnSpec, ColumnModel)>,
    n: nat,
)
    requires
        n <= a.len(),
        columns_joined(a, b, n) is Ok,
    ensures
        columns_joined(a, b, n)->Ok_0.len() == a.len(),
        forall|i: int|
            n <= i < a.len() ==> #[trigger] columns_joined(a, b, n)->Ok_0[i] == a[i],
    decreases n,
{
    if n > 0 {
        lemma_joined_untouched(a, b, (n - 1) as nat);
    }
}

/// Whether columns were joined up to one that cannot be: the columns before it are, and the
/// others are as they were.
pub open spec fn joined_up_to(
    a: Seq<(ColumnSpec, ColumnModel)>,
    b: Seq<(ColumnSpec, ColumnModel)>,
    after: Seq<(ColumnSpec, ColumnModel)>,
) -> bool {
    exists|k: nat|
        {
            &&& k < a.len()
            &&& #[trigger] columns_joined(a, b, k) == Ok::<Seq<(ColumnSpec, ColumnModel)>, Error>(
                after,
            )
            &&& a[k as int].0 != b[k as int].0 || joined(a[k as int].1, b[k as int].1) is None
        }
}

/// Adds the columns of a chunk behind those that were there. Both must be declared alike.
pub fn merge_columns(
    dst: &mut Vec<(ColumnSpec, ColumnData)>,
    src: Vec<(ColumnSpec, ColumnData)>,
) -> (r: Result<()>)
    ensures
        if old(dst)@.len() != src@.len() {
            r == Err::<(), Error>(
                Error::InvalidData(
                    Fault::MergeColumnCount {
                        found: src@.len() as usize,
                        expected: old(dst)@.len() as usize,
                    },
                ),
            ) && *final(dst) == *old(dst)
        } else {
            match columns_joined(
                column_models(old(dst)@),
                column_models(src@),
                src@.len(),
            ) {
                Ok(both) => r is Ok && column_models(final(dst)@) == both,
                Err(error) => r == Err::<(), Error>(error) && joined_up_to(
                    column_models(old(dst)@),
                    column_models(src@),
                    column_models(final(dst)@),
                ),
            }
        },
{
    let count: usize = dst.len();
    if count != src.len() {
        return Err(
            Error::InvalidData(Fault::MergeColumnCount { found: src.len(), expected: count }),
        );
    }
    let ghost a = column_models(dst@);
    let ghost b = column_models(src@);
    let ghost all = src@;
    let mut rest = src;
    let mut i: usize = 0;
    while i < count
        invariant
            i <= count,
            count == dst@.len(),
            count == old(dst)@.len(),
            count == all.len(),
            all == src@,
            rest@ == all.subrange(i as int, count as int),
            a == column_models(old(dst)@),
            a.len() == count,
            b == column_models(all),
            columns_joined(a, b, i as nat) == Ok::<Seq<(ColumnSpec, ColumnModel)>, Error>(
                column_models(dst@),
            ),
        decreases count - i,
    {
        let (src_spec, src_data) = rest.remove(0);
        let ghost before = dst@;
        proof {
            lemma_joined_untouched(a, b, i as nat);
            assert(column_models(dst@)[i as int] == a[i as int]);
            assert(b[i as int] == (src_spec, src_data.model()));
            assert(rest@ =~= all.subrange(i + 1, count as int));
        }
        let dst_spec = dst[i].0;
        if dst_spec != src_spec {
            proof {
                lemma_joined_error(a, b, (i + 1) as nat, count as nat);
                assert(joined_up_to(a, b, column_models(dst@)));
            }
            return Err(
                Error::InvalidData(
                    Fault::MergeColumnSpec { found: src_spec, expected: dst_spec },
                ),
            );
        }
        if !join_data(&mut dst[i].1, src_data) {
            proof {
                lemma_joined_error(a, b, (i + 1) as nat, count as nat);
                assert(column_models(dst@) =~= column_models(before));
                assert(columns_joined(a, b, i as nat) == Ok::<
                    Seq<(ColumnSpec, ColumnModel)>,
                    Error,
                >(column_models(dst@)));
                assert(joined_up_to(a, b, column_models(dst@)));
            }
            return Err(Error::InvalidData(Fault::MergeColumnScalar));
        }
        proof {
            assert(column_models(dst@) =~= column_models(before).update(
                i as int,
                (dst_spec, dst@[i as int].1.model()),
            ));
        }
        i = i + 1;
    }
    Ok(())
}

/// The fields of a record stand where LAS has them in the formats from 6 on.
pub proof fn law_fields_stand_in_the_record(rec: Record)
    requires
        rec.layout.fits(rec.buf.len()),
    ensures
        field_of(LasDimension::Intensity, rec) == Some(
            FieldValue::U16((rec.buf[12] + 256 * rec.buf[13]) as u16),
        ),
        field_of(LasDimension::ReturnNumber, rec) matches Some(FieldValue::U8(low))
            && field_of(LasDimension::NumberOfReturns, rec) matches Some(FieldValue::U8(high))
            && low < 16 && low + 16 * high == rec.buf[14],
        field_of(LasDimension::Classification, rec) == Some(
            FieldValue::U8(
                if rec.buf[16] == 12 {
                    1
                } else {
                    rec.buf[16]
                },
            ),
        ),
        field_of(LasDimension::UserData, rec) == Some(FieldValue::U8(rec.buf[17])),
        field_of(LasDimension::PointSourceId, rec) == Some(
            FieldValue::U16((rec.buf[20] + 256 * rec.buf[21]) as u16),
        ),
        field_of(LasDimension::GpsTime, rec) matches Some(FieldValue::F64(time)) && time.bits
            == bytes::le_at(rec.buf, 22, 8),
        field_of(LasDimension::X, rec) == Some(FieldValue::F64(rec.scaled.x)),
        field_of(LasDimension::Y, rec) == Some(FieldValue::F64(rec.scaled.y)),
        field_of(LasDimension::Z, rec) == Some(FieldValue::F64(rec.scaled.z)),
        field_of(LasDimension::ScanAngle, rec) == Some(FieldValue::F32(rec.scaled.scan_angle)),
{
    bytes::law_place_values(rec.buf, 12);
    bytes::law_place_values(rec.buf, 20);
    bytes::lemma_le_bound(rec.buf.subrange(22, 30));
    bytes::lemma_pow256_values();
}

/// The flags of a record and the scanner channel together are its byte 15, but that the class
/// of points in the overlap of two swaths counts as the overlap flag.
pub proof fn law_flags_stand_in_the_record(rec: Record)
    requires
        rec.layout.fits(rec.buf.len()),
    ensures
        ({
            let byte = rec.buf[15] as int;
            &&& field_of(LasDimension::Synthetic, rec) == Some(FieldValue::Bool(byte % 2 == 1))
            &&& field_of(LasDimension::KeyPoint, rec) == Some(FieldValue::Bool(byte / 2 % 2 == 1))
            &&& field_of(LasDimension::Withheld, rec) == Some(FieldValue::Bool(byte / 4 % 2 == 1))
            &&& field_of(LasDimension::Overlap, rec) == Some(
                FieldValue::Bool(byte / 8 % 2 == 1 || rec.buf[16] == 12),
            )
            &&& field_of(LasDimension::ScanChannel, rec) == Some(
                FieldValue::U8((byte / 16 % 4) as u8),
            )
            &&& field_of(LasDimension::ScanDirectionFlag, rec) == Some(
                FieldValue::Bool(byte / 64 % 2 == 1),
            )
            &&& field_of(LasDimension::EdgeOfFlightLine, rec) == Some(
                FieldValue::Bool(byte / 128 % 2 == 1),
            )
        }),
{
}

/// The fields that a format need not have stand behind the time in the order color, near
/// infrared, waveform, extra bytes, with nothing between them; a field that the format does
/// not have is zero.
pub proof fn law_optional_fields_stand_in_the_record(rec: Record, format: PointFormat)
    requires
        layout_of(format) == Ok::<ExtendedPointLayout, Error>(rec.layout),
        rec.layout.fits(rec.buf.len()),
    ensures
        ({
            let nir: int = if format.has_color {
                36
            } else {
                30
            };
            let wave: int = nir + if format.has_nir {
                2int
            } else {
                0int
            };
            let extra: int = wave + if format.has_waveform {
                29int
            } else {
                0int
            };
            &&& field_of(LasDimension::Red, rec) == Some(
                FieldValue::U16(
                    if format.has_color {
                        (rec.buf[30] + 256 * rec.buf[31]) as u16
                    } else {
                        0
                    },
                ),
            )
            &&& field_of(LasDimension::Green, rec) == Some(
                FieldValue::U16(
                    if format.has_color {
                        (rec.buf[32] + 256 * rec.buf[33]) as u16
                    } else {
                        0
                    },
                ),
            )
            &&& field_of(LasDimension::Blue, rec) == Some(
                FieldValue::U16(
                    if format.has_color {
                        (rec.buf[34] + 256 * rec.buf[35]) as u16
                    } else {
                        0
                    },
                ),
            )
            &&& field_of(LasDimension::Nir, rec) == Some(
                FieldValue::U16(
                    if format.has_nir {
                        (rec.buf[nir] + 256 * rec.buf[nir + 1]) as u16
                    } else {
                        0
                    },
                ),
            )
            &&& field_of(LasDimension::WaveformPacketDescriptorIndex, rec) == Some(
                FieldValue::U8(
                    if format.has_waveform {
                        rec.buf[wave]
                    } else {
                        0
                    },
                ),
            )
            &&& field_of(LasDimension::WaveformPacketByteOffset, rec) == Some(
                FieldValue::U64(
                    if format.has_waveform {
                        bytes::le_at(rec.buf, wave + 1, 8) as u64
                    } else {
                        0
                    },
                ),
            )
            &&& field_of(LasDimension::WaveformPacketSize, rec) == Some(
                FieldValue::U32(
                    if format.has_waveform {
                        bytes::le_at(rec.buf, wave + 9, 4) as u32
                    } else {
                        0
                    },
                ),
            )
            &&& field_of(LasDimension::WavePacketReturnPointWaveformLocation, rec) == Some(
                FieldValue::F32(
                    F32 {
                        bits: if format.has_waveform {
                            bytes::le_at(rec.buf, wave + 13, 4) as u32
                        } else {
                            0
                        },
                    },
                ),
            )
            &&& rec.layout.extra_offset == extra
            &&& rec.layout.extra_len == format.extra_bytes
        }),
{
    if format.has_color {
        bytes::law_place_values(rec.buf, 30);
        bytes::law_place_values(rec.buf, 32);
        bytes::law_place_values(rec.buf, 34);
    }
    if format.has_nir {
        bytes::law_place_values(rec.buf, rec.layout.nir_offset->Some_0 as int);
    }
}

/// There is room for a column's points unless it is one of extra bytes that has no width, or
/// whose bytes for all points are too many.
pub proof fn law_room_of_a_column(spec: ColumnSpec, capacity: usize)
    requires
        spec.dimension == LasDimension::ExtraBytes ==> spec.scalar == ScalarType::U8,
    ensures
        capacity_check(spec, capacity) is Ok <==> (spec.dimension == LasDimension::ExtraBytes ==> {
            &&& spec.byte_width is Some
            &&& spec.byte_width->Some_0 > 0
            &&& capacity * spec.byte_width->Some_0 <= usize::MAX
        }),
        empty_model(spec.scalar).count() == 0,
        empty_model(spec.scalar).kind() == spec.scalar,
{
}

/// A value is added behind the others of a column of its type, and to no other column.
pub proof fn law_pushed(column: ColumnModel, value: FieldValue)
    ensures
        match (column, value) {
            (ColumnModel::F64(s), FieldValue::F64(v)) => pushed(column, value) == Some(
                ColumnModel::F64(s.push(v)),
            ),
            (ColumnModel::F32(s), FieldValue::F32(v)) => pushed(column, value) == Some(
                ColumnModel::F32(s.push(v)),
            ),
            (ColumnModel::U64(s), FieldValue::U64(v)) => pushed(column, value) == Some(
                ColumnModel::U64(s.push(v)),
            ),
            (ColumnModel::U32(s), FieldValue::U32(v)) => pushed(column, value) == Some(
                ColumnModel::U32(s.push(v)),
            ),
            (ColumnModel::U16(s), FieldValue::U16(v)) => pushed(column, value) == Some(
                ColumnModel::U16(s.push(v)),
            ),
            (ColumnModel::U8(s), FieldValue::U8(v)) => pushed(column, value) == Some(
                ColumnModel::U8(s.push(v)),
            ),
            (ColumnModel::Bool(s), FieldValue::Bool(v)) => pushed(column, value) == Some(
                ColumnModel::Bool(s.push(v)),
            ),
            _ => pushed(column, value) is None,
        },
{
}

/// Columns are joined only where they are of one type, and the values of the second then stand
/// behind those of the first.
pub proof fn law_joined(a: ColumnModel, b: ColumnModel)
    ensures
        joined(a, b) is Some <==> a.kind() == b.kind(),
        joined(a, b) is Some ==> {
            let both = joined(a, b)->Some_0;
            &&& both.kind() == a.kind()
            &&& both.count() == a.count() + b.count()
            &&& match (a, b, both) {
                (ColumnModel::F64(x), ColumnModel::F64(y), ColumnModel::F64(z)) => z == x + y,
                (ColumnModel::F32(x), ColumnModel::F32(y), ColumnModel::F32(z)) => z == x + y,
                (ColumnModel::I64(x), ColumnModel::I64(y), ColumnModel::I64(z)) => z == x + y,
                (ColumnModel::I32(x), ColumnModel::I32(y), ColumnModel::I32(z)) => z == x + y,
                (ColumnModel::I16(x), ColumnModel::I16(y), ColumnModel::I16(z)) => z == x + y,
                (ColumnModel::I8(x), ColumnModel::I8(y), ColumnModel::I8(z)) => z == x + y,
                (ColumnModel::U64(x), ColumnModel::U64(y), ColumnModel::U64(z)) => z == x + y,
                (ColumnModel::U32(x), ColumnModel::U32(y), ColumnModel::U32(z)) => z == x + y,
                (ColumnModel::U16(x), ColumnModel::U16(y), ColumnModel::U16(z)) => z == x + y,
                (ColumnModel::U8(x), ColumnModel::U8(y), ColumnModel::U8(z)) => z == x + y,
                (ColumnModel::Bool(x), ColumnModel::Bool(y), ColumnModel::Bool(z)) => z == x + y,
                _ => false,
            }
        },
{
}

/// A record adds to a column its field of the column's dimension, and to the column of the extra
/// bytes all of its own; a column that cannot hold them is refused.
pub proof fn law_appended(spec: ColumnSpec, column: ColumnModel, rec: Record)
    ensures
        spec.dimension != LasDimension::ExtraBytes ==> {
            let value = field_of(spec.dimension, rec);
            &&& value is Some
            &&& appended(spec, column, rec) is Ok <==> pushed(column, value->Some_0) is Some
            &&& appended(spec, column, rec) is Ok ==> pushed(column, value->Some_0) == Some(
                appended(spec, column, rec)->Ok_0,
            )
        },
        spec.dimension == LasDimension::ExtraBytes && column is U8 && spec.scalar
            == ScalarType::U8 && spec.byte_width == Some(rec.layout.extra_len)
            && rec.layout.extra_len > 0 && rec.layout.fits(rec.buf.len()) ==> {
            let after = appended(spec, column, rec);
            let first = rec.layout.extra_offset as int;
            &&& after is Ok && after->Ok_0 is U8
            &&& after->Ok_0->U8_0.len() == column->U8_0.len() + rec.layout.extra_len
            &&& column->U8_0.is_prefix_of(after->Ok_0->U8_0)
            &&& forall|j: int|
                0 <= j < rec.layout.extra_len ==> #[trigger] after->Ok_0->U8_0[column->U8_0.len()
                    + j] == rec.buf[first + j]
        },
{
}

} // verus!
