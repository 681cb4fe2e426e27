//! Reading columns: from the chunks of a query to a batch.
//!
//! A read starts with empty columns, takes the records of one chunk after the other, and
//! ends with a batch. The records' coordinates and angles are computed outside and come in
//! with the records.

use vstd::prelude::*;

use crate::bounds::Bounds;
use crate::cancel::CancelCheck;
use crate::columns;
use crate::columns::{
    ColumnData, ColumnModel, ColumnSelection, ColumnSpec, LasColumnBatch, LasDimension, ScalarType,
};
use crate::decode;
use crate::decode::{
    selected_column_builders, ExtendedPointLayout, FieldValue, Record, ScaledPoint,
};
use crate::error::{Error, Fault, Result};
use crate::hierarchy::Entry;
use crate::laszip;
use crate::limits::MAX_INITIAL_COLUMN_RESERVE_POINTS;
use crate::point_format::PointFormat;
use crate::query;
use crate::query::total_candidate_points;
use crate::reader;
use crate::reader::ChunkColumnDecoder;
use crate::seqs;

verus! {

/// The columns of the format that are selected.
pub open spec fn selected_specs(format: PointFormat, selection: Seq<LasDimension>) -> Seq<
    ColumnSpec,
> {
    columns::format_columns(format).filter(is_selected(selection))
}

/// Whether a column's dimension is selected.
pub open spec fn is_selected(selection: Seq<LasDimension>) -> spec_fn(ColumnSpec) -> bool {
    |spec: ColumnSpec| selection.contains(spec.dimension)
}

/// The values of a column for some rows.
pub open spec fn column_over(spec: ColumnSpec, rows: Seq<Record>) -> ColumnModel
    decreases rows.len(),
{
    if rows.len() == 0 {
        decode::empty_model(spec.scalar)
    } else {
        decode::appended(spec, column_over(spec, rows.drop_last()), rows.last())->Ok_0
    }
}

/// The values of all columns for some rows.
pub open spec fn table(specs: Seq<ColumnSpec>, rows: Seq<Record>) -> Seq<
    (ColumnSpec, ColumnModel),
> {
    Seq::new(specs.len(), |i: int| (specs[i], column_over(specs[i], rows)))
}

/// The accepted ones of the first `n` records, each with its scaled values.
pub open spec fn rows_in(
    records: Seq<u8>,
    size: int,
    n: nat,
    layout: ExtendedPointLayout,
    scaled: Seq<ScaledPoint>,
    bounds: Option<Bounds>,
) -> Seq<Record>
    decreases n,
{
    if n == 0 {
        Seq::empty()
    } else {
        let before = rows_in(records, size, (n - 1) as nat, layout, scaled, bounds);
        if decode::accepted(scaled[n - 1], bounds) {
            before.push(decode::record_at(records, size, n - 1, layout, scaled))
        } else {
            before
        }
    }
}

/// A column that the records of a layout fill: it has its dimension's type, and extra bytes
/// have the layout's width.
pub open spec fn fillable(spec: ColumnSpec, extra_len: usize) -> bool {
    if spec.dimension == LasDimension::ExtraBytes {
        spec == columns::extra_spec(extra_len) && extra_len > 0
    } else {
        spec.byte_width is None && columns::scalar_of(spec.dimension) == Some(spec.scalar)
    }
}

/// Rows of a layout.
pub open spec fn rows_of(rows: Seq<Record>, layout: ExtendedPointLayout, size: nat) -> bool {
    forall|i: int|
        0 <= i < rows.len() ==> (#[trigger] rows[i]).layout == layout && rows[i].buf.len() == size
}

/// The number of values that a column has for one row.
pub open spec fn values_each(spec: ColumnSpec) -> nat {
    match spec.width() {
        Some(width) => width as nat,
        None => 1,
    }
}

/// A value has its dimension's type.
proof fn lemma_value_type(dimension: LasDimension, rec: Record, column: ColumnModel)
    requires
        dimension != LasDimension::ExtraBytes,
        columns::scalar_of(dimension) == Some(column.kind()),
    ensures
        ({
            let value = decode::field_of(dimension, rec);
            &&& value is Some
            &&& decode::pushed(column, value->Some_0) is Some
            &&& decode::pushed(column, value->Some_0)->Some_0.kind() == column.kind()
            &&& decode::pushed(column, value->Some_0)->Some_0.count() == column.count() + 1
        }),
{
}

/// A column that can be filled takes every row.
proof fn lemma_fills(
    spec: ColumnSpec,
    column: ColumnModel,
    rec: Record,
    layout: ExtendedPointLayout,
    size: nat,
)
    requires
        fillable(spec, layout.extra_len),
        layout.fits(size),
        rec.layout == layout,
        rec.buf.len() == size,
        column.kind() == spec.scalar,
    ensures
        decode::appended(spec, column, rec) is Ok,
        decode::appended(spec, column, rec)->Ok_0.kind() == spec.scalar,
        decode::appended(spec, column, rec)->Ok_0.count() == column.count() + values_each(spec),
{
    if spec.dimension != LasDimension::ExtraBytes {
        lemma_value_type(spec.dimension, rec, column);
    }
}

/// A column has its values for each row.
proof fn lemma_column_over(
    spec: ColumnSpec,
    rows: Seq<Record>,
    layout: ExtendedPointLayout,
    size: nat,
)
    requires
        fillable(spec, layout.extra_len),
        layout.fits(size),
        rows_of(rows, layout, size),
    ensures
        column_over(spec, rows).kind() == spec.scalar,
        column_over(spec, rows).count() == rows.len() * values_each(spec),
    decreases rows.len(),
{
    if rows.len() > 0 {
        let rest = rows.drop_last();
        assert(rows_of(rest, layout, size));
        lemma_column_over(spec, rest, layout, size);
        assert(rows.last() == rows[rows.len() - 1]);
        lemma_fills(spec, column_over(spec, rest), rows.last(), layout, size);
        assert(rows.len() * values_each(spec) == rest.len() * values_each(spec) + values_each(spec))
            by (nonlinear_arith)
            requires
                rows.len() == rest.len() + 1,
        ;
    }
}

/// One more row for the first `n` columns.
proof fn lemma_row(
    specs: Seq<ColumnSpec>,
    n: nat,
    rows: Seq<Record>,
    rec: Record,
    layout: ExtendedPointLayout,
    size: nat,
)
    requires
        n <= specs.len(),
        forall|i: int| 0 <= i < specs.len() ==> fillable(#[trigger] specs[i], layout.extra_len),
        layout.fits(size),
        rows_of(rows, layout, size),
        rec.layout == layout,
        rec.buf.len() == size,
    ensures
        ({
            let after = decode::row_appended(table(specs, rows), n, rec);
            let longer = table(specs, rows.push(rec));
            &&& after is Ok
            &&& after->Ok_0.len() == specs.len()
            &&& forall|i: int| 0 <= i < n ==> #[trigger] after->Ok_0[i] == longer[i]
            &&& forall|i: int|
                n <= i < specs.len() ==> #[trigger] after->Ok_0[i] == table(specs, rows)[i]
        }),
    decreases n,
{
    if n > 0 {
        lemma_row(specs, (n - 1) as nat, rows, rec, layout, size);
        let spec = specs[n - 1];
        assert(fillable(spec, layout.extra_len));
        lemma_column_over(spec, rows, layout, size);
        lemma_fills(spec, column_over(spec, rows), rec, layout, size);
        assert(rows.push(rec).drop_last() =~= rows);
    }
}

/// The records of a chunk add their rows to every column.
proof fn lemma_chunk_rows(
    specs: Seq<ColumnSpec>,
    rows: Seq<Record>,
    records: Seq<u8>,
    size: nat,
    n: nat,
    layout: ExtendedPointLayout,
    scaled: Seq<ScaledPoint>,
    bounds: Option<Bounds>,
)
    requires
        forall|i: int| 0 <= i < specs.len() ==> fillable(#[trigger] specs[i], layout.extra_len),
        layout.fits(size),
        rows_of(rows, layout, size),
        n <= scaled.len(),
        records.len() == scaled.len() * size,
    ensures
        ({
            let more = rows_in(records, size as int, n, layout, scaled, bounds);
            &&& decode::chunk_appended(
                table(specs, rows),
                records,
                size as int,
                n,
                layout,
                scaled,
                bounds,
            ) == Ok::<Seq<(ColumnSpec, ColumnModel)>, Error>(table(specs, rows + more))
            &&& rows_of(rows + more, layout, size)
            &&& more.len() == decode::accepted_count(scaled, n, bounds)
        }),
    decreases n,
{
    let more = rows_in(records, size as int, n, layout, scaled, bounds);
    if n == 0 {
        assert(rows + more =~= rows);
    } else {
        let k = (n - 1) as nat;
        lemma_chunk_rows(specs, rows, records, size, k, layout, scaled, bounds);
        let before = rows + rows_in(records, size as int, k, layout, scaled, bounds);
        if decode::accepted(scaled[k as int], bounds) {
            let rec = decode::record_at(records, size as int, k as int, layout, scaled);
            assert(k * size + size <= scaled.len() * size) by (nonlinear_arith)
                requires
                    k < scaled.len(),
            ;
            assert(0 <= k * size) by (nonlinear_arith);
            assert(rec.buf.len() == size);
            lemma_row(specs, specs.len(), before, rec, layout, size);
            assert(rows + more =~= before.push(rec));
            assert(decode::row_appended(table(specs, before), specs.len(), rec)->Ok_0 =~= table(
                specs,
                before.push(rec),
            ));
        }
    }
}

/// The place of a dimension among all of them.
spec fn rank(dimension: LasDimension) -> int {
    match dimension {
        LasDimension::X => 0,
        LasDimension::Y => 1,
        LasDimension::Z => 2,
        LasDimension::Intensity => 3,
        LasDimension::ReturnNumber => 4,
        LasDimension::NumberOfReturns => 5,
        LasDimension::Classification => 6,
        LasDimension::ScanDirectionFlag => 7,
        LasDimension::EdgeOfFlightLine => 8,
        LasDimension::ScanAngle => 9,
        LasDimension::UserData => 10,
        LasDimension::PointSourceId => 11,
        LasDimension::Synthetic => 12,
        LasDimension::KeyPoint => 13,
        LasDimension::Withheld => 14,
        LasDimension::Overlap => 15,
        LasDimension::ScanChannel => 16,
        LasDimension::GpsTime => 17,
        LasDimension::Red => 18,
        LasDimension::Green => 19,
        LasDimension::Blue => 20,
        LasDimension::Nir => 21,
        LasDimension::WaveformPacketDescriptorIndex => 22,
        LasDimension::WaveformPacketByteOffset => 23,
        LasDimension::WaveformPacketSize => 24,
        LasDimension::WavePacketReturnPointWaveformLocation => 25,
        LasDimension::ExtraBytes => 26,
    }
}

/// Dimensions that are in order: each occurs once at most.
spec fn in_order(dims: Seq<LasDimension>, limit: int) -> bool {
    &&& forall|i: int, j: int|
        0 <= i < j < dims.len() ==> rank(#[trigger] dims[i]) < rank(#[trigger] dims[j])
    &&& forall|i: int| 0 <= i < dims.len() ==> rank(#[trigger] dims[i]) < limit
}

proof fn lemma_in_order_join(a: Seq<LasDimension>, b: Seq<LasDimension>, low: int, high: int)
    requires
        in_order(a, low),
        in_order(b, high),
        low <= high,
        forall|i: int| 0 <= i < b.len() ==> low <= rank(#[trigger] b[i]),
    ensures
        in_order(a + b, high),
{
    let all = a + b;
    assert forall|i: int, j: int| 0 <= i < j < all.len() implies rank(#[trigger] all[i]) < rank(
        #[trigger] all[j],
    ) by {
        if j < a.len() {
            assert(rank(a[i]) < rank(a[j]));
        } else if i < a.len() {
            assert(rank(a[i]) < low);
            assert(low <= rank(b[j - a.len()]));
        } else {
            assert(rank(b[i - a.len()]) < rank(b[j - a.len()]));
        }
    }
    assert forall|i: int| 0 <= i < all.len() implies rank(#[trigger] all[i]) < high by {
        if i < a.len() {
            assert(rank(a[i]) < low);
        } else {
            assert(rank(b[i - a.len()]) < high);
        }
    }
}

/// The dimensions of a format are in order.
proof fn lemma_dimensions_in_order(format: PointFormat)
    ensures
        in_order(columns::format_dimensions(format), 26),
{
    let core = columns::core_dimensions();
    assert forall|i: int| 0 <= i < core.len() implies rank(#[trigger] core[i]) == i by {}
    assert(in_order(core, 17));
    let none = Seq::<LasDimension>::empty();
    let gps = if format.has_gps_time {
        seq![LasDimension::GpsTime]
    } else {
        none
    };
    lemma_in_order_join(core, gps, 17, 18);
    let color = if format.has_color {
        seq![LasDimension::Red, LasDimension::Green, LasDimension::Blue]
    } else {
        none
    };
    lemma_in_order_join(core + gps, color, 18, 21);
    let nir = if format.has_nir {
        seq![LasDimension::Nir]
    } else {
        none
    };
    lemma_in_order_join(core + gps + color, nir, 21, 22);
    let wave = if format.has_waveform {
        seq![
            LasDimension::WaveformPacketDescriptorIndex,
            LasDimension::WaveformPacketByteOffset,
            LasDimension::WaveformPacketSize,
            LasDimension::WavePacketReturnPointWaveformLocation,
        ]
    } else {
        none
    };
    lemma_in_order_join(core + gps + color + nir, wave, 22, 26);
}

/// No dimension occurs twice.
pub open spec fn distinct_columns(specs: Seq<ColumnSpec>) -> bool {
    forall|i: int, j: int|
        0 <= i < j < specs.len() ==> (#[trigger] specs[i]).dimension != (
        #[trigger] specs[j]).dimension
}

/// The columns of a format can be filled by its records, and none occurs twice.
pub proof fn law_format_columns(format: PointFormat)
    ensures
        distinct_columns(columns::format_columns(format)),
        forall|i: int|
            0 <= i < columns::format_columns(format).len() ==> fillable(
                #[trigger] columns::format_columns(format)[i],
                format.extra_bytes as usize,
            ),
{
    let dims = columns::format_dimensions(format);
    let specs = columns::format_columns(format);
    lemma_dimensions_in_order(format);
    assert forall|i: int| 0 <= i < specs.len() implies fillable(
        #[trigger] specs[i],
        format.extra_bytes as usize,
    ) by {
        if i < dims.len() {
            assert(rank(dims[i]) < 26);
            assert(specs[i].dimension == dims[i]);
        }
    }
    assert forall|i: int, j: int| 0 <= i < j < specs.len() implies (#[trigger] specs[i]).dimension
        != (#[trigger] specs[j]).dimension by {
        assert(specs[i].dimension == dims[i]);
        assert(rank(dims[i]) < 26);
        if j < dims.len() {
            assert(specs[j].dimension == dims[j]);
            assert(rank(dims[i]) < rank(dims[j]));
        }
    }
}

/// The selected columns of the first `n`.
proof fn lemma_selected(specs: Seq<ColumnSpec>, n: nat, selection: Seq<LasDimension>)
    requires
        n <= specs.len(),
        distinct_columns(specs),
    ensures
        decode::selected_empty(specs, n, selection) == table(
            specs.take(n as int).filter(is_selected(selection)),
            Seq::empty(),
        ),
        distinct_columns(specs.take(n as int).filter(is_selected(selection))),
        forall|spec: ColumnSpec| #[trigger]
            specs.take(n as int).filter(is_selected(selection)).contains(spec)
                ==> specs.take(n as int).contains(spec),
    decreases n,
{
    let f = is_selected(selection);
    let part = specs.take(n as int);
    seqs::lemma_filter_contains(part, f);
    if n == 0 {
        assert(part =~= Seq::empty());
        seqs::lemma_filter_empty(f);
        assert(decode::selected_empty(specs, n, selection) =~= table(
            part.filter(f),
            Seq::empty(),
        ));
    } else {
        let k = (n - 1) as nat;
        let before = specs.take(k as int);
        let spec = specs[k as int];
        lemma_selected(specs, k, selection);
        assert(part =~= before.push(spec));
        seqs::lemma_filter_push(before, spec, f);
        let kept = part.filter(f);
        let earlier = before.filter(f);
        if f(spec) {
            assert(kept == earlier.push(spec));
            assert(decode::selected_empty(specs, n, selection) =~= table(kept, Seq::empty()));
            assert forall|i: int, j: int| 0 <= i < j < kept.len() implies (
            #[trigger] kept[i]).dimension != (#[trigger] kept[j]).dimension by {
                assert(kept[i] == earlier[i]);
                if j < earlier.len() {
                    assert(kept[j] == earlier[j]);
                } else {
                    assert(earlier.contains(earlier[i]));
                    assert(before.contains(earlier[i]));
                    let m = choose|m: int| 0 <= m < before.len() && before[m] == earlier[i];
                    assert(specs[m] == earlier[i]);
                    assert(specs[m].dimension != specs[k as int].dimension);
                }
            }
        }
    }
}

/// The selected columns of a format can be filled, and none occurs twice.
proof fn lemma_selected_specs(format: PointFormat, selection: Seq<LasDimension>)
    ensures
        ({
            let all = columns::format_columns(format);
            let specs = selected_specs(format, selection);
            &&& decode::selected_empty(all, all.len(), selection) == table(specs, Seq::empty())
            &&& distinct_columns(specs)
            &&& forall|i: int|
                0 <= i < specs.len() ==> fillable(
                    #[trigger] specs[i],
                    format.extra_bytes as usize,
                )
        }),
{
    let all = columns::format_columns(format);
    let specs = selected_specs(format, selection);
    law_format_columns(format);
    lemma_selected(all, all.len(), selection);
    assert(all.take(all.len() as int) =~= all);
    assert forall|i: int| 0 <= i < specs.len() implies fillable(
        #[trigger] specs[i],
        format.extra_bytes as usize,
    ) by {
        assert(specs.contains(specs[i]));
        assert(all.contains(specs[i]));
        let k = choose|k: int| 0 <= k < all.len() && all[k] == specs[i];
        assert(fillable(all[k], format.extra_bytes as usize));
    }
}

/// Columns with the values of the same rows are a sound batch.
proof fn lemma_sound_batch(
    data: Seq<(ColumnSpec, ColumnData)>,
    n: nat,
    specs: Seq<ColumnSpec>,
    rows: Seq<Record>,
    layout: ExtendedPointLayout,
    size: nat,
    len: usize,
)
    requires
        n <= data.len(),
        decode::column_models(data) == table(specs, rows),
        distinct_columns(specs),
        forall|i: int| 0 <= i < specs.len() ==> fillable(#[trigger] specs[i], layout.extra_len),
        layout.fits(size),
        rows_of(rows, layout, size),
        len == rows.len(),
    ensures
        columns::columns_check(data, n, len) is Ok,
    decreases n,
{
    if n > 0 {
        lemma_sound_batch(data, (n - 1) as nat, specs, rows, layout, size, len);
        let models = decode::column_models(data);
        let (spec, column) = data[n - 1];
        assert(models[n - 1] == (spec, column.model()));
        assert(models.len() == data.len());
        assert(table(specs, rows).len() == specs.len());
        assert(spec == table(specs, rows)[n - 1].0);
        assert(fillable(specs[n - 1], layout.extra_len));
        lemma_column_over(spec, rows, layout, size);
        if columns::has_column(data, n - 1, spec.dimension) {
            let i = choose|i: int|
                0 <= i < n - 1 && (#[trigger] data[i]).0.dimension == spec.dimension;
            assert(models[i] == (data[i].0, data[i].1.model()));
            assert(specs[i].dimension == specs[n - 1].dimension);
        }
        if spec.dimension == LasDimension::ExtraBytes {
            let width = layout.extra_len as int;
            assert(values_each(spec) == width);
            vstd::arithmetic::div_mod::lemma_mod_multiples_basic(rows.len() as int, width);
            vstd::arithmetic::div_mod::lemma_div_by_multiple(rows.len() as int, width);
            assert(column.model().count() == rows.len() as int * width);
        } else {
            assert(values_each(spec) == 1);
            assert(column.model().count() == rows.len());
        }
        assert(spec.points_check(column.model().kind(), column.model().count()) == Ok::<
            usize,
            Error,
        >(len));
    }
}

/// What [`ColumnRead::new`] answers.
pub open spec fn start_check(
    payload: Seq<u8>,
    format: PointFormat,
    selection: Seq<LasDimension>,
    bounds: Option<Bounds>,
    chunks: Seq<Entry>,
) -> Result<()> {
    match decode::layout_of(format) {
        Err(error) => Err(error),
        Ok(_) => match reader::size_check(payload, format) {
            Err(error) => Err(error),
            Ok(_) => match room_for(bounds, chunks) {
                Err(error) => Err(error),
                Ok(room) => if decode::builders_overflow(format, selection, room) {
                    Err(Error::InvalidInput(Fault::ColumnCapacity))
                } else {
                    Ok(())
                },
            },
        },
    }
}

/// For how many points room is made at first: for all of the chunks up to a limit, where
/// none is left out.
pub open spec fn room_for(bounds: Option<Bounds>, chunks: Seq<Entry>) -> Result<usize> {
    match bounds {
        Some(_) => Ok(0),
        None => match query::candidates(chunks, chunks.len()) {
            Err(error) => Err(error),
            Ok(total) => if total < MAX_INITIAL_COLUMN_RESERVE_POINTS {
                Ok(total)
            } else {
                Ok(MAX_INITIAL_COLUMN_RESERVE_POINTS)
            },
        },
    }
}

/// A read of columns that is under way.
pub struct ColumnRead<'a> {
    decoder: ChunkColumnDecoder<'a>,
    columns: Vec<(ColumnSpec, ColumnData)>,
    accepted: usize,
    specs: Ghost<Seq<ColumnSpec>>,
    rows: Ghost<Seq<Record>>,
}

impl<'a> ColumnRead<'a> {
    /// The columns that are read.
    pub closed spec fn specs(&self) -> Seq<ColumnSpec> {
        self.specs@
    }

    /// The rows that were read.
    pub closed spec fn rows(&self) -> Seq<Record> {
        self.rows@
    }

    pub closed spec fn payload(&self) -> Seq<u8> {
        self.decoder.payload()
    }

    pub closed spec fn layout(&self) -> ExtendedPointLayout {
        self.decoder.layout()
    }

    pub closed spec fn bounds(&self) -> Option<Bounds> {
        self.decoder.bounds()
    }

    /// The size of a record.
    pub closed spec fn size(&self) -> usize {
        self.decoder.size()
    }

    /// Every column has the values of all rows, and can take more.
    pub closed spec fn wf(&self) -> bool {
        &&& self.decoder.wf()
        &&& distinct_columns(self.specs@)
        &&& forall|i: int|
            0 <= i < self.specs@.len() ==> fillable(
                #[trigger] self.specs@[i],
                self.decoder.layout().extra_len,
            )
        &&& rows_of(self.rows@, self.decoder.layout(), self.decoder.size() as nat)
        &&& decode::column_models(self.columns@) == table(self.specs@, self.rows@)
        &&& self.accepted == self.rows@.len()
    }

    /// A read of the selected columns from the chunks. Points outside of `bounds` are left
    /// out.
    pub fn new(
        payload: &'a [u8],
        format: &PointFormat,
        selection: &ColumnSelection,
        bounds: Option<Bounds>,
        chunks: &[Entry],
    ) -> (r: Result<ColumnRead<'a>>)
        requires
            format.has_gps_time,
            format.record_len() < 0x1_0000,
        ensures
            match r {
                Ok(read) => {
                    &&& start_check(payload@, *format, selection@, bounds, chunks@) is Ok
                    &&& read.wf()
                    &&& read.payload() == payload@
                    &&& decode::layout_of(*format) == Ok::<ExtendedPointLayout, Error>(
                        read.layout(),
                    )
                    &&& reader::size_check(payload@, *format) == Ok::<usize, Error>(read.size())
                    &&& read.bounds() == bounds
                    &&& read.specs() == selected_specs(*format, selection@)
                    &&& read.rows() == Seq::<Record>::empty()
                },
                Err(error) => start_check(payload@, *format, selection@, bounds, chunks@) == Err::<
                    (),
                    Error,
                >(error),
            },
    {
        let decoder = ChunkColumnDecoder::new(payload, format, bounds)?;
        let room: usize = match bounds {
            Some(_) => 0,
            None => {
                let total: usize = total_candidate_points(chunks)?;
                if total < MAX_INITIAL_COLUMN_RESERVE_POINTS {
                    total
                } else {
                    MAX_INITIAL_COLUMN_RESERVE_POINTS
                }
            },
        };
        let columns = selected_column_builders(*format, selection, room)?;
        proof {
            lemma_selected_specs(*format, selection@);
        }
        Ok(
            ColumnRead {
                decoder,
                columns,
                accepted: 0,
                specs: Ghost(selected_specs(*format, selection@)),
                rows: Ghost(Seq::empty()),
            },
        )
    }

    pub fn record_size(&self) -> (r: usize)
        ensures
            r == self.size(),
    {
        self.decoder.record_size()
    }

    /// How many points were read.
    pub fn accepted(&self) -> (r: usize)
        requires
            self.wf(),
        ensures
            r == self.rows().len(),
    {
        self.accepted
    }

    /// The records of a chunk of `count` points.
    pub fn records(&self, chunk: &[u8], count: usize) -> (r: Result<Vec<u8>>)
        requires
            self.wf(),
        ensures
            laszip::decoded(self.payload(), self.size(), chunk@, count, r),
    {
        self.decoder.records(chunk, count)
    }

    /// Takes the records of a chunk. `scaled` holds their coordinates and scan angles. It
    /// fails only where the hook stops it.
    pub fn take<C: CancelCheck>(
        &mut self,
        records: &[u8],
        scaled: &[ScaledPoint],
        cancel: &C,
    ) -> (r: Result<()>)
        requires
            old(self).wf(),
            records@.len() == scaled@.len() * old(self).size(),
            old(self).rows().len() + scaled@.len() <= usize::MAX,
        ensures
            final(self).payload() == old(self).payload(),
            final(self).layout() == old(self).layout(),
            final(self).bounds() == old(self).bounds(),
            final(self).size() == old(self).size(),
            final(self).specs() == old(self).specs(),
            match r {
                Ok(_) => {
                    &&& final(self).wf()
                    &&& final(self).rows() == old(self).rows() + rows_in(
                        records@,
                        old(self).size() as int,
                        scaled@.len(),
                        old(self).layout(),
                        scaled@,
                        old(self).bounds(),
                    )
                },
                Err(error) => cancel.may_answer(error),
            },
    {
        proof {
            lemma_chunk_rows(
                self.specs@,
                self.rows@,
                records@,
                self.decoder.size() as nat,
                scaled@.len(),
                self.decoder.layout(),
                scaled@,
                self.decoder.bounds(),
            );
            lemma_accepted_bound(scaled@, scaled@.len(), self.decoder.bounds());
        }
        let count: usize = self.decoder.append(records, scaled, &mut self.columns, cancel)?;
        self.accepted = self.accepted + count;
        self.rows = Ghost(
            self.rows@ + rows_in(
                records@,
                self.decoder.size() as int,
                scaled@.len(),
                self.decoder.layout(),
                scaled@,
                self.decoder.bounds(),
            ),
        );
        Ok(())
    }

    /// The batch of what was read. It is sound: all columns have the same number of points,
    /// and no dimension occurs twice.
    pub fn finish(self) -> (r: LasColumnBatch)
        requires
            self.wf(),
        ensures
            r.check() is Ok,
            r.len == self.rows().len(),
            decode::column_models(r.columns@) == table(self.specs(), self.rows()),
    {
        proof {
            lemma_sound_batch(
                self.columns@,
                self.columns@.len(),
                self.specs@,
                self.rows@,
                self.decoder.layout(),
                self.decoder.size() as nat,
                self.accepted,
            );
        }
        LasColumnBatch { len: self.accepted, columns: self.columns }
    }
}

/// The rows of the records at some places, in their order, but for those of points that are
/// not accepted. `data` holds the records of each chunk and their scaled values.
pub open spec fn rows_at(
    places: Seq<(int, int)>,
    data: Seq<(Seq<u8>, Seq<ScaledPoint>)>,
    size: int,
    layout: ExtendedPointLayout,
    bounds: Option<Bounds>,
) -> Seq<Record>
    decreases places.len(),
{
    if places.len() == 0 {
        Seq::empty()
    } else {
        let before = rows_at(places.drop_last(), data, size, layout, bounds);
        let (i, j) = places.last();
        if decode::accepted(data[i].1[j], bounds) {
            before.push(decode::record_at(data[i].0, size, j, layout, data[i].1))
        } else {
            before
        }
    }
}

/// The rows that a read has after it took the records of the first `n` chunks.
pub open spec fn rows_taken(
    data: Seq<(Seq<u8>, Seq<ScaledPoint>)>,
    n: nat,
    size: int,
    layout: ExtendedPointLayout,
    bounds: Option<Bounds>,
) -> Seq<Record>
    decreases n,
{
    if n == 0 {
        Seq::empty()
    } else {
        let (records, scaled) = data[n - 1];
        rows_taken(data, (n - 1) as nat, size, layout, bounds) + rows_in(
            records,
            size,
            scaled.len(),
            layout,
            scaled,
            bounds,
        )
    }
}

proof fn lemma_rows_at_joined(
    a: Seq<(int, int)>,
    b: Seq<(int, int)>,
    data: Seq<(Seq<u8>, Seq<ScaledPoint>)>,
    size: int,
    layout: ExtendedPointLayout,
    bounds: Option<Bounds>,
)
    ensures
        rows_at(a + b, data, size, layout, bounds) == rows_at(a, data, size, layout, bounds)
            + rows_at(b, data, size, layout, bounds),
    decreases b.len(),
{
    let first = rows_at(a, data, size, layout, bounds);
    if b.len() == 0 {
        assert(a + b =~= a);
        assert(first + Seq::<Record>::empty() =~= first);
    } else {
        lemma_rows_at_joined(a, b.drop_last(), data, size, layout, bounds);
        assert((a + b).drop_last() =~= a + b.drop_last());
        assert((a + b).last() == b.last());
        assert(rows_at(a + b, data, size, layout, bounds) =~= first + rows_at(
            b,
            data,
            size,
            layout,
            bounds,
        ));
    }
}

proof fn lemma_chunk_rows_at(
    i: int,
    n: nat,
    data: Seq<(Seq<u8>, Seq<ScaledPoint>)>,
    size: int,
    layout: ExtendedPointLayout,
    bounds: Option<Bounds>,
)
    ensures
        rows_at(reader::chunk_places(i, 0, n), data, size, layout, bounds) == rows_in(
            data[i].0,
            size,
            n,
            layout,
            data[i].1,
            bounds,
        ),
    decreases n,
{
    if n > 0 {
        lemma_chunk_rows_at(i, (n - 1) as nat, data, size, layout, bounds);
        assert(reader::chunk_places(i, 0, n).drop_last() =~= reader::chunk_places(
            i,
            0,
            (n - 1) as nat,
        ));
    }
}

proof fn lemma_rows_before(
    chunks: Seq<Entry>,
    n: nat,
    data: Seq<(Seq<u8>, Seq<ScaledPoint>)>,
    size: int,
    layout: ExtendedPointLayout,
    bounds: Option<Bounds>,
)
    requires
        n <= chunks.len(),
        data.len() == chunks.len(),
        forall|i: int|
            0 <= i < chunks.len() ==> (#[trigger] data[i]).1.len() == crate::index::entry_points(
                chunks[i],
            ),
    ensures
        rows_taken(data, n, size, layout, bounds) + rows_at(
            reader::places_from(chunks, n as int),
            data,
            size,
            layout,
            bounds,
        ) == rows_at(reader::places_from(chunks, 0), data, size, layout, bounds),
    decreases n,
{
    let rest = rows_at(reader::places_from(chunks, n as int), data, size, layout, bounds);
    if n == 0 {
        assert(Seq::<Record>::empty() + rest =~= rest);
    } else {
        let k = n - 1;
        lemma_rows_before(chunks, k as nat, data, size, layout, bounds);
        let count = crate::index::entry_points(chunks[k]);
        assert(data[k].1.len() == count);
        lemma_chunk_rows_at(k, count, data, size, layout, bounds);
        lemma_rows_at_joined(
            reader::chunk_places(k, 0, count),
            reader::places_from(chunks, n as int),
            data,
            size,
            layout,
            bounds,
        );
        let taken = rows_taken(data, k as nat, size, layout, bounds);
        let more = rows_in(data[k].0, size, count, layout, data[k].1, bounds);
        assert(taken + more + rest =~= taken + (more + rest));
    }
}

/// The columns of a query have the rows that a walk over its points meets, in the same order:
/// taking the records of the chunks one after the other gives the accepted records at the
/// places that a [`reader::PointCursor`] on the same chunks goes through.
pub proof fn law_columns_are_rows(
    chunks: Seq<Entry>,
    data: Seq<(Seq<u8>, Seq<ScaledPoint>)>,
    size: int,
    layout: ExtendedPointLayout,
    bounds: Option<Bounds>,
)
    requires
        data.len() == chunks.len(),
        forall|i: int|
            0 <= i < chunks.len() ==> (#[trigger] data[i]).1.len() == crate::index::entry_points(
                chunks[i],
            ),
    ensures
        rows_taken(data, data.len(), size, layout, bounds) == rows_at(
            reader::places_from(chunks, 0),
            data,
            size,
            layout,
            bounds,
        ),
{
    lemma_rows_before(chunks, chunks.len(), data, size, layout, bounds);
    let taken = rows_taken(data, data.len(), size, layout, bounds);
    assert(taken + Seq::<Record>::empty() =~= taken);
}

/// The value of a column at an index.
pub open spec fn value_at(column: ColumnModel, i: int) -> Option<FieldValue> {
    match column {
        ColumnModel::F64(values) => Some(FieldValue::F64(values[i])),
        ColumnModel::F32(values) => Some(FieldValue::F32(values[i])),
        ColumnModel::U64(values) => Some(FieldValue::U64(values[i])),
        ColumnModel::U32(values) => Some(FieldValue::U32(values[i])),
        ColumnModel::U16(values) => Some(FieldValue::U16(values[i])),
        ColumnModel::U8(values) => Some(FieldValue::U8(values[i])),
        ColumnModel::Bool(values) => Some(FieldValue::Bool(values[i])),
        _ => None,
    }
}

/// The value of a column for a row is the row's field of the column's dimension; of extra
/// bytes it is all of the row's.
pub proof fn law_column_values(
    spec: ColumnSpec,
    rows: Seq<Record>,
    layout: ExtendedPointLayout,
    size: nat,
    i: int,
)
    requires
        fillable(spec, layout.extra_len),
        layout.fits(size),
        rows_of(rows, layout, size),
        0 <= i < rows.len(),
    ensures
        ({
            let column = column_over(spec, rows);
            let width = layout.extra_len as int;
            let start = layout.extra_offset as int;
            if spec.dimension == LasDimension::ExtraBytes {
                column matches ColumnModel::U8(values) && values.subrange(
                    i * width,
                    i * width + width,
                ) == rows[i].buf.subrange(start, start + width)
            } else {
                value_at(column, i) == decode::field_of(spec.dimension, rows[i])
            }
        }),
    decreases rows.len(),
{
    let rest = rows.drop_last();
    let n = rest.len() as int;
    assert(rows_of(rest, layout, size));
    lemma_column_over(spec, rest, layout, size);
    lemma_column_over(spec, rows, layout, size);
    let before = column_over(spec, rest);
    assert(rows.last() == rows[n]);
    lemma_fills(spec, before, rows.last(), layout, size);
    if spec.dimension == LasDimension::ExtraBytes {
        let width = layout.extra_len as int;
        let values = before->U8_0;
        assert(values.len() == n * width);
        if i < n {
            law_column_values(spec, rest, layout, size, i);
            assert(i * width + width <= n * width) by (nonlinear_arith)
                requires
                    i + 1 <= n,
                    width >= 0,
            ;
            assert(0 <= i * width) by (nonlinear_arith)
                requires
                    0 <= i,
                    width >= 0,
            ;
            assert(rest[i] == rows[i]);
        }
        let after = column_over(spec, rows)->U8_0;
        let start = layout.extra_offset as int;
        assert(after == values + rows[n].buf.subrange(start, start + width));
        assert(after.subrange(i * width, i * width + width) =~= (if i < n {
            values.subrange(i * width, i * width + width)
        } else {
            rows[n].buf.subrange(start, start + width)
        }));
    } else {
        lemma_value_type(spec.dimension, rows.last(), before);
        assert(before.count() == n);
        if i < n {
            law_column_values(spec, rest, layout, size, i);
            assert(rest[i] == rows[i]);
        }
    }
}

proof fn lemma_accepted_bound(scaled: Seq<ScaledPoint>, n: nat, bounds: Option<Bounds>)
    ensures
        decode::accepted_count(scaled, n, bounds) <= n,
    decreases n,
{
    if n > 0 {
        lemma_accepted_bound(scaled, (n - 1) as nat, bounds);
    }
}

/// A row behind two joined columns is a row behind the second.
proof fn lemma_joined_fills(
    spec: ColumnSpec,
    x: ColumnModel,
    y: ColumnModel,
    rec: Record,
    layout: ExtendedPointLayout,
    size: nat,
)
    requires
        fillable(spec, layout.extra_len),
        layout.fits(size),
        rec.layout == layout,
        rec.buf.len() == size,
        x.kind() == spec.scalar,
        y.kind() == spec.scalar,
    ensures
        decode::joined(x, y) is Some,
        decode::joined(x, decode::appended(spec, y, rec)->Ok_0) == Some(
            decode::appended(spec, decode::joined(x, y)->Some_0, rec)->Ok_0,
        ),
{
    let both = decode::joined(x, y)->Some_0;
    lemma_fills(spec, y, rec, layout, size);
    lemma_fills(spec, both, rec, layout, size);
    let longer = decode::appended(spec, y, rec)->Ok_0;
    let all = decode::appended(spec, both, rec)->Ok_0;
    match (x, longer, all) {
        (ColumnModel::F64(a), ColumnModel::F64(b), ColumnModel::F64(d)) => {
            assert(d =~= a + b);
        },
        (ColumnModel::F32(a), ColumnModel::F32(b), ColumnModel::F32(d)) => {
            assert(d =~= a + b);
        },
        (ColumnModel::U64(a), ColumnModel::U64(b), ColumnModel::U64(d)) => {
            assert(d =~= a + b);
        },
        (ColumnModel::U32(a), ColumnModel::U32(b), ColumnModel::U32(d)) => {
            assert(d =~= a + b);
        },
        (ColumnModel::U16(a), ColumnModel::U16(b), ColumnModel::U16(d)) => {
            assert(d =~= a + b);
        },
        (ColumnModel::U8(a), ColumnModel::U8(b), ColumnModel::U8(d)) => {
            assert(d =~= a + b);
        },
        (ColumnModel::Bool(a), ColumnModel::Bool(b), ColumnModel::Bool(d)) => {
            assert(d =~= a + b);
        },
        _ => {},
    }
}

/// The values for rows behind other rows.
proof fn lemma_column_joined(
    spec: ColumnSpec,
    a: Seq<Record>,
    b: Seq<Record>,
    layout: ExtendedPointLayout,
    size: nat,
)
    requires
        fillable(spec, layout.extra_len),
        layout.fits(size),
        rows_of(a, layout, size),
        rows_of(b, layout, size),
    ensures
        decode::joined(column_over(spec, a), column_over(spec, b)) == Some(
            column_over(spec, a + b),
        ),
    decreases b.len(),
{
    lemma_column_over(spec, a, layout, size);
    if b.len() == 0 {
        assert(a + b =~= a);
        match (column_over(spec, a), decode::empty_model(spec.scalar)) {
            (ColumnModel::F64(x), ColumnModel::F64(y)) => {
                assert(x + y =~= x);
            },
            (ColumnModel::F32(x), ColumnModel::F32(y)) => {
                assert(x + y =~= x);
            },
            (ColumnModel::U64(x), ColumnModel::U64(y)) => {
                assert(x + y =~= x);
            },
            (ColumnModel::U32(x), ColumnModel::U32(y)) => {
                assert(x + y =~= x);
            },
            (ColumnModel::U16(x), ColumnModel::U16(y)) => {
                assert(x + y =~= x);
            },
            (ColumnModel::U8(x), ColumnModel::U8(y)) => {
                assert(x + y =~= x);
            },
            (ColumnModel::Bool(x), ColumnModel::Bool(y)) => {
                assert(x + y =~= x);
            },
            _ => {},
        }
    } else {
        let rest = b.drop_last();
        assert(rows_of(rest, layout, size));
        lemma_column_joined(spec, a, rest, layout, size);
        lemma_column_over(spec, rest, layout, size);
        assert(b.last() == b[b.len() - 1]);
        lemma_joined_fills(
            spec,
            column_over(spec, a),
            column_over(spec, rest),
            b.last(),
            layout,
            size,
        );
        assert((a + b).drop_last() =~= a + rest);
        assert((a + b).last() == b.last());
    }
}

/// Columns of chunks that are read apart and joined are those of the chunks read one after the
/// other.
pub proof fn law_joined_columns(
    specs: Seq<ColumnSpec>,
    n: nat,
    a: Seq<Record>,
    b: Seq<Record>,
    layout: ExtendedPointLayout,
    size: nat,
)
    requires
        n <= specs.len(),
        forall|i: int| 0 <= i < specs.len() ==> fillable(#[trigger] specs[i], layout.extra_len),
        layout.fits(size),
        rows_of(a, layout, size),
        rows_of(b, layout, size),
    ensures
        ({
            let both = decode::columns_joined(table(specs, a), table(specs, b), n);
            &&& both is Ok
            &&& both->Ok_0.len() == specs.len()
            &&& forall|i: int| 0 <= i < n ==> #[trigger] both->Ok_0[i] == table(specs, a + b)[i]
            &&& forall|i: int|
                n <= i < specs.len() ==> #[trigger] both->Ok_0[i] == table(specs, a)[i]
            &&& n == specs.len() ==> both->Ok_0 == table(specs, a + b)
        }),
    decreases n,
{
    if n > 0 {
        law_joined_columns(specs, (n - 1) as nat, a, b, layout, size);
        assert(fillable(specs[n - 1], layout.extra_len));
        lemma_column_joined(specs[n - 1], a, b, layout, size);
    }
    let both = decode::columns_joined(table(specs, a), table(specs, b), n);
    if n == specs.len() {
        assert(both->Ok_0 =~= table(specs, a + b));
    }
}

/// Every field of a record has the type that its dimension has by default.
pub proof fn law_fields_have_their_type(dimension: LasDimension, rec: Record)
    ensures
        match decode::field_of(dimension, rec) {
            Some(FieldValue::F64(_)) => columns::scalar_of(dimension) == Some(ScalarType::F64),
            Some(FieldValue::F32(_)) => columns::scalar_of(dimension) == Some(ScalarType::F32),
            Some(FieldValue::U64(_)) => columns::scalar_of(dimension) == Some(ScalarType::U64),
            Some(FieldValue::U32(_)) => columns::scalar_of(dimension) == Some(ScalarType::U32),
            Some(FieldValue::U16(_)) => columns::scalar_of(dimension) == Some(ScalarType::U16),
            Some(FieldValue::U8(_)) => columns::scalar_of(dimension) == Some(ScalarType::U8),
            Some(FieldValue::Bool(_)) => columns::scalar_of(dimension) == Some(ScalarType::Bool),
            None => dimension == LasDimension::ExtraBytes,
        },
{
}

/// `at` leads, further on each time, to the records that the rows are, and to just those of the
/// first `n` whose point the box holds.
pub open spec fn rows_stand(
    rows: Seq<Record>,
    records: Seq<u8>,
    size: int,
    n: int,
    scaled: Seq<ScaledPoint>,
    bounds: Option<Bounds>,
    at: Seq<int>,
) -> bool {
    &&& at.len() == rows.len()
    &&& forall|k: int|
        0 <= k < at.len() ==> {
            &&& 0 <= #[trigger] at[k] < n
            &&& rows[k].buf == records.subrange(at[k] * size, at[k] * size + size)
            &&& rows[k].scaled == scaled[at[k]]
        }
    &&& forall|j: int, k: int| 0 <= j < k < at.len() ==> #[trigger] at[j] < #[trigger] at[k]
    &&& forall|i: int|
        0 <= i < n ==> (#[trigger] at.contains(i) <==> match bounds {
            Some(b) => b.holds(scaled[i].x, scaled[i].y, scaled[i].z),
            None => true,
        })
}

/// The rows of a chunk are its records whose points lie in the box, each once and in order;
/// without a box, all of them.
pub proof fn law_rows_of_a_chunk(
    records: Seq<u8>,
    size: int,
    n: nat,
    layout: ExtendedPointLayout,
    scaled: Seq<ScaledPoint>,
    bounds: Option<Bounds>,
)
    ensures
        exists|at: Seq<int>| #[trigger]
            rows_stand(
                rows_in(records, size, n, layout, scaled, bounds),
                records,
                size,
                n as int,
                scaled,
                bounds,
                at,
            ),
    decreases n,
{
    let rows = rows_in(records, size, n, layout, scaled, bounds);
    if n == 0 {
        assert(rows_stand(rows, records, size, 0, scaled, bounds, Seq::empty()));
    } else {
        law_rows_of_a_chunk(records, size, (n - 1) as nat, layout, scaled, bounds);
        let before = rows_in(records, size, (n - 1) as nat, layout, scaled, bounds);
        let at = choose|at: Seq<int>| #[trigger]
            rows_stand(before, records, size, n - 1, scaled, bounds, at);
        if decode::accepted(scaled[n - 1], bounds) {
            let more = at.push(n - 1);
            assert forall|i: int| 0 <= i < n implies (#[trigger] more.contains(i)
                <==> match bounds {
                Some(b) => b.holds(scaled[i].x, scaled[i].y, scaled[i].z),
                None => true,
            }) by {
                if i < n - 1 {
                    if at.contains(i) {
                        let k = choose|k: int| 0 <= k < at.len() && at[k] == i;
                        assert(more[k] == i);
                    }
                    if more.contains(i) {
                        let k = choose|k: int| 0 <= k < more.len() && more[k] == i;
                        assert(at[k] == i);
                    }
                } else {
                    assert(more[at.len() as int] == i);
                }
            }
            assert(rows_stand(rows, records, size, n as int, scaled, bounds, more));
        } else {
            assert forall|i: int| 0 <= i < n implies (#[trigger] at.contains(i) <==> match bounds {
                Some(b) => b.holds(scaled[i].x, scaled[i].y, scaled[i].z),
                None => true,
            }) by {
                if i == n - 1 && at.contains(i) {
                    let k = choose|k: int| 0 <= k < at.len() && at[k] == i;
                    assert(at[k] < n - 1);
                }
            }
            assert(rows_stand(rows, records, size, n as int, scaled, bounds, at));
        }
    }
}

/// A column is read just where the format has it and its dimension is selected.
pub proof fn law_columns_that_are_read(
    format: PointFormat,
    selection: Seq<LasDimension>,
    spec: ColumnSpec,
)
    ensures
        selected_specs(format, selection).contains(spec) <==> columns::format_columns(
            format,
        ).contains(spec) && selection.contains(spec.dimension),
{
    crate::seqs::lemma_filter_contains(
        columns::format_columns(format),
        is_selected(selection),
    );
}

/// Room is made for no more points than the chunks have, nor than the limit, and for none where
/// a box can leave some out.
pub proof fn law_room(bounds: Option<Bounds>, chunks: Seq<Entry>)
    requires
        room_for(bounds, chunks) is Ok,
    ensures
        room_for(bounds, chunks)->Ok_0 <= MAX_INITIAL_COLUMN_RESERVE_POINTS,
        bounds is Some ==> room_for(bounds, chunks)->Ok_0 == 0,
        bounds is None ==> query::candidates(chunks, chunks.len()) is Ok,
        bounds is None ==> {
            let total = query::candidates(chunks, chunks.len())->Ok_0;
            &&& room_for(bounds, chunks)->Ok_0 <= total
            &&& total <= MAX_INITIAL_COLUMN_RESERVE_POINTS ==> room_for(bounds, chunks)->Ok_0
                == total
        },
{
}

/// Taking in the records of a chunk makes of the columns of some rows those of these rows and of
/// the chunk's, and counts the latter.
pub proof fn law_appended_chunk(
    specs: Seq<ColumnSpec>,
    rows: Seq<Record>,
    records: Seq<u8>,
    size: nat,
    layout: ExtendedPointLayout,
    scaled: Seq<ScaledPoint>,
    bounds: Option<Bounds>,
)
    requires
        forall|i: int| 0 <= i < specs.len() ==> fillable(#[trigger] specs[i], layout.extra_len),
        layout.fits(size),
        rows_of(rows, layout, size),
        records.len() == scaled.len() * size,
    ensures
        ({
            let n = scaled.len();
            let more = rows_in(records, size as int, n, layout, scaled, bounds);
            &&& decode::chunk_appended(
                table(specs, rows),
                records,
                size as int,
                n,
                layout,
                scaled,
                bounds,
            ) == Ok::<Seq<(ColumnSpec, ColumnModel)>, Error>(table(specs, rows + more))
            &&& decode::accepted_count(scaled, n, bounds) == more.len()
        }),
{
    lemma_chunk_rows(specs, rows, records, size, scaled.len(), layout, scaled, bounds);
}

/// Taking in a record adds its row to every column.
pub proof fn law_appended_row(
    specs: Seq<ColumnSpec>,
    rows: Seq<Record>,
    rec: Record,
    layout: ExtendedPointLayout,
    size: nat,
)
    requires
        forall|i: int| 0 <= i < specs.len() ==> fillable(#[trigger] specs[i], layout.extra_len),
        layout.fits(size),
        rows_of(rows, layout, size),
        rec.layout == layout,
        rec.buf.len() == size,
    ensures
        decode::row_appended(table(specs, rows), specs.len(), rec) == Ok::<
            Seq<(ColumnSpec, ColumnModel)>,
            Error,
        >(table(specs, rows.push(rec))),
{
    lemma_row(specs, specs.len(), rows, rec, layout, size);
    assert(decode::row_appended(table(specs, rows), specs.len(), rec)->Ok_0 =~= table(
        specs,
        rows.push(rec),
    ));
}

/// A read starts with the selected columns of the format, and no values in them.
pub proof fn law_columns_at_the_start(format: PointFormat, selection: Seq<LasDimension>, i: int)
    ensures
        ({
            let specs = columns::format_columns(format);
            let start = decode::selected_empty(specs, specs.len(), selection);
            &&& start == table(selected_specs(format, selection), Seq::empty())
            &&& 0 <= i < start.len() ==> start[i].1.count() == 0 && start[i].1.kind()
                == start[i].0.scalar
        }),
{
    let specs = columns::format_columns(format);
    law_format_columns(format);
    lemma_selected(specs, specs.len(), selection);
    assert(specs.take(specs.len() as int) =~= specs);
}

/// A read starts just where the format is one of the extended ones, the records have its length,
/// and there is room for the columns.
pub proof fn law_start(
    payload: Seq<u8>,
    format: PointFormat,
    selection: Seq<LasDimension>,
    bounds: Option<Bounds>,
    chunks: Seq<Entry>,
)
    ensures
        start_check(payload, format, selection, bounds, chunks) is Ok <==> {
            &&& format.is_extended
            &&& reader::size_check(payload, format) is Ok
            &&& room_for(bounds, chunks) is Ok
            &&& format.extra_bytes == 0 || !selection.contains(LasDimension::ExtraBytes)
                || room_for(bounds, chunks)->Ok_0 * format.extra_bytes <= usize::MAX
        },
{
}

} // verus!
