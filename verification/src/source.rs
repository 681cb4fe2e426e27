//! Where the writer gets its points from.

use vstd::prelude::*;

use crate::bounds::Bounds;
use crate::bytes;
use crate::checks;
use crate::columns;
use crate::columns::{ColumnData, ColumnModel, ColumnSpec, LasColumnBatch, LasDimension, ScalarType};
use crate::error::{Error, Fault, Result};
use crate::float::{F32, F64};
use crate::las_out;
use crate::las_out::{RecordModel, Vlr};
use crate::streaming::{LasPointRecord, PointModel};

verus! {

/// The fields of a point that the writer writes.
#[derive(Clone, Debug, PartialEq)]
pub struct CopcPointFields {
    pub x: F64,
    pub y: F64,
    pub z: F64,
    pub intensity: u16,
    pub return_number: u8,
    pub number_of_returns: u8,
    pub synthetic: u8,
    pub key_point: u8,
    pub withheld: u8,
    pub overlap: u8,
    pub scan_channel: u8,
    pub scan_direction_flag: u8,
    pub edge_of_flight_line: u8,
    pub classification: u8,
    pub user_data: u8,
    /// In degrees.
    pub scan_angle: F32,
    pub point_source_id: u16,
    pub gps_time: F64,
    pub red: u16,
    pub green: u16,
    pub blue: u16,
    pub extra_bytes: Vec<u8>,
}

/// What [`CopcPointFields`] hold.
#[verifier::ext_equal]
pub struct FieldsModel {
    pub x: F64,
    pub y: F64,
    pub z: F64,
    pub intensity: u16,
    pub return_number: u8,
    pub number_of_returns: u8,
    pub synthetic: u8,
    pub key_point: u8,
    pub withheld: u8,
    pub overlap: u8,
    pub scan_channel: u8,
    pub scan_direction_flag: u8,
    pub edge_of_flight_line: u8,
    pub classification: u8,
    pub user_data: u8,
    pub scan_angle: F32,
    pub point_source_id: u16,
    pub gps_time: F64,
    pub red: u16,
    pub green: u16,
    pub blue: u16,
    pub extra_bytes: Seq<u8>,
}

impl View for CopcPointFields {
    type V = FieldsModel;

    open spec fn view(&self) -> FieldsModel {
        FieldsModel {
            x: self.x,
            y: self.y,
            z: self.z,
            intensity: self.intensity,
            return_number: self.return_number,
            number_of_returns: self.number_of_returns,
            synthetic: self.synthetic,
            key_point: self.key_point,
            withheld: self.withheld,
            overlap: self.overlap,
            scan_channel: self.scan_channel,
            scan_direction_flag: self.scan_direction_flag,
            edge_of_flight_line: self.edge_of_flight_line,
            classification: self.classification,
            user_data: self.user_data,
            scan_angle: self.scan_angle,
            point_source_id: self.point_source_id,
            gps_time: self.gps_time,
            red: self.red,
            green: self.green,
            blue: self.blue,
            extra_bytes: self.extra_bytes@,
        }
    }
}

impl Default for CopcPointFields {
    fn default() -> (r: CopcPointFields)
        ensures
            r@ == (FieldsModel {
                x: F64 { bits: 0 },
                y: F64 { bits: 0 },
                z: F64 { bits: 0 },
                intensity: 0,
                return_number: 0,
                number_of_returns: 0,
                synthetic: 0,
                key_point: 0,
                withheld: 0,
                overlap: 0,
                scan_channel: 0,
                scan_direction_flag: 0,
                edge_of_flight_line: 0,
                classification: 0,
                user_data: 0,
                scan_angle: F32 { bits: 0 },
                point_source_id: 0,
                gps_time: F64 { bits: 0 },
                red: 0,
                green: 0,
                blue: 0,
                extra_bytes: Seq::empty(),
            }),
    {
        CopcPointFields {
            x: F64 { bits: 0 },
            y: F64 { bits: 0 },
            z: F64 { bits: 0 },
            intensity: 0,
            return_number: 0,
            number_of_returns: 0,
            synthetic: 0,
            key_point: 0,
            withheld: 0,
            overlap: 0,
            scan_channel: 0,
            scan_direction_flag: 0,
            edge_of_flight_line: 0,
            classification: 0,
            user_data: 0,
            scan_angle: F32 { bits: 0 },
            point_source_id: 0,
            gps_time: F64 { bits: 0 },
            red: 0,
            green: 0,
            blue: 0,
            extra_bytes: Vec::new(),
        }
    }
}

/// Points for the writer. Unless a type says otherwise, it may fail in any way.
pub trait CopcPointSource {
    /// How many points there are.
    open spec fn points(&self) -> nat {
        arbitrary()
    }

    /// The coordinates of a point.
    open spec fn xyz_of(&self, index: int) -> (F64, F64, F64) {
        arbitrary()
    }

    /// The fields of a point.
    open spec fn fields_of(&self, index: int) -> FieldsModel {
        arbitrary()
    }

    /// The number of extra bytes of each point.
    open spec fn extra_bytes_of(&self) -> u16 {
        arbitrary()
    }

    /// The records that describe the extra bytes.
    open spec fn descriptors_of(&self) -> Seq<RecordModel> {
        arbitrary()
    }

    /// Whether the source may fail with this error.
    open spec fn may_fail(&self, error: Error) -> bool {
        true
    }

    fn len(&self) -> (r: usize)
        ensures
            r == self.points(),
    ;

    /// The coordinates by which a point goes into the octree.
    fn xyz(&self, index: usize) -> (r: Result<(F64, F64, F64)>)
        ensures
            match r {
                Ok(xyz) => index < self.points() && xyz == self.xyz_of(index as int),
                Err(error) => self.may_fail(error),
            },
    ;

    /// Puts the fields of a point into `out`.
    fn fields_into(&self, index: usize, out: &mut CopcPointFields) -> (r: Result<()>)
        ensures
            match r {
                Ok(_) => index < self.points() && final(out)@ == self.fields_of(index as int),
                Err(error) => self.may_fail(error),
            },
    ;

    fn extra_byte_count(&self) -> (r: u16)
        ensures
            r == self.extra_bytes_of(),
    ;

    fn extra_bytes_vlrs(&self) -> (r: &[Vlr])
        ensures
            las_out::record_models(r@) == self.descriptors_of(),
    ;

    fn is_empty(&self) -> (r: bool)
        ensures
            r == (self.points() == 0),
    {
        self.len() == 0
    }
}

/// A flag as a number.
pub open spec fn flag(value: bool) -> u8 {
    if value {
        1
    } else {
        0
    }
}

fn flag_number(value: bool) -> (r: u8)
    ensures
        r == flag(value),
{
    if value {
        1
    } else {
        0
    }
}

/// The fields of a record.
pub open spec fn record_fields(record: PointModel) -> FieldsModel {
    FieldsModel {
        x: record.x,
        y: record.y,
        z: record.z,
        intensity: record.intensity,
        return_number: record.return_number,
        number_of_returns: record.number_of_returns,
        synthetic: flag(record.synthetic),
        key_point: flag(record.key_point),
        withheld: flag(record.withheld),
        overlap: flag(record.overlap),
        scan_channel: record.scan_channel,
        scan_direction_flag: flag(record.scan_direction_flag),
        edge_of_flight_line: flag(record.edge_of_flight_line),
        classification: record.classification,
        user_data: record.user_data,
        scan_angle: record.scan_angle,
        point_source_id: record.point_source_id,
        gps_time: record.gps_time,
        red: record.red,
        green: record.green,
        blue: record.blue,
        extra_bytes: record.extra_bytes,
    }
}

/// Puts the fields of a record into `out`.
pub fn record_fields_into(record: &LasPointRecord, out: &mut CopcPointFields)
    ensures
        final(out)@ == record_fields(record@),
        final(out).x == record.x,
        final(out).y == record.y,
        final(out).z == record.z,
        final(out).intensity == record.intensity,
        final(out).return_number == record.return_number,
        final(out).number_of_returns == record.number_of_returns,
        final(out).scan_channel == record.scan_channel,
        final(out).classification == record.classification,
        final(out).user_data == record.user_data,
        final(out).scan_angle == record.scan_angle,
        final(out).point_source_id == record.point_source_id,
        final(out).gps_time == record.gps_time,
        final(out).red == record.red,
        final(out).green == record.green,
        final(out).blue == record.blue,
        final(out).synthetic <= 1 && (final(out).synthetic == 1 <==> record.synthetic),
        final(out).key_point <= 1 && (final(out).key_point == 1 <==> record.key_point),
        final(out).withheld <= 1 && (final(out).withheld == 1 <==> record.withheld),
        final(out).overlap <= 1 && (final(out).overlap == 1 <==> record.overlap),
        final(out).scan_direction_flag <= 1 && (final(out).scan_direction_flag == 1 <==> record.scan_direction_flag),
        final(out).edge_of_flight_line <= 1 && (final(out).edge_of_flight_line == 1 <==> record.edge_of_flight_line),
        final(out).extra_bytes@ == record.extra_bytes@,
{
    out.x = record.x;
    out.y = record.y;
    out.z = record.z;
    out.intensity = record.intensity;
    out.return_number = record.return_number;
    out.number_of_returns = record.number_of_returns;
    out.synthetic = flag_number(record.synthetic);
    out.key_point = flag_number(record.key_point);
    out.withheld = flag_number(record.withheld);
    out.overlap = flag_number(record.overlap);
    out.scan_channel = record.scan_channel;
    out.scan_direction_flag = flag_number(record.scan_direction_flag);
    out.edge_of_flight_line = flag_number(record.edge_of_flight_line);
    out.classification = record.classification;
    out.user_data = record.user_data;
    out.scan_angle = record.scan_angle;
    out.point_source_id = record.point_source_id;
    out.gps_time = record.gps_time;
    out.red = record.red;
    out.green = record.green;
    out.blue = record.blue;
    out.extra_bytes = bytes::copy_range(
        record.extra_bytes.as_slice(),
        0,
        record.extra_bytes.len(),
    );
}

/// The first of the columns from `i` on that has the dimension.
pub open spec fn find(columns: Seq<(ColumnSpec, ColumnData)>, dimension: LasDimension, i: int) -> Option<
    int,
>
    decreases columns.len() - i,
{
    if i >= columns.len() {
        None
    } else if columns[i].0.dimension == dimension {
        Some(i)
    } else {
        find(columns, dimension, i + 1)
    }
}

/// The values of a dimension.
pub open spec fn values(columns: Seq<(ColumnSpec, ColumnData)>, dimension: LasDimension) -> Option<
    ColumnModel,
> {
    match find(columns, dimension, 0) {
        Some(i) => Some(columns[i].1.model()),
        None => None,
    }
}

proof fn lemma_find(
    columns: Seq<(ColumnSpec, ColumnData)>,
    dimension: LasDimension,
    from: int,
    i: int,
)
    requires
        0 <= from <= i < columns.len(),
        columns[i].0.dimension == dimension,
        !columns::has_column(columns, i, dimension),
    ensures
        find(columns, dimension, from) == Some(i),
    decreases i - from,
{
    if from < i {
        assert(columns[from].0.dimension != dimension);
        lemma_find(columns, dimension, from + 1, i);
    }
}

proof fn lemma_find_none(
    columns: Seq<(ColumnSpec, ColumnData)>,
    dimension: LasDimension,
    from: int,
)
    requires
        0 <= from <= columns.len(),
        !columns::has_column(columns, columns.len() as int, dimension),
    ensures
        find(columns, dimension, from) is None,
    decreases columns.len() - from,
{
    if from < columns.len() {
        assert(columns[from].0.dimension != dimension);
        lemma_find_none(columns, dimension, from + 1);
    }
}

/// What was found has the dimension.
proof fn lemma_found(columns: Seq<(ColumnSpec, ColumnData)>, dimension: LasDimension, from: int)
    requires
        0 <= from,
    ensures
        find(columns, dimension, from) matches Some(i) ==> from <= i < columns.len()
            && columns[i].0.dimension == dimension,
    decreases columns.len() - from,
{
    if from < columns.len() && columns[from].0.dimension != dimension {
        lemma_found(columns, dimension, from + 1);
    }
}

/// The values of a dimension, with the place of their column.
fn column_of<'a>(batch: &'a LasColumnBatch, dimension: LasDimension) -> (r: Option<&'a ColumnData>)
    ensures
        match r {
            Some(data) => values(batch.columns@, dimension) == Some(data.model()),
            None => values(batch.columns@, dimension) is None,
        },
{
    let found = batch.column(dimension);
    proof {
        match found {
            Some(data) => {
                let i = choose|i: int|
                    {
                        &&& 0 <= i < batch.columns@.len()
                        &&& (#[trigger] batch.columns@[i]).0.dimension == dimension
                        &&& batch.columns@[i].1 == *data
                        &&& !columns::has_column(batch.columns@, i, dimension)
                    };
                lemma_find(batch.columns@, dimension, 0, i);
            },
            None => {
                lemma_find_none(batch.columns@, dimension, 0);
            },
        }
    }
    found
}

/// Whether the values of a dimension, if there are any, have the type.
pub open spec fn typed(
    columns: Seq<(ColumnSpec, ColumnData)>,
    dimension: LasDimension,
    expected: ScalarType,
) -> Result<()> {
    match values(columns, dimension) {
        Some(model) => if model.kind() == expected {
            Ok(())
        } else {
            Err(
                Error::InvalidInput(
                    Fault::UnexpectedColumnType { dimension, expected, found: model.kind() },
                ),
            )
        },
        None => Ok(()),
    }
}

/// Whether there are coordinates of a dimension.
pub open spec fn required(columns: Seq<(ColumnSpec, ColumnData)>, dimension: LasDimension) -> Result<
    (),
> {
    if values(columns, dimension) is None {
        Err(Error::InvalidInput(Fault::MissingColumn { dimension }))
    } else {
        typed(columns, dimension, ScalarType::F64)
    }
}

fn optional_f64_column<'a>(batch: &'a LasColumnBatch, dimension: LasDimension) -> (r: Result<
    Option<&'a [F64]>,
>)
    ensures
        match r {
            Ok(Some(found)) => values(batch.columns@, dimension) == Some(
                ColumnModel::F64(found@),
            ) && found@.len() <= usize::MAX,
            Ok(None) => values(batch.columns@, dimension) is None,
            Err(error) => typed(batch.columns@, dimension, ScalarType::F64) == Err::<(), Error>(
                error,
            ),
        },
{
    match column_of(batch, dimension) {
        Some(ColumnData::F64(found)) => {
            let _len: usize = found.len();
            Ok(Some(found.as_slice()))
        },
        Some(other) => Err(
            Error::InvalidInput(
                Fault::UnexpectedColumnType {
                    dimension,
                    expected: ScalarType::F64,
                    found: other.scalar(),
                },
            ),
        ),
        None => Ok(None),
    }
}

fn optional_f32_column<'a>(batch: &'a LasColumnBatch, dimension: LasDimension) -> (r: Result<
    Option<&'a [F32]>,
>)
    ensures
        match r {
            Ok(Some(found)) => values(batch.columns@, dimension) == Some(
                ColumnModel::F32(found@),
            ) && found@.len() <= usize::MAX,
            Ok(None) => values(batch.columns@, dimension) is None,
            Err(error) => typed(batch.columns@, dimension, ScalarType::F32) == Err::<(), Error>(
                error,
            ),
        },
{
    match column_of(batch, dimension) {
        Some(ColumnData::F32(found)) => {
            let _len: usize = found.len();
            Ok(Some(found.as_slice()))
        },
        Some(other) => Err(
            Error::InvalidInput(
                Fault::UnexpectedColumnType {
                    dimension,
                    expected: ScalarType::F32,
                    found: other.scalar(),
                },
            ),
        ),
        None => Ok(None),
    }
}

fn optional_u16_column<'a>(batch: &'a LasColumnBatch, dimension: LasDimension) -> (r: Result<
    Option<&'a [u16]>,
>)
    ensures
        match r {
            Ok(Some(found)) => values(batch.columns@, dimension) == Some(
                ColumnModel::U16(found@),
            ) && found@.len() <= usize::MAX,
            Ok(None) => values(batch.columns@, dimension) is None,
            Err(error) => typed(batch.columns@, dimension, ScalarType::U16) == Err::<(), Error>(
                error,
            ),
        },
{
    match column_of(batch, dimension) {
        Some(ColumnData::U16(found)) => {
            let _len: usize = found.len();
            Ok(Some(found.as_slice()))
        },
        Some(other) => Err(
            Error::InvalidInput(
                Fault::UnexpectedColumnType {
                    dimension,
                    expected: ScalarType::U16,
                    found: other.scalar(),
                },
            ),
        ),
        None => Ok(None),
    }
}

fn optional_u8_column<'a>(batch: &'a LasColumnBatch, dimension: LasDimension) -> (r: Result<
    Option<&'a [u8]>,
>)
    ensures
        match r {
            Ok(Some(found)) => values(batch.columns@, dimension) == Some(
                ColumnModel::U8(found@),
            ) && found@.len() <= usize::MAX,
            Ok(None) => values(batch.columns@, dimension) is None,
            Err(error) => typed(batch.columns@, dimension, ScalarType::U8) == Err::<(), Error>(
                error,
            ),
        },
{
    match column_of(batch, dimension) {
        Some(ColumnData::U8(found)) => {
            let _len: usize = found.len();
            Ok(Some(found.as_slice()))
        },
        Some(other) => Err(
            Error::InvalidInput(
                Fault::UnexpectedColumnType {
                    dimension,
                    expected: ScalarType::U8,
                    found: other.scalar(),
                },
            ),
        ),
        None => Ok(None),
    }
}

fn optional_bool_column<'a>(batch: &'a LasColumnBatch, dimension: LasDimension) -> (r: Result<
    Option<&'a [bool]>,
>)
    ensures
        match r {
            Ok(Some(found)) => values(batch.columns@, dimension) == Some(
                ColumnModel::Bool(found@),
            ) && found@.len() <= usize::MAX,
            Ok(None) => values(batch.columns@, dimension) is None,
            Err(error) => typed(batch.columns@, dimension, ScalarType::Bool) == Err::<(), Error>(
                error,
            ),
        },
{
    match column_of(batch, dimension) {
        Some(ColumnData::Bool(found)) => {
            let _len: usize = found.len();
            Ok(Some(found.as_slice()))
        },
        Some(other) => Err(
            Error::InvalidInput(
                Fault::UnexpectedColumnType {
                    dimension,
                    expected: ScalarType::Bool,
                    found: other.scalar(),
                },
            ),
        ),
        None => Ok(None),
    }
}

fn required_f64_column<'a>(batch: &'a LasColumnBatch, dimension: LasDimension) -> (r: Result<
    &'a [F64],
>)
    ensures
        match r {
            Ok(found) => values(batch.columns@, dimension) == Some(ColumnModel::F64(found@))
                && found@.len() <= usize::MAX,
            Err(error) => required(batch.columns@, dimension) == Err::<(), Error>(error),
        },
{
    match optional_f64_column(batch, dimension)? {
        Some(found) => Ok(found),
        None => Err(Error::InvalidInput(Fault::MissingColumn { dimension })),
    }
}

/// How many of the first `n` columns hold near infrared values.
pub open spec fn nir_columns(columns: Seq<(ColumnSpec, ColumnData)>, n: int) -> nat
    decreases n,
{
    if n <= 0 {
        0
    } else {
        nir_columns(columns, n - 1) + if columns[n - 1].0.dimension == LasDimension::Nir {
            1nat
        } else {
            0nat
        }
    }
}

/// Whether a dimension belongs to waveforms.
pub open spec fn is_waveform(dimension: LasDimension) -> bool {
    dimension == LasDimension::WaveformPacketDescriptorIndex || dimension
        == LasDimension::WaveformPacketByteOffset || dimension == LasDimension::WaveformPacketSize
        || dimension == LasDimension::WavePacketReturnPointWaveformLocation
}

/// How many of the first `n` columns belong to waveforms.
pub open spec fn wave_columns(columns: Seq<(ColumnSpec, ColumnData)>, n: int) -> nat
    decreases n,
{
    if n <= 0 {
        0
    } else {
        wave_columns(columns, n - 1) + if is_waveform(columns[n - 1].0.dimension) {
            1nat
        } else {
            0nat
        }
    }
}

/// Whether the writer writes all columns.
pub open spec fn support_check(columns: Seq<(ColumnSpec, ColumnData)>) -> Result<()> {
    let nir = nir_columns(columns, columns.len() as int);
    let waveform = wave_columns(columns, columns.len() as int);
    if nir + waveform > 0 {
        Err(
            Error::Unsupported(
                Fault::ColumnsNotPreserved { nir: nir as usize, waveform: waveform as usize },
            ),
        )
    } else {
        Ok(())
    }
}

fn validate_column_batch_writer_support(batch: &LasColumnBatch) -> (r: Result<()>)
    ensures
        r == support_check(batch.columns@),
{
    let mut nir: usize = 0;
    let mut waveform: usize = 0;
    let mut i: usize = 0;
    while i < batch.columns.len()
        invariant
            i <= batch.columns@.len(),
            nir == nir_columns(batch.columns@, i as int),
            waveform == wave_columns(batch.columns@, i as int),
            nir <= i,
            waveform <= i,
        decreases batch.columns@.len() - i,
    {
        let dimension = batch.columns[i].0.dimension;
        if dimension == LasDimension::Nir {
            nir = nir + 1;
        }
        if dimension == LasDimension::WaveformPacketDescriptorIndex || dimension
            == LasDimension::WaveformPacketByteOffset || dimension
            == LasDimension::WaveformPacketSize || dimension
            == LasDimension::WavePacketReturnPointWaveformLocation {
            waveform = waveform + 1;
        }
        i = i + 1;
    }
    if nir > 0 || waveform > 0 {
        return Err(Error::Unsupported(Fault::ColumnsNotPreserved { nir, waveform }));
    }
    Ok(())
}

/// The width of the extra bytes of each point, which must fit into a LAS record.
pub open spec fn extra_check(columns: Seq<(ColumnSpec, ColumnData)>) -> Result<()> {
    match extra_width(columns) {
        Some(width) => if width > u16::MAX {
            Err(Error::InvalidInput(Fault::ExtraBytesTooWide { width }))
        } else {
            Ok(())
        },
        None => Ok(()),
    }
}

/// The width of the extra bytes column, if there is one.
pub open spec fn extra_width(columns: Seq<(ColumnSpec, ColumnData)>) -> Option<usize> {
    match find(columns, LasDimension::ExtraBytes, 0) {
        Some(i) => columns[i].0.width(),
        None => None,
    }
}

/// Colors come with all three parts, or not at all.
pub open spec fn color_check(columns: Seq<(ColumnSpec, ColumnData)>) -> Result<()> {
    let red = values(columns, LasDimension::Red) is Some;
    let green = values(columns, LasDimension::Green) is Some;
    let blue = values(columns, LasDimension::Blue) is Some;
    if red == green && green == blue {
        Ok(())
    } else {
        Err(Error::InvalidInput(Fault::PartialColor))
    }
}

fn validate_color_columns(red: bool, green: bool, blue: bool) -> (r: Result<()>)
    ensures
        r == (if red == green && green == blue {
            Ok::<(), Error>(())
        } else {
            Err(Error::InvalidInput(Fault::PartialColor))
        }),
{
    if red == green && green == blue {
        Ok(())
    } else {
        Err(Error::InvalidInput(Fault::PartialColor))
    }
}

/// The checks of a batch that is to be written, in order.
pub open spec fn source_checks(batch: LasColumnBatch) -> Seq<Result<()>> {
    seq![
        batch.check(),
        support_check(batch.columns@),
        required(batch.columns@, LasDimension::X),
        required(batch.columns@, LasDimension::Y),
        required(batch.columns@, LasDimension::Z),
        typed(batch.columns@, LasDimension::Red, ScalarType::U16),
        typed(batch.columns@, LasDimension::Green, ScalarType::U16),
        typed(batch.columns@, LasDimension::Blue, ScalarType::U16),
        extra_check(batch.columns@),
        color_check(batch.columns@),
        typed(batch.columns@, LasDimension::Intensity, ScalarType::U16),
        typed(batch.columns@, LasDimension::ReturnNumber, ScalarType::U8),
        typed(batch.columns@, LasDimension::NumberOfReturns, ScalarType::U8),
        typed(batch.columns@, LasDimension::Synthetic, ScalarType::Bool),
        typed(batch.columns@, LasDimension::KeyPoint, ScalarType::Bool),
        typed(batch.columns@, LasDimension::Withheld, ScalarType::Bool),
        typed(batch.columns@, LasDimension::Overlap, ScalarType::Bool),
        typed(batch.columns@, LasDimension::ScanChannel, ScalarType::U8),
        typed(batch.columns@, LasDimension::ScanDirectionFlag, ScalarType::Bool),
        typed(batch.columns@, LasDimension::EdgeOfFlightLine, ScalarType::Bool),
        typed(batch.columns@, LasDimension::Classification, ScalarType::U8),
        typed(batch.columns@, LasDimension::UserData, ScalarType::U8),
        typed(batch.columns@, LasDimension::ScanAngle, ScalarType::F32),
        typed(batch.columns@, LasDimension::PointSourceId, ScalarType::U16),
        typed(batch.columns@, LasDimension::GpsTime, ScalarType::F64),
    ]
}

/// What [`ColumnBatchSource::new`] finds wrong.
pub open spec fn source_check(batch: LasColumnBatch) -> Result<()> {
    checks::checked(source_checks(batch))
}

proof fn lemma_source_error(batch: LasColumnBatch, k: int)
    requires
        0 <= k < source_checks(batch).len(),
        forall|i: int| 0 <= i < k ==> #[trigger] source_checks(batch)[i] is Ok,
        source_checks(batch)[k] is Err,
    ensures
        source_check(batch) == source_checks(batch)[k],
{
    checks::lemma_first_error(source_checks(batch), k, source_checks(batch).len() as int);
}

/// The number of a dimension for a point, or zero.
pub open spec fn u16_at(
    columns: Seq<(ColumnSpec, ColumnData)>,
    dimension: LasDimension,
    i: int,
) -> u16 {
    match values(columns, dimension) {
        Some(ColumnModel::U16(found)) => found[i],
        _ => 0,
    }
}

pub open spec fn u8_at(
    columns: Seq<(ColumnSpec, ColumnData)>,
    dimension: LasDimension,
    i: int,
) -> u8 {
    match values(columns, dimension) {
        Some(ColumnModel::U8(found)) => found[i],
        _ => 0,
    }
}

pub open spec fn bool_at(
    columns: Seq<(ColumnSpec, ColumnData)>,
    dimension: LasDimension,
    i: int,
) -> u8 {
    match values(columns, dimension) {
        Some(ColumnModel::Bool(found)) => flag(found[i]),
        _ => 0,
    }
}

pub open spec fn f64_at(
    columns: Seq<(ColumnSpec, ColumnData)>,
    dimension: LasDimension,
    i: int,
) -> F64 {
    match values(columns, dimension) {
        Some(ColumnModel::F64(found)) => found[i],
        _ => F64 { bits: 0 },
    }
}

pub open spec fn f32_at(
    columns: Seq<(ColumnSpec, ColumnData)>,
    dimension: LasDimension,
    i: int,
) -> F32 {
    match values(columns, dimension) {
        Some(ColumnModel::F32(found)) => found[i],
        _ => F32 { bits: 0 },
    }
}

/// The extra bytes of a point.
pub open spec fn extra_at(columns: Seq<(ColumnSpec, ColumnData)>, i: int) -> Seq<u8> {
    match (values(columns, LasDimension::ExtraBytes), extra_width(columns)) {
        (Some(ColumnModel::U8(found)), Some(width)) => found.subrange(
            i * width,
            i * width + width,
        ),
        _ => Seq::empty(),
    }
}

/// The fields of a point of a batch.
pub open spec fn batch_fields(columns: Seq<(ColumnSpec, ColumnData)>, i: int) -> FieldsModel {
    FieldsModel {
        x: f64_at(columns, LasDimension::X, i),
        y: f64_at(columns, LasDimension::Y, i),
        z: f64_at(columns, LasDimension::Z, i),
        intensity: u16_at(columns, LasDimension::Intensity, i),
        return_number: u8_at(columns, LasDimension::ReturnNumber, i),
        number_of_returns: u8_at(columns, LasDimension::NumberOfReturns, i),
        synthetic: bool_at(columns, LasDimension::Synthetic, i),
        key_point: bool_at(columns, LasDimension::KeyPoint, i),
        withheld: bool_at(columns, LasDimension::Withheld, i),
        overlap: bool_at(columns, LasDimension::Overlap, i),
        scan_channel: u8_at(columns, LasDimension::ScanChannel, i),
        scan_direction_flag: bool_at(columns, LasDimension::ScanDirectionFlag, i),
        edge_of_flight_line: bool_at(columns, LasDimension::EdgeOfFlightLine, i),
        classification: u8_at(columns, LasDimension::Classification, i),
        user_data: u8_at(columns, LasDimension::UserData, i),
        scan_angle: f32_at(columns, LasDimension::ScanAngle, i),
        point_source_id: u16_at(columns, LasDimension::PointSourceId, i),
        gps_time: f64_at(columns, LasDimension::GpsTime, i),
        red: u16_at(columns, LasDimension::Red, i),
        green: u16_at(columns, LasDimension::Green, i),
        blue: u16_at(columns, LasDimension::Blue, i),
        extra_bytes: extra_at(columns, i),
    }
}

/// Whether the slice holds the values of the dimension.
pub open spec fn holds_f64(
    columns: Seq<(ColumnSpec, ColumnData)>,
    dimension: LasDimension,
    found: Option<&[F64]>,
    len: usize,
) -> bool {
    match found {
        Some(found) => values(columns, dimension) == Some(ColumnModel::F64(found@)) && found@.len()
            == len,
        None => values(columns, dimension) is None,
    }
}

pub open spec fn holds_f32(
    columns: Seq<(ColumnSpec, ColumnData)>,
    dimension: LasDimension,
    found: Option<&[F32]>,
    len: usize,
) -> bool {
    match found {
        Some(found) => values(columns, dimension) == Some(ColumnModel::F32(found@)) && found@.len()
            == len,
        None => values(columns, dimension) is None,
    }
}

pub open spec fn holds_u16(
    columns: Seq<(ColumnSpec, ColumnData)>,
    dimension: LasDimension,
    found: Option<&[u16]>,
    len: usize,
) -> bool {
    match found {
        Some(found) => values(columns, dimension) == Some(ColumnModel::U16(found@)) && found@.len()
            == len,
        None => values(columns, dimension) is None,
    }
}

pub open spec fn holds_u8(
    columns: Seq<(ColumnSpec, ColumnData)>,
    dimension: LasDimension,
    found: Option<&[u8]>,
    len: usize,
) -> bool {
    match found {
        Some(found) => values(columns, dimension) == Some(ColumnModel::U8(found@)) && found@.len()
            == len,
        None => values(columns, dimension) is None,
    }
}

pub open spec fn holds_bool(
    columns: Seq<(ColumnSpec, ColumnData)>,
    dimension: LasDimension,
    found: Option<&[bool]>,
    len: usize,
) -> bool {
    match found {
        Some(found) => values(columns, dimension) == Some(ColumnModel::Bool(found@)) && found@.len()
            == len,
        None => values(columns, dimension) is None,
    }
}

/// Whether the slice and the width are those of the extra bytes.
pub open spec fn holds_extra(batch: LasColumnBatch, found: Option<(&[u8], usize)>) -> bool {
    match found {
        Some((found, width)) => {
            &&& values(batch.columns@, LasDimension::ExtraBytes) == Some(ColumnModel::U8(found@))
            &&& extra_width(batch.columns@) == Some(width)
            &&& 0 < width <= u16::MAX
            &&& found@.len() == batch.len * width
        },
        None => values(batch.columns@, LasDimension::ExtraBytes) is None && extra_width(
            batch.columns@,
        ) is None,
    }
}

/// A batch of columns as a source of points.
pub struct ColumnBatchSource<'a> {
    batch: &'a LasColumnBatch,
    x: &'a [F64],
    y: &'a [F64],
    z: &'a [F64],
    intensity: Option<&'a [u16]>,
    return_number: Option<&'a [u8]>,
    number_of_returns: Option<&'a [u8]>,
    synthetic: Option<&'a [bool]>,
    key_point: Option<&'a [bool]>,
    withheld: Option<&'a [bool]>,
    overlap: Option<&'a [bool]>,
    scan_channel: Option<&'a [u8]>,
    scan_direction_flag: Option<&'a [bool]>,
    edge_of_flight_line: Option<&'a [bool]>,
    classification: Option<&'a [u8]>,
    user_data: Option<&'a [u8]>,
    scan_angle: Option<&'a [F32]>,
    point_source_id: Option<&'a [u16]>,
    gps_time: Option<&'a [F64]>,
    red: Option<&'a [u16]>,
    green: Option<&'a [u16]>,
    blue: Option<&'a [u16]>,
    extra_bytes: Option<(&'a [u8], usize)>,
    descriptors: Vec<Vlr>,
}

impl<'a> ColumnBatchSource<'a> {
    /// The batch of the source.
    pub closed spec fn columns(&self) -> LasColumnBatch {
        *self.batch
    }

    /// The slices are those of the batch's columns.
    #[verifier::type_invariant]
    closed spec fn wf(&self) -> bool {
        let columns = self.batch.columns@;
        let len = self.batch.len;
        &&& holds_f64(columns, LasDimension::X, Some(self.x), len)
        &&& holds_f64(columns, LasDimension::Y, Some(self.y), len)
        &&& holds_f64(columns, LasDimension::Z, Some(self.z), len)
        &&& holds_u16(columns, LasDimension::Intensity, self.intensity, len)
        &&& holds_u8(columns, LasDimension::ReturnNumber, self.return_number, len)
        &&& holds_u8(columns, LasDimension::NumberOfReturns, self.number_of_returns, len)
        &&& holds_bool(columns, LasDimension::Synthetic, self.synthetic, len)
        &&& holds_bool(columns, LasDimension::KeyPoint, self.key_point, len)
        &&& holds_bool(columns, LasDimension::Withheld, self.withheld, len)
        &&& holds_bool(columns, LasDimension::Overlap, self.overlap, len)
        &&& holds_u8(columns, LasDimension::ScanChannel, self.scan_channel, len)
        &&& holds_bool(columns, LasDimension::ScanDirectionFlag, self.scan_direction_flag, len)
        &&& holds_bool(columns, LasDimension::EdgeOfFlightLine, self.edge_of_flight_line, len)
        &&& holds_u8(columns, LasDimension::Classification, self.classification, len)
        &&& holds_u8(columns, LasDimension::UserData, self.user_data, len)
        &&& holds_f32(columns, LasDimension::ScanAngle, self.scan_angle, len)
        &&& holds_u16(columns, LasDimension::PointSourceId, self.point_source_id, len)
        &&& holds_f64(columns, LasDimension::GpsTime, self.gps_time, len)
        &&& holds_u16(columns, LasDimension::Red, self.red, len)
        &&& holds_u16(columns, LasDimension::Green, self.green, len)
        &&& holds_u16(columns, LasDimension::Blue, self.blue, len)
        &&& holds_extra(*self.batch, self.extra_bytes)
        &&& self.descriptors@.len() == 0
    }

    /// Takes a batch that the writer can write: with coordinates, with colors in full, and
    /// with the types that LAS has.
    #[verifier::rlimit(40)]
    pub fn new(batch: &'a LasColumnBatch) -> (r: Result<ColumnBatchSource<'a>>)
        ensures
            match r {
                Ok(source) => {
                    &&& source_check(*batch) is Ok
                    &&& source.columns() == *batch
                },
                Err(error) => source_check(*batch) == Err::<(), Error>(error),
            },
    {
        let ghost list = source_checks(*batch);
        let _checked = match batch.validate() {
            Ok(found) => found,
            Err(error) => {
                proof {
                    lemma_source_error(*batch, 0);
                }
                return Err(error);
            },
        };
        let _supported = match validate_column_batch_writer_support(batch) {
            Ok(found) => found,
            Err(error) => {
                proof {
                    lemma_source_error(*batch, 1);
                }
                return Err(error);
            },
        };
        let x = match required_f64_column(batch, LasDimension::X) {
            Ok(found) => found,
            Err(error) => {
                proof {
                    lemma_source_error(*batch, 2);
                }
                return Err(error);
            },
        };
        let y = match required_f64_column(batch, LasDimension::Y) {
            Ok(found) => found,
            Err(error) => {
                proof {
                    lemma_source_error(*batch, 3);
                }
                return Err(error);
            },
        };
        let z = match required_f64_column(batch, LasDimension::Z) {
            Ok(found) => found,
            Err(error) => {
                proof {
                    lemma_source_error(*batch, 4);
                }
                return Err(error);
            },
        };
        let red = match optional_u16_column(batch, LasDimension::Red) {
            Ok(found) => found,
            Err(error) => {
                proof {
                    lemma_source_error(*batch, 5);
                }
                return Err(error);
            },
        };
        let green = match optional_u16_column(batch, LasDimension::Green) {
            Ok(found) => found,
            Err(error) => {
                proof {
                    lemma_source_error(*batch, 6);
                }
                return Err(error);
            },
        };
        let blue = match optional_u16_column(batch, LasDimension::Blue) {
            Ok(found) => found,
            Err(error) => {
                proof {
                    lemma_source_error(*batch, 7);
                }
                return Err(error);
            },
        };
        let extra_bytes = match optional_extra_bytes_column(batch) {
            Ok(found) => found,
            Err(error) => {
                proof {
                    lemma_source_error(*batch, 8);
                }
                return Err(error);
            },
        };
        let _color = match validate_color_columns(red.is_some(), green.is_some(), blue.is_some()) {
            Ok(found) => found,
            Err(error) => {
                proof {
                    lemma_source_error(*batch, 9);
                }
                return Err(error);
            },
        };
        let intensity = match optional_u16_column(batch, LasDimension::Intensity) {
            Ok(found) => found,
            Err(error) => {
                proof {
                    lemma_source_error(*batch, 10);
                }
                return Err(error);
            },
        };
        let return_number = match optional_u8_column(batch, LasDimension::ReturnNumber) {
            Ok(found) => found,
            Err(error) => {
                proof {
                    lemma_source_error(*batch, 11);
                }
                return Err(error);
            },
        };
        let number_of_returns = match optional_u8_column(batch, LasDimension::NumberOfReturns) {
            Ok(found) => found,
            Err(error) => {
                proof {
                    lemma_source_error(*batch, 12);
                }
                return Err(error);
            },
        };
        let synthetic = match optional_bool_column(batch, LasDimension::Synthetic) {
            Ok(found) => found,
            Err(error) => {
                proof {
                    lemma_source_error(*batch, 13);
                }
                return Err(error);
            },
        };
        let key_point = match optional_bool_column(batch, LasDimension::KeyPoint) {
            Ok(found) => found,
            Err(error) => {
                proof {
                    lemma_source_error(*batch, 14);
                }
                return Err(error);
            },
        };
        let withheld = match optional_bool_column(batch, LasDimension::Withheld) {
            Ok(found) => found,
            Err(error) => {
                proof {
                    lemma_source_error(*batch, 15);
                }
                return Err(error);
            },
        };
        let overlap = match optional_bool_column(batch, LasDimension::Overlap) {
            Ok(found) => found,
            Err(error) => {
                proof {
                    lemma_source_error(*batch, 16);
                }
                return Err(error);
            },
        };
        let scan_channel = match optional_u8_column(batch, LasDimension::ScanChannel) {
            Ok(found) => found,
            Err(error) => {
                proof {
                    lemma_source_error(*batch, 17);
                }
                return Err(error);
            },
        };
        let scan_direction_flag = match optional_bool_column(
            batch,
            LasDimension::ScanDirectionFlag,
        ) {
            Ok(found) => found,
            Err(error) => {
                proof {
                    lemma_source_error(*batch, 18);
                }
                return Err(error);
            },
        };
        let edge_of_flight_line = match optional_bool_column(
            batch,
            LasDimension::EdgeOfFlightLine,
        ) {
            Ok(found) => found,
            Err(error) => {
                proof {
                    lemma_source_error(*batch, 19);
                }
                return Err(error);
            },
        };
        let classification = match optional_u8_column(batch, LasDimension::Classification) {
            Ok(found) => found,
            Err(error) => {
                proof {
                    lemma_source_error(*batch, 20);
                }
                return Err(error);
            },
        };
        let user_data = match optional_u8_column(batch, LasDimension::UserData) {
            Ok(found) => found,
            Err(error) => {
                proof {
                    lemma_source_error(*batch, 21);
                }
                return Err(error);
            },
        };
        let scan_angle = match optional_f32_column(batch, LasDimension::ScanAngle) {
            Ok(found) => found,
            Err(error) => {
                proof {
                    lemma_source_error(*batch, 22);
                }
                return Err(error);
            },
        };
        let point_source_id = match optional_u16_column(batch, LasDimension::PointSourceId) {
            Ok(found) => found,
            Err(error) => {
                proof {
                    lemma_source_error(*batch, 23);
                }
                return Err(error);
            },
        };
        let gps_time = match optional_f64_column(batch, LasDimension::GpsTime) {
            Ok(found) => found,
            Err(error) => {
                proof {
                    lemma_source_error(*batch, 24);
                }
                return Err(error);
            },
        };
        proof {
            checks::lemma_no_error(list, 25);
            lemma_lengths(*batch);
        }
        Ok(
            ColumnBatchSource {
                batch,
                x,
                y,
                z,
                intensity,
                return_number,
                number_of_returns,
                synthetic,
                key_point,
                withheld,
                overlap,
                scan_channel,
                scan_direction_flag,
                edge_of_flight_line,
                classification,
                user_data,
                scan_angle,
                point_source_id,
                gps_time,
                red,
                green,
                blue,
                extra_bytes,
                descriptors: Vec::new(),
            },
        )
    }

    pub fn batch(&self) -> (r: &LasColumnBatch)
        ensures
            *r == self.columns(),
    {
        self.batch
    }

    /// Whether the points have colors.
    pub fn has_color(&self) -> (r: bool)
        ensures
            r == {
                let columns = self.columns().columns@;
                &&& values(columns, LasDimension::Red) is Some
                &&& values(columns, LasDimension::Green) is Some
                &&& values(columns, LasDimension::Blue) is Some
            },
    {
        proof {
            use_type_invariant(self);
        }
        self.red.is_some() && self.green.is_some() && self.blue.is_some()
    }

    /// The number of extra bytes of each point.
    pub fn extra_byte_width(&self) -> (r: usize)
        ensures
            r == (match extra_width(self.columns().columns@) {
                Some(width) => width,
                None => 0usize,
            }),
            r <= u16::MAX,
    {
        proof {
            use_type_invariant(self);
        }
        match self.extra_bytes {
            Some((_, width)) => width,
            None => 0,
        }
    }

    /// The box of the first `n` points.
    pub open spec fn box_of(columns: Seq<(ColumnSpec, ColumnData)>, n: int) -> Bounds
        decreases n,
    {
        let x = f64_at(columns, LasDimension::X, n - 1);
        let y = f64_at(columns, LasDimension::Y, n - 1);
        let z = f64_at(columns, LasDimension::Z, n - 1);
        if n <= 1 {
            Bounds { min: (x, y, z), max: (x, y, z) }
        } else {
            ColumnBatchSource::box_of(columns, n - 1).extended(x, y, z)
        }
    }

    /// The box of the points. There must be points.
    pub fn bounds(&self) -> (r: Result<Bounds>)
        ensures
            r == (if self.columns().len == 0 {
                Err::<Bounds, Error>(Error::InvalidInput(Fault::EmptyBatchBounds))
            } else {
                Ok(
                    ColumnBatchSource::box_of(
                        self.columns().columns@,
                        self.columns().len as int,
                    ),
                )
            }),
    {
        proof {
            use_type_invariant(self);
        }
        let len: usize = self.batch.len;
        if len == 0 {
            return Err(Error::InvalidInput(Fault::EmptyBatchBounds));
        }
        let mut bounds = Bounds::point(self.x[0], self.y[0], self.z[0]);
        let mut i: usize = 1;
        while i < len
            invariant
                1 <= i <= len,
                self.wf(),
                len == self.batch.len,
                bounds == ColumnBatchSource::box_of(self.columns().columns@, i as int),
            decreases len - i,
        {
            bounds.extend(self.x[i], self.y[i], self.z[i]);
            i = i + 1;
        }
        Ok(bounds)
    }
}

/// The extra bytes of a batch that was checked.
fn optional_extra_bytes_column<'a>(batch: &'a LasColumnBatch) -> (r: Result<
    Option<(&'a [u8], usize)>,
>)
    requires
        batch.check() is Ok,
    ensures
        match r {
            Ok(Some((found, width))) => {
                &&& extra_check(batch.columns@) is Ok
                &&& values(batch.columns@, LasDimension::ExtraBytes) == Some(
                    ColumnModel::U8(found@),
                )
                &&& extra_width(batch.columns@) == Some(width)
                &&& 0 < width <= u16::MAX
                &&& found@.len() <= usize::MAX
            },
            Ok(None) => {
                &&& extra_check(batch.columns@) is Ok
                &&& values(batch.columns@, LasDimension::ExtraBytes) is None
                &&& extra_width(batch.columns@) is None
            },
            Err(error) => extra_check(batch.columns@) == Err::<(), Error>(error),
        },
{
    let mut i: usize = 0;
    while i < batch.columns.len()
        invariant
            i <= batch.columns@.len(),
            batch.check() is Ok,
            find(batch.columns@, LasDimension::ExtraBytes, 0) == find(
                batch.columns@,
                LasDimension::ExtraBytes,
                i as int,
            ),
        decreases batch.columns@.len() - i,
    {
        let column = &batch.columns[i];
        if column.0.dimension == LasDimension::ExtraBytes {
            proof {
                columns::law_columns_check(batch.columns@, batch.columns@.len(), batch.len);
                assert(batch.columns@[i as int].0.points_check(
                    batch.columns@[i as int].1.model().kind(),
                    batch.columns@[i as int].1.model().count(),
                ) is Ok);
            }
            return match (column.0.extra_byte_width(), &column.1) {
                (Some(width), ColumnData::U8(found)) => {
                    if width > u16::MAX as usize {
                        Err(Error::InvalidInput(Fault::ExtraBytesTooWide { width }))
                    } else {
                        let _len: usize = found.len();
                        Ok(Some((found.as_slice(), width)))
                    }
                },
                _ => Ok(None),
            };
        }
        i = i + 1;
    }
    Ok(None)
}

/// The columns of a checked batch have its length.
proof fn lemma_lengths(batch: LasColumnBatch)
    requires
        batch.check() is Ok,
    ensures
        forall|dimension: LasDimension|
            dimension != LasDimension::ExtraBytes && (#[trigger] values(
                batch.columns@,
                dimension,
            )) is Some ==> values(batch.columns@, dimension)->Some_0.count() as usize == batch.len
                && (values(batch.columns@, dimension)->Some_0.count() <= usize::MAX ==> values(
                batch.columns@,
                dimension,
            )->Some_0.count() == batch.len),
        values(batch.columns@, LasDimension::ExtraBytes) matches Some(model) ==> {
            &&& extra_width(batch.columns@) is Some
            &&& model.count() <= usize::MAX ==> model.count() == batch.len * extra_width(
                batch.columns@,
            )->Some_0
        },
{
    let columns = batch.columns@;
    columns::law_columns_check(columns, columns.len(), batch.len);
    assert forall|dimension: LasDimension|
        dimension != LasDimension::ExtraBytes && (#[trigger] values(columns, dimension))
            is Some implies values(columns, dimension)->Some_0.count() as usize == batch.len && (
    values(columns, dimension)->Some_0.count() <= usize::MAX ==> values(
        columns,
        dimension,
    )->Some_0.count() == batch.len) by {
        lemma_found(columns, dimension, 0);
        let i = find(columns, dimension, 0)->Some_0;
        assert(columns[i].0.points_check(
            columns[i].1.model().kind(),
            columns[i].1.model().count(),
        ) == Ok::<usize, Error>(batch.len));
    }
    if values(columns, LasDimension::ExtraBytes) is Some {
        lemma_found(columns, LasDimension::ExtraBytes, 0);
        let i = find(columns, LasDimension::ExtraBytes, 0)->Some_0;
        let count = columns[i].1.model().count();
        assert(columns[i].0.points_check(columns[i].1.model().kind(), count) == Ok::<
            usize,
            Error,
        >(batch.len));
        let width = columns[i].0.width()->Some_0 as int;
        vstd::arithmetic::div_mod::lemma_fundamental_div_mod(count as int, width);
        vstd::arithmetic::mul::lemma_mul_is_commutative(count as int / width, width);
        vstd::arithmetic::div_mod::lemma_div_is_ordered_by_denominator(count as int, 1, width);
        vstd::arithmetic::div_mod::lemma_div_basics(count as int);
    }
}

fn u16_value(
    batch: &LasColumnBatch,
    dimension: LasDimension,
    column: Option<&[u16]>,
    index: usize,
) -> (r: u16)
    requires
        holds_u16(batch.columns@, dimension, column, batch.len),
        index < batch.len,
    ensures
        r == u16_at(batch.columns@, dimension, index as int),
{
    match column {
        Some(found) => found[index],
        None => 0,
    }
}

fn u8_value(
    batch: &LasColumnBatch,
    dimension: LasDimension,
    column: Option<&[u8]>,
    index: usize,
) -> (r: u8)
    requires
        holds_u8(batch.columns@, dimension, column, batch.len),
        index < batch.len,
    ensures
        r == u8_at(batch.columns@, dimension, index as int),
{
    match column {
        Some(found) => found[index],
        None => 0,
    }
}

fn bool_value(
    batch: &LasColumnBatch,
    dimension: LasDimension,
    column: Option<&[bool]>,
    index: usize,
) -> (r: u8)
    requires
        holds_bool(batch.columns@, dimension, column, batch.len),
        index < batch.len,
    ensures
        r == bool_at(batch.columns@, dimension, index as int),
{
    match column {
        Some(found) => flag_number(found[index]),
        None => 0,
    }
}

fn f64_value(
    batch: &LasColumnBatch,
    dimension: LasDimension,
    column: Option<&[F64]>,
    index: usize,
) -> (r: F64)
    requires
        holds_f64(batch.columns@, dimension, column, batch.len),
        index < batch.len,
    ensures
        r == f64_at(batch.columns@, dimension, index as int),
{
    match column {
        Some(found) => found[index],
        None => F64 { bits: 0 },
    }
}

fn f32_value(
    batch: &LasColumnBatch,
    dimension: LasDimension,
    column: Option<&[F32]>,
    index: usize,
) -> (r: F32)
    requires
        holds_f32(batch.columns@, dimension, column, batch.len),
        index < batch.len,
    ensures
        r == f32_at(batch.columns@, dimension, index as int),
{
    match column {
        Some(found) => found[index],
        None => F32 { bits: 0 },
    }
}

fn extra_value(
    batch: &LasColumnBatch,
    column: Option<(&[u8], usize)>,
    index: usize,
) -> (r: Vec<u8>)
    requires
        holds_extra(*batch, column),
        index < batch.len,
    ensures
        r@ == extra_at(batch.columns@, index as int),
{
    match column {
        Some((found, width)) => {
            proof {
                let len = batch.len as int;
                assert(index * width + width <= len * width) by (nonlinear_arith)
                    requires
                        0 <= index < len,
                        width >= 0,
                ;
                assert(0 <= index * width) by (nonlinear_arith)
                    requires
                        index >= 0,
                        width >= 0,
                ;
            }
            let total: usize = found.len();
            let start: usize = index * width;
            bytes::copy_range(found, start, start + width)
        },
        None => Vec::new(),
    }
}

/// The error for a point that is not there.
pub open spec fn batch_index(index: usize, len: usize) -> Error {
    Error::InvalidInput(Fault::BatchIndex { index, len })
}

impl<'a> CopcPointSource for ColumnBatchSource<'a> {
    open spec fn points(&self) -> nat {
        self.columns().len as nat
    }

    open spec fn xyz_of(&self, index: int) -> (F64, F64, F64) {
        let columns = self.columns().columns@;
        (
            f64_at(columns, LasDimension::X, index),
            f64_at(columns, LasDimension::Y, index),
            f64_at(columns, LasDimension::Z, index),
        )
    }

    open spec fn fields_of(&self, index: int) -> FieldsModel {
        batch_fields(self.columns().columns@, index)
    }

    open spec fn extra_bytes_of(&self) -> u16 {
        match extra_width(self.columns().columns@) {
            Some(width) => width as u16,
            None => 0u16,
        }
    }

    open spec fn descriptors_of(&self) -> Seq<RecordModel> {
        Seq::empty()
    }

    open spec fn may_fail(&self, error: Error) -> bool {
        exists|index: usize|
            index >= self.columns().len && error == #[trigger] batch_index(
                index,
                self.columns().len,
            )
    }

    fn len(&self) -> (r: usize) {
        self.batch.len
    }

    /// The coordinates of a point.
    fn xyz(&self, index: usize) -> (r: Result<(F64, F64, F64)>)
        ensures
            r == (if index >= self.columns().len {
                Err::<(F64, F64, F64), Error>(batch_index(index, self.columns().len))
            } else {
                let columns = self.columns().columns@;
                Ok(
                    (
                        f64_at(columns, LasDimension::X, index as int),
                        f64_at(columns, LasDimension::Y, index as int),
                        f64_at(columns, LasDimension::Z, index as int),
                    ),
                )
            }),
    {
        proof {
            use_type_invariant(self);
        }
        if index >= self.batch.len {
            proof {
                assert(batch_index(index, self.columns().len) == Error::InvalidInput(
                    Fault::BatchIndex { index, len: self.batch.len },
                ));
            }
            return Err(Error::InvalidInput(Fault::BatchIndex { index, len: self.batch.len }));
        }
        Ok((self.x[index], self.y[index], self.z[index]))
    }

    /// Puts the fields of a point into `out`.
    fn fields_into(&self, index: usize, out: &mut CopcPointFields) -> (r: Result<()>)
        ensures
            match r {
                Ok(_) => index < self.columns().len && final(out)@ == batch_fields(
                    self.columns().columns@,
                    index as int,
                ),
                Err(error) => index >= self.columns().len && error == batch_index(
                    index,
                    self.columns().len,
                ) && final(out)@ == old(out)@,
            },
    {
        if index >= self.batch.len {
            proof {
                assert(batch_index(index, self.columns().len) == Error::InvalidInput(
                    Fault::BatchIndex { index, len: self.batch.len },
                ));
            }
            return Err(Error::InvalidInput(Fault::BatchIndex { index, len: self.batch.len }));
        }
        proof {
            use_type_invariant(self);
        }
        let batch = self.batch;
        out.x = f64_value(batch, LasDimension::X, Some(self.x), index);
        out.y = f64_value(batch, LasDimension::Y, Some(self.y), index);
        out.z = f64_value(batch, LasDimension::Z, Some(self.z), index);
        out.intensity = u16_value(batch, LasDimension::Intensity, self.intensity, index);
        out.return_number = u8_value(batch, LasDimension::ReturnNumber, self.return_number, index);
        out.number_of_returns = u8_value(
            batch,
            LasDimension::NumberOfReturns,
            self.number_of_returns,
            index,
        );
        out.synthetic = bool_value(batch, LasDimension::Synthetic, self.synthetic, index);
        out.key_point = bool_value(batch, LasDimension::KeyPoint, self.key_point, index);
        out.withheld = bool_value(batch, LasDimension::Withheld, self.withheld, index);
        out.overlap = bool_value(batch, LasDimension::Overlap, self.overlap, index);
        out.scan_channel = u8_value(batch, LasDimension::ScanChannel, self.scan_channel, index);
        out.scan_direction_flag = bool_value(
            batch,
            LasDimension::ScanDirectionFlag,
            self.scan_direction_flag,
            index,
        );
        out.edge_of_flight_line = bool_value(
            batch,
            LasDimension::EdgeOfFlightLine,
            self.edge_of_flight_line,
            index,
        );
        out.classification = u8_value(
            batch,
            LasDimension::Classification,
            self.classification,
            index,
        );
        out.user_data = u8_value(batch, LasDimension::UserData, self.user_data, index);
        out.scan_angle = f32_value(batch, LasDimension::ScanAngle, self.scan_angle, index);
        out.point_source_id = u16_value(
            batch,
            LasDimension::PointSourceId,
            self.point_source_id,
            index,
        );
        out.gps_time = f64_value(batch, LasDimension::GpsTime, self.gps_time, index);
        out.red = u16_value(batch, LasDimension::Red, self.red, index);
        out.green = u16_value(batch, LasDimension::Green, self.green, index);
        out.blue = u16_value(batch, LasDimension::Blue, self.blue, index);
        out.extra_bytes = extra_value(batch, self.extra_bytes, index);
        Ok(())
    }

    /// The number of extra bytes of each point.
    fn extra_byte_count(&self) -> (r: u16)
    {
        self.extra_byte_width() as u16
    }

    fn extra_bytes_vlrs(&self) -> (r: &[Vlr]) {
        proof {
            use_type_invariant(self);
            assert(las_out::record_models(self.descriptors@) =~= Seq::empty());
        }
        self.descriptors.as_slice()
    }
}

/// The fields of a record are the record's: each number as it is, and each flag as a one
/// where it is set and a zero where it is not.
pub proof fn law_fields_keep_the_record(record: PointModel)
    ensures
        record_fields(record).x == record.x,
        record_fields(record).y == record.y,
        record_fields(record).z == record.z,
        record_fields(record).intensity == record.intensity,
        record_fields(record).return_number == record.return_number,
        record_fields(record).number_of_returns == record.number_of_returns,
        record_fields(record).scan_channel == record.scan_channel,
        record_fields(record).classification == record.classification,
        record_fields(record).user_data == record.user_data,
        record_fields(record).scan_angle == record.scan_angle,
        record_fields(record).point_source_id == record.point_source_id,
        record_fields(record).gps_time == record.gps_time,
        record_fields(record).red == record.red,
        record_fields(record).green == record.green,
        record_fields(record).blue == record.blue,
        record_fields(record).extra_bytes == record.extra_bytes,
        record_fields(record).synthetic == if record.synthetic {
            1u8
        } else {
            0u8
        },
        record_fields(record).key_point == if record.key_point {
            1u8
        } else {
            0u8
        },
        record_fields(record).withheld == if record.withheld {
            1u8
        } else {
            0u8
        },
        record_fields(record).overlap == if record.overlap {
            1u8
        } else {
            0u8
        },
        record_fields(record).scan_direction_flag == if record.scan_direction_flag {
            1u8
        } else {
            0u8
        },
        record_fields(record).edge_of_flight_line == if record.edge_of_flight_line {
            1u8
        } else {
            0u8
        },
{
}

/// A column of a checked batch holds the values of its dimension.
proof fn lemma_column_is_found(batch: LasColumnBatch, c: int)
    requires
        batch.check() is Ok,
        0 <= c < batch.columns@.len(),
    ensures
        find(batch.columns@, batch.columns@[c].0.dimension, 0) == Some(c),
{
    columns::law_columns_check(batch.columns@, batch.columns@.len(), batch.len);
    lemma_find(batch.columns@, batch.columns@[c].0.dimension, 0, c);
}

/// A point of a batch has in each field the value that stands at the point's place in the
/// column of that dimension; a flag is a one where the column has it set.
pub proof fn law_point_of_a_batch(batch: LasColumnBatch, c: int, i: int)
    requires
        batch.check() is Ok,
        0 <= c < batch.columns@.len(),
        0 <= i < batch.len,
    ensures
        ({
            let point = batch_fields(batch.columns@, i);
            match (batch.columns@[c].0.dimension, batch.columns@[c].1) {
                (LasDimension::X, ColumnData::F64(found)) => point.x == found@[i],
                (LasDimension::Y, ColumnData::F64(found)) => point.y == found@[i],
                (LasDimension::Z, ColumnData::F64(found)) => point.z == found@[i],
                (LasDimension::Intensity, ColumnData::U16(found)) => point.intensity == found@[i],
                (LasDimension::ReturnNumber, ColumnData::U8(found)) => point.return_number == found@[i],
                (LasDimension::NumberOfReturns, ColumnData::U8(found)) => point.number_of_returns == found@[i],
                (LasDimension::Classification, ColumnData::U8(found)) => point.classification == found@[i],
                (LasDimension::ScanAngle, ColumnData::F32(found)) => point.scan_angle == found@[i],
                (LasDimension::UserData, ColumnData::U8(found)) => point.user_data == found@[i],
                (LasDimension::PointSourceId, ColumnData::U16(found)) => point.point_source_id == found@[i],
                (LasDimension::ScanChannel, ColumnData::U8(found)) => point.scan_channel == found@[i],
                (LasDimension::GpsTime, ColumnData::F64(found)) => point.gps_time == found@[i],
                (LasDimension::Red, ColumnData::U16(found)) => point.red == found@[i],
                (LasDimension::Green, ColumnData::U16(found)) => point.green == found@[i],
                (LasDimension::Blue, ColumnData::U16(found)) => point.blue == found@[i],
                (LasDimension::Synthetic, ColumnData::Bool(found)) => point.synthetic == if found@[i] {
                    1u8
                } else {
                    0u8
                },
                (LasDimension::KeyPoint, ColumnData::Bool(found)) => point.key_point == if found@[i] {
                    1u8
                } else {
                    0u8
                },
                (LasDimension::Withheld, ColumnData::Bool(found)) => point.withheld == if found@[i] {
                    1u8
                } else {
                    0u8
                },
                (LasDimension::Overlap, ColumnData::Bool(found)) => point.overlap == if found@[i] {
                    1u8
                } else {
                    0u8
                },
                (LasDimension::ScanDirectionFlag, ColumnData::Bool(found)) => point.scan_direction_flag == if found@[i] {
                    1u8
                } else {
                    0u8
                },
                (LasDimension::EdgeOfFlightLine, ColumnData::Bool(found)) => point.edge_of_flight_line == if found@[i] {
                    1u8
                } else {
                    0u8
                },
                _ => true,
            }
        }),
{
    lemma_column_is_found(batch, c);
}

/// A point of a batch has zeros where the batch has no column of a dimension.
pub proof fn law_missing_column_is_zero(batch: LasColumnBatch, dimension: LasDimension, i: int)
    requires
        forall|c: int|
            0 <= c < batch.columns@.len() ==> (#[trigger] batch.columns@[c]).0.dimension
                != dimension,
    ensures
        ({
            let point = batch_fields(batch.columns@, i);
            match dimension {
                LasDimension::X => point.x.bits == 0,
                LasDimension::Y => point.y.bits == 0,
                LasDimension::Z => point.z.bits == 0,
                LasDimension::Intensity => point.intensity == 0,
                LasDimension::ReturnNumber => point.return_number == 0,
                LasDimension::NumberOfReturns => point.number_of_returns == 0,
                LasDimension::Classification => point.classification == 0,
                LasDimension::ScanAngle => point.scan_angle.bits == 0,
                LasDimension::UserData => point.user_data == 0,
                LasDimension::PointSourceId => point.point_source_id == 0,
                LasDimension::ScanChannel => point.scan_channel == 0,
                LasDimension::GpsTime => point.gps_time.bits == 0,
                LasDimension::Red => point.red == 0,
                LasDimension::Green => point.green == 0,
                LasDimension::Blue => point.blue == 0,
                LasDimension::Synthetic => point.synthetic == 0,
                LasDimension::KeyPoint => point.key_point == 0,
                LasDimension::Withheld => point.withheld == 0,
                LasDimension::Overlap => point.overlap == 0,
                LasDimension::ScanDirectionFlag => point.scan_direction_flag == 0,
                LasDimension::EdgeOfFlightLine => point.edge_of_flight_line == 0,
                LasDimension::ExtraBytes => point.extra_bytes.len() == 0,
                _ => true,
            }
        }),
{
    lemma_find_none(batch.columns@, dimension, 0);
}

/// Byte `j` of the extra bytes of point `i` is the value `i * width + j` of the column.
pub proof fn law_extra_byte_of_a_point(
    batch: LasColumnBatch,
    c: int,
    found: Vec<u8>,
    width: usize,
    i: int,
    j: int,
)
    requires
        batch.check() is Ok,
        0 <= c < batch.columns@.len(),
        batch.columns@[c].0 == columns::extra_spec(width),
        batch.columns@[c].1 == ColumnData::U8(found),
        found@.len() <= usize::MAX,
        0 <= i < batch.len,
        0 <= j < width,
    ensures
        batch_fields(batch.columns@, i).extra_bytes.len() == width,
        batch_fields(batch.columns@, i).extra_bytes[j] == found@[i * width + j],
        0 <= i * width + j < found@.len(),
{
    lemma_column_is_found(batch, c);
    lemma_lengths(batch);
    assert(0 <= i * width && i * width + width <= batch.len * width) by (nonlinear_arith)
        requires
            0 <= i < batch.len,
            width >= 0,
    ;
}

/// The extra bytes of the first `n` points, one after the other.
pub open spec fn joined_extra(columns: Seq<(ColumnSpec, ColumnData)>, n: int) -> Seq<u8>
    decreases n,
{
    if n <= 0 {
        Seq::empty()
    } else {
        joined_extra(columns, n - 1) + batch_fields(columns, n - 1).extra_bytes
    }
}

proof fn lemma_extra_joined(
    batch: LasColumnBatch,
    c: int,
    found: Vec<u8>,
    width: usize,
    n: int,
)
    requires
        batch.check() is Ok,
        0 <= c < batch.columns@.len(),
        batch.columns@[c].0 == columns::extra_spec(width),
        batch.columns@[c].1 == ColumnData::U8(found),
        found@.len() <= usize::MAX,
        0 <= n <= batch.len,
    ensures
        found@.len() == batch.len * width,
        n * width <= batch.len * width,
        joined_extra(batch.columns@, n) == found@.subrange(0, n * width),
    decreases n,
{
    lemma_column_is_found(batch, c);
    lemma_lengths(batch);
    assert(0 <= n * width <= batch.len * width) by (nonlinear_arith)
        requires
            0 <= n <= batch.len,
            width >= 0,
    ;
    if n > 0 {
        lemma_extra_joined(batch, c, found, width, n - 1);
        assert((n - 1) * width + width == n * width) by (nonlinear_arith);
        assert(joined_extra(batch.columns@, n) =~= found@.subrange(0, n * width));
    } else {
        vstd::arithmetic::mul::lemma_mul_basics(width as int);
        assert(n * width == 0);
        assert(joined_extra(batch.columns@, n) =~= found@.subrange(0, n * width));
    }
}

/// The extra bytes of the points of a batch, joined in the order of the points, are the
/// values of its column of extra bytes.
pub proof fn law_extra_bytes_joined(batch: LasColumnBatch, c: int, found: Vec<u8>, width: usize)
    requires
        batch.check() is Ok,
        0 <= c < batch.columns@.len(),
        batch.columns@[c].0 == columns::extra_spec(width),
        batch.columns@[c].1 == ColumnData::U8(found),
        found@.len() <= usize::MAX,
    ensures
        joined_extra(batch.columns@, batch.len as int) == found@,
{
    lemma_extra_joined(batch, c, found, width, batch.len as int);
    assert(found@.subrange(0, found@.len() as int) =~= found@);
}

/// The box of a batch holds each of its points.
pub proof fn law_box_of_a_batch(columns: Seq<(ColumnSpec, ColumnData)>, n: int, i: int)
    requires
        0 <= i < n,
        forall|k: int|
            0 <= k < n ==> {
                let point = #[trigger] batch_fields(columns, k);
                !point.x.nan() && !point.y.nan() && !point.z.nan()
            },
    ensures
        ColumnBatchSource::box_of(columns, n).holds(
            batch_fields(columns, i).x,
            batch_fields(columns, i).y,
            batch_fields(columns, i).z,
        ),
    decreases n,
{
    let last = batch_fields(columns, n - 1);
    if n > 1 {
        let before = ColumnBatchSource::box_of(columns, n - 1);
        if i < n - 1 {
            law_box_of_a_batch(columns, n - 1, i);
        } else {
            law_box_of_a_batch(columns, n - 1, 0);
        }
        assert(ColumnBatchSource::box_of(columns, n) == before.extended(last.x, last.y, last.z));
    }
}

/// The box of a batch is no greater than it must be: a box that holds all the points holds
/// its corners.
pub proof fn law_box_of_a_batch_is_least(
    columns: Seq<(ColumnSpec, ColumnData)>,
    n: int,
    other: Bounds,
)
    requires
        0 < n,
        forall|k: int|
            0 <= k < n ==> {
                let point = #[trigger] batch_fields(columns, k);
                other.holds(point.x, point.y, point.z)
            },
    ensures
        ({
            let own = ColumnBatchSource::box_of(columns, n);
            &&& other.holds(own.min.0, own.min.1, own.min.2)
            &&& other.holds(own.max.0, own.max.1, own.max.2)
        }),
    decreases n,
{
    let last = batch_fields(columns, n - 1);
    assert(other.holds(last.x, last.y, last.z));
    if n > 1 {
        law_box_of_a_batch_is_least(columns, n - 1, other);
    }
}

/// Whether some column has the dimension.
pub open spec fn present(columns: Seq<(ColumnSpec, ColumnData)>, dimension: LasDimension) -> bool {
    columns::has_column(columns, columns.len() as int, dimension)
}

/// A batch that is accepted has the three coordinates, each column with the default type of
/// its dimension, colors whole or not at all, and neither near infrared values nor waveforms.
pub proof fn law_accepted_batch(batch: LasColumnBatch, c: int)
    requires
        source_check(batch) is Ok,
        0 <= c < batch.columns@.len(),
    ensures
        batch.check() is Ok,
        present(batch.columns@, LasDimension::X),
        present(batch.columns@, LasDimension::Y),
        present(batch.columns@, LasDimension::Z),
        present(batch.columns@, LasDimension::Red) == present(batch.columns@, LasDimension::Green),
        present(batch.columns@, LasDimension::Red) == present(batch.columns@, LasDimension::Blue),
        batch.columns@[c].0.dimension == LasDimension::ExtraBytes
            ==> 0 < batch.columns@[c].0.byte_width->Some_0 <= u16::MAX,
        batch.columns@[c].0.dimension != LasDimension::ExtraBytes ==> Some(
            batch.columns@[c].1.model().kind(),
        ) == columns::scalar_of(batch.columns@[c].0.dimension),
        match batch.columns@[c].0.dimension {
            LasDimension::Nir => false,
            LasDimension::WaveformPacketDescriptorIndex => false,
            LasDimension::WaveformPacketByteOffset => false,
            LasDimension::WaveformPacketSize => false,
            LasDimension::WavePacketReturnPointWaveformLocation => false,
            _ => true,
        },
{
    let list = source_checks(batch);
    checks::law_checked(list);
    assert forall|k: int| 0 <= k < 25 implies #[trigger] list[k] is Ok by {}
    assert(list[0] is Ok && list[1] is Ok && list[2] is Ok && list[3] is Ok && list[4] is Ok);
    assert(list[5] is Ok && list[6] is Ok && list[7] is Ok && list[8] is Ok && list[9] is Ok);
    assert(list[10] is Ok && list[11] is Ok && list[12] is Ok && list[13] is Ok);
    assert(list[14] is Ok && list[15] is Ok && list[16] is Ok && list[17] is Ok);
    assert(list[18] is Ok && list[19] is Ok && list[20] is Ok && list[21] is Ok);
    assert(list[22] is Ok && list[23] is Ok && list[24] is Ok);
    lemma_column_is_found(batch, c);
    lemma_unsupported(batch.columns@, c, batch.columns@.len() as int);
    lemma_has(batch.columns@, LasDimension::X);
    lemma_has(batch.columns@, LasDimension::Y);
    lemma_has(batch.columns@, LasDimension::Z);
    lemma_has(batch.columns@, LasDimension::Red);
    lemma_has(batch.columns@, LasDimension::Green);
    lemma_has(batch.columns@, LasDimension::Blue);
    columns::law_columns_check(batch.columns@, batch.columns@.len(), batch.len);
    let column = batch.columns@[c];
    assert(column.0.points_check(column.1.model().kind(), column.1.model().count()) is Ok);
}

proof fn lemma_unsupported(columns: Seq<(ColumnSpec, ColumnData)>, c: int, n: int)
    requires
        0 <= c < n <= columns.len(),
    ensures
        columns[c].0.dimension == LasDimension::Nir ==> nir_columns(columns, n) > 0,
        is_waveform(columns[c].0.dimension) ==> wave_columns(columns, n) > 0,
    decreases n,
{
    if c < n - 1 {
        lemma_unsupported(columns, c, n - 1);
    }
}

proof fn lemma_has(columns: Seq<(ColumnSpec, ColumnData)>, dimension: LasDimension)
    ensures
        present(columns, dimension) <==> values(columns, dimension) is Some,
{
    lemma_found(columns, dimension, 0);
    if !present(columns, dimension) {
        lemma_find_none(columns, dimension, 0);
    } else {
        lemma_found_where(columns, dimension, 0);
    }
}

proof fn lemma_found_where(
    columns: Seq<(ColumnSpec, ColumnData)>,
    dimension: LasDimension,
    from: int,
)
    requires
        exists|i: int| from <= i < columns.len() && (#[trigger] columns[i]).0.dimension == dimension,
    ensures
        find(columns, dimension, from) is Some,
    decreases columns.len() - from,
{
    let i = choose|i: int|
        from <= i < columns.len() && (#[trigger] columns[i]).0.dimension == dimension;
    if columns[from].0.dimension != dimension {
        assert(from + 1 <= i && columns[i].0.dimension == dimension);
        lemma_found_where(columns, dimension, from + 1);
    }
}

/// A batch that is whole is accepted: one with the three coordinates, the default type in each
/// column, colors whole or not at all, and neither near infrared values nor waveforms.
pub proof fn law_whole_batch_is_accepted(batch: LasColumnBatch)
    requires
        batch.check() is Ok,
        present(batch.columns@, LasDimension::X),
        present(batch.columns@, LasDimension::Y),
        present(batch.columns@, LasDimension::Z),
        present(batch.columns@, LasDimension::Red) == present(batch.columns@, LasDimension::Green),
        present(batch.columns@, LasDimension::Red) == present(batch.columns@, LasDimension::Blue),
        forall|c: int|
            0 <= c < batch.columns@.len() ==> {
                let column = #[trigger] batch.columns@[c];
                &&& column.0.dimension == LasDimension::ExtraBytes ==> column.0.byte_width->Some_0
                    <= u16::MAX
                &&& column.0.dimension != LasDimension::ExtraBytes ==> Some(
                    column.1.model().kind(),
                ) == columns::scalar_of(column.0.dimension)
                &&& column.0.dimension != LasDimension::Nir && !is_waveform(column.0.dimension)
            },
    ensures
        source_check(batch) is Ok,
{
    let list = source_checks(batch);
    let columns = batch.columns@;
    checks::law_checked(list);
    lemma_supported(columns, columns.len() as int);
    lemma_has(columns, LasDimension::X);
    lemma_has(columns, LasDimension::Y);
    lemma_has(columns, LasDimension::Z);
    lemma_has(columns, LasDimension::Red);
    lemma_has(columns, LasDimension::Green);
    lemma_has(columns, LasDimension::Blue);
    lemma_found(columns, LasDimension::ExtraBytes, 0);
    assert forall|dimension: LasDimension, expected: ScalarType|
        dimension != LasDimension::ExtraBytes && columns::scalar_of(dimension) == Some(
            expected,
        ) implies #[trigger] typed(columns, dimension, expected) is Ok by {
        lemma_found(columns, dimension, 0);
    }
    assert forall|k: int| 0 <= k < list.len() implies #[trigger] list[k] is Ok by {}
}

proof fn lemma_supported(columns: Seq<(ColumnSpec, ColumnData)>, n: int)
    requires
        0 <= n <= columns.len(),
        forall|c: int|
            0 <= c < n ==> (#[trigger] columns[c]).0.dimension != LasDimension::Nir
                && !is_waveform(columns[c].0.dimension),
    ensures
        nir_columns(columns, n) == 0,
        wave_columns(columns, n) == 0,
    decreases n,
{
    if n > 0 {
        lemma_supported(columns, n - 1);
        assert(columns[n - 1].0.dimension != LasDimension::Nir);
    }
}

/// A batch as a source has the batch's points, in the batch's order, and places each by its own
/// coordinates.
pub proof fn law_source_is_the_batch(source: ColumnBatchSource<'_>, i: int)
    ensures
        source.points() == source.columns().len,
        source.fields_of(i) == batch_fields(source.columns().columns@, i),
        source.xyz_of(i) == (source.fields_of(i).x, source.fields_of(i).y, source.fields_of(i).z),
        source.descriptors_of().len() == 0,
{
}

/// The number of extra bytes that a source tells is that of each of its points.
pub proof fn law_extra_bytes_of_a_source(source: ColumnBatchSource<'_>, i: int)
    requires
        source_check(source.columns()) is Ok,
        0 <= i < source.points(),
        values(source.columns().columns@, LasDimension::ExtraBytes) matches Some(model)
            ==> model.count() <= usize::MAX,
    ensures
        source.fields_of(i).extra_bytes.len() == source.extra_bytes_of(),
{
    let batch = source.columns();
    let columns = batch.columns@;
    let list = source_checks(batch);
    checks::law_checked(list);
    assert(list[0] is Ok && list[8] is Ok);
    lemma_lengths(batch);
    lemma_found(columns, LasDimension::ExtraBytes, 0);
    if values(columns, LasDimension::ExtraBytes) is Some {
        let c = find(columns, LasDimension::ExtraBytes, 0)->Some_0;
        columns::law_columns_check(columns, columns.len(), batch.len);
        assert(columns[c].0.points_check(
            columns[c].1.model().kind(),
            columns[c].1.model().count(),
        ) is Ok);
        let width = extra_width(columns)->Some_0;
        let len = batch.len as int;
        assert(0 <= i * width && i * width + width <= len * width) by (nonlinear_arith)
            requires
                0 <= i < len,
                width >= 0,
        ;
    }
}

/// A batch that is consistent is refused for what is wrong with it, by the dimension that is.
pub proof fn law_why_a_batch_is_not_a_source(batch: LasColumnBatch)
    requires
        batch.check() is Ok,
        source_check(batch) is Err,
    ensures
        match source_check(batch)->Err_0 {
            Error::InvalidInput(Fault::MissingColumn { dimension }) => !present(
                batch.columns@,
                dimension,
            ) && (dimension == LasDimension::X || dimension == LasDimension::Y || dimension
                == LasDimension::Z),
            Error::InvalidInput(Fault::UnexpectedColumnType { dimension, expected, found }) => {
                &&& values(batch.columns@, dimension) is Some
                &&& values(batch.columns@, dimension)->Some_0.kind() == found
                &&& found != expected
                &&& columns::scalar_of(dimension) == Some(expected)
            },
            Error::InvalidInput(Fault::ExtraBytesTooWide { width }) => extra_width(batch.columns@)
                == Some(width) && width > u16::MAX,
            Error::InvalidInput(Fault::PartialColor) => !(present(
                batch.columns@,
                LasDimension::Red,
            ) == present(batch.columns@, LasDimension::Green) && present(
                batch.columns@,
                LasDimension::Red,
            ) == present(batch.columns@, LasDimension::Blue)),
            Error::Unsupported(Fault::ColumnsNotPreserved { nir, waveform }) => support_check(
                batch.columns@,
            ) is Err,
            _ => false,
        },
{
    let list = source_checks(batch);
    lemma_some_error(list, list.len() as int);
    let k = choose|k: int|
        0 <= k < list.len() && #[trigger] list[k] == checks::first_error(list, list.len() as int)
            && list[k] is Err;
    lemma_has(batch.columns@, LasDimension::X);
    lemma_has(batch.columns@, LasDimension::Y);
    lemma_has(batch.columns@, LasDimension::Z);
    lemma_has(batch.columns@, LasDimension::Red);
    lemma_has(batch.columns@, LasDimension::Green);
    lemma_has(batch.columns@, LasDimension::Blue);
    assert(list[k] == source_check(batch));
}

proof fn lemma_some_error(list: Seq<Result<()>>, n: int)
    requires
        0 <= n <= list.len(),
        checks::first_error(list, n) is Err,
    ensures
        exists|k: int|
            0 <= k < n && #[trigger] list[k] == checks::first_error(list, n) && list[k] is Err,
    decreases n,
{
    if checks::first_error(list, n - 1) is Err {
        lemma_some_error(list, n - 1);
    } else {
        assert(list[n - 1] == checks::first_error(list, n));
    }
}

/// A column more is counted where it is one that is not written, among those of its kind.
pub proof fn law_columns_that_are_lost(columns: Seq<(ColumnSpec, ColumnData)>, n: int)
    requires
        0 <= n < columns.len(),
    ensures
        nir_columns(columns, 0) == 0 && wave_columns(columns, 0) == 0,
        nir_columns(columns, n + 1) - nir_columns(columns, n) == (match columns[n].0.dimension {
            LasDimension::Nir => 1int,
            _ => 0int,
        }),
        wave_columns(columns, n + 1) - wave_columns(columns, n) == (match columns[n].0.dimension {
            LasDimension::WaveformPacketDescriptorIndex => 1int,
            LasDimension::WaveformPacketByteOffset => 1int,
            LasDimension::WaveformPacketSize => 1int,
            LasDimension::WavePacketReturnPointWaveformLocation => 1int,
            _ => 0int,
        }),
{
}

/// The model of fields has each of them.
pub proof fn law_model_of_fields(fields: CopcPointFields)
    ensures
        fields@.x == fields.x,
        fields@.y == fields.y,
        fields@.z == fields.z,
        fields@.intensity == fields.intensity,
        fields@.return_number == fields.return_number,
        fields@.number_of_returns == fields.number_of_returns,
        fields@.synthetic == fields.synthetic,
        fields@.key_point == fields.key_point,
        fields@.withheld == fields.withheld,
        fields@.overlap == fields.overlap,
        fields@.scan_channel == fields.scan_channel,
        fields@.scan_direction_flag == fields.scan_direction_flag,
        fields@.edge_of_flight_line == fields.edge_of_flight_line,
        fields@.classification == fields.classification,
        fields@.user_data == fields.user_data,
        fields@.scan_angle == fields.scan_angle,
        fields@.point_source_id == fields.point_source_id,
        fields@.gps_time == fields.gps_time,
        fields@.red == fields.red,
        fields@.green == fields.green,
        fields@.blue == fields.blue,
        fields@.extra_bytes == fields.extra_bytes@,
{
}

} // verus!
