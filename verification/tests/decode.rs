//! Columns out of point records.

use copc::bounds::Bounds;
use copc::cancel::{CancelCheck, NeverCancel};
use copc::columns::{ColumnData, ColumnSelection, LasColumnBatch, LasDimension, ScalarType};
use copc::decode::{
    append_chunk, append_columns, selected_column_builders, ExtendedPointLayout, ScaledPoint,
};
use copc::error::{Error, Result};
use copc::float::{F32, F64};
use copc::point_format::PointFormat;
use las::point::Format as LasPointFormat;

fn f(value: f64) -> F64 {
    F64::from_bits(value.to_bits())
}

fn f32_of(value: f32) -> F32 {
    F32::from_bits(value.to_bits())
}

/// The library's form of a format.
fn own(format: &LasPointFormat) -> PointFormat {
    let mut own = PointFormat::new(format.to_u8().unwrap()).unwrap();
    own.extra_bytes = format.extra_bytes;
    own
}

/// What a caller computes of a record: its place and its angle in degrees.
fn scaled(raw_point: &las::raw::Point) -> ScaledPoint {
    ScaledPoint {
        x: f(1.0),
        y: f(2.0),
        z: f(3.0),
        scan_angle: f32_of(f32::from(raw_point.scan_angle)),
    }
}

#[test]
fn selected_column_builders_include_extra_bytes_width() {
    let mut format = LasPointFormat::new(6).unwrap();
    format.extra_bytes = 3;

    let columns = selected_column_builders(own(&format), &ColumnSelection::all(), 2).unwrap();

    let extra_spec = columns
        .iter()
        .map(|(spec, _)| *spec)
        .find(|spec| spec.dimension == LasDimension::ExtraBytes)
        .expect("ExtraBytes column spec");
    assert_eq!(Some(3), extra_spec.extra_byte_width());
    assert_eq!(ScalarType::U8, extra_spec.scalar);
}

fn record_bytes(format: &LasPointFormat, raw_point: &las::raw::Point) -> Vec<u8> {
    let mut buf = Vec::with_capacity(usize::from(format.len()));
    raw_point.write_to(&mut buf, format).unwrap();
    buf
}

#[test]
fn append_columns_preserves_fixed_width_extra_bytes() {
    let mut format = LasPointFormat::new(6).unwrap();
    format.extra_bytes = 3;
    let mut columns = selected_column_builders(
        own(&format),
        &ColumnSelection::from_dimensions(&[LasDimension::X, LasDimension::ExtraBytes]),
        1,
    )
    .unwrap();
    let raw_point = las::raw::Point {
        x: 10,
        y: 20,
        z: 30,
        flags: las::raw::point::Flags::ThreeByte(1 | (1 << 4), 0, 2),
        scan_angle: las::raw::point::ScanAngle::from(0.0),
        extra_bytes: vec![9, 8, 7],
        ..Default::default()
    };
    let buf = record_bytes(&format, &raw_point);
    let layout = ExtendedPointLayout::for_format(&own(&format)).unwrap();

    append_columns(&mut columns, &buf, &layout, &scaled(&raw_point)).unwrap();
    let batch = LasColumnBatch::new(columns).unwrap();

    assert_eq!(1, batch.len());
    assert_eq!(
        Some(&ColumnData::U8(vec![9, 8, 7])),
        batch.column(LasDimension::ExtraBytes)
    );
}

#[test]
fn append_columns_rejects_layout_and_spec_width_mismatch() {
    // Spec widths come from the same format as the layout, so a mismatch
    // is unreachable through the public API; guard the internal error.
    let mut spec_format = LasPointFormat::new(6).unwrap();
    spec_format.extra_bytes = 3;
    let mut columns = selected_column_builders(
        own(&spec_format),
        &ColumnSelection::from_dimensions(&[LasDimension::ExtraBytes]),
        1,
    )
    .unwrap();
    let mut buf_format = LasPointFormat::new(6).unwrap();
    buf_format.extra_bytes = 2;
    let raw_point = las::raw::Point {
        flags: las::raw::point::Flags::ThreeByte(1 | (1 << 4), 0, 2),
        extra_bytes: vec![9, 8],
        ..Default::default()
    };
    let buf = record_bytes(&buf_format, &raw_point);
    let layout = ExtendedPointLayout::for_format(&own(&buf_format)).unwrap();

    let err = append_columns(&mut columns, &buf, &layout, &scaled(&raw_point)).unwrap_err();

    assert!(err.message().contains("expected 3"));
}

/// Every column decoded directly from record bytes must match the values
/// the `las` crate parses from the same bytes.
#[test]
fn direct_column_decode_matches_las_raw_point() {
    for format_id in [6u8, 7, 8] {
        let mut format = LasPointFormat::new(format_id).unwrap();
        format.extra_bytes = 2;
        let raw_point = las::raw::Point {
            x: -1234,
            y: 5678,
            z: 91011,
            intensity: 0xBEEF,
            flags: las::raw::point::Flags::ThreeByte(
                3 | (5 << 4),
                1 | (1 << 2) | (2 << 4) | (1 << 6) | (1 << 7),
                6,
            ),
            scan_angle: las::raw::point::ScanAngle::Scaled(-5042),
            user_data: 0x42,
            point_source_id: 0xCAFE,
            gps_time: Some(1.234e9),
            color: format
                .has_color
                .then_some(las::Color::new(1000, 2000, 3000)),
            nir: format.has_nir.then_some(0xCDCD),
            waveform: None,
            extra_bytes: vec![7, 9],
        };
        let buf = record_bytes(&format, &raw_point);
        let layout = ExtendedPointLayout::for_format(&own(&format)).unwrap();
        let mut columns = selected_column_builders(own(&format), &ColumnSelection::all(), 1).unwrap();

        append_columns(&mut columns, &buf, &layout, &scaled(&raw_point)).unwrap();
        let batch = LasColumnBatch::new(columns).unwrap();

        let mut flags = raw_point.flags;
        let expected_overlap = flags.is_overlap();
        flags.clear_overlap_class();
        assert_eq!(
            Some(&ColumnData::U16(vec![raw_point.intensity])),
            batch.column(LasDimension::Intensity)
        );
        assert_eq!(
            Some(&ColumnData::U8(vec![flags.return_number()])),
            batch.column(LasDimension::ReturnNumber)
        );
        assert_eq!(
            Some(&ColumnData::U8(vec![flags.number_of_returns()])),
            batch.column(LasDimension::NumberOfReturns)
        );
        assert_eq!(
            Some(&ColumnData::U8(vec![u8::from(
                flags.to_classification().unwrap()
            )])),
            batch.column(LasDimension::Classification)
        );
        assert_eq!(
            Some(&ColumnData::Bool(vec![matches!(
                flags.scan_direction(),
                las::point::ScanDirection::LeftToRight
            )])),
            batch.column(LasDimension::ScanDirectionFlag)
        );
        assert_eq!(
            Some(&ColumnData::Bool(vec![flags.is_edge_of_flight_line()])),
            batch.column(LasDimension::EdgeOfFlightLine)
        );
        assert_eq!(
            Some(&ColumnData::F32(vec![f32_of(f32::from(raw_point.scan_angle))])),
            batch.column(LasDimension::ScanAngle)
        );
        assert_eq!(
            Some(&ColumnData::U8(vec![raw_point.user_data])),
            batch.column(LasDimension::UserData)
        );
        assert_eq!(
            Some(&ColumnData::U16(vec![raw_point.point_source_id])),
            batch.column(LasDimension::PointSourceId)
        );
        assert_eq!(
            Some(&ColumnData::Bool(vec![flags.is_synthetic()])),
            batch.column(LasDimension::Synthetic)
        );
        assert_eq!(
            Some(&ColumnData::Bool(vec![flags.is_key_point()])),
            batch.column(LasDimension::KeyPoint)
        );
        assert_eq!(
            Some(&ColumnData::Bool(vec![flags.is_withheld()])),
            batch.column(LasDimension::Withheld)
        );
        assert_eq!(
            Some(&ColumnData::Bool(vec![expected_overlap])),
            batch.column(LasDimension::Overlap)
        );
        assert_eq!(
            Some(&ColumnData::U8(vec![flags.scanner_channel()])),
            batch.column(LasDimension::ScanChannel)
        );
        assert_eq!(
            Some(&ColumnData::F64(vec![f(raw_point.gps_time.unwrap())])),
            batch.column(LasDimension::GpsTime)
        );
        if format.has_color {
            assert_eq!(
                Some(&ColumnData::U16(vec![raw_point.color.unwrap().red])),
                batch.column(LasDimension::Red)
            );
            assert_eq!(
                Some(&ColumnData::U16(vec![raw_point.color.unwrap().blue])),
                batch.column(LasDimension::Blue)
            );
        }
        if format.has_nir {
            assert_eq!(
                Some(&ColumnData::U16(vec![raw_point.nir.unwrap()])),
                batch.column(LasDimension::Nir)
            );
        }
        assert_eq!(
            Some(&ColumnData::U8(vec![7, 9])),
            batch.column(LasDimension::ExtraBytes)
        );
    }
}

/// Records of a chunk that lie outside the bounds leave no trace in the columns.
#[test]
fn records_outside_the_bounds_are_left_out() {
    let format = LasPointFormat::new(6).unwrap();
    let layout = ExtendedPointLayout::for_format(&own(&format)).unwrap();
    let mut records = Vec::new();
    let mut places = Vec::new();
    for i in 0..4u16 {
        let raw_point = las::raw::Point {
            intensity: i,
            flags: las::raw::point::Flags::ThreeByte(1 | (1 << 4), 0, 2),
            gps_time: Some(f64::from(i)),
            scan_angle: las::raw::point::ScanAngle::Scaled(0),
            ..Default::default()
        };
        records.extend_from_slice(&record_bytes(&format, &raw_point));
        places.push(ScaledPoint {
            x: f(f64::from(i)),
            y: f(0.0),
            z: f(0.0),
            scan_angle: f32_of(0.0),
        });
    }
    let bounds = Bounds::new((f(1.0), f(-1.0), f(-1.0)), (f(2.0), f(1.0), f(1.0)));
    let mut columns = selected_column_builders(
        own(&format),
        &ColumnSelection::from_dimensions(&[LasDimension::Intensity]),
        4,
    )
    .unwrap();

    let count = append_chunk(
        &mut columns,
        &records,
        30,
        &layout,
        &places,
        Some(bounds),
        &NeverCancel,
    )
    .unwrap();

    assert_eq!(2, count);
    assert_eq!(ColumnData::U16(vec![1, 2]), columns[0].1);
}

struct AlwaysCancelled;

impl CancelCheck for AlwaysCancelled {
    fn check(&self) -> Result<()> {
        Err(Error::Cancelled)
    }
}

#[test]
fn a_cancelled_chunk_is_given_up() {
    let format = LasPointFormat::new(6).unwrap();
    let layout = ExtendedPointLayout::for_format(&own(&format)).unwrap();
    let mut columns =
        selected_column_builders(own(&format), &ColumnSelection::xyz(), 1).unwrap();
    let places = [ScaledPoint {
        x: f(0.0),
        y: f(0.0),
        z: f(0.0),
        scan_angle: f32_of(0.0),
    }];
    let token = AlwaysCancelled;
    let err = append_chunk(
        &mut columns,
        &[0u8; 30],
        30,
        &layout,
        &places,
        None,
        &token,
    )
    .unwrap_err();
    assert!(matches!(err, Error::Cancelled));
}

#[test]
fn formats_without_extended_records_are_refused() {
    let format = PointFormat::new(3).unwrap();
    assert!(matches!(
        ExtendedPointLayout::for_format(&format),
        Err(Error::Unsupported(_))
    ));
}
