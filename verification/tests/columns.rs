//! Columns, their declarations and selections.

use copc::columns::{
    layout_for_las_format, ColumnData, ColumnSelection, ColumnSpec, ColumnView, LasColumnBatch,
    LasDimension, ScalarType,
};
use copc::error::{Error, Fault};
use copc::float::{F32, F64};
use copc::point_format::PointFormat;

fn f(value: f64) -> F64 {
    F64::from_bits(value.to_bits())
}

fn base_layout_dims() -> Vec<LasDimension> {
    vec![
        LasDimension::X,
        LasDimension::Y,
        LasDimension::Z,
        LasDimension::Intensity,
        LasDimension::ReturnNumber,
        LasDimension::NumberOfReturns,
        LasDimension::Classification,
        LasDimension::ScanDirectionFlag,
        LasDimension::EdgeOfFlightLine,
        LasDimension::ScanAngle,
        LasDimension::UserData,
        LasDimension::PointSourceId,
        LasDimension::Synthetic,
        LasDimension::KeyPoint,
        LasDimension::Withheld,
        LasDimension::Overlap,
        LasDimension::ScanChannel,
    ]
}

fn assert_layout_dims(format_id: u8, expected: Vec<LasDimension>) {
    let format = PointFormat::new(format_id).unwrap();
    let layout = layout_for_las_format(format);
    let dims: Vec<_> = layout.iter().map(|spec| spec.dimension).collect();
    assert_eq!(expected, dims, "format {format_id}");
    for spec in layout {
        spec.validate_default_scalar().unwrap();
    }
}

#[test]
fn data_reports_len_and_scalar() {
    let data = ColumnData::U16(vec![10, 20, 30]);

    assert_eq!(3, data.len());
    assert!(!data.is_empty());
    assert_eq!(ScalarType::U16, data.scalar());
    assert!(data.matches_scalar(ScalarType::U16));
}

#[test]
fn batch_finds_owned_columns_and_views() {
    let batch = LasColumnBatch::new(vec![
        (
            ColumnSpec::new(LasDimension::X, ScalarType::F64),
            ColumnData::F64(vec![f(1.0), f(2.0)]),
        ),
        (
            ColumnSpec::new(LasDimension::Intensity, ScalarType::U16),
            ColumnData::U16(vec![100, 200]),
        ),
        (
            ColumnSpec::new(LasDimension::Withheld, ScalarType::Bool),
            ColumnData::Bool(vec![false, true]),
        ),
    ])
    .unwrap();

    assert_eq!(2, batch.len());
    assert!(!batch.is_empty());
    assert_eq!(
        Some(&ColumnData::U16(vec![100, 200])),
        batch.column(LasDimension::Intensity)
    );
    assert_eq!(
        Some(ColumnView::Bool(&[false, true])),
        batch.column_view(LasDimension::Withheld)
    );
}

#[test]
fn batch_rejects_scalar_mismatch() {
    let err = LasColumnBatch::new(vec![(
        ColumnSpec::new(LasDimension::Intensity, ScalarType::U16),
        ColumnData::U8(vec![1, 2]),
    )])
    .unwrap_err();

    assert!(err.message().contains("declares U16 data but contains U8"));
}

#[test]
fn batch_rejects_len_mismatch() {
    let batch = LasColumnBatch {
        len: 3,
        columns: vec![(
            ColumnSpec::new(LasDimension::X, ScalarType::F64),
            ColumnData::F64(vec![f(1.0), f(2.0)]),
        )],
    };

    assert!(batch.validate().is_err());
    assert!(matches!(
        batch.validate(),
        Err(Error::InvalidInput(Fault::ColumnLength {
            dimension: LasDimension::X,
            points: 2,
            len: 3
        }))
    ));
}

#[test]
fn batch_rejects_duplicate_dimensions() {
    let batch = LasColumnBatch::new(vec![
        (
            ColumnSpec::new(LasDimension::Intensity, ScalarType::U16),
            ColumnData::U16(vec![1]),
        ),
        (
            ColumnSpec::new(LasDimension::Intensity, ScalarType::U16),
            ColumnData::U16(vec![2]),
        ),
    ]);

    assert!(batch.unwrap_err().message().contains("more than once"));
}

#[test]
fn batch_validates_fixed_width_extra_bytes() {
    let batch = LasColumnBatch::new(vec![(
        ColumnSpec::extra_bytes(3),
        ColumnData::U8(vec![1, 2, 3, 4, 5, 6]),
    )])
    .unwrap();

    assert_eq!(2, batch.len());
    assert_eq!(
        Some(&ColumnData::U8(vec![1, 2, 3, 4, 5, 6])),
        batch.column(LasDimension::ExtraBytes)
    );

    let invalid = LasColumnBatch::new(vec![(
        ColumnSpec::extra_bytes(3),
        ColumnData::U8(vec![1, 2, 3, 4]),
    )]);
    assert!(invalid.is_err());

    let missing_width = LasColumnBatch::new(vec![(
        ColumnSpec::new(LasDimension::ExtraBytes, ScalarType::U8),
        ColumnData::U8(vec![1, 2, 3]),
    )]);
    assert!(missing_width.is_err());
}

#[test]
fn default_scalar_validation_allows_extra_bytes() {
    assert_eq!(
        ColumnSpec::new(LasDimension::GpsTime, ScalarType::F64),
        ColumnSpec::default_for(LasDimension::GpsTime).unwrap()
    );
    assert!(ColumnSpec::extra_bytes(4).has_default_scalar());
    assert!(ColumnSpec::new(LasDimension::ExtraBytes, ScalarType::U8)
        .validate_default_scalar()
        .is_err());
    assert!(ColumnSpec::new(LasDimension::ScanAngle, ScalarType::I16)
        .validate_default_scalar()
        .is_err());
    assert!(ColumnSpec::new(LasDimension::ScanAngle, ScalarType::F32)
        .validate_default_scalar()
        .is_ok());
}

#[test]
fn selection_tracks_requested_dimensions() {
    let xyz = ColumnSelection::xyz();
    assert_eq!(
        &[LasDimension::X, LasDimension::Y, LasDimension::Z],
        xyz.dimensions()
    );
    assert!(xyz.contains(LasDimension::X));
    assert!(!xyz.contains(LasDimension::Intensity));

    let selection = ColumnSelection::from_dimensions(&[
        LasDimension::Intensity,
        LasDimension::X,
        LasDimension::Intensity,
    ]);
    assert_eq!(
        &[LasDimension::Intensity, LasDimension::X],
        selection.dimensions()
    );
    assert_eq!(2, selection.len());
    assert!(!selection.is_empty());

    let all = ColumnSelection::all();
    assert!(all.contains(LasDimension::WaveformPacketByteOffset));
    assert!(all.contains(LasDimension::ExtraBytes));
}

#[test]
fn layout_for_format_0_has_core_dimensions() {
    assert_layout_dims(0, base_layout_dims());
}

#[test]
fn layout_for_format_3_adds_gps_and_color() {
    let mut expected = base_layout_dims();
    expected.extend([
        LasDimension::GpsTime,
        LasDimension::Red,
        LasDimension::Green,
        LasDimension::Blue,
    ]);

    assert_layout_dims(3, expected);
}

#[test]
fn layout_for_format_6_adds_gps() {
    let mut expected = base_layout_dims();
    expected.push(LasDimension::GpsTime);

    assert_layout_dims(6, expected);
}

#[test]
fn layout_for_format_7_adds_gps_and_color() {
    let mut expected = base_layout_dims();
    expected.extend([
        LasDimension::GpsTime,
        LasDimension::Red,
        LasDimension::Green,
        LasDimension::Blue,
    ]);

    assert_layout_dims(7, expected);
}

#[test]
fn layout_for_format_8_adds_gps_color_and_nir() {
    let mut expected = base_layout_dims();
    expected.extend([
        LasDimension::GpsTime,
        LasDimension::Red,
        LasDimension::Green,
        LasDimension::Blue,
        LasDimension::Nir,
    ]);

    assert_layout_dims(8, expected);
}

#[test]
fn layout_for_format_10_adds_all_optional_las_dimensions() {
    let mut expected = base_layout_dims();
    expected.extend([
        LasDimension::GpsTime,
        LasDimension::Red,
        LasDimension::Green,
        LasDimension::Blue,
        LasDimension::Nir,
        LasDimension::WaveformPacketDescriptorIndex,
        LasDimension::WaveformPacketByteOffset,
        LasDimension::WaveformPacketSize,
        LasDimension::WavePacketReturnPointWaveformLocation,
    ]);

    assert_layout_dims(10, expected);
}

#[test]
fn layout_includes_extra_bytes_with_byte_width_when_format_declares_them() {
    let mut format = PointFormat::new(0).unwrap();
    format.extra_bytes = 4;

    let layout = layout_for_las_format(format);

    assert_eq!(Some(&ColumnSpec::extra_bytes(4)), layout.last());
}

/// The wrapped format answers as the `las` crate does, for every number.
#[test]
fn point_formats_match_the_las_crate() {
    for id in 0..=255u8 {
        match las::point::Format::new(id) {
            Ok(format) => {
                let own = PointFormat::new(id).unwrap();
                assert_eq!(format.has_gps_time, own.has_gps_time, "{id}");
                assert_eq!(format.has_color, own.has_color, "{id}");
                assert_eq!(format.is_extended, own.is_extended, "{id}");
                assert_eq!(format.has_waveform, own.has_waveform, "{id}");
                assert_eq!(format.has_nir, own.has_nir, "{id}");
                assert_eq!(format.is_compressed, own.is_compressed, "{id}");
                assert_eq!(format.len(), own.len(), "{id}");
                assert_eq!(format.to_u8().ok(), own.to_u8(), "{id}");
            }
            Err(_) => assert!(PointFormat::new(id).is_err(), "{id}"),
        }
    }
}

#[test]
fn single_precision_columns_compare_by_value() {
    let zero = F32::from_bits(0);
    let negative_zero = F32::from_bits(0x8000_0000);
    assert_eq!(ColumnData::F32(vec![zero]), ColumnData::F32(vec![negative_zero]));
    let nan = F32::from_bits(f32::NAN.to_bits());
    assert_ne!(ColumnData::F32(vec![nan]), ColumnData::F32(vec![nan]));
}
