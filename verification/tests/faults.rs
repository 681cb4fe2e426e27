//! Damaged files and bad requests, each with the error it gives.

use copc::bounds::Bounds;
use copc::columns::{ColumnData, ColumnSpec, LasColumnBatch, LasDimension, ScalarType};
use copc::decode::merge_columns;
use copc::error::{Axis, Error, Fault, HeaderField, LasTask, RangeLabel, Result};
use copc::file::{CopcFile, HierarchyReadLimits};
use copc::float::{F32, F64};
use copc::hierarchy::{Entry, HierarchyPage, VoxelKey, HIERARCHY_ENTRY_BYTES};
use copc::info::{CopcInfo, COPC_INFO_BYTES};
use copc::laszip::{decode_chunk, laszip_record_size};
use copc::laz_out::{chunk_of_stream, laszip_payload};
use copc::limits::{LAS_HEADER_SIZE_14, MAX_HIERARCHY_TOTAL_BYTES};
use copc::point_format::{point_format_for, PointFormat};
use copc::query::{
    level_range, total_candidate_points, validate_query, BoundsSelection, LodSelection, PointQuery,
};
use copc::range_read::{fetch, MemorySource};
use copc::ranged::{chunk_slice, CopcRangeReader};
use copc::reader::{checked_chunk_sizes, validated_record_size};
use copc::source::{ColumnBatchSource, CopcPointFields, CopcPointSource};
use copc::validate::{
    validate_scan_angle, validate_write_setup, validate_xyz_fit, AxisFit, PointStats,
};
use copc::writer::output_point_format;
use laz::LazVlrBuilder;

fn f(value: f64) -> F64 {
    F64::from_bits(value.to_bits())
}

fn f32_of(value: f32) -> F32 {
    F32::from_bits(value.to_bits())
}

fn open_err(bytes: Vec<u8>) -> Error {
    CopcFile::from_reader(&mut MemorySource::new(bytes)).unwrap_err()
}

/// The error of a file in which some bytes were replaced.
fn with_bytes(at: usize, bytes: &[u8]) -> Error {
    let mut file = copc_with_child_hierarchy_page();
    file[at..at + bytes.len()].copy_from_slice(bytes);
    open_err(file)
}

const INFO: usize = 375 + 54;

#[test]
fn damaged_headers_are_refused() {
    assert!(matches!(
        open_err(vec![0; 374]),
        Error::InvalidData(Fault::FileTooShort { len: 374 })
    ));
    assert!(matches!(
        with_bytes(0, b"LASX"),
        Error::InvalidData(Fault::MissingSignature)
    ));
    assert!(matches!(
        with_bytes(6, &[0x10, 0x80]),
        Error::InvalidData(Fault::ReservedEncodingBits { encoding: 0x8010 })
    ));
    assert!(matches!(
        with_bytes(6, &[0, 0]),
        Error::InvalidData(Fault::MissingWktBit)
    ));
    assert!(matches!(
        with_bytes(24, &[1, 3]),
        Error::Unsupported(Fault::LasVersion { major: 1, minor: 3 })
    ));
    assert!(matches!(
        with_bytes(94, &376u16.to_le_bytes()),
        Error::InvalidData(Fault::HeaderSize { size: 376 })
    ));
    assert!(matches!(
        with_bytes(96, &374u32.to_le_bytes()),
        Error::InvalidData(Fault::PointDataBeforeHeader {
            offset: 374,
            size: 375
        })
    ));
    assert!(matches!(
        with_bytes(96, &u32::MAX.to_le_bytes()),
        Error::InvalidData(Fault::PointDataPastEnd {
            offset: u32::MAX,
            ..
        })
    ));
    assert!(matches!(
        with_bytes(104, &[6]),
        Error::InvalidData(Fault::NotCompressed)
    ));
    assert!(matches!(
        with_bytes(104, &[0x89]),
        Error::Unsupported(Fault::PointFormat { id: 9 })
    ));
    assert!(matches!(
        with_bytes(131, &0.0f64.to_le_bytes()),
        Error::InvalidData(Fault::HeaderScale { axis: Axis::X })
    ));
    assert!(matches!(
        with_bytes(163, &f64::NAN.to_le_bytes()),
        Error::InvalidData(Fault::HeaderNotFinite {
            field: HeaderField::OffsetY
        })
    ));
    assert!(matches!(
        with_bytes(211, &(-11.0f64).to_le_bytes()),
        Error::InvalidData(Fault::HeaderBoundsOrder { axis: Axis::Z })
    ));
    assert!(matches!(
        with_bytes(235, &u64::MAX.to_le_bytes()),
        Error::InvalidData(Fault::FirstEvlrPastEnd {
            offset: u64::MAX,
            ..
        })
    ));
}

#[test]
fn damaged_records_are_refused() {
    let file = copc_with_child_hierarchy_page();
    let laszip = INFO + COPC_INFO_BYTES;
    let evlr = read_u64(&file, 235) as usize;
    assert!(matches!(
        with_bytes(375, &[1, 0]),
        Error::InvalidData(Fault::VlrReserved {
            index: 0,
            reserved: 1
        })
    ));
    assert!(matches!(
        with_bytes(377, b"xopc"),
        Error::InvalidData(Fault::MissingInfoVlr)
    ));
    assert!(matches!(
        with_bytes(laszip + 2, b"xaszip encoded"),
        Error::InvalidData(Fault::MissingLaszipVlr)
    ));
    let mut user = [0u8; 18];
    user[..4].copy_from_slice(b"copc");
    user[16] = 1;
    assert!(matches!(
        with_bytes(laszip + 2, &user),
        Error::InvalidData(Fault::DuplicateInfoVlr)
    ));
    assert!(matches!(
        with_bytes(evlr, &[2, 0]),
        Error::InvalidData(Fault::EvlrReserved {
            index: 0,
            reserved: 2
        })
    ));
    assert!(matches!(
        with_bytes(evlr + 2, b"xopc"),
        Error::InvalidData(Fault::MissingHierarchyEvlr)
    ));
    assert!(matches!(
        with_bytes(laszip + 54, &[9, 9]),
        Error::Las(LasTask::LaszipVlr)
    ));
    assert!(matches!(
        with_bytes(375 + 20, &u16::MAX.to_le_bytes()),
        Error::InvalidData(Fault::RangePastEnd {
            label: RangeLabel::VlrData,
            ..
        })
    ));
}

#[test]
fn damaged_hierarchies_are_refused() {
    let file = copc_with_child_hierarchy_page();
    let root = read_u64(&file, INFO + 40) as usize;
    let child = root + 2 * HIERARCHY_ENTRY_BYTES;
    assert!(matches!(
        with_bytes(INFO + 40, &(root as u64 + 1).to_le_bytes()),
        Error::InvalidData(Fault::RootOffsetMismatch { .. })
    ));
    assert!(matches!(
        with_bytes(INFO + 48, &(32u64 * 1000).to_le_bytes()),
        Error::InvalidData(Fault::RootSizeExceedsEvlr { size: 32_000, .. })
    ));
    assert!(matches!(
        with_bytes(INFO + 48, &0u64.to_le_bytes()),
        Error::InvalidData(Fault::PageEmpty)
    ));
    // The root key.
    assert!(matches!(
        with_bytes(root, &(-1i32).to_le_bytes()),
        Error::InvalidData(Fault::NegativeVoxelKey { .. })
    ));
    assert!(matches!(
        with_bytes(root + 4, &1i32.to_le_bytes()),
        Error::InvalidData(Fault::VoxelAxisOutsideLimit { limit: 1, .. })
    ));
    // Its data lies in front of the point data.
    assert!(matches!(
        with_bytes(root + 16, &1u64.to_le_bytes()),
        Error::InvalidData(Fault::PointEntryOutside { offset: 1, .. })
    ));
    // The child page is the root's data.
    let point_data = u64::from_le_bytes(file[root + 16..root + 24].try_into().unwrap());
    assert!(matches!(
        with_bytes(root + 32 + 16, &point_data.to_le_bytes()),
        Error::InvalidData(Fault::ChildPageOutside { .. })
    ));
    // The grandchild has the child's key.
    let key = file[child..child + 16].to_vec();
    assert!(matches!(
        with_bytes(child + 32, &key),
        Error::InvalidData(Fault::DuplicateKey { .. })
    ));
    // One point more than the header declares.
    assert!(matches!(
        with_bytes(root + 28, &6i32.to_le_bytes()),
        Error::InvalidData(Fault::PointTotal {
            total: 13,
            expected: 12
        })
    ));
}

#[test]
fn lazy_readers_refuse_what_they_can_see() {
    let open = |bytes: Vec<u8>| CopcRangeReader::open(MemorySource::new(bytes));
    assert!(open(copc_with_child_hierarchy_page()).is_ok());
    let mut file = copc_with_child_hierarchy_page();
    put_u64(&mut file, 247, 4);
    assert!(matches!(
        open(file).err().unwrap(),
        Error::InvalidData(Fault::PointTotalExceeds { total: 5, limit: 4 })
    ));
    let mut file = copc_with_child_hierarchy_page();
    put_u64(&mut file, INFO + 48, 33);
    assert!(matches!(
        open(file).err().unwrap(),
        Error::InvalidData(Fault::PageNotMultiple { len: 33 })
    ));
    let mut reader = open(copc_with_child_hierarchy_page()).unwrap();
    assert!(matches!(
        reader.fetch_range(2, 1),
        Err(Error::InvalidData(Fault::RangeInverted))
    ));
}

#[test]
fn page_totals_are_limited() {
    let mut limits = HierarchyReadLimits::new();
    let page = 64 * 1024 * 1024;
    for _ in 0..4 {
        limits.add_page(page).unwrap();
    }
    assert_eq!(MAX_HIERARCHY_TOTAL_BYTES, limits.total_bytes);
    assert!(matches!(
        limits.add_page(32),
        Err(Error::InvalidData(Fault::PageTotal { .. }))
    ));
    assert!(matches!(
        limits.add_page(page + 32),
        Err(Error::InvalidData(Fault::PageTooLarge { .. }))
    ));
    assert_eq!(MAX_HIERARCHY_TOTAL_BYTES + 32, limits.total_bytes);
}

/// A record length that is too small shows when points are read.
#[test]
fn short_records_are_refused() {
    let mut bytes = copc_with_child_hierarchy_page();
    put_u16(&mut bytes, 105, 29);
    let file = CopcFile::from_reader(&mut MemorySource::new(bytes)).unwrap();
    assert!(matches!(
        point_format_for(file.header()),
        Err(Error::InvalidData(Fault::RecordLengthTooSmall {
            length: 29,
            id: 6,
            base: 30
        }))
    ));
}

#[test]
fn reads_outside_of_a_source_are_refused() {
    let mut source = MemorySource::new(vec![1, 2, 3]);
    assert_eq!(vec![2, 3], fetch(&mut source, 1, 2).unwrap());
    assert!(matches!(
        fetch(&mut source, 2, 2),
        Err(Error::InvalidData(Fault::ReadPastEnd { offset: 2, len: 2 }))
            | Err(Error::Io { .. })
            | Err(Error::InvalidInput(_))
    ));
}

#[test]
fn chunks_with_wrong_sizes_are_refused() {
    let entry = |byte_size: i32, point_count: i32| Entry {
        key: VoxelKey::root(),
        offset: 10,
        byte_size,
        point_count,
    };
    assert_eq!((3, 4), checked_chunk_sizes(entry(4, 3)).unwrap());
    assert!(matches!(
        checked_chunk_sizes(entry(4, -3)),
        Err(Error::InvalidData(Fault::NegativePointCount {
            point_count: -3,
            ..
        }))
    ));
    assert!(matches!(
        checked_chunk_sizes(entry(-4, 3)),
        Err(Error::InvalidData(Fault::ChunkByteSize { byte_size: -4, .. }))
    ));
    let bytes = [7u8; 6];
    let (part, count) = chunk_slice(&bytes, 8, entry(3, 2)).unwrap();
    assert_eq!((3, 2), (part.len(), count));
    assert!(matches!(
        chunk_slice(&bytes, 8, entry(5, 2)),
        Err(Error::InvalidData(Fault::ChunkOutsideGroup))
    ));
    assert_eq!(5, total_candidate_points(&[entry(4, 3), entry(4, 2)]).unwrap());
    assert!(matches!(
        total_candidate_points(&[entry(4, -1)]),
        Err(Error::InvalidData(Fault::NegativePointCount { .. }))
    ));
}

#[test]
fn queries_are_checked() {
    let info = CopcInfo {
        center: (f(0.0), f(0.0), f(0.0)),
        halfsize: f(1.0),
        spacing: f(1.0),
        root_hier_offset: 0,
        root_hier_size: 32,
        gpstime_min: f(0.0),
        gpstime_max: f(0.0),
    };
    let level = |lod: LodSelection| level_range(lod, &info, 3);
    assert_eq!((0, i32::MAX), level(LodSelection::All).unwrap());
    assert_eq!((2, 3), level(LodSelection::Level(2)).unwrap());
    assert_eq!((1, 4), level(LodSelection::LevelMinMax(1, 4)).unwrap());
    assert_eq!((0, 4), level(LodSelection::Resolution(f(0.125))).unwrap());
    assert!(matches!(
        level(LodSelection::Level(i32::MAX)),
        Err(Error::InvalidInput(Fault::LevelTooLarge { level: i32::MAX }))
    ));
    assert!(matches!(
        level(LodSelection::LevelMinMax(0, -1)),
        Err(Error::InvalidInput(Fault::NegativeLevel { level: -1 }))
    ));
    assert!(matches!(
        level(LodSelection::LevelMinMax(3, 2)),
        Err(Error::InvalidInput(Fault::LevelOrder { min: 3, max: 2 }))
    ));
    assert!(matches!(
        level(LodSelection::Resolution(f(f64::NAN))),
        Err(Error::InvalidInput(Fault::ResolutionInvalid))
    ));
    let mut flat = info;
    flat.spacing = f(0.0);
    assert!(matches!(
        level_range(LodSelection::Resolution(f(1.0)), &flat, 0),
        Err(Error::InvalidData(Fault::SpacingInvalid))
    ));
    let within = |min: (f64, f64, f64), max: (f64, f64, f64)| {
        let bounds = Bounds::new(
            (f(min.0), f(min.1), f(min.2)),
            (f(max.0), f(max.1), f(max.2)),
        );
        validate_query(PointQuery::new(
            LodSelection::All,
            BoundsSelection::Within(bounds),
        ))
    };
    assert!(within((0.0, 0.0, 0.0), (1.0, 1.0, 1.0)).is_ok());
    assert!(matches!(
        within((0.0, f64::INFINITY, 0.0), (1.0, 1.0, 1.0)),
        Err(Error::InvalidInput(Fault::QueryBoundNotFinite {
            axis: Axis::Y,
            ..
        }))
    ));
    assert!(matches!(
        within((0.0, 0.0, 2.0), (1.0, 1.0, 1.0)),
        Err(Error::InvalidInput(Fault::QueryBoundsOrder { axis: Axis::Z }))
    ));
}

#[test]
fn layers_that_cannot_start_are_refused() {
    let payload = laszip_payload(6, 0).unwrap();
    // A chunk of two points with one layer, whose first number is too large for its decoder.
    let mut damaged = vec![0u8; 30 + 4 + 9 * 4];
    damaged[34..38].copy_from_slice(&8u32.to_le_bytes());
    damaged.extend_from_slice(&[0xFF; 8]);
    assert!(matches!(
        decode_chunk(&payload, &damaged, 2),
        Err(Error::InvalidData(Fault::DamagedLayer))
    ));
    // The first point is not in a layer.
    assert_eq!(damaged[..30], decode_chunk(&payload, &damaged, 1).unwrap());
    // The layer is not all there.
    damaged.pop();
    assert!(matches!(
        decode_chunk(&payload, &damaged, 2),
        Err(Error::Io {
            context: "decompress COPC point",
            ..
        })
    ));
}

#[test]
fn payloads_and_chunks_are_checked() {
    let payload = laszip_payload(7, 5).unwrap();
    assert_eq!(41, laszip_record_size(&payload).unwrap());
    let mut format = PointFormat::new(7).unwrap();
    assert!(matches!(
        validated_record_size(&payload, &format),
        Err(Error::InvalidData(Fault::RecordSize {
            item_size: 41,
            record_length: 36
        }))
    ));
    format.extra_bytes = 5;
    assert_eq!(41, validated_record_size(&payload, &format).unwrap());
    assert!(matches!(
        laszip_record_size(&payload[..20]),
        Err(Error::Las(LasTask::LaszipVlr))
    ));
    // Items that are not layered: version 2 of a point 10 item.
    let mut old = payload[..34].to_vec();
    old[32..34].copy_from_slice(&1u16.to_le_bytes());
    old.extend_from_slice(&[6, 0, 20, 0, 2, 0]);
    assert!(matches!(
        laszip_record_size(&old),
        Err(Error::Las(LasTask::LaszipItems))
    ));
    // No items at all.
    old.truncate(34);
    old[32] = 0;
    assert!(matches!(
        laszip_record_size(&old),
        Err(Error::Unsupported(Fault::NotLayered))
    ));
    assert!(matches!(
        decode_chunk(&payload, &[0; 3], 1),
        Err(Error::Io {
            context: "decompress COPC point",
            ..
        })
    ));
    assert!(matches!(
        decode_chunk(&payload, &[], usize::MAX),
        Err(Error::InvalidData(Fault::ChunkRecordCount {
            count: usize::MAX
        }))
    ));
    assert!(matches!(
        chunk_of_stream(&[0; 7]),
        Err(Error::InvalidData(Fault::TruncatedStream))
    ));
    assert!(matches!(
        chunk_of_stream(&[255; 9]),
        Err(Error::InvalidData(Fault::ChunkTableOffset))
    ));
    assert!(matches!(
        chunk_of_stream(&[7, 0, 0, 0, 0, 0, 0, 0]),
        Err(Error::InvalidData(Fault::ChunkTableOutside))
    ));
    assert_eq!(
        vec![5],
        chunk_of_stream(&[9, 0, 0, 0, 0, 0, 0, 0, 5, 6]).unwrap()
    );
}

#[test]
fn columns_with_wrong_declarations_are_refused() {
    let wide = ColumnSpec {
        dimension: LasDimension::X,
        scalar: ScalarType::F64,
        byte_width: Some(8),
    };
    assert!(matches!(
        LasColumnBatch::new(vec![(wide, ColumnData::F64(Vec::new()))]),
        Err(Error::InvalidInput(Fault::ByteWidthOnFixed {
            dimension: LasDimension::X,
            width: 8
        }))
    ));
    assert!(matches!(
        LasColumnBatch::new(vec![(
            ColumnSpec::extra_bytes(2),
            ColumnData::U8(vec![1])
        )]),
        Err(Error::InvalidInput(Fault::ExtraBytesNotDivisible {
            len: 1,
            width: 2
        }))
    ));
    let batch = LasColumnBatch::new(vec![(
        ColumnSpec::new(LasDimension::ScanAngle, ScalarType::I16),
        ColumnData::I16(vec![1]),
    )])
    .unwrap();
    assert!(matches!(
        batch.validate_default_scalars(),
        Err(Error::InvalidInput(Fault::NotDefaultScalar {
            dimension: LasDimension::ScanAngle,
            scalar: ScalarType::I16
        }))
    ));
    assert!(batch
        .column_view_by_spec(ColumnSpec::new(LasDimension::ScanAngle, ScalarType::I16))
        .is_some());
    assert!(batch
        .column_view_by_spec(ColumnSpec::new(LasDimension::ScanAngle, ScalarType::F32))
        .is_none());
}

/// Columns that were read apart and merged are those that were read together.
#[test]
fn merged_columns_stand_behind_each_other() {
    let intensity = ColumnSpec::new(LasDimension::Intensity, ScalarType::U16);
    let user_data = ColumnSpec::new(LasDimension::UserData, ScalarType::U8);
    let mut dst = vec![
        (intensity, ColumnData::U16(vec![1, 2])),
        (user_data, ColumnData::U8(vec![3, 4])),
    ];
    merge_columns(
        &mut dst,
        vec![
            (intensity, ColumnData::U16(vec![5])),
            (user_data, ColumnData::U8(vec![6])),
        ],
    )
    .unwrap();
    assert_eq!(ColumnData::U16(vec![1, 2, 5]), dst[0].1);
    assert_eq!(ColumnData::U8(vec![3, 4, 6]), dst[1].1);
    assert!(matches!(
        merge_columns(&mut dst, Vec::new()),
        Err(Error::InvalidData(Fault::MergeColumnCount {
            found: 0,
            expected: 2
        }))
    ));
    assert!(matches!(
        merge_columns(
            &mut dst,
            vec![
                (user_data, ColumnData::U8(Vec::new())),
                (intensity, ColumnData::U16(Vec::new())),
            ],
        ),
        Err(Error::InvalidData(Fault::MergeColumnSpec { .. }))
    ));
    assert!(matches!(
        merge_columns(
            &mut dst,
            vec![
                (intensity, ColumnData::U8(Vec::new())),
                (user_data, ColumnData::U8(Vec::new())),
            ],
        ),
        Err(Error::InvalidData(Fault::MergeColumnScalar))
    ));
}

fn source_error(columns: Vec<(ColumnSpec, ColumnData)>) -> Error {
    let batch = LasColumnBatch::new(columns).unwrap();
    let error = ColumnBatchSource::new(&batch).err().unwrap();
    error
}

fn place_columns() -> Vec<(ColumnSpec, ColumnData)> {
    let column = |dimension| {
        (
            ColumnSpec::new(dimension, ScalarType::F64),
            ColumnData::F64(vec![f(1.0)]),
        )
    };
    vec![
        column(LasDimension::X),
        column(LasDimension::Y),
        column(LasDimension::Z),
    ]
}

#[test]
fn batches_that_cannot_be_written_are_refused() {
    let mut without_z = place_columns();
    without_z.pop();
    assert!(matches!(
        source_error(without_z),
        Error::InvalidInput(Fault::MissingColumn {
            dimension: LasDimension::Z
        })
    ));
    let mut red = place_columns();
    red.push((
        ColumnSpec::new(LasDimension::Red, ScalarType::U16),
        ColumnData::U16(vec![1]),
    ));
    assert!(matches!(
        source_error(red),
        Error::InvalidInput(Fault::PartialColor)
    ));
    let mut nir = place_columns();
    nir.push((
        ColumnSpec::new(LasDimension::Nir, ScalarType::U16),
        ColumnData::U16(vec![1]),
    ));
    let error = source_error(nir);
    assert!(error.message().contains("NIR point data"), "{}", error.message());
    let mut angle = place_columns();
    angle.push((
        ColumnSpec::new(LasDimension::ScanAngle, ScalarType::I16),
        ColumnData::I16(vec![1]),
    ));
    assert!(matches!(
        source_error(angle),
        Error::InvalidInput(Fault::UnexpectedColumnType {
            dimension: LasDimension::ScanAngle,
            expected: ScalarType::F32,
            found: ScalarType::I16
        }) | Error::InvalidInput(Fault::NotDefaultScalar { .. })
    ));
    let batch = LasColumnBatch::new(place_columns()).unwrap();
    let source = ColumnBatchSource::new(&batch).unwrap();
    assert_eq!(1, source.len());
    assert!(!source.has_color());
    assert_eq!(0, source.extra_byte_width());
    let mut fields = CopcPointFields::default();
    assert!(matches!(
        source.fields_into(1, &mut fields),
        Err(Error::InvalidInput(Fault::BatchIndex { index: 1, len: 1 }))
    ));
    source.fields_into(0, &mut fields).unwrap();
    assert_eq!((f(1.0), f(1.0), f(1.0)), (fields.x, fields.y, fields.z));
}

#[test]
fn write_setups_are_checked() {
    let unit = (f(1.0), f(1.0), f(1.0));
    let zero = (f(0.0), f(0.0), f(0.0));
    let all = (true, true, true);
    let check = |bounds, spans, scale, offset| validate_write_setup(bounds, spans, scale, offset);
    assert!(check(Bounds::new(zero, unit), all, unit, zero).is_ok());
    assert!(matches!(
        check(Bounds::new(unit, zero), all, unit, zero),
        Err(Error::InvalidInput(Fault::BoundsOrder { axis: Axis::X }))
    ));
    assert!(matches!(
        check(Bounds::new(zero, unit), (true, false, true), unit, zero),
        Err(Error::InvalidInput(Fault::SpanNotFinite { axis: Axis::Y }))
    ));
    assert!(matches!(
        check(Bounds::new(zero, unit), all, (f(1.0), f(1.0), f(-1.0)), zero),
        Err(Error::InvalidInput(Fault::ScaleInvalid { axis: Axis::Z }))
    ));
    assert!(matches!(
        check(
            Bounds::new(zero, unit),
            all,
            unit,
            (f(0.0), f(f64::NAN), f(0.0))
        ),
        Err(Error::InvalidInput(Fault::OffsetNotFinite { axis: Axis::Y }))
    ));
}

#[test]
fn points_that_do_not_fit_are_refused() {
    let fits = AxisFit::Fits;
    assert!(validate_xyz_fit(3, (fits, fits, fits)).is_ok());
    assert!(matches!(
        validate_xyz_fit(3, (fits, AxisFit::NotFinite, AxisFit::OutOfRange)),
        Err(Error::InvalidInput(Fault::PointNotEncodable {
            index: 3,
            axis: Axis::Y
        }))
    ));
    assert!(matches!(
        validate_xyz_fit(3, (fits, fits, AxisFit::OutOfRange)),
        Err(Error::InvalidInput(Fault::PointOutOfRange {
            index: 3,
            axis: Axis::Z
        }))
    ));
}

/// The angles that fit are those whose quotient by the step is a 16-bit number.
#[test]
fn scan_angles_fit_sixteen_bits() {
    for angle in [
        0.0f32, 30.25, -30.25, 196.59, 196.60, 196.601, 196.602, 196.608, 196.61, 200.0, -196.60,
        -196.602, -196.607, -196.608, -196.609, -196.61, -200.0,
    ] {
        let scaled = angle / 0.006;
        let expected = scaled >= f32::from(i16::MIN) && scaled <= f32::from(i16::MAX);
        let answer = validate_scan_angle(0, f32_of(angle));
        assert_eq!(expected, answer.is_ok(), "{angle}");
        if !expected {
            assert!(matches!(
                answer,
                Err(Error::InvalidInput(Fault::ScanAngleOutOfRange { index: 0 }))
            ));
        }
    }
    for bits in (0x4344_9000u32..0x4344_A800).chain(0xC344_9000..0xC344_A800) {
        let angle = f32::from_bits(bits);
        let scaled = angle / 0.006;
        let expected = scaled >= f32::from(i16::MIN) && scaled <= f32::from(i16::MAX);
        assert_eq!(
            expected,
            validate_scan_angle(0, F32::from_bits(bits)).is_ok(),
            "{angle}"
        );
    }
    assert!(matches!(
        validate_scan_angle(5, f32_of(f32::NAN)),
        Err(Error::InvalidInput(Fault::ScanAngleNotFinite { index: 5 }))
    ));
}

#[test]
fn statistics_count_returns_and_times() -> Result<()> {
    let mut stats = PointStats::new();
    stats.record(0, f(5.0), 1)?;
    stats.record(1, f(-2.0), 15)?;
    stats.record(2, f(3.0), 0)?;
    assert_eq!(f(-2.0), stats.gpstime_min);
    assert_eq!(f(5.0), stats.gpstime_max);
    assert_eq!(1, stats.extended_return_counts[0]);
    assert_eq!(1, stats.extended_return_counts[14]);
    assert_eq!(2, stats.extended_return_counts.iter().sum::<u64>());
    assert!(matches!(
        stats.record(3, f(f64::INFINITY), 1),
        Err(Error::InvalidInput(Fault::GpsTimeNotFinite { index: 3 }))
    ));
    Ok(())
}

#[test]
fn record_lengths_must_fit() {
    let (format, len) = output_point_format(true, 4).unwrap();
    assert_eq!((Some(7), 40), (format.to_u8(), len));
    assert!(matches!(
        output_point_format(false, u16::MAX),
        Err(Error::InvalidInput(Fault::RecordLengthOverflow {
            extra: u16::MAX
        }))
    ));
}

fn copc_with_child_hierarchy_page() -> Vec<u8> {
    let mut laz_vlr_bytes = Vec::new();
    LazVlrBuilder::default()
        .with_point_format(6, 0)
        .unwrap()
        .with_variable_chunk_size()
        .build()
        .write_to(&mut laz_vlr_bytes)
        .unwrap();

    let offset_to_point_data = u32::from(LAS_HEADER_SIZE_14)
        + (54 + COPC_INFO_BYTES as u32)
        + (54 + laz_vlr_bytes.len() as u32);
    let root_point_offset = u64::from(offset_to_point_data);
    let child_point_offset = root_point_offset + 100;
    let grandchild_point_offset = child_point_offset + 200;
    let evlr_start = grandchild_point_offset + 220;
    let root_hier_offset = evlr_start + 60;
    let root_hier_size = (2 * HIERARCHY_ENTRY_BYTES) as u64;
    let child_page_offset = root_hier_offset + root_hier_size;

    let child_key = VoxelKey::root().child(3).unwrap();
    let grandchild_key = child_key.child(5).unwrap();
    let child_page = HierarchyPage::new(vec![
        Entry {
            key: child_key,
            offset: child_point_offset,
            byte_size: 200,
            point_count: 4,
        },
        Entry {
            key: grandchild_key,
            offset: grandchild_point_offset,
            byte_size: 220,
            point_count: 3,
        },
    ]);
    let child_page_bytes = child_page.write_le_bytes().unwrap();
    let root_page = HierarchyPage::new(vec![
        Entry {
            key: VoxelKey::root(),
            offset: root_point_offset,
            byte_size: 100,
            point_count: 5,
        },
        Entry {
            key: child_key,
            offset: child_page_offset,
            byte_size: child_page_bytes.len() as i32,
            point_count: -1,
        },
    ]);
    let root_page_bytes = root_page.write_le_bytes().unwrap();

    let info = CopcInfo {
        center: (f(0.0), f(0.0), f(0.0)),
        halfsize: f(10.0),
        spacing: f(1.0),
        root_hier_offset,
        root_hier_size,
        gpstime_min: f(0.0),
        gpstime_max: f(0.0),
    };

    let mut out = Vec::new();
    write_las_header(&mut out, offset_to_point_data, evlr_start, 12);
    write_vlr(
        &mut out,
        "copc",
        1,
        &info.write_le_bytes().unwrap(),
        "COPC info",
    );
    write_vlr(
        &mut out,
        "laszip encoded",
        22204,
        &laz_vlr_bytes,
        "http://laszip.org",
    );
    assert_eq!(out.len(), offset_to_point_data as usize);
    out.resize(evlr_start as usize, 0);

    write_evlr_header(
        &mut out,
        "copc",
        1000,
        (root_page_bytes.len() + child_page_bytes.len()) as u64,
        "COPC hierarchy",
    );
    assert_eq!(out.len() as u64, root_hier_offset);
    out.extend_from_slice(&root_page_bytes);
    assert_eq!(out.len() as u64, child_page_offset);
    out.extend_from_slice(&child_page_bytes);
    out
}

fn write_las_header(
    out: &mut Vec<u8>,
    offset_to_point_data: u32,
    evlr_start: u64,
    point_count: u64,
) {
    out.resize(usize::from(LAS_HEADER_SIZE_14), 0);
    out[0..4].copy_from_slice(b"LASF");
    put_u16(out, 6, 0x10);
    out[24] = 1;
    out[25] = 4;
    put_u16(out, 94, LAS_HEADER_SIZE_14);
    put_u32(out, 96, offset_to_point_data);
    put_u32(out, 100, 2);
    out[104] = 6 | 0x80;
    put_u16(out, 105, 30);
    put_f64(out, 131, 0.001);
    put_f64(out, 139, 0.001);
    put_f64(out, 147, 0.001);
    put_f64(out, 155, 0.0);
    put_f64(out, 163, 0.0);
    put_f64(out, 171, 0.0);
    put_f64(out, 179, 10.0);
    put_f64(out, 187, -10.0);
    put_f64(out, 195, 10.0);
    put_f64(out, 203, -10.0);
    put_f64(out, 211, 10.0);
    put_f64(out, 219, -10.0);
    put_u64(out, 235, evlr_start);
    put_u32(out, 243, 1);
    put_u64(out, 247, point_count);
}

fn write_vlr(out: &mut Vec<u8>, user_id: &str, record_id: u16, data: &[u8], desc: &str) {
    out.extend_from_slice(&0u16.to_le_bytes());
    out.extend_from_slice(&padded(user_id.as_bytes(), 16));
    out.extend_from_slice(&record_id.to_le_bytes());
    out.extend_from_slice(&(data.len() as u16).to_le_bytes());
    out.extend_from_slice(&padded(desc.as_bytes(), 32));
    out.extend_from_slice(data);
}

fn write_evlr_header(
    out: &mut Vec<u8>,
    user_id: &str,
    record_id: u16,
    data_len: u64,
    desc: &str,
) {
    out.extend_from_slice(&0u16.to_le_bytes());
    out.extend_from_slice(&padded(user_id.as_bytes(), 16));
    out.extend_from_slice(&record_id.to_le_bytes());
    out.extend_from_slice(&data_len.to_le_bytes());
    out.extend_from_slice(&padded(desc.as_bytes(), 32));
}

fn padded(bytes: &[u8], len: usize) -> Vec<u8> {
    let mut out = vec![0u8; len];
    let count = bytes.len().min(len);
    out[..count].copy_from_slice(&bytes[..count]);
    out
}

fn put_u16(out: &mut [u8], offset: usize, value: u16) {
    out[offset..offset + 2].copy_from_slice(&value.to_le_bytes());
}

fn put_u32(out: &mut [u8], offset: usize, value: u32) {
    out[offset..offset + 4].copy_from_slice(&value.to_le_bytes());
}

fn put_u64(out: &mut [u8], offset: usize, value: u64) {
    out[offset..offset + 8].copy_from_slice(&value.to_le_bytes());
}

fn read_u64(bytes: &[u8], offset: usize) -> u64 {
    u64::from_le_bytes(bytes[offset..offset + 8].try_into().unwrap())
}

fn put_f64(out: &mut [u8], offset: usize, value: f64) {
    out[offset..offset + 8].copy_from_slice(&value.to_le_bytes());
}
