//! Whole files: written, opened, queried and read.

use std::sync::{Arc, Mutex};

use copc::bounds::Bounds;
use copc::cancel::NeverCancel;
use copc::column_read::ColumnRead;
use copc::columns::{ColumnData, ColumnSelection, ColumnSpec, LasColumnBatch, LasDimension};
use copc::date::utc_date_from_unix_days;
use copc::decode::ScaledPoint;
use copc::error::{Error, Fault, Result};
use copc::file::CopcFile;
use copc::float::{F32, F64};
use copc::hierarchy::{Entry, HierarchyPage, VoxelKey};
use copc::info::CopcInfo;
use copc::las_header::LasHeader;
use copc::las_out::Vlr;
use copc::limits::RANGE_COALESCE_GAP_BYTES;
use copc::lod::{build_lod_index, child_octant, LodIndex, MemoryRun, OctantSource};
use copc::metadata::{CopcWriteMetadata, OutputLasMetadata, SourceHeader};
use copc::output::{CopcOutput, NodeEncoder, OutputCube, OutputSetup};
use copc::point_format::{point_format_for, PointFormat};
use copc::query::{
    query_bounds, select_point_chunks_from, BoundsSelection, LodSelection, PointQuery,
};
use copc::range_read::{MemorySource, RangeRead};
use copc::ranged::{chunk_slice, coalesce_chunks, CopcRangeReader};
use copc::reader::{ChunkColumnDecoder, CopcReader, CursorStep, PointCursor};
use copc::source::{record_fields_into, ColumnBatchSource, CopcPointFields, CopcPointSource};
use copc::spill::{check_spill_for_write, spill_record_at, SpillState};
use copc::streaming::{LasPointRecord, StreamingLayout};
use copc::validate::{
    validate_streaming_layout_supported, validate_write_setup, validate_xyz_fit, AxisFit,
    PointPlace, PointStats, PointValidator,
};
use copc::writer::{output_point_format, CopcWriterParams};
use las::point::ScanDirection;

fn f(value: f64) -> F64 {
    F64::from_bits(value.to_bits())
}

fn v(value: F64) -> f64 {
    f64::from_bits(value.bits)
}

fn f32_of(value: f32) -> F32 {
    F32::from_bits(value.to_bits())
}

fn bounds(min: (f64, f64, f64), max: (f64, f64, f64)) -> Bounds {
    Bounds::new((f(min.0), f(min.1), f(min.2)), (f(max.0), f(max.1), f(max.2)))
}

// --- writing ---

struct VecSource {
    points: Vec<CopcPointFields>,
}

impl CopcPointSource for VecSource {
    fn len(&self) -> usize {
        self.points.len()
    }

    fn xyz(&self, index: usize) -> Result<(F64, F64, F64)> {
        let point = &self.points[index];
        Ok((point.x, point.y, point.z))
    }

    fn fields_into(&self, index: usize, out: &mut CopcPointFields) -> Result<()> {
        out.clone_from(&self.points[index]);
        Ok(())
    }

    fn extra_byte_count(&self) -> u16 {
        0
    }

    fn extra_bytes_vlrs(&self) -> &[Vlr] {
        &[]
    }
}

/// The octants that points of a source lie in, of nodes of a cube.
struct Octants<'a, S: CopcPointSource> {
    source: &'a S,
    center: (f64, f64, f64),
    halfsize: f64,
}

impl<S: CopcPointSource> OctantSource for Octants<'_, S> {
    fn octant(&self, index: u32, key: VoxelKey) -> Result<u8> {
        let (x, y, z) = self.source.xyz(index as usize)?;
        let middle = |center: f64, key: i32, level: i32| {
            let (mut min, mut max) = (center - self.halfsize, center + self.halfsize);
            for depth in (0..level).rev() {
                let middle = (min + max) * 0.5;
                if (key >> depth) & 1 == 0 {
                    max = middle;
                } else {
                    min = middle;
                }
            }
            f((min + max) * 0.5)
        };
        let center = (
            middle(self.center.0, key.x, key.level),
            middle(self.center.1, key.y, key.level),
            middle(self.center.2, key.z, key.level),
        );
        Ok(child_octant(center, x, y, z))
    }
}

fn cube_from_bounds(bounds: &Bounds) -> ((f64, f64, f64), f64) {
    let dx = v(bounds.max.0) - v(bounds.min.0);
    let dy = v(bounds.max.1) - v(bounds.min.1);
    let dz = v(bounds.max.2) - v(bounds.min.2);
    let center = (
        v(bounds.min.0) + dx * 0.5,
        v(bounds.min.1) + dy * 0.5,
        v(bounds.min.2) + dz * 0.5,
    );
    let halfsize = (dx.max(dy).max(dz) * 0.5).max(1e-6);
    (center, halfsize)
}

fn quantize_axis(value: F64, scale: F64, offset: F64) -> (AxisFit, i32) {
    let scaled = ((v(value) - v(offset)) / v(scale)).round();
    if !scaled.is_finite() {
        (AxisFit::NotFinite, 0)
    } else if scaled < f64::from(i32::MIN) || scaled > f64::from(i32::MAX) {
        (AxisFit::OutOfRange, 0)
    } else {
        (AxisFit::Fits, scaled as i32)
    }
}

type Xyz = (F64, F64, F64);

fn quantize(xyz: Xyz, scale: Xyz, offset: Xyz) -> ((AxisFit, AxisFit, AxisFit), (i32, i32, i32)) {
    let (fx, x) = quantize_axis(xyz.0, scale.0, offset.0);
    let (fy, y) = quantize_axis(xyz.1, scale.1, offset.1);
    let (fz, z) = quantize_axis(xyz.2, scale.2, offset.2);
    ((fx, fy, fz), (x, y, z))
}

fn scan_angle_to_las_scaled(value: F32) -> i16 {
    (f32::from_bits(value.bits) / 0.006f32).round() as i16
}

/// Writes a file into memory.
fn write_with_metadata<S: CopcPointSource>(
    source: &S,
    has_color: bool,
    bounds: Bounds,
    params: &CopcWriterParams,
    metadata: &OutputLasMetadata,
    intake_stats: Option<PointStats>,
) -> Result<Vec<u8>> {
    if source.is_empty() {
        return Err(Error::InvalidInput(Fault::EmptyCloud));
    }
    params.validate()?;
    let extra = source.extra_byte_count();
    let (_, record_len) = output_point_format(has_color, extra)?;
    let scale = metadata.scale;
    let offset = metadata.offset.unwrap_or(bounds.min);
    let spans = (
        (v(bounds.max.0) - v(bounds.min.0)).is_finite(),
        (v(bounds.max.1) - v(bounds.min.1)).is_finite(),
        (v(bounds.max.2) - v(bounds.min.2)).is_finite(),
    );
    validate_write_setup(bounds, spans, scale, offset)?;
    let mut fields = CopcPointFields::default();
    let stats = match intake_stats {
        Some(stats) => stats,
        None => {
            let mut validator = PointValidator::new(bounds, extra);
            for index in 0..source.len() {
                let xyz = source.xyz(index)?;
                source.fields_into(index, &mut fields)?;
                let place = PointPlace {
                    xyz,
                    xyz_fits: quantize(xyz, scale, offset).0,
                    fields_fits: quantize((fields.x, fields.y, fields.z), scale, offset).0,
                };
                validator.point(&place, &fields)?;
            }
            validator.stats
        }
    };
    let (center, halfsize) = cube_from_bounds(&bounds);
    let octants = Octants {
        source,
        center,
        halfsize,
    };
    let lod: LodIndex<MemoryRun> = build_lod_index(
        &octants,
        source.len(),
        params.max_points_per_node,
        &NeverCancel,
    )?;
    let setup = OutputSetup {
        has_color,
        extra_bytes: extra,
        bounds,
        offset,
        total_points: source.len() as u64,
        stats,
    };
    let (mut output, mut file) = CopcOutput::begin(&setup, metadata, source.extra_bytes_vlrs())?;
    let place_at = file.len();
    file.extend_from_slice(&[0xFF; 8]);
    for node in &lod.nodes {
        let mut encoder = NodeEncoder::new(node.count, usize::from(record_len), has_color)?;
        for place in node.start..node.start + node.count {
            let index = lod.order.indices[place] as usize;
            source.fields_into(index, &mut fields)?;
            let (fits, xyz) = quantize((fields.x, fields.y, fields.z), scale, offset);
            validate_xyz_fit(index, fits)?;
            let angle = scan_angle_to_las_scaled(fields.scan_angle);
            encoder.point(&fields, xyz, angle, index)?;
        }
        let raw = encoder.into_bytes();
        file.extend_from_slice(&output.node(node.key, &raw, node.count)?);
    }
    let end = output.finish(&OutputCube {
        center: (f(center.0), f(center.1), f(center.2)),
        halfsize: f(halfsize),
        spacing: f(halfsize / 128.0),
    })?;
    file.extend_from_slice(&end.table);
    file.extend_from_slice(&end.tail);
    file[..end.head.len()].copy_from_slice(&end.head);
    file[place_at..place_at + 8].copy_from_slice(&end.place);
    Ok(file)
}

fn write_source<S: CopcPointSource>(
    source: &S,
    has_color: bool,
    bounds: Bounds,
    params: &CopcWriterParams,
    metadata: &CopcWriteMetadata,
) -> Result<Vec<u8>> {
    let today = utc_date_from_unix_days(20_644);
    write_with_metadata(
        source,
        has_color,
        bounds,
        params,
        &metadata.to_output(today),
        None,
    )
}

// --- reading ---

fn level_halvings(info: &CopcInfo, lod: LodSelection) -> i64 {
    match lod {
        LodSelection::Resolution(resolution) => {
            (v(info.spacing) / v(resolution)).log2().ceil() as i64
        }
        _ => 0,
    }
}

fn voxel_bounds(key: VoxelKey, info: &CopcInfo) -> Bounds {
    let side = (v(info.halfsize) * 2.0) / 2.0_f64.powi(key.level);
    let low = |center: F64, at: i32| v(center) - v(info.halfsize) + f64::from(at) * side;
    let min = (
        low(info.center.0, key.x),
        low(info.center.1, key.y),
        low(info.center.2, key.z),
    );
    bounds(min, (min.0 + side, min.1 + side, min.2 + side))
}

fn select(entries: &[Entry], info: &CopcInfo, query: PointQuery) -> Result<Vec<Entry>> {
    let nodes: Vec<Bounds> = entries
        .iter()
        .map(|entry| voxel_bounds(entry.key, info))
        .collect();
    select_point_chunks_from(entries, &nodes, info, query, level_halvings(info, query.lod))
}

fn transforms(header: &LasHeader) -> las::Vector<las::Transform> {
    let transform = |scale: F64, offset: F64| las::Transform {
        scale: v(scale),
        offset: v(offset),
    };
    las::Vector {
        x: transform(header.x_scale_factor, header.x_offset),
        y: transform(header.y_scale_factor, header.y_offset),
        z: transform(header.z_scale_factor, header.z_offset),
    }
}

fn las_format(format: &PointFormat) -> las::point::Format {
    let mut las_format = las::point::Format::new(format.to_u8().unwrap()).unwrap();
    las_format.extra_bytes = format.extra_bytes;
    las_format
}

/// The places and angles of the records of a chunk.
fn scaled(records: &[u8], record_size: usize, header: &LasHeader) -> Vec<ScaledPoint> {
    let transforms = transforms(header);
    records
        .chunks(record_size)
        .map(|record| {
            let at = |at: usize| i32::from_le_bytes(record[at..at + 4].try_into().unwrap());
            let angle = i16::from_le_bytes(record[18..20].try_into().unwrap());
            ScaledPoint {
                x: f(transforms.x.direct(at(0))),
                y: f(transforms.y.direct(at(4))),
                z: f(transforms.z.direct(at(8))),
                scan_angle: f32_of(f32::from(angle) * 0.006),
            }
        })
        .collect()
}

fn points_in(records: &[u8], record_size: usize, header: &LasHeader) -> Vec<las::Point> {
    let format = las_format(&point_format_for(header).unwrap());
    let transforms = transforms(header);
    records
        .chunks(record_size)
        .map(|record| {
            let raw = las::raw::Point::read_from(record, &format).unwrap();
            las::Point::new(raw, &transforms)
        })
        .collect()
}

fn open(file: &[u8]) -> CopcReader<MemorySource> {
    CopcReader::open(MemorySource::new(file.to_vec())).unwrap()
}

fn read_columns(file: &[u8], query: PointQuery, selection: ColumnSelection) -> LasColumnBatch {
    let mut reader = open(file);
    let header = *reader.header();
    let entries = reader.file().hierarchy_entries();
    let chunks = select(&entries, reader.copc_info(), query).unwrap();
    let format = point_format_for(&header).unwrap();
    let payload = reader.file().laszip_payload().to_vec();
    let mut read =
        ColumnRead::new(&payload, &format, &selection, query_bounds(query), &chunks).unwrap();
    for entry in chunks {
        let (bytes, count) = reader.read_chunk(entry).unwrap();
        let records = read.records(&bytes, count).unwrap();
        let places = scaled(&records, read.record_size(), &header);
        read.take(&records, &places, &NeverCancel).unwrap();
    }
    let accepted = read.accepted();
    let batch = read.finish();
    assert_eq!(accepted, batch.len());
    batch.validate().unwrap();
    batch
}

fn read_rows(file: &[u8], query: PointQuery) -> Vec<las::Point> {
    let mut reader = open(file);
    let header = *reader.header();
    let entries = reader.file().hierarchy_entries();
    let chunks = select(&entries, reader.copc_info(), query).unwrap();
    let format = point_format_for(&header).unwrap();
    let payload = reader.file().laszip_payload().to_vec();
    let decoder = ChunkColumnDecoder::new(&payload, &format, None).unwrap();
    let mut rows = Vec::new();
    for entry in chunks {
        let (bytes, count) = reader.read_chunk(entry).unwrap();
        let records = decoder.records(&bytes, count).unwrap();
        rows.extend(points_in(&records, decoder.record_size(), &header));
    }
    match query_bounds(query) {
        Some(b) => rows
            .into_iter()
            .filter(|p| b.contains_xyz(f(p.x), f(p.y), f(p.z)))
            .collect(),
        None => rows,
    }
}

fn fields(x: f64, y: f64, z: f64) -> CopcPointFields {
    let mut fields = CopcPointFields::default();
    fields.x = f(x);
    fields.y = f(y);
    fields.z = f(z);
    fields.return_number = 1;
    fields.number_of_returns = 1;
    fields
}

fn source_bounds(points: &[CopcPointFields]) -> Bounds {
    points.iter().fold(
        Bounds::point(points[0].x, points[0].y, points[0].z),
        |mut bounds, point| {
            bounds.extend(point.x, point.y, point.z);
            bounds
        },
    )
}

fn point_fields(x: f64, y: f64, z: f64) -> CopcPointFields {
    fields(x, y, z)
}

fn default_write(source: &VecSource, bounds: Bounds) -> Result<Vec<u8>> {
    write_source(
        source,
        false,
        bounds,
        &CopcWriterParams::default(),
        &CopcWriteMetadata::default(),
    )
}

// --- what a written file holds ---

fn circle() -> Vec<CopcPointFields> {
    let mut points = Vec::new();
    for i in 0..1_000 {
        let t = i as f64 / 1_000.0 * std::f64::consts::TAU;
        let mut point = fields(
            100.0 + 50.0 * t.cos(),
            200.0 + 50.0 * t.sin(),
            10.0 + i as f64 * 0.01,
        );
        point.intensity = i as u16;
        point.classification = 2;
        point.point_source_id = 1;
        point.gps_time = f(1.0e9 + i as f64);
        points.push(point);
    }
    points
}

#[test]
fn writer_output_parses_with_reader_hierarchy() {
    let points = circle();
    let cloud_bounds = source_bounds(&points);
    let source = VecSource { points };
    let bytes = write_source(
        &source,
        false,
        cloud_bounds,
        &CopcWriterParams::new(128),
        &CopcWriteMetadata::default(),
    )
    .unwrap();

    let file = CopcFile::from_reader(&mut MemorySource::new(bytes.clone())).unwrap();
    assert_eq!(file.header().number_of_points, source.len() as u64);
    assert_eq!(file.header().point_data_record_format & 0x7F, 6);
    assert!(file.copc_info().root_hier_size > 0);
    let entries = file.hierarchy_walk();
    assert!(entries.len() > 1);
    assert_eq!(
        entries
            .iter()
            .map(|entry| entry.point_count as usize)
            .sum::<usize>(),
        source.len()
    );

    let all_points = read_rows(&bytes, PointQuery::all());
    assert_eq!(all_points.len(), source.len());
    assert!(all_points
        .iter()
        .any(|point| u8::from(point.classification) == 2));

    let root_points = read_rows(
        &bytes,
        PointQuery::new(LodSelection::Level(0), BoundsSelection::All),
    );
    assert!(!root_points.is_empty());
    assert!(root_points.len() < source.len());

    let query_bounds = bounds((125.0, 150.0, 0.0), (151.0, 251.0, 100.0));
    let bounded_points = read_rows(
        &bytes,
        PointQuery::new(LodSelection::All, BoundsSelection::Within(query_bounds)),
    );
    assert!(!bounded_points.is_empty());
    assert!(bounded_points.len() < all_points.len());
    assert!(bounded_points
        .iter()
        .all(|point| query_bounds.contains_xyz(f(point.x), f(point.y), f(point.z))));
}

fn two_points() -> Vec<CopcPointFields> {
    let first = CopcPointFields {
        x: f(10.125),
        y: f(-20.5),
        z: f(3.25),
        intensity: 123,
        return_number: 1,
        number_of_returns: 3,
        synthetic: 1,
        key_point: 0,
        withheld: 0,
        overlap: 1,
        scan_channel: 2,
        scan_direction_flag: 1,
        edge_of_flight_line: 0,
        classification: 7,
        user_data: 42,
        scan_angle: f32_of(-30.25),
        point_source_id: 77,
        gps_time: f(12345.5),
        red: 1000,
        green: 2000,
        blue: 3000,
        extra_bytes: Vec::new(),
    };
    let second = CopcPointFields {
        x: f(11.0),
        y: f(-19.25),
        z: f(4.75),
        intensity: 456,
        return_number: 2,
        number_of_returns: 3,
        synthetic: 0,
        key_point: 1,
        withheld: 1,
        overlap: 0,
        scan_channel: 1,
        scan_direction_flag: 0,
        edge_of_flight_line: 1,
        classification: 9,
        user_data: 7,
        scan_angle: f32_of(15.5),
        point_source_id: 78,
        gps_time: f(12346.25),
        red: 4000,
        green: 5000,
        blue: 6000,
        extra_bytes: Vec::new(),
    };
    vec![first, second]
}

fn assert_las_points_match_fields(expected: &[CopcPointFields], actual: &[las::Point]) {
    assert_eq!(expected.len(), actual.len());
    for (expected, actual) in expected.iter().zip(actual) {
        assert_eq!(v(expected.x), actual.x);
        assert_eq!(v(expected.y), actual.y);
        assert_eq!(v(expected.z), actual.z);
        assert_eq!(expected.intensity, actual.intensity);
        assert_eq!(expected.return_number, actual.return_number);
        assert_eq!(expected.number_of_returns, actual.number_of_returns);
        assert_eq!(expected.synthetic != 0, actual.is_synthetic);
        assert_eq!(expected.key_point != 0, actual.is_key_point);
        assert_eq!(expected.withheld != 0, actual.is_withheld);
        assert_eq!(expected.overlap != 0, actual.is_overlap);
        assert_eq!(expected.scan_channel, actual.scanner_channel);
        assert_eq!(
            expected.scan_direction_flag != 0,
            actual.scan_direction == ScanDirection::LeftToRight
        );
        assert_eq!(
            expected.edge_of_flight_line != 0,
            actual.is_edge_of_flight_line
        );
        assert_eq!(expected.classification, u8::from(actual.classification));
        assert_eq!(expected.user_data, actual.user_data);
        assert_scan_angle_eq(f32::from_bits(expected.scan_angle.bits), actual.scan_angle);
        assert_eq!(expected.point_source_id, actual.point_source_id);
        assert_eq!(Some(v(expected.gps_time)), actual.gps_time);
        assert_eq!(
            Some(las::Color::new(expected.red, expected.green, expected.blue)),
            actual.color
        );
        assert!(actual.extra_bytes.is_empty());
        assert_eq!(None, actual.nir);
        assert_eq!(None, actual.waveform);
    }
}

fn assert_scan_angle_eq(expected: f32, actual: f32) {
    assert!(
        (expected - actual).abs() <= 0.006,
        "expected scan angle {expected}, got {actual}"
    );
}

/// The fields of points are read as they were written, here and by the `las` crate.
#[test]
fn fields_are_read_by_both_readers() {
    let points = two_points();
    let source = VecSource {
        points: points.clone(),
    };
    let bytes = write_source(
        &source,
        true,
        source_bounds(&points),
        &CopcWriterParams::default(),
        &CopcWriteMetadata::default(),
    )
    .unwrap();

    let copc_points = read_rows(&bytes, PointQuery::all());
    assert_las_points_match_fields(&points, &copc_points);

    let mut las_reader = las::Reader::new(std::io::Cursor::new(bytes)).unwrap();
    assert_eq!(7, las_reader.header().point_format().to_u8().unwrap());
    assert_eq!(points.len() as u64, las_reader.header().number_of_points());
    assert!(las_reader.header().has_wkt_crs());
    let las_points = las_reader
        .read_all()
        .unwrap()
        .points()
        .collect::<las::Result<Vec<_>>>()
        .unwrap();
    assert_las_points_match_fields(&points, &las_points);
}

#[test]
fn writer_emits_gps_time_range_and_return_histogram() {
    let specs = [
        (0.0, 100.0, 1u8),
        (1.0, 75.0, 2u8),
        (2.0, 120.0, 2u8),
        (3.0, 90.0, 15u8),
    ];
    let points: Vec<CopcPointFields> = specs
        .iter()
        .map(|&(x, gps_time, return_number)| {
            let mut point = point_fields(x, x, x);
            point.gps_time = f(gps_time);
            point.return_number = return_number;
            point.number_of_returns = 15;
            point
        })
        .collect();
    let cloud_bounds = source_bounds(&points);
    let source = VecSource { points };

    let bytes = default_write(&source, cloud_bounds).unwrap();

    let reader = open(&bytes);
    assert_eq!(f(75.0), reader.copc_info().gpstime_min);
    assert_eq!(f(120.0), reader.copc_info().gpstime_max);

    let return_counts: Vec<u64> = (0..15)
        .map(|i| {
            let at = 255 + 8 * i;
            u64::from_le_bytes(bytes[at..at + 8].try_into().unwrap())
        })
        .collect();
    assert_eq!(1, return_counts[0]);
    assert_eq!(2, return_counts[1]);
    assert_eq!(1, return_counts[14]);
    assert_eq!(4, return_counts.iter().sum::<u64>());
}

#[test]
fn writer_rejects_non_finite_bounds() {
    let source = VecSource {
        points: vec![point_fields(0.0, 0.0, 0.0)],
    };

    let err = default_write(
        &source,
        bounds((0.0, 0.0, 0.0), (f64::INFINITY, 0.0, 0.0)),
    )
    .unwrap_err();

    assert!(err.message().contains("bounds max x must be finite"));
}

#[test]
fn writer_rejects_non_finite_source_coordinate() {
    let source = VecSource {
        points: vec![point_fields(f64::NAN, 0.0, 0.0)],
    };

    let err = default_write(&source, Bounds::point(f(0.0), f(0.0), f(0.0))).unwrap_err();

    assert!(err
        .message()
        .contains("point 0 x coordinate must be finite"));
}

#[test]
fn writer_rejects_non_finite_gps_time() {
    let mut point = point_fields(0.0, 0.0, 0.0);
    point.gps_time = f(f64::NAN);
    let source = VecSource {
        points: vec![point],
    };

    let err = default_write(&source, Bounds::point(f(0.0), f(0.0), f(0.0))).unwrap_err();

    assert!(err.message().contains("point 0 GPS time must be finite"));
}

type PointMutator = fn(&mut CopcPointFields);

#[test]
fn writer_rejects_out_of_range_point_flag_fields() {
    let cases: [(&str, PointMutator); 9] = [
        ("return_number", |point: &mut CopcPointFields| {
            point.return_number = 16
        }),
        ("number_of_returns", |point: &mut CopcPointFields| {
            point.number_of_returns = 16
        }),
        ("synthetic", |point: &mut CopcPointFields| {
            point.synthetic = 2
        }),
        ("key_point", |point: &mut CopcPointFields| {
            point.key_point = 2
        }),
        ("withheld", |point: &mut CopcPointFields| point.withheld = 2),
        ("overlap", |point: &mut CopcPointFields| point.overlap = 2),
        ("scan_channel", |point: &mut CopcPointFields| {
            point.scan_channel = 4
        }),
        ("scan_direction_flag", |point: &mut CopcPointFields| {
            point.scan_direction_flag = 2
        }),
        ("edge_of_flight_line", |point: &mut CopcPointFields| {
            point.edge_of_flight_line = 2
        }),
    ];
    for (name, mutate) in cases {
        let mut point = point_fields(0.0, 0.0, 0.0);
        mutate(&mut point);
        let source = VecSource {
            points: vec![point],
        };

        let err = default_write(&source, Bounds::point(f(0.0), f(0.0), f(0.0))).unwrap_err();

        assert!(
            err.message().contains(name),
            "expected error to mention {name}, got {}",
            err.message()
        );
    }
}

#[test]
fn writer_rejects_coordinate_outside_las_i32_range() {
    let source = VecSource {
        points: vec![
            point_fields(0.0, 0.0, 0.0),
            point_fields(5_000_000.0, 0.0, 0.0),
        ],
    };

    let err = default_write(
        &source,
        bounds((0.0, 0.0, 0.0), (5_000_000.0, 0.0, 0.0)),
    )
    .unwrap_err();

    assert!(err.message().contains("outside LAS i32 range"));
}

/// A source whose coordinates differ from its fields is refused.
struct Crooked;

impl CopcPointSource for Crooked {
    fn len(&self) -> usize {
        1
    }

    fn xyz(&self, _index: usize) -> Result<(F64, F64, F64)> {
        Ok((f(0.0), f(0.0), f(0.0)))
    }

    fn fields_into(&self, _index: usize, out: &mut CopcPointFields) -> Result<()> {
        *out = fields(1.0, 0.0, 0.0);
        Ok(())
    }

    fn extra_byte_count(&self) -> u16 {
        0
    }

    fn extra_bytes_vlrs(&self) -> &[Vlr] {
        &[]
    }
}

#[test]
fn writer_rejects_fields_at_another_place() {
    let err = write_source(
        &Crooked,
        false,
        bounds((0.0, 0.0, 0.0), (1.0, 1.0, 1.0)),
        &CopcWriterParams::default(),
        &CopcWriteMetadata::default(),
    )
    .unwrap_err();
    assert!(matches!(
        err,
        Error::InvalidInput(Fault::CoordinatesDiffer { index: 0 })
    ));
}

#[test]
fn writer_rejects_points_outside_the_bounds() {
    let source = VecSource {
        points: vec![point_fields(2.0, 0.0, 0.0)],
    };
    let err = default_write(&source, bounds((0.0, 0.0, 0.0), (1.0, 1.0, 1.0))).unwrap_err();
    assert!(err.message().contains("outside"), "{}", err.message());
}

#[test]
fn writer_rejects_empty_clouds_and_budgets() {
    let empty = VecSource { points: Vec::new() };
    assert!(matches!(
        default_write(&empty, bounds((0.0, 0.0, 0.0), (1.0, 1.0, 1.0))),
        Err(Error::InvalidInput(Fault::EmptyCloud))
    ));
    let one = VecSource {
        points: vec![point_fields(0.0, 0.0, 0.0)],
    };
    assert!(matches!(
        write_source(
            &one,
            false,
            bounds((0.0, 0.0, 0.0), (1.0, 1.0, 1.0)),
            &CopcWriterParams::new(0),
            &CopcWriteMetadata::default(),
        ),
        Err(Error::InvalidInput(Fault::ZeroNodeBudget))
    ));
}

#[test]
fn parallel_write_round_trips_multi_chunk_cloud() {
    let mut points = Vec::new();
    for i in 0..20_000u32 {
        let t = f64::from(i);
        let mut point = fields((t * 37.0) % 509.0, (t * 53.0) % 521.0, (t * 71.0) % 127.0);
        point.intensity = (i % 65_536) as u16;
        point.return_number = (i % 4 + 1) as u8;
        point.number_of_returns = 4;
        point.classification = (i % 18) as u8;
        point.gps_time = f(1.0e9 + t * 1e-3);
        point.scan_angle = f32_of(((i % 61) as f32 - 30.0) * 0.006);
        point.point_source_id = (i % 512) as u16;
        points.push(point);
    }
    let cloud_bounds = source_bounds(&points);
    let expected_gps: Vec<f64> = points.iter().map(|point| v(point.gps_time)).collect();
    let source = VecSource { points };

    let bytes = write_source(
        &source,
        false,
        cloud_bounds,
        &CopcWriterParams::new(1_000),
        &CopcWriteMetadata::default(),
    )
    .unwrap();

    // Multiple chunks were emitted, one per octree node.
    let entries = open(&bytes).file().hierarchy_walk();
    assert!(entries.len() > 4, "expected multiple chunks");
    assert_eq!(
        source.len(),
        entries
            .iter()
            .map(|entry| entry.point_count as usize)
            .sum::<usize>()
    );

    // COPC reader sees every point.
    let mut gps: Vec<f64> = read_rows(&bytes, PointQuery::all())
        .into_iter()
        .map(|point| point.gps_time.unwrap())
        .collect();
    gps.sort_by(f64::total_cmp);
    let mut expected = expected_gps.clone();
    expected.sort_by(f64::total_cmp);
    assert_eq!(expected, gps);

    // The chunk table must satisfy a plain LAZ reader doing sequential
    // decompression.
    let mut las_reader = las::Reader::new(std::io::Cursor::new(bytes)).unwrap();
    assert_eq!(source.len() as u64, las_reader.header().number_of_points());
    let mut las_gps: Vec<f64> = las_reader
        .read_all()
        .unwrap()
        .points()
        .map(|point| point.unwrap().gps_time.unwrap())
        .collect();
    las_gps.sort_by(f64::total_cmp);
    assert_eq!(expected, las_gps);
}

// --- columns ---

fn column_grid_points(count: usize) -> Vec<CopcPointFields> {
    (0..count)
        .map(|i| CopcPointFields {
            x: f((i % 31) as f64 - 15.0),
            y: f(((i / 31) % 29) as f64 - 14.0),
            z: f(((i / (31 * 29)) % 23) as f64 - 11.0),
            intensity: (10_000 + i) as u16,
            return_number: ((i % 4) + 1) as u8,
            number_of_returns: 4,
            synthetic: u8::from(i % 11 == 0),
            key_point: u8::from(i % 13 == 0),
            withheld: u8::from(i % 17 == 0),
            overlap: u8::from(i % 19 == 0),
            scan_channel: (i % 4) as u8,
            scan_direction_flag: (i % 2) as u8,
            edge_of_flight_line: u8::from(i % 7 == 0),
            classification: (i % 32) as u8,
            user_data: (i % 251) as u8,
            scan_angle: f32_of((i as f32 % 90.0) - 45.0),
            point_source_id: (i % u16::MAX as usize) as u16,
            gps_time: f(1.0e9 + i as f64 * 0.25),
            red: (i % u16::MAX as usize) as u16,
            green: ((i * 3) % u16::MAX as usize) as u16,
            blue: ((i * 7) % u16::MAX as usize) as u16,
            extra_bytes: Vec::new(),
        })
        .collect()
}

fn column_f64(batch: &LasColumnBatch, dimension: LasDimension) -> Vec<f64> {
    match batch.column(dimension).unwrap() {
        ColumnData::F64(values) => values.iter().map(|value| v(*value)).collect(),
        other => panic!(
            "{dimension:?} column has unexpected type {:?}",
            other.scalar()
        ),
    }
}

fn column_u16(batch: &LasColumnBatch, dimension: LasDimension) -> &[u16] {
    match batch.column(dimension).unwrap() {
        ColumnData::U16(values) => values,
        other => panic!(
            "{dimension:?} column has unexpected type {:?}",
            other.scalar()
        ),
    }
}

fn column_u8(batch: &LasColumnBatch, dimension: LasDimension) -> &[u8] {
    match batch.column(dimension).unwrap() {
        ColumnData::U8(values) => values,
        other => panic!(
            "{dimension:?} column has unexpected type {:?}",
            other.scalar()
        ),
    }
}

#[test]
fn read_columns_matches_synthetic_copc_rows() {
    let points = column_grid_points(1_500);
    let cloud_bounds = source_bounds(&points);
    let source = VecSource { points };
    let bytes = write_source(
        &source,
        true,
        cloud_bounds,
        &CopcWriterParams::new(64),
        &CopcWriteMetadata::default(),
    )
    .unwrap();

    let all_query = PointQuery::all();
    let all_points = read_rows(&bytes, all_query);
    let all_columns = read_columns(&bytes, all_query, ColumnSelection::all());

    assert_eq!(all_columns.len(), all_points.len());
    assert_eq!(
        column_f64(&all_columns, LasDimension::X),
        all_points.iter().map(|point| point.x).collect::<Vec<_>>()
    );
    assert_eq!(
        column_f64(&all_columns, LasDimension::Y),
        all_points.iter().map(|point| point.y).collect::<Vec<_>>()
    );
    assert_eq!(
        column_f64(&all_columns, LasDimension::Z),
        all_points.iter().map(|point| point.z).collect::<Vec<_>>()
    );
    assert_eq!(
        column_u8(&all_columns, LasDimension::Classification),
        all_points
            .iter()
            .map(|point| u8::from(point.classification))
            .collect::<Vec<_>>()
            .as_slice()
    );
    assert_eq!(
        column_u16(&all_columns, LasDimension::Intensity),
        all_points
            .iter()
            .map(|point| point.intensity)
            .collect::<Vec<_>>()
            .as_slice()
    );
    assert_eq!(
        column_u8(&all_columns, LasDimension::ReturnNumber),
        all_points
            .iter()
            .map(|point| point.return_number)
            .collect::<Vec<_>>()
            .as_slice()
    );
    assert_eq!(
        column_f64(&all_columns, LasDimension::GpsTime),
        all_points
            .iter()
            .map(|point| point.gps_time.unwrap_or(0.0))
            .collect::<Vec<_>>()
    );
    assert_eq!(
        column_u16(&all_columns, LasDimension::Red),
        all_points
            .iter()
            .map(|point| point.color.unwrap_or_default().red)
            .collect::<Vec<_>>()
            .as_slice()
    );
    assert_eq!(
        column_u16(&all_columns, LasDimension::Green),
        all_points
            .iter()
            .map(|point| point.color.unwrap_or_default().green)
            .collect::<Vec<_>>()
            .as_slice()
    );
    assert_eq!(
        column_u16(&all_columns, LasDimension::Blue),
        all_points
            .iter()
            .map(|point| point.color.unwrap_or_default().blue)
            .collect::<Vec<_>>()
            .as_slice()
    );

    let selected = read_columns(
        &bytes,
        all_query,
        ColumnSelection::from_dimensions(&[
            LasDimension::X,
            LasDimension::Y,
            LasDimension::Z,
            LasDimension::Classification,
        ]),
    );
    assert_eq!(selected.len(), all_points.len());
    assert_eq!(
        selected
            .columns
            .iter()
            .map(|(spec, _)| spec.dimension)
            .collect::<Vec<_>>(),
        vec![
            LasDimension::X,
            LasDimension::Y,
            LasDimension::Z,
            LasDimension::Classification,
        ]
    );

    let query_bounds = bounds((-4.0, -3.5, -12.0), (5.0, 4.5, -9.0));
    let bounded_query = PointQuery::new(LodSelection::All, BoundsSelection::Within(query_bounds));
    let bounded_points = read_rows(&bytes, bounded_query);
    let bounded_columns = read_columns(&bytes, bounded_query, ColumnSelection::all());
    assert!(!bounded_points.is_empty());
    assert!(bounded_points.len() < all_points.len());
    assert_eq!(bounded_columns.len(), bounded_points.len());
    assert_eq!(
        column_u16(&bounded_columns, LasDimension::Intensity),
        bounded_points
            .iter()
            .map(|point| point.intensity)
            .collect::<Vec<_>>()
            .as_slice()
    );

    let lod_query = PointQuery::new(LodSelection::Level(1), BoundsSelection::All);
    let lod_points = read_rows(&bytes, lod_query);
    let lod_columns = read_columns(&bytes, lod_query, ColumnSelection::all());
    assert!(!lod_points.is_empty());
    assert!(lod_points.len() < all_points.len());
    assert_eq!(lod_columns.len(), lod_points.len());
}

fn column(dimension: LasDimension, data: ColumnData) -> (ColumnSpec, ColumnData) {
    (
        ColumnSpec::default_for(dimension).expect("fixed LAS column spec"),
        data,
    )
}

fn column_batch(count: usize) -> LasColumnBatch {
    let all = |value: fn(usize) -> u8| ColumnData::U8((0..count).map(value).collect());
    let flags = |value: fn(usize) -> bool| ColumnData::Bool((0..count).map(value).collect());
    let shorts = |value: fn(usize) -> u16| ColumnData::U16((0..count).map(value).collect());
    let reals = |value: fn(usize) -> f64| {
        ColumnData::F64((0..count).map(|i| f(value(i))).collect())
    };
    let angles = ColumnData::F32(
        (0..count)
            .map(|i| f32_of(f32::from((i as i16 % 181) - 90)))
            .collect(),
    );
    LasColumnBatch::new(vec![
        column(LasDimension::X, reals(|i| (i % 24) as f64 * 0.5 - 6.0)),
        column(
            LasDimension::Y,
            reals(|i| ((i / 24) % 16) as f64 * 0.25 - 2.0),
        ),
        column(
            LasDimension::Z,
            reals(|i| (i / (24 * 16)) as f64 * 0.125 + 10.0),
        ),
        column(LasDimension::Intensity, shorts(|i| (20_000 + i) as u16)),
        column(LasDimension::ReturnNumber, all(|i| ((i % 4) + 1) as u8)),
        column(LasDimension::NumberOfReturns, all(|_| 4)),
        column(
            LasDimension::Classification,
            all(|i| if i % 2 == 0 { 2 } else { 6 }),
        ),
        column(LasDimension::ScanDirectionFlag, flags(|i| i % 2 == 0)),
        column(LasDimension::EdgeOfFlightLine, flags(|i| i % 5 == 0)),
        column(LasDimension::ScanAngle, angles),
        column(LasDimension::UserData, all(|i| (i % 251) as u8)),
        column(LasDimension::PointSourceId, shorts(|i| (1_000 + i) as u16)),
        column(LasDimension::Synthetic, flags(|i| i % 7 == 0)),
        column(LasDimension::KeyPoint, flags(|i| i % 11 == 0)),
        column(LasDimension::Withheld, flags(|i| i % 13 == 0)),
        column(LasDimension::Overlap, flags(|i| i % 17 == 0)),
        column(LasDimension::ScanChannel, all(|i| (i % 4) as u8)),
        column(LasDimension::GpsTime, reals(|i| 1.0e9 + i as f64 * 0.25)),
        column(LasDimension::Red, shorts(|i| (i * 3) as u16)),
        column(LasDimension::Green, shorts(|i| (i * 5) as u16)),
        column(LasDimension::Blue, shorts(|i| (i * 7) as u16)),
    ])
    .unwrap()
}

#[test]
fn column_batch_source_writes_columns_readable_by_reader() {
    let batch = column_batch(384);
    let source = ColumnBatchSource::new(&batch).unwrap();
    let bytes = write_source(
        &source,
        source.has_color(),
        source.bounds().unwrap(),
        &CopcWriterParams::new(1_024),
        &CopcWriteMetadata::default(),
    )
    .unwrap();

    let roundtripped = read_columns(&bytes, PointQuery::all(), ColumnSelection::all());
    assert_eq!(roundtripped.len(), batch.len());
    for (spec, expected) in &batch.columns {
        let actual = roundtripped
            .column(spec.dimension)
            .unwrap_or_else(|| panic!("missing {:?} column", spec.dimension));
        assert_column_data_eq(spec.dimension, expected, actual);
    }
}

fn assert_column_data_eq(dimension: LasDimension, expected: &ColumnData, actual: &ColumnData) {
    match (expected, actual) {
        (ColumnData::F64(expected), ColumnData::F64(actual)) => {
            assert_eq!(expected.len(), actual.len(), "{dimension:?} length");
            for (index, (&expected, &actual)) in expected.iter().zip(actual).enumerate() {
                assert!(
                    (v(expected) - v(actual)).abs() <= 1e-9,
                    "{dimension:?} differs at row {index}: expected {expected:?}, got {actual:?}"
                );
            }
        }
        (ColumnData::F32(expected), ColumnData::F32(actual)) => {
            // Angles are stored in steps of 0.006 degrees.
            let steps = |values: &[F32]| -> Vec<i16> {
                values.iter().map(|v| scan_angle_to_las_scaled(*v)).collect()
            };
            assert_eq!(steps(expected), steps(actual), "{dimension:?}");
        }
        (expected, actual) => assert_eq!(expected, actual, "{dimension:?}"),
    }
}

#[test]
fn batches_without_coordinates_are_no_source() {
    let batch = LasColumnBatch::new(vec![column(
        LasDimension::Intensity,
        ColumnData::U16(vec![1]),
    )])
    .unwrap();
    assert!(ColumnBatchSource::new(&batch).is_err());
}

// --- queries ---

fn query_grid_points(count: usize) -> Vec<CopcPointFields> {
    column_grid_points(count)
        .into_iter()
        .enumerate()
        .map(|(i, mut point)| {
            point.intensity = (i % u16::MAX as usize) as u16;
            point.scan_angle = f32_of((i as f32 % 180.0) - 90.0);
            point.gps_time = f(1.0e9 + i as f64);
            point.red = 0;
            point.green = 0;
            point.blue = 0;
            point
        })
        .collect()
}

fn hierarchy_point_count(file: &CopcFile, levels: std::ops::Range<i32>) -> usize {
    file.hierarchy_walk()
        .iter()
        .filter(|entry| entry.has_point_data() && levels.contains(&entry.key.level))
        .map(|entry| entry.point_count as usize)
        .sum()
}

fn cursor_for(file: &CopcFile, query: PointQuery) -> Result<PointCursor> {
    let chunks = select(&file.hierarchy_entries(), file.copc_info(), query)?;
    PointCursor::new(chunks, query_bounds(query).is_none())
}

#[test]
fn reader_lod_resolution_bounds_and_size_hints_match_hierarchy() {
    let points = query_grid_points(7_000);
    let cloud_bounds = source_bounds(&points);
    let source = VecSource { points };
    let bytes = write_source(
        &source,
        false,
        cloud_bounds,
        &CopcWriterParams::new(96),
        &CopcWriteMetadata::default(),
    )
    .unwrap();

    let file = CopcFile::from_reader(&mut MemorySource::new(bytes.clone())).unwrap();
    let entries = file.hierarchy_walk();
    assert!(
        entries.iter().any(|entry| entry.key.level >= 2),
        "fixture must subdivide deeply enough to exercise LOD ranges"
    );
    assert_eq!(
        entries
            .iter()
            .filter(|entry| entry.has_point_data())
            .map(|entry| entry.point_count as usize)
            .sum::<usize>(),
        source.len()
    );

    let expected_level_range = hierarchy_point_count(&file, 1..3);
    let query = PointQuery::new(LodSelection::LevelMinMax(1, 3), BoundsSelection::All);
    assert_eq!(
        cursor_for(&file, query).unwrap().size_hint(),
        (expected_level_range, Some(expected_level_range))
    );
    assert_eq!(read_rows(&bytes, query).len(), expected_level_range);

    let expected_resolution = hierarchy_point_count(&file, 0..2);
    let resolution_points = read_rows(
        &bytes,
        PointQuery::new(
            LodSelection::Resolution(f(v(file.copc_info().spacing) / 2.0)),
            BoundsSelection::All,
        ),
    );
    assert_eq!(resolution_points.len(), expected_resolution);

    let query_bounds = bounds((-8.0, -8.0, -4.0), (9.0, 10.0, 5.0));
    let query = PointQuery::new(LodSelection::All, BoundsSelection::Within(query_bounds));
    let (lower, upper) = cursor_for(&file, query).unwrap().size_hint();
    assert_eq!(lower, 0, "bounded reads are not exact-size upfront");
    let bounded_points = read_rows(&bytes, query);
    assert!(!bounded_points.is_empty());
    assert!(bounded_points.len() < source.len());
    assert!(upper.is_some_and(|upper| upper >= bounded_points.len()));
    assert!(bounded_points
        .iter()
        .all(|point| query_bounds.contains_xyz(f(point.x), f(point.y), f(point.z))));

    assert!(cursor_for(
        &file,
        PointQuery::new(LodSelection::Level(-1), BoundsSelection::All)
    )
    .is_err());
    assert!(cursor_for(
        &file,
        PointQuery::new(LodSelection::Resolution(f(0.0)), BoundsSelection::All)
    )
    .is_err());
}

/// A cursor loads each chunk once and hands out each of its points.
#[test]
fn cursors_walk_every_point_of_every_chunk() {
    let points = query_grid_points(300);
    let cloud_bounds = source_bounds(&points);
    let source = VecSource { points };
    let bytes = write_source(
        &source,
        false,
        cloud_bounds,
        &CopcWriterParams::new(96),
        &CopcWriteMetadata::default(),
    )
    .unwrap();
    let reader = open(&bytes);
    let mut cursor = cursor_for(reader.file(), PointQuery::all()).unwrap();
    let mut loaded = Vec::new();
    let mut decoded = 0;
    loop {
        match cursor.step() {
            CursorStep::Load(entry) => loaded.push(entry),
            CursorStep::Decode { .. } => decoded += 1,
            CursorStep::Done => break,
        }
    }
    assert_eq!(300, decoded);
    let mut expected = reader.file().hierarchy_entries();
    expected.sort_by_key(|entry| entry.offset);
    loaded.sort_by_key(|entry| entry.offset);
    assert_eq!(expected, loaded);
    assert_eq!((0, Some(0)), cursor.size_hint());
}

// --- streamed points ---

fn las_record(x: f64, y: f64, z: f64) -> LasPointRecord {
    let mut record = LasPointRecord::default();
    record.x = f(x);
    record.y = f(y);
    record.z = f(z);
    record.return_number = 1;
    record.number_of_returns = 1;
    record
}

/// Points that lie in a spill.
struct SpillSource<'a> {
    data: &'a [u8],
    layout: &'a StreamingLayout,
    count: usize,
}

impl CopcPointSource for SpillSource<'_> {
    fn len(&self) -> usize {
        self.count
    }

    fn xyz(&self, index: usize) -> Result<(F64, F64, F64)> {
        let record = spill_record_at(self.data, self.layout, self.count, index)?;
        Ok((record.x, record.y, record.z))
    }

    fn fields_into(&self, index: usize, out: &mut CopcPointFields) -> Result<()> {
        let record = spill_record_at(self.data, self.layout, self.count, index)?;
        record_fields_into(&record, out);
        Ok(())
    }

    fn extra_byte_count(&self) -> u16 {
        self.layout.extra_bytes
    }

    fn extra_bytes_vlrs(&self) -> &[Vlr] {
        &self.layout.extra_bytes_descriptors
    }
}

fn write_streaming(
    layout: StreamingLayout,
    points: Vec<LasPointRecord>,
    params: &CopcWriterParams,
    metadata: &OutputLasMetadata,
) -> Result<Vec<u8>> {
    validate_streaming_layout_supported(&layout)?;
    let mut state = SpillState::new(layout.clone());
    let mut data = Vec::new();
    for point in &points {
        data.extend_from_slice(&state.encode(point)?);
        state.commit(point);
    }
    check_spill_for_write(params, &layout, points.len())?;
    let source = SpillSource {
        data: &data,
        layout: &layout,
        count: points.len(),
    };
    write_with_metadata(
        &source,
        layout.has_color,
        state.bounds(),
        params,
        metadata,
        Some(state.stats()),
    )
}

fn plain_layout(extra_bytes: u16, descriptors: Vec<Vlr>) -> StreamingLayout {
    StreamingLayout {
        point_format: 6,
        has_gps: true,
        has_color: false,
        has_nir: false,
        has_waveform: false,
        extra_bytes,
        extra_bytes_descriptors: descriptors,
    }
}

#[test]
fn streaming_writer_rejects_unsupported_layout_dimensions() {
    let layout = StreamingLayout {
        point_format: 10,
        has_gps: true,
        has_color: true,
        has_nir: true,
        has_waveform: true,
        extra_bytes: 0,
        extra_bytes_descriptors: Vec::new(),
    };

    let err = write_streaming(
        layout,
        Vec::new(),
        &CopcWriterParams::default(),
        &CopcWriteMetadata::default().to_output((1, 2026)),
    )
    .unwrap_err();

    let message = err.message();
    assert!(message.contains("NIR point data"));
    assert!(message.contains("waveform point data"));
}

#[test]
fn streaming_writer_rejects_non_finite_record_coordinate() {
    let err = write_streaming(
        plain_layout(0, Vec::new()),
        vec![las_record(f64::INFINITY, 0.0, 0.0)],
        &CopcWriterParams::default(),
        &CopcWriteMetadata::default().to_output((1, 2026)),
    )
    .unwrap_err();

    assert!(err
        .message()
        .contains("point 0 x coordinate must be finite"));
}

#[test]
fn streaming_conversion_preserves_fractional_scan_angle_degrees() {
    let mut record = las_record(1.0, 2.0, 3.0);
    record.scan_angle = f32_of(30.25);
    record.gps_time = f(1.0);
    let bytes = write_streaming(
        plain_layout(0, Vec::new()),
        vec![record],
        &CopcWriterParams::new(128),
        &CopcWriteMetadata::default().to_output((1, 2026)),
    )
    .unwrap();

    let points = read_rows(&bytes, PointQuery::all());

    assert_eq!(1, points.len());
    assert_scan_angle_eq(30.25, points[0].scan_angle);
}

fn extra_bytes_descriptor_vlr_data() -> Vec<u8> {
    let mut data = vec![0u8; 192];
    let name = b"extra_u8x";
    data[4..4 + name.len()].copy_from_slice(name);
    let description = b"three raw extra bytes";
    data[160..160 + description.len()].copy_from_slice(description);
    data
}

/// Extra bytes and the record that describes them are found by the `las` crate.
#[test]
fn extra_bytes_are_written_with_their_descriptor() {
    let descriptor = extra_bytes_descriptor_vlr_data();
    let layout = plain_layout(
        3,
        vec![Vlr {
            user_id: "LASF_Spec".to_string(),
            record_id: 4,
            description: "Extra bytes".to_string(),
            data: descriptor.clone(),
        }],
    );
    let expected_extra = vec![0x11, 0x22, 0xFE];
    let mut record = las_record(1.0, 2.0, 3.0);
    record.gps_time = f(1.0);
    record.extra_bytes = expected_extra.clone();
    let bytes = write_streaming(
        layout,
        vec![record],
        &CopcWriterParams::default(),
        &CopcWriteMetadata::default().to_output((1, 2026)),
    )
    .unwrap();

    let batch = read_columns(
        &bytes,
        PointQuery::all(),
        ColumnSelection::from_dimensions(&[LasDimension::ExtraBytes]),
    );
    assert_eq!(
        Some(&ColumnData::U8(expected_extra.clone())),
        batch.column(LasDimension::ExtraBytes)
    );

    let mut reader = las::Reader::new(std::io::Cursor::new(bytes)).unwrap();
    assert_eq!(6, reader.header().point_format().to_u8().unwrap());
    assert_eq!(3, reader.header().point_format().extra_bytes);
    let descriptors: Vec<_> = reader
        .header()
        .vlrs()
        .iter()
        .filter(|vlr| vlr.user_id == "LASF_Spec" && vlr.record_id == 4)
        .collect();
    assert_eq!(1, descriptors.len());
    assert_eq!(descriptor.as_slice(), descriptors[0].data.as_slice());

    let points = reader
        .read_all()
        .unwrap()
        .points()
        .collect::<las::Result<Vec<_>>>()
        .unwrap();
    assert_eq!(1, points.len());
    assert_eq!(expected_extra, points[0].extra_bytes);
}

fn wgs84_wkt_vlr_data() -> Vec<u8> {
    b"GEOGCS[\"WGS 84\",DATUM[\"WGS_1984\",SPHEROID[\"WGS 84\",6378137,298.257223563]],PRIMEM[\"Greenwich\",0],UNIT[\"degree\",0.0174532925199433],AUTHORITY[\"EPSG\",\"4326\"]]\0".to_vec()
}

fn wkt_vlr() -> Vlr {
    Vlr {
        user_id: "LASF_Projection".to_string(),
        record_id: 2112,
        description: "OGC WKT CRS".to_string(),
        data: wgs84_wkt_vlr_data(),
    }
}

fn convert_one_point(vlrs: Vec<Vlr>, evlrs: Vec<Vlr>) -> Vec<u8> {
    let header = SourceHeader {
        gps_standard_time: false,
        synthetic_return_numbers: false,
        file_source_id: 0,
        guid: [0; 16],
        system_identifier: String::new(),
        generating_software: String::new(),
        date: None,
        scale: (f(0.001), f(0.001), f(0.001)),
        offset: (f(0.0), f(0.0), f(0.0)),
        vlrs,
    };
    let metadata = OutputLasMetadata::from_las_header(&header, &evlrs, None, (1, 2026));
    let mut record = las_record(1.0, 2.0, 3.0);
    record.gps_time = f(1.0);
    write_streaming(
        plain_layout(0, Vec::new()),
        vec![record],
        &CopcWriterParams::default(),
        &metadata,
    )
    .unwrap()
}

fn number_of_vlrs(bytes: &[u8]) -> u32 {
    u32::from_le_bytes(bytes[100..104].try_into().unwrap())
}

fn global_encoding(bytes: &[u8]) -> u16 {
    u16::from_le_bytes(bytes[6..8].try_into().unwrap())
}

#[test]
fn streaming_conversion_preserves_wkt_crs_vlr() {
    let bytes = convert_one_point(vec![wkt_vlr()], Vec::new());

    assert_eq!(3, number_of_vlrs(&bytes));
    assert_eq!(16, global_encoding(&bytes) & 16);

    let reader = las::Reader::new(std::io::Cursor::new(bytes)).unwrap();
    assert!(reader.header().has_wkt_crs());
    let crs_records: Vec<_> = reader
        .header()
        .all_vlrs()
        .filter(|vlr| vlr.user_id == "LASF_Projection" && vlr.record_id == 2112)
        .collect();
    assert_eq!(1, crs_records.len());
    assert_eq!(
        wgs84_wkt_vlr_data().as_slice(),
        crs_records[0].data.as_slice()
    );
}

/// All extended records of a file. The header of the `las` crate holds the first one only.
fn all_evlrs(bytes: &[u8]) -> Vec<las::Vlr> {
    let mut cursor = std::io::Cursor::new(bytes);
    let header = las::raw::Header::read_from(&mut cursor).unwrap();
    let place = header.evlr.unwrap();
    cursor.set_position(place.start_of_first_evlr);
    (0..place.number_of_evlrs)
        .map(|_| las::Vlr::new(las::raw::Vlr::read_from(&mut cursor, true).unwrap()))
        .collect()
}

#[test]
fn streaming_conversion_preserves_wkt_crs_evlr() {
    let bytes = convert_one_point(Vec::new(), vec![wkt_vlr()]);

    assert_eq!(2, number_of_vlrs(&bytes));
    assert_eq!(16, global_encoding(&bytes) & 16);

    let reader = las::Reader::new(std::io::Cursor::new(bytes.clone())).unwrap();
    assert!(reader.header().has_wkt_crs());
    let crs_records: Vec<_> = all_evlrs(&bytes)
        .into_iter()
        .filter(|vlr| vlr.user_id == "LASF_Projection" && vlr.record_id == 2112)
        .collect();
    assert_eq!(1, crs_records.len());
    assert_eq!(
        wgs84_wkt_vlr_data().as_slice(),
        crs_records[0].data.as_slice()
    );
}

// --- readers by ranges ---

/// In-memory range source that records every requested range.
#[derive(Clone)]
struct RecordingSource {
    data: Arc<Vec<u8>>,
    requests: Arc<Mutex<Vec<(u64, u64)>>>,
}

impl RecordingSource {
    fn new(data: Vec<u8>) -> Self {
        Self {
            data: Arc::new(data),
            requests: Arc::new(Mutex::new(Vec::new())),
        }
    }

    fn requests(&self) -> Vec<(u64, u64)> {
        self.requests.lock().unwrap().clone()
    }

    fn clear_requests(&self) {
        self.requests.lock().unwrap().clear();
    }
}

impl RangeRead for RecordingSource {
    fn len(&mut self) -> Result<u64> {
        Ok(self.data.len() as u64)
    }

    fn read_range(&mut self, offset: u64, buf: &mut [u8]) -> Result<()> {
        self.requests
            .lock()
            .unwrap()
            .push((offset, buf.len() as u64));
        let start = usize::try_from(offset).unwrap();
        let end = start + buf.len();
        assert!(
            end <= self.data.len(),
            "range {start}..{end} exceeds source length {}",
            self.data.len()
        );
        buf.copy_from_slice(&self.data[start..end]);
        Ok(())
    }
}

fn synthetic_copc_bytes(count: u32) -> Vec<u8> {
    let mut points = Vec::new();
    for i in 0..count {
        let t = f64::from(i);
        let mut point = fields((t * 37.0) % 251.0, (t * 53.0) % 257.0, (t * 71.0) % 63.0);
        point.intensity = (i % 65_536) as u16;
        point.gps_time = f(1.0e9 + t);
        points.push(point);
    }
    let cloud_bounds = source_bounds(&points);
    write_source(
        &VecSource { points },
        false,
        cloud_bounds,
        &CopcWriterParams::new(500),
        &CopcWriteMetadata::default(),
    )
    .unwrap()
}

fn hierarchy_for(
    reader: &mut CopcRangeReader<RecordingSource>,
    query: PointQuery,
) -> Result<Vec<Entry>> {
    let info = *reader.copc_info();
    let halvings = level_halvings(&info, query.lod);
    loop {
        let nodes: Vec<Bounds> = reader
            .pending_pages()
            .iter()
            .map(|entry| voxel_bounds(entry.key, &info))
            .collect();
        if reader.load_matching(query, halvings, &nodes)? == 0 {
            break;
        }
    }
    select(&reader.entries(), &info, query)
}

/// The records of the chunks that a query selects, with one fetch for each group of them.
fn fetch_records(
    reader: &mut CopcRangeReader<RecordingSource>,
    query: PointQuery,
) -> Vec<(Vec<u8>, usize)> {
    let chunks = hierarchy_for(reader, query).unwrap();
    let header = *reader.header();
    let format = point_format_for(&header).unwrap();
    let payload = reader.laszip_payload().to_vec();
    let decoder = ChunkColumnDecoder::new(&payload, &format, query_bounds(query)).unwrap();
    let mut out = Vec::new();
    for group in coalesce_chunks(&chunks, RANGE_COALESCE_GAP_BYTES) {
        let bytes = reader.fetch_range(group.start, group.end).unwrap();
        for entry in &group.entries {
            let (chunk, count) = chunk_slice(&bytes, group.start, *entry).unwrap();
            let records = decoder.records(chunk, count).unwrap();
            out.push((records, decoder.record_size()));
        }
    }
    out
}

fn ranged_points(
    reader: &mut CopcRangeReader<RecordingSource>,
    query: PointQuery,
) -> Vec<las::Point> {
    let header = *reader.header();
    fetch_records(reader, query)
        .iter()
        .flat_map(|(records, size)| points_in(records, *size, &header))
        .filter(|p| match query_bounds(query) {
            Some(b) => b.contains_xyz(f(p.x), f(p.y), f(p.z)),
            None => true,
        })
        .collect()
}

fn ranged_columns(
    reader: &mut CopcRangeReader<RecordingSource>,
    query: PointQuery,
    selection: ColumnSelection,
) -> LasColumnBatch {
    let header = *reader.header();
    let format = point_format_for(&header).unwrap();
    let payload = reader.laszip_payload().to_vec();
    let chunks = hierarchy_for(reader, query).unwrap();
    let mut read =
        ColumnRead::new(&payload, &format, &selection, query_bounds(query), &chunks).unwrap();
    for (records, size) in fetch_records(reader, query) {
        let places = scaled(&records, size, &header);
        read.take(&records, &places, &NeverCancel).unwrap();
    }
    read.finish()
}

#[test]
fn open_fetches_metadata_but_no_point_chunks() {
    let bytes = synthetic_copc_bytes(5_000);
    let source = RecordingSource::new(bytes);
    let handle = source.clone();

    let reader = CopcRangeReader::open(source).unwrap();

    let point_data_start = u64::from(reader.header().offset_to_point_data);
    let hierarchy_start = reader.copc_info().root_hier_offset;
    for (offset, len) in handle.requests() {
        let end = offset + len;
        assert!(
            end <= point_data_start || offset >= hierarchy_start - 60,
            "open fetched point data range {offset}..{end}"
        );
    }
}

#[test]
fn full_read_coalesces_adjacent_chunks_into_one_request() {
    let bytes = synthetic_copc_bytes(5_000);
    let source = RecordingSource::new(bytes);
    let handle = source.clone();
    let mut reader = CopcRangeReader::open(source).unwrap();
    let chunk_count = hierarchy_for(&mut reader, PointQuery::all()).unwrap().len();
    assert!(chunk_count > 1, "fixture should span multiple chunks");
    handle.clear_requests();

    let batch = ranged_columns(&mut reader, PointQuery::all(), ColumnSelection::xyz());

    assert_eq!(5_000, batch.len());
    // Writer chunks are contiguous, so a full read needs one coalesced fetch.
    assert_eq!(1, handle.requests().len());
}

#[test]
fn bounded_query_fetches_fewer_bytes_than_full_read() {
    let bytes = synthetic_copc_bytes(5_000);
    let source = RecordingSource::new(bytes);
    let handle = source.clone();
    let mut reader = CopcRangeReader::open(source).unwrap();
    handle.clear_requests();

    let full_points = ranged_points(&mut reader, PointQuery::all());
    let full_bytes: u64 = handle.requests().iter().map(|(_, len)| len).sum();
    handle.clear_requests();

    let corner = bounds((0.0, 0.0, 0.0), (30.0, 30.0, 63.0));
    let bounded = ranged_points(
        &mut reader,
        PointQuery::new(LodSelection::All, BoundsSelection::Within(corner)),
    );
    let bounded_bytes: u64 = handle.requests().iter().map(|(_, len)| len).sum();

    assert!(!bounded.is_empty());
    assert!(bounded.len() < full_points.len());
    assert!(
        bounded_bytes < full_bytes,
        "bounded query fetched {bounded_bytes} bytes, full read fetched {full_bytes}"
    );
    assert!(bounded
        .iter()
        .all(|point| corner.contains_xyz(f(point.x), f(point.y), f(point.z))));
}

#[test]
fn ranged_reader_matches_seek_reader() {
    let bytes = synthetic_copc_bytes(5_000);

    let mut expected_points = read_rows(&bytes, PointQuery::all());
    let expected_columns = read_columns(&bytes, PointQuery::all(), ColumnSelection::all());

    let mut ranged = CopcRangeReader::open(RecordingSource::new(bytes)).unwrap();
    let mut points = ranged_points(&mut ranged, PointQuery::all());
    let columns = ranged_columns(&mut ranged, PointQuery::all(), ColumnSelection::all());

    let key = |point: &las::Point| (point.gps_time.unwrap().to_bits(), point.intensity);
    expected_points.sort_by_key(key);
    points.sort_by_key(key);
    assert_eq!(expected_points.len(), points.len());
    for (expected, actual) in expected_points.iter().zip(&points) {
        assert_eq!(expected.x, actual.x);
        assert_eq!(expected.y, actual.y);
        assert_eq!(expected.z, actual.z);
        assert_eq!(expected.gps_time, actual.gps_time);
        assert_eq!(expected.intensity, actual.intensity);
    }

    assert_eq!(expected_columns.len(), columns.len());
    assert_sorted_column_eq(&expected_columns, &columns, LasDimension::GpsTime);
    assert_sorted_column_eq(&expected_columns, &columns, LasDimension::X);
}

fn assert_sorted_column_eq(
    expected: &LasColumnBatch,
    actual: &LasColumnBatch,
    dimension: LasDimension,
) {
    let mut expected = column_f64(expected, dimension);
    let mut actual = column_f64(actual, dimension);
    expected.sort_by(f64::total_cmp);
    actual.sort_by(f64::total_cmp);
    assert_eq!(expected, actual);
}

#[test]
fn child_hierarchy_pages_load_lazily_per_query() {
    let (bytes, child_page_offset) = copc_with_child_hierarchy_page();
    let source = RecordingSource::new(bytes);
    let handle = source.clone();
    let mut reader = CopcRangeReader::open(source).unwrap();

    // A root-level query must not touch the child page.
    let root_entries = hierarchy_for(
        &mut reader,
        PointQuery::new(LodSelection::Level(0), BoundsSelection::All),
    )
    .unwrap();
    assert_eq!(1, root_entries.len());
    assert!(
        !handle
            .requests()
            .iter()
            .any(|(offset, _)| *offset == child_page_offset),
        "root-level query fetched the child hierarchy page"
    );

    // A deeper query loads it.
    let all_entries = hierarchy_for(&mut reader, PointQuery::all()).unwrap();
    assert_eq!(3, all_entries.len());
    assert!(handle
        .requests()
        .iter()
        .any(|(offset, _)| *offset == child_page_offset));
}

#[test]
fn no_page_is_fetched_twice() {
    let (bytes, child_page_offset) = copc_with_child_hierarchy_page();
    let source = RecordingSource::new(bytes);
    let handle = source.clone();
    let mut reader = CopcRangeReader::open(source).unwrap();
    let root_page_offset = reader.copc_info().root_hier_offset;
    assert_eq!(Some(&(root_page_offset, 64)), handle.requests().last());
    for _ in 0..2 {
        hierarchy_for(&mut reader, PointQuery::all()).unwrap();
    }
    reader
        .load_page(Entry {
            key: VoxelKey::root().child(3).unwrap(),
            offset: child_page_offset,
            byte_size: 64,
            point_count: -1,
        })
        .unwrap();
    for page in [root_page_offset, child_page_offset] {
        let requests = handle.requests();
        assert_eq!(1, requests.iter().filter(|(at, _)| *at == page).count());
    }
}

#[test]
fn lazy_queries_select_what_the_whole_hierarchy_gives() {
    let (bytes, _) = copc_with_child_hierarchy_page();
    let whole = open(&bytes);
    let entries = whole.file().hierarchy_entries();
    let low = bounds((-9.0, -9.0, -9.0), (-8.0, -8.0, -8.0));
    let high = bounds((1.0, 1.0, -9.0), (2.0, 2.0, -8.0));
    for (part, nodes, pending) in [(low, 1, 1), (high, 2, 0)] {
        let query = PointQuery::new(LodSelection::All, BoundsSelection::Within(part));
        let mut reader = CopcRangeReader::open(RecordingSource::new(bytes.clone())).unwrap();

        let chunks = hierarchy_for(&mut reader, query).unwrap();

        assert_eq!(nodes, chunks.len());
        assert_eq!(pending, reader.pending_pages().len());
        let expected = select(&entries, whole.copc_info(), query).unwrap();
        assert_eq!(expected, chunks);
    }
}

/// Minimal COPC layout with a root page pointing at one child page; point
/// chunks are placeholders (hierarchy queries never decode them).
fn copc_with_child_hierarchy_page() -> (Vec<u8>, u64) {
    let mut laz_vlr_bytes = Vec::new();
    laz::LazVlrBuilder::default()
        .with_point_format(6, 0)
        .unwrap()
        .with_variable_chunk_size()
        .build()
        .write_to(&mut laz_vlr_bytes)
        .unwrap();

    let offset_to_point_data = 375 + (54 + 160) + (54 + laz_vlr_bytes.len() as u32);
    let root_point_offset = u64::from(offset_to_point_data);
    let child_point_offset = root_point_offset + 100;
    let grandchild_point_offset = child_point_offset + 200;
    let evlr_start = grandchild_point_offset + 220;
    let root_hier_offset = evlr_start + 60;
    let root_hier_size = 2 * 32u64;
    let child_page_offset = root_hier_offset + root_hier_size;

    let child_key = VoxelKey::root().child(3).unwrap();
    let grandchild_key = child_key.child(5).unwrap();
    let child_page = HierarchyPage::new(vec![
        Entry {
            key: child_key,
            offset: child_point_offset,
            byte_size: 200,
            point_count: 4,
        },
        Entry {
            key: grandchild_key,
            offset: grandchild_point_offset,
            byte_size: 220,
            point_count: 3,
        },
    ]);
    let child_page_bytes = child_page.write_le_bytes().unwrap();
    let root_page = HierarchyPage::new(vec![
        Entry {
            key: VoxelKey::root(),
            offset: root_point_offset,
            byte_size: 100,
            point_count: 5,
        },
        Entry {
            key: child_key,
            offset: child_page_offset,
            byte_size: child_page_bytes.len() as i32,
            point_count: -1,
        },
    ]);
    let root_page_bytes = root_page.write_le_bytes().unwrap();

    let info = CopcInfo {
        center: (f(0.0), f(0.0), f(0.0)),
        halfsize: f(10.0),
        spacing: f(1.0),
        root_hier_offset,
        root_hier_size,
        gpstime_min: f(0.0),
        gpstime_max: f(0.0),
    };

    let mut out = Vec::new();
    write_las_header(&mut out, offset_to_point_data, evlr_start, 12);
    write_vlr(&mut out, "copc", 1, &info.write_le_bytes().unwrap());
    write_vlr(&mut out, "laszip encoded", 22204, &laz_vlr_bytes);
    assert_eq!(out.len(), offset_to_point_data as usize);
    out.resize(evlr_start as usize, 0);
    write_evlr_header(
        &mut out,
        "copc",
        1000,
        (root_page_bytes.len() + child_page_bytes.len()) as u64,
    );
    assert_eq!(out.len() as u64, root_hier_offset);
    out.extend_from_slice(&root_page_bytes);
    assert_eq!(out.len() as u64, child_page_offset);
    out.extend_from_slice(&child_page_bytes);
    (out, child_page_offset)
}

fn write_las_header(out: &mut Vec<u8>, offset_to_point_data: u32, evlr_start: u64, points: u64) {
    out.resize(375, 0);
    out[0..4].copy_from_slice(b"LASF");
    out[6..8].copy_from_slice(&16u16.to_le_bytes());
    out[24] = 1;
    out[25] = 4;
    out[94..96].copy_from_slice(&375u16.to_le_bytes());
    out[96..100].copy_from_slice(&offset_to_point_data.to_le_bytes());
    out[100..104].copy_from_slice(&2u32.to_le_bytes());
    out[104] = 6 | 0x80;
    out[105..107].copy_from_slice(&30u16.to_le_bytes());
    for (offset, value) in [(131, 0.001f64), (139, 0.001), (147, 0.001)] {
        out[offset..offset + 8].copy_from_slice(&value.to_le_bytes());
    }
    for (offset, value) in [
        (179, 10.0f64),
        (187, -10.0),
        (195, 10.0),
        (203, -10.0),
        (211, 10.0),
        (219, -10.0),
    ] {
        out[offset..offset + 8].copy_from_slice(&value.to_le_bytes());
    }
    out[235..243].copy_from_slice(&evlr_start.to_le_bytes());
    out[243..247].copy_from_slice(&1u32.to_le_bytes());
    out[247..255].copy_from_slice(&points.to_le_bytes());
}

fn write_vlr(out: &mut Vec<u8>, user_id: &str, record_id: u16, data: &[u8]) {
    out.extend_from_slice(&0u16.to_le_bytes());
    out.extend_from_slice(&padded(user_id.as_bytes(), 16));
    out.extend_from_slice(&record_id.to_le_bytes());
    out.extend_from_slice(&(data.len() as u16).to_le_bytes());
    out.extend_from_slice(&padded(b"", 32));
    out.extend_from_slice(data);
}

fn write_evlr_header(out: &mut Vec<u8>, user_id: &str, record_id: u16, data_len: u64) {
    out.extend_from_slice(&0u16.to_le_bytes());
    out.extend_from_slice(&padded(user_id.as_bytes(), 16));
    out.extend_from_slice(&record_id.to_le_bytes());
    out.extend_from_slice(&data_len.to_le_bytes());
    out.extend_from_slice(&padded(b"", 32));
}

fn padded(bytes: &[u8], len: usize) -> Vec<u8> {
    let mut out = vec![0u8; len];
    let count = bytes.len().min(len);
    out[..count].copy_from_slice(&bytes[..count]);
    out
}
