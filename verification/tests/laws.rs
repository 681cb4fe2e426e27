//! What holds of whole groups of calls, on chosen values.

use copc::bounds::Bounds;
use copc::column_read::ColumnRead;
use copc::columns::{ColumnData, ColumnSelection, LasDimension};
use copc::cancel::NeverCancel;
use copc::decode::ScaledPoint;
use copc::encode::encode_point_record;
use copc::error::{Error, Fault};
use copc::float::{F32, F64};
use copc::gps_time::gps_steps_fit;
use copc::hierarchy::{Entry, HierarchyPage, VoxelKey};
use copc::index::HierarchyIndex;
use copc::info::CopcInfo;
use copc::las_header::read_las_header;
use copc::las_out::{regular_las_vlrs_bytes, write_las_evlr, write_las_vlr, OutputHeader, Vlr};
use copc::laszip::{decode_chunk, laszip_record_size};
use copc::laz_out::{chunk_table_bytes, compress_standalone_chunk, laszip_payload};
use copc::metadata::CopcWriteMetadata;
use copc::pages::key_contains;
use copc::point_format::PointFormat;
use copc::query::{page_may_match, select_point_chunks_from, BoundsSelection, LodSelection, PointQuery};
use copc::ranged::coalesce_chunks;
use copc::source::CopcPointFields;
use copc::validate::validate_point_flags;

fn f(value: f64) -> F64 {
    F64::from_bits(value.to_bits())
}

fn f32_of(value: f32) -> F32 {
    F32::from_bits(value.to_bits())
}

fn entry(key: VoxelKey, offset: u64, byte_size: i32, point_count: i32) -> Entry {
    Entry {
        key,
        offset,
        byte_size,
        point_count,
    }
}

#[test]
fn boxes_grow_to_hold_points() {
    let mut bounds = Bounds::point(f(1.0), f(2.0), f(3.0));
    assert!(bounds.contains_xyz(f(1.0), f(2.0), f(3.0)));
    assert!(!bounds.contains_xyz(f(0.0), f(2.0), f(3.0)));
    bounds.extend(f(-1.0), f(5.0), f(3.5));
    assert!(bounds.contains_xyz(f(1.0), f(2.0), f(3.0)));
    assert!(bounds.contains_xyz(f(-1.0), f(5.0), f(3.5)));
    assert!(bounds.contains_xyz(f(0.0), f(3.0), f(3.25)));
    assert_eq!((f(-1.0), f(2.0), f(3.0)), bounds.min);
    assert_eq!((f(1.0), f(5.0), f(3.5)), bounds.max);
    // A number that is none leaves the box as it is, as for `f64::min`.
    let before = bounds;
    bounds.extend(f(f64::NAN), f(f64::NAN), f(f64::NAN));
    assert_eq!(before, bounds);
    assert!(!bounds.contains_xyz(f(f64::NAN), f(3.0), f(3.25)));

    let other = Bounds::new((f(1.0), f(4.0), f(0.0)), (f(9.0), f(9.0), f(9.0)));
    assert!(bounds.intersects(other));
    assert!(other.intersects(bounds));
    let apart = Bounds::new((f(1.5), f(4.0), f(0.0)), (f(9.0), f(9.0), f(9.0)));
    assert!(!bounds.intersects(apart));
}

#[test]
fn numbers_are_ordered_as_their_values() {
    let values = [
        f64::NEG_INFINITY,
        -1.0e300,
        -1.5,
        -f64::MIN_POSITIVE,
        -0.0,
        0.0,
        5e-324,
        1.0,
        1.0e300,
        f64::INFINITY,
        f64::NAN,
    ];
    for a in values {
        assert_eq!(a.is_finite(), f(a).is_finite(), "{a}");
        for b in values {
            assert_eq!(a <= b, f(a).is_at_most(f(b)), "{a} {b}");
            assert_eq!(a == b, f(a) == f(b), "{a} {b}");
        }
    }
}

#[test]
fn keys_are_ordered_level_by_level() {
    let mut keys = vec![
        VoxelKey { level: 1, x: 0, y: 1, z: 0 },
        VoxelKey { level: 0, x: 0, y: 0, z: 0 },
        VoxelKey { level: 1, x: 0, y: 0, z: 1 },
        VoxelKey { level: 2, x: 0, y: 0, z: 0 },
        VoxelKey { level: 1, x: 1, y: 0, z: 0 },
    ];
    let mut index = HierarchyIndex::new();
    for (i, key) in keys.iter().enumerate() {
        index.insert(entry(*key, i as u64, 1, 1));
    }
    let found: Vec<VoxelKey> = index.to_vec().iter().map(|entry| entry.key).collect();
    keys.sort();
    assert_eq!(keys, found);
    assert_eq!(5, index.len());
    assert_eq!(Some(1), index.get(VoxelKey::root()).map(|entry| entry.offset));
    assert!(index.get(VoxelKey { level: 3, x: 0, y: 0, z: 0 }).is_none());
}

#[test]
fn descendants_lie_in_their_ancestors() {
    let key = VoxelKey::root().child(5).unwrap();
    let deep = key.child(2).unwrap().child(7).unwrap();
    assert!(key_contains(key, deep));
    assert!(key_contains(key, key));
    assert!(!key_contains(deep, key));
    assert!(!key_contains(VoxelKey::root().child(4).unwrap(), deep));
}

#[test]
fn pages_with_a_bad_entry_are_refused() {
    let good = entry(VoxelKey::root(), 1, 1, 1);
    let bad = entry(VoxelKey::root(), 1, 0, 1);
    assert!(HierarchyPage::new(vec![good, bad]).write_le_bytes().is_err());
    let mut bytes = HierarchyPage::new(vec![good, good]).write_le_bytes().unwrap();
    bytes[32 + 28] = 0xFE;
    bytes[32 + 29] = 0xFF;
    bytes[32 + 30] = 0xFF;
    bytes[32 + 31] = 0xFF;
    assert!(HierarchyPage::from_le_bytes(&bytes).is_err());
}

fn vlr(len: usize) -> Vlr {
    Vlr {
        user_id: "example".to_string(),
        record_id: 7,
        description: "what it is".to_string(),
        data: vec![9; len],
    }
}

#[test]
fn records_take_the_bytes_that_are_counted() {
    let vlrs = vec![vlr(0), vlr(10), vlr(65_535)];
    let mut out = Vec::new();
    for vlr in &vlrs {
        write_las_vlr(&mut out, vlr).unwrap();
    }
    assert_eq!(out.len(), regular_las_vlrs_bytes(&vlrs).unwrap() as usize);
    assert_eq!(3 * 54 + 10 + 65_535, out.len());
    assert_eq!(b"example\0", &out[2..10]);
    assert_eq!(&7u16.to_le_bytes(), &out[18..20]);
    let mut out = Vec::new();
    assert!(write_las_vlr(&mut out, &vlr(65_536)).is_err());
    assert!(regular_las_vlrs_bytes(&[vlr(65_536)]).is_err());
    let mut out = Vec::new();
    write_las_evlr(&mut out, &vlr(65_536));
    assert_eq!(60 + 65_536, out.len());
    assert_eq!(&65_536u64.to_le_bytes(), &out[20..28]);
}

#[test]
fn metadata_counts_its_coordinate_systems() {
    let mut metadata = CopcWriteMetadata::default();
    metadata.wkt_crs = Some("WKT".to_string());
    let output = metadata.to_output((1, 2026));
    assert_eq!(1, output.regular_crs_vlr_count());
    assert_eq!(54 + 4, output.regular_crs_vlr_bytes().unwrap());
    assert!(output.extended_crs_evlrs().is_empty());
    let long = "x".repeat(70_000);
    metadata.wkt_crs = Some(long);
    let output = metadata.to_output((1, 2026));
    assert!(output.regular_crs_vlr_bytes().is_err() || output.regular_crs_vlr_count() == 0);
}

#[test]
fn headers_are_read_as_they_were_written() {
    let header = OutputHeader {
        point_data_format: 7 | 0x80,
        point_record_length: 36,
        offset_to_point_data: 400,
        number_of_vlrs: 3,
        file_source_id: 11,
        global_encoding: 17,
        guid: [5; 16],
        system_identifier: "system".to_string(),
        generating_software: "software".to_string(),
        creation_day_of_year: 42,
        creation_year: 2026,
        scale: (f(0.01), f(0.02), f(0.03)),
        offset: (f(1.0), f(2.0), f(3.0)),
        bounds: Bounds::new((f(-1.0), f(-2.0), f(-3.0)), (f(4.0), f(5.0), f(6.0))),
        legacy_point_count: 0,
        total_point_count: 77,
        offset_to_first_evlr: 450,
        number_of_evlrs: 1,
        extended_return_counts: [3; 15],
    };
    let mut bytes = Vec::new();
    header.write(&mut bytes);
    assert_eq!(375, bytes.len());
    assert_eq!(b"system\0", &bytes[26..33]);
    assert_eq!(b"software\0", &bytes[58..67]);
    let read = read_las_header(&bytes, 1_000).unwrap();
    assert_eq!(7 | 0x80, read.point_data_record_format);
    assert_eq!(36, read.point_data_record_length);
    assert_eq!(400, read.offset_to_point_data);
    assert_eq!(3, read.number_of_vlrs);
    assert_eq!(f(0.02), read.y_scale_factor);
    assert_eq!(f(3.0), read.z_offset);
    assert_eq!((f(-1.0), f(4.0)), (read.min_x, read.max_x));
    assert_eq!((f(-3.0), f(6.0)), (read.min_z, read.max_z));
    assert_eq!(450, read.offset_to_first_evlr);
    assert_eq!(77, read.number_of_points());
}

/// The payload tells the codec what the records are.
#[test]
fn payloads_describe_the_records() {
    for (format_id, extra, size) in [(6u8, 0u16, 30), (6, 9, 39), (7, 0, 36), (7, 1, 37)] {
        let payload = laszip_payload(format_id, extra).unwrap();
        assert_eq!(size, laszip_record_size(&payload).unwrap());
        let vlr = laz::LazVlr::read_from(payload.as_slice()).unwrap();
        assert_eq!(size as u64, vlr.items_size());
        assert!(vlr.uses_variable_size_chunks());
    }
}

fn some_fields(i: u16) -> CopcPointFields {
    let mut fields = CopcPointFields::default();
    fields.intensity = i;
    fields.return_number = (i % 15) as u8;
    fields.number_of_returns = 15;
    fields.classification = (i % 20) as u8;
    fields.scan_channel = (i % 4) as u8;
    fields.edge_of_flight_line = (i % 2) as u8;
    fields.gps_time = f(f64::from(i) * 0.5 + 1.0);
    fields.red = i;
    fields.green = 2 * i;
    fields.blue = 3 * i;
    fields.extra_bytes = vec![i as u8, 1];
    fields
}

/// Records come out of a chunk as they went in, and their fields out of the records.
#[test]
fn chunks_give_back_their_records() {
    let mut raw = Vec::new();
    let mut scaled = Vec::new();
    for i in 0..500u16 {
        let fields = some_fields(i);
        validate_point_flags(0, &fields).unwrap();
        let mut record = [0u8; 38];
        let at = i32::from(i);
        encode_point_record(&mut record, &fields, (at, -at, 7 * at), 100 - i as i16, 0, true)
            .unwrap();
        raw.extend_from_slice(&record);
        scaled.push(ScaledPoint {
            x: f(f64::from(at)),
            y: f(0.0),
            z: f(0.0),
            scan_angle: f32_of(0.0),
        });
    }
    let payload = laszip_payload(7, 2).unwrap();
    let chunk = compress_standalone_chunk(7, 2, &raw).unwrap();
    assert!(chunk.len() < raw.len());
    assert_ne!(raw, chunk);
    let records = decode_chunk(&payload, &chunk, 500).unwrap();
    assert_eq!(raw, records);

    let mut format = PointFormat::new(7).unwrap();
    format.extra_bytes = 2;
    let selection = ColumnSelection::from_dimensions(&[
        LasDimension::Blue,
        LasDimension::ReturnNumber,
        LasDimension::Classification,
        LasDimension::Overlap,
        LasDimension::ExtraBytes,
    ]);
    let chunks = [entry(VoxelKey::root(), 0, chunk.len() as i32, 500)];
    let mut read = ColumnRead::new(&payload, &format, &selection, None, &chunks).unwrap();
    read.take(&records, &scaled, &NeverCancel).unwrap();
    let batch = read.finish();
    assert_eq!(500, batch.len());
    let numbers: Vec<u8> = (0..500u16).map(|i| (i % 15) as u8).collect();
    assert_eq!(
        Some(&ColumnData::U8(numbers)),
        batch.column(LasDimension::ReturnNumber)
    );
    let blue: Vec<u16> = (0..500).map(|i| 3 * i).collect();
    assert_eq!(Some(&ColumnData::U16(blue)), batch.column(LasDimension::Blue));
    // Class 12 is read as the overlap flag.
    let classes: Vec<u8> = (0..500u16)
        .map(|i| if i % 20 == 12 { 1 } else { (i % 20) as u8 })
        .collect();
    assert_eq!(
        Some(&ColumnData::U8(classes)),
        batch.column(LasDimension::Classification)
    );
    let overlap: Vec<bool> = (0..500).map(|i| i % 20 == 12).collect();
    assert_eq!(
        Some(&ColumnData::Bool(overlap)),
        batch.column(LasDimension::Overlap)
    );
    let extra: Vec<u8> = (0..500u16).flat_map(|i| [i as u8, 1]).collect();
    assert_eq!(
        Some(&ColumnData::U8(extra)),
        batch.column(LasDimension::ExtraBytes)
    );
}

/// A read without columns still counts its points.
#[test]
fn empty_selections_count_points() {
    let payload = laszip_payload(6, 0).unwrap();
    let format = PointFormat::new(6).unwrap();
    let selection = ColumnSelection::from_dimensions(&[]);
    let mut read = ColumnRead::new(&payload, &format, &selection, None, &[]).unwrap();
    let place = ScaledPoint {
        x: f(0.0),
        y: f(0.0),
        z: f(0.0),
        scan_angle: f32_of(0.0),
    };
    read.take(&[0u8; 60], &[place, place], &NeverCancel).unwrap();
    assert_eq!(2, read.accepted());
    let batch = read.finish();
    assert_eq!(2, batch.len());
    assert!(batch.columns.is_empty());
}

/// The table of chunks is the one that the `laz` crate reads.
#[test]
fn chunk_tables_are_read_by_the_codec() {
    let table = chunk_table_bytes(&[10, 20], &[300, 400]).unwrap();
    assert_eq!(2, u32::from_le_bytes(table[4..8].try_into().unwrap()));
    assert_ne!(table, chunk_table_bytes(&[20, 10], &[300, 400]).unwrap());
    assert_eq!(table, chunk_table_bytes(&[10, 20], &[300, 400]).unwrap());
}

#[test]
fn close_chunks_are_fetched_together() {
    let key = VoxelKey::root();
    let chunks = [
        entry(key, 100, 10, 1),
        entry(key, 110, 10, 1),
        entry(key, 125, 5, 1),
        entry(key, 200, 50, 1),
    ];
    let groups = coalesce_chunks(&chunks, 5);
    let spans: Vec<(u64, u64, usize)> = groups
        .iter()
        .map(|group| (group.start, group.end, group.entries.len()))
        .collect();
    assert_eq!(vec![(100, 130, 3), (200, 250, 1)], spans);
    // No more than 64 MiB are fetched at once.
    let large = 40 * 1024 * 1024;
    let chunks = [
        entry(key, 0, large, 1),
        entry(key, large as u64, large, 1),
    ];
    assert_eq!(2, coalesce_chunks(&chunks, 5).len());
}

fn unit_info() -> CopcInfo {
    CopcInfo {
        center: (f(0.5), f(0.5), f(0.5)),
        halfsize: f(0.5),
        spacing: f(0.1),
        root_hier_offset: 0,
        root_hier_size: 32,
        gpstime_min: f(0.0),
        gpstime_max: f(0.0),
    }
}

/// Queries select nodes by level and box, and pages that cannot hold such nodes are skipped.
#[test]
fn queries_select_nodes_by_level_and_box() {
    let info = unit_info();
    let root = VoxelKey::root();
    let low = root.child(0).unwrap();
    let high = root.child(7).unwrap();
    let entries = [
        entry(high, 30, 5, 1),
        entry(root, 10, 5, 1),
        entry(low, 20, 5, 1),
        entry(low.child(0).unwrap(), 40, 0, 0),
    ];
    let cube = |low: f64, high: f64| {
        Bounds::new((f(low), f(low), f(low)), (f(high), f(high), f(high)))
    };
    let boxes = [
        cube(0.5, 1.0),
        cube(0.0, 1.0),
        cube(0.0, 0.5),
        cube(0.0, 0.25),
    ];
    let select = |query| select_point_chunks_from(&entries, &boxes, &info, query, 0).unwrap();
    let offsets = |query| -> Vec<u64> { select(query).iter().map(|e| e.offset).collect() };
    assert_eq!(vec![10, 20, 30], offsets(PointQuery::all()));
    let corner = BoundsSelection::Within(cube(0.8, 0.9));
    assert_eq!(vec![10, 30], offsets(PointQuery::new(LodSelection::All, corner)));
    let query = PointQuery::new(LodSelection::Level(1), corner);
    assert_eq!(vec![30], offsets(query));
    assert!(page_may_match(high, &boxes[0], &info, query, 0).unwrap());
    assert!(!page_may_match(low, &boxes[2], &info, query, 0).unwrap());
    let coarse = PointQuery::new(LodSelection::Level(0), BoundsSelection::All);
    assert!(!page_may_match(high, &boxes[0], &info, coarse, 0).unwrap());
}

/// Records of format 6 with these GPS times and scanner channels.
fn timed_records(times: &[(u64, u8)]) -> Vec<u8> {
    let mut raw = Vec::new();
    for (bits, channel) in times {
        let mut record = vec![0u8; 30];
        record[15] = channel << 4;
        record[22..30].copy_from_slice(&bits.to_le_bytes());
        raw.extend_from_slice(&record);
    }
    raw
}

#[test]
fn gps_times_that_the_codec_cannot_step_over_are_refused() {
    let payload = laszip_payload(6, 0).unwrap();
    let base = 250_000_000.0f64.to_bits();
    let one = 1.0f64.to_bits();
    let kept = |times: &[(u64, u8)]| {
        let raw = timed_records(times);
        assert!(gps_steps_fit(&raw, 30));
        let chunk = compress_standalone_chunk(6, 0, &raw).unwrap();
        assert_eq!(raw, decode_chunk(&payload, &chunk, times.len()).unwrap());
    };
    let refused = |times: &[(u64, u8)]| {
        let raw = timed_records(times);
        assert!(!gps_steps_fit(&raw, 30));
        assert!(matches!(
            compress_standalone_chunk(6, 0, &raw),
            Err(Error::InvalidInput(Fault::GpsTimeSteps))
        ));
    };
    // From one to minus one with a step before: more than a signed number of 64 bits.
    refused(&[(one, 0), (one + 1, 0), ((-1.0f64).to_bits(), 0)]);
    // Without an expected step the difference wraps around, and is coded in full.
    kept(&[(one, 0), ((-1.0f64).to_bits(), 0)]);
    // The steps are of different channels.
    kept(&[(one, 0), (one + 1, 0), (one + 1, 1), ((-1.0f64).to_bits(), 1)]);
    // A step that is 500 times the expected one, which is too large to be multiplied by 500.
    refused(&[(base, 0), (base + 4_296_000, 0), (base + 4_296_000 + 2_147_483_647, 0)]);
    kept(&[(base, 0), (base + 4_294_967, 0), (base + 4_294_967 + 2_147_483_647, 0)]);
    // 499 times is the nearest.
    kept(&[(base, 0), (base + 4_299_900, 0), (base + 4_299_900 + 2_147_483_647, 0)]);
    // Three extreme steps leave the expected one as it is, and the fourth replaces it.
    let mut times = vec![(base, 0), (base + 4_296_000, 0)];
    let mut at = base + 4_296_000;
    for _ in 0..3 {
        at -= 100_000_000;
        times.push((at, 0));
    }
    let far = at + 2_147_483_647;
    refused(&[times.as_slice(), &[(far, 0)]].concat());
    at -= 100_000_000;
    times.push((at, 0));
    kept(&[times.as_slice(), &[(at + 2_147_483_647, 0)]].concat());
    // Random walks of all kinds, over four channels.
    let mut seed = 7u64;
    let mut next = || {
        seed = seed.wrapping_mul(6_364_136_223_846_793_005).wrapping_add(1_442_695_040_888_963_407);
        seed >> 16
    };
    for spread in [12, 24, 32, 34, 40, 48] {
        let mut times = Vec::new();
        let mut at = base;
        for _ in 0..2_000 {
            let step = next() % (1 << spread);
            at = if next() % 3 == 0 { at - step } else { at + step };
            times.push((at, (next() % 4) as u8));
        }
        kept(&times);
    }
    // Steps that are close to where they are rounded up or down, as far as they are taken.
    let mut times = vec![(base, 0)];
    let mut at = base;
    let mut taken = 0;
    for _ in 0..1_500 {
        let step = (4_294_960 + next() % 5_000) as i64;
        let halves = [1, 2, 3, 999, 1000, -1, -19, -20][(next() % 8) as usize];
        let step = step * halves / 2 + (next() % 9) as i64 - 4;
        let to = at.wrapping_add_signed(step);
        times.push((to, 0));
        if gps_steps_fit(&timed_records(&times), 30) {
            at = to;
            taken += 1;
        } else {
            times.pop();
        }
    }
    assert!(taken > 1_000 && taken < 1_500, "{taken}");
    kept(&times);
}
