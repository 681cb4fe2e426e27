//! Opening files: what is found in them, and what is refused.

use copc::file::CopcFile;
use copc::float::F64;
use copc::hierarchy::{Entry, EntryAvailability, HierarchyPage, VoxelKey, HIERARCHY_ENTRY_BYTES};
use copc::info::{CopcInfo, COPC_INFO_BYTES};
use copc::limits::{
    LAS_HEADER_SIZE_14, MAX_EVLR_COUNT, MAX_HIERARCHY_PAGE_BYTES, MAX_VLR_COUNT, VLR_HEADER_BYTES,
};
use copc::range_read::MemorySource;
use laz::LazVlrBuilder;

fn f(value: f64) -> F64 {
    F64::from_bits(value.to_bits())
}

#[test]
fn hierarchy_walk_loads_recursive_child_pages() {
    let mut fixture = MemorySource::new(copc_with_child_hierarchy_page());
    let file = CopcFile::from_reader(&mut fixture).unwrap();
    let child_key = VoxelKey::root().child(3).unwrap();
    let grandchild_key = child_key.child(5).unwrap();

    assert_eq!(file.root_hierarchy().entries().len(), 2);
    assert!(file.root_hierarchy().entries()[1].is_child_page());

    let hierarchy = file.hierarchy();
    assert_eq!(hierarchy.len(), 3);
    assert_eq!(
        hierarchy
            .get(VoxelKey::root())
            .unwrap()
            .availability()
            .unwrap(),
        EntryAvailability::PointData { point_count: 5 }
    );
    assert_eq!(
        hierarchy.get(child_key).unwrap().availability().unwrap(),
        EntryAvailability::PointData { point_count: 4 }
    );
    assert_eq!(
        hierarchy
            .get(grandchild_key)
            .unwrap()
            .availability()
            .unwrap(),
        EntryAvailability::PointData { point_count: 3 }
    );
    assert!(!hierarchy.to_vec().iter().any(|entry| entry.is_child_page()));

    let walk = file.hierarchy_walk();
    assert_eq!(walk.len(), hierarchy.len());
    assert_eq!(walk.iter().map(|entry| entry.point_count).sum::<i32>(), 12);
}

#[test]
fn rejects_excessive_vlr_count_before_allocation() {
    let mut bytes = copc_with_child_hierarchy_page();
    put_u32(&mut bytes, 100, MAX_VLR_COUNT + 1);

    let err = CopcFile::from_reader(&mut MemorySource::new(bytes)).unwrap_err();

    assert!(err.message().contains("VLR count"));
}

#[test]
fn rejects_excessive_evlr_count_before_allocation() {
    let mut bytes = copc_with_child_hierarchy_page();
    put_u32(&mut bytes, 243, MAX_EVLR_COUNT + 1);

    let err = CopcFile::from_reader(&mut MemorySource::new(bytes)).unwrap_err();

    assert!(err.message().contains("EVLR count"));
}

#[test]
fn rejects_oversized_root_hierarchy_page_before_allocation() {
    let mut bytes = copc_with_child_hierarchy_page();
    let copc_info_data = usize::from(LAS_HEADER_SIZE_14) + VLR_HEADER_BYTES as usize;
    put_u64(
        &mut bytes,
        copc_info_data + 48,
        MAX_HIERARCHY_PAGE_BYTES + HIERARCHY_ENTRY_BYTES as u64,
    );

    let err = CopcFile::from_reader(&mut MemorySource::new(bytes)).unwrap_err();

    assert!(err.message().contains("hierarchy page"));
    assert!(err.message().contains("max supported"));
}

#[test]
fn rejects_child_hierarchy_page_outside_file() {
    let mut bytes = copc_with_child_hierarchy_page();
    let copc_info_data = usize::from(LAS_HEADER_SIZE_14) + VLR_HEADER_BYTES as usize;
    let root_hier_offset = read_u64(&bytes, copc_info_data + 40) as usize;
    let child_entry_offset_field = root_hier_offset + HIERARCHY_ENTRY_BYTES + 16;
    let outside_file = bytes.len() as u64 + 1;
    put_u64(&mut bytes, child_entry_offset_field, outside_file);

    let err = CopcFile::from_reader(&mut MemorySource::new(bytes)).unwrap_err();

    assert!(err.message().contains("child hierarchy page"));
    assert!(err.message().contains("exceeds file length"));
}

#[test]
fn rejects_header_offsets_outside_file_before_allocation() {
    for (offset, value, expected) in [
        (94, u64::from(u16::MAX), "LAS header size"),
        (96, 1, "point data offset"),
        (96, u64::MAX, "point data offset"),
        (235, u64::MAX, "first EVLR offset"),
    ] {
        let mut bytes = copc_with_child_hierarchy_page();
        put_int(&mut bytes, offset, value);

        let err = CopcFile::from_reader(&mut MemorySource::new(bytes)).unwrap_err();

        assert!(
            err.message().contains(expected),
            "expected {expected:?}, got {}",
                err.message()
        );
    }
}

#[test]
fn rejects_vlr_and_evlr_lengths_outside_file_before_allocation() {
    let mut bytes = copc_with_child_hierarchy_page();
    let first_vlr_length_field = usize::from(LAS_HEADER_SIZE_14) + 20;
    put_u16(&mut bytes, first_vlr_length_field, u16::MAX);

    let err = CopcFile::from_reader(&mut MemorySource::new(bytes)).unwrap_err();

    assert!(err.message().contains("VLR data"));
    assert!(err.message().contains("exceeds file length"));

    let mut bytes = copc_with_child_hierarchy_page();
    let evlr_start = read_u64(&bytes, 235) as usize;
    let evlr_length_field = evlr_start + 20;
    put_u64(&mut bytes, evlr_length_field, u64::MAX);

    let err = CopcFile::from_reader(&mut MemorySource::new(bytes)).unwrap_err();

    assert!(err.message().contains("EVLR data"));
    assert!(
        err.message().contains("overflow") || err.message().contains("exceeds file length")
    );
}

#[test]
fn rejects_malformed_root_hierarchy_sizes() {
    for (root_hier_size, expected) in [
        (0, "empty"),
        (HIERARCHY_ENTRY_BYTES as u64 - 1, "not a multiple"),
    ] {
        let mut bytes = copc_with_child_hierarchy_page();
        let copc_info_data = usize::from(LAS_HEADER_SIZE_14) + VLR_HEADER_BYTES as usize;
        put_u64(&mut bytes, copc_info_data + 48, root_hier_size);

        let err = CopcFile::from_reader(&mut MemorySource::new(bytes)).unwrap_err();

        assert!(
            err.message().contains(expected),
            "expected {expected:?}, got {}",
                err.message()
        );
    }
}

#[test]
fn rejects_invalid_hierarchy_entry_byte_sizes() {
    let mut bytes = copc_with_child_hierarchy_page();
    let copc_info_data = usize::from(LAS_HEADER_SIZE_14) + VLR_HEADER_BYTES as usize;
    let root_hier_offset = read_u64(&bytes, copc_info_data + 40) as usize;
    put_i32(&mut bytes, root_hier_offset + 24, 0);

    let err = CopcFile::from_reader(&mut MemorySource::new(bytes)).unwrap_err();

    assert!(err.message().contains("point data entry"));
    assert!(err.message().contains("invalid byte size"));

    let mut bytes = copc_with_child_hierarchy_page();
    let root_hier_offset = read_u64(&bytes, copc_info_data + 40) as usize;
    put_i32(&mut bytes, root_hier_offset + HIERARCHY_ENTRY_BYTES + 24, 0);

    let err = CopcFile::from_reader(&mut MemorySource::new(bytes)).unwrap_err();

    assert!(err.message().contains("child hierarchy page"));
    assert!(err.message().contains("invalid byte size"));
}

#[test]
fn deep_child_page_chain_loads_without_stack_overflow() {
    // 200k chained pages would overflow the stack under recursive loading.
    let depth = 200_000;
    let mut fixture = MemorySource::new(copc_with_deep_child_page_chain(depth));

    let file = CopcFile::from_reader(&mut fixture).unwrap();

    assert_eq!(file.hierarchy().len(), depth);
}

#[test]
fn rejects_hierarchy_point_total_exceeding_header_count() {
    // Entries sum to 12 points; lower the header count to 11.
    let mut bytes = copc_with_child_hierarchy_page();
    put_u64(&mut bytes, 247, 11);

    let err = CopcFile::from_reader(&mut MemorySource::new(bytes)).unwrap_err();

    assert!(err.message().contains("hierarchy point total"));
}

#[test]
fn rejects_overlapping_point_chunks() {
    let mut bytes = copc_with_child_hierarchy_page();
    let copc_info_data = usize::from(LAS_HEADER_SIZE_14) + VLR_HEADER_BYTES as usize;
    let root_hier_offset = read_u64(&bytes, copc_info_data + 40) as usize;
    let root_point_offset = read_u64(&bytes, root_hier_offset + 16);
    let child_page_offset =
        read_u64(&bytes, root_hier_offset + HIERARCHY_ENTRY_BYTES + 16) as usize;
    put_u64(&mut bytes, child_page_offset + 16, root_point_offset + 50);

    let err = CopcFile::from_reader(&mut MemorySource::new(bytes)).unwrap_err();

    assert!(err.message().contains("point chunks"));
    assert!(err.message().contains("overlap"));
}

#[test]
fn rejects_huge_claimed_point_count_before_allocation() {
    let mut bytes = copc_with_child_hierarchy_page();
    let copc_info_data = usize::from(LAS_HEADER_SIZE_14) + VLR_HEADER_BYTES as usize;
    let root_hier_offset = read_u64(&bytes, copc_info_data + 40) as usize;
    put_i32(&mut bytes, root_hier_offset + 28, i32::MAX);

    let err = CopcFile::from_reader(&mut MemorySource::new(bytes)).unwrap_err();

    assert!(err.message().contains("hierarchy point total"));
}

#[test]
fn truncated_inputs_fail_without_panicking() {
    let bytes = copc_with_child_hierarchy_page();
    for len in [
        0,
        1,
        4,
        128,
        usize::from(LAS_HEADER_SIZE_14) - 1,
        usize::from(LAS_HEADER_SIZE_14),
        bytes.len() / 2,
        bytes.len() - 1,
    ] {
        let truncated = bytes[..len].to_vec();

        let err = CopcFile::from_reader(&mut MemorySource::new(truncated)).unwrap_err();

        assert!(
            !err.message().is_empty(),
            "truncated input length {len} produced an empty error"
        );
    }
}

fn copc_with_child_hierarchy_page() -> Vec<u8> {
    let mut laz_vlr_bytes = Vec::new();
    LazVlrBuilder::default()
        .with_point_format(6, 0)
        .unwrap()
        .with_variable_chunk_size()
        .build()
        .write_to(&mut laz_vlr_bytes)
        .unwrap();

    let offset_to_point_data = u32::from(LAS_HEADER_SIZE_14)
        + (54 + COPC_INFO_BYTES as u32)
        + (54 + laz_vlr_bytes.len() as u32);
    let root_point_offset = u64::from(offset_to_point_data);
    let child_point_offset = root_point_offset + 100;
    let grandchild_point_offset = child_point_offset + 200;
    let evlr_start = grandchild_point_offset + 220;
    let root_hier_offset = evlr_start + 60;
    let root_hier_size = (2 * HIERARCHY_ENTRY_BYTES) as u64;
    let child_page_offset = root_hier_offset + root_hier_size;

    let child_key = VoxelKey::root().child(3).unwrap();
    let grandchild_key = child_key.child(5).unwrap();
    let child_page = HierarchyPage::new(vec![
        Entry {
            key: child_key,
            offset: child_point_offset,
            byte_size: 200,
            point_count: 4,
        },
        Entry {
            key: grandchild_key,
            offset: grandchild_point_offset,
            byte_size: 220,
            point_count: 3,
        },
    ]);
    let child_page_bytes = child_page.write_le_bytes().unwrap();
    let root_page = HierarchyPage::new(vec![
        Entry {
            key: VoxelKey::root(),
            offset: root_point_offset,
            byte_size: 100,
            point_count: 5,
        },
        Entry {
            key: child_key,
            offset: child_page_offset,
            byte_size: child_page_bytes.len() as i32,
            point_count: -1,
        },
    ]);
    let root_page_bytes = root_page.write_le_bytes().unwrap();

    let info = CopcInfo {
        center: (f(0.0), f(0.0), f(0.0)),
        halfsize: f(10.0),
        spacing: f(1.0),
        root_hier_offset,
        root_hier_size,
        gpstime_min: f(0.0),
        gpstime_max: f(0.0),
    };

    let mut out = Vec::new();
    write_las_header(&mut out, offset_to_point_data, evlr_start, 12);
    write_vlr(
        &mut out,
        "copc",
        1,
        &info.write_le_bytes().unwrap(),
        "COPC info",
    );
    write_vlr(
        &mut out,
        "laszip encoded",
        22204,
        &laz_vlr_bytes,
        "http://laszip.org",
    );
    assert_eq!(out.len(), offset_to_point_data as usize);
    out.resize(evlr_start as usize, 0);

    write_evlr_header(
        &mut out,
        "copc",
        1000,
        (root_page_bytes.len() + child_page_bytes.len()) as u64,
        "COPC hierarchy",
    );
    assert_eq!(out.len() as u64, root_hier_offset);
    out.extend_from_slice(&root_page_bytes);
    assert_eq!(out.len() as u64, child_page_offset);
    out.extend_from_slice(&child_page_bytes);
    out
}

/// A COPC file whose hierarchy is a linear chain of `depth` single-entry
/// pages, each pointing at the next; the final page holds one empty entry.
fn copc_with_deep_child_page_chain(depth: usize) -> Vec<u8> {
    assert!(depth >= 2);
    let mut laz_vlr_bytes = Vec::new();
    LazVlrBuilder::default()
        .with_point_format(6, 0)
        .unwrap()
        .with_variable_chunk_size()
        .build()
        .write_to(&mut laz_vlr_bytes)
        .unwrap();

    let offset_to_point_data = u32::from(LAS_HEADER_SIZE_14)
        + (54 + COPC_INFO_BYTES as u32)
        + (54 + laz_vlr_bytes.len() as u32);
    let evlr_start = u64::from(offset_to_point_data);
    let root_hier_offset = evlr_start + 60;
    let page_offset = |page: usize| root_hier_offset + (page * HIERARCHY_ENTRY_BYTES) as u64;

    let info = CopcInfo {
        center: (f(0.0), f(0.0), f(0.0)),
        halfsize: f(10.0),
        spacing: f(1.0),
        root_hier_offset,
        root_hier_size: HIERARCHY_ENTRY_BYTES as u64,
        gpstime_min: f(0.0),
        gpstime_max: f(0.0),
    };

    let mut out = Vec::new();
    write_las_header(&mut out, offset_to_point_data, evlr_start, 0);
    write_vlr(
        &mut out,
        "copc",
        1,
        &info.write_le_bytes().unwrap(),
        "COPC info",
    );
    write_vlr(
        &mut out,
        "laszip encoded",
        22204,
        &laz_vlr_bytes,
        "http://laszip.org",
    );
    assert_eq!(out.len(), offset_to_point_data as usize);
    write_evlr_header(
        &mut out,
        "copc",
        1000,
        (depth * HIERARCHY_ENTRY_BYTES) as u64,
        "COPC hierarchy",
    );
    assert_eq!(out.len() as u64, root_hier_offset);
    for page in 0..depth {
        let entry = if page + 1 < depth {
            Entry {
                key: VoxelKey {
                    level: (page + 1) as i32,
                    x: 0,
                    y: 0,
                    z: 0,
                },
                offset: page_offset(page + 1),
                byte_size: HIERARCHY_ENTRY_BYTES as i32,
                point_count: -1,
            }
        } else {
            Entry {
                key: VoxelKey {
                    level: depth as i32,
                    x: 0,
                    y: 0,
                    z: 0,
                },
                offset: 0,
                byte_size: 0,
                point_count: 0,
            }
        };
        let mut entry_bytes = [0u8; HIERARCHY_ENTRY_BYTES];
        entry.write_le(&mut entry_bytes).unwrap();
        out.extend_from_slice(&entry_bytes);
    }
    out
}

fn write_las_header(
    out: &mut Vec<u8>,
    offset_to_point_data: u32,
    evlr_start: u64,
    point_count: u64,
) {
    out.resize(usize::from(LAS_HEADER_SIZE_14), 0);
    out[0..4].copy_from_slice(b"LASF");
    put_u16(out, 6, 0x10);
    out[24] = 1;
    out[25] = 4;
    put_u16(out, 94, LAS_HEADER_SIZE_14);
    put_u32(out, 96, offset_to_point_data);
    put_u32(out, 100, 2);
    out[104] = 6 | 0x80;
    put_u16(out, 105, 30);
    put_f64(out, 131, 0.001);
    put_f64(out, 139, 0.001);
    put_f64(out, 147, 0.001);
    put_f64(out, 155, 0.0);
    put_f64(out, 163, 0.0);
    put_f64(out, 171, 0.0);
    put_f64(out, 179, 10.0);
    put_f64(out, 187, -10.0);
    put_f64(out, 195, 10.0);
    put_f64(out, 203, -10.0);
    put_f64(out, 211, 10.0);
    put_f64(out, 219, -10.0);
    put_u64(out, 235, evlr_start);
    put_u32(out, 243, 1);
    put_u64(out, 247, point_count);
}

fn write_vlr(out: &mut Vec<u8>, user_id: &str, record_id: u16, data: &[u8], desc: &str) {
    out.extend_from_slice(&0u16.to_le_bytes());
    out.extend_from_slice(&padded(user_id.as_bytes(), 16));
    out.extend_from_slice(&record_id.to_le_bytes());
    out.extend_from_slice(&(data.len() as u16).to_le_bytes());
    out.extend_from_slice(&padded(desc.as_bytes(), 32));
    out.extend_from_slice(data);
}

fn write_evlr_header(
    out: &mut Vec<u8>,
    user_id: &str,
    record_id: u16,
    data_len: u64,
    desc: &str,
) {
    out.extend_from_slice(&0u16.to_le_bytes());
    out.extend_from_slice(&padded(user_id.as_bytes(), 16));
    out.extend_from_slice(&record_id.to_le_bytes());
    out.extend_from_slice(&data_len.to_le_bytes());
    out.extend_from_slice(&padded(desc.as_bytes(), 32));
}

fn padded(bytes: &[u8], len: usize) -> Vec<u8> {
    let mut out = vec![0u8; len];
    let count = bytes.len().min(len);
    out[..count].copy_from_slice(&bytes[..count]);
    out
}

fn put_u16(out: &mut [u8], offset: usize, value: u16) {
    out[offset..offset + 2].copy_from_slice(&value.to_le_bytes());
}

fn put_u32(out: &mut [u8], offset: usize, value: u32) {
    out[offset..offset + 4].copy_from_slice(&value.to_le_bytes());
}

fn put_u64(out: &mut [u8], offset: usize, value: u64) {
    out[offset..offset + 8].copy_from_slice(&value.to_le_bytes());
}

fn put_i32(out: &mut [u8], offset: usize, value: i32) {
    out[offset..offset + 4].copy_from_slice(&value.to_le_bytes());
}

fn put_int(out: &mut [u8], offset: usize, value: u64) {
    match offset {
        94 => put_u16(out, offset, value as u16),
        96 => put_u32(out, offset, value as u32),
        235 => put_u64(out, offset, value),
        _ => unreachable!("unexpected integer offset"),
    }
}

fn read_u64(bytes: &[u8], offset: usize) -> u64 {
    u64::from_le_bytes(bytes[offset..offset + 8].try_into().unwrap())
}

fn put_f64(out: &mut [u8], offset: usize, value: f64) {
    out[offset..offset + 8].copy_from_slice(&value.to_le_bytes());
}
