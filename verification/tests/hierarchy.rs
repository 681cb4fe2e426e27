//! Voxel keys, hierarchy entries and pages.

use copc::error::{Error, Fault};
use copc::float::F64;
use copc::hierarchy::{Entry, EntryAvailability, HierarchyPage, VoxelKey, HIERARCHY_ENTRY_BYTES};
use copc::info::CopcInfo;

fn f(value: f64) -> F64 {
    F64::from_bits(value.to_bits())
}

#[test]
fn hierarchy_entry_round_trips() {
    let entry = Entry {
        key: VoxelKey {
            level: 3,
            x: 4,
            y: 5,
            z: 6,
        },
        offset: 123_456,
        byte_size: 789,
        point_count: 42,
    };
    let mut bytes = [0u8; HIERARCHY_ENTRY_BYTES];
    entry.write_le(&mut bytes).unwrap();
    assert_eq!(Entry::from_le(&bytes).unwrap(), entry);
}

#[test]
fn voxel_child_maps_octant_bits() {
    let child = VoxelKey::root().child(0b101).unwrap();
    assert_eq!(
        child,
        VoxelKey {
            level: 1,
            x: 1,
            y: 0,
            z: 1,
        }
    );
    assert!(VoxelKey::root().child(8).is_err());
}

#[test]
fn voxel_key_validation_rejects_invalid_axes() {
    VoxelKey::root().validate().unwrap();
    VoxelKey {
        level: 3,
        x: 7,
        y: 7,
        z: 7,
    }
    .validate()
    .unwrap();
    assert!(VoxelKey {
        level: 3,
        x: 8,
        y: 0,
        z: 0,
    }
    .validate()
    .is_err());
    assert!(VoxelKey {
        level: -1,
        x: 0,
        y: 0,
        z: 0,
    }
    .validate()
    .is_err());
}

#[test]
fn entry_availability_classifies_point_count() {
    let key = VoxelKey::root();
    assert_eq!(
        Entry {
            key,
            offset: 0,
            byte_size: 0,
            point_count: 0
        }
        .availability()
        .unwrap(),
        EntryAvailability::Empty
    );
    assert_eq!(
        Entry {
            key,
            offset: 64,
            byte_size: 128,
            point_count: 42
        }
        .availability()
        .unwrap(),
        EntryAvailability::PointData { point_count: 42 }
    );
    assert_eq!(
        Entry {
            key,
            offset: 64,
            byte_size: 128,
            point_count: -1
        }
        .availability()
        .unwrap(),
        EntryAvailability::ChildPage
    );
}

#[test]
fn entry_bytes_are_little_endian() {
    let entry = Entry {
        key: VoxelKey {
            level: 1,
            x: 0,
            y: 1,
            z: 1,
        },
        offset: 0x0102_0304_0506_0708,
        byte_size: 0x11,
        point_count: -1,
    };
    let mut bytes = [0u8; HIERARCHY_ENTRY_BYTES];
    entry.write_le(&mut bytes).unwrap();
    assert_eq!(&[1, 0, 0, 0, 0, 0, 0, 0, 1, 0, 0, 0, 1, 0, 0, 0], &bytes[..16]);
    assert_eq!(&[8, 7, 6, 5, 4, 3, 2, 1], &bytes[16..24]);
    assert_eq!(&[0x11, 0, 0, 0, 255, 255, 255, 255], &bytes[24..]);
}

#[test]
fn entries_with_wrong_sizes_are_refused() {
    let key = VoxelKey::root();
    let empty = Entry {
        key,
        offset: 1,
        byte_size: 0,
        point_count: 0,
    };
    assert!(matches!(
        empty.validate(),
        Err(Error::InvalidData(Fault::EmptyEntryNotZero { .. }))
    ));
    let points = Entry {
        key,
        offset: 1,
        byte_size: 0,
        point_count: 3,
    };
    assert!(matches!(
        points.validate(),
        Err(Error::InvalidData(Fault::PointEntryByteSize { byte_size: 0, .. }))
    ));
    let page = Entry {
        key,
        offset: 1,
        byte_size: -1,
        point_count: -1,
    };
    assert!(matches!(
        page.validate(),
        Err(Error::InvalidData(Fault::ChildPageByteSize { byte_size: -1, .. }))
    ));
    let count = Entry {
        key,
        offset: 1,
        byte_size: 1,
        point_count: -2,
    };
    assert!(matches!(
        count.validate(),
        Err(Error::InvalidData(Fault::EntryPointCount { point_count: -2, .. }))
    ));
    let mut short = [0u8; 31];
    let good = Entry {
        key,
        offset: 1,
        byte_size: 1,
        point_count: 1,
    };
    assert!(matches!(
        good.write_le(&mut short),
        Err(Error::InvalidInput(Fault::EntryDestination { len: 31 }))
    ));
    assert!(matches!(
        Entry::from_le(&short),
        Err(Error::InvalidData(Fault::EntrySource { len: 31 }))
    ));
}

#[test]
fn pages_round_trip_and_check_their_length() {
    let entries = vec![
        Entry {
            key: VoxelKey::root(),
            offset: 100,
            byte_size: 10,
            point_count: 5,
        },
        Entry {
            key: VoxelKey::root().child(3).unwrap(),
            offset: 110,
            byte_size: 64,
            point_count: -1,
        },
    ];
    let page = HierarchyPage::new(entries.clone());
    let bytes = page.write_le_bytes().unwrap();
    assert_eq!(64, bytes.len());
    assert_eq!(entries, HierarchyPage::from_le_bytes(&bytes).unwrap().into_entries());
    assert!(matches!(
        HierarchyPage::from_le_bytes(&bytes[..33]),
        Err(Error::InvalidData(Fault::PageNotMultiple { len: 33 }))
    ));
}

#[test]
fn a_key_beyond_the_last_level_has_no_child() {
    let deep = VoxelKey {
        level: i32::MAX,
        x: 0,
        y: 0,
        z: 0,
    };
    assert!(matches!(
        deep.child(0),
        Err(Error::InvalidInput(Fault::VoxelLevelOverflow))
    ));
    let wide = VoxelKey {
        level: 40,
        x: i32::MAX,
        y: 0,
        z: 0,
    };
    assert!(matches!(
        wide.child(0),
        Err(Error::InvalidInput(Fault::VoxelAxisOverflow))
    ));
}

#[test]
fn copc_info_round_trips() {
    let info = CopcInfo {
        center: (f(1.0), f(2.0), f(3.0)),
        halfsize: f(4.0),
        spacing: f(0.25),
        root_hier_offset: 100,
        root_hier_size: 320,
        gpstime_min: f(10.0),
        gpstime_max: f(20.0),
    };
    assert_eq!(
        CopcInfo::from_le_bytes(&info.write_le_bytes().unwrap()).unwrap(),
        info
    );
}

#[test]
fn copc_info_is_checked() {
    let good = CopcInfo {
        center: (f(1.0), f(2.0), f(3.0)),
        halfsize: f(4.0),
        spacing: f(0.25),
        root_hier_offset: 100,
        root_hier_size: 320,
        gpstime_min: f(10.0),
        gpstime_max: f(20.0),
    };
    let mut bytes = good.write_le_bytes().unwrap();
    assert!(matches!(
        CopcInfo::from_le_bytes(&bytes[..159]),
        Err(Error::InvalidData(Fault::InfoTooShort { len: 159 }))
    ));
    bytes[80] = 1;
    assert!(matches!(
        CopcInfo::from_le_bytes(&bytes),
        Err(Error::InvalidData(Fault::InfoReservedBytes))
    ));
    let mut info = good;
    info.center.1 = f(f64::NAN);
    assert!(matches!(
        info.write_le_bytes(),
        Err(Error::InvalidData(Fault::InfoNotFinite { .. }))
    ));
    let mut info = good;
    info.halfsize = f(0.0);
    assert!(matches!(
        info.validate(),
        Err(Error::InvalidData(Fault::InfoNotPositive { .. }))
    ));
    let mut info = good;
    info.gpstime_min = f(21.0);
    assert!(matches!(
        info.validate(),
        Err(Error::InvalidData(Fault::InfoTimeOrder))
    ));
}
