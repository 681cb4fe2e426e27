//! Points that wait in a file until they are written.

use copc::error::{Error, Fault};
use copc::float::{F32, F64};
use copc::point_format::PointFormat;
use copc::spill::{
    check_spill_for_write, check_spill_size, spill_record_at, spill_record_into, spill_xyz_at,
    SpillState,
};
use copc::streaming::{LasPointRecord, StreamingLayout};
use copc::writer::CopcWriterParams;

fn f(value: f64) -> F64 {
    F64::from_bits(value.to_bits())
}

fn f32_of(value: f32) -> F32 {
    F32::from_bits(value.to_bits())
}

fn layout_with_color() -> StreamingLayout {
    StreamingLayout {
        point_format: 3,
        has_gps: true,
        has_color: true,
        has_nir: false,
        has_waveform: false,
        extra_bytes: 0,
        extra_bytes_descriptors: Vec::new(),
    }
}

fn record(seed: u32) -> LasPointRecord {
    let v = f64::from(seed);
    LasPointRecord {
        x: f(v * 1.5),
        y: f(-v * 2.25),
        z: f(v * 0.125),
        intensity: seed as u16,
        return_number: (seed % 5) as u8,
        number_of_returns: 5,
        classification: (seed % 32) as u8,
        scan_direction_flag: seed % 2 == 0,
        edge_of_flight_line: seed % 3 == 0,
        scan_angle: f32_of(f32::from((seed as i16) - 100)),
        user_data: (seed % 256) as u8,
        point_source_id: seed as u16,
        synthetic: seed % 4 == 0,
        key_point: seed % 4 == 1,
        withheld: seed % 4 == 2,
        overlap: false,
        scan_channel: 0,
        gps_time: f(1.0e9 + v),
        red: (seed * 7) as u16,
        green: (seed * 11) as u16,
        blue: (seed * 13) as u16,
        nir: 0,
        wave_packet_descriptor_index: 0,
        byte_offset_to_waveform_data: 0,
        waveform_packet_size: 0,
        return_point_waveform_location: f32_of(0.0),
        extra_bytes: Vec::new(),
    }
}

#[test]
fn spill_round_trips_records_and_bounds() {
    let layout = layout_with_color();
    let mut state = SpillState::new(layout.clone());
    let mut data = Vec::new();
    let originals: Vec<LasPointRecord> = (0..256).map(record).collect();
    for rec in &originals {
        data.extend_from_slice(&state.encode(rec).unwrap());
        state.commit(rec);
    }
    assert_eq!(state.count(), 256);
    let count = check_spill_size(layout.record_width(), state.count(), data.len()).unwrap();
    assert_eq!(count, 256);
    for (i, original) in originals.iter().enumerate() {
        assert_eq!(
            spill_record_at(&data, &layout, count, i).unwrap(),
            *original
        );
        assert_eq!(
            spill_xyz_at(&data, &layout, count, i).unwrap(),
            (original.x, original.y, original.z)
        );
    }
    let bounds = state.bounds();
    assert_eq!(bounds.min, (f(0.0), f(-573.75), f(0.0)));
    assert_eq!(bounds.max, (f(382.5), f(0.0), f(31.875)));
}

/// A record that is refused leaves no trace in what is counted.
#[test]
fn refused_records_are_not_counted() {
    let mut state = SpillState::new(layout_with_color());
    state.encode(&record(1)).unwrap();
    state.commit(&record(1));
    let mut bad = record(2);
    bad.x = f(f64::INFINITY);
    let err = state.encode(&bad).unwrap_err();
    assert!(err.message().contains("point 1 x coordinate must be finite"));
    let mut wide = record(2);
    wide.extra_bytes = vec![1];
    assert!(state.encode(&wide).is_err());
    assert_eq!(1, state.count());
    assert_eq!((f(1.5), f(-2.25), f(0.125)), state.bounds().max);
    let stats = state.stats();
    assert_eq!(f(1.0e9 + 1.0), stats.gpstime_min);
    assert_eq!(f(1.0e9 + 1.0), stats.gpstime_max);
    assert_eq!(1, stats.extended_return_counts[0]);
    assert_eq!(1, stats.extended_return_counts.iter().sum::<u64>());
}

#[test]
fn places_outside_the_spill_are_refused() {
    let layout = layout_with_color();
    let width = layout.record_width();
    let data = vec![0u8; width];
    assert!(spill_record_at(&data, &layout, 1, 1).is_err());
    assert!(spill_xyz_at(&data, &layout, 1, 1).is_err());
    let mut out = LasPointRecord::default();
    assert!(spill_record_into(&data, &layout, 1, 0, &mut out).is_ok());
    assert!(check_spill_size(width, 2, data.len()).is_err());
    assert!(check_spill_size(width, u64::MAX, data.len()).is_err());
}

#[test]
fn spills_that_cannot_be_written_are_refused() {
    let layout = layout_with_color();
    let params = CopcWriterParams::default();
    assert!(check_spill_for_write(&params, &layout, 1).is_ok());
    assert!(matches!(
        check_spill_for_write(&CopcWriterParams::new(0), &layout, 1),
        Err(Error::InvalidInput(Fault::ZeroNodeBudget))
    ));
    assert!(matches!(
        check_spill_for_write(&params, &layout, 0),
        Err(Error::InvalidInput(Fault::EmptyCloud))
    ));
    let waveform = StreamingLayout::from_las_format(PointFormat::new(9).unwrap());
    let err = check_spill_for_write(&params, &waveform, 1).unwrap_err();
    assert!(err.message().contains("waveform point data"));
}
