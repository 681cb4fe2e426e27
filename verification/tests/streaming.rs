//! Records of streamed points.

use copc::error::{Error, Fault};
use copc::float::{F32, F64};
use copc::point_format::PointFormat;
use copc::streaming::{
    deserialize_le, deserialize_le_into, serialize_le, LasPoint, LasPointRecord, LasWaveform,
    StreamingLayout, NO_COLOR,
};

fn f(value: f64) -> F64 {
    F64::from_bits(value.to_bits())
}

fn f32_of(value: f32) -> F32 {
    F32::from_bits(value.to_bits())
}

fn fixture_record() -> LasPointRecord {
    LasPointRecord {
        x: f(1234.5678),
        y: f(-9876.54321),
        z: f(100.0),
        intensity: 0xBEEF,
        return_number: 3,
        number_of_returns: 5,
        classification: 7,
        scan_direction_flag: true,
        edge_of_flight_line: true,
        scan_angle: f32_of(-1234.0),
        user_data: 0x42,
        point_source_id: 0xCAFE,
        synthetic: true,
        key_point: false,
        withheld: true,
        overlap: false,
        scan_channel: 2,
        gps_time: f(1.234e9),
        red: 0xAAAA,
        green: 0x5555,
        blue: 0xF00F,
        nir: 0xCDCD,
        wave_packet_descriptor_index: 9,
        byte_offset_to_waveform_data: 0xDEADBEEF,
        waveform_packet_size: 0xABCD,
        return_point_waveform_location: f32_of(-42.5),
        extra_bytes: Vec::new(),
    }
}

#[test]
fn round_trip_every_optional_combination() {
    let template = fixture_record();
    for has_gps in [false, true] {
        for has_color in [false, true] {
            for has_nir in [false, true] {
                for has_waveform in [false, true] {
                    let layout = StreamingLayout {
                        point_format: 10,
                        has_gps,
                        has_color,
                        has_nir,
                        has_waveform,
                        extra_bytes: 0,
                        extra_bytes_descriptors: Vec::new(),
                    };
                    let mut record = template.clone();
                    if !layout.has_gps {
                        record.gps_time = f(0.0);
                    }
                    if !layout.has_color {
                        record.red = 0;
                        record.green = 0;
                        record.blue = 0;
                    }
                    if !layout.has_nir {
                        record.nir = 0;
                    }
                    if !layout.has_waveform {
                        record.wave_packet_descriptor_index = 0;
                        record.byte_offset_to_waveform_data = 0;
                        record.waveform_packet_size = 0;
                        record.return_point_waveform_location = f32_of(0.0);
                    }
                    let mut bytes = vec![0u8; layout.record_width()];
                    serialize_le(&record, &layout, &mut bytes);
                    assert_eq!(deserialize_le(&bytes, &layout).unwrap(), record);
                }
            }
        }
    }
}

fn plain_point() -> LasPoint {
    LasPoint {
        x: f(0.0),
        y: f(0.0),
        z: f(0.0),
        intensity: 0,
        return_number: 0,
        number_of_returns: 0,
        classification: 0,
        scan_direction_flag: false,
        edge_of_flight_line: false,
        scan_angle: f32_of(0.0),
        user_data: 0,
        point_source_id: 0,
        synthetic: false,
        key_point: false,
        withheld: false,
        overlap: false,
        scan_channel: 0,
        gps_time: None,
        color: None,
        nir: None,
        waveform: None,
        extra_bytes: Vec::new(),
    }
}

#[test]
fn from_las_point_preserves_scan_angle_degrees() {
    let point = LasPoint {
        scan_angle: f32_of(30.0),
        ..plain_point()
    };

    let record = LasPointRecord::from_las_point(&point);

    assert_eq!(f32_of(30.0), record.scan_angle);
}

#[test]
fn from_las_format_records_presence_flags() {
    let layout0 = StreamingLayout::from_las_format(PointFormat::new(0).unwrap());
    assert!(!layout0.has_gps);
    assert!(!layout0.has_color);
    assert!(!layout0.has_nir);
    assert!(!layout0.has_waveform);

    let layout3 = StreamingLayout::from_las_format(PointFormat::new(3).unwrap());
    assert!(layout3.has_gps);
    assert!(layout3.has_color);
    assert!(!layout3.has_nir);
    assert!(!layout3.has_waveform);

    let layout10 = StreamingLayout::from_las_format(PointFormat::new(10).unwrap());
    assert!(layout10.has_gps);
    assert!(layout10.has_color);
    assert!(layout10.has_nir);
    assert!(layout10.has_waveform);
}

#[test]
fn missing_fields_of_a_point_have_their_defaults() {
    let record = LasPointRecord::from_las_point(&plain_point());
    assert_eq!(NO_COLOR, record.red);
    assert_eq!(NO_COLOR, record.green);
    assert_eq!(NO_COLOR, record.blue);
    assert_eq!(f(0.0), record.gps_time);
    assert_eq!(0, record.nir);
    assert_eq!(0, record.waveform_packet_size);

    let point = LasPoint {
        gps_time: Some(f(7.5)),
        color: Some((1, 2, 3)),
        nir: Some(4),
        waveform: Some(LasWaveform {
            wave_packet_descriptor_index: 5,
            byte_offset_to_waveform_data: 6,
            waveform_packet_size: 7,
            return_point_waveform_location: f32_of(8.0),
        }),
        extra_bytes: vec![9, 10],
        ..plain_point()
    };
    let record = LasPointRecord::from_las_point(&point);
    assert_eq!((1, 2, 3), (record.red, record.green, record.blue));
    assert_eq!(4, record.nir);
    assert_eq!(5, record.wave_packet_descriptor_index);
    assert_eq!(6, record.byte_offset_to_waveform_data);
    assert_eq!(7, record.waveform_packet_size);
    assert_eq!(f32_of(8.0), record.return_point_waveform_location);
    assert_eq!(vec![9, 10], record.extra_bytes);
}

#[test]
fn records_carry_their_extra_bytes() {
    let layout = StreamingLayout {
        point_format: 6,
        has_gps: true,
        has_color: false,
        has_nir: false,
        has_waveform: false,
        extra_bytes: 3,
        extra_bytes_descriptors: Vec::new(),
    };
    assert_eq!(43 + 8 + 3, layout.record_width());
    let mut record = LasPointRecord::default();
    record.gps_time = f(12.5);
    record.extra_bytes = vec![1, 2, 3];
    let mut bytes = vec![0u8; 54];
    serialize_le(&record, &layout, &mut bytes);
    assert_eq!(&[1, 2, 3], &bytes[51..]);
    assert_eq!(12.5f64.to_le_bytes(), bytes[43..51]);
    assert_eq!(record, deserialize_le(&bytes, &layout).unwrap());
}

#[test]
fn records_of_another_length_are_refused() {
    let layout = StreamingLayout::from_las_format(PointFormat::new(0).unwrap());
    let mut out = fixture_record();
    let before = out.clone();
    let error = deserialize_le_into(&[0u8; 44], &layout, &mut out).unwrap_err();
    assert!(matches!(
        error,
        Error::InvalidData(Fault::SpillRecordLength {
            len: 44,
            expected: 43
        })
    ));
    assert_eq!(before, out);
}
