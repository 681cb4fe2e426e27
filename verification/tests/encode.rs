//! Records of points that are written.

use copc::encode::encode_point_record;
use copc::error::Error;
use copc::float::{F32, F64};
use copc::source::CopcPointFields;
use las::point::Format as LasFormat;
use las::{raw, Color};

fn f(value: f64) -> F64 {
    F64::from_bits(value.to_bits())
}

fn f32_of(value: f32) -> F32 {
    F32::from_bits(value.to_bits())
}

fn quantize_axis(value: f64, scale: f64, offset: f64) -> i32 {
    ((value - offset) / scale).round() as i32
}

fn scan_angle_to_las_scaled(value: f32) -> i16 {
    (value / 0.006).round() as i16
}

/// The direct encoder must stay byte-identical to `las::raw::Point`
/// serialization for the PDRF 6/7 layouts the writer emits.
#[test]
fn direct_point_encoding_matches_las_raw_point() {
    let (x, y, z) = (12.345, -67.89, 101.5);
    let fields = CopcPointFields {
        x: f(x),
        y: f(y),
        z: f(z),
        intensity: 0xBEEF,
        return_number: 3,
        number_of_returns: 5,
        synthetic: 1,
        key_point: 0,
        withheld: 1,
        overlap: 0,
        scan_channel: 2,
        scan_direction_flag: 1,
        edge_of_flight_line: 0,
        classification: 6,
        user_data: 0x42,
        scan_angle: f32_of(-30.25),
        point_source_id: 0xCAFE,
        gps_time: f(1.234e9),
        red: 1_000,
        green: 2_000,
        blue: 3_000,
        extra_bytes: Vec::new(),
    };
    let scale = (0.001, 0.001, 0.001);
    let offset = (0.0, 0.0, 0.0);

    for (format_id, extra_bytes) in [(6u8, 0u16), (6, 3), (7, 0), (7, 5)] {
        let mut format = LasFormat::new(format_id).unwrap();
        format.extra_bytes = extra_bytes;
        let mut fields = fields.clone();
        fields.extra_bytes = (0..extra_bytes).map(|byte| byte as u8 ^ 0xA5).collect();
        let (ix, iy, iz) = (
            quantize_axis(x, scale.0, offset.0),
            quantize_axis(y, scale.1, offset.1),
            quantize_axis(z, scale.2, offset.2),
        );
        let angle = scan_angle_to_las_scaled(-30.25);

        let mut direct = vec![0u8; usize::from(format.len())];
        encode_point_record(
            &mut direct,
            &fields,
            (ix, iy, iz),
            angle,
            0,
            format.has_color,
        )
        .unwrap();

        let class_flags = fields.synthetic
            | (fields.key_point << 1)
            | (fields.withheld << 2)
            | (fields.overlap << 3);
        let reference_point = raw::Point {
            x: ix,
            y: iy,
            z: iz,
            intensity: fields.intensity,
            flags: raw::point::Flags::ThreeByte(
                fields.return_number | (fields.number_of_returns << 4),
                class_flags
                    | (fields.scan_channel << 4)
                    | (fields.scan_direction_flag << 6)
                    | (fields.edge_of_flight_line << 7),
                fields.classification,
            ),
            scan_angle: raw::point::ScanAngle::Scaled(angle),
            user_data: fields.user_data,
            point_source_id: fields.point_source_id,
            gps_time: Some(1.234e9),
            color: format.has_color.then_some(Color::new(
                fields.red,
                fields.green,
                fields.blue,
            )),
            waveform: None,
            nir: None,
            extra_bytes: fields.extra_bytes.clone(),
        };
        let mut reference = Vec::with_capacity(usize::from(format.len()));
        reference_point.write_to(&mut reference, &format).unwrap();

        assert_eq!(
            reference, direct,
            "format {format_id} with {extra_bytes} extra byte(s)"
        );
    }
}

#[test]
fn extra_bytes_of_another_width_are_refused() {
    let mut fields = CopcPointFields::default();
    fields.extra_bytes = vec![1, 2];
    let mut buf = [0u8; 33];
    let error = encode_point_record(&mut buf, &fields, (0, 0, 0), 0, 7, false).unwrap_err();
    assert!(matches!(error, Error::InvalidInput(_)));
    assert!(error
        .message()
        .contains("point 7 has 2 extra byte(s), expected 3"));
}
