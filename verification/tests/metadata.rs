//! Dates, coordinate systems and the records of a header.

use copc::date::utc_date_from_unix_days;
use copc::float::F64;
use copc::las_out::Vlr;
use copc::metadata::{
    has_geotiff_crs_record, has_wkt_crs_record, normalized_crs_wkt_override,
    validate_source_evlr_count, WKT_GLOBAL_ENCODING_BIT, CopcWriteMetadata,
    OutputLasMetadata, SourceHeader,
};
use copc::point_format::PointFormat;
use copc::validate::validate_las_conversion_supported;

fn f(value: f64) -> F64 {
    F64::from_bits(value.to_bits())
}

#[test]
fn utc_date_from_unix_days_matches_known_dates() {
    // 1970-01-01
    assert_eq!((1, 1970), utc_date_from_unix_days(0));
    // 2000-12-31 (leap year, day 366) = 11322 days after epoch
    assert_eq!((366, 2000), utc_date_from_unix_days(11_322));
    // 2024-03-01 (leap year) = 19783 days after epoch
    assert_eq!((61, 2024), utc_date_from_unix_days(19_783));
    // 2026-07-10 = 20644 days after epoch
    assert_eq!((191, 2026), utc_date_from_unix_days(20_644));
}

#[test]
fn write_metadata_defaults_are_wkt_conformant() {
    let output = CopcWriteMetadata::default().to_output(utc_date_from_unix_days(20_644));

    assert_ne!(0, output.global_encoding & WKT_GLOBAL_ENCODING_BIT);
    assert_eq!(1, output.regular_crs_vlr_count());
    let wkt_vlr = output.regular_crs_vlrs().into_iter().next().unwrap();
    assert_eq!(vec![0u8], wkt_vlr.data);
    assert!(output.creation_year >= 2026);
    assert!((1..=366).contains(&output.creation_day_of_year));
}

#[test]
fn write_metadata_carries_caller_wkt_and_date() {
    let mut metadata = CopcWriteMetadata::default();
    metadata.wkt_crs = Some("PROJCS[\"test\"]".to_string());
    metadata.creation_date = Some((42, 2001));
    metadata.gps_standard_time = true;

    let output = metadata.to_output((1, 1970));

    assert_eq!(
        (42, 2001),
        (output.creation_day_of_year, output.creation_year)
    );
    assert_eq!(1, output.global_encoding & 1);
    let wkt_vlr = output.regular_crs_vlrs().into_iter().next().unwrap();
    assert_eq!(b"PROJCS[\"test\"]\0".as_slice(), wkt_vlr.data.as_slice());
}

fn vlr(user_id: &str, record_id: u16, data: &[u8]) -> Vlr {
    Vlr {
        user_id: user_id.to_string(),
        record_id,
        description: String::new(),
        data: data.to_vec(),
    }
}

fn source_header(vlrs: Vec<Vlr>) -> SourceHeader {
    SourceHeader {
        gps_standard_time: true,
        synthetic_return_numbers: true,
        file_source_id: 42,
        guid: [7; 16],
        system_identifier: "source-system".to_string(),
        generating_software: "source-software".to_string(),
        date: Some((191, 2026)),
        scale: (f(0.01), f(0.01), f(0.01)),
        offset: (f(1.0), f(2.0), f(3.0)),
        vlrs,
    }
}

#[test]
fn conversion_keeps_the_header_of_the_source() {
    let header = source_header(Vec::new());
    let output = OutputLasMetadata::from_las_header(&header, &[], None, (1, 1970));
    assert_eq!(42, output.file_source_id);
    assert_eq!(1 | 8 | 16, output.global_encoding);
    assert_eq!([7; 16], output.guid);
    assert_eq!("source-system", output.system_identifier);
    assert_eq!("source-software", output.generating_software);
    assert_eq!((191, 2026), (output.creation_day_of_year, output.creation_year));
    assert_eq!((f(0.01), f(0.01), f(0.01)), output.scale);
    assert_eq!(Some((f(1.0), f(2.0), f(3.0))), output.offset);
    let undated = SourceHeader {
        date: None,
        ..header
    };
    let output = OutputLasMetadata::from_las_header(&undated, &[], None, (5, 1999));
    assert_eq!((5, 1999), (output.creation_day_of_year, output.creation_year));
}

#[test]
fn conversion_keeps_a_wkt_record_and_foreign_records() {
    let wkt = vlr("LASF_Projection", 2112, b"WKT\0");
    let custom = vlr("example", 42, &[1, 2, 3]);
    let laszip = vlr("laszip encoded", 22204, &[0]);
    let header = source_header(vec![wkt, custom, laszip]);
    let evlr = vlr("example", 43, &[4]);
    let output = OutputLasMetadata::from_las_header(&header, &[evlr], None, (1, 1970));
    assert_eq!(1, output.regular_crs_vlr_count());
    assert_eq!(b"WKT\0".to_vec(), output.regular_crs_vlrs()[0].data);
    assert_eq!(1, output.pass_through_vlrs.len());
    assert_eq!(42, output.pass_through_vlrs[0].record_id);
    assert_eq!(1, output.source_evlrs_after_hierarchy().len());
    assert_eq!(43, output.source_evlrs_after_hierarchy()[0].record_id);
}

#[test]
fn an_override_stands_in_for_geotiff_records() {
    let geotiff = vlr("LASF_Projection", 34735, &[1, 1, 0, 0]);
    let vlrs = vec![geotiff.clone()];
    assert!(has_geotiff_crs_record(&vlrs, &[]));
    assert!(!has_wkt_crs_record(&vlrs, &[]));
    let format = PointFormat::new(6).unwrap();
    let err = validate_las_conversion_supported(&format, &vlrs, &[], None).unwrap_err();
    assert!(err.message().contains("GeoTIFF-to-WKT CRS conversion"));
    assert!(!err.message().contains("1 VLR(s)"));
    assert!(validate_las_conversion_supported(&format, &vlrs, &[], Some("WKT")).is_ok());
    assert!(validate_las_conversion_supported(&format, &vlrs, &[], Some(" \t")).is_err());

    let output = OutputLasMetadata::from_las_header(
        &source_header(vec![geotiff]),
        &[],
        Some("WKT"),
        (1, 1970),
    );
    assert_eq!(b"WKT\0".to_vec(), output.regular_crs_vlrs()[0].data);
}

#[test]
fn blank_overrides_ask_for_nothing() {
    assert_eq!(None, normalized_crs_wkt_override(None));
    assert_eq!(None, normalized_crs_wkt_override(Some(" \n")));
    assert!(normalized_crs_wkt_override(Some("WKT")).is_some());
}

#[test]
fn streaming_conversion_rejects_unsupported_point_dimensions() {
    let format = PointFormat::new(8).unwrap();
    let err = validate_las_conversion_supported(&format, &[], &[], None).unwrap_err();
    let message = err.message();
    assert!(message.contains("NIR point data"));
}

#[test]
fn streaming_conversion_rejects_waveform_point_dimensions() {
    let format = PointFormat::new(9).unwrap();
    let err = validate_las_conversion_supported(&format, &[], &[], None).unwrap_err();
    assert!(err.message().contains("waveform point data"));
}

#[test]
fn days_around_leap_years() {
    assert_eq!((365, 1969), utc_date_from_unix_days(-1));
    assert_eq!((365, 2100), utc_date_from_unix_days(47_846));
    assert_eq!((1, 2101), utc_date_from_unix_days(47_847));
}

#[test]
fn streaming_conversion_rejects_geotiff_only_crs_with_specific_error() {
    let format = PointFormat::new(6).unwrap();
    let vlrs = [Vlr {
        user_id: "LASF_Projection".to_string(),
        record_id: 34735,
        description: "GeoTIFF GeoKeyDirectoryTag".to_string(),
        data: vec![1, 1, 0, 0],
    }];

    let err = validate_las_conversion_supported(&format, &vlrs, &[], None).unwrap_err();
    let message = err.message();
    assert!(message.contains("GeoTIFF-to-WKT CRS conversion"));
    assert!(!message.contains("1 VLR(s)"));
}

#[test]
fn streaming_conversion_allows_source_laszip_vlr() {
    let format = PointFormat::new(6).unwrap();
    let vlrs = vec![vlr("laszip encoded", 22204, &[0; 40])];
    validate_las_conversion_supported(&format, &vlrs, &[], None).unwrap();
    let output = OutputLasMetadata::from_las_header(&source_header(vlrs), &[], None, (1, 1970));
    assert!(output.pass_through_vlrs.is_empty());
}

/// What is in the way is listed.
#[test]
fn unsupported_dimensions_are_listed() {
    let format = PointFormat::new(10).unwrap();
    let geotiff = [vlr("LASF_Projection", 34735, &[1])];
    let err = validate_las_conversion_supported(&format, &geotiff, &[], None).unwrap_err();
    assert_eq!(
        "unsupported COPC feature: LAS-to-COPC streaming conversion cannot preserve \
         NIR point data, waveform point data, 1 GeoTIFF CRS VLR/EVLR(s); \
         GeoTIFF-to-WKT CRS conversion is not implemented",
        err.message()
    );
}

#[test]
fn source_evlrs_are_counted_before_they_are_read() {
    assert!(validate_source_evlr_count(4_096).is_ok());
    let error = validate_source_evlr_count(4_097).unwrap_err();
    assert_eq!(
        "invalid COPC data: source EVLR count 4097 exceeds max supported 4096",
        error.message()
    );
}
