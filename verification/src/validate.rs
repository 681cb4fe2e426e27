//! Checks of what is to be written, and what is counted of it.

use vstd::prelude::*;

use crate::bounds::Bounds;
use crate::checks;
use crate::error::{Axis, Corner, Error, Fault, PointField, Result};
use crate::float::{F32, F64};
use crate::las_out;
use crate::las_out::Vlr;
use crate::metadata;
use crate::metadata::{has_wkt_crs_record, is_geotiff_crs_vlr, normalized_crs_wkt_override};
use crate::point_format::PointFormat;
use crate::source::{CopcPointFields, FieldsModel};
use crate::streaming::{LasPointRecord, PointModel, StreamingLayout};

verus! {

/// The bit patterns of the infinities.
pub const INFINITY_BITS: u64 = 0x7FF0_0000_0000_0000;

pub const NEG_INFINITY_BITS: u64 = 0xFFF0_0000_0000_0000;

/// The greatest scan angle, as a bit pattern: its quotient by 0.006 is the greatest 16-bit
/// number.
pub const SCAN_ANGLE_MAX_BITS: u32 = 0x4344_9A1D;

/// The magnitude of the least scan angle: its quotient by 0.006 is the least 16-bit number.
pub const SCAN_ANGLE_MIN_BITS: u32 = 0x4344_9BA6;

/// What is counted of the points that are written.
#[derive(Clone, Copy, Debug, PartialEq)]
pub struct PointStats {
    pub gpstime_min: F64,
    pub gpstime_max: F64,
    /// The number of points of each return, from the first on.
    pub extended_return_counts: [u64; 15],
}

/// What [`PointStats`] hold.
#[verifier::ext_equal]
pub struct StatsModel {
    pub gpstime_min: F64,
    pub gpstime_max: F64,
    pub counts: Seq<u64>,
}

impl View for PointStats {
    type V = StatsModel;

    open spec fn view(&self) -> StatsModel {
        StatsModel {
            gpstime_min: self.gpstime_min,
            gpstime_max: self.gpstime_max,
            counts: self.extended_return_counts@,
        }
    }
}

/// The stats of no points.
pub open spec fn no_stats() -> StatsModel {
    StatsModel {
        gpstime_min: F64 { bits: INFINITY_BITS },
        gpstime_max: F64 { bits: NEG_INFINITY_BITS },
        counts: Seq::new(15, |i: int| 0u64),
    }
}

/// The stats with one more point.
pub open spec fn recorded(stats: StatsModel, gps_time: F64, return_number: u8) -> StatsModel {
    StatsModel {
        gpstime_min: stats.gpstime_min.lower(gps_time),
        gpstime_max: stats.gpstime_max.upper(gps_time),
        counts: if 1 <= return_number <= 15 {
            stats.counts.update(
                return_number - 1,
                (stats.counts[return_number - 1] + 1) as u64,
            )
        } else {
            stats.counts
        },
    }
}

/// The stats of the first `n` points, of which GPS times and return numbers are given.
pub open spec fn stats_of(points: Seq<(F64, u8)>, n: int) -> StatsModel
    decreases n,
{
    if n <= 0 {
        no_stats()
    } else {
        recorded(stats_of(points, n - 1), points[n - 1].0, points[n - 1].1)
    }
}

/// How many of the first `n` points have the return number.
pub open spec fn returned(points: Seq<(F64, u8)>, n: int, return_number: int) -> nat
    decreases n,
{
    if n <= 0 {
        0
    } else {
        returned(points, n - 1, return_number) + if points[n - 1].1 == return_number {
            1nat
        } else {
            0nat
        }
    }
}

/// The counts are those of the return numbers, and all times lie between the least and the
/// greatest.
pub proof fn law_stats(points: Seq<(F64, u8)>, n: int)
    requires
        0 <= n <= points.len() <= u64::MAX,
        forall|i: int| 0 <= i < points.len() ==> (#[trigger] points[i]).0.finite(),
    ensures
        stats_of(points, n).counts.len() == 15,
        forall|r: int|
            1 <= r <= 15 ==> #[trigger] stats_of(points, n).counts[r - 1] == returned(
                points,
                n,
                r,
            ) && returned(points, n, r) <= n,
        forall|i: int|
            0 <= i < n ==> stats_of(points, n).gpstime_min.le((#[trigger] points[i]).0)
                && points[i].0.le(stats_of(points, n).gpstime_max),
        !stats_of(points, n).gpstime_min.nan() && !stats_of(points, n).gpstime_max.nan(),
        n > 0 ==> stats_of(points, n).gpstime_min.finite() && stats_of(
            points,
            n,
        ).gpstime_max.finite(),
    decreases n,
{
    if n > 0 {
        law_stats(points, n - 1);
        let before = stats_of(points, n - 1);
        let after = stats_of(points, n);
        let last = points[n - 1];
        assert(last.0.finite());
        assert forall|r: int| 1 <= r <= 15 implies #[trigger] after.counts[r - 1] == returned(
            points,
            n,
            r,
        ) && returned(points, n, r) <= n by {
            assert(before.counts[r - 1] == returned(points, n - 1, r));
        }
    }
}

/// What [`PointStats::record`] finds wrong.
pub open spec fn gps_check(index: usize, gps_time: F64) -> Result<()> {
    if gps_time.finite() {
        Ok(())
    } else {
        Err(Error::InvalidInput(Fault::GpsTimeNotFinite { index }))
    }
}

impl PointStats {
    pub fn new() -> (r: PointStats)
        ensures
            r@ == no_stats(),
    {
        let counts: [u64; 15] = [0u64;15];
        proof {
            assert(counts@ =~= Seq::new(15, |i: int| 0u64));
        }
        PointStats {
            gpstime_min: F64 { bits: INFINITY_BITS },
            gpstime_max: F64 { bits: NEG_INFINITY_BITS },
            extended_return_counts: counts,
        }
    }

    /// Counts a point. Its GPS time must be finite.
    pub fn record(&mut self, index: usize, gps_time: F64, return_number: u8) -> (r: Result<()>)
        requires
            forall|i: int| 0 <= i < 15 ==> #[trigger] old(self).extended_return_counts@[i]
                < u64::MAX,
        ensures
            r == gps_check(index, gps_time),
            final(self)@ == (if r is Ok {
                recorded(old(self)@, gps_time, return_number)
            } else {
                old(self)@
            }),
    {
        if !gps_time.is_finite() {
            return Err(Error::InvalidInput(Fault::GpsTimeNotFinite { index }));
        }
        self.gpstime_min = self.gpstime_min.min(gps_time);
        self.gpstime_max = self.gpstime_max.max(gps_time);
        if 1 <= return_number && return_number <= 15 {
            let at: usize = return_number as usize - 1;
            let count: u64 = self.extended_return_counts[at];
            self.extended_return_counts[at] = count + 1;
        }
        proof {
            assert(self@ =~= recorded(old(self)@, gps_time, return_number));
        }
        Ok(())
    }
}

/// What [`validate_streaming_layout_supported`] answers.
pub open spec fn layout_check(has_nir: bool, has_waveform: bool) -> Result<()> {
    if has_nir || has_waveform {
        Err(
            Error::Unsupported(
                Fault::LayoutNotPreserved { nir: has_nir, waveform: has_waveform },
            ),
        )
    } else {
        Ok(())
    }
}

/// Refuses layouts with fields that point formats 6 and 7 do not have.
pub fn validate_streaming_layout_supported(layout: &StreamingLayout) -> (r: Result<()>)
    ensures
        r == layout_check(layout.has_nir, layout.has_waveform),
{
    if layout.has_nir || layout.has_waveform {
        return Err(
            Error::Unsupported(
                Fault::LayoutNotPreserved { nir: layout.has_nir, waveform: layout.has_waveform },
            ),
        );
    }
    Ok(())
}

/// How many of the first `n` records hold GeoTIFF keys.
pub open spec fn geotiff_count(records: Seq<las_out::RecordModel>, n: int) -> nat
    decreases n,
{
    if n <= 0 {
        0
    } else {
        geotiff_count(records, n - 1) + if metadata::is_geotiff(records[n - 1]) {
            1nat
        } else {
            0nat
        }
    }
}

fn count_geotiff(records: &[Vlr]) -> (r: usize)
    ensures
        r == geotiff_count(las_out::record_models(records@), records@.len() as int),
        r <= records@.len(),
{
    let ghost all = las_out::record_models(records@);
    let mut count: usize = 0;
    let mut i: usize = 0;
    while i < records.len()
        invariant
            i <= records@.len(),
            all == las_out::record_models(records@),
            count == geotiff_count(all, i as int),
            count <= i,
        decreases records@.len() - i,
    {
        proof {
            assert(all[i as int] == records@[i as int]@);
        }
        if is_geotiff_crs_vlr(&records[i]) {
            count = count + 1;
        }
        i = i + 1;
    }
    count
}

/// What [`validate_las_conversion_supported`] answers. GeoTIFF keys are in the way only where
/// no coordinate system in WKT takes their place.
pub open spec fn conversion_check(
    format: PointFormat,
    vlrs: Seq<las_out::RecordModel>,
    evlrs: Seq<las_out::RecordModel>,
    wkt: Option<Seq<char>>,
) -> Result<()> {
    let replaced = metadata::any_wkt(vlrs) || metadata::any_wkt(evlrs) || metadata::normalized(
        wkt,
    ) is Some;
    let found = geotiff_count(vlrs, vlrs.len() as int) + geotiff_count(evlrs, evlrs.len() as int);
    let geotiff = if replaced {
        0
    } else {
        found
    };
    if format.has_nir || format.has_waveform || geotiff > 0 {
        Err(
            Error::Unsupported(
                Fault::SourceNotPreserved {
                    nir: format.has_nir,
                    waveform: format.has_waveform,
                    geotiff: geotiff as u64,
                },
            ),
        )
    } else {
        Ok(())
    }
}

/// Refuses sources that cannot be converted without loss.
pub fn validate_las_conversion_supported(
    format: &PointFormat,
    vlrs: &[Vlr],
    source_evlrs: &[Vlr],
    crs_wkt_override: Option<&str>,
) -> (r: Result<()>)
    requires
        vlrs@.len() + source_evlrs@.len() <= u64::MAX,
    ensures
        r == conversion_check(
            *format,
            las_out::record_models(vlrs@),
            las_out::record_models(source_evlrs@),
            metadata::text_of(crs_wkt_override),
        ),
{
    let replaced = has_wkt_crs_record(vlrs, source_evlrs) || normalized_crs_wkt_override(
        crs_wkt_override,
    ).is_some();
    let geotiff: u64 = if replaced {
        0
    } else {
        count_geotiff(vlrs) as u64 + count_geotiff(source_evlrs) as u64
    };
    if format.has_nir || format.has_waveform || geotiff > 0 {
        return Err(
            Error::Unsupported(
                Fault::SourceNotPreserved {
                    nir: format.has_nir,
                    waveform: format.has_waveform,
                    geotiff,
                },
            ),
        );
    }
    Ok(())
}

pub open spec fn finite_bound(value: F64, corner: Corner, axis: Axis) -> Result<()> {
    if value.finite() {
        Ok(())
    } else {
        Err(Error::InvalidInput(Fault::BoundNotFinite { corner, axis }))
    }
}

fn validate_bound(value: F64, corner: Corner, axis: Axis) -> (r: Result<()>)
    ensures
        r == finite_bound(value, corner, axis),
{
    if value.is_finite() {
        Ok(())
    } else {
        Err(Error::InvalidInput(Fault::BoundNotFinite { corner, axis }))
    }
}

/// Whether an axis of the bounds has a length. `finite` says whether the difference of the
/// corners is finite.
pub open spec fn span_check(min: F64, max: F64, finite: bool, axis: Axis) -> Result<()> {
    if max.lt(min) {
        Err(Error::InvalidInput(Fault::BoundsOrder { axis }))
    } else if !finite {
        Err(Error::InvalidInput(Fault::SpanNotFinite { axis }))
    } else {
        Ok(())
    }
}

fn validate_span(min: F64, max: F64, finite: bool, axis: Axis) -> (r: Result<()>)
    ensures
        r == span_check(min, max, finite, axis),
{
    if max.is_less(min) {
        Err(Error::InvalidInput(Fault::BoundsOrder { axis }))
    } else if !finite {
        Err(Error::InvalidInput(Fault::SpanNotFinite { axis }))
    } else {
        Ok(())
    }
}

pub open spec fn scale_check(value: F64, axis: Axis) -> Result<()> {
    if value.finite() && value.positive() {
        Ok(())
    } else {
        Err(Error::InvalidInput(Fault::ScaleInvalid { axis }))
    }
}

fn validate_scale(value: F64, axis: Axis) -> (r: Result<()>)
    ensures
        r == scale_check(value, axis),
{
    if value.is_finite() && value.is_positive() {
        Ok(())
    } else {
        Err(Error::InvalidInput(Fault::ScaleInvalid { axis }))
    }
}

pub open spec fn offset_check(value: F64, axis: Axis) -> Result<()> {
    if value.finite() {
        Ok(())
    } else {
        Err(Error::InvalidInput(Fault::OffsetNotFinite { axis }))
    }
}

fn validate_offset(value: F64, axis: Axis) -> (r: Result<()>)
    ensures
        r == offset_check(value, axis),
{
    if value.is_finite() {
        Ok(())
    } else {
        Err(Error::InvalidInput(Fault::OffsetNotFinite { axis }))
    }
}

/// The checks of the bounds, in order.
pub open spec fn bounds_checks(bounds: Bounds, spans: (bool, bool, bool)) -> Seq<Result<()>> {
    seq![
        finite_bound(bounds.min.0, Corner::Min, Axis::X),
        finite_bound(bounds.min.1, Corner::Min, Axis::Y),
        finite_bound(bounds.min.2, Corner::Min, Axis::Z),
        finite_bound(bounds.max.0, Corner::Max, Axis::X),
        finite_bound(bounds.max.1, Corner::Max, Axis::Y),
        finite_bound(bounds.max.2, Corner::Max, Axis::Z),
        span_check(bounds.min.0, bounds.max.0, spans.0, Axis::X),
        span_check(bounds.min.1, bounds.max.1, spans.1, Axis::Y),
        span_check(bounds.min.2, bounds.max.2, spans.2, Axis::Z),
    ]
}

/// The checks of the coordinate transform, in order.
pub open spec fn transform_checks(scale: (F64, F64, F64), offset: (F64, F64, F64)) -> Seq<
    Result<()>,
> {
    seq![
        scale_check(scale.0, Axis::X),
        scale_check(scale.1, Axis::Y),
        scale_check(scale.2, Axis::Z),
        offset_check(offset.0, Axis::X),
        offset_check(offset.1, Axis::Y),
        offset_check(offset.2, Axis::Z),
    ]
}

fn validate_bounds(bounds: Bounds, spans: (bool, bool, bool)) -> (r: Result<()>)
    ensures
        r == checks::checked(bounds_checks(bounds, spans)),
{
    proof {
        reveal_with_fuel(checks::first_error, 10);
    }
    validate_bound(bounds.min.0, Corner::Min, Axis::X)?;
    validate_bound(bounds.min.1, Corner::Min, Axis::Y)?;
    validate_bound(bounds.min.2, Corner::Min, Axis::Z)?;
    validate_bound(bounds.max.0, Corner::Max, Axis::X)?;
    validate_bound(bounds.max.1, Corner::Max, Axis::Y)?;
    validate_bound(bounds.max.2, Corner::Max, Axis::Z)?;
    validate_span(bounds.min.0, bounds.max.0, spans.0, Axis::X)?;
    validate_span(bounds.min.1, bounds.max.1, spans.1, Axis::Y)?;
    validate_span(bounds.min.2, bounds.max.2, spans.2, Axis::Z)
}

fn validate_transform(scale: (F64, F64, F64), offset: (F64, F64, F64)) -> (r: Result<()>)
    ensures
        r == checks::checked(transform_checks(scale, offset)),
{
    proof {
        reveal_with_fuel(checks::first_error, 7);
    }
    validate_scale(scale.0, Axis::X)?;
    validate_scale(scale.1, Axis::Y)?;
    validate_scale(scale.2, Axis::Z)?;
    validate_offset(offset.0, Axis::X)?;
    validate_offset(offset.1, Axis::Y)?;
    validate_offset(offset.2, Axis::Z)
}

/// What [`validate_write_setup`] answers.
pub open spec fn setup_check(
    bounds: Bounds,
    spans: (bool, bool, bool),
    scale: (F64, F64, F64),
    offset: (F64, F64, F64),
) -> Result<()> {
    match checks::checked(bounds_checks(bounds, spans)) {
        Err(error) => Err(error),
        Ok(_) => checks::checked(transform_checks(scale, offset)),
    }
}

/// Checks the bounds and the coordinate transform of the output. `spans` says of each axis
/// whether the difference of the corners is finite.
pub fn validate_write_setup(
    bounds: Bounds,
    spans: (bool, bool, bool),
    scale: (F64, F64, F64),
    offset: (F64, F64, F64),
) -> (r: Result<()>)
    ensures
        r == setup_check(bounds, spans, scale, offset),
{
    validate_bounds(bounds, spans)?;
    validate_transform(scale, offset)
}

/// What passes the checks of the setup makes a header whose numbers readers take.
pub proof fn law_setup_is_readable(
    bounds: Bounds,
    spans: (bool, bool, bool),
    scale: (F64, F64, F64),
    offset: (F64, F64, F64),
    header: crate::las_header::LasHeader,
)
    requires
        setup_check(bounds, spans, scale, offset) is Ok,
        (header.x_scale_factor, header.y_scale_factor, header.z_scale_factor) == scale,
        (header.x_offset, header.y_offset, header.z_offset) == offset,
        (header.min_x, header.min_y, header.min_z) == bounds.min,
        (header.max_x, header.max_y, header.max_z) == bounds.max,
    ensures
        header.numbers_spec() is Ok,
{
    reveal_with_fuel(checks::first_error, 10);
}

pub open spec fn axis_finite(index: usize, value: F64, axis: Axis) -> Result<()> {
    if value.finite() {
        Ok(())
    } else {
        Err(Error::InvalidInput(Fault::PointNotFinite { index, axis }))
    }
}

/// Whether all three coordinates of a point are finite.
pub open spec fn xyz_finite(index: usize, xyz: (F64, F64, F64)) -> Result<()> {
    if !xyz.0.finite() {
        axis_finite(index, xyz.0, Axis::X)
    } else if !xyz.1.finite() {
        axis_finite(index, xyz.1, Axis::Y)
    } else {
        axis_finite(index, xyz.2, Axis::Z)
    }
}

pub fn validate_xyz_finite(index: usize, xyz: (F64, F64, F64)) -> (r: Result<()>)
    ensures
        r == xyz_finite(index, xyz),
{
    if !xyz.0.is_finite() {
        return Err(Error::InvalidInput(Fault::PointNotFinite { index, axis: Axis::X }));
    }
    if !xyz.1.is_finite() {
        return Err(Error::InvalidInput(Fault::PointNotFinite { index, axis: Axis::Y }));
    }
    if !xyz.2.is_finite() {
        return Err(Error::InvalidInput(Fault::PointNotFinite { index, axis: Axis::Z }));
    }
    Ok(())
}

pub open spec fn xyz_in_bounds(index: usize, xyz: (F64, F64, F64), bounds: Bounds) -> Result<()> {
    if bounds.holds(xyz.0, xyz.1, xyz.2) {
        Ok(())
    } else {
        Err(Error::InvalidInput(Fault::PointOutsideBounds { index }))
    }
}

pub fn validate_xyz_in_bounds(index: usize, xyz: (F64, F64, F64), bounds: Bounds) -> (r: Result<()>)
    ensures
        r == xyz_in_bounds(index, xyz, bounds),
{
    if bounds.contains_xyz(xyz.0, xyz.1, xyz.2) {
        Ok(())
    } else {
        Err(Error::InvalidInput(Fault::PointOutsideBounds { index }))
    }
}

/// Whether a coordinate can be written as a 32-bit number of the output's scale and offset.
#[derive(Clone, Copy, Debug, PartialEq, Eq, Structural)]
pub enum AxisFit {
    Fits,
    /// The quotient is not finite.
    NotFinite,
    /// The quotient is no 32-bit number.
    OutOfRange,
}

pub open spec fn axis_fit(index: usize, fit: AxisFit, axis: Axis) -> Result<()> {
    match fit {
        AxisFit::Fits => Ok(()),
        AxisFit::NotFinite => Err(Error::InvalidInput(Fault::PointNotEncodable { index, axis })),
        AxisFit::OutOfRange => Err(Error::InvalidInput(Fault::PointOutOfRange { index, axis })),
    }
}

pub open spec fn xyz_fit(index: usize, fits: (AxisFit, AxisFit, AxisFit)) -> Result<()> {
    if fits.0 != AxisFit::Fits {
        axis_fit(index, fits.0, Axis::X)
    } else if fits.1 != AxisFit::Fits {
        axis_fit(index, fits.1, Axis::Y)
    } else {
        axis_fit(index, fits.2, Axis::Z)
    }
}

fn validate_axis_fit(index: usize, fit: AxisFit, axis: Axis) -> (r: Result<()>)
    ensures
        r == axis_fit(index, fit, axis),
{
    match fit {
        AxisFit::Fits => Ok(()),
        AxisFit::NotFinite => Err(Error::InvalidInput(Fault::PointNotEncodable { index, axis })),
        AxisFit::OutOfRange => Err(Error::InvalidInput(Fault::PointOutOfRange { index, axis })),
    }
}

/// Refuses a point whose coordinates cannot be written.
pub fn validate_xyz_fit(index: usize, fits: (AxisFit, AxisFit, AxisFit)) -> (r: Result<()>)
    ensures
        r == xyz_fit(index, fits),
{
    validate_axis_fit(index, fits.0, Axis::X)?;
    validate_axis_fit(index, fits.1, Axis::Y)?;
    validate_axis_fit(index, fits.2, Axis::Z)
}

/// Whether a scan angle can be written as a 16-bit multiple of 0.006 degrees.
pub open spec fn angle_fits(value: F32) -> bool {
    -(SCAN_ANGLE_MIN_BITS as int) <= value.rank() <= SCAN_ANGLE_MAX_BITS
}

pub open spec fn angle_check(index: usize, value: F32) -> Result<()> {
    if !value.finite() {
        Err(Error::InvalidInput(Fault::ScanAngleNotFinite { index }))
    } else if !angle_fits(value) {
        Err(Error::InvalidInput(Fault::ScanAngleOutOfRange { index }))
    } else {
        Ok(())
    }
}

/// Refuses scan angles that cannot be written.
pub fn validate_scan_angle(index: usize, value: F32) -> (r: Result<()>)
    ensures
        r == angle_check(index, value),
{
    if !value.is_finite() {
        return Err(Error::InvalidInput(Fault::ScanAngleNotFinite { index }));
    }
    let rank: i64 = value.rank_bits();
    if rank < -(SCAN_ANGLE_MIN_BITS as i64) || rank > SCAN_ANGLE_MAX_BITS as i64 {
        return Err(Error::InvalidInput(Fault::ScanAngleOutOfRange { index }));
    }
    Ok(())
}

/// Whether a field has a value that LAS has room for.
pub open spec fn field_check(index: usize, field: PointField, value: u8, max: u8) -> Result<()> {
    if value <= max {
        Ok(())
    } else {
        Err(Error::InvalidInput(Fault::FieldOutOfRange { index, field, max, value }))
    }
}

fn validate_point_field_range(index: usize, field: PointField, value: u8, max: u8) -> (r: Result<
    (),
>)
    ensures
        r == field_check(index, field, value, max),
{
    if value <= max {
        Ok(())
    } else {
        Err(Error::InvalidInput(Fault::FieldOutOfRange { index, field, max, value }))
    }
}

/// The checks of the small fields, in order.
pub open spec fn flag_checks(index: usize, fields: FieldsModel) -> Seq<Result<()>> {
    seq![
        field_check(index, PointField::ReturnNumber, fields.return_number, 15),
        field_check(index, PointField::NumberOfReturns, fields.number_of_returns, 15),
        field_check(index, PointField::Synthetic, fields.synthetic, 1),
        field_check(index, PointField::KeyPoint, fields.key_point, 1),
        field_check(index, PointField::Withheld, fields.withheld, 1),
        field_check(index, PointField::Overlap, fields.overlap, 1),
        field_check(index, PointField::ScanChannel, fields.scan_channel, 3),
        field_check(index, PointField::ScanDirectionFlag, fields.scan_direction_flag, 1),
        field_check(index, PointField::EdgeOfFlightLine, fields.edge_of_flight_line, 1),
    ]
}

/// Refuses fields with values that LAS has no room for.
pub fn validate_point_flags(index: usize, fields: &CopcPointFields) -> (r: Result<()>)
    ensures
        r == checks::checked(flag_checks(index, fields@)),
{
    proof {
        reveal_with_fuel(checks::first_error, 10);
    }
    validate_point_field_range(index, PointField::ReturnNumber, fields.return_number, 15)?;
    validate_point_field_range(index, PointField::NumberOfReturns, fields.number_of_returns, 15)?;
    validate_point_field_range(index, PointField::Synthetic, fields.synthetic, 1)?;
    validate_point_field_range(index, PointField::KeyPoint, fields.key_point, 1)?;
    validate_point_field_range(index, PointField::Withheld, fields.withheld, 1)?;
    validate_point_field_range(index, PointField::Overlap, fields.overlap, 1)?;
    validate_point_field_range(index, PointField::ScanChannel, fields.scan_channel, 3)?;
    validate_point_field_range(
        index,
        PointField::ScanDirectionFlag,
        fields.scan_direction_flag,
        1,
    )?;
    validate_point_field_range(index, PointField::EdgeOfFlightLine, fields.edge_of_flight_line, 1)
}

/// The checks of a record that comes in through a stream, in order.
pub open spec fn record_checks(index: usize, record: PointModel) -> Seq<Result<()>> {
    seq![
        xyz_finite(index, (record.x, record.y, record.z)),
        angle_check(index, record.scan_angle),
        field_check(index, PointField::ReturnNumber, record.return_number, 15),
        field_check(index, PointField::NumberOfReturns, record.number_of_returns, 15),
        field_check(index, PointField::ScanChannel, record.scan_channel, 3),
    ]
}

/// Refuses records that cannot be written.
pub fn validate_spill_record(record: &LasPointRecord, index: usize) -> (r: Result<()>)
    ensures
        r == checks::checked(record_checks(index, record@)),
{
    proof {
        reveal_with_fuel(checks::first_error, 6);
    }
    validate_xyz_finite(index, (record.x, record.y, record.z))?;
    validate_scan_angle(index, record.scan_angle)?;
    validate_point_field_range(index, PointField::ReturnNumber, record.return_number, 15)?;
    validate_point_field_range(index, PointField::NumberOfReturns, record.number_of_returns, 15)?;
    validate_point_field_range(index, PointField::ScanChannel, record.scan_channel, 3)
}

/// Whether two points have the same coordinates.
pub open spec fn same_xyz(index: usize, a: (F64, F64, F64), b: (F64, F64, F64)) -> Result<()> {
    if a.0.same(b.0) && a.1.same(b.1) && a.2.same(b.2) {
        Ok(())
    } else {
        Err(Error::InvalidInput(Fault::CoordinatesDiffer { index }))
    }
}

pub open spec fn extra_check(index: usize, found: nat, expected: u16) -> Result<()> {
    if found == expected {
        Ok(())
    } else {
        Err(
            Error::InvalidInput(
                Fault::ExtraByteCount {
                    index,
                    found: found as usize,
                    expected: expected as usize,
                },
            ),
        )
    }
}

/// What is known of a point before its fields are looked at: its coordinates, and whether
/// they and those of its fields can be written.
#[derive(Clone, Copy, Debug)]
pub struct PointPlace {
    pub xyz: (F64, F64, F64),
    pub xyz_fits: (AxisFit, AxisFit, AxisFit),
    pub fields_fits: (AxisFit, AxisFit, AxisFit),
}

/// The checks of a point, in order.
pub open spec fn point_checks(
    index: usize,
    place: PointPlace,
    fields: FieldsModel,
    bounds: Bounds,
    extra_bytes: u16,
) -> Seq<Result<()>> {
    let own = (fields.x, fields.y, fields.z);
    seq![
        xyz_finite(index, place.xyz),
        xyz_in_bounds(index, place.xyz, bounds),
        xyz_fit(index, place.xyz_fits),
        xyz_finite(index, own),
        same_xyz(index, place.xyz, own),
        xyz_in_bounds(index, own, bounds),
        xyz_fit(index, place.fields_fits),
        angle_check(index, fields.scan_angle),
        checks::checked(flag_checks(index, fields)),
        extra_check(index, fields.extra_bytes.len(), extra_bytes),
        gps_check(index, fields.gps_time),
    ]
}

/// Checks points one after the other, and counts them.
#[derive(Clone, Copy, Debug)]
pub struct PointValidator {
    pub bounds: Bounds,
    pub extra_bytes: u16,
    pub stats: PointStats,
    /// The number of points so far.
    pub index: usize,
}

impl PointValidator {
    /// No count is greater than the number of points.
    pub open spec fn wf(&self) -> bool {
        forall|i: int| 0 <= i < 15 ==> #[trigger] self.stats.extended_return_counts@[i]
            <= self.index
    }

    pub fn new(bounds: Bounds, extra_bytes: u16) -> (r: PointValidator)
        ensures
            r.wf(),
            r.bounds == bounds,
            r.extra_bytes == extra_bytes,
            r.stats@ == no_stats(),
            r.index == 0,
    {
        PointValidator { bounds, extra_bytes, stats: PointStats::new(), index: 0 }
    }

    fn check(&self, place: &PointPlace, fields: &CopcPointFields) -> (r: Result<()>)
        ensures
            match r {
                Ok(_) => forall|i: int|
                    0 <= i < 10 ==> #[trigger] point_checks(
                        self.index,
                        *place,
                        fields@,
                        self.bounds,
                        self.extra_bytes,
                    )[i] is Ok,
                Err(error) => checks::checked(
                    point_checks(self.index, *place, fields@, self.bounds, self.extra_bytes),
                ) == Err::<(), Error>(error),
            },
    {
        proof {
            reveal_with_fuel(checks::first_error, 12);
        }
        let index: usize = self.index;
        let own = (fields.x, fields.y, fields.z);
        validate_xyz_finite(index, place.xyz)?;
        validate_xyz_in_bounds(index, place.xyz, self.bounds)?;
        validate_xyz_fit(index, place.xyz_fits)?;
        validate_xyz_finite(index, own)?;
        if !(place.xyz.0 == own.0 && place.xyz.1 == own.1 && place.xyz.2 == own.2) {
            return Err(Error::InvalidInput(Fault::CoordinatesDiffer { index }));
        }
        validate_xyz_in_bounds(index, own, self.bounds)?;
        validate_xyz_fit(index, place.fields_fits)?;
        validate_scan_angle(index, fields.scan_angle)?;
        validate_point_flags(index, fields)?;
        let found: usize = fields.extra_bytes.len();
        let expected: usize = self.extra_bytes as usize;
        if found != expected {
            return Err(Error::InvalidInput(Fault::ExtraByteCount { index, found, expected }));
        }
        Ok(())
    }

    /// Checks the next point, and counts it.
    pub fn point(&mut self, place: &PointPlace, fields: &CopcPointFields) -> (r: Result<()>)
        requires
            old(self).wf(),
            old(self).index < usize::MAX,
        ensures
            final(self).wf(),
            final(self).bounds == old(self).bounds,
            final(self).extra_bytes == old(self).extra_bytes,
            r == checks::checked(
                point_checks(
                    old(self).index,
                    *place,
                    fields@,
                    old(self).bounds,
                    old(self).extra_bytes,
                ),
            ),
            match r {
                Ok(_) => {
                    &&& final(self).index == old(self).index + 1
                    &&& final(self).stats@ == recorded(
                        old(self).stats@,
                        fields.gps_time,
                        fields.return_number,
                    )
                },
                Err(_) => final(self).index == old(self).index && final(self).stats@ == old(
                    self,
                ).stats@,
            },
    {
        let ghost list = point_checks(
            self.index,
            *place,
            fields@,
            self.bounds,
            self.extra_bytes,
        );
        self.check(place, fields)?;
        match self.stats.record(self.index, fields.gps_time, fields.return_number) {
            Ok(_) => {},
            Err(error) => {
                proof {
                    assert(list[10] is Err);
                    checks::lemma_first_error(list, 10, 11);
                    assert(self.stats.extended_return_counts@ == old(
                        self,
                    ).stats.extended_return_counts@);
                }
                return Err(error);
            },
        }
        proof {
            assert(list[10] is Ok);
            assert forall|i: int| 0 <= i < 11 implies #[trigger] list[i] is Ok by {}
            checks::lemma_no_error(list, 11);
            assert(self.stats@.counts == recorded(
                old(self).stats@,
                fields.gps_time,
                fields.return_number,
            ).counts);
            assert forall|i: int| 0 <= i < 15 implies #[trigger] self.stats.extended_return_counts@[i]
                <= old(self).index + 1 by {
                assert(old(self).stats.extended_return_counts@[i] <= old(self).index);
                assert(self.stats@.counts[i] == self.stats.extended_return_counts@[i]);
            }
        }
        self.index = self.index + 1;
        Ok(())
    }
}

/// One more point is counted for its return, and for no other; a number that no return has is
/// not counted.
pub proof fn law_one_more_return(stats: StatsModel, gps_time: F64, return_number: u8, r: int)
    requires
        stats.counts.len() == 15,
        1 <= r <= 15,
        stats.counts[r - 1] < u64::MAX,
    ensures
        recorded(stats, gps_time, return_number).counts.len() == 15,
        recorded(stats, gps_time, return_number).counts[r - 1] == stats.counts[r - 1] + (
        if return_number == r {
            1int
        } else {
            0int
        }),
        no_stats().counts.len() == 15,
        no_stats().counts[r - 1] == 0,
{
}

/// The range of times goes no further than the times of the points.
pub proof fn law_times_are_met(points: Seq<(F64, u8)>, n: int)
    requires
        0 < n <= points.len(),
        forall|i: int| 0 <= i < points.len() ==> (#[trigger] points[i]).0.finite(),
    ensures
        exists|i: int| 0 <= i < n && stats_of(points, n).gpstime_min == (#[trigger] points[i]).0,
        exists|i: int| 0 <= i < n && stats_of(points, n).gpstime_max == (#[trigger] points[i]).0,
    decreases n,
{
    let last = points[n - 1];
    if n > 1 {
        law_times_are_met(points, n - 1);
        let i = choose|i: int|
            0 <= i < n - 1 && stats_of(points, n - 1).gpstime_min == (#[trigger] points[i]).0;
        let j = choose|j: int|
            0 <= j < n - 1 && stats_of(points, n - 1).gpstime_max == (#[trigger] points[j]).0;
        assert(points[i].0.finite() && points[j].0.finite());
    } else {
        assert(stats_of(points, 0) == no_stats());
    }
    assert(points[n - 1].0.finite());
}

/// Bounds, scale and offset are accepted just where all numbers are finite, no bound lies below
/// its counterpart, the spans are finite, and the scales are above zero.
pub proof fn law_accepted_setup(
    bounds: Bounds,
    spans: (bool, bool, bool),
    scale: (F64, F64, F64),
    offset: (F64, F64, F64),
)
    ensures
        setup_check(bounds, spans, scale, offset) is Ok <==> {
            &&& bounds.min.0.finite() && bounds.min.1.finite() && bounds.min.2.finite()
            &&& bounds.max.0.finite() && bounds.max.1.finite() && bounds.max.2.finite()
            &&& bounds.holds(bounds.min.0, bounds.min.1, bounds.min.2)
            &&& spans.0 && spans.1 && spans.2
            &&& 0 < scale.0.bits < 0x7FF0_0000_0000_0000
            &&& 0 < scale.1.bits < 0x7FF0_0000_0000_0000
            &&& 0 < scale.2.bits < 0x7FF0_0000_0000_0000
            &&& offset.0.finite() && offset.1.finite() && offset.2.finite()
        },
{
    reveal_with_fuel(checks::first_error, 10);
}

/// A scan angle is accepted just where its multiple of 0.006 degrees fits into 16 bits, that is
/// from -196.608 to 196.602 degrees.
pub proof fn law_accepted_angle(index: usize, value: F32)
    ensures
        angle_check(index, value) is Ok <==> value.bits <= 0x4344_9A1D || 0x8000_0000
            <= value.bits <= 0xC344_9BA6,
{
}

/// A point is accepted just where its coordinates are finite, lie in the bounds, can be encoded
/// and are those of its fields, and its angle, its small fields, its extra bytes and its time
/// are accepted.
pub proof fn law_accepted_point(
    index: usize,
    place: PointPlace,
    fields: FieldsModel,
    bounds: Bounds,
    extra_bytes: u16,
)
    ensures
        checks::checked(point_checks(index, place, fields, bounds, extra_bytes)) is Ok <==> {
            &&& place.xyz.0.finite() && place.xyz.1.finite() && place.xyz.2.finite()
            &&& fields.x.finite() && fields.y.finite() && fields.z.finite()
            &&& place.xyz.0.same(fields.x) && place.xyz.1.same(fields.y) && place.xyz.2.same(
                fields.z,
            )
            &&& bounds.holds(place.xyz.0, place.xyz.1, place.xyz.2)
            &&& bounds.holds(fields.x, fields.y, fields.z)
            &&& place.xyz_fits == (AxisFit::Fits, AxisFit::Fits, AxisFit::Fits)
            &&& place.fields_fits == (AxisFit::Fits, AxisFit::Fits, AxisFit::Fits)
            &&& angle_check(index, fields.scan_angle) is Ok
            &&& checks::checked(flag_checks(index, fields)) is Ok
            &&& fields.extra_bytes.len() == extra_bytes
            &&& fields.gps_time.finite()
        },
{
    let list = point_checks(index, place, fields, bounds, extra_bytes);
    checks::law_checked(list);
    if checks::checked(list) is Ok {
        assert(list[0] is Ok && list[1] is Ok && list[2] is Ok && list[3] is Ok);
        assert(list[4] is Ok && list[5] is Ok && list[6] is Ok && list[7] is Ok);
        assert(list[8] is Ok && list[9] is Ok && list[10] is Ok);
    }
}

/// A record is accepted just where its coordinates are finite, its angle is accepted, and its
/// return numbers and its channel have room.
pub proof fn law_accepted_record(index: usize, record: PointModel)
    ensures
        checks::checked(record_checks(index, record)) is Ok <==> {
            &&& record.x.finite() && record.y.finite() && record.z.finite()
            &&& angle_check(index, record.scan_angle) is Ok
            &&& record.return_number <= 15 && record.number_of_returns <= 15
            &&& record.scan_channel <= 3
        },
{
    reveal_with_fuel(checks::first_error, 6);
}

/// A source is converted just where nothing of it is lost: it has neither near infrared values
/// nor waveforms, and no GeoTIFF coordinate system, unless a WKT one takes its place.
pub proof fn law_accepted_conversion(
    format: PointFormat,
    vlrs: Seq<las_out::RecordModel>,
    evlrs: Seq<las_out::RecordModel>,
    wkt: Option<Seq<char>>,
)
    ensures
        conversion_check(format, vlrs, evlrs, wkt) is Ok <==> {
            &&& !format.has_nir
            &&& !format.has_waveform
            &&& {
                ||| metadata::any_wkt(vlrs)
                ||| metadata::any_wkt(evlrs)
                ||| metadata::normalized(wkt) is Some
                ||| !metadata::any_geotiff(vlrs) && !metadata::any_geotiff(evlrs)
            }
        },
        layout_check(format.has_nir, format.has_waveform) is Ok <==> !format.has_nir
            && !format.has_waveform,
{
    lemma_geotiff_count(vlrs, vlrs.len() as int);
    lemma_geotiff_count(evlrs, evlrs.len() as int);
}

proof fn lemma_geotiff_count(records: Seq<las_out::RecordModel>, n: int)
    requires
        0 <= n <= records.len(),
    ensures
        geotiff_count(records, n) > 0 <==> exists|i: int|
            0 <= i < n && metadata::is_geotiff(#[trigger] records[i]),
    decreases n,
{
    if n > 0 {
        lemma_geotiff_count(records, n - 1);
        if metadata::is_geotiff(records[n - 1]) {
            assert(metadata::is_geotiff(records[n - 1]));
        } else if geotiff_count(records, n - 1) > 0 {
            let i = choose|i: int| 0 <= i < n - 1 && metadata::is_geotiff(#[trigger] records[i]);
            assert(metadata::is_geotiff(records[i]));
        }
    }
}

/// Bounds, scale and offset are refused for what is wrong with them.
pub proof fn law_why_a_setup_is_refused(
    bounds: Bounds,
    spans: (bool, bool, bool),
    scale: (F64, F64, F64),
    offset: (F64, F64, F64),
)
    requires
        setup_check(bounds, spans, scale, offset) is Err,
    ensures
        match setup_check(bounds, spans, scale, offset)->Err_0 {
            Error::InvalidInput(Fault::BoundNotFinite { corner, axis }) => !on_axis(
                match corner {
                    Corner::Min => bounds.min,
                    Corner::Max => bounds.max,
                },
                axis,
            ).finite(),
            Error::InvalidInput(Fault::BoundsOrder { axis }) => on_axis(bounds.max, axis).lt(
                on_axis(bounds.min, axis),
            ),
            Error::InvalidInput(Fault::SpanNotFinite { axis }) => !match axis {
                Axis::X => spans.0,
                Axis::Y => spans.1,
                Axis::Z => spans.2,
            },
            Error::InvalidInput(Fault::ScaleInvalid { axis }) => !(on_axis(scale, axis).finite()
                && on_axis(scale, axis).positive()),
            Error::InvalidInput(Fault::OffsetNotFinite { axis }) => !on_axis(offset, axis).finite(),
            _ => false,
        },
{
    reveal_with_fuel(checks::first_error, 10);
}

/// The number of a triple on an axis.
pub open spec fn on_axis(triple: (F64, F64, F64), axis: Axis) -> F64 {
    match axis {
        Axis::X => triple.0,
        Axis::Y => triple.1,
        Axis::Z => triple.2,
    }
}

/// The value of a small field, and the greatest that it may have.
pub open spec fn small_field(fields: FieldsModel, field: PointField) -> (u8, u8) {
    match field {
        PointField::ReturnNumber => (fields.return_number, 15u8),
        PointField::NumberOfReturns => (fields.number_of_returns, 15u8),
        PointField::Synthetic => (fields.synthetic, 1u8),
        PointField::KeyPoint => (fields.key_point, 1u8),
        PointField::Withheld => (fields.withheld, 1u8),
        PointField::Overlap => (fields.overlap, 1u8),
        PointField::ScanChannel => (fields.scan_channel, 3u8),
        PointField::ScanDirectionFlag => (fields.scan_direction_flag, 1u8),
        PointField::EdgeOfFlightLine => (fields.edge_of_flight_line, 1u8),
    }
}

/// The small fields of a point are refused for one that is too great, by its name, its value and
/// its limit.
pub proof fn law_why_fields_are_refused(index: usize, fields: FieldsModel)
    requires
        checks::checked(flag_checks(index, fields)) is Err,
    ensures
        match checks::checked(flag_checks(index, fields))->Err_0 {
            Error::InvalidInput(
                Fault::FieldOutOfRange { index: at, field, max, value },
            ) => at == index && (value, max) == small_field(fields, field) && value > max,
            _ => false,
        },
{
    reveal_with_fuel(checks::first_error, 10);
}

/// A point is refused for what is wrong with it, and by its own index.
pub proof fn law_why_a_point_is_refused(
    index: usize,
    place: PointPlace,
    fields: FieldsModel,
    bounds: Bounds,
    extra_bytes: u16,
)
    requires
        checks::checked(point_checks(index, place, fields, bounds, extra_bytes)) is Err,
    ensures
        ({
            let own = (fields.x, fields.y, fields.z);
            match checks::checked(point_checks(index, place, fields, bounds, extra_bytes))->Err_0 {
                Error::InvalidInput(Fault::PointNotFinite { index: at, axis }) => at == index && (
                !on_axis(place.xyz, axis).finite() || !on_axis(own, axis).finite()),
                Error::InvalidInput(Fault::PointOutsideBounds { index: at }) => at == index && (
                !bounds.holds(place.xyz.0, place.xyz.1, place.xyz.2) || !bounds.holds(
                    own.0,
                    own.1,
                    own.2,
                )),
                Error::InvalidInput(Fault::PointNotEncodable { index: at, axis }) => at == index && (
                fit_on(place.xyz_fits, axis) == AxisFit::NotFinite || fit_on(
                    place.fields_fits,
                    axis,
                ) == AxisFit::NotFinite),
                Error::InvalidInput(Fault::PointOutOfRange { index: at, axis }) => at == index && (
                fit_on(place.xyz_fits, axis) == AxisFit::OutOfRange || fit_on(
                    place.fields_fits,
                    axis,
                ) == AxisFit::OutOfRange),
                Error::InvalidInput(Fault::CoordinatesDiffer { index: at }) => at == index && !(
                place.xyz.0.same(own.0) && place.xyz.1.same(own.1) && place.xyz.2.same(own.2)),
                Error::InvalidInput(Fault::ScanAngleNotFinite { index: at }) => at == index
                    && !fields.scan_angle.finite(),
                Error::InvalidInput(Fault::ScanAngleOutOfRange { index: at }) => at == index
                    && fields.scan_angle.finite() && angle_check(index, fields.scan_angle) is Err,
                Error::InvalidInput(Fault::ExtraByteCount { index: at, found, expected }) => at
                    == index && expected == extra_bytes && fields.extra_bytes.len() != expected,
                Error::InvalidInput(Fault::GpsTimeNotFinite { index: at }) => at == index
                    && !fields.gps_time.finite(),
                error => checks::checked(flag_checks(index, fields)) == Err::<(), Error>(error),
            }
        }),
{
    let list = point_checks(index, place, fields, bounds, extra_bytes);
    reveal_with_fuel(checks::first_error, 12);
    if checks::checked(flag_checks(index, fields)) is Err {
        law_why_fields_are_refused(index, fields);
    }
}

/// How a triple of coordinates fits on an axis.
pub open spec fn fit_on(fits: (AxisFit, AxisFit, AxisFit), axis: Axis) -> AxisFit {
    match axis {
        Axis::X => fits.0,
        Axis::Y => fits.1,
        Axis::Z => fits.2,
    }
}

/// Records of two lists together hold the GeoTIFF keys of both, and one counts for itself.
pub proof fn law_geotiff_count(a: Seq<las_out::RecordModel>, b: Seq<las_out::RecordModel>, n: int)
    requires
        0 <= n <= b.len(),
    ensures
        geotiff_count(a + b, a.len() + n) == geotiff_count(a, a.len() as int) + geotiff_count(b, n),
        n == 1 ==> (geotiff_count(b, n) == 1 <==> metadata::is_geotiff(b[0])),
        n == 1 ==> geotiff_count(b, n) <= 1,
        geotiff_count(a, 0) == 0,
    decreases n,
{
    reveal_with_fuel(geotiff_count, 2);
    if n == 0 {
        lemma_geotiff_prefix(a, b, a.len() as int);
    } else {
        law_geotiff_count(a, b, n - 1);
        assert((a + b)[a.len() + n - 1] == b[n - 1]);
    }
}

proof fn lemma_geotiff_prefix(
    a: Seq<las_out::RecordModel>,
    b: Seq<las_out::RecordModel>,
    n: int,
)
    requires
        0 <= n <= a.len(),
    ensures
        geotiff_count(a + b, n) == geotiff_count(a, n),
    decreases n,
{
    if n > 0 {
        lemma_geotiff_prefix(a, b, n - 1);
        assert((a + b)[n - 1] == a[n - 1]);
    }
}

/// The model of statistics has the range of times and the count of each return.
pub proof fn law_model_of_stats(stats: PointStats, i: int)
    requires
        0 <= i < 15,
    ensures
        stats@.gpstime_min == stats.gpstime_min,
        stats@.gpstime_max == stats.gpstime_max,
        stats@.counts.len() == 15,
        stats@.counts[i] == stats.extended_return_counts[i],
{
}

} // verus!
