//! Records on their way through a spill file.

use vstd::prelude::*;

use crate::bounds::Bounds;
use crate::bytes;
use crate::checks;
use crate::error::{Error, Fault, Result};
use crate::float::F64;
use crate::streaming;
use crate::streaming::{
    deserialize_le_into, serialize_le, LasPointRecord, PointModel, StreamingLayout,
};
use crate::validate;
use crate::validate::{
    validate_spill_record, validate_streaming_layout_supported, PointStats, StatsModel,
};
use crate::writer::CopcWriterParams;

verus! {

/// What is known of the records in a spill file.
#[derive(Debug)]
pub struct SpillState {
    layout: StreamingLayout,
    count: u64,
    bounds: Option<Bounds>,
    stats: PointStats,
}

/// What a [`SpillState`] holds.
#[verifier::ext_equal]
pub struct SpillModel {
    pub count: int,
    pub bounds: Option<Bounds>,
    pub stats: StatsModel,
}

/// The box with one more point.
pub open spec fn grown(bounds: Option<Bounds>, record: PointModel) -> Option<Bounds> {
    match bounds {
        Some(bounds) => Some(bounds.extended(record.x, record.y, record.z)),
        None => Some(
            Bounds {
                min: (record.x, record.y, record.z),
                max: (record.x, record.y, record.z),
            },
        ),
    }
}

/// What is known of the first `n` records.
pub open spec fn spilled(records: Seq<PointModel>, n: int) -> SpillModel
    decreases n,
{
    if n <= 0 {
        SpillModel { count: 0, bounds: None, stats: validate::no_stats() }
    } else {
        with_record(spilled(records, n - 1), records[n - 1])
    }
}

pub open spec fn with_record(before: SpillModel, record: PointModel) -> SpillModel {
    SpillModel {
        count: before.count + 1,
        bounds: grown(before.bounds, record),
        stats: validate::recorded(before.stats, record.gps_time, record.return_number),
    }
}

/// What is wrong with a record that is to be the one with the given index.
pub open spec fn intake_check(index: usize, record: PointModel, layout: StreamingLayout) -> Result<
    (),
> {
    match checks::checked(validate::record_checks(index, record)) {
        Err(error) => Err(error),
        Ok(_) => match validate::extra_check(
            index,
            record.extra_bytes.len(),
            layout.extra_bytes,
        ) {
            Err(error) => Err(error),
            Ok(_) => validate::gps_check(index, record.gps_time),
        },
    }
}

impl SpillState {
    pub closed spec fn model(&self) -> SpillModel {
        SpillModel { count: self.count as int, bounds: self.bounds, stats: self.stats@ }
    }

    pub closed spec fn layout_of(&self) -> StreamingLayout {
        self.layout
    }

    /// No count is greater than the number of records.
    #[verifier::type_invariant]
    closed spec fn wf(&self) -> bool {
        forall|i: int| 0 <= i < 15 ==> #[trigger] self.stats.extended_return_counts@[i]
            <= self.count
    }

    pub fn new(layout: StreamingLayout) -> (r: SpillState)
        ensures
            r.layout_of() == layout,
            r.model() == spilled(Seq::empty(), 0),
    {
        SpillState { layout, count: 0, bounds: None, stats: PointStats::new() }
    }

    /// The bytes of a record, if it may be the next one. Nothing is changed yet: the caller
    /// writes the bytes, and only then takes note of the record.
    pub fn encode(&self, record: &LasPointRecord) -> (r: Result<Vec<u8>>)
        requires
            self.model().count <= usize::MAX,
        ensures
            match r {
                Ok(out) => {
                    &&& intake_check(self.model().count as usize, record@, self.layout_of()) is Ok
                    &&& out@ == streaming::record_bytes(record@, self.layout_of())
                },
                Err(error) => intake_check(
                    self.model().count as usize,
                    record@,
                    self.layout_of(),
                ) == Err::<(), Error>(error),
            },
    {
        let index: usize = self.count as usize;
        validate_spill_record(record, index)?;
        let found: usize = record.extra_bytes.len();
        let expected: usize = self.layout.extra_bytes as usize;
        if found != expected {
            return Err(Error::InvalidInput(Fault::ExtraByteCount { index, found, expected }));
        }
        if !record.gps_time.is_finite() {
            return Err(Error::InvalidInput(Fault::GpsTimeNotFinite { index }));
        }
        let mut out: Vec<u8> = bytes::zero_bytes(self.layout.record_width());
        serialize_le(record, &self.layout, out.as_mut_slice());
        Ok(out)
    }

    /// Takes note of a record whose bytes were written.
    pub fn commit(&mut self, record: &LasPointRecord)
        requires
            old(self).model().count < u64::MAX,
            record.gps_time.finite(),
        ensures
            final(self).layout_of() == old(self).layout_of(),
            final(self).model() == with_record(old(self).model(), record@),
    {
        proof {
            use_type_invariant(&*self);
        }
        let mut stats = self.stats;
        let counted = stats.record(0, record.gps_time, record.return_number);
        let bounds = match self.bounds {
            Some(bounds) => {
                let mut larger = bounds;
                larger.extend(record.x, record.y, record.z);
                larger
            },
            None => Bounds::point(record.x, record.y, record.z),
        };
        let count: u64 = self.count + 1;
        proof {
            assert forall|i: int| 0 <= i < 15 implies #[trigger] stats.extended_return_counts@[i]
                <= count by {
                assert(self.stats.extended_return_counts@[i] <= self.count);
                assert(stats@.counts[i] == stats.extended_return_counts@[i]);
            }
        }
        self.count = count;
        self.bounds = Some(bounds);
        self.stats = stats;
    }

    /// The number of records.
    pub fn count(&self) -> (r: u64)
        ensures
            r == self.model().count,
    {
        self.count
    }

    pub fn layout(&self) -> (r: &StreamingLayout)
        ensures
            *r == self.layout_of(),
    {
        &self.layout
    }

    /// The box of the records; a single point where there are none.
    pub fn bounds(&self) -> (r: Bounds)
        ensures
            r == (match self.model().bounds {
                Some(bounds) => bounds,
                None => {
                    let zero = F64 { bits: 0 };
                    Bounds { min: (zero, zero, zero), max: (zero, zero, zero) }
                },
            }),
    {
        match self.bounds {
            Some(bounds) => bounds,
            None => {
                let zero = F64 { bits: 0 };
                Bounds::point(zero, zero, zero)
            },
        }
    }

    pub fn stats(&self) -> (r: PointStats)
        ensures
            r@ == self.model().stats,
    {
        self.stats
    }
}

/// What [`check_spill_size`] answers.
pub open spec fn spill_size(width: usize, count: u64, len: usize) -> Result<usize> {
    if count > usize::MAX {
        Err(Error::InvalidInput(Fault::SpillCountExceedsUsize))
    } else if width * count > usize::MAX {
        Err(Error::InvalidInput(Fault::SpillSizeOverflow))
    } else if len != width * count {
        Err(
            Error::InvalidInput(Fault::SpillSize { len, expected: (width * count) as usize }),
        )
    } else {
        Ok(count as usize)
    }
}

/// The number of records of a spill file, which must have the bytes of all of them.
pub fn check_spill_size(width: usize, count: u64, len: usize) -> (r: Result<usize>)
    ensures
        r == spill_size(width, count, len),
{
    if count > usize::MAX as u64 {
        return Err(Error::InvalidInput(Fault::SpillCountExceedsUsize));
    }
    let records: usize = count as usize;
    match width.checked_mul(records) {
        None => Err(Error::InvalidInput(Fault::SpillSizeOverflow)),
        Some(expected) => {
            if len != expected {
                Err(Error::InvalidInput(Fault::SpillSize { len, expected }))
            } else {
                Ok(records)
            }
        },
    }
}

/// The bytes of the first `n` records, one behind the other.
pub open spec fn spill_bytes(records: Seq<PointModel>, layout: StreamingLayout, n: int) -> Seq<u8>
    decreases n,
{
    if n <= 0 {
        Seq::empty()
    } else {
        spill_bytes(records, layout, n - 1) + streaming::record_bytes(records[n - 1], layout)
    }
}

/// The bytes of the record at `index`.
pub open spec fn record_part(data: Seq<u8>, layout: StreamingLayout, index: int) -> Seq<u8> {
    data.subrange(index * layout.width(), index * layout.width() + layout.width())
}

/// The error for a record that is not there.
pub open spec fn spill_index(index: usize, len: usize) -> Error {
    Error::InvalidInput(Fault::SpillIndex { index, len })
}

fn record_bytes_at<'a>(
    data: &'a [u8],
    layout: &StreamingLayout,
    count: usize,
    index: usize,
) -> (r: Result<&'a [u8]>)
    requires
        data@.len() == count * layout.width(),
    ensures
        match r {
            Ok(part) => index < count && part@ == record_part(data@, *layout, index as int)
                && part@.len() == layout.width(),
            Err(error) => index >= count && error == spill_index(index, count),
        },
{
    if index >= count {
        return Err(Error::InvalidInput(Fault::SpillIndex { index, len: count }));
    }
    let width: usize = layout.record_width();
    proof {
        assert(index * width + width <= count * width) by (nonlinear_arith)
            requires
                0 <= index < count,
                width >= 0,
        ;
        assert(0 <= index * width) by (nonlinear_arith)
            requires
                index >= 0,
                width >= 0,
        ;
    }
    let total: usize = data.len();
    let start: usize = index * width;
    Ok(vstd::slice::slice_subrange(data, start, start + width))
}

/// The coordinates of a record of a spill file.
pub fn spill_xyz_at(data: &[u8], layout: &StreamingLayout, count: usize, index: usize) -> (r: Result<
    (F64, F64, F64),
>)
    requires
        data@.len() == count * layout.width(),
    ensures
        r == (if index >= count {
            Err::<(F64, F64, F64), Error>(spill_index(index, count))
        } else {
            let record = streaming::record_of(
                record_part(data@, *layout, index as int),
                *layout,
            );
            Ok((record.x, record.y, record.z))
        }),
{
    let part = record_bytes_at(data, layout, count, index)?;
    let x = F64 { bits: bytes::read_u64(part, 0) };
    let y = F64 { bits: bytes::read_u64(part, 8) };
    let z = F64 { bits: bytes::read_u64(part, 16) };
    Ok((x, y, z))
}

/// Reads a record of a spill file into one that is there already.
pub fn spill_record_into(
    data: &[u8],
    layout: &StreamingLayout,
    count: usize,
    index: usize,
    out: &mut LasPointRecord,
) -> (r: Result<()>)
    requires
        data@.len() == count * layout.width(),
    ensures
        match r {
            Ok(_) => index < count && final(out)@ == streaming::record_of(
                record_part(data@, *layout, index as int),
                *layout,
            ),
            Err(error) => index >= count && error == spill_index(index, count) && final(out)@
                == old(out)@,
        },
{
    let part = record_bytes_at(data, layout, count, index)?;
    deserialize_le_into(part, layout, out)
}

/// A record of a spill file.
pub fn spill_record_at(data: &[u8], layout: &StreamingLayout, count: usize, index: usize) -> (r:
    Result<LasPointRecord>)
    requires
        data@.len() == count * layout.width(),
    ensures
        match r {
            Ok(record) => index < count && record@ == streaming::record_of(
                record_part(data@, *layout, index as int),
                *layout,
            ),
            Err(error) => index >= count && error == spill_index(index, count),
        },
{
    let mut record = LasPointRecord::default();
    spill_record_into(data, layout, count, index, &mut record)?;
    Ok(record)
}

#[verifier::rlimit(40)]
proof fn lemma_spill_bytes(records: Seq<PointModel>, layout: StreamingLayout, n: int, i: int)
    requires
        0 <= i < n <= records.len(),
        forall|k: int|
            0 <= k < records.len() ==> (#[trigger] records[k]).extra_bytes.len()
                == layout.extra_bytes,
    ensures
        spill_bytes(records, layout, n).len() == n * layout.width(),
        record_part(spill_bytes(records, layout, n), layout, i) == streaming::record_bytes(
            records[i],
            layout,
        ),
    decreases n,
{
    let all = spill_bytes(records, layout, n);
    let before = spill_bytes(records, layout, n - 1);
    let width = layout.width();
    assert(records[n - 1].extra_bytes.len() == layout.extra_bytes);
    streaming::law_record_round_trip(records[n - 1], layout);
    assert((n - 1) * width + width == n * width) by (nonlinear_arith);
    if i < n - 1 {
        lemma_spill_bytes(records, layout, n - 1, i);
        assert(i * width + width <= (n - 1) * width) by (nonlinear_arith)
            requires
                0 <= i < n - 1,
                width >= 0,
        ;
        assert(0 <= i * width) by (nonlinear_arith)
            requires
                0 <= i,
                width >= 0,
        ;
        assert(record_part(all, layout, i) =~= record_part(before, layout, i));
    } else {
        if n > 1 {
            lemma_spill_bytes(records, layout, n - 1, 0);
        } else {
            assert(before =~= Seq::empty());
            assert(0 * width == 0);
        }
        assert(record_part(all, layout, i) =~= streaming::record_bytes(records[i], layout));
    }
}

/// A record that went into a spill file comes out as it was, but for the fields that the
/// layout does not have.
pub proof fn law_spill_round_trip(records: Seq<PointModel>, layout: StreamingLayout, i: int)
    requires
        0 <= i < records.len(),
        forall|k: int|
            0 <= k < records.len() ==> (#[trigger] records[k]).extra_bytes.len()
                == layout.extra_bytes,
    ensures
        ({
            let data = spill_bytes(records, layout, records.len() as int);
            &&& data.len() == records.len() * layout.width()
            &&& streaming::record_of(record_part(data, layout, i), layout) == streaming::kept(
                records[i],
                layout,
            )
        }),
{
    lemma_spill_bytes(records, layout, records.len() as int, i);
    assert(records[i].extra_bytes.len() == layout.extra_bytes);
    streaming::law_record_round_trip(records[i], layout);
}

/// Whether a spill file can be written as COPC: the budget is not zero, the layout has no
/// field that would be lost, and there are points.
pub fn check_spill_for_write(
    params: &CopcWriterParams,
    layout: &StreamingLayout,
    count: usize,
) -> (r: Result<()>)
    ensures
        r == (if params.max_points_per_node == 0 {
            Err::<(), Error>(Error::InvalidInput(Fault::ZeroNodeBudget))
        } else if validate::layout_check(layout.has_nir, layout.has_waveform) is Err {
            validate::layout_check(layout.has_nir, layout.has_waveform)
        } else if count == 0 {
            Err(Error::InvalidInput(Fault::EmptyCloud))
        } else {
            Ok(())
        }),
{
    params.validate()?;
    validate_streaming_layout_supported(layout)?;
    if count == 0 {
        return Err(Error::InvalidInput(Fault::EmptyCloud));
    }
    Ok(())
}

/// A spill counts its records, and its box holds the coordinates of each and goes no further
/// than they do.
pub proof fn law_spilled(records: Seq<PointModel>, n: int, i: int)
    requires
        0 <= i < n <= records.len(),
        forall|k: int|
            0 <= k < records.len() ==> {
                let record = #[trigger] records[k];
                !record.x.nan() && !record.y.nan() && !record.z.nan()
            },
    ensures
        spilled(records, n).count == n,
        spilled(records, n).bounds is Some,
        spilled(records, n).bounds->Some_0.holds(records[i].x, records[i].y, records[i].z),
    decreases n,
{
    let last = records[n - 1];
    if n > 1 {
        if i < n - 1 {
            law_spilled(records, n - 1, i);
        } else {
            law_spilled(records, n - 1, 0);
        }
        assert(spilled(records, n) == with_record(spilled(records, n - 1), last));
    } else {
        assert(spilled(records, 1) == with_record(spilled(records, 0), last));
    }
}

/// A box that holds all records of a spill holds the corners of the spill's box.
pub proof fn law_spilled_box_is_least(records: Seq<PointModel>, n: int, other: Bounds)
    requires
        0 < n <= records.len(),
        forall|k: int|
            0 <= k < n ==> {
                let record = #[trigger] records[k];
                other.holds(record.x, record.y, record.z)
            },
    ensures
        ({
            let own = spilled(records, n).bounds;
            &&& own is Some
            &&& other.holds(own->Some_0.min.0, own->Some_0.min.1, own->Some_0.min.2)
            &&& other.holds(own->Some_0.max.0, own->Some_0.max.1, own->Some_0.max.2)
        }),
    decreases n,
{
    let last = records[n - 1];
    assert(other.holds(last.x, last.y, last.z));
    if n > 1 {
        law_spilled_box_is_least(records, n - 1, other);
        assert(spilled(records, n) == with_record(spilled(records, n - 1), last));
    } else {
        assert(spilled(records, 1) == with_record(spilled(records, 0), last));
    }
}

/// The statistics of a spill are those of the times and the return numbers of its records.
pub proof fn law_spilled_stats(records: Seq<PointModel>, points: Seq<(F64, u8)>, n: int)
    requires
        0 <= n <= records.len(),
        points.len() == records.len(),
        forall|k: int|
            0 <= k < records.len() ==> #[trigger] points[k] == (
                records[k].gps_time,
                records[k].return_number,
            ),
    ensures
        spilled(records, n).stats == validate::stats_of(points, n),
    decreases n,
{
    if n > 0 {
        law_spilled_stats(records, points, n - 1);
        assert(points[n - 1] == (records[n - 1].gps_time, records[n - 1].return_number));
    }
}

/// A spill is read just where it has the bytes of its records, and no others.
pub proof fn law_spill_size(width: usize, count: u64, len: usize)
    ensures
        spill_size(width, count, len) is Ok <==> len == width * count && count <= usize::MAX,
        spill_size(width, count, len) is Ok ==> spill_size(width, count, len)->Ok_0 == count,
{
}

/// A record is taken in just where its fields are accepted, it has the extra bytes of the layout,
/// and its time is finite.
pub proof fn law_intake(index: usize, record: PointModel, layout: StreamingLayout)
    ensures
        intake_check(index, record, layout) is Ok <==> {
            &&& checks::checked(validate::record_checks(index, record)) is Ok
            &&& record.extra_bytes.len() == layout.extra_bytes
            &&& record.gps_time.finite()
        },
{
}

} // verus!
