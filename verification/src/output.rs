//! Writing a file step by step: what goes in front, the chunks of the nodes, what goes
//! behind.

use vstd::prelude::*;

use crate::bounds::Bounds;
use crate::bytes;
use crate::decode;
use crate::encode;
use crate::encode::encode_point_record;
use crate::error::{Error, Fault, LasTask, Result};
use crate::float::F64;
use crate::hierarchy::{Entry, VoxelKey};
use crate::info;
use crate::info::CopcInfo;
use crate::las_out;
use crate::las_out::{OutputHeader, RecordModel, Vlr};
use crate::laszip;
use crate::laz_out;
use crate::laz_out::{compress_standalone_chunk, laszip_payload};
use crate::metadata;
use crate::metadata::OutputLasMetadata;
use crate::point_format;
use crate::point_format::PointFormat;
use crate::round_trip;
use crate::round_trip::OutputModel;
use crate::source::{CopcPointFields, FieldsModel};
use crate::validate::PointStats;
use crate::writer;
use crate::writer::{
    finish_head, output_point_format, plan_output, write_head, write_tail, PointData,
};

verus! {

/// The records of a node's points, one after the other.
pub struct NodeEncoder {
    raw: Vec<u8>,
    record_len: usize,
    has_color: bool,
    room: usize,
    points: Ghost<Seq<QuantizedPoint>>,
}

/// A point with its coordinates as multiples of the scale, and its scan angle as a multiple of
/// 0.006 degrees.
#[verifier::ext_equal]
pub struct QuantizedPoint {
    pub fields: FieldsModel,
    pub xyz: (i32, i32, i32),
    pub angle: i16,
}

/// The records of the first `n` points.
pub open spec fn node_bytes(points: Seq<QuantizedPoint>, has_color: bool, n: int) -> Seq<u8>
    decreases n,
{
    if n <= 0 {
        Seq::empty()
    } else {
        node_bytes(points, has_color, n - 1) + encode::point_bytes(
            points[n - 1].fields,
            points[n - 1].xyz,
            points[n - 1].angle,
            has_color,
        )
    }
}

/// Whether a point's record has so many bytes.
pub open spec fn fits_record(point: QuantizedPoint, record_len: nat, has_color: bool) -> bool {
    encode::base_len(has_color) + point.fields.extra_bytes.len() == record_len
}

proof fn lemma_node_prefix(
    a: Seq<QuantizedPoint>,
    b: Seq<QuantizedPoint>,
    has_color: bool,
    n: int,
)
    requires
        0 <= n <= a.len(),
        n <= b.len(),
        forall|i: int| 0 <= i < n ==> a[i] == b[i],
    ensures
        node_bytes(a, has_color, n) == node_bytes(b, has_color, n),
    decreases n,
{
    if n > 0 {
        lemma_node_prefix(a, b, has_color, n - 1);
    }
}

proof fn lemma_node_len(
    points: Seq<QuantizedPoint>,
    record_len: nat,
    has_color: bool,
    n: int,
)
    requires
        0 <= n <= points.len(),
        forall|i: int|
            0 <= i < points.len() ==> fits_record(#[trigger] points[i], record_len, has_color),
    ensures
        node_bytes(points, has_color, n).len() == n * record_len,
    decreases n,
{
    if n > 0 {
        lemma_node_len(points, record_len, has_color, n - 1);
        assert(fits_record(points[n - 1], record_len, has_color));
        encode::lemma_point_len(
            points[n - 1].fields,
            points[n - 1].xyz,
            points[n - 1].angle,
            has_color,
        );
        assert(n * record_len == (n - 1) * record_len + record_len) by (nonlinear_arith);
    } else {
        assert(0 * record_len == 0) by (nonlinear_arith);
    }
}

/// The record of each point stands at its place among the records of a node.
pub proof fn law_node_records(
    points: Seq<QuantizedPoint>,
    record_len: nat,
    has_color: bool,
    n: int,
    i: int,
)
    requires
        0 <= i < n <= points.len(),
        forall|j: int|
            0 <= j < points.len() ==> fits_record(#[trigger] points[j], record_len, has_color),
    ensures
        node_bytes(points, has_color, n).len() == n * record_len,
        0 <= i * record_len,
        i * record_len + record_len <= n * record_len,
        node_bytes(points, has_color, n).subrange(
            i * record_len as int,
            i * record_len + record_len,
        ) == encode::point_bytes(
            points[i].fields,
            points[i].xyz,
            points[i].angle,
            has_color,
        ),
    decreases n,
{
    let all = node_bytes(points, has_color, n);
    let at = i * record_len as int;
    lemma_node_len(points, record_len, has_color, n);
    lemma_node_len(points, record_len, has_color, n - 1);
    assert(0 <= at && at + record_len <= n * record_len) by (nonlinear_arith)
        requires
            0 <= i < n,
            at == i * record_len,
    ;
    if i < n - 1 {
        law_node_records(points, record_len, has_color, n - 1, i);
        assert(all.subrange(at, at + record_len) =~= node_bytes(
            points,
            has_color,
            n - 1,
        ).subrange(at, at + record_len));
    } else {
        let point = points[i];
        let record = encode::point_bytes(point.fields, point.xyz, point.angle, has_color);
        assert(fits_record(points[i], record_len, has_color));
        encode::lemma_point_len(point.fields, point.xyz, point.angle, has_color);
        assert(all.subrange(at, at + record_len) =~= record);
    }
}

impl NodeEncoder {
    pub closed spec fn record_len_of(&self) -> usize {
        self.record_len
    }

    pub closed spec fn has_color_of(&self) -> bool {
        self.has_color
    }

    /// How many more points there is room for.
    pub closed spec fn room_of(&self) -> usize {
        self.room
    }

    /// The points so far.
    pub closed spec fn points_of(&self) -> Seq<QuantizedPoint> {
        self.points@
    }

    /// The bytes are the records of the points so far, and there is room for the points that
    /// are still to come.
    pub closed spec fn wf(&self) -> bool {
        &&& self.raw@ == node_bytes(self.points@, self.has_color, self.points@.len() as int)
        &&& forall|i: int|
            0 <= i < self.points@.len() ==> fits_record(
                #[trigger] self.points@[i],
                self.record_len as nat,
                self.has_color,
            )
        &&& self.record_len >= encode::base_len(self.has_color)
        &&& self.raw@.len() + self.room * self.record_len <= usize::MAX
    }

    /// An encoder for `count` points of `record_len` bytes each.
    pub fn new(count: usize, record_len: usize, has_color: bool) -> (r: Result<NodeEncoder>)
        requires
            record_len >= encode::base_len(has_color),
        ensures
            match r {
                Ok(encoder) => {
                    &&& encoder.wf()
                    &&& count * record_len <= usize::MAX
                    &&& encoder.points_of() == Seq::<QuantizedPoint>::empty()
                    &&& encoder.record_len_of() == record_len
                    &&& encoder.has_color_of() == has_color
                    &&& encoder.room_of() == count
                },
                Err(error) => count * record_len > usize::MAX && error == Error::InvalidInput(
                    Fault::NodeBufferOverflow,
                ),
            },
    {
        match count.checked_mul(record_len) {
            None => Err(Error::InvalidInput(Fault::NodeBufferOverflow)),
            Some(_) => Ok(
                NodeEncoder {
                    raw: Vec::new(),
                    record_len,
                    has_color,
                    room: count,
                    points: Ghost(Seq::empty()),
                },
            ),
        }
    }

    /// Appends the record of a point.
    pub fn point(
        &mut self,
        fields: &CopcPointFields,
        xyz: (i32, i32, i32),
        angle: i16,
        source_index: usize,
    ) -> (r: Result<()>)
        requires
            old(self).wf(),
            old(self).room_of() > 0,
        ensures
            final(self).wf(),
            final(self).record_len_of() == old(self).record_len_of(),
            final(self).has_color_of() == old(self).has_color_of(),
            ({
                let expected = (old(self).record_len_of() - encode::base_len(
                    old(self).has_color_of(),
                )) as usize;
                match r {
                    Ok(_) => {
                        &&& fields.extra_bytes@.len() == expected
                        &&& final(self).points_of() == old(self).points_of().push(
                            (QuantizedPoint { fields: fields@, xyz, angle }),
                        )
                        &&& final(self).room_of() == old(self).room_of() - 1
                    },
                    Err(error) => {
                        &&& fields.extra_bytes@.len() != expected
                        &&& error == Error::InvalidInput(
                            Fault::ExtraByteCount {
                                index: source_index,
                                found: fields.extra_bytes@.len() as usize,
                                expected,
                            },
                        )
                        &&& final(self).points_of() == old(self).points_of()
                        &&& final(self).room_of() == old(self).room_of()
                    },
                }
            }),
    {
        let mut record: Vec<u8> = bytes::zero_bytes(self.record_len);
        encode_point_record(
            record.as_mut_slice(),
            fields,
            xyz,
            angle,
            source_index,
            self.has_color,
        )?;
        proof {
            let room = self.room as int;
            let len = self.record_len as int;
            assert((room - 1) * len + len == room * len) by (nonlinear_arith);
            assert(0 <= (room - 1) * len) by (nonlinear_arith)
                requires
                    room > 0,
                    len >= 0,
            ;
        }
        self.room = self.room - 1;
        bytes::push_bytes(&mut self.raw, record.as_slice());
        proof {
            let before = self.points@;
            let point = QuantizedPoint { fields: fields@, xyz, angle };
            lemma_node_prefix(before, before.push(point), self.has_color, before.len() as int);
            self.points = Ghost(before.push(point));
        }
        Ok(())
    }

    /// The records.
    pub fn into_bytes(self) -> (r: Vec<u8>)
        requires
            self.wf(),
        ensures
            r@ == node_bytes(
                self.points_of(),
                self.has_color_of(),
                self.points_of().len() as int,
            ),
            r@.len() == self.points_of().len() * self.record_len_of(),
    {
        proof {
            lemma_node_len(
                self.points@,
                self.record_len as nat,
                self.has_color,
                self.points@.len() as int,
            );
        }
        self.raw
    }
}

/// What is known of a file before its points are written.
#[derive(Debug)]
pub struct OutputSetup {
    pub has_color: bool,
    pub extra_bytes: u16,
    pub bounds: Bounds,
    pub offset: (F64, F64, F64),
    pub total_points: u64,
    pub stats: PointStats,
}

/// The header that goes in front of the points.
pub open spec fn setup_header(
    setup: OutputSetup,
    metadata: OutputLasMetadata,
    plan: writer::OutputPlan,
    header: OutputHeader,
) -> bool {
    let id = writer::output_format_id(setup.has_color);
    &&& header.point_data_format == id + 128
    &&& header.point_record_length == laz_out::output_record_size(id, setup.extra_bytes)
    &&& header.offset_to_point_data == plan.offset_to_point_data
    &&& header.number_of_vlrs == plan.number_of_vlrs
    &&& header.file_source_id == metadata.file_source_id
    &&& header.global_encoding == metadata.global_encoding
    &&& header.guid == metadata.guid
    &&& header.system_identifier@ == metadata.system_identifier@
    &&& header.generating_software@ == metadata.generating_software@
    &&& header.creation_day_of_year == metadata.creation_day_of_year
    &&& header.creation_year == metadata.creation_year
    &&& header.scale == metadata.scale
    &&& header.offset == setup.offset
    &&& header.bounds == setup.bounds
    &&& header.legacy_point_count == 0
    &&& header.total_point_count == setup.total_points
    &&& header.offset_to_first_evlr == 0
    &&& header.number_of_evlrs == plan.number_of_evlrs
    &&& header.extended_return_counts == setup.stats.extended_return_counts
}

/// The records behind the first two.
pub open spec fn setup_records(metadata: OutputLasMetadata, extras: Seq<RecordModel>) -> Seq<
    RecordModel,
> {
    metadata.regular_crs() + extras + las_out::record_models(metadata.pass_through_vlrs@)
}

/// The plan of the file.
pub open spec fn setup_plan(
    setup: OutputSetup,
    metadata: OutputLasMetadata,
    extras: Seq<RecordModel>,
) -> Result<writer::OutputPlan> {
    let id = writer::output_format_id(setup.has_color);
    if laz_out::output_record_size(id, setup.extra_bytes) > u16::MAX {
        Err(Error::InvalidInput(Fault::RecordLengthOverflow { extra: setup.extra_bytes }))
    } else {
        writer::plan_spec(
            laz_out::output_payload(id, setup.extra_bytes).len(),
            metadata.regular_crs(),
            extras,
            las_out::record_models(metadata.pass_through_vlrs@),
            metadata.evlrs().len(),
        )
    }
}

/// A file that is being written.
pub struct CopcOutput {
    header: OutputHeader,
    laszip: Vec<u8>,
    head: Vec<u8>,
    evlrs: Vec<Vlr>,
    data: PointData,
    format_id: u8,
    extra_bytes: u16,
    times: (F64, F64),
    records: Ghost<Seq<RecordModel>>,
    chunks: Ghost<Seq<Seq<u8>>>,
    nodes: Ghost<Seq<Seq<u8>>>,
}

impl CopcOutput {
    pub closed spec fn header_of(&self) -> OutputHeader {
        self.header
    }

    pub closed spec fn records_of(&self) -> Seq<RecordModel> {
        self.records@
    }

    pub closed spec fn evlrs_of(&self) -> Seq<RecordModel> {
        las_out::record_models(self.evlrs@)
    }

    /// The chunks that were written.
    pub closed spec fn chunks_of(&self) -> Seq<Seq<u8>> {
        self.chunks@
    }

    /// The records of the nodes that were written.
    pub closed spec fn nodes_of(&self) -> Seq<Seq<u8>> {
        self.nodes@
    }

    /// The nodes of the chunks.
    pub closed spec fn entries_of(&self) -> Seq<Entry> {
        self.data.entries@
    }

    pub closed spec fn format_of(&self) -> u8 {
        self.format_id
    }

    pub closed spec fn extra_of(&self) -> u16 {
        self.extra_bytes
    }

    /// The first and the last GPS time of the points.
    pub closed spec fn times_of(&self) -> (F64, F64) {
        self.times
    }

    /// Where the next chunk goes.
    pub closed spec fn position_of(&self) -> u64 {
        self.data.position
    }

    /// The size of a point record.
    pub open spec fn record_size(&self) -> nat {
        laz_out::output_record_size(self.format_of(), self.extra_of())
    }

    /// The head is written but for the info and the place of the EVLRs, and the chunks lie
    /// behind it, one after the other.
    pub closed spec fn wf(&self) -> bool {
        &&& self.format_id == 6 || self.format_id == 7
        &&& self.laszip@ == laz_out::output_payload(self.format_id, self.extra_bytes)
        &&& self.header.point_data_format == self.format_id + 128
        &&& self.header.point_record_length == laz_out::output_record_size(
            self.format_id,
            self.extra_bytes,
        )
        &&& self.head@ == writer::head_bytes(
            self.header,
            bytes::zeros(160),
            self.laszip@,
            self.records@,
        )
        &&& self.head@.len() == self.header.offset_to_point_data
        &&& self.head@.len() >= 589
        &&& self.header.number_of_vlrs == 2 + self.records@.len()
        &&& self.header.number_of_evlrs == 1 + self.evlrs@.len()
        &&& self.data.wf()
        &&& self.data.entries@.len() == self.chunks@.len()
        &&& self.data.position == self.head@.len() + 8 + round_trip::joined(
            self.chunks@,
            self.chunks@.len() as int,
        ).len()
        &&& forall|i: int|
            0 <= i < self.chunks@.len() ==> {
                &&& (#[trigger] self.data.entries@[i]).offset == self.head@.len() + 8
                    + round_trip::joined(self.chunks@, i).len()
                &&& self.data.entries@[i].byte_size == self.chunks@[i].len()
            }
        &&& self.nodes@.len() == self.chunks@.len()
        &&& forall|i: int|
            0 <= i < self.nodes@.len() ==> {
                let raw = #[trigger] self.nodes@[i];
                let size = laz_out::output_record_size(self.format_id, self.extra_bytes);
                &&& raw.len() == self.data.entries@[i].point_count * size
                &&& laz_out::unpacks_to(
                    self.format_id,
                    self.extra_bytes,
                    self.chunks@[i],
                    raw,
                )
            }
        &&& forall|i: int|
            0 <= i < self.records@.len() ==> (#[trigger] self.records@[i]).data.len() <= u16::MAX
    }

    /// Starts a file. What comes back besides is what goes in front of the points; the place
    /// of the chunk table follows it, eight bytes long.
    pub fn begin(setup: &OutputSetup, metadata: &OutputLasMetadata, extra_bytes_vlrs: &[Vlr]) -> (r:
        Result<(CopcOutput, Vec<u8>)>)
        ensures
            match r {
                Ok((out, head)) => {
                    let extras = las_out::record_models(extra_bytes_vlrs@);
                    let id = writer::output_format_id(setup.has_color);
                    let plan = setup_plan(*setup, *metadata, extras);
                    &&& plan is Ok
                    &&& out.wf()
                    &&& setup_header(*setup, *metadata, plan->Ok_0, out.header_of())
                    &&& out.format_of() == id
                    &&& out.extra_of() == setup.extra_bytes
                    &&& out.times_of() == (setup.stats.gpstime_min, setup.stats.gpstime_max)
                    &&& out.records_of() == setup_records(*metadata, extras)
                    &&& out.evlrs_of() == metadata.evlrs()
                    &&& out.chunks_of().len() == 0
                    &&& out.entries_of().len() == 0
                    &&& out.nodes_of().len() == 0
                    &&& head@ == writer::head_bytes(
                        out.header_of(),
                        bytes::zeros(160),
                        laz_out::output_payload(id, setup.extra_bytes),
                        out.records_of(),
                    )
                    &&& head@.len() == plan->Ok_0.offset_to_point_data
                },
                Err(error) => setup_plan(
                    *setup,
                    *metadata,
                    las_out::record_models(extra_bytes_vlrs@),
                ) == Err::<writer::OutputPlan, Error>(error),
            },
    {
        let (_, point_record_length) = output_point_format(setup.has_color, setup.extra_bytes)?;
        let format_id: u8 = if setup.has_color {
            7
        } else {
            6
        };
        let laszip = laszip_payload(format_id, setup.extra_bytes)?;
        proof {
            laz_out::law_payload_read_back(format_id, setup.extra_bytes);
        }
        let plan = plan_output(laszip.as_slice(), metadata, extra_bytes_vlrs)?;
        let header = OutputHeader {
            point_data_format: format_id + 128,
            point_record_length,
            offset_to_point_data: plan.offset_to_point_data,
            number_of_vlrs: plan.number_of_vlrs,
            file_source_id: metadata.file_source_id,
            global_encoding: metadata.global_encoding,
            guid: metadata.guid,
            system_identifier: metadata.system_identifier.clone(),
            generating_software: metadata.generating_software.clone(),
            creation_day_of_year: metadata.creation_day_of_year,
            creation_year: metadata.creation_year,
            scale: metadata.scale,
            offset: setup.offset,
            bounds: setup.bounds,
            legacy_point_count: 0,
            total_point_count: setup.total_points,
            offset_to_first_evlr: 0,
            number_of_evlrs: plan.number_of_evlrs,
            extended_return_counts: setup.stats.extended_return_counts,
        };
        let vlrs = join_records(metadata, extra_bytes_vlrs);
        let ghost extras = las_out::record_models(extra_bytes_vlrs@);
        let ghost passed = las_out::record_models(metadata.pass_through_vlrs@);
        proof {
            round_trip::law_plan_is_kept(
                header,
                laszip@,
                metadata.regular_crs(),
                extras,
                passed,
                metadata.evlrs().len(),
            );
        }
        let head = write_head(&header, laszip.as_slice(), vlrs.as_slice())?;
        let data = PointData::new(plan.offset_to_point_data as u64)?;
        let evlrs = metadata.source_evlrs_after_hierarchy();
        let copy = bytes::copy_range(head.as_slice(), 0, head.len());
        let out = CopcOutput {
            header,
            laszip,
            head: copy,
            evlrs,
            data,
            format_id,
            extra_bytes: setup.extra_bytes,
            times: (setup.stats.gpstime_min, setup.stats.gpstime_max),
            records: Ghost(setup_records(*metadata, extras)),
            chunks: Ghost(Seq::empty()),
            nodes: Ghost(Seq::empty()),
        };
        proof {
            assert(head@.subrange(0, head@.len() as int) =~= head@);
            las_out::law_header_read_back(header, 0);
            round_trip::lemma_head_is_long(header, laszip@, out.records@);
            assert(las_out::record_models(out.evlrs@).len() == out.evlrs@.len());
            assert(round_trip::joined(out.chunks@, 0).len() == 0);
        }
        Ok((out, head))
    }

    /// Compresses the records of a node. What comes back is the node's chunk, which is written
    /// behind the others.
    pub fn node(&mut self, key: VoxelKey, raw: &[u8], count: usize) -> (r: Result<Vec<u8>>)
        requires
            old(self).wf(),
            0 < count <= u32::MAX,
            raw@.len() == count * old(self).record_size(),
        ensures
            final(self).wf(),
            final(self).header_of() == old(self).header_of(),
            final(self).records_of() == old(self).records_of(),
            final(self).evlrs_of() == old(self).evlrs_of(),
            final(self).format_of() == old(self).format_of(),
            final(self).extra_of() == old(self).extra_of(),
            final(self).times_of() == old(self).times_of(),
            match r {
                Ok(chunk) => {
                    let entry = PointData::chunk_check(
                        old(self).position_of(),
                        key,
                        count,
                        chunk@.len() as u64,
                    );
                    &&& laz_out::chunk_for(
                        old(self).format_of(),
                        old(self).extra_of(),
                        raw@,
                    ) == Ok::<Seq<u8>, Error>(chunk@)
                    &&& entry is Ok
                    &&& final(self).chunks_of() == old(self).chunks_of().push(chunk@)
                    &&& final(self).entries_of() == old(self).entries_of().push(entry->Ok_0)
                    &&& final(self).nodes_of() == old(self).nodes_of().push(raw@)
                    &&& final(self).position_of() == old(self).position_of() + chunk@.len()
                },
                Err(error) => {
                    &&& final(self).chunks_of() == old(self).chunks_of()
                    &&& final(self).entries_of() == old(self).entries_of()
                    &&& final(self).nodes_of() == old(self).nodes_of()
                    &&& final(self).position_of() == old(self).position_of()
                    &&& match laz_out::chunk_for(
                        old(self).format_of(),
                        old(self).extra_of(),
                        raw@,
                    ) {
                        Ok(chunk) => PointData::chunk_check(
                            old(self).position_of(),
                            key,
                            count,
                            chunk.len() as u64,
                        ) == Err::<Entry, Error>(error),
                        Err(e) => error == e,
                    }
                },
            },
    {
        proof {
            let size = self.record_size() as int;
            vstd::arithmetic::div_mod::lemma_mod_multiples_basic(count as int, size);
            assert(0 < count * size <= size * u32::MAX) by (nonlinear_arith)
                requires
                    0 < count <= u32::MAX,
                    size > 0,
            ;
        }
        let chunk = compress_standalone_chunk(self.format_id, self.extra_bytes, raw)?;
        let len: usize = chunk.len();
        let ghost before = self.chunks@;
        let ghost entries = self.data.entries@;
        let ghost raws = self.nodes@;
        self.data.add_chunk(key, count, len as u64)?;
        proof {
            let after = before.push(chunk@);
            self.chunks = Ghost(after);
            self.nodes = Ghost(raws.push(raw@));
            round_trip::lemma_joined_push(before, chunk@);
            assert forall|i: int| 0 <= i < after.len() implies {
                &&& (#[trigger] self.data.entries@[i]).offset == self.head@.len() + 8
                    + round_trip::joined(after, i).len()
                &&& self.data.entries@[i].byte_size == after[i].len()
            } by {
                round_trip::lemma_joined_prefix(before, chunk@, i);
                if i < before.len() {
                    assert(self.data.entries@[i] == entries[i]);
                }
            }
            assert forall|i: int| 0 <= i < self.nodes@.len() implies {
                let raw = #[trigger] self.nodes@[i];
                let size = laz_out::output_record_size(self.format_id, self.extra_bytes);
                &&& raw.len() == self.data.entries@[i].point_count * size
                &&& laz_out::unpacks_to(
                    self.format_id,
                    self.extra_bytes,
                    self.chunks@[i],
                    raw,
                )
            } by {
                if i < raws.len() {
                    assert(self.nodes@[i] == raws[i]);
                    assert(self.data.entries@[i] == entries[i]);
                }
            }
        }
        Ok(chunk)
    }
}

/// The records behind the first two.
fn join_records(metadata: &OutputLasMetadata, extra_bytes_vlrs: &[Vlr]) -> (r: Vec<Vlr>)
    ensures
        las_out::record_models(r@) == setup_records(
            *metadata,
            las_out::record_models(extra_bytes_vlrs@),
        ),
{
    let mut out = metadata.regular_crs_vlrs();
    push_records(&mut out, extra_bytes_vlrs);
    push_records(&mut out, metadata.pass_through_vlrs.as_slice());
    out
}

fn push_records(out: &mut Vec<Vlr>, more: &[Vlr])
    ensures
        las_out::record_models(final(out)@) == las_out::record_models(old(out)@)
            + las_out::record_models(more@),
{
    let ghost first = las_out::record_models(out@);
    let ghost rest = las_out::record_models(more@);
    let mut i: usize = 0;
    proof {
        assert(first + rest.subrange(0, 0) =~= first);
    }
    while i < more.len()
        invariant
            i <= more@.len(),
            rest == las_out::record_models(more@),
            las_out::record_models(out@) == first + rest.subrange(0, i as int),
        decreases more@.len() - i,
    {
        let ghost before = out@;
        out.push(more[i].clone());
        proof {
            assert(las_out::record_models(out@) =~= las_out::record_models(before).push(
                rest[i as int],
            ));
            assert(las_out::record_models(out@) =~= first + rest.subrange(0, i + 1));
        }
        i = i + 1;
    }
    proof {
        assert(rest.subrange(0, rest.len() as int) =~= rest);
    }
}

/// What goes behind the chunks, and what takes the place of the bytes in front of them.
#[derive(Debug)]
pub struct OutputEnd {
    /// The header and the records, with all that was not known before.
    pub head: Vec<u8>,
    /// The place of the chunk table, which stands behind the head.
    pub place: Vec<u8>,
    /// The chunk table, which stands behind the chunks.
    pub table: Vec<u8>,
    /// The hierarchy and the other EVLRs, which stand behind the chunk table.
    pub tail: Vec<u8>,
}

/// The numbers of the COPC info that the octree gives.
#[derive(Clone, Copy, Debug)]
pub struct OutputCube {
    pub center: (F64, F64, F64),
    pub halfsize: F64,
    pub spacing: F64,
}

/// The COPC info for points of these times and a hierarchy at a place.
pub open spec fn cube_info(
    cube: OutputCube,
    times: (F64, F64),
    root_hier_offset: u64,
    root_hier_size: u64,
) -> CopcInfo {
    CopcInfo {
        center: cube.center,
        halfsize: cube.halfsize,
        spacing: cube.spacing,
        root_hier_offset,
        root_hier_size,
        gpstime_min: times.0,
        gpstime_max: times.1,
    }
}

/// The chunk table for the nodes.
pub open spec fn table_of(entries: Seq<Entry>) -> Option<Seq<u8>> {
    laz_out::laz_chunk_table(
        Seq::new(entries.len(), |i: int| entries[i].point_count as u64),
        Seq::new(entries.len(), |i: int| entries[i].byte_size as u64),
    )
}

/// What [`CopcOutput::finish`] finds wrong: there is no chunk table, its place is no signed
/// number, there is no place for the hierarchy, the hierarchy cannot be written,
/// or the COPC info is not valid.
pub open spec fn end_check(
    entries: Seq<Entry>,
    position: u64,
    evlrs: Seq<RecordModel>,
    cube: OutputCube,
    times: (F64, F64),
) -> Result<()> {
    let first_evlr = position + table_of(entries)->Some_0.len();
    if table_of(entries) is None {
        Err(Error::Las(LasTask::ChunkTable))
    } else if position > i64::MAX {
        Err(Error::InvalidInput(Fault::ChunkTableExceedsI64))
    } else if first_evlr > u64::MAX {
        Err(Error::InvalidInput(Fault::HierarchyOffsetOverflow))
    } else {
        match writer::tail_spec(entries, first_evlr as u64, evlrs) {
            Err(error) => Err(error),
            Ok(tail) => cube_info(
                cube,
                times,
                tail.root_hier_offset,
                tail.root_hier_size,
            ).validity(),
        }
    }
}

impl CopcOutput {
    /// The file that the parts make, where the EVLRs start at `first_evlr`.
    pub open spec fn file(
        &self,
        info: CopcInfo,
        place: Seq<u8>,
        table: Seq<u8>,
        first_evlr: u64,
    ) -> OutputModel {
        OutputModel {
            header: OutputHeader { offset_to_first_evlr: first_evlr, ..self.header_of() },
            info,
            payload: laz_out::output_payload(self.format_of(), self.extra_of()),
            records: self.records_of(),
            place,
            chunks: self.chunks_of(),
            table,
            entries: self.entries_of(),
            evlrs: self.evlrs_of(),
        }
    }

    /// Ends a file.
    pub fn finish(self, cube: &OutputCube) -> (r: Result<OutputEnd>)
        requires
            self.wf(),
            self.entries_of().len() <= u32::MAX,
        ensures
            match r {
                Ok(end) => {
                    let first_evlr = (self.position_of() + end.table@.len()) as u64;
                    let tail = writer::tail_spec(
                        self.entries_of(),
                        first_evlr,
                        self.evlrs_of(),
                    );
                    let info = cube_info(
                        *cube,
                        self.times_of(),
                        tail->Ok_0.root_hier_offset,
                        tail->Ok_0.root_hier_size,
                    );
                    let file = self.file(info, end.place@, end.table@, first_evlr);
                    &&& self.position_of() + end.table@.len() <= u64::MAX
                    &&& tail is Ok
                    &&& info.valid()
                    &&& end.place@ == bytes::le_bytes(self.position_of() as nat, 8)
                    &&& end.head@ == file.head()
                    &&& end.tail@ == tail->Ok_0.bytes
                    &&& file.tail() == tail
                    &&& file.evlr_start() == first_evlr
                    &&& finished(self, info, end.place@, end.table@, first_evlr)
                    &&& table_of(self.entries_of()) == Some(end.table@)
                    &&& end_check(
                        self.entries_of(),
                        self.position_of(),
                        self.evlrs_of(),
                        *cube,
                        self.times_of(),
                    ) is Ok
                },
                Err(error) => end_check(
                    self.entries_of(),
                    self.position_of(),
                    self.evlrs_of(),
                    *cube,
                    self.times_of(),
                ) == Err::<(), Error>(error),
            },
    {
        proof {
            assert(self.data.counts@ =~= Seq::new(
                self.data.entries@.len(),
                |i: int| self.data.entries@[i].point_count as u64,
            ));
            assert(self.data.sizes@ =~= Seq::new(
                self.data.entries@.len(),
                |i: int| self.data.entries@[i].byte_size as u64,
            ));
        }
        let (place, table) = self.data.finish()?;
        let table_len: usize = table.len();
        let first_evlr: u64 = match self.data.position.checked_add(table_len as u64) {
            Some(start) => start,
            None => {
                return Err(Error::InvalidInput(Fault::HierarchyOffsetOverflow));
            },
        };
        let tail = write_tail(self.data.entries.as_slice(), first_evlr, self.evlrs.as_slice())?;
        let info = CopcInfo {
            center: cube.center,
            halfsize: cube.halfsize,
            spacing: cube.spacing,
            root_hier_offset: tail.root_hier_offset,
            root_hier_size: tail.root_hier_size,
            gpstime_min: self.times.0,
            gpstime_max: self.times.1,
        };
        let mut head = bytes::copy_range(self.head.as_slice(), 0, self.head.len());
        proof {
            assert(head@ =~= self.head@);
        }
        finish_head(&mut head, &info, first_evlr)?;
        proof {
            broadcast use bytes::lemma_le_bytes_len;

            let file = self.file(info, place@, table@, first_evlr);
            round_trip::law_finished_head(
                self.header,
                info,
                self.laszip@,
                self.records@,
                first_evlr,
            );
            assert(head@ == file.head());
            info::law_info_round_trip(info);
            round_trip::lemma_head_len(
                self.header,
                info,
                self.laszip@,
                self.records@,
                first_evlr,
            );
            assert(file.data().len() == 8 + round_trip::joined(
                self.chunks@,
                self.chunks@.len() as int,
            ).len() + table@.len());
        }
        Ok(OutputEnd { head, place, table, tail: tail.bytes })
    }
}

/// The file that was written, where it can be read: its parts are not too large, its nodes are
/// distinct, its numbers are in order, and its points are as many as it says.
pub open spec fn readable_file(file: OutputModel) -> bool {
    &&& file.content().len() <= u64::MAX
    &&& las_out::readable(file.header, file.content().len() as u64)
    &&& file.header.total_point_count == crate::index::points_in(file.entries)
    &&& forall|i: int| 0 <= i < file.records.len() ==> !round_trip::taken(#[trigger] file.records[i])
    &&& file.hierarchy_bytes() <= crate::limits::MAX_HIERARCHY_TOTAL_BYTES
    &&& file.pages().len() <= usize::MAX
    &&& file.entries.len() > 0
    &&& crate::page_tree::distinct_keys(file.entries)
    &&& forall|i: int|
        0 <= i < file.entries.len() ==> {
            &&& (#[trigger] file.entries[i]).key.valid()
            &&& file.entries[i].point_count > 0
            &&& 0 < file.entries[i].byte_size <= crate::limits::MAX_POINT_CHUNK_BYTES
        }
}

/// A file that [`CopcOutput::finish`] ended: what was not known in front is what was found
/// behind.
pub open spec fn finished(
    out: CopcOutput,
    info: CopcInfo,
    place: Seq<u8>,
    table: Seq<u8>,
    first_evlr: u64,
) -> bool {
    let file = out.file(info, place, table, first_evlr);
    &&& out.wf()
    &&& place == bytes::le_bytes(out.position_of() as nat, 8)
    &&& first_evlr == out.position_of() + table.len()
    &&& file.tail() is Ok
    &&& info.root_hier_offset == file.tail()->Ok_0.root_hier_offset
    &&& info.root_hier_size == file.tail()->Ok_0.root_hier_size
}

/// A file that was written step by step opens, with the header, the info and the payload that
/// were put into it and all its nodes, whose entries lead to their chunks.
pub proof fn law_written_file_opens(
    out: CopcOutput,
    info: CopcInfo,
    place: Seq<u8>,
    table: Seq<u8>,
    first_evlr: u64,
)
    requires
        finished(out, info, place, table, first_evlr),
        readable_file(out.file(info, place, table, first_evlr)),
    ensures
        ({
            let file = out.file(info, place, table, first_evlr);
            let answer = crate::file::file_loaded(file.content());
            &&& answer is Ok
            &&& crate::file::opens_as(file.content(), answer)
            &&& answer->Ok_0.header == file.header.as_read()
            &&& answer->Ok_0.info == info
            &&& answer->Ok_0.laszip == file.payload
            &&& crate::page_read::holds(
                answer->Ok_0.hierarchy,
                file.pages(),
                out.entries_of().to_set(),
            )
            &&& forall|i: int|
                0 <= i < out.entries_of().len() ==> {
                    let entry = #[trigger] out.entries_of()[i];
                    file.content().subrange(entry.offset as int, entry.offset + entry.byte_size)
                        == out.chunks_of()[i]
                }
        }),
{
    broadcast use bytes::lemma_le_bytes_len;

    let file = out.file(info, place, table, first_evlr);
    laz_out::law_payload_read_back(out.format_of(), out.extra_of());
    round_trip::lemma_head_len(
        out.header,
        info,
        out.laszip@,
        out.records@,
        first_evlr,
    );
    let len = file.chunks.len() as int;
    assert(file.data().len() == 8 + round_trip::joined(file.chunks, len).len() + table.len());
    assert(file.evlr_start() == first_evlr);
    assert(las_out::record_models(out.evlrs@).len() == out.evlrs@.len());
    assert(file.chunks_placed());
    assert(file.consistent());
    round_trip::law_output_opens(file);
    assert forall|i: int| 0 <= i < out.entries_of().len() implies {
        let entry = #[trigger] out.entries_of()[i];
        file.content().subrange(entry.offset as int, entry.offset + entry.byte_size)
            == out.chunks_of()[i]
    } by {
        round_trip::law_entries_lead_to_chunks(file, i);
    }
}

/// The chunk of a node gives the node's records again, but where a GPS time is negative zero.
pub proof fn law_nodes_are_read_back(
    out: CopcOutput,
    info: CopcInfo,
    place: Seq<u8>,
    table: Seq<u8>,
    first_evlr: u64,
    i: int,
)
    requires
        finished(out, info, place, table, first_evlr),
        readable_file(out.file(info, place, table, first_evlr)),
        0 <= i < out.nodes_of().len(),
        laz_out::no_negative_zero(out.nodes_of()[i], out.record_size() as int),
    ensures
        ({
            let content = out.file(info, place, table, first_evlr).content();
            let entry = out.entries_of()[i];
            let model = crate::file::file_loaded(content)->Ok_0;
            let chunk = content.subrange(entry.offset as int, entry.offset + entry.byte_size);
            &&& laszip::record_size_of(model.laszip) == Ok::<usize, Error>(
                out.record_size() as usize,
            )
            &&& laszip::without_waves(model.laszip)
            &&& laszip::readable(model.laszip, chunk, (entry.point_count - 1) as nat)
            &&& laszip::laz_chunk_records(
                model.laszip,
                chunk,
                (entry.point_count * out.record_size()) as nat,
            ) == Some(out.nodes_of()[i])
        }),
{
    law_written_file_opens(out, info, place, table, first_evlr);
    laz_out::law_payload_read_back(out.format_of(), out.extra_of());
    let count = out.entries_of()[i].point_count as int;
    let size = out.record_size() as int;
    assert(out.nodes@[i].len() == count * size);
    vstd::arithmetic::div_mod::lemma_div_multiples_vanish(count, size);
    vstd::arithmetic::mul::lemma_mul_is_commutative(count, size);
}

/// No point has the GPS time negative zero.
pub open spec fn times_kept(points: Seq<QuantizedPoint>) -> bool {
    forall|i: int|
        0 <= i < points.len() ==> (#[trigger] points[i]).fields.gps_time.bits
            != 0x8000_0000_0000_0000
}

/// The layout of the records of an output file.
pub open spec fn output_layout(has_color: bool, extra: u16) -> decode::ExtendedPointLayout {
    decode::layout_of(
        PointFormat {
            extra_bytes: extra,
            ..point_format::format_of(
                if has_color {
                    7
                } else {
                    6
                },
            )
        },
    )->Ok_0
}

/// Each point of a node is read as the record that was written for it.
pub proof fn law_points_are_read_back(
    points: Seq<QuantizedPoint>,
    has_color: bool,
    extra: u16,
    scaled: Seq<decode::ScaledPoint>,
    i: int,
)
    requires
        0 <= i < points.len(),
        forall|j: int|
            0 <= j < points.len() ==> (#[trigger] points[j]).fields.extra_bytes.len() == extra,
    ensures
        ({
            let size = encode::base_len(has_color) + extra;
            let records = node_bytes(points, has_color, points.len() as int);
            &&& records.len() == points.len() * size
            &&& decode::record_at(records, size, i, output_layout(has_color, extra), scaled)
                == encode::written_record(
                points[i].fields,
                points[i].xyz,
                points[i].angle,
                has_color,
                scaled[i],
            )
            &&& times_kept(points) ==> laz_out::no_negative_zero(records, size)
        }),
{
    let size = (encode::base_len(has_color) + extra) as nat;
    let n = points.len() as int;
    let records = node_bytes(points, has_color, n);
    assert forall|j: int| 0 <= j < points.len() implies fits_record(
        #[trigger] points[j],
        size,
        has_color,
    ) by {
        assert(points[j].fields.extra_bytes.len() == extra);
    }
    law_node_records(points, size, has_color, n, i);
    if times_kept(points) {
        assert forall|k: int|
            #![trigger bytes::le_at(records, k * (size as int) + 22, 8)]
            0 <= k && (k + 1) * size <= records.len() implies bytes::le_at(
            records,
            k * (size as int) + 22,
            8,
        ) != 0x8000_0000_0000_0000 by {
            assert(k < n) by (nonlinear_arith)
                requires
                    (k + 1) * size <= n * size,
                    size > 0,
            ;
            law_node_records(points, size, has_color, n, k);
            let point = points[k];
            encode::lemma_time_place(point.fields, point.xyz, point.angle, has_color);
            let at = k * (size as int);
            assert(records.subrange(at + 22, at + 30) =~= records.subrange(
                at,
                at + size,
            ).subrange(22, 30));
            assert(points[k].fields.gps_time.bits != 0x8000_0000_0000_0000);
        }
    }
}

/// The header tells the format of the records.
proof fn lemma_header_layout(out: CopcOutput, first_evlr: u64)
    requires
        out.wf(),
    ensures
        ({
            let header = OutputHeader { offset_to_first_evlr: first_evlr, ..out.header_of() };
            let format = point_format::header_format(header.as_read());
            &&& format is Ok
            &&& decode::layout_of(format->Ok_0)->Ok_0 == output_layout(
                out.format_of() == 7,
                out.extra_of(),
            )
        }),
{
}

/// A point that was written is in the file: the chunk of its node, unpacked, holds the record
/// that was written for it, in the format that the header of the file tells.
pub proof fn law_file_round_trip(
    out: CopcOutput,
    info: CopcInfo,
    place: Seq<u8>,
    table: Seq<u8>,
    first_evlr: u64,
    points: Seq<QuantizedPoint>,
    scaled: Seq<decode::ScaledPoint>,
    i: int,
    j: int,
)
    requires
        finished(out, info, place, table, first_evlr),
        readable_file(out.file(info, place, table, first_evlr)),
        0 <= i < out.nodes_of().len(),
        out.nodes_of()[i] == node_bytes(points, out.format_of() == 7, points.len() as int),
        forall|k: int|
            0 <= k < points.len() ==> (#[trigger] points[k]).fields.extra_bytes.len()
                == out.extra_of(),
        times_kept(points),
        0 <= j < points.len(),
    ensures
        ({
            let content = out.file(info, place, table, first_evlr).content();
            let entry = out.entries_of()[i];
            let model = crate::file::file_loaded(content)->Ok_0;
            let format = point_format::header_format(model.header);
            let size = laszip::record_size_of(model.laszip);
            let chunk = content.subrange(entry.offset as int, entry.offset + entry.byte_size);
            let records = laszip::laz_chunk_records(
                model.laszip,
                chunk,
                (entry.point_count * size->Ok_0) as nat,
            );
            &&& crate::file::file_loaded(content) is Ok
            &&& format is Ok
            &&& size is Ok
            &&& laszip::without_waves(model.laszip)
            &&& laszip::readable(model.laszip, chunk, (entry.point_count - 1) as nat)
            &&& records is Some
            &&& entry.point_count == points.len()
            &&& decode::record_at(
                records->Some_0,
                size->Ok_0 as int,
                j,
                decode::layout_of(format->Ok_0)->Ok_0,
                scaled,
            ) == encode::written_record(
                points[j].fields,
                points[j].xyz,
                points[j].angle,
                out.format_of() == 7,
                scaled[j],
            )
        }),
{
    let has_color = out.format_of() == 7;
    let size = out.record_size() as int;
    lemma_header_layout(out, first_evlr);
    law_points_are_read_back(points, has_color, out.extra_of(), scaled, j);
    law_nodes_are_read_back(out, info, place, table, first_evlr, i);
    law_written_file_opens(out, info, place, table, first_evlr);
    let count = out.entries_of()[i].point_count as int;
    assert(out.nodes@[i].len() == count * size);
    assert(count == points.len()) by (nonlinear_arith)
        requires
            count * size == points.len() * size,
            size > 0,
    ;
}

/// The header of a file tells what the file is made of: its number of points and of points of
/// each return, its bounds, its scale and offset, where it comes from, and of which format its
/// records are.
pub proof fn law_header_of_an_output(
    setup: OutputSetup,
    metadata: OutputLasMetadata,
    plan: writer::OutputPlan,
    header: OutputHeader,
    r: int,
)
    requires
        setup_header(setup, metadata, plan, header),
        1 <= r <= 15,
    ensures
        ({
            let s = header.header_bytes();
            &&& bytes::le_at(s, 247, 8) == setup.total_points
            &&& bytes::le_at(s, 255 + 8 * (r - 1), 8) == setup.stats.extended_return_counts@[r - 1]
            &&& s[104] == 128 + (if setup.has_color {
                7int
            } else {
                6
            })
            &&& bytes::le_at(s, 105, 2) == setup.extra_bytes + (if setup.has_color {
                36int
            } else {
                30
            })
            &&& bytes::le_at(s, 131, 8) == metadata.scale.0.bits
            &&& bytes::le_at(s, 139, 8) == metadata.scale.1.bits
            &&& bytes::le_at(s, 147, 8) == metadata.scale.2.bits
            &&& bytes::le_at(s, 155, 8) == setup.offset.0.bits
            &&& bytes::le_at(s, 163, 8) == setup.offset.1.bits
            &&& bytes::le_at(s, 171, 8) == setup.offset.2.bits
            &&& bytes::le_at(s, 179, 8) == setup.bounds.max.0.bits
            &&& bytes::le_at(s, 187, 8) == setup.bounds.min.0.bits
            &&& bytes::le_at(s, 195, 8) == setup.bounds.max.1.bits
            &&& bytes::le_at(s, 203, 8) == setup.bounds.min.1.bits
            &&& bytes::le_at(s, 211, 8) == setup.bounds.max.2.bits
            &&& bytes::le_at(s, 219, 8) == setup.bounds.min.2.bits
            &&& bytes::le_at(s, 4, 2) == metadata.file_source_id
            &&& bytes::le_at(s, 6, 2) == metadata.global_encoding
            &&& s.subrange(8, 24) == metadata.guid@
            &&& bytes::le_at(s, 90, 2) == metadata.creation_day_of_year
            &&& bytes::le_at(s, 92, 2) == metadata.creation_year
            &&& bytes::le_at(s, 96, 4) == plan.offset_to_point_data
            &&& bytes::le_at(s, 100, 4) == plan.number_of_vlrs
            &&& bytes::le_at(s, 243, 4) == plan.number_of_evlrs
            &&& bytes::le_at(s, 107, 4) == 0
        }),
{
    las_out::law_header_layout(header);
    las_out::law_header_origin(header);
    las_out::law_header_return_counts(header, r - 1);
}

/// The info of a file tells the cube, the range of times, and where the root page is.
pub proof fn law_info_of_an_output(
    cube: OutputCube,
    times: (F64, F64),
    root_hier_offset: u64,
    root_hier_size: u64,
)
    ensures
        ({
            let s = info::info_bytes(cube_info(cube, times, root_hier_offset, root_hier_size));
            &&& s.len() == 160
            &&& bytes::le_at(s, 0, 8) == cube.center.0.bits
            &&& bytes::le_at(s, 8, 8) == cube.center.1.bits
            &&& bytes::le_at(s, 16, 8) == cube.center.2.bits
            &&& bytes::le_at(s, 24, 8) == cube.halfsize.bits
            &&& bytes::le_at(s, 32, 8) == cube.spacing.bits
            &&& bytes::le_at(s, 40, 8) == root_hier_offset
            &&& bytes::le_at(s, 48, 8) == root_hier_size
            &&& bytes::le_at(s, 56, 8) == times.0.bits
            &&& bytes::le_at(s, 64, 8) == times.1.bits
        }),
{
    let own = cube_info(cube, times, root_hier_offset, root_hier_size);
    info::law_info_round_trip(own);
    info::law_info_stands(info::info_bytes(own), 0);
}

/// The records in front of the points are those of the coordinate system, those that describe
/// the extra bytes, and those that are passed through, in this order.
pub proof fn law_records_of_an_output(
    metadata: OutputLasMetadata,
    extras: Seq<RecordModel>,
    record: RecordModel,
)
    ensures
        setup_records(metadata, extras).len() == metadata.regular_crs().len() + extras.len()
            + metadata.pass_through_vlrs@.len(),
        metadata.regular_crs().is_prefix_of(setup_records(metadata, extras)),
        setup_records(metadata, extras).contains(record) <==> {
            ||| metadata.regular_crs().contains(record)
            ||| extras.contains(record)
            ||| las_out::record_models(metadata.pass_through_vlrs@).contains(record)
        },
{
    let a = metadata.regular_crs();
    let b = extras;
    let c = las_out::record_models(metadata.pass_through_vlrs@);
    let all = setup_records(metadata, extras);
    if all.contains(record) {
        let i = choose|i: int| 0 <= i < all.len() && all[i] == record;
        if i < a.len() {
            assert(a[i] == record);
        } else if i < a.len() + b.len() {
            assert(b[i - a.len()] == record);
        } else {
            assert(c[i - a.len() - b.len()] == record);
        }
    }
    if a.contains(record) {
        let i = choose|i: int| 0 <= i < a.len() && a[i] == record;
        assert(all[i] == record);
    }
    if b.contains(record) {
        let i = choose|i: int| 0 <= i < b.len() && b[i] == record;
        assert(all[a.len() + i] == record);
    }
    if c.contains(record) {
        let i = choose|i: int| 0 <= i < c.len() && c[i] == record;
        assert(all[a.len() + b.len() + i] == record);
    }
}

/// An output ends just where there is a chunk table, the places have room, the hierarchy can be
/// written, and the info is valid.
pub proof fn law_end_of_an_output(
    entries: Seq<Entry>,
    position: u64,
    evlrs: Seq<RecordModel>,
    cube: OutputCube,
    times: (F64, F64),
)
    ensures
        end_check(entries, position, evlrs, cube, times) is Ok <==> {
            let first_evlr = position + table_of(entries)->Some_0.len();
            let tail = writer::tail_spec(entries, first_evlr as u64, evlrs);
            &&& table_of(entries) is Some
            &&& position <= i64::MAX
            &&& first_evlr <= u64::MAX
            &&& tail is Ok
            &&& cube_info(
                cube,
                times,
                tail->Ok_0.root_hier_offset,
                tail->Ok_0.root_hier_size,
            ).valid()
        },
{
    let first_evlr = position + table_of(entries)->Some_0.len();
    let tail = writer::tail_spec(entries, first_evlr as u64, evlrs);
    if tail is Ok {
        info::law_valid_info(
            cube_info(cube, times, tail->Ok_0.root_hier_offset, tail->Ok_0.root_hier_size),
        );
    }
}

/// The chunk table is made of the points and the bytes of each node, in the order of the nodes.
pub proof fn law_table_of_an_output(entries: Seq<Entry>, counts: Seq<u64>, sizes: Seq<u64>)
    requires
        counts.len() == entries.len(),
        sizes.len() == entries.len(),
        forall|i: int|
            0 <= i < entries.len() ==> (#[trigger] entries[i]).point_count >= 0
                && entries[i].byte_size >= 0,
        forall|i: int| 0 <= i < entries.len() ==> #[trigger] counts[i] == entries[i].point_count,
        forall|i: int| 0 <= i < entries.len() ==> #[trigger] sizes[i] == entries[i].byte_size,
    ensures
        table_of(entries) == laz_out::laz_chunk_table(counts, sizes),
{
    assert(counts =~= Seq::new(entries.len(), |i: int| entries[i].point_count as u64)) by {
        assert forall|i: int| 0 <= i < entries.len() implies #[trigger] counts[i]
            == entries[i].point_count as u64 by {
            assert(entries[i].point_count >= 0);
        }
    }
    assert(sizes =~= Seq::new(entries.len(), |i: int| entries[i].byte_size as u64)) by {
        assert forall|i: int| 0 <= i < entries.len() implies #[trigger] sizes[i]
            == entries[i].byte_size as u64 by {
            assert(entries[i].byte_size >= 0);
        }
    }
}

/// The extended records behind the hierarchy are those of the coordinate system and then those
/// that are passed through.
pub proof fn law_extended_records_of_an_output(metadata: OutputLasMetadata)
    ensures
        metadata.evlrs() == metadata::crs_kind(
            metadata::crs_models(metadata.crs_records@),
            true,
        ) + las_out::record_models(metadata.pass_through_evlrs@),
        metadata.regular_crs() == metadata::crs_kind(
            metadata::crs_models(metadata.crs_records@),
            false,
        ),
{
}

/// An output starts just where its records have a length that a header can say and its plan is
/// made.
pub proof fn law_start_of_an_output(
    setup: OutputSetup,
    metadata: OutputLasMetadata,
    extras: Seq<RecordModel>,
)
    ensures
        ({
            let base: int = if setup.has_color {
                36
            } else {
                30
            };
            let id: u8 = if setup.has_color {
                7
            } else {
                6
            };
            let plan = writer::plan_spec(
                laz_out::output_payload(id, setup.extra_bytes).len(),
                metadata.regular_crs(),
                extras,
                las_out::record_models(metadata.pass_through_vlrs@),
                metadata.evlrs().len(),
            );
            &&& setup_plan(setup, metadata, extras) is Ok <==> base + setup.extra_bytes <= 0xFFFF
                && plan is Ok
            &&& setup_plan(setup, metadata, extras) is Ok ==> setup_plan(setup, metadata, extras)
                == plan
        }),
{
}

} // verus!
