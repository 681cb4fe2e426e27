//! The layout of an output file: what stands in front of the point data, where the chunks
//! lie, and what stands behind them.

use vstd::prelude::*;

use crate::bytes;
use crate::bytes::{push_bytes, push_le};
use crate::error::{Error, Fault, Result};
use crate::hierarchy;
use crate::hierarchy::{Entry, VoxelKey};
use crate::info;
use crate::info::CopcInfo;
use crate::las_out;
use crate::las_out::{
    write_evlr_header, write_las_evlr, write_las_vlr, write_vlr_header, OutputHeader, RecordModel,
    Vlr, LAS_EVLR_HEADER_BYTES, LAS_VLR_HEADER_BYTES,
};
use crate::laz_out;
use crate::limits::{MAX_EVLR_COUNT, MAX_VLR_COUNT};
use crate::metadata;
use crate::metadata::OutputLasMetadata;
use crate::pages;
use crate::pages::{
    assign_hierarchy_page_offsets, hierarchy_entry, plan_hierarchy_pages,
    write_hierarchy_page_tree,
};
use crate::point_format::PointFormat;
use crate::vlr;

verus! {

/// How points are spread over nodes.
#[derive(Clone, Copy, Debug, PartialEq, Eq, Structural)]
#[non_exhaustive]
pub struct CopcWriterParams {
    pub max_points_per_node: u32,
}

impl CopcWriterParams {
    pub fn new(max_points_per_node: u32) -> (r: CopcWriterParams)
        ensures
            r.max_points_per_node == max_points_per_node,
    {
        CopcWriterParams { max_points_per_node }
    }

    /// Refuses a budget of no points.
    pub fn validate(&self) -> (r: Result<()>)
        ensures
            r == (if self.max_points_per_node == 0 {
                Err::<(), Error>(Error::InvalidInput(Fault::ZeroNodeBudget))
            } else {
                Ok(())
            }),
    {
        if self.max_points_per_node == 0 {
            return Err(Error::InvalidInput(Fault::ZeroNodeBudget));
        }
        Ok(())
    }
}

impl Default for CopcWriterParams {
    fn default() -> (r: CopcWriterParams)
        ensures
            r.max_points_per_node == 100_000,
    {
        CopcWriterParams { max_points_per_node: 100_000 }
    }
}

/// The point format of the output: 7 with colors, else 6.
pub open spec fn output_format_id(has_color: bool) -> u8 {
    if has_color {
        7
    } else {
        6
    }
}

/// The output's point format and the length of a record, or the error where the extra bytes
/// do not fit.
pub fn output_point_format(has_color: bool, extra: u16) -> (r: Result<(PointFormat, u16)>)
    ensures
        ({
            let id = output_format_id(has_color);
            let size = laz_out::output_record_size(id, extra);
            if size > u16::MAX {
                r == Err::<(PointFormat, u16), Error>(
                    Error::InvalidInput(Fault::RecordLengthOverflow { extra }),
                )
            } else {
                &&& r is Ok
                &&& r->Ok_0.0 == (PointFormat {
                    extra_bytes: extra,
                    ..crate::point_format::format_of(id as int)
                })
                &&& r->Ok_0.1 == size
            }
        }),
{
    let id: u8 = if has_color {
        7
    } else {
        6
    };
    let mut format = PointFormat::new(id)?;
    let base: u16 = format.len();
    let length: u16 = match base.checked_add(extra) {
        Some(length) => length,
        None => {
            return Err(Error::InvalidInput(Fault::RecordLengthOverflow { extra }));
        },
    };
    format.extra_bytes = extra;
    Ok((format, length))
}

/// How many records there are, and where the point data start.
#[derive(Clone, Copy, Debug, PartialEq, Eq, Structural)]
pub struct OutputPlan {
    pub number_of_vlrs: u32,
    pub number_of_evlrs: u32,
    pub offset_to_point_data: u32,
}

/// The plan for so many bytes of LASzip payload, for the coordinate system's records, the
/// descriptions of extra bytes, the records that are passed through, and so many EVLRs
/// behind the hierarchy.
pub open spec fn plan_spec(
    payload: nat,
    crs: Seq<RecordModel>,
    extras: Seq<RecordModel>,
    passed: Seq<RecordModel>,
    evlrs: nat,
) -> Result<OutputPlan> {
    let count = 2 + crs.len() + extras.len() + passed.len();
    match metadata::crs_size(crs, crs.len() as int) {
        Err(error) => Err(error),
        Ok(crs_bytes) => match las_out::vlrs_size(extras, extras.len() as int) {
            Err(error) => Err(error),
            Ok(extra_bytes) => match las_out::vlrs_size(passed, passed.len() as int) {
                Err(error) => Err(error),
                Ok(passed_bytes) => {
                    let total = 54 + 160 + 54 + payload + crs_bytes + extra_bytes + passed_bytes;
                    if count > u32::MAX {
                        Err(Error::InvalidInput(Fault::VlrCountOverflow))
                    } else if count > MAX_VLR_COUNT {
                        Err(Error::InvalidInput(Fault::OutputVlrCount { count: count as u32 }))
                    } else if 1 + evlrs > u32::MAX {
                        Err(Error::InvalidInput(Fault::EvlrCountOverflow))
                    } else if 1 + evlrs > MAX_EVLR_COUNT {
                        Err(
                            Error::InvalidInput(
                                Fault::OutputEvlrCount { count: (1 + evlrs) as u32 },
                            ),
                        )
                    } else if payload > u16::MAX {
                        Err(Error::InvalidInput(Fault::LaszipVlrTooLarge))
                    } else if total > u32::MAX {
                        Err(Error::InvalidInput(Fault::VlrBytesOverflow))
                    } else if 375 + total > u32::MAX {
                        Err(Error::InvalidInput(Fault::PointOffsetOverflow))
                    } else {
                        Ok(
                            OutputPlan {
                                number_of_vlrs: count as u32,
                                number_of_evlrs: (1 + evlrs) as u32,
                                offset_to_point_data: (375 + total) as u32,
                            },
                        )
                    }
                },
            },
        },
    }
}

/// Sums two sizes that must stay in the range of LAS offsets.
fn add_bytes(a: u32, b: u32) -> (r: Result<u32>)
    ensures
        r == (if a + b > u32::MAX {
            Err::<u32, Error>(Error::InvalidInput(Fault::VlrBytesOverflow))
        } else {
            Ok((a + b) as u32)
        }),
{
    match a.checked_add(b) {
        Some(sum) => Ok(sum),
        None => Err(Error::InvalidInput(Fault::VlrBytesOverflow)),
    }
}

/// The number of VLRs, if it is one that readers take.
fn count_vlrs(crs: usize, extras: usize, passed: usize) -> (r: Result<u32>)
    ensures
        ({
            let count = 2 + crs + extras + passed;
            r == (if count > u32::MAX {
                Err::<u32, Error>(Error::InvalidInput(Fault::VlrCountOverflow))
            } else if count > MAX_VLR_COUNT {
                Err(Error::InvalidInput(Fault::OutputVlrCount { count: count as u32 }))
            } else {
                Ok(count as u32)
            })
        }),
{
    let limit: usize = u32::MAX as usize;
    if crs > limit || extras > limit || passed > limit {
        return Err(Error::InvalidInput(Fault::VlrCountOverflow));
    }
    let count: u64 = 2 + crs as u64 + extras as u64 + passed as u64;
    if count > u32::MAX as u64 {
        return Err(Error::InvalidInput(Fault::VlrCountOverflow));
    }
    if count > MAX_VLR_COUNT as u64 {
        return Err(Error::InvalidInput(Fault::OutputVlrCount { count: count as u32 }));
    }
    Ok(count as u32)
}

/// The number of EVLRs, the hierarchy among them, if it is one that readers take.
fn count_evlrs(crs: usize, passed: usize) -> (r: Result<u32>)
    ensures
        ({
            let count = 1 + crs + passed;
            r == (if count > u32::MAX {
                Err::<u32, Error>(Error::InvalidInput(Fault::EvlrCountOverflow))
            } else if count > MAX_EVLR_COUNT {
                Err(Error::InvalidInput(Fault::OutputEvlrCount { count: count as u32 }))
            } else {
                Ok(count as u32)
            })
        }),
{
    let limit: usize = u32::MAX as usize;
    if crs > limit || passed > limit {
        return Err(Error::InvalidInput(Fault::EvlrCountOverflow));
    }
    let count: u64 = 1 + crs as u64 + passed as u64;
    if count > u32::MAX as u64 {
        return Err(Error::InvalidInput(Fault::EvlrCountOverflow));
    }
    if count > MAX_EVLR_COUNT as u64 {
        return Err(Error::InvalidInput(Fault::OutputEvlrCount { count: count as u32 }));
    }
    Ok(count as u32)
}

/// Counts the records and their bytes.
pub fn plan_output(payload: &[u8], metadata: &OutputLasMetadata, extra_bytes_vlrs: &[Vlr]) -> (r:
    Result<OutputPlan>)
    ensures
        r == plan_spec(
            payload@.len(),
            metadata.regular_crs(),
            las_out::record_models(extra_bytes_vlrs@),
            las_out::record_models(metadata.pass_through_vlrs@),
            metadata.evlrs().len(),
        ),
{
    let crs_bytes: u32 = metadata.regular_crs_vlr_bytes()?;
    let extra_bytes: u32 = las_out::regular_las_vlrs_bytes(extra_bytes_vlrs)?;
    let passed_bytes: u32 = las_out::regular_las_vlrs_bytes(
        metadata.pass_through_vlrs.as_slice(),
    )?;
    let crs_count: usize = metadata.regular_crs_vlr_count();
    let extra_count: usize = extra_bytes_vlrs.len();
    let passed_count: usize = metadata.pass_through_vlrs.len();
    let number_of_vlrs: u32 = count_vlrs(crs_count, extra_count, passed_count)?;
    let extended = metadata.extended_crs_evlrs();
    let extended_count: usize = extended.len();
    proof {
        assert(las_out::record_models(extended@).len() == extended_count);
    }
    let evlr_count: usize = metadata.pass_through_evlrs.len();
    let number_of_evlrs: u32 = count_evlrs(extended_count, evlr_count)?;
    let payload_len: usize = payload.len();
    if payload_len > u16::MAX as usize {
        return Err(Error::InvalidInput(Fault::LaszipVlrTooLarge));
    }
    let own: u32 = 2 * LAS_VLR_HEADER_BYTES + 160 + payload_len as u32;
    let with_crs: u32 = add_bytes(own, crs_bytes)?;
    let with_extra: u32 = add_bytes(with_crs, extra_bytes)?;
    let total: u32 = add_bytes(with_extra, passed_bytes)?;
    let offset_to_point_data: u32 = match total.checked_add(375) {
        Some(offset) => offset,
        None => {
            return Err(Error::InvalidInput(Fault::PointOffsetOverflow));
        },
    };
    Ok(OutputPlan { number_of_vlrs, number_of_evlrs, offset_to_point_data })
}

/// The COPC info record with the given payload.
pub open spec fn info_record(data: Seq<u8>) -> RecordModel {
    RecordModel {
        user: vlr::copc_user(),
        record_id: vlr::COPC_INFO_RECORD_ID,
        about: vstd::utf8::encode_utf8("COPC info"@),
        data,
    }
}

/// The LASzip record with the given payload.
pub open spec fn laszip_record(data: Seq<u8>) -> RecordModel {
    RecordModel {
        user: vlr::laszip_user(),
        record_id: vlr::LASZIP_RECORD_ID,
        about: vstd::utf8::encode_utf8("http://laszip.org"@),
        data,
    }
}

/// The first two records, then the others.
pub open spec fn output_vlrs(
    info: Seq<u8>,
    payload: Seq<u8>,
    records: Seq<RecordModel>,
) -> Seq<RecordModel> {
    seq![info_record(info), laszip_record(payload)] + records
}

/// What stands in front of the point data: the header and the VLRs.
pub open spec fn head_bytes(
    header: OutputHeader,
    info: Seq<u8>,
    payload: Seq<u8>,
    records: Seq<RecordModel>,
) -> Seq<u8> {
    header.header_bytes() + las_out::vlr_bytes(info_record(info)) + las_out::vlr_bytes(
        laszip_record(payload),
    ) + las_out::vlrs_bytes(records, records.len() as int)
}

/// The first of the records that is too large for a VLR.
pub open spec fn first_too_large(records: Seq<RecordModel>, n: int) -> Result<()>
    decreases n,
{
    if n <= 0 {
        Ok(())
    } else {
        match first_too_large(records, n - 1) {
            Err(error) => Err(error),
            Ok(_) => las_out::vlr_check(records[n - 1]),
        }
    }
}

proof fn lemma_first_too_large(records: Seq<RecordModel>, n: int, m: int)
    requires
        0 <= n <= m,
        first_too_large(records, n) is Err,
    ensures
        first_too_large(records, m) == first_too_large(records, n),
    decreases m,
{
    if n < m {
        lemma_first_too_large(records, n, m - 1);
    }
}

fn write_vlrs(out: &mut Vec<u8>, vlrs: &[Vlr]) -> (r: Result<()>)
    ensures
        r == first_too_large(las_out::record_models(vlrs@), vlrs@.len() as int),
        r is Ok ==> final(out)@ == old(out)@ + las_out::vlrs_bytes(
            las_out::record_models(vlrs@),
            vlrs@.len() as int,
        ),
{
    let ghost records = las_out::record_models(vlrs@);
    let ghost start = out@;
    let count: usize = vlrs.len();
    let mut i: usize = 0;
    proof {
        assert(out@ =~= start + las_out::vlrs_bytes(records, 0));
    }
    while i < count
        invariant
            i <= count,
            count == vlrs@.len(),
            records == las_out::record_models(vlrs@),
            first_too_large(records, i as int) is Ok,
            out@ == start + las_out::vlrs_bytes(records, i as int),
        decreases count - i,
    {
        proof {
            assert(records[i as int] == vlrs@[i as int]@);
            if first_too_large(records, i + 1) is Err {
                lemma_first_too_large(records, i + 1, count as int);
            }
        }
        write_las_vlr(out, &vlrs[i])?;
        proof {
            assert(out@ =~= start + las_out::vlrs_bytes(records, i + 1));
        }
        i = i + 1;
    }
    Ok(())
}

/// What [`write_head`] answers.
pub open spec fn head_spec(
    header: OutputHeader,
    payload: Seq<u8>,
    records: Seq<RecordModel>,
) -> Result<Seq<u8>> {
    let head = head_bytes(header, bytes::zeros(160), payload, records);
    match first_too_large(records, records.len() as int) {
        Err(error) => Err(error),
        Ok(_) => if head.len() != header.offset_to_point_data {
            Err(
                Error::InvalidInput(
                    Fault::VlrAccounting {
                        at: head.len() as u64,
                        expected: header.offset_to_point_data,
                    },
                ),
            )
        } else {
            Ok(head)
        },
    }
}

/// The header and the VLRs, with room for the COPC info, which is not known yet.
pub fn write_head(header: &OutputHeader, payload: &[u8], vlrs: &[Vlr]) -> (r: Result<Vec<u8>>)
    requires
        payload@.len() <= u16::MAX,
    ensures
        match r {
            Ok(head) => head_spec(*header, payload@, las_out::record_models(vlrs@)) == Ok::<
                Seq<u8>,
                Error,
            >(head@),
            Err(error) => head_spec(*header, payload@, las_out::record_models(vlrs@)) == Err::<
                Seq<u8>,
                Error,
            >(error),
        },
{
    let mut out: Vec<u8> = Vec::new();
    header.write(&mut out);
    write_vlr_header(&mut out, "copc", vlr::COPC_INFO_RECORD_ID, 160, "COPC info");
    let room = bytes::zero_bytes(160);
    push_bytes(&mut out, room.as_slice());
    write_vlr_header(
        &mut out,
        "laszip encoded",
        vlr::LASZIP_RECORD_ID,
        payload.len() as u16,
        "http://laszip.org",
    );
    push_bytes(&mut out, payload);
    write_vlrs(&mut out, vlrs)?;
    let ghost records = las_out::record_models(vlrs@);
    proof {
        assert(out@ =~= head_bytes(*header, bytes::zeros(160), payload@, records));
    }
    let len: usize = out.len();
    if len as u64 != header.offset_to_point_data as u64 {
        return Err(
            Error::InvalidInput(
                Fault::VlrAccounting { at: len as u64, expected: header.offset_to_point_data },
            ),
        );
    }
    Ok(out)
}

/// A head with the COPC info and the place of the EVLRs put in.
pub open spec fn finished_head(head: Seq<u8>, info: Seq<u8>, first_evlr: u64) -> Seq<u8> {
    bytes::splice(bytes::splice(head, 429, info), 235, bytes::le_bytes(first_evlr as nat, 8))
}

/// Puts the COPC info and the place of the EVLRs into a head.
pub fn finish_head(head: &mut Vec<u8>, info: &CopcInfo, first_evlr: u64) -> (r: Result<()>)
    requires
        old(head)@.len() >= 589,
    ensures
        match r {
            Ok(_) => info.valid() && final(head)@ == finished_head(
                old(head)@,
                info::info_bytes(*info),
                first_evlr,
            ),
            Err(error) => info.validity() == Err::<(), Error>(error) && final(head)@ == old(
                head,
            )@,
        },
{
    let payload = info.write_le_bytes()?;
    let mut place: Vec<u8> = Vec::new();
    push_le(&mut place, first_evlr, 8);
    proof {
        broadcast use bytes::lemma_le_bytes_len;

        assert(place@ =~= bytes::le_bytes(first_evlr as nat, 8));
    }
    bytes::put_bytes(head.as_mut_slice(), 429, payload.as_slice());
    bytes::put_bytes(head.as_mut_slice(), 235, place.as_slice());
    Ok(())
}

/// Where the chunks that were written lie.
#[derive(Debug)]
pub struct PointData {
    /// Where the next chunk goes.
    pub position: u64,
    /// The nodes whose chunks were written.
    pub entries: Vec<Entry>,
    /// The number of points of each chunk.
    pub counts: Vec<u64>,
    /// The number of bytes of each chunk.
    pub sizes: Vec<u64>,
}

impl PointData {
    /// The chunks lie one behind the other up to `position`, and their counts are those of
    /// the entries.
    pub open spec fn wf(&self) -> bool {
        &&& self.counts@.len() == self.entries@.len()
        &&& self.sizes@.len() == self.entries@.len()
        &&& forall|i: int|
            0 <= i < self.entries@.len() ==> {
                let entry = #[trigger] self.entries@[i];
                &&& entry.point_count == self.counts@[i]
                &&& entry.byte_size == self.sizes@[i]
                &&& entry.point_count >= 0
                &&& entry.byte_size >= 0
                &&& entry.offset + entry.byte_size == (if i + 1 < self.entries@.len() {
                    self.entries@[i + 1].offset
                } else {
                    self.position
                })
            }
    }

    /// The point data start with the place of the chunk table, then come the chunks.
    pub fn new(start: u64) -> (r: Result<PointData>)
        ensures
            match r {
                Ok(data) => {
                    &&& data.wf()
                    &&& data.entries@.len() == 0
                    &&& data.position == start + 8
                },
                Err(error) => start + 8 > u64::MAX && error == Error::InvalidInput(
                    Fault::PointDataOverflow,
                ),
            },
    {
        match start.checked_add(8) {
            Some(position) => Ok(
                PointData {
                    position,
                    entries: Vec::new(),
                    counts: Vec::new(),
                    sizes: Vec::new(),
                },
            ),
            None => Err(Error::InvalidInput(Fault::PointDataOverflow)),
        }
    }

    /// What [`PointData::add_chunk`] answers.
    pub open spec fn chunk_check(
        position: u64,
        key: VoxelKey,
        count: usize,
        byte_len: u64,
    ) -> Result<Entry> {
        match pages::node_entry(key, position, byte_len, count) {
            Err(error) => Err(error),
            Ok(entry) => if position + byte_len > u64::MAX {
                Err(Error::InvalidInput(Fault::PointDataOverflow))
            } else {
                Ok(entry)
            },
        }
    }

    /// Takes note of a node's chunk, which is written behind the others.
    pub fn add_chunk(&mut self, key: VoxelKey, count: usize, byte_len: u64) -> (r: Result<()>)
        requires
            old(self).wf(),
        ensures
            final(self).wf(),
            match PointData::chunk_check(old(self).position, key, count, byte_len) {
                Ok(entry) => {
                    &&& r is Ok
                    &&& final(self).entries@ == old(self).entries@.push(entry)
                    &&& final(self).position == old(self).position + byte_len
                },
                Err(error) => r == Err::<(), Error>(error) && final(self).entries@ == old(
                    self,
                ).entries@ && final(self).position == old(self).position,
            },
    {
        let entry = hierarchy_entry(key, self.position, byte_len, count)?;
        match self.position.checked_add(byte_len) {
            None => Err(Error::InvalidInput(Fault::PointDataOverflow)),
            Some(position) => {
                let ghost before = self.entries@;
                self.entries.push(entry);
                self.counts.push(count as u64);
                self.sizes.push(byte_len);
                self.position = position;
                proof {
                    assert forall|i: int| 0 <= i < self.entries@.len() implies {
                        let entry = #[trigger] self.entries@[i];
                        &&& entry.point_count == self.counts@[i]
                        &&& entry.byte_size == self.sizes@[i]
                        &&& entry.point_count >= 0
                        &&& entry.byte_size >= 0
                        &&& entry.offset + entry.byte_size == (if i + 1 < self.entries@.len() {
                            self.entries@[i + 1].offset
                        } else {
                            self.position
                        })
                    } by {
                        if i < before.len() {
                            assert(self.entries@[i] == before[i]);
                        }
                    }
                }
                Ok(())
            },
        }
    }

    /// The chunk table, which goes behind the chunks, and its place, which goes in front of
    /// them.
    pub fn finish(&self) -> (r: Result<(Vec<u8>, Vec<u8>)>)
        requires
            self.wf(),
            self.entries@.len() <= u32::MAX,
        ensures
            match r {
                Ok((place, table)) => {
                    &&& self.position <= i64::MAX
                    &&& place@ == bytes::le_bytes(self.position as nat, 8)
                    &&& laz_out::laz_chunk_table(self.counts@, self.sizes@) == Some(table@)
                },
                Err(error) => match laz_out::laz_chunk_table(self.counts@, self.sizes@) {
                    None => error == Error::Las(crate::error::LasTask::ChunkTable),
                    Some(_) => {
                        &&& self.position > i64::MAX
                        &&& error == Error::InvalidInput(Fault::ChunkTableExceedsI64)
                    },
                },
            },
    {
        proof {
            assert forall|i: int| 0 <= i < self.counts@.len() implies #[trigger] self.counts@[i]
                <= i32::MAX by {
                assert(self.entries@[i].point_count == self.counts@[i]);
            }
            assert forall|i: int| 0 <= i < self.sizes@.len() implies #[trigger] self.sizes@[i]
                <= i32::MAX by {
                assert(self.entries@[i].byte_size == self.sizes@[i]);
            }
        }
        let table = laz_out::chunk_table_bytes(self.counts.as_slice(), self.sizes.as_slice())?;
        if self.position > i64::MAX as u64 {
            return Err(Error::InvalidInput(Fault::ChunkTableExceedsI64));
        }
        let mut place: Vec<u8> = Vec::new();
        push_le(&mut place, self.position, 8);
        proof {
            assert(place@ =~= bytes::le_bytes(self.position as nat, 8));
        }
        Ok((place, table))
    }
}

/// What stands behind the point data.
#[derive(Debug)]
pub struct HierarchyTail {
    pub bytes: Vec<u8>,
    pub root_hier_offset: u64,
    pub root_hier_size: u64,
}

/// What a [`HierarchyTail`] holds.
#[verifier::ext_equal]
pub struct TailModel {
    pub bytes: Seq<u8>,
    pub root_hier_offset: u64,
    pub root_hier_size: u64,
}

impl View for HierarchyTail {
    type V = TailModel;

    open spec fn view(&self) -> TailModel {
        TailModel {
            bytes: self.bytes@,
            root_hier_offset: self.root_hier_offset,
            root_hier_size: self.root_hier_size,
        }
    }
}

/// The root of the octree.
pub open spec fn root_key() -> VoxelKey {
    VoxelKey { level: 0, x: 0, y: 0, z: 0 }
}

/// The header of the hierarchy EVLR.
pub open spec fn hierarchy_header(body: nat) -> Seq<u8> {
    las_out::evlr_header(
        vlr::copc_user(),
        vlr::COPC_HIERARCHY_RECORD_ID,
        body,
        vstd::utf8::encode_utf8("COPC hierarchy"@),
    )
}

/// The hierarchy EVLR and the other EVLRs, the first byte of them at `start`.
#[verifier::opaque]
pub open spec fn tail_spec(entries: Seq<Entry>, start: u64, evlrs: Seq<RecordModel>) -> Result<
    TailModel,
> {
    let root = (start + 60) as u64;
    if start + 60 > u64::MAX {
        Err(Error::InvalidInput(Fault::HierarchyOffsetOverflow))
    } else {
        match pages::plan_of(entries, root_key(), 0) {
            Err(error) => Err(error),
            Ok(plan) => match pages::end_of(plan, root, plan.len() as int) {
                Err(error) => Err(error),
                Ok(end) => {
                    let placed = pages::placed(plan, root);
                    match pages::tree_bytes(placed, root, placed.len() as int) {
                        Err(error) => Err(error),
                        Ok(tree) => Ok(
                            TailModel {
                                bytes: hierarchy_header((end - root) as nat) + tree
                                    + las_out::evlrs_bytes(evlrs, evlrs.len() as int),
                                root_hier_offset: root,
                                root_hier_size: placed[0].byte_size,
                            },
                        ),
                    }
                },
            },
        }
    }
}

/// Writes the hierarchy EVLR and the other EVLRs. The first byte will stand at
/// `hierarchy_evlr_start`.
pub fn write_tail(entries: &[Entry], hierarchy_evlr_start: u64, evlrs: &[Vlr]) -> (r: Result<
    HierarchyTail,
>)
    ensures
        match r {
            Ok(tail) => tail_spec(
                entries@,
                hierarchy_evlr_start,
                las_out::record_models(evlrs@),
            ) == Ok::<TailModel, Error>(tail@),
            Err(error) => tail_spec(
                entries@,
                hierarchy_evlr_start,
                las_out::record_models(evlrs@),
            ) == Err::<TailModel, Error>(error),
        },
{
    proof {
        reveal(tail_spec);
    }
    let root_hier_offset: u64 = match hierarchy_evlr_start.checked_add(LAS_EVLR_HEADER_BYTES) {
        Some(offset) => offset,
        None => {
            return Err(Error::InvalidInput(Fault::HierarchyOffsetOverflow));
        },
    };
    let mut plan = plan_hierarchy_pages(entries, VoxelKey::root())?;
    let ghost planned = plan.models();
    let hierarchy_end: u64 = assign_hierarchy_page_offsets(&mut plan, root_hier_offset)?;
    proof {
        pages::law_end_of(planned, root_hier_offset, planned.len() as int);
        pages::lemma_plan_not_empty(entries@, root_key(), 0);
        assert(plan.models().len() == planned.len());
    }
    let mut out: Vec<u8> = Vec::new();
    write_evlr_header(
        &mut out,
        "copc",
        vlr::COPC_HIERARCHY_RECORD_ID,
        hierarchy_end - root_hier_offset,
        "COPC hierarchy",
    );
    let tree = write_hierarchy_page_tree(&plan, root_hier_offset)?;
    push_bytes(&mut out, tree.as_slice());
    let ghost records = las_out::record_models(evlrs@);
    let ghost start = out@;
    let count: usize = evlrs.len();
    let mut i: usize = 0;
    proof {
        assert(out@ =~= start + las_out::evlrs_bytes(records, 0));
    }
    while i < count
        invariant
            i <= count,
            count == evlrs@.len(),
            records == las_out::record_models(evlrs@),
            out@ == start + las_out::evlrs_bytes(records, i as int),
        decreases count - i,
    {
        write_las_evlr(&mut out, &evlrs[i]);
        proof {
            assert(records[i as int] == evlrs@[i as int]@);
            assert(out@ =~= start + las_out::evlrs_bytes(records, i + 1));
        }
        i = i + 1;
    }
    let root_hier_size: u64 = plan.pages[0].byte_size;
    proof {
        assert(plan.models()[0].byte_size == root_hier_size);
        assert(out@ =~= hierarchy_header((hierarchy_end - root_hier_offset) as nat) + tree@
            + las_out::evlrs_bytes(records, count as int));
    }
    Ok(HierarchyTail { bytes: out, root_hier_offset, root_hier_size })
}

/// Points with colors are written in format 7, others in format 6.
pub proof fn law_output_format(has_color: bool)
    ensures
        output_format_id(has_color) == 7 <==> has_color,
        output_format_id(has_color) == 6 <==> !has_color,
        crate::point_format::format_of(output_format_id(has_color) as int).has_color == has_color,
{
}

/// A plan counts all records, the hierarchy's among the extended ones, and puts the points right
/// behind the header and the records.
pub proof fn law_plan_counts(
    payload: nat,
    crs: Seq<RecordModel>,
    extras: Seq<RecordModel>,
    passed: Seq<RecordModel>,
    evlrs: nat,
)
    requires
        plan_spec(payload, crs, extras, passed, evlrs) is Ok,
    ensures
        ({
            let plan = plan_spec(payload, crs, extras, passed, evlrs)->Ok_0;
            &&& plan.number_of_vlrs == crs.len() + extras.len() + passed.len() + 2
            &&& plan.number_of_evlrs == evlrs + 1
            &&& plan.number_of_vlrs <= 4096 && plan.number_of_evlrs <= 4096
            &&& payload <= 0xFFFF
            &&& plan.offset_to_point_data == 375 + (54 + 160) + (54 + payload)
                + las_out::vlrs_bytes(crs, crs.len() as int).len() + las_out::vlrs_bytes(
                extras,
                extras.len() as int,
            ).len() + las_out::vlrs_bytes(passed, passed.len() as int).len()
        }),
{
    metadata::law_crs_size(crs, crs.len() as int);
    las_out::law_vlrs_size(extras, extras.len() as int);
    las_out::law_vlrs_size(passed, passed.len() as int);
}

/// The head of a file is the header, the info as first record, the payload as second, and then
/// the other records.
pub proof fn law_head(
    header: OutputHeader,
    info: Seq<u8>,
    payload: Seq<u8>,
    records: Seq<RecordModel>,
)
    ensures
        ({
            let head = head_bytes(header, info, payload, records);
            let first = las_out::vlr_bytes(info_record(info));
            let second = las_out::vlr_bytes(laszip_record(payload));
            &&& header.header_bytes().is_prefix_of(head)
            &&& first.is_prefix_of(head.skip(header.header_bytes().len() as int))
            &&& second.is_prefix_of(head.skip((header.header_bytes().len() + first.len()) as int))
            &&& head.skip((header.header_bytes().len() + first.len() + second.len()) as int)
                == las_out::vlrs_bytes(records, records.len() as int)
            &&& vlr::is_info(info_record(info).user, info_record(info).record_id)
            &&& info_record(info).data == info
            &&& vlr::is_laszip(laszip_record(payload).user, laszip_record(payload).record_id)
            &&& laszip_record(payload).data == payload
        }),
{
    let head = head_bytes(header, info, payload, records);
    let h = header.header_bytes();
    let first = las_out::vlr_bytes(info_record(info));
    let second = las_out::vlr_bytes(laszip_record(payload));
    assert(head.skip((h.len() + first.len() + second.len()) as int) =~= las_out::vlrs_bytes(
        records,
        records.len() as int,
    ));
}

/// The entry of a chunk leads to the chunk: it has the node's key, the position of the chunk, its
/// bytes and its points.
pub proof fn law_entry_of_a_chunk(position: u64, key: VoxelKey, count: usize, byte_len: u64)
    ensures
        PointData::chunk_check(position, key, count, byte_len) is Ok <==> count <= i32::MAX
            && byte_len <= i32::MAX && position + byte_len <= u64::MAX,
        PointData::chunk_check(position, key, count, byte_len) is Ok ==> {
            let entry = PointData::chunk_check(position, key, count, byte_len)->Ok_0;
            &&& entry.key == key
            &&& entry.offset == position
            &&& entry.byte_size == byte_len
            &&& entry.point_count == count
        },
{
}

/// The tail of a file is the hierarchy's record and behind it the others; its root page stands
/// right behind the record's header.
pub proof fn law_tail(entries: Seq<Entry>, start: u64, evlrs: Seq<RecordModel>)
    requires
        tail_spec(entries, start, evlrs) is Ok,
    ensures
        ({
            let tail = tail_spec(entries, start, evlrs)->Ok_0;
            let others = las_out::evlrs_bytes(evlrs, evlrs.len() as int);
            &&& tail.root_hier_offset == start + 60
            &&& tail.bytes.len() >= 60 + others.len()
            &&& tail.bytes.skip(tail.bytes.len() - others.len()) == others
            &&& tail.bytes.subrange(2, 18) == las_out::padded(vlr::copc_user(), 16)
            &&& bytes::le_at(tail.bytes, 18, 2) == 1000
        }),
{
    broadcast use bytes::lemma_le_bytes_len;

    reveal(tail_spec);
    let tail = tail_spec(entries, start, evlrs)->Ok_0;
    let others = las_out::evlrs_bytes(evlrs, evlrs.len() as int);
    let about = vstd::utf8::encode_utf8("COPC hierarchy"@);
    las_out::lemma_padded_len(vlr::copc_user(), 16);
    las_out::lemma_padded_len(about, 32);
    bytes::lemma_pow256_values();
    assert(tail.bytes.skip(tail.bytes.len() - others.len()) =~= others);
    assert(tail.bytes.subrange(2, 18) =~= las_out::padded(vlr::copc_user(), 16));
    assert(tail.bytes.subrange(18, 20) =~= bytes::le_bytes(1000, 2));
    bytes::law_le_of_le_bytes(1000, 2);
}

/// The head is written just where no record is too long for its header and the head ends where
/// the header says that the points start.
pub proof fn law_head_is_written(
    header: OutputHeader,
    payload: Seq<u8>,
    records: Seq<RecordModel>,
)
    ensures
        head_spec(header, payload, records) is Ok <==> {
            &&& head_bytes(header, bytes::zeros(160), payload, records).len()
                == header.offset_to_point_data
            &&& forall|i: int|
                0 <= i < records.len() ==> (#[trigger] records[i]).data.len() <= 0xFFFF
        },
        head_spec(header, payload, records) is Ok ==> head_spec(header, payload, records)->Ok_0
            == head_bytes(header, bytes::zeros(160), payload, records),
{
    lemma_too_large(records, records.len() as int);
}

proof fn lemma_too_large(records: Seq<RecordModel>, n: int)
    requires
        0 <= n <= records.len(),
    ensures
        first_too_large(records, n) is Ok <==> forall|i: int|
            0 <= i < n ==> (#[trigger] records[i]).data.len() <= 0xFFFF,
    decreases n,
{
    if n > 0 {
        lemma_too_large(records, n - 1);
    }
}

/// The records of COPC and of LASzip are told as such.
pub proof fn law_record_texts(data: Seq<u8>)
    ensures
        info_record(data).about == vstd::utf8::encode_utf8("COPC info"@),
        info_record(data).user == vstd::utf8::encode_utf8("copc"@),
        laszip_record(data).about == vstd::utf8::encode_utf8("http://laszip.org"@),
        laszip_record(data).user == vstd::utf8::encode_utf8("laszip encoded"@),
        hierarchy_header(data.len()).len() == 60,
        hierarchy_header(data.len()).subrange(28, 60) == las_out::padded(
            vstd::utf8::encode_utf8("COPC hierarchy"@),
            32,
        ),
{
    broadcast use bytes::lemma_le_bytes_len;

    let about = vstd::utf8::encode_utf8("COPC hierarchy"@);
    las_out::lemma_padded_len(vlr::copc_user(), 16);
    las_out::lemma_padded_len(about, 32);
    assert(hierarchy_header(data.len()).subrange(28, 60) =~= las_out::padded(about, 32));
}

/// An output is planned just where no record is too long for its header, there are no more
/// records than the limits, and the points start where the header can say.
pub proof fn law_plan_is_owed(
    payload: nat,
    crs: Seq<RecordModel>,
    extras: Seq<RecordModel>,
    passed: Seq<RecordModel>,
    evlrs: nat,
)
    ensures
        ({
            let size = |records: Seq<RecordModel>|
                las_out::vlrs_bytes(records, records.len() as int).len();
            let fit = |records: Seq<RecordModel>|
                forall|i: int|
                    0 <= i < records.len() ==> (#[trigger] records[i]).data.len() <= 0xFFFF;
            plan_spec(payload, crs, extras, passed, evlrs) is Ok <==> {
                &&& fit(crs) && fit(extras) && fit(passed)
                &&& payload <= 0xFFFF
                &&& crs.len() + extras.len() + passed.len() + 2 <= 4096
                &&& evlrs + 1 <= 4096
                &&& 375 + 214 + 54 + payload + size(crs) + size(extras) + size(passed) <= u32::MAX
            }
        }),
{
    let (a, b, c) = (crs.len() as int, extras.len() as int, passed.len() as int);
    las_out::law_refused_records(crs, a);
    las_out::law_refused_records(extras, b);
    las_out::law_refused_records(passed, c);
    metadata::law_refused_crs(crs, a);
    if las_out::vlrs_size(crs, a) is Ok {
        las_out::law_vlrs_size(crs, a);
    }
    if las_out::vlrs_size(extras, b) is Ok {
        las_out::law_vlrs_size(extras, b);
    }
    if las_out::vlrs_size(passed, c) is Ok {
        las_out::law_vlrs_size(passed, c);
    }
}

} // verus!
