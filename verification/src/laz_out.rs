//! LAZ output: the payload of the LASzip VLR, compressed chunks, and the chunk table.

use vstd::prelude::*;

use crate::bytes;
use crate::error::{Error, Fault, LasTask, Result};
use crate::gps_time;
use crate::gps_time::gps_steps_fit;
use crate::laszip;

verus! {

/// The description of one item of a record: kind, size and version.
pub open spec fn item(kind: nat, size: nat) -> Seq<u8> {
    bytes::le_bytes(kind, 2) + bytes::le_bytes(size, 2) + bytes::le_bytes(3, 2)
}

/// The items of the records of point format 6 or 7 with so many extra bytes.
pub open spec fn items(format_id: u8, extra: u16) -> Seq<u8> {
    let color = if format_id == 7 {
        item(11, 6)
    } else {
        Seq::empty()
    };
    let rest = if extra > 0 {
        item(14, extra as nat)
    } else {
        Seq::empty()
    };
    item(10, 30) + color + rest
}

/// How many items there are.
pub open spec fn items_len(format_id: u8, extra: u16) -> nat {
    let color: nat = if format_id == 7 {
        1
    } else {
        0
    };
    let rest: nat = if extra > 0 {
        1
    } else {
        0
    };
    1 + color + rest
}

/// The payload of the LASzip VLR: layered chunks of varying size, no special EVLRs.
pub open spec fn output_payload(format_id: u8, extra: u16) -> Seq<u8> {
    bytes::le_bytes(3, 2) + bytes::le_bytes(0, 2) + seq![2u8, 2u8] + bytes::le_bytes(0, 2)
        + bytes::le_bytes(0, 4) + bytes::le_bytes(u32::MAX as nat, 4) + bytes::le_bytes(
        u64::MAX as nat,
        8,
    ) + bytes::le_bytes(u64::MAX as nat, 8) + bytes::le_bytes(items_len(format_id, extra), 2)
        + items(format_id, extra)
}

/// The bytes of a point record of format 6 or 7.
pub open spec fn output_record_size(format_id: u8, extra: u16) -> nat {
    if format_id == 7 {
        36 + extra as nat
    } else {
        30 + extra as nat
    }
}

/// The payload that `laz::LazVlrBuilder` makes for a point format, with chunks of varying
/// size, as `laz::LazVlr::write_to` writes it.
///
/// Claimed: for formats 6 and 7 there is one, and these are its bytes.
#[verifier::external_body]
fn build_payload(format_id: u8, extra: u16) -> (r: Option<Vec<u8>>)
    requires
        format_id == 6 || format_id == 7,
    ensures
        r is Some,
        r->Some_0@ == output_payload(format_id, extra),
{
    let builder = laz::LazVlrBuilder::default().with_point_format(format_id, extra).ok()?;
    let vlr = builder.with_variable_chunk_size().build();
    let mut payload = Vec::new();
    vlr.write_to(&mut payload).ok()?;
    Some(payload)
}

/// The payload of the LASzip VLR for records of format 6 or 7.
pub fn laszip_payload(format_id: u8, extra: u16) -> (r: Result<Vec<u8>>)
    requires
        format_id == 6 || format_id == 7,
    ensures
        r matches Ok(payload) && payload@ == output_payload(format_id, extra),
{
    match build_payload(format_id, extra) {
        Some(payload) => Ok(payload),
        None => Err(Error::Las(LasTask::LaszipVlr)),
    }
}

/// No record of `size` bytes has the GPS time negative zero, which the codec does not tell
/// from zero.
pub open spec fn no_negative_zero(raw: Seq<u8>, size: int) -> bool {
    forall|i: int|
        #![trigger bytes::le_at(raw, i * size + 22, 8)]
        0 <= i && (i + 1) * size <= raw.len() ==> bytes::le_at(raw, i * size + 22, 8)
            != 0x8000_0000_0000_0000
}

/// What is known of the chunk of some records: where the sizes of its layers fit their place,
/// the codec can read it, and unpacking it gives the records again, but for GPS times of
/// negative zero.
pub open spec fn unpacks_to(format_id: u8, extra: u16, chunk: Seq<u8>, raw: Seq<u8>) -> bool {
    let payload = output_payload(format_id, extra);
    let size = output_record_size(format_id, extra) as int;
    chunk.len() <= u32::MAX ==> {
        &&& laszip::readable(payload, chunk, (raw.len() as int / size - 1) as nat)
        &&& no_negative_zero(raw, size)
            ==> laszip::laz_chunk_records(payload, chunk, raw.len()) == Some(raw)
    }
}

/// The stream that the codec makes of records, where it makes one: the place of the chunk
/// table, the chunk, the table.
pub uninterp spec fn laz_stream(format_id: u8, extra: u16, raw: Seq<u8>) -> Option<Seq<u8>>;

/// Compresses records into a stream of one chunk with `laz::LasZipCompressor`.
///
/// Claimed: whether there is a stream, and which, is a function of the records; it starts with
/// the position of the chunk table, and the chunk lies between that number and the table.
/// Unless the chunk is so long that the 32-bit sizes of its layers may not hold them, the codec
/// can read it: the coder of a layer keeps its value below the end of the interval
/// `0 .. 0xFFFF_FFFF`, and the numbers that are read are those that were written. Decompressing
/// it gives the records again, but for GPS times of negative zero. What the chunk's bytes are,
/// and that there is a stream for all records, is not stated.
///
/// The codec adds the sizes of the items up in 16 bits, so that longer records are left out.
/// Of what it adds, subtracts and multiplies for the points, only the steps between GPS times
/// can leave their range: `i64` where it subtracts the last time, `i32` where it multiplies a
/// step by 500. Records with such steps are left out.
#[verifier::external_body]
fn compress_stream(format_id: u8, extra: u16, raw: &[u8]) -> (r: std::result::Result<
    Vec<u8>,
    laz::LasZipError,
>)
    requires
        format_id == 6 || format_id == 7,
        output_record_size(format_id, extra) <= u16::MAX,
        raw@.len() > 0,
        raw@.len() as int % output_record_size(format_id, extra) as int == 0,
        raw@.len() <= output_record_size(format_id, extra) * u32::MAX,
        gps_time::steps_fit(raw@, output_record_size(format_id, extra) as int),
    ensures
        r is Ok ==> laz_stream(format_id, extra, raw@) == Some(r->Ok_0@),
        r is Err ==> laz_stream(format_id, extra, raw@) is None,
        r is Ok ==> 8 <= bytes::le_at(r->Ok_0@, 0, 8) <= r->Ok_0@.len(),
        r is Ok ==> bytes::le_at(r->Ok_0@, 0, 8) <= i64::MAX,
        r is Ok ==> unpacks_to(
            format_id,
            extra,
            r->Ok_0@.subrange(8, bytes::le_at(r->Ok_0@, 0, 8) as int),
            raw@,
        ),
{
    let builder = laz::LazVlrBuilder::default().with_point_format(format_id, extra)?;
    let vlr = builder.with_variable_chunk_size().build();
    let mut stream = std::io::Cursor::new(Vec::new());
    let mut compressor = laz::LasZipCompressor::new(&mut stream, vlr)?;
    compressor.compress_many(raw)?;
    compressor.done()?;
    drop(compressor);
    Ok(stream.into_inner())
}

/// What [`chunk_of_stream`] answers.
pub open spec fn chunk_in(stream: Seq<u8>) -> Result<Seq<u8>> {
    let end = bytes::le_at(stream, 0, 8) as int;
    if stream.len() < 8 {
        Err(Error::InvalidData(Fault::TruncatedStream))
    } else if end > i64::MAX {
        Err(Error::InvalidData(Fault::ChunkTableOffset))
    } else if end < 8 || end > stream.len() {
        Err(Error::InvalidData(Fault::ChunkTableOutside))
    } else {
        Ok(stream.subrange(8, end))
    }
}

/// What [`compress_standalone_chunk`] answers.
pub open spec fn chunk_for(format_id: u8, extra: u16, raw: Seq<u8>) -> Result<Seq<u8>> {
    if !gps_time::steps_fit(raw, output_record_size(format_id, extra) as int) {
        Err(Error::InvalidInput(Fault::GpsTimeSteps))
    } else {
        match laz_stream(format_id, extra, raw) {
            Some(stream) => chunk_in(stream),
            None => Err(Error::Las(LasTask::CompressChunk)),
        }
    }
}

/// The bytes of the chunk of a stream of one chunk: what lies between the position of the
/// chunk table and the table.
pub fn chunk_of_stream(stream: &[u8]) -> (r: Result<Vec<u8>>)
    ensures
        match r {
            Ok(chunk) => chunk_in(stream@) == Ok::<Seq<u8>, Error>(chunk@),
            Err(error) => chunk_in(stream@) == Err::<Seq<u8>, Error>(error),
        },
{
    let len: usize = stream.len();
    if len < 8 {
        return Err(Error::InvalidData(Fault::TruncatedStream));
    }
    let end: u64 = bytes::read_u64(stream, 0);
    if end > i64::MAX as u64 {
        return Err(Error::InvalidData(Fault::ChunkTableOffset));
    }
    if end < 8 || end > len as u64 {
        return Err(Error::InvalidData(Fault::ChunkTableOutside));
    }
    Ok(bytes::copy_range(stream, 8, end as usize))
}

/// Compresses the records of one node into a chunk. Records with steps between GPS times that
/// the codec cannot hold are refused.
pub fn compress_standalone_chunk(format_id: u8, extra: u16, raw: &[u8]) -> (r: Result<Vec<u8>>)
    requires
        format_id == 6 || format_id == 7,
        output_record_size(format_id, extra) <= u16::MAX,
        raw@.len() > 0,
        raw@.len() as int % output_record_size(format_id, extra) as int == 0,
        raw@.len() <= output_record_size(format_id, extra) * u32::MAX,
    ensures
        match r {
            Ok(chunk) => {
                &&& chunk_for(format_id, extra, raw@) == Ok::<Seq<u8>, Error>(chunk@)
                &&& unpacks_to(format_id, extra, chunk@, raw@)
            },
            Err(error) => {
                &&& chunk_for(format_id, extra, raw@) == Err::<Seq<u8>, Error>(error)
                &&& error == Error::Las(LasTask::CompressChunk) || error == Error::InvalidInput(
                    Fault::GpsTimeSteps,
                )
            },
        },
{
    let base: u16 = if format_id == 7 {
        36
    } else {
        30
    };
    let record_size: usize = base as usize + extra as usize;
    if !gps_steps_fit(raw, record_size) {
        return Err(Error::InvalidInput(Fault::GpsTimeSteps));
    }
    match compress_stream(format_id, extra, raw) {
        Ok(stream) => chunk_of_stream(stream.as_slice()),
        Err(_) => Err(Error::Las(LasTask::CompressChunk)),
    }
}

/// The chunk table for chunks with so many points and bytes, where the codec makes one.
pub uninterp spec fn laz_chunk_table(counts: Seq<u64>, sizes: Seq<u64>) -> Option<Seq<u8>>;

/// The table that `laz::laszip::ChunkTable::write_to` writes for chunks of varying size.
///
/// Claimed: whether there is one, and which, is a function of the chunks' point and byte
/// counts. What its bytes are is not stated.
#[verifier::external_body]
fn chunk_table(counts: &[u64], sizes: &[u64]) -> (r: Option<Vec<u8>>)
    requires
        counts@.len() == sizes@.len(),
        counts@.len() <= u32::MAX,
        forall|i: int| 0 <= i < counts@.len() ==> #[trigger] counts@[i] <= i32::MAX,
        forall|i: int| 0 <= i < sizes@.len() ==> #[trigger] sizes@[i] <= i32::MAX,
    ensures
        r is Some ==> laz_chunk_table(counts@, sizes@) == Some(r->Some_0@),
        r is None ==> laz_chunk_table(counts@, sizes@) is None,
{
    let builder = laz::LazVlrBuilder::default().with_point_format(6, 0).ok()?;
    let vlr = builder.with_variable_chunk_size().build();
    let mut table = laz::laszip::ChunkTable::with_capacity(counts.len());
    for (count, size) in counts.iter().zip(sizes) {
        table.push(laz::laszip::ChunkTableEntry { point_count: *count, byte_count: *size });
    }
    let mut out = Vec::new();
    table.write_to(&mut out, &vlr).ok()?;
    Some(out)
}

/// The chunk table of the point data.
pub fn chunk_table_bytes(counts: &[u64], sizes: &[u64]) -> (r: Result<Vec<u8>>)
    requires
        counts@.len() == sizes@.len(),
        counts@.len() <= u32::MAX,
        forall|i: int| 0 <= i < counts@.len() ==> #[trigger] counts@[i] <= i32::MAX,
        forall|i: int| 0 <= i < sizes@.len() ==> #[trigger] sizes@[i] <= i32::MAX,
    ensures
        match r {
            Ok(table) => laz_chunk_table(counts@, sizes@) == Some(table@),
            Err(error) => laz_chunk_table(counts@, sizes@) is None && error == Error::Las(
                LasTask::ChunkTable,
            ),
        },
{
    match chunk_table(counts, sizes) {
        Some(table) => Ok(table),
        None => Err(Error::Las(LasTask::ChunkTable)),
    }
}

proof fn lemma_item(kind: nat, size: nat)
    requires
        kind <= u16::MAX,
        size <= u16::MAX,
    ensures
        item(kind, size).len() == 6,
        bytes::le_at(item(kind, size), 0, 2) == kind,
        bytes::le_at(item(kind, size), 2, 2) == size,
        bytes::le_at(item(kind, size), 4, 2) == 3,
{
    broadcast use bytes::lemma_le_bytes_len;

    bytes::lemma_pow256_values();
    let s = item(kind, size);
    assert(s.subrange(0, 2) =~= bytes::le_bytes(kind, 2));
    assert(s.subrange(2, 4) =~= bytes::le_bytes(size, 2));
    assert(s.subrange(4, 6) =~= bytes::le_bytes(3, 2));
    bytes::law_le_of_le_bytes(kind, 2);
    bytes::law_le_of_le_bytes(size, 2);
    bytes::law_le_of_le_bytes(3, 2);
}

/// The fields of an item that stands at place `i` of a payload's items.
proof fn lemma_item_at(payload: Seq<u8>, i: int, kind: nat, size: nat)
    requires
        kind <= u16::MAX,
        size <= u16::MAX,
        0 <= i,
        34 + 6 * i + 6 <= payload.len(),
        payload.subrange(34 + 6 * i, 34 + 6 * i + 6) == item(kind, size),
    ensures
        laszip::item_field(payload, i, 0) == kind,
        laszip::item_field(payload, i, 1) == size,
        laszip::item_field(payload, i, 2) == 3,
{
    lemma_item(kind, size);
    let at = 34 + 6 * i;
    let part = payload.subrange(at, at + 6);
    assert(payload.subrange(at, at + 2) =~= part.subrange(0, 2));
    assert(payload.subrange(at + 2, at + 4) =~= part.subrange(2, 4));
    assert(payload.subrange(at + 4, at + 6) =~= part.subrange(4, 6));
}

/// The payload that is written is one that is read: its records have the size of the point
/// format and the extra bytes.
pub proof fn law_payload_read_back(format_id: u8, extra: u16)
    requires
        format_id == 6 || format_id == 7,
    ensures
        laszip::payload_readable(output_payload(format_id, extra)),
        laszip::record_size_of(output_payload(format_id, extra)) == Ok::<usize, Error>(
            output_record_size(format_id, extra) as usize,
        ),
        laszip::without_waves(output_payload(format_id, extra)),
        output_payload(format_id, extra).len() <= 52,
{
    broadcast use bytes::lemma_le_bytes_len;

    let payload = output_payload(format_id, extra);
    let n = items_len(format_id, extra);
    bytes::lemma_pow256_values();
    lemma_item(10, 30);
    lemma_item(11, 6);
    lemma_item(14, extra as nat);
    let list = items(format_id, extra);
    assert(list.len() == 6 * n);
    assert(payload.len() == 34 + 6 * n);
    assert(payload.subrange(0, 2) =~= bytes::le_bytes(3, 2));
    bytes::law_le_of_le_bytes(3, 2);
    assert(payload.subrange(32, 34) =~= bytes::le_bytes(n, 2));
    bytes::law_le_of_le_bytes(n, 2);
    assert(payload.subrange(34, 40) =~= item(10, 30));
    lemma_item_at(payload, 0, 10, 30);
    if format_id == 7 {
        assert(payload.subrange(40, 46) =~= item(11, 6));
        lemma_item_at(payload, 1, 11, 6);
    }
    if extra > 0 {
        let at = n - 1;
        assert(payload.subrange(34 + 6 * at, 40 + 6 * at) =~= item(14, extra as nat));
        lemma_item_at(payload, at, 14, extra as nat);
    }
    assert(laszip::payload_readable(payload));
    reveal_with_fuel(laszip::items_bytes, 4);
}

/// The payload says: layers compressed point by point, by version 2.2, with chunks of varying
/// size, and no records of its own.
pub proof fn law_payload_layout(format_id: u8, extra: u16)
    ensures
        ({
            let s = output_payload(format_id, extra);
            let count: int = 1 + (if format_id == 7 {
                1int
            } else {
                0
            }) + (if extra > 0 {
                1int
            } else {
                0
            });
            &&& s.len() == 34 + 6 * count
            &&& bytes::le_at(s, 0, 2) == 3
            &&& bytes::le_at(s, 2, 2) == 0
            &&& s[4] == 2 && s[5] == 2
            &&& bytes::le_at(s, 6, 2) == 0
            &&& bytes::le_at(s, 8, 4) == 0
            &&& bytes::le_at(s, 12, 4) == 0xFFFF_FFFF
            &&& bytes::le_at(s, 16, 8) == 0xFFFF_FFFF_FFFF_FFFF
            &&& bytes::le_at(s, 24, 8) == 0xFFFF_FFFF_FFFF_FFFF
            &&& bytes::le_at(s, 32, 2) == count
        }),
{
    broadcast use bytes::lemma_le_bytes_len;

    let s = output_payload(format_id, extra);
    bytes::lemma_pow256_values();
    assert(s.subrange(0, 2) =~= bytes::le_bytes(3, 2));
    assert(s.subrange(2, 4) =~= bytes::le_bytes(0, 2));
    assert(s.subrange(6, 8) =~= bytes::le_bytes(0, 2));
    assert(s.subrange(8, 12) =~= bytes::le_bytes(0, 4));
    assert(s.subrange(12, 16) =~= bytes::le_bytes(u32::MAX as nat, 4));
    assert(s.subrange(16, 24) =~= bytes::le_bytes(u64::MAX as nat, 8));
    assert(s.subrange(24, 32) =~= bytes::le_bytes(u64::MAX as nat, 8));
    assert(s.subrange(32, 34) =~= bytes::le_bytes(items_len(format_id, extra), 2));
    bytes::law_le_of_le_bytes(3, 2);
    bytes::law_le_of_le_bytes(0, 2);
    bytes::law_le_of_le_bytes(0, 4);
    bytes::law_le_of_le_bytes(u32::MAX as nat, 4);
    bytes::law_le_of_le_bytes(u64::MAX as nat, 8);
    bytes::law_le_of_le_bytes(items_len(format_id, extra), 2);
}

/// The items of the payload are a point of 30 bytes, in format 7 a color of 6, and the extra
/// bytes, where there are any, all of version 3.
pub proof fn law_payload_items(format_id: u8, extra: u16)
    ensures
        ({
            let s = output_payload(format_id, extra);
            let last: int = if format_id == 7 {
                46
            } else {
                40
            };
            &&& bytes::le_at(s, 34, 2) == 10
            &&& bytes::le_at(s, 36, 2) == 30
            &&& bytes::le_at(s, 38, 2) == 3
            &&& format_id == 7 ==> {
                &&& bytes::le_at(s, 40, 2) == 11
                &&& bytes::le_at(s, 42, 2) == 6
                &&& bytes::le_at(s, 44, 2) == 3
            }
            &&& extra > 0 ==> {
                &&& bytes::le_at(s, last, 2) == 14
                &&& bytes::le_at(s, last + 2, 2) == extra
                &&& bytes::le_at(s, last + 4, 2) == 3
            }
        }),
{
    broadcast use bytes::lemma_le_bytes_len;

    let s = output_payload(format_id, extra);
    bytes::lemma_pow256_values();
    lemma_item_stands(s, 34, 10, 30);
    if format_id == 7 {
        lemma_item_stands(s, 40, 11, 6);
    }
    if extra > 0 {
        let last: int = if format_id == 7 {
            46
        } else {
            40
        };
        lemma_item_stands(s, last, 14, extra as nat);
    }
}

proof fn lemma_item_stands(s: Seq<u8>, at: int, kind: nat, size: nat)
    requires
        0 <= at,
        at + 6 <= s.len(),
        s.subrange(at, at + 6) =~= item(kind, size),
        kind <= u16::MAX,
        size <= u16::MAX,
    ensures
        bytes::le_at(s, at, 2) == kind,
        bytes::le_at(s, at + 2, 2) == size,
        bytes::le_at(s, at + 4, 2) == 3,
{
    broadcast use bytes::lemma_le_bytes_len;

    bytes::lemma_pow256_values();
    let own = s.subrange(at, at + 6);
    assert(s.subrange(at, at + 2) =~= own.subrange(0, 2));
    assert(s.subrange(at + 2, at + 4) =~= own.subrange(2, 4));
    assert(s.subrange(at + 4, at + 6) =~= own.subrange(4, 6));
    assert(own.subrange(0, 2) =~= bytes::le_bytes(kind, 2));
    assert(own.subrange(2, 4) =~= bytes::le_bytes(size, 2));
    assert(own.subrange(4, 6) =~= bytes::le_bytes(3, 2));
    bytes::law_le_of_le_bytes(kind, 2);
    bytes::law_le_of_le_bytes(size, 2);
    bytes::law_le_of_le_bytes(3, 2);
}

/// The chunk of a stream lies between the position of the chunk table, which is its first eight
/// bytes, and the table.
pub proof fn law_chunk_of_a_stream(stream: Seq<u8>)
    ensures
        chunk_in(stream) is Ok <==> stream.len() >= 8 && 8 <= bytes::le_at(stream, 0, 8)
            <= stream.len() && bytes::le_at(stream, 0, 8) <= i64::MAX,
        chunk_in(stream) is Ok ==> {
            &&& chunk_in(stream)->Ok_0.len() + 8 == bytes::le_at(stream, 0, 8)
            &&& chunk_in(stream)->Ok_0.is_prefix_of(stream.skip(8))
        },
{
    if chunk_in(stream) is Ok {
        assert(chunk_in(stream)->Ok_0.is_prefix_of(stream.skip(8)));
    }
}

/// The records of the output have the length of the format with its extra bytes.
pub proof fn law_output_record_size(has_color: bool, extra: u16)
    ensures
        ({
            let id: u8 = if has_color {
                7
            } else {
                6
            };
            let format = crate::point_format::PointFormat {
                extra_bytes: extra,
                ..crate::point_format::format_of(id as int)
            };
            &&& output_record_size(id, extra) == format.record_len()
            &&& format.has_color == has_color
        }),
{
}

/// A chunk is what lies in the stream that the codec writes, wherever the steps between the times
/// have room and there is a stream.
pub proof fn law_chunk_for(format_id: u8, extra: u16, raw: Seq<u8>)
    ensures
        gps_time::steps_fit(raw, output_record_size(format_id, extra) as int) && laz_stream(
            format_id,
            extra,
            raw,
        ) is Some ==> chunk_for(format_id, extra, raw) == chunk_in(
            laz_stream(format_id, extra, raw)->Some_0,
        ),
        chunk_for(format_id, extra, raw) is Ok ==> laz_stream(format_id, extra, raw) is Some,
{
}

} // verus!
