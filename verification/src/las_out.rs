//! The bytes of LAS 1.4 headers, VLRs and EVLRs.

use vstd::prelude::*;

use crate::bounds::Bounds;
use crate::bytes;
use crate::bytes::{push_bytes, push_le};
use crate::error::{Error, Fault, Result};
use crate::float::F64;
use crate::las_header;
use crate::las_header::LasHeader;

verus! {

/// The number of bytes of a VLR's header.
pub const LAS_VLR_HEADER_BYTES: u32 = 54;

/// The number of bytes of an EVLR's header.
pub const LAS_EVLR_HEADER_BYTES: u64 = 60;

/// A record of a LAS file, regular or extended.
#[derive(Debug, PartialEq, Eq)]
pub struct Vlr {
    pub user_id: String,
    pub record_id: u16,
    pub description: String,
    pub data: Vec<u8>,
}

/// What a [`Vlr`] holds, with its texts as bytes.
#[verifier::ext_equal]
pub struct RecordModel {
    pub user: Seq<u8>,
    pub record_id: u16,
    pub about: Seq<u8>,
    pub data: Seq<u8>,
}

impl View for Vlr {
    type V = RecordModel;

    open spec fn view(&self) -> RecordModel {
        RecordModel {
            user: vstd::utf8::encode_utf8(self.user_id@),
            record_id: self.record_id,
            about: vstd::utf8::encode_utf8(self.description@),
            data: self.data@,
        }
    }
}

pub open spec fn record_models(records: Seq<Vlr>) -> Seq<RecordModel> {
    Seq::new(records.len(), |i: int| records[i]@)
}

impl Clone for Vlr {
    fn clone(&self) -> (r: Vlr)
        ensures
            r@ == self@,
    {
        Vlr {
            user_id: self.user_id.clone(),
            record_id: self.record_id,
            description: self.description.clone(),
            data: bytes::copy_range(self.data.as_slice(), 0, self.data.len()),
        }
    }
}

/// `s` cut or filled up with zeros to `n` bytes.
pub open spec fn padded(s: Seq<u8>, n: nat) -> Seq<u8> {
    if s.len() >= n {
        s.subrange(0, n as int)
    } else {
        s + bytes::zeros((n - s.len()) as nat)
    }
}

pub proof fn lemma_padded_len(s: Seq<u8>, n: nat)
    ensures
        padded(s, n).len() == n,
{
}

fn push_padded(out: &mut Vec<u8>, value: &[u8], len: usize)
    ensures
        final(out)@ == old(out)@ + padded(value@, len as nat),
{
    let size: usize = value.len();
    if size >= len {
        let part = bytes::copy_range(value, 0, len);
        push_bytes(out, part.as_slice());
    } else {
        push_bytes(out, value);
        let rest = bytes::zero_bytes(len - size);
        push_bytes(out, rest.as_slice());
        proof {
            assert(out@ =~= old(out)@ + padded(value@, len as nat));
        }
    }
}

/// The header of a VLR.
pub open spec fn vlr_header(user: Seq<u8>, record_id: u16, size: nat, about: Seq<u8>) -> Seq<u8> {
    bytes::le_bytes(0, 2) + padded(user, 16) + bytes::le_bytes(record_id as nat, 2)
        + bytes::le_bytes(size, 2) + padded(about, 32)
}

/// The header of an EVLR.
pub open spec fn evlr_header(user: Seq<u8>, record_id: u16, size: nat, about: Seq<u8>) -> Seq<
    u8,
> {
    bytes::le_bytes(0, 2) + padded(user, 16) + bytes::le_bytes(record_id as nat, 2)
        + bytes::le_bytes(size, 8) + padded(about, 32)
}

pub open spec fn vlr_bytes(record: RecordModel) -> Seq<u8> {
    vlr_header(record.user, record.record_id, record.data.len(), record.about) + record.data
}

pub open spec fn evlr_bytes(record: RecordModel) -> Seq<u8> {
    evlr_header(record.user, record.record_id, record.data.len(), record.about) + record.data
}

/// The first `n` records as VLRs.
pub open spec fn vlrs_bytes(records: Seq<RecordModel>, n: int) -> Seq<u8>
    decreases n,
{
    if n <= 0 {
        Seq::empty()
    } else {
        vlrs_bytes(records, n - 1) + vlr_bytes(records[n - 1])
    }
}

/// The first `n` records as EVLRs.
pub open spec fn evlrs_bytes(records: Seq<RecordModel>, n: int) -> Seq<u8>
    decreases n,
{
    if n <= 0 {
        Seq::empty()
    } else {
        evlrs_bytes(records, n - 1) + evlr_bytes(records[n - 1])
    }
}

/// Appends the header of a VLR.
pub fn write_vlr_header(
    out: &mut Vec<u8>,
    user_id: &str,
    record_id: u16,
    body_size: u16,
    description: &str,
)
    ensures
        final(out)@ == old(out)@ + vlr_header(
            vstd::utf8::encode_utf8(user_id@),
            record_id,
            body_size as nat,
            vstd::utf8::encode_utf8(description@),
        ),
{
    push_le(out, 0, 2);
    push_padded(out, user_id.as_bytes(), 16);
    push_le(out, record_id as u64, 2);
    push_le(out, body_size as u64, 2);
    push_padded(out, description.as_bytes(), 32);
    proof {
        assert(out@ =~= old(out)@ + vlr_header(
            vstd::utf8::encode_utf8(user_id@),
            record_id,
            body_size as nat,
            vstd::utf8::encode_utf8(description@),
        ));
    }
}

/// Appends the header of an EVLR.
pub fn write_evlr_header(
    out: &mut Vec<u8>,
    user_id: &str,
    record_id: u16,
    body_size: u64,
    description: &str,
)
    ensures
        final(out)@ == old(out)@ + evlr_header(
            vstd::utf8::encode_utf8(user_id@),
            record_id,
            body_size as nat,
            vstd::utf8::encode_utf8(description@),
        ),
{
    push_le(out, 0, 2);
    push_padded(out, user_id.as_bytes(), 16);
    push_le(out, record_id as u64, 2);
    push_le(out, body_size, 8);
    push_padded(out, description.as_bytes(), 32);
    proof {
        assert(out@ =~= old(out)@ + evlr_header(
            vstd::utf8::encode_utf8(user_id@),
            record_id,
            body_size as nat,
            vstd::utf8::encode_utf8(description@),
        ));
    }
}

/// The error for a record that is too large for a regular VLR.
pub open spec fn vlr_check(record: RecordModel) -> Result<()> {
    if record.data.len() > u16::MAX {
        Err(
            Error::InvalidInput(
                Fault::VlrTooLarge { record_id: record.record_id, len: record.data.len() as usize },
            ),
        )
    } else {
        Ok(())
    }
}

/// Appends a VLR.
pub fn write_las_vlr(out: &mut Vec<u8>, vlr: &Vlr) -> (r: Result<()>)
    ensures
        r == vlr_check(vlr@),
        final(out)@ == (if r is Ok {
            old(out)@ + vlr_bytes(vlr@)
        } else {
            old(out)@
        }),
{
    let len: usize = vlr.data.len();
    if len > u16::MAX as usize {
        return Err(Error::InvalidInput(Fault::VlrTooLarge { record_id: vlr.record_id, len }));
    }
    write_vlr_header(
        out,
        vlr.user_id.as_str(),
        vlr.record_id,
        len as u16,
        vlr.description.as_str(),
    );
    push_bytes(out, vlr.data.as_slice());
    proof {
        assert(out@ =~= old(out)@ + vlr_bytes(vlr@));
    }
    Ok(())
}

/// Appends an EVLR.
pub fn write_las_evlr(out: &mut Vec<u8>, vlr: &Vlr)
    ensures
        final(out)@ == old(out)@ + evlr_bytes(vlr@),
{
    let len: usize = vlr.data.len();
    write_evlr_header(
        out,
        vlr.user_id.as_str(),
        vlr.record_id,
        len as u64,
        vlr.description.as_str(),
    );
    push_bytes(out, vlr.data.as_slice());
    proof {
        assert(out@ =~= old(out)@ + evlr_bytes(vlr@));
    }
}

/// The number of bytes of the first `n` records as VLRs, from `total` on, or the error of the
/// first that does not fit.
pub open spec fn vlrs_size(records: Seq<RecordModel>, n: int) -> Result<u32>
    decreases n,
{
    if n <= 0 {
        Ok(0)
    } else {
        match vlrs_size(records, n - 1) {
            Err(error) => Err(error),
            Ok(total) => match vlr_check(records[n - 1]) {
                Err(error) => Err(error),
                Ok(_) => if total + 54 + records[n - 1].data.len() > u32::MAX {
                    Err(Error::InvalidInput(Fault::VlrBytesOverflow))
                } else {
                    Ok((total + 54 + records[n - 1].data.len()) as u32)
                },
            },
        }
    }
}

pub proof fn lemma_vlrs_size_error(records: Seq<RecordModel>, n: int, m: int)
    requires
        0 <= n <= m,
        vlrs_size(records, n) is Err,
    ensures
        vlrs_size(records, m) == vlrs_size(records, n),
    decreases m,
{
    if n < m {
        lemma_vlrs_size_error(records, n, m - 1);
    }
}

/// The number of bytes of the records as VLRs.
pub fn regular_las_vlrs_bytes(vlrs: &[Vlr]) -> (r: Result<u32>)
    ensures
        r == vlrs_size(record_models(vlrs@), vlrs@.len() as int),
{
    let ghost records = record_models(vlrs@);
    let count: usize = vlrs.len();
    let mut total: u32 = 0;
    let mut i: usize = 0;
    while i < count
        invariant
            i <= count,
            count == vlrs@.len(),
            records == record_models(vlrs@),
            vlrs_size(records, i as int) == Ok::<u32, Error>(total),
        decreases count - i,
    {
        proof {
            assert(records[i as int] == vlrs@[i as int]@);
            if vlrs_size(records, i + 1) is Err {
                lemma_vlrs_size_error(records, i + 1, count as int);
            }
        }
        let len: usize = vlrs[i].data.len();
        if len > u16::MAX as usize {
            return Err(
                Error::InvalidInput(Fault::VlrTooLarge { record_id: vlrs[i].record_id, len }),
            );
        }
        match total.checked_add(LAS_VLR_HEADER_BYTES + len as u32) {
            None => {
                return Err(Error::InvalidInput(Fault::VlrBytesOverflow));
            },
            Some(sum) => {
                total = sum;
            },
        }
        i = i + 1;
    }
    Ok(total)
}

/// The size that is told of the records is the size of their bytes.
pub proof fn law_vlrs_size(records: Seq<RecordModel>, n: int)
    requires
        0 <= n <= records.len(),
        vlrs_size(records, n) is Ok,
    ensures
        vlrs_bytes(records, n).len() == vlrs_size(records, n)->Ok_0,
        forall|i: int| 0 <= i < n ==> (#[trigger] records[i]).data.len() <= u16::MAX,
    decreases n,
{
    broadcast use bytes::lemma_le_bytes_len;

    if n > 0 {
        law_vlrs_size(records, n - 1);
    }
}

/// All that a header is made of.
#[derive(Debug)]
pub struct OutputHeader {
    pub point_data_format: u8,
    pub point_record_length: u16,
    pub offset_to_point_data: u32,
    pub number_of_vlrs: u32,
    pub file_source_id: u16,
    pub global_encoding: u16,
    pub guid: [u8; 16],
    pub system_identifier: String,
    pub generating_software: String,
    pub creation_day_of_year: u16,
    pub creation_year: u16,
    pub scale: (F64, F64, F64),
    pub offset: (F64, F64, F64),
    pub bounds: Bounds,
    pub legacy_point_count: u32,
    pub total_point_count: u64,
    pub offset_to_first_evlr: u64,
    pub number_of_evlrs: u32,
    pub extended_return_counts: [u64; 15],
}

/// The numbers, eight bytes each.
pub open spec fn counts_bytes(counts: Seq<u64>) -> Seq<u8>
    decreases counts.len(),
{
    if counts.len() == 0 {
        Seq::empty()
    } else {
        counts_bytes(counts.drop_last()) + bytes::le_bytes(counts.last() as nat, 8)
    }
}

pub proof fn lemma_counts_bytes_len(counts: Seq<u64>)
    ensures
        counts_bytes(counts).len() == 8 * counts.len(),
    decreases counts.len(),
{
    broadcast use bytes::lemma_le_bytes_len;

    if counts.len() > 0 {
        lemma_counts_bytes_len(counts.drop_last());
    }
}

/// The signature of LAS files.
pub open spec fn signature() -> Seq<u8> {
    seq![0x4Cu8, 0x41u8, 0x53u8, 0x46u8]
}

impl OutputHeader {
    /// Bytes 0 to 93: who wrote the file, and when.
    pub open spec fn origin_bytes(&self) -> Seq<u8> {
        signature() + bytes::le_bytes(self.file_source_id as nat, 2) + bytes::le_bytes(
            self.global_encoding as nat,
            2,
        ) + self.guid@ + seq![1u8, 4u8] + padded(
            vstd::utf8::encode_utf8(self.system_identifier@),
            32,
        ) + padded(vstd::utf8::encode_utf8(self.generating_software@), 32) + bytes::le_bytes(
            self.creation_day_of_year as nat,
            2,
        ) + bytes::le_bytes(self.creation_year as nat, 2)
    }

    /// Bytes 94 to 130: how the file is laid out.
    pub open spec fn layout_bytes(&self) -> Seq<u8> {
        bytes::le_bytes(375, 2) + bytes::le_bytes(self.offset_to_point_data as nat, 4)
            + bytes::le_bytes(self.number_of_vlrs as nat, 4) + seq![self.point_data_format]
            + bytes::le_bytes(self.point_record_length as nat, 2) + bytes::le_bytes(
            self.legacy_point_count as nat,
            4,
        ) + bytes::zeros(20)
    }

    /// Bytes 131 to 226: the coordinate transform and the bounds.
    pub open spec fn space_bytes(&self) -> Seq<u8> {
        bytes::le_bytes(self.scale.0.bits as nat, 8) + bytes::le_bytes(
            self.scale.1.bits as nat,
            8,
        ) + bytes::le_bytes(self.scale.2.bits as nat, 8) + bytes::le_bytes(
            self.offset.0.bits as nat,
            8,
        ) + bytes::le_bytes(self.offset.1.bits as nat, 8) + bytes::le_bytes(
            self.offset.2.bits as nat,
            8,
        ) + bytes::le_bytes(self.bounds.max.0.bits as nat, 8) + bytes::le_bytes(
            self.bounds.min.0.bits as nat,
            8,
        ) + bytes::le_bytes(self.bounds.max.1.bits as nat, 8) + bytes::le_bytes(
            self.bounds.min.1.bits as nat,
            8,
        ) + bytes::le_bytes(self.bounds.max.2.bits as nat, 8) + bytes::le_bytes(
            self.bounds.min.2.bits as nat,
            8,
        )
    }

    /// Bytes 227 to 254: the EVLRs and the number of points.
    pub open spec fn evlr_part(&self) -> Seq<u8> {
        bytes::zeros(8) + bytes::le_bytes(self.offset_to_first_evlr as nat, 8) + bytes::le_bytes(
            self.number_of_evlrs as nat,
            4,
        ) + bytes::le_bytes(self.total_point_count as nat, 8)
    }

    /// The 375 bytes of the header.
    #[verifier::opaque]
    pub open spec fn header_bytes(&self) -> Seq<u8> {
        self.origin_bytes() + self.layout_bytes() + self.space_bytes() + self.evlr_part()
            + counts_bytes(self.extended_return_counts@)
    }

    fn push_origin(&self, out: &mut Vec<u8>)
        ensures
            final(out)@ == old(out)@ + self.origin_bytes(),
    {
        let signature: [u8; 4] = [0x4Cu8, 0x41u8, 0x53u8, 0x46u8];
        let version: [u8; 2] = [1u8, 4u8];
        push_bytes(out, &signature);
        push_le(out, self.file_source_id as u64, 2);
        push_le(out, self.global_encoding as u64, 2);
        push_bytes(out, &self.guid);
        push_bytes(out, &version);
        push_padded(out, self.system_identifier.as_str().as_bytes(), 32);
        push_padded(out, self.generating_software.as_str().as_bytes(), 32);
        push_le(out, self.creation_day_of_year as u64, 2);
        push_le(out, self.creation_year as u64, 2);
        proof {
            assert(signature@ =~= self::signature());
            assert(version@ =~= seq![1u8, 4u8]);
            assert(out@ =~= old(out)@ + self.origin_bytes());
        }
    }

    fn push_layout(&self, out: &mut Vec<u8>)
        ensures
            final(out)@ == old(out)@ + self.layout_bytes(),
    {
        push_le(out, 375, 2);
        push_le(out, self.offset_to_point_data as u64, 4);
        push_le(out, self.number_of_vlrs as u64, 4);
        out.push(self.point_data_format);
        push_le(out, self.point_record_length as u64, 2);
        push_le(out, self.legacy_point_count as u64, 4);
        let legacy = bytes::zero_bytes(20);
        push_bytes(out, legacy.as_slice());
        proof {
            assert(out@ =~= old(out)@ + self.layout_bytes());
        }
    }

    fn push_space(&self, out: &mut Vec<u8>)
        ensures
            final(out)@ == old(out)@ + self.space_bytes(),
    {
        push_le(out, self.scale.0.bits, 8);
        push_le(out, self.scale.1.bits, 8);
        push_le(out, self.scale.2.bits, 8);
        push_le(out, self.offset.0.bits, 8);
        push_le(out, self.offset.1.bits, 8);
        push_le(out, self.offset.2.bits, 8);
        push_le(out, self.bounds.max.0.bits, 8);
        push_le(out, self.bounds.min.0.bits, 8);
        push_le(out, self.bounds.max.1.bits, 8);
        push_le(out, self.bounds.min.1.bits, 8);
        push_le(out, self.bounds.max.2.bits, 8);
        push_le(out, self.bounds.min.2.bits, 8);
        proof {
            assert(out@ =~= old(out)@ + self.space_bytes());
        }
    }

    fn push_evlr_part(&self, out: &mut Vec<u8>)
        ensures
            final(out)@ == old(out)@ + self.evlr_part(),
    {
        let waveform = bytes::zero_bytes(8);
        push_bytes(out, waveform.as_slice());
        push_le(out, self.offset_to_first_evlr, 8);
        push_le(out, self.number_of_evlrs as u64, 4);
        push_le(out, self.total_point_count, 8);
        proof {
            assert(out@ =~= old(out)@ + self.evlr_part());
        }
    }

    /// Appends the header.
    pub fn write(&self, out: &mut Vec<u8>)
        ensures
            final(out)@ == old(out)@ + self.header_bytes(),
    {
        self.push_origin(out);
        self.push_layout(out);
        self.push_space(out);
        self.push_evlr_part(out);
        let ghost before = out@;
        let ghost counts = self.extended_return_counts@;
        let mut i: usize = 0;
        proof {
            assert(counts.subrange(0, 0) =~= Seq::empty());
            assert(out@ =~= before + counts_bytes(Seq::empty()));
        }
        while i < 15
            invariant
                i <= 15,
                counts == self.extended_return_counts@,
                counts.len() == 15,
                out@ == before + counts_bytes(counts.subrange(0, i as int)),
            decreases 15 - i,
        {
            push_le(out, self.extended_return_counts[i], 8);
            proof {
                let next = counts.subrange(0, i + 1);
                assert(next.drop_last() =~= counts.subrange(0, i as int));
                assert(out@ =~= before + counts_bytes(next));
            }
            i = i + 1;
        }
        proof {
            assert(counts.subrange(0, 15) =~= counts);
            reveal(OutputHeader::header_bytes);
            assert(out@ =~= old(out)@ + self.header_bytes());
        }
    }

    /// The header as a reader sees it.
    pub open spec fn as_read(&self) -> LasHeader {
        LasHeader {
            point_data_record_format: self.point_data_format,
            point_data_record_length: self.point_record_length,
            offset_to_point_data: self.offset_to_point_data,
            number_of_vlrs: self.number_of_vlrs,
            x_scale_factor: self.scale.0,
            y_scale_factor: self.scale.1,
            z_scale_factor: self.scale.2,
            x_offset: self.offset.0,
            y_offset: self.offset.1,
            z_offset: self.offset.2,
            min_x: self.bounds.min.0,
            max_x: self.bounds.max.0,
            min_y: self.bounds.min.1,
            max_y: self.bounds.max.1,
            min_z: self.bounds.min.2,
            max_z: self.bounds.max.2,
            offset_to_first_evlr: self.offset_to_first_evlr,
            number_of_evlrs: self.number_of_evlrs,
            number_of_points: self.total_point_count,
        }
    }
}

proof fn lemma_part_at(s: Seq<u8>, at: int, part: Seq<u8>, offset: int, v: nat, n: nat)
    requires
        0 <= at,
        at + part.len() <= s.len(),
        s.subrange(at, at + part.len()) == part,
        0 <= offset,
        offset + n <= part.len(),
        part.subrange(offset, offset + n) == bytes::le_bytes(v, n),
        v < bytes::pow256(n),
    ensures
        bytes::le_at(s, at + offset, n as int) == v,
{
    assert(s.subrange(at + offset, at + offset + n) =~= part.subrange(offset, offset + n));
    bytes::law_le_of_le_bytes(v, n);
}

/// The lengths of the header's blocks.
pub proof fn lemma_block_lens(h: OutputHeader)
    ensures
        h.origin_bytes().len() == 94,
        h.layout_bytes().len() == 37,
        h.space_bytes().len() == 96,
        h.evlr_part().len() == 28,
{
    lemma_blocks(h);
}

/// The blocks of the header lie where a reader looks for them.
proof fn lemma_blocks(h: OutputHeader)
    ensures
        ({
            let s = h.header_bytes();
            &&& s.len() == 375
            &&& s.subrange(0, 94) == h.origin_bytes()
            &&& s.subrange(94, 131) == h.layout_bytes()
            &&& s.subrange(131, 227) == h.space_bytes()
            &&& s.subrange(227, 255) == h.evlr_part()
            &&& h.origin_bytes().len() == 94
            &&& h.layout_bytes().len() == 37
            &&& h.space_bytes().len() == 96
            &&& h.evlr_part().len() == 28
        }),
{
    broadcast use bytes::lemma_le_bytes_len;

    reveal(OutputHeader::header_bytes);
    let s = h.header_bytes();
    lemma_counts_bytes_len(h.extended_return_counts@);
    lemma_padded_len(vstd::utf8::encode_utf8(h.system_identifier@), 32);
    lemma_padded_len(vstd::utf8::encode_utf8(h.generating_software@), 32);
    assert(h.origin_bytes().len() == 94);
    assert(h.layout_bytes().len() == 37);
    assert(h.space_bytes().len() == 96);
    assert(h.evlr_part().len() == 28);
    assert(s.subrange(0, 94) =~= h.origin_bytes());
    assert(s.subrange(94, 131) =~= h.layout_bytes());
    assert(s.subrange(131, 227) =~= h.space_bytes());
    assert(s.subrange(227, 255) =~= h.evlr_part());
}

proof fn lemma_layout(h: OutputHeader)
    ensures
        ({
            let part = h.layout_bytes();
            &&& part.subrange(0, 2) == bytes::le_bytes(375, 2)
            &&& part.subrange(2, 6) == bytes::le_bytes(h.offset_to_point_data as nat, 4)
            &&& part.subrange(6, 10) == bytes::le_bytes(h.number_of_vlrs as nat, 4)
            &&& part[10] == h.point_data_format
            &&& part.subrange(11, 13) == bytes::le_bytes(h.point_record_length as nat, 2)
        }),
{
    broadcast use bytes::lemma_le_bytes_len;

    let part = h.layout_bytes();
    assert(part.subrange(0, 2) =~= bytes::le_bytes(375, 2));
    assert(part.subrange(2, 6) =~= bytes::le_bytes(h.offset_to_point_data as nat, 4));
    assert(part.subrange(6, 10) =~= bytes::le_bytes(h.number_of_vlrs as nat, 4));
    assert(part.subrange(11, 13) =~= bytes::le_bytes(h.point_record_length as nat, 2));
}

proof fn lemma_space(h: OutputHeader)
    ensures
        ({
            let part = h.space_bytes();
            &&& part.subrange(0, 8) == bytes::le_bytes(h.scale.0.bits as nat, 8)
            &&& part.subrange(8, 16) == bytes::le_bytes(h.scale.1.bits as nat, 8)
            &&& part.subrange(16, 24) == bytes::le_bytes(h.scale.2.bits as nat, 8)
            &&& part.subrange(24, 32) == bytes::le_bytes(h.offset.0.bits as nat, 8)
            &&& part.subrange(32, 40) == bytes::le_bytes(h.offset.1.bits as nat, 8)
            &&& part.subrange(40, 48) == bytes::le_bytes(h.offset.2.bits as nat, 8)
            &&& part.subrange(48, 56) == bytes::le_bytes(h.bounds.max.0.bits as nat, 8)
            &&& part.subrange(56, 64) == bytes::le_bytes(h.bounds.min.0.bits as nat, 8)
            &&& part.subrange(64, 72) == bytes::le_bytes(h.bounds.max.1.bits as nat, 8)
            &&& part.subrange(72, 80) == bytes::le_bytes(h.bounds.min.1.bits as nat, 8)
            &&& part.subrange(80, 88) == bytes::le_bytes(h.bounds.max.2.bits as nat, 8)
            &&& part.subrange(88, 96) == bytes::le_bytes(h.bounds.min.2.bits as nat, 8)
        }),
{
    broadcast use bytes::lemma_le_bytes_len;

    let part = h.space_bytes();
    assert(part.subrange(0, 8) =~= bytes::le_bytes(h.scale.0.bits as nat, 8));
    assert(part.subrange(8, 16) =~= bytes::le_bytes(h.scale.1.bits as nat, 8));
    assert(part.subrange(16, 24) =~= bytes::le_bytes(h.scale.2.bits as nat, 8));
    assert(part.subrange(24, 32) =~= bytes::le_bytes(h.offset.0.bits as nat, 8));
    assert(part.subrange(32, 40) =~= bytes::le_bytes(h.offset.1.bits as nat, 8));
    assert(part.subrange(40, 48) =~= bytes::le_bytes(h.offset.2.bits as nat, 8));
    assert(part.subrange(48, 56) =~= bytes::le_bytes(h.bounds.max.0.bits as nat, 8));
    assert(part.subrange(56, 64) =~= bytes::le_bytes(h.bounds.min.0.bits as nat, 8));
    assert(part.subrange(64, 72) =~= bytes::le_bytes(h.bounds.max.1.bits as nat, 8));
    assert(part.subrange(72, 80) =~= bytes::le_bytes(h.bounds.min.1.bits as nat, 8));
    assert(part.subrange(80, 88) =~= bytes::le_bytes(h.bounds.max.2.bits as nat, 8));
    assert(part.subrange(88, 96) =~= bytes::le_bytes(h.bounds.min.2.bits as nat, 8));
}

proof fn lemma_evlr_part(h: OutputHeader)
    ensures
        ({
            let part = h.evlr_part();
            &&& part.subrange(8, 16) == bytes::le_bytes(h.offset_to_first_evlr as nat, 8)
            &&& part.subrange(16, 20) == bytes::le_bytes(h.number_of_evlrs as nat, 4)
            &&& part.subrange(20, 28) == bytes::le_bytes(h.total_point_count as nat, 8)
        }),
{
    broadcast use bytes::lemma_le_bytes_len;

    let part = h.evlr_part();
    assert(part.subrange(8, 16) =~= bytes::le_bytes(h.offset_to_first_evlr as nat, 8));
    assert(part.subrange(16, 20) =~= bytes::le_bytes(h.number_of_evlrs as nat, 4));
    assert(part.subrange(20, 28) =~= bytes::le_bytes(h.total_point_count as nat, 8));
}

/// A header that a reader takes: of a compressed format that COPC allows, with its records
/// and its numbers in order.
pub open spec fn readable(h: OutputHeader, file_len: u64) -> bool {
    &&& h.global_encoding < 32
    &&& h.global_encoding as int / 16 % 2 == 1
    &&& 375 <= h.offset_to_point_data <= file_len
    &&& h.number_of_vlrs <= crate::limits::MAX_VLR_COUNT
    &&& h.point_data_format >= 64
    &&& las_header::copc_format(h.point_data_format)
    &&& h.number_of_evlrs <= crate::limits::MAX_EVLR_COUNT
    &&& h.offset_to_first_evlr <= file_len
    &&& h.as_read().numbers_spec() is Ok
}

/// What is read of a header's bytes is what was written.
pub proof fn law_header_read_back(h: OutputHeader, file_len: u64)
    ensures
        h.header_bytes().len() == 375,
        LasHeader::raw(h.header_bytes()) == h.as_read(),
        readable(h, file_len) ==> las_header::header_of(h.header_bytes(), file_len) == Ok::<
            LasHeader,
            Error,
        >(h.as_read()),
{
    broadcast use bytes::lemma_le_bytes_len;

    reveal(las_header::header_of);
    let s = h.header_bytes();
    bytes::lemma_pow256_values();
    lemma_blocks(h);
    lemma_layout(h);
    let layout = h.layout_bytes();
    lemma_part_at(s, 94, layout, 0, 375, 2);
    lemma_part_at(s, 94, layout, 2, h.offset_to_point_data as nat, 4);
    lemma_part_at(s, 94, layout, 6, h.number_of_vlrs as nat, 4);
    lemma_part_at(s, 94, layout, 11, h.point_record_length as nat, 2);
    assert(s[104] == s.subrange(94, 131)[10]);
    lemma_space(h);
    let space = h.space_bytes();
    lemma_part_at(s, 131, space, 0, h.scale.0.bits as nat, 8);
    lemma_part_at(s, 131, space, 8, h.scale.1.bits as nat, 8);
    lemma_part_at(s, 131, space, 16, h.scale.2.bits as nat, 8);
    lemma_part_at(s, 131, space, 24, h.offset.0.bits as nat, 8);
    lemma_part_at(s, 131, space, 32, h.offset.1.bits as nat, 8);
    lemma_part_at(s, 131, space, 40, h.offset.2.bits as nat, 8);
    lemma_part_at(s, 131, space, 48, h.bounds.max.0.bits as nat, 8);
    lemma_part_at(s, 131, space, 56, h.bounds.min.0.bits as nat, 8);
    lemma_part_at(s, 131, space, 64, h.bounds.max.1.bits as nat, 8);
    lemma_part_at(s, 131, space, 72, h.bounds.min.1.bits as nat, 8);
    lemma_part_at(s, 131, space, 80, h.bounds.max.2.bits as nat, 8);
    lemma_part_at(s, 131, space, 88, h.bounds.min.2.bits as nat, 8);
    lemma_evlr_part(h);
    let rest = h.evlr_part();
    lemma_part_at(s, 227, rest, 8, h.offset_to_first_evlr as nat, 8);
    lemma_part_at(s, 227, rest, 16, h.number_of_evlrs as nat, 4);
    lemma_part_at(s, 227, rest, 20, h.total_point_count as nat, 8);
    let origin = h.origin_bytes();
    assert(origin.subrange(6, 8) =~= bytes::le_bytes(h.global_encoding as nat, 2));
    lemma_part_at(s, 0, origin, 6, h.global_encoding as nat, 2);
    assert(s.subrange(0, 4) =~= signature()) by {
        assert(origin.subrange(0, 4) =~= signature());
        assert(s.subrange(0, 4) =~= s.subrange(0, 94).subrange(0, 4));
    }
    assert(origin[24] == 1 && origin[25] == 4);
    assert(s[24] == s.subrange(0, 94)[24]);
    assert(s[25] == s.subrange(0, 94)[25]);
}

/// A text in a field is cut to its length, or filled up with zeros.
pub proof fn law_padded(s: Seq<u8>, n: nat, i: int)
    requires
        0 <= i < n,
    ensures
        padded(s, n).len() == n,
        padded(s, n)[i] == if i < s.len() {
            s[i]
        } else {
            0
        },
{
}

/// The record header has a reserved zero, the user, the record's number and the size of the
/// data, and the description; the data follow. The size takes two bytes.
pub proof fn law_vlr_layout(record: RecordModel)
    requires
        record.data.len() <= u16::MAX,
    ensures
        ({
            let s = vlr_bytes(record);
            &&& s.len() == 54 + record.data.len()
            &&& s[0] == 0 && s[1] == 0
            &&& s.subrange(2, 18) == padded(record.user, 16)
            &&& bytes::le_at(s, 18, 2) == record.record_id
            &&& bytes::le_at(s, 20, 2) == record.data.len()
            &&& s.subrange(22, 54) == padded(record.about, 32)
            &&& s.skip(54) == record.data
        }),
{
    broadcast use bytes::lemma_le_bytes_len;

    let s = vlr_bytes(record);
    lemma_padded_len(record.user, 16);
    lemma_padded_len(record.about, 32);
    bytes::lemma_pow256_values();
    bytes::law_byte_of_a_number(0, 2, 0);
    bytes::law_byte_of_a_number(0, 2, 1);
    bytes::law_byte_of_a_number(0, 2, 0);
    assert(s.subrange(2, 18) =~= padded(record.user, 16));
    assert(s.subrange(18, 20) =~= bytes::le_bytes(record.record_id as nat, 2));
    assert(s.subrange(20, 22) =~= bytes::le_bytes(record.data.len(), 2));
    assert(s.subrange(22, 54) =~= padded(record.about, 32));
    assert(s.skip(54) =~= record.data);
    bytes::law_le_of_le_bytes(record.record_id as nat, 2);
    bytes::law_le_of_le_bytes(record.data.len(), 2);
}

/// The header of an extended record differs from that of a record in the size of the data,
/// which takes eight bytes.
pub proof fn law_evlr_layout(record: RecordModel)
    requires
        record.data.len() <= u64::MAX,
    ensures
        ({
            let s = evlr_bytes(record);
            &&& s.len() == 60 + record.data.len()
            &&& s[0] == 0 && s[1] == 0
            &&& s.subrange(2, 18) == padded(record.user, 16)
            &&& bytes::le_at(s, 18, 2) == record.record_id
            &&& bytes::le_at(s, 20, 8) == record.data.len()
            &&& s.subrange(28, 60) == padded(record.about, 32)
            &&& s.skip(60) == record.data
        }),
{
    broadcast use bytes::lemma_le_bytes_len;

    let s = evlr_bytes(record);
    lemma_padded_len(record.user, 16);
    lemma_padded_len(record.about, 32);
    bytes::lemma_pow256_values();
    bytes::law_byte_of_a_number(0, 2, 0);
    bytes::law_byte_of_a_number(0, 2, 1);
    assert(s.subrange(2, 18) =~= padded(record.user, 16));
    assert(s.subrange(18, 20) =~= bytes::le_bytes(record.record_id as nat, 2));
    assert(s.subrange(20, 28) =~= bytes::le_bytes(record.data.len(), 8));
    assert(s.subrange(28, 60) =~= padded(record.about, 32));
    assert(s.skip(60) =~= record.data);
    bytes::law_le_of_le_bytes(record.record_id as nat, 2);
    bytes::law_le_of_le_bytes(record.data.len(), 8);
}

/// Records stand one behind the other, each whole.
pub proof fn law_records_stand(records: Seq<RecordModel>, n: int, i: int)
    requires
        0 <= i < n <= records.len(),
    ensures
        vlrs_bytes(records, i).is_prefix_of(vlrs_bytes(records, n)),
        evlrs_bytes(records, i).is_prefix_of(evlrs_bytes(records, n)),
        vlr_bytes(records[i]).is_prefix_of(
            vlrs_bytes(records, n).skip(vlrs_bytes(records, i).len() as int),
        ),
        evlr_bytes(records[i]).is_prefix_of(
            evlrs_bytes(records, n).skip(evlrs_bytes(records, i).len() as int),
        ),
        vlrs_bytes(records, 0).len() == 0,
        evlrs_bytes(records, 0).len() == 0,
    decreases n,
{
    if i < n - 1 {
        law_records_stand(records, n - 1, i);
    }
}

/// The header has its numbers where LAS 1.4 has them.
pub proof fn law_header_layout(h: OutputHeader)
    ensures
        ({
            let s = h.header_bytes();
            &&& s.len() == 375
            &&& bytes::le_at(s, 94, 2) == 375
            &&& bytes::le_at(s, 96, 4) == h.offset_to_point_data
            &&& bytes::le_at(s, 100, 4) == h.number_of_vlrs
            &&& s[104] == h.point_data_format
            &&& bytes::le_at(s, 105, 2) == h.point_record_length
            &&& bytes::le_at(s, 131, 8) == h.scale.0.bits
            &&& bytes::le_at(s, 139, 8) == h.scale.1.bits
            &&& bytes::le_at(s, 147, 8) == h.scale.2.bits
            &&& bytes::le_at(s, 155, 8) == h.offset.0.bits
            &&& bytes::le_at(s, 163, 8) == h.offset.1.bits
            &&& bytes::le_at(s, 171, 8) == h.offset.2.bits
            &&& bytes::le_at(s, 179, 8) == h.bounds.max.0.bits
            &&& bytes::le_at(s, 187, 8) == h.bounds.min.0.bits
            &&& bytes::le_at(s, 195, 8) == h.bounds.max.1.bits
            &&& bytes::le_at(s, 203, 8) == h.bounds.min.1.bits
            &&& bytes::le_at(s, 211, 8) == h.bounds.max.2.bits
            &&& bytes::le_at(s, 219, 8) == h.bounds.min.2.bits
            &&& bytes::le_at(s, 235, 8) == h.offset_to_first_evlr
            &&& bytes::le_at(s, 243, 4) == h.number_of_evlrs
            &&& bytes::le_at(s, 247, 8) == h.total_point_count
        }),
{
    let s = h.header_bytes();
    bytes::lemma_pow256_values();
    lemma_blocks(h);
    lemma_layout(h);
    let layout = h.layout_bytes();
    lemma_part_at(s, 94, layout, 0, 375, 2);
    lemma_part_at(s, 94, layout, 2, h.offset_to_point_data as nat, 4);
    lemma_part_at(s, 94, layout, 6, h.number_of_vlrs as nat, 4);
    lemma_part_at(s, 94, layout, 11, h.point_record_length as nat, 2);
    assert(s[104] == s.subrange(94, 131)[10]);
    lemma_space(h);
    let space = h.space_bytes();
    lemma_part_at(s, 131, space, 0, h.scale.0.bits as nat, 8);
    lemma_part_at(s, 131, space, 8, h.scale.1.bits as nat, 8);
    lemma_part_at(s, 131, space, 16, h.scale.2.bits as nat, 8);
    lemma_part_at(s, 131, space, 24, h.offset.0.bits as nat, 8);
    lemma_part_at(s, 131, space, 32, h.offset.1.bits as nat, 8);
    lemma_part_at(s, 131, space, 40, h.offset.2.bits as nat, 8);
    lemma_part_at(s, 131, space, 48, h.bounds.max.0.bits as nat, 8);
    lemma_part_at(s, 131, space, 56, h.bounds.min.0.bits as nat, 8);
    lemma_part_at(s, 131, space, 64, h.bounds.max.1.bits as nat, 8);
    lemma_part_at(s, 131, space, 72, h.bounds.min.1.bits as nat, 8);
    lemma_part_at(s, 131, space, 80, h.bounds.max.2.bits as nat, 8);
    lemma_part_at(s, 131, space, 88, h.bounds.min.2.bits as nat, 8);
    lemma_evlr_part(h);
    let rest = h.evlr_part();
    lemma_part_at(s, 227, rest, 8, h.offset_to_first_evlr as nat, 8);
    lemma_part_at(s, 227, rest, 16, h.number_of_evlrs as nat, 4);
    lemma_part_at(s, 227, rest, 20, h.total_point_count as nat, 8);
}

/// The header starts with the signature, tells where the file comes from and when it was made,
/// and leaves the counts of the older formats and the place of waveforms at zero.
pub proof fn law_header_origin(h: OutputHeader)
    ensures
        ({
            let s = h.header_bytes();
            &&& s[0] == 0x4C && s[1] == 0x41 && s[2] == 0x53 && s[3] == 0x46
            &&& bytes::le_at(s, 4, 2) == h.file_source_id
            &&& bytes::le_at(s, 6, 2) == h.global_encoding
            &&& s.subrange(8, 24) == h.guid@
            &&& s[24] == 1 && s[25] == 4
            &&& s.subrange(26, 58) == padded(vstd::utf8::encode_utf8(h.system_identifier@), 32)
            &&& s.subrange(58, 90) == padded(vstd::utf8::encode_utf8(h.generating_software@), 32)
            &&& bytes::le_at(s, 90, 2) == h.creation_day_of_year
            &&& bytes::le_at(s, 92, 2) == h.creation_year
            &&& bytes::le_at(s, 107, 4) == h.legacy_point_count
            &&& s.subrange(111, 131) == bytes::zeros(20)
            &&& s.subrange(227, 235) == bytes::zeros(8)
        }),
{
    broadcast use bytes::lemma_le_bytes_len;

    let s = h.header_bytes();
    bytes::lemma_pow256_values();
    lemma_blocks(h);
    let origin = h.origin_bytes();
    lemma_padded_len(vstd::utf8::encode_utf8(h.system_identifier@), 32);
    lemma_padded_len(vstd::utf8::encode_utf8(h.generating_software@), 32);
    assert(s.subrange(0, 94) == origin);
    assert forall|i: int| 0 <= i < 94 implies s[i] == #[trigger] origin[i] by {
        assert(s.subrange(0, 94)[i] == s[i]);
    }
    assert(origin[0] == 0x4C && origin[1] == 0x41 && origin[2] == 0x53 && origin[3] == 0x46);
    assert(origin[24] == 1 && origin[25] == 4);
    assert(origin.subrange(4, 6) =~= bytes::le_bytes(h.file_source_id as nat, 2));
    assert(origin.subrange(6, 8) =~= bytes::le_bytes(h.global_encoding as nat, 2));
    assert(origin.subrange(90, 92) =~= bytes::le_bytes(h.creation_day_of_year as nat, 2));
    assert(origin.subrange(92, 94) =~= bytes::le_bytes(h.creation_year as nat, 2));
    lemma_part_at(s, 0, origin, 4, h.file_source_id as nat, 2);
    lemma_part_at(s, 0, origin, 6, h.global_encoding as nat, 2);
    lemma_part_at(s, 0, origin, 90, h.creation_day_of_year as nat, 2);
    lemma_part_at(s, 0, origin, 92, h.creation_year as nat, 2);
    let system = padded(vstd::utf8::encode_utf8(h.system_identifier@), 32);
    let software = padded(vstd::utf8::encode_utf8(h.generating_software@), 32);
    assert(origin.subrange(8, 24) =~= h.guid@);
    assert(origin.subrange(26, 58) =~= system);
    assert(origin.subrange(58, 90) =~= software);
    assert(s.subrange(8, 24) =~= origin.subrange(8, 24));
    assert(s.subrange(26, 58) =~= origin.subrange(26, 58));
    assert(s.subrange(58, 90) =~= origin.subrange(58, 90));
    let layout = h.layout_bytes();
    assert(layout.subrange(13, 17) =~= bytes::le_bytes(h.legacy_point_count as nat, 4));
    lemma_part_at(s, 94, layout, 13, h.legacy_point_count as nat, 4);
    assert(layout.subrange(17, 37) =~= bytes::zeros(20));
    assert(s.subrange(111, 131) =~= s.subrange(94, 131).subrange(17, 37));
    let rest = h.evlr_part();
    assert(rest.subrange(0, 8) =~= bytes::zeros(8));
    assert(s.subrange(227, 235) =~= s.subrange(227, 255).subrange(0, 8));
}

/// The number of points of each return stands behind the rest of the header, eight bytes for
/// each, from the first return on.
pub proof fn law_header_return_counts(h: OutputHeader, i: int)
    requires
        0 <= i < 15,
    ensures
        bytes::le_at(h.header_bytes(), 255 + 8 * i, 8) == h.extended_return_counts@[i],
{
    reveal(OutputHeader::header_bytes);
    let s = h.header_bytes();
    let counts = h.extended_return_counts@;
    lemma_blocks(h);
    lemma_counts_bytes_len(counts);
    assert(s.subrange(255, 375) =~= counts_bytes(counts));
    lemma_count_at(counts, i);
    bytes::lemma_pow256_values();
    lemma_part_at(s, 255, counts_bytes(counts), 8 * i, counts[i] as nat, 8);
}

proof fn lemma_count_at(counts: Seq<u64>, i: int)
    requires
        0 <= i < counts.len(),
    ensures
        counts_bytes(counts).len() == 8 * counts.len(),
        counts_bytes(counts).subrange(8 * i, 8 * i + 8) == bytes::le_bytes(counts[i] as nat, 8),
    decreases counts.len(),
{
    broadcast use bytes::lemma_le_bytes_len;

    let rest = counts.drop_last();
    lemma_counts_bytes_len(counts);
    lemma_counts_bytes_len(rest);
    if i < rest.len() {
        lemma_count_at(rest, i);
        assert(counts_bytes(counts).subrange(8 * i, 8 * i + 8) =~= counts_bytes(rest).subrange(
            8 * i,
            8 * i + 8,
        ));
    } else {
        assert(counts_bytes(counts).subrange(8 * i, 8 * i + 8) =~= bytes::le_bytes(
            counts.last() as nat,
            8,
        ));
    }
}

/// Records are refused just where the data of one are too long for its header, or all together
/// are too long.
pub proof fn law_refused_records(records: Seq<RecordModel>, n: int)
    requires
        0 <= n <= records.len(),
    ensures
        vlrs_size(records, n) is Ok <==> vlrs_bytes(records, n).len() <= u32::MAX && forall|i: int|
            0 <= i < n ==> (#[trigger] records[i]).data.len() <= 0xFFFF,
    decreases n,
{
    broadcast use bytes::lemma_le_bytes_len;

    if n > 0 {
        law_refused_records(records, n - 1);
        if vlrs_size(records, n - 1) is Ok {
            law_vlrs_size(records, n - 1);
        }
        lemma_padded_len(records[n - 1].user, 16);
        lemma_padded_len(records[n - 1].about, 32);
        assert(vlr_bytes(records[n - 1]).len() == 54 + records[n - 1].data.len());
    }
}

/// The model of a record has its texts in UTF-8, its number and its data; records keep their
/// places.
pub proof fn law_model_of_a_record(record: Vlr, records: Seq<Vlr>, i: int)
    ensures
        record@.user == vstd::utf8::encode_utf8(record.user_id@),
        record@.record_id == record.record_id,
        record@.about == vstd::utf8::encode_utf8(record.description@),
        record@.data == record.data@,
        record_models(records).len() == records.len(),
        0 <= i < records.len() ==> record_models(records)[i] == records[i]@,
{
}

} // verus!
