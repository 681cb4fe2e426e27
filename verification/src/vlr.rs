//! Variable length records: the ones that COPC needs, and where extended ones lie.

use vstd::prelude::*;

use crate::bytes;
use crate::bytes::{copy_range, read_u16, read_u64};
use crate::error::{Error, Fault, RangeLabel, Result};
use crate::info::CopcInfo;
use crate::las_header::LasHeader;
use crate::laszip::check_laszip_payload;
use crate::limits::{EVLR_HEADER_BYTES, MAX_EVLR_COUNT, MAX_VLR_COUNT, VLR_HEADER_BYTES};
use crate::range_read;
use crate::range_read::{fetch, RangeRead};
use crate::seqs;

verus! {

/// What [`checked_range_end`] answers.
pub open spec fn range_end(offset: u64, byte_size: u64, label: RangeLabel) -> Result<u64> {
    if offset + byte_size > u64::MAX {
        Err(Error::InvalidData(Fault::RangeOverflow { label }))
    } else {
        Ok((offset + byte_size) as u64)
    }
}

/// The end of a byte range.
pub fn checked_range_end(offset: u64, byte_size: u64, label: RangeLabel) -> (r: Result<u64>)
    ensures
        r == range_end(offset, byte_size, label),
{
    match offset.checked_add(byte_size) {
        Some(end) => Ok(end),
        None => Err(Error::InvalidData(Fault::RangeOverflow { label })),
    }
}

/// What [`validate_range_in_file`] answers.
pub open spec fn range_in_file(
    offset: u64,
    byte_size: u64,
    file_len: u64,
    label: RangeLabel,
) -> Result<u64> {
    if offset + byte_size > u64::MAX {
        Err(Error::InvalidData(Fault::RangeOverflow { label }))
    } else if offset + byte_size > file_len {
        Err(
            Error::InvalidData(
                Fault::RangePastEnd { label, offset, end: (offset + byte_size) as u64, file_len },
            ),
        )
    } else {
        Ok((offset + byte_size) as u64)
    }
}

/// The end of a byte range that must lie in the file.
pub fn validate_range_in_file(
    offset: u64,
    byte_size: u64,
    file_len: u64,
    label: RangeLabel,
) -> (r: Result<u64>)
    ensures
        r == range_in_file(offset, byte_size, file_len, label),
{
    let end: u64 = checked_range_end(offset, byte_size, label)?;
    if end > file_len {
        return Err(Error::InvalidData(Fault::RangePastEnd { label, offset, end, file_len }));
    }
    Ok(end)
}

/// The index of the first zero byte, or the length where there is none.
pub open spec fn nul_index(s: Seq<u8>) -> nat
    decreases s.len(),
{
    if s.len() == 0 || s[0] == 0 {
        0
    } else {
        1 + nul_index(s.drop_first())
    }
}

pub proof fn lemma_nul_index(s: Seq<u8>, n: nat)
    requires
        n <= s.len(),
        forall|i: int| 0 <= i < n ==> #[trigger] s[i] != 0,
        n == s.len() || s[n as int] == 0,
    ensures
        nul_index(s) == n,
    decreases s.len(),
{
    if n > 0 {
        let rest = s.drop_first();
        assert forall|i: int| 0 <= i < n - 1 implies #[trigger] rest[i] != 0 by {
            assert(rest[i] == s[i + 1]);
        }
        lemma_nul_index(rest, (n - 1) as nat);
    }
}

/// The bytes in front of the first zero byte.
pub open spec fn trimmed(s: Seq<u8>) -> Seq<u8> {
    s.subrange(0, nul_index(s) as int)
}

/// The bytes in front of the first zero byte.
pub fn trim_nul(src: &[u8]) -> (r: Vec<u8>)
    ensures
        r@ == trimmed(src@),
{
    let mut end: usize = 0;
    while end < src.len() && src[end] != 0
        invariant
            end <= src@.len(),
            forall|i: int| 0 <= i < end ==> #[trigger] src@[i] != 0,
        decreases src@.len() - end,
    {
        end = end + 1;
    }
    proof {
        lemma_nul_index(src@, end as nat);
    }
    copy_range(src, 0, end)
}

/// Whether two byte strings are equal.
pub fn same_bytes(a: &[u8], b: &[u8]) -> (r: bool)
    ensures
        r == (a@ == b@),
{
    if a.len() != b.len() {
        return false;
    }
    let mut i: usize = 0;
    while i < a.len()
        invariant
            i <= a@.len(),
            a@.len() == b@.len(),
            forall|k: int| 0 <= k < i ==> a@[k] == b@[k],
        decreases a@.len() - i,
    {
        if a[i] != b[i] {
            return false;
        }
        i = i + 1;
    }
    proof {
        assert(a@ =~= b@);
    }
    true
}

/// The user id of COPC records.
pub open spec fn copc_user() -> Seq<u8> {
    vstd::utf8::encode_utf8("copc"@)
}

/// The user id of the LASzip record.
pub open spec fn laszip_user() -> Seq<u8> {
    vstd::utf8::encode_utf8("laszip encoded"@)
}

/// The record id of the COPC info VLR.
pub const COPC_INFO_RECORD_ID: u16 = 1;

/// The record id of the COPC hierarchy EVLR.
pub const COPC_HIERARCHY_RECORD_ID: u16 = 1000;

/// The record id of the LASzip VLR.
pub const LASZIP_RECORD_ID: u16 = 22204;

pub open spec fn is_info(user_id: Seq<u8>, record_id: u16) -> bool {
    user_id == copc_user() && record_id == COPC_INFO_RECORD_ID
}

pub open spec fn is_laszip(user_id: Seq<u8>, record_id: u16) -> bool {
    user_id == laszip_user() && record_id == LASZIP_RECORD_ID
}

pub open spec fn is_hierarchy(user_id: Seq<u8>, record_id: u16) -> bool {
    user_id == copc_user() && record_id == COPC_HIERARCHY_RECORD_ID
}

/// Whether the record is the COPC info.
pub fn is_copc_info_id(user_id: &[u8], record_id: u16) -> (r: bool)
    ensures
        r == is_info(user_id@, record_id),
{
    record_id == COPC_INFO_RECORD_ID && same_bytes(user_id, "copc".as_bytes())
}

/// Whether the record describes the LAZ compression.
pub fn is_laszip_id(user_id: &[u8], record_id: u16) -> (r: bool)
    ensures
        r == is_laszip(user_id@, record_id),
{
    record_id == LASZIP_RECORD_ID && same_bytes(user_id, "laszip encoded".as_bytes())
}

/// Whether the record is the COPC hierarchy.
pub fn is_copc_hierarchy_id(user_id: &[u8], record_id: u16) -> (r: bool)
    ensures
        r == is_hierarchy(user_id@, record_id),
{
    record_id == COPC_HIERARCHY_RECORD_ID && same_bytes(user_id, "copc".as_bytes())
}

/// Whether a VLR is one that a COPC reader needs.
pub fn should_store_vlr(user_id: &[u8], record_id: u16) -> (r: bool)
    ensures
        r == (is_info(user_id@, record_id) || is_laszip(user_id@, record_id)),
{
    is_copc_info_id(user_id, record_id) || is_laszip_id(user_id, record_id)
}

/// A VLR that was kept, with its place in the file's sequence of VLRs.
#[derive(Clone, Debug)]
pub struct StoredVlr {
    pub index: u32,
    pub user_id: Vec<u8>,
    pub record_id: u16,
    pub data: Vec<u8>,
}

/// What a kept VLR holds.
#[verifier::ext_equal]
pub struct VlrModel {
    pub index: u32,
    pub user_id: Seq<u8>,
    pub record_id: u16,
    pub data: Seq<u8>,
}

impl View for StoredVlr {
    type V = VlrModel;

    open spec fn view(&self) -> VlrModel {
        VlrModel {
            index: self.index,
            user_id: self.user_id@,
            record_id: self.record_id,
            data: self.data@,
        }
    }
}

pub open spec fn models(vlrs: Seq<StoredVlr>) -> Seq<VlrModel> {
    Seq::new(vlrs.len(), |i: int| vlrs[i]@)
}

/// The VLR whose header stands at `pos` of the content `c`, as it would be kept.
pub open spec fn vlr_at(c: Seq<u8>, pos: int, index: u32) -> VlrModel {
    let len = bytes::le_at(c, pos + 20, 2);
    VlrModel {
        index,
        user_id: trimmed(c.subrange(pos + 2, pos + 18)),
        record_id: bytes::le_at(c, pos + 18, 2) as u16,
        data: c.subrange(pos + 54, pos + 54 + len),
    }
}

/// Whether the reader keeps the VLR.
pub open spec fn kept(vlr: VlrModel) -> bool {
    is_info(vlr.user_id, vlr.record_id) || is_laszip(vlr.user_id, vlr.record_id)
}

/// The VLRs that are kept of those with the indices `index..count`, the first of which
/// starts at `pos`, or what is wrong with the first faulty one.
pub open spec fn vlrs_from(
    c: Seq<u8>,
    pos: u64,
    index: u32,
    count: u32,
    section_end: u64,
) -> Result<Seq<VlrModel>>
    decreases count - index,
{
    if index >= count {
        Ok(Seq::empty())
    } else {
        let reserved = bytes::le_at(c, pos as int, 2) as u16;
        let len = bytes::le_at(c, pos + 20, 2) as u64;
        let data = (pos + 54) as u64;
        let vlr = vlr_at(c, pos as int, index);
        match range_in_file(pos, VLR_HEADER_BYTES, section_end, RangeLabel::VlrHeader) {
            Err(error) => Err(error),
            Ok(_) => if reserved != 0 {
                Err(Error::InvalidData(Fault::VlrReserved { index, reserved }))
            } else {
                match range_in_file(data, len, section_end, RangeLabel::VlrData) {
                    Err(error) => Err(error),
                    Ok(next) => match vlrs_from(c, next, (index + 1) as u32, count, section_end) {
                        Err(error) => Err(error),
                        Ok(rest) => if kept(vlr) {
                            Ok(seq![vlr] + rest)
                        } else {
                            Ok(rest)
                        },
                    },
                }
            },
        }
    }
}

/// What [`read_vlrs`] answers on the content `c`.
pub open spec fn vlrs_spec(
    c: Seq<u8>,
    start: u64,
    count: u32,
    file_len: u64,
    section_end: u64,
) -> Result<Seq<VlrModel>> {
    if count > MAX_VLR_COUNT {
        Err(Error::InvalidData(Fault::VlrCount { count }))
    } else if section_end > file_len {
        Err(Error::InvalidData(Fault::VlrSectionPastEnd { end: section_end, file_len }))
    } else {
        vlrs_from(c, start, 0, count, section_end)
    }
}

/// `before` in front of what was found.
pub open spec fn after<T>(before: Seq<T>, found: Result<Seq<T>>) -> Result<Seq<T>> {
    match found {
        Ok(rest) => Ok(before + rest),
        Err(error) => Err(error),
    }
}

/// Reads the `count` VLRs that start at `start` and end by `section_end`, and keeps the COPC
/// info and the LASzip record.
pub fn read_vlrs<S: RangeRead>(
    reader: &mut S,
    start: u64,
    count: u32,
    file_len: u64,
    section_end: u64,
) -> (r: Result<Vec<StoredVlr>>)
    requires
        file_len == old(reader).content().len(),
    ensures
        range_read::steady(*old(reader), *final(reader)),
        match r {
            Ok(vlrs) => vlrs_spec(old(reader).content(), start, count, file_len, section_end)
                == Ok::<Seq<VlrModel>, Error>(models(vlrs@)),
            Err(error) => final(reader).failed() || vlrs_spec(
                old(reader).content(),
                start,
                count,
                file_len,
                section_end,
            ) == Err::<Seq<VlrModel>, Error>(error),
        },
{
    if count > MAX_VLR_COUNT {
        return Err(Error::InvalidData(Fault::VlrCount { count }));
    }
    if section_end > file_len {
        return Err(Error::InvalidData(Fault::VlrSectionPastEnd { end: section_end, file_len }));
    }
    let mut vlrs: Vec<StoredVlr> = Vec::new();
    let mut pos: u64 = start;
    let mut index: u32 = 0;
    let ghost c = reader.content();
    let ghost whole = vlrs_from(c, start, 0, count, section_end);
    proof {
        assert(models(vlrs@) =~= Seq::empty());
        match whole {
            Ok(rest) => {
                assert(Seq::empty() + rest =~= rest);
            },
            Err(_) => {},
        }
    }
    while index < count
        invariant
            index <= count,
            range_read::steady(*old(reader), *reader),
            c == old(reader).content(),
            file_len == c.len(),
            section_end <= file_len,
            count <= MAX_VLR_COUNT,
            whole == vlrs_from(c, start, 0, count, section_end),
            whole == after(models(vlrs@), vlrs_from(c, pos, index, count, section_end)),
        decreases count - index,
    {
        validate_range_in_file(pos, VLR_HEADER_BYTES, section_end, RangeLabel::VlrHeader)?;
        let header = fetch(reader, pos, 54)?;
        proof {
            assert(header@ == c.subrange(pos as int, pos + 54));
            assert(header@.subrange(0, 2) =~= c.subrange(pos as int, pos + 2));
            assert(header@.subrange(2, 18) =~= c.subrange(pos + 2, pos + 18));
            assert(header@.subrange(18, 20) =~= c.subrange(pos + 18, pos + 20));
            assert(header@.subrange(20, 22) =~= c.subrange(pos + 20, pos + 22));
        }
        let reserved: u16 = read_u16(header.as_slice(), 0);
        if reserved != 0 {
            return Err(Error::InvalidData(Fault::VlrReserved { index, reserved }));
        }
        let user_id = trim_nul(vstd::slice::slice_subrange(header.as_slice(), 2, 18));
        let record_id: u16 = read_u16(header.as_slice(), 18);
        let record_length: u16 = read_u16(header.as_slice(), 20);
        let data_offset: u64 = pos + 54;
        let data_end: u64 = validate_range_in_file(
            data_offset,
            record_length as u64,
            section_end,
            RangeLabel::VlrData,
        )?;
        let ghost vlr = vlr_at(c, pos as int, index);
        let ghost before = models(vlrs@);
        let ghost rest = vlrs_from(c, data_end, (index + 1) as u32, count, section_end);
        if should_store_vlr(user_id.as_slice(), record_id) {
            let data = fetch(reader, data_offset, record_length as usize)?;
            vlrs.push(StoredVlr { index, user_id, record_id, data });
            proof {
                assert(vlrs@.last()@ =~= vlr);
                assert(models(vlrs@) =~= before.push(vlr));
                match rest {
                    Ok(found) => {
                        assert(before + (seq![vlr] + found) =~= before.push(vlr) + found);
                    },
                    Err(_) => {},
                }
            }
        }
        pos = data_end;
        index = index + 1;
    }
    proof {
        assert(models(vlrs@) + Seq::empty() =~= models(vlrs@));
    }
    Ok(vlrs)
}

/// Where the data of an EVLR lie.
#[derive(Clone, Debug)]
pub struct EvlrRef {
    pub user_id: Vec<u8>,
    pub record_id: u16,
    pub data_offset: u64,
    pub data_len: u64,
}

/// What an [`EvlrRef`] holds.
#[verifier::ext_equal]
pub struct EvlrModel {
    pub user_id: Seq<u8>,
    pub record_id: u16,
    pub data_offset: u64,
    pub data_len: u64,
}

impl View for EvlrRef {
    type V = EvlrModel;

    open spec fn view(&self) -> EvlrModel {
        EvlrModel {
            user_id: self.user_id@,
            record_id: self.record_id,
            data_offset: self.data_offset,
            data_len: self.data_len,
        }
    }
}

pub open spec fn evlr_models(evlrs: Seq<EvlrRef>) -> Seq<EvlrModel> {
    Seq::new(evlrs.len(), |i: int| evlrs[i]@)
}

/// The EVLR whose header stands at `pos` of the content `c`.
pub open spec fn evlr_at(c: Seq<u8>, pos: int) -> EvlrModel {
    EvlrModel {
        user_id: trimmed(c.subrange(pos + 2, pos + 18)),
        record_id: bytes::le_at(c, pos + 18, 2) as u16,
        data_offset: (pos + 60) as u64,
        data_len: bytes::le_at(c, pos + 20, 8) as u64,
    }
}

/// The EVLRs with the indices `index..count`, the first of which starts at `pos`, or what is
/// wrong with the first faulty one.
pub open spec fn evlrs_from(
    c: Seq<u8>,
    pos: u64,
    index: u32,
    count: u32,
    file_len: u64,
) -> Result<Seq<EvlrModel>>
    decreases count - index,
{
    if index >= count {
        Ok(Seq::empty())
    } else {
        let reserved = bytes::le_at(c, pos as int, 2) as u16;
        let evlr = evlr_at(c, pos as int);
        match range_in_file(pos, EVLR_HEADER_BYTES, file_len, RangeLabel::EvlrHeader) {
            Err(error) => Err(error),
            Ok(_) => if reserved != 0 {
                Err(Error::InvalidData(Fault::EvlrReserved { index, reserved }))
            } else {
                match range_in_file(
                    evlr.data_offset,
                    evlr.data_len,
                    file_len,
                    RangeLabel::EvlrData,
                ) {
                    Err(error) => Err(error),
                    Ok(next) => after(
                        seq![evlr],
                        evlrs_from(c, next, (index + 1) as u32, count, file_len),
                    ),
                }
            },
        }
    }
}

/// What [`read_evlr_refs`] answers on the content `c`.
pub open spec fn evlrs_spec(c: Seq<u8>, header: LasHeader, file_len: u64) -> Result<
    Seq<EvlrModel>,
> {
    if header.offset_to_first_evlr == 0 || header.number_of_evlrs == 0 {
        Ok(Seq::empty())
    } else if header.number_of_evlrs > MAX_EVLR_COUNT {
        Err(Error::InvalidData(Fault::EvlrCount { count: header.number_of_evlrs }))
    } else {
        match range_in_file(
            header.offset_to_first_evlr,
            EVLR_HEADER_BYTES,
            file_len,
            RangeLabel::FirstEvlrHeader,
        ) {
            Err(error) => Err(error),
            Ok(_) => evlrs_from(
                c,
                header.offset_to_first_evlr,
                0,
                header.number_of_evlrs,
                file_len,
            ),
        }
    }
}

/// Finds the EVLRs that the header declares.
pub fn read_evlr_refs<S: RangeRead>(reader: &mut S, header: &LasHeader, file_len: u64) -> (r:
    Result<Vec<EvlrRef>>)
    requires
        file_len == old(reader).content().len(),
    ensures
        range_read::steady(*old(reader), *final(reader)),
        match r {
            Ok(evlrs) => evlrs_spec(old(reader).content(), *header, file_len) == Ok::<
                Seq<EvlrModel>,
                Error,
            >(evlr_models(evlrs@)),
            Err(error) => final(reader).failed() || evlrs_spec(
                old(reader).content(),
                *header,
                file_len,
            ) == Err::<Seq<EvlrModel>, Error>(error),
        },
{
    let mut evlrs: Vec<EvlrRef> = Vec::new();
    proof {
        assert(evlr_models(evlrs@) =~= Seq::empty());
    }
    if header.offset_to_first_evlr == 0 || header.number_of_evlrs == 0 {
        return Ok(evlrs);
    }
    let count: u32 = header.number_of_evlrs;
    if count > MAX_EVLR_COUNT {
        return Err(Error::InvalidData(Fault::EvlrCount { count }));
    }
    let start: u64 = header.offset_to_first_evlr;
    validate_range_in_file(start, EVLR_HEADER_BYTES, file_len, RangeLabel::FirstEvlrHeader)?;
    let mut pos: u64 = start;
    let mut index: u32 = 0;
    let ghost c = reader.content();
    let ghost whole = evlrs_from(c, start, 0, count, file_len);
    proof {
        match whole {
            Ok(rest) => {
                assert(Seq::empty() + rest =~= rest);
            },
            Err(_) => {},
        }
    }
    while index < count
        invariant
            index <= count,
            range_read::steady(*old(reader), *reader),
            c == old(reader).content(),
            file_len == c.len(),
            whole == evlrs_from(c, start, 0, count, file_len),
            whole == evlrs_spec(c, *header, file_len),
            whole == after(evlr_models(evlrs@), evlrs_from(c, pos, index, count, file_len)),
        decreases count - index,
    {
        validate_range_in_file(pos, EVLR_HEADER_BYTES, file_len, RangeLabel::EvlrHeader)?;
        let raw = fetch(reader, pos, 60)?;
        proof {
            assert(raw@ == c.subrange(pos as int, pos + 60));
            assert(raw@.subrange(0, 2) =~= c.subrange(pos as int, pos + 2));
            assert(raw@.subrange(2, 18) =~= c.subrange(pos + 2, pos + 18));
            assert(raw@.subrange(18, 20) =~= c.subrange(pos + 18, pos + 20));
            assert(raw@.subrange(20, 28) =~= c.subrange(pos + 20, pos + 28));
        }
        let reserved: u16 = read_u16(raw.as_slice(), 0);
        if reserved != 0 {
            return Err(Error::InvalidData(Fault::EvlrReserved { index, reserved }));
        }
        let user_id = trim_nul(vstd::slice::slice_subrange(raw.as_slice(), 2, 18));
        let record_id: u16 = read_u16(raw.as_slice(), 18);
        let data_len: u64 = read_u64(raw.as_slice(), 20);
        let data_offset: u64 = pos + 60;
        let next: u64 = validate_range_in_file(
            data_offset,
            data_len,
            file_len,
            RangeLabel::EvlrData,
        )?;
        let ghost evlr = evlr_at(c, pos as int);
        let ghost before = evlr_models(evlrs@);
        evlrs.push(EvlrRef { user_id, record_id, data_offset, data_len });
        proof {
            let rest = evlrs_from(c, next, (index + 1) as u32, count, file_len);
            assert(evlrs@.last()@ =~= evlr);
            assert(evlr_models(evlrs@) =~= before.push(evlr));
            match rest {
                Ok(found) => {
                    assert(before + (seq![evlr] + found) =~= before.push(evlr) + found);
                },
                Err(_) => {},
            }
        }
        pos = next;
        index = index + 1;
    }
    proof {
        assert(evlr_models(evlrs@) + Seq::empty() =~= evlr_models(evlrs@));
    }
    Ok(evlrs)
}

/// The COPC info records among `vlrs`.
pub open spec fn infos_in(vlrs: Seq<VlrModel>) -> Seq<VlrModel> {
    vlrs.filter(|vlr: VlrModel| is_info(vlr.user_id, vlr.record_id))
}

/// The LASzip records among `vlrs`.
pub open spec fn laszips_in(vlrs: Seq<VlrModel>) -> Seq<VlrModel> {
    vlrs.filter(|vlr: VlrModel| is_laszip(vlr.user_id, vlr.record_id))
}

/// What [`extract_required_vlrs`] answers: the info, and the payload of the LASzip record.
pub open spec fn required_spec(vlrs: Seq<VlrModel>) -> Result<(CopcInfo, Seq<u8>)> {
    let infos = infos_in(vlrs);
    let laszips = laszips_in(vlrs);
    if infos.len() == 0 {
        Err(Error::InvalidData(Fault::MissingInfoVlr))
    } else if infos.len() > 1 {
        Err(Error::InvalidData(Fault::DuplicateInfoVlr))
    } else if infos[0].index != 0 {
        Err(Error::InvalidData(Fault::InfoVlrNotFirst))
    } else {
        match crate::info::info_of(infos[0].data) {
            Err(error) => Err(error),
            Ok(info) => if laszips.len() == 0 {
                Err(Error::InvalidData(Fault::MissingLaszipVlr))
            } else if laszips.len() > 1 {
                Err(Error::InvalidData(Fault::DuplicateLaszipVlr))
            } else {
                match crate::laszip::payload_check(laszips[0].data) {
                    Err(error) => Err(error),
                    Ok(_) => Ok((info, laszips[0].data)),
                }
            },
        }
    }
}

/// The records of one kind: how many there are, and the first.
fn find_records(vlrs: &[StoredVlr], info: bool) -> (r: (usize, usize))
    ensures
        ({
            let found = if info {
                infos_in(models(vlrs@))
            } else {
                laszips_in(models(vlrs@))
            };
            &&& r.0 == found.len()
            &&& r.0 > 0 ==> r.1 < vlrs@.len() && vlrs@[r.1 as int]@ == found[0]
        }),
{
    let mut count: usize = 0;
    let mut first: usize = 0;
    let mut i: usize = 0;
    let ghost f = if info {
        |vlr: VlrModel| is_info(vlr.user_id, vlr.record_id)
    } else {
        |vlr: VlrModel| is_laszip(vlr.user_id, vlr.record_id)
    };
    let ghost all = models(vlrs@);
    proof {
        reveal(Seq::filter);
        assert(all.subrange(0, 0) =~= Seq::empty());
    }
    while i < vlrs.len()
        invariant
            i <= vlrs@.len(),
            all == models(vlrs@),
            f == (if info {
                |vlr: VlrModel| is_info(vlr.user_id, vlr.record_id)
            } else {
                |vlr: VlrModel| is_laszip(vlr.user_id, vlr.record_id)
            }),
            count == all.subrange(0, i as int).filter(f).len(),
            count <= i,
            count > 0 ==> first < i && all[first as int] == all.subrange(0, i as int).filter(f)[0],
        decreases vlrs@.len() - i,
    {
        let vlr = &vlrs[i];
        proof {
            assert(all.subrange(0, i + 1) =~= all.subrange(0, i as int).push(all[i as int]));
            seqs::lemma_filter_push(all.subrange(0, i as int), all[i as int], f);
        }
        let hit = if info {
            is_copc_info_id(vlr.user_id.as_slice(), vlr.record_id)
        } else {
            is_laszip_id(vlr.user_id.as_slice(), vlr.record_id)
        };
        if hit {
            if count == 0 {
                first = i;
            }
            count = count + 1;
        }
        i = i + 1;
    }
    proof {
        assert(all.subrange(0, all.len() as int) =~= all);
    }
    (count, first)
}

/// The COPC info and the LASzip payload that every COPC file must have exactly once, the
/// info in its first VLR.
pub fn extract_required_vlrs(vlrs: &[StoredVlr]) -> (r: Result<(CopcInfo, Vec<u8>)>)
    ensures
        match r {
            Ok((info, laszip)) => required_spec(models(vlrs@)) == Ok::<(CopcInfo, Seq<u8>), Error>(
                (info, laszip@),
            ),
            Err(error) => required_spec(models(vlrs@)) == Err::<(CopcInfo, Seq<u8>), Error>(error),
        },
{
    let (info_count, info_index) = find_records(vlrs, true);
    if info_count == 0 {
        return Err(Error::InvalidData(Fault::MissingInfoVlr));
    }
    if info_count > 1 {
        return Err(Error::InvalidData(Fault::DuplicateInfoVlr));
    }
    if vlrs[info_index].index != 0 {
        return Err(Error::InvalidData(Fault::InfoVlrNotFirst));
    }
    let info = CopcInfo::from_le_bytes(vlrs[info_index].data.as_slice())?;
    let (laszip_count, laszip_index) = find_records(vlrs, false);
    if laszip_count == 0 {
        return Err(Error::InvalidData(Fault::MissingLaszipVlr));
    }
    if laszip_count > 1 {
        return Err(Error::InvalidData(Fault::DuplicateLaszipVlr));
    }
    let payload = vlrs[laszip_index].data.as_slice();
    check_laszip_payload(payload)?;
    let laszip = copy_range(payload, 0, payload.len());
    proof {
        assert(laszip@ =~= payload@);
    }
    Ok((info, laszip))
}

/// A range is accepted just where it ends in the file, and its end is told.
pub proof fn law_range_in_file(offset: u64, byte_size: u64, file_len: u64, label: RangeLabel)
    ensures
        range_in_file(offset, byte_size, file_len, label) is Ok <==> offset + byte_size
            <= file_len,
        range_in_file(offset, byte_size, file_len, label) is Ok ==> range_in_file(
            offset,
            byte_size,
            file_len,
            label,
        )->Ok_0 == offset + byte_size,
        range_end(offset, byte_size, label) is Ok <==> offset + byte_size <= u64::MAX,
        range_end(offset, byte_size, label) is Ok ==> range_end(offset, byte_size, label)->Ok_0
            == offset + byte_size,
{
}

/// A text ends before its first zero.
pub proof fn law_trimmed(s: Seq<u8>)
    ensures
        trimmed(s).is_prefix_of(s),
        forall|i: int| 0 <= i < trimmed(s).len() ==> trimmed(s)[i] != 0,
        trimmed(s).len() < s.len() ==> s[trimmed(s).len() as int] == 0,
{
    lemma_first_nul(s);
}

proof fn lemma_first_nul(s: Seq<u8>)
    ensures
        nul_index(s) <= s.len(),
        forall|i: int| 0 <= i < nul_index(s) ==> s[i] != 0,
        nul_index(s) < s.len() ==> s[nul_index(s) as int] == 0,
    decreases s.len(),
{
    if s.len() > 0 && s[0] != 0 {
        let rest = s.drop_first();
        lemma_first_nul(rest);
        assert forall|i: int| 0 <= i < nul_index(s) implies s[i] != 0 by {
            if i > 0 {
                assert(rest[i - 1] == s[i]);
            }
        }
    }
}

/// The users and the numbers of the records of COPC.
pub proof fn law_record_names()
    ensures
        is_info(vstd::utf8::encode_utf8("copc"@), 1),
        is_hierarchy(vstd::utf8::encode_utf8("copc"@), 1000),
        is_laszip(vstd::utf8::encode_utf8("laszip encoded"@), 22204),
{
}

/// Where the record behind the next `n` ones starts, from the record at `pos` on: each has a
/// header of 54 bytes, and says at its byte 20 how many follow.
pub open spec fn vlr_start(c: Seq<u8>, pos: int, n: nat) -> int
    decreases n,
{
    if n == 0 {
        pos
    } else {
        let before = vlr_start(c, pos, (n - 1) as nat);
        before + 54 + bytes::le_at(c, before + 20, 2)
    }
}

proof fn lemma_vlr_start(c: Seq<u8>, pos: int, n: nat)
    requires
        n > 0,
    ensures
        vlr_start(c, pos, n) == vlr_start(
            c,
            pos + 54 + bytes::le_at(c, pos + 20, 2),
            (n - 1) as nat,
        ),
    decreases n,
{
    if n > 1 {
        lemma_vlr_start(c, pos, (n - 1) as nat);
    } else {
        assert(vlr_start(c, pos, 0) == pos);
    }
}

/// The records that are read are those of the section that are for COPC or for LASzip, each with
/// its user, its number and its data; all records lie in the section, with nothing reserved
/// used.
pub proof fn law_records_read(
    c: Seq<u8>,
    pos: u64,
    index: u32,
    count: u32,
    section_end: u64,
    n: nat,
)
    requires
        vlrs_from(c, pos, index, count, section_end) is Ok,
        index + n < count,
        section_end <= c.len(),
    ensures
        ({
            let at = vlr_start(c, pos as int, n);
            let user = trimmed(c.subrange(at + 2, at + 18));
            let record = VlrModel {
                index: (index + n) as u32,
                user_id: user,
                record_id: bytes::le_at(c, at + 18, 2) as u16,
                data: c.subrange(at + 54, vlr_start(c, pos as int, n + 1)),
            };
            let found = vlrs_from(c, pos, index, count, section_end)->Ok_0;
            &&& pos <= at
            &&& vlr_start(c, pos as int, n + 1) <= section_end
            &&& c[at] == 0 && c[at + 1] == 0
            &&& found.contains(record) <==> is_info(user, record.record_id) || is_laszip(
                user,
                record.record_id,
            )
            &&& forall|k: int| 0 <= k < found.len() ==> index <= (#[trigger] found[k]).index < count
        }),
    decreases n,
{
    let found = vlrs_from(c, pos, index, count, section_end)->Ok_0;
    let len = bytes::le_at(c, pos + 20, 2);
    bytes::lemma_pow256_values();
    bytes::lemma_le_bound(c.subrange(pos + 20, pos + 22));
    bytes::lemma_le_bound(c.subrange(pos as int, pos + 2));
    bytes::law_place_values(c, pos as int);
    let next = (pos + 54 + len) as u64;
    let rest = vlrs_from(c, next, (index + 1) as u32, count, section_end)->Ok_0;
    let own = vlr_at(c, pos as int, index);
    lemma_indices(c, pos, index, count, section_end);
    lemma_indices(c, next, (index + 1) as u32, count, section_end);
    assert(vlr_start(c, pos as int, 0) == pos);
    if n == 0 {
        assert(vlr_start(c, pos as int, 1) == next);
        if kept(own) {
            assert(found[0] == own);
        } else if found.contains(own) {
            let k = choose|k: int| 0 <= k < found.len() && found[k] == own;
            assert(found[k].index == index);
        }
    } else {
        law_records_read(
            c,
            next,
            (index + 1) as u32,
            count,
            section_end,
            (n - 1) as nat,
        );
        lemma_vlr_start(c, pos as int, n);
        lemma_vlr_start(c, pos as int, n + 1);
        let at = vlr_start(c, pos as int, n);
        let record = VlrModel {
            index: (index + n) as u32,
            user_id: trimmed(c.subrange(at + 2, at + 18)),
            record_id: bytes::le_at(c, at + 18, 2) as u16,
            data: c.subrange(at + 54, vlr_start(c, pos as int, n + 1)),
        };
        if kept(own) {
            assert(found =~= seq![own] + rest);
            if rest.contains(record) {
                let k = choose|k: int| 0 <= k < rest.len() && rest[k] == record;
                assert(found[k + 1] == record);
            }
            if found.contains(record) {
                let k = choose|k: int| 0 <= k < found.len() && found[k] == record;
                assert(k > 0);
                assert(rest[k - 1] == record);
            }
        }
    }
}

proof fn lemma_indices(c: Seq<u8>, pos: u64, index: u32, count: u32, section_end: u64)
    requires
        vlrs_from(c, pos, index, count, section_end) is Ok,
    ensures
        forall|k: int|
            0 <= k < vlrs_from(c, pos, index, count, section_end)->Ok_0.len() ==> index <= (
            #[trigger] vlrs_from(c, pos, index, count, section_end)->Ok_0[k]).index < count,
    decreases count - index,
{
    if index < count {
        let len = bytes::le_at(c, pos + 20, 2) as u64;
        let next = ((pos + 54) as u64 + len) as u64;
        lemma_indices(c, next, (index + 1) as u32, count, section_end);
    }
}

/// The records that a file needs are there once each, the info in front of all others, and they
/// are what is answered.
pub proof fn law_required_records(vlrs: Seq<VlrModel>, i: int, j: int)
    requires
        required_spec(vlrs) is Ok,
        0 <= i < vlrs.len(),
        0 <= j < vlrs.len(),
    ensures
        is_info(vlrs[i].user_id, vlrs[i].record_id) ==> {
            &&& vlrs[i].index == 0
            &&& crate::info::info_of(vlrs[i].data) == Ok::<CopcInfo, Error>(
                required_spec(vlrs)->Ok_0.0,
            )
            &&& is_info(vlrs[j].user_id, vlrs[j].record_id) ==> i == j
        },
        is_laszip(vlrs[i].user_id, vlrs[i].record_id) ==> {
            &&& vlrs[i].data == required_spec(vlrs)->Ok_0.1
            &&& is_laszip(vlrs[j].user_id, vlrs[j].record_id) ==> i == j
        },
{
    let info = |vlr: VlrModel| is_info(vlr.user_id, vlr.record_id);
    let laszip = |vlr: VlrModel| is_laszip(vlr.user_id, vlr.record_id);
    let infos = infos_in(vlrs);
    let laszips = laszips_in(vlrs);
    seqs::lemma_filter_contains(vlrs, info);
    seqs::lemma_filter_contains(vlrs, laszip);
    assert(infos == vlrs.filter(info));
    assert(laszips == vlrs.filter(laszip));
    if info(vlrs[i]) {
        assert(vlrs.contains(vlrs[i]));
        assert(infos.contains(vlrs[i]));
        if info(vlrs[j]) && i < j {
            seqs::lemma_filter_one(vlrs, info, i, j);
        } else if info(vlrs[j]) && j < i {
            seqs::lemma_filter_one(vlrs, info, j, i);
        }
    }
    if laszip(vlrs[i]) {
        assert(vlrs.contains(vlrs[i]));
        assert(laszips.contains(vlrs[i]));
        if laszip(vlrs[j]) && i < j {
            seqs::lemma_filter_one(vlrs, laszip, i, j);
        } else if laszip(vlrs[j]) && j < i {
            seqs::lemma_filter_one(vlrs, laszip, j, i);
        }
    }
}

/// A file without one of the records that it needs is refused.
pub proof fn law_missing_records(vlrs: Seq<VlrModel>)
    requires
        required_spec(vlrs) is Ok,
    ensures
        exists|i: int|
            0 <= i < vlrs.len() && is_info(
                (#[trigger] vlrs[i]).user_id,
                vlrs[i].record_id,
            ),
        exists|i: int|
            0 <= i < vlrs.len() && is_laszip(
                (#[trigger] vlrs[i]).user_id,
                vlrs[i].record_id,
            ),
{
    let info = |vlr: VlrModel| is_info(vlr.user_id, vlr.record_id);
    let laszip = |vlr: VlrModel| is_laszip(vlr.user_id, vlr.record_id);
    seqs::lemma_filter_contains(vlrs, info);
    seqs::lemma_filter_contains(vlrs, laszip);
    let infos = infos_in(vlrs);
    let laszips = laszips_in(vlrs);
    assert(infos == vlrs.filter(info));
    assert(laszips == vlrs.filter(laszip));
    assert(vlrs.filter(info).contains(infos[0]));
    assert(vlrs.filter(laszip).contains(laszips[0]));
}

/// Where the extended record behind the next `n` ones starts, from the one at `pos` on: each has
/// a header of 60 bytes, and says at its byte 20 how many follow.
pub open spec fn evlr_start(c: Seq<u8>, pos: int, n: nat) -> int
    decreases n,
{
    if n == 0 {
        pos
    } else {
        let before = evlr_start(c, pos, (n - 1) as nat);
        before + 60 + bytes::le_at(c, before + 20, 8)
    }
}

proof fn lemma_evlr_start(c: Seq<u8>, pos: int, n: nat)
    requires
        n > 0,
    ensures
        evlr_start(c, pos, n) == evlr_start(
            c,
            pos + 60 + bytes::le_at(c, pos + 20, 8),
            (n - 1) as nat,
        ),
    decreases n,
{
    if n > 1 {
        lemma_evlr_start(c, pos, (n - 1) as nat);
    } else {
        assert(evlr_start(c, pos, 0) == pos);
    }
}

/// Every extended record is read, with its user, its number, and the place and size of its data,
/// which lie in the file; nothing reserved is used.
pub proof fn law_extended_records_read(
    c: Seq<u8>,
    pos: u64,
    index: u32,
    count: u32,
    file_len: u64,
    n: nat,
)
    requires
        evlrs_from(c, pos, index, count, file_len) is Ok,
        index + n < count,
        file_len <= c.len(),
    ensures
        ({
            let at = evlr_start(c, pos as int, n);
            let found = evlrs_from(c, pos, index, count, file_len)->Ok_0;
            &&& found.len() == count - index
            &&& found[n as int].user_id == trimmed(c.subrange(at + 2, at + 18))
            &&& found[n as int].record_id == bytes::le_at(c, at + 18, 2)
            &&& found[n as int].data_offset == at + 60
            &&& found[n as int].data_len == bytes::le_at(c, at + 20, 8)
            &&& evlr_start(c, pos as int, n + 1) <= file_len
            &&& c[at] == 0 && c[at + 1] == 0
        }),
    decreases n,
{
    let found = evlrs_from(c, pos, index, count, file_len)->Ok_0;
    let len = bytes::le_at(c, pos + 20, 8);
    bytes::lemma_pow256_values();
    bytes::lemma_le_bound(c.subrange(pos + 20, pos + 28));
    bytes::lemma_le_bound(c.subrange(pos + 18, pos + 20));
    bytes::lemma_le_bound(c.subrange(pos as int, pos + 2));
    bytes::law_place_values(c, pos as int);
    let next = (pos + 60 + len) as u64;
    let rest = evlrs_from(c, next, (index + 1) as u32, count, file_len)->Ok_0;
    let own = evlr_at(c, pos as int);
    assert(found == seq![own] + rest);
    lemma_evlr_count(c, next, (index + 1) as u32, count, file_len);
    assert(evlr_start(c, pos as int, 0) == pos);
    if n == 0 {
        assert(evlr_start(c, pos as int, 1) == next);
    } else {
        law_extended_records_read(
            c,
            next,
            (index + 1) as u32,
            count,
            file_len,
            (n - 1) as nat,
        );
        lemma_evlr_start(c, pos as int, n);
        lemma_evlr_start(c, pos as int, n + 1);
        assert(found[n as int] == rest[n - 1]);
    }
}

proof fn lemma_evlr_count(c: Seq<u8>, pos: u64, index: u32, count: u32, file_len: u64)
    requires
        evlrs_from(c, pos, index, count, file_len) is Ok,
        index <= count,
    ensures
        evlrs_from(c, pos, index, count, file_len)->Ok_0.len() == count - index,
    decreases count - index,
{
    if index < count {
        let evlr = evlr_at(c, pos as int);
        let next = (evlr.data_offset + evlr.data_len) as u64;
        lemma_evlr_count(c, next, (index + 1) as u32, count, file_len);
    }
}

/// The extended records are read from where the header says, as many as it says; a header that
/// names no place or no record has none.
pub proof fn law_extended_records_of_a_header(c: Seq<u8>, header: LasHeader, file_len: u64)
    requires
        evlrs_spec(c, header, file_len) is Ok,
    ensures
        header.offset_to_first_evlr == 0 || header.number_of_evlrs == 0 ==> evlrs_spec(
            c,
            header,
            file_len,
        )->Ok_0.len() == 0,
        header.offset_to_first_evlr > 0 && header.number_of_evlrs > 0 ==> evlrs_spec(
            c,
            header,
            file_len,
        ) == evlrs_from(c, header.offset_to_first_evlr, 0, header.number_of_evlrs, file_len)
            && header.number_of_evlrs <= 4096,
{
}

/// The records are read from where they start, as many as there are, up to the end of their
/// section, which lies in the file.
pub proof fn law_records_of_a_section(
    c: Seq<u8>,
    start: u64,
    count: u32,
    file_len: u64,
    section_end: u64,
)
    ensures
        vlrs_spec(c, start, count, file_len, section_end) is Ok <==> {
            &&& count <= 4096
            &&& section_end <= file_len
            &&& vlrs_from(c, start, 0, count, section_end) is Ok
        },
        vlrs_spec(c, start, count, file_len, section_end) is Ok ==> vlrs_spec(
            c,
            start,
            count,
            file_len,
            section_end,
        ) == vlrs_from(c, start, 0, count, section_end),
{
}

/// A range is refused for its end, which is told where there is one.
pub proof fn law_why_a_range_is_refused(
    offset: u64,
    byte_size: u64,
    file_len: u64,
    label: RangeLabel,
)
    requires
        range_in_file(offset, byte_size, file_len, label) is Err,
    ensures
        match range_in_file(offset, byte_size, file_len, label)->Err_0 {
            Error::InvalidData(Fault::RangeOverflow { label: own }) => own == label && offset
                + byte_size > u64::MAX,
            Error::InvalidData(
                Fault::RangePastEnd { label: own, offset: at, end, file_len: len },
            ) => own == label && at == offset && end == offset + byte_size && len == file_len
                && end > len,
            _ => false,
        },
{
}

/// The model of a record that was read has its place among the records, its user, its number
/// and its data.
pub proof fn law_model_of_a_stored_record(record: StoredVlr, extended: EvlrRef)
    ensures
        record@.index == record.index,
        record@.user_id == record.user_id@,
        record@.record_id == record.record_id,
        record@.data == record.data@,
        extended@.user_id == extended.user_id@,
        extended@.record_id == extended.record_id,
        extended@.data_offset == extended.data_offset,
        extended@.data_len == extended.data_len,
{
}

} // verus!
