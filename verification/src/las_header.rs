//! The LAS 1.4 header as COPC needs it.

use vstd::prelude::*;

use crate::bytes;
use crate::bytes::{read_u16, read_u32, read_u64};
use crate::error::{Axis, Error, Fault, HeaderField, Result};
use crate::float::F64;
use crate::info::read_f64;
use crate::limits::{LAS_HEADER_SIZE_14, MAX_EVLR_COUNT, MAX_VLR_COUNT};

verus! {

/// The header fields that COPC readers need.
#[derive(Clone, Copy, Debug, PartialEq)]
pub struct LasHeader {
    pub point_data_record_format: u8,
    pub point_data_record_length: u16,
    pub offset_to_point_data: u32,
    pub number_of_vlrs: u32,
    pub x_scale_factor: F64,
    pub y_scale_factor: F64,
    pub z_scale_factor: F64,
    pub x_offset: F64,
    pub y_offset: F64,
    pub z_offset: F64,
    pub min_x: F64,
    pub max_x: F64,
    pub min_y: F64,
    pub max_y: F64,
    pub min_z: F64,
    pub max_z: F64,
    pub offset_to_first_evlr: u64,
    pub number_of_evlrs: u32,
    pub number_of_points: u64,
}

impl LasHeader {
    pub fn number_of_points(&self) -> (r: u64)
        ensures
            r == self.number_of_points,
    {
        self.number_of_points
    }

    /// The fields at their places in the header's bytes.
    pub open spec fn raw(s: Seq<u8>) -> LasHeader {
        LasHeader {
            point_data_record_format: s[104],
            point_data_record_length: bytes::le_at(s, 105, 2) as u16,
            offset_to_point_data: bytes::le_at(s, 96, 4) as u32,
            number_of_vlrs: bytes::le_at(s, 100, 4) as u32,
            x_scale_factor: crate::info::f64_at(s, 131),
            y_scale_factor: crate::info::f64_at(s, 139),
            z_scale_factor: crate::info::f64_at(s, 147),
            x_offset: crate::info::f64_at(s, 155),
            y_offset: crate::info::f64_at(s, 163),
            z_offset: crate::info::f64_at(s, 171),
            max_x: crate::info::f64_at(s, 179),
            min_x: crate::info::f64_at(s, 187),
            max_y: crate::info::f64_at(s, 195),
            min_y: crate::info::f64_at(s, 203),
            max_z: crate::info::f64_at(s, 211),
            min_z: crate::info::f64_at(s, 219),
            offset_to_first_evlr: bytes::le_at(s, 235, 8) as u64,
            number_of_evlrs: bytes::le_at(s, 243, 4) as u32,
            number_of_points: bytes::le_at(s, 247, 8) as u64,
        }
    }

    /// What is wrong with the numbers of the coordinate transform and of the bounds.
    pub open spec fn numbers_spec(self) -> Result<()> {
        if !positive_scale(self.x_scale_factor) {
            Err(Error::InvalidData(Fault::HeaderScale { axis: Axis::X }))
        } else if !positive_scale(self.y_scale_factor) {
            Err(Error::InvalidData(Fault::HeaderScale { axis: Axis::Y }))
        } else if !positive_scale(self.z_scale_factor) {
            Err(Error::InvalidData(Fault::HeaderScale { axis: Axis::Z }))
        } else if !self.x_offset.finite() {
            Err(Error::InvalidData(Fault::HeaderNotFinite { field: HeaderField::OffsetX }))
        } else if !self.y_offset.finite() {
            Err(Error::InvalidData(Fault::HeaderNotFinite { field: HeaderField::OffsetY }))
        } else if !self.z_offset.finite() {
            Err(Error::InvalidData(Fault::HeaderNotFinite { field: HeaderField::OffsetZ }))
        } else if !self.min_x.finite() {
            Err(Error::InvalidData(Fault::HeaderNotFinite { field: HeaderField::MinX }))
        } else if !self.min_y.finite() {
            Err(Error::InvalidData(Fault::HeaderNotFinite { field: HeaderField::MinY }))
        } else if !self.min_z.finite() {
            Err(Error::InvalidData(Fault::HeaderNotFinite { field: HeaderField::MinZ }))
        } else if !self.max_x.finite() {
            Err(Error::InvalidData(Fault::HeaderNotFinite { field: HeaderField::MaxX }))
        } else if !self.max_y.finite() {
            Err(Error::InvalidData(Fault::HeaderNotFinite { field: HeaderField::MaxY }))
        } else if !self.max_z.finite() {
            Err(Error::InvalidData(Fault::HeaderNotFinite { field: HeaderField::MaxZ }))
        } else if self.max_x.lt(self.min_x) {
            Err(Error::InvalidData(Fault::HeaderBoundsOrder { axis: Axis::X }))
        } else if self.max_y.lt(self.min_y) {
            Err(Error::InvalidData(Fault::HeaderBoundsOrder { axis: Axis::Y }))
        } else if self.max_z.lt(self.min_z) {
            Err(Error::InvalidData(Fault::HeaderBoundsOrder { axis: Axis::Z }))
        } else {
            Ok(())
        }
    }
}

pub open spec fn positive_scale(value: F64) -> bool {
    value.finite() && value.positive()
}

/// Whether the point format, without the compression bits, is one that COPC allows.
pub open spec fn copc_format(format: u8) -> bool {
    6 <= format % 64 <= 8
}

/// The header in the first 375 bytes `s` of a file of `file_len` bytes.
#[verifier::opaque]
pub open spec fn header_of(s: Seq<u8>, file_len: u64) -> Result<LasHeader> {
    let encoding = bytes::le_at(s, 6, 2) as u16;
    let size = bytes::le_at(s, 94, 2) as u16;
    let header = LasHeader::raw(s);
    if s.subrange(0, 4) != seq![0x4Cu8, 0x41u8, 0x53u8, 0x46u8] {
        Err(Error::InvalidData(Fault::MissingSignature))
    } else if encoding >= 32 {
        Err(Error::InvalidData(Fault::ReservedEncodingBits { encoding }))
    } else if encoding / 16 % 2 == 0 {
        Err(Error::InvalidData(Fault::MissingWktBit))
    } else if s[24] != 1 || s[25] != 4 {
        Err(Error::Unsupported(Fault::LasVersion { major: s[24], minor: s[25] }))
    } else if size != LAS_HEADER_SIZE_14 {
        Err(Error::InvalidData(Fault::HeaderSize { size }))
    } else if header.offset_to_point_data < size {
        Err(
            Error::InvalidData(
                Fault::PointDataBeforeHeader { offset: header.offset_to_point_data, size },
            ),
        )
    } else if header.offset_to_point_data > file_len {
        Err(
            Error::InvalidData(
                Fault::PointDataPastEnd { offset: header.offset_to_point_data, file_len },
            ),
        )
    } else if header.number_of_vlrs > MAX_VLR_COUNT {
        Err(Error::InvalidData(Fault::VlrCount { count: header.number_of_vlrs }))
    } else if header.point_data_record_format < 64 {
        Err(Error::InvalidData(Fault::NotCompressed))
    } else if !copc_format(header.point_data_record_format) {
        Err(Error::Unsupported(Fault::PointFormat { id: header.point_data_record_format % 64 }))
    } else if header.number_of_evlrs > MAX_EVLR_COUNT {
        Err(Error::InvalidData(Fault::EvlrCount { count: header.number_of_evlrs }))
    } else if header.offset_to_first_evlr > file_len {
        Err(
            Error::InvalidData(
                Fault::FirstEvlrPastEnd { offset: header.offset_to_first_evlr, file_len },
            ),
        )
    } else if header.numbers_spec() is Err {
        Err(header.numbers_spec()->Err_0)
    } else {
        Ok(header)
    }
}

fn check_scale(value: F64, axis: Axis) -> (r: Result<()>)
    ensures
        r == (if positive_scale(value) {
            Ok(())
        } else {
            Err(Error::InvalidData(Fault::HeaderScale { axis }))
        }),
{
    if value.is_finite() && value.is_positive() {
        Ok(())
    } else {
        Err(Error::InvalidData(Fault::HeaderScale { axis }))
    }
}

fn check_finite(value: F64, field: HeaderField) -> (r: Result<()>)
    ensures
        r == (if value.finite() {
            Ok(())
        } else {
            Err(Error::InvalidData(Fault::HeaderNotFinite { field }))
        }),
{
    if value.is_finite() {
        Ok(())
    } else {
        Err(Error::InvalidData(Fault::HeaderNotFinite { field }))
    }
}

fn check_order(min: F64, max: F64, axis: Axis) -> (r: Result<()>)
    ensures
        r == (if max.lt(min) {
            Err(Error::InvalidData(Fault::HeaderBoundsOrder { axis }))
        } else {
            Ok(())
        }),
{
    if max.is_less(min) {
        Err(Error::InvalidData(Fault::HeaderBoundsOrder { axis }))
    } else {
        Ok(())
    }
}

/// Checks the numbers of the coordinate transform and of the bounds.
pub fn validate_header_numbers(header: &LasHeader) -> (r: Result<()>)
    ensures
        r == header.numbers_spec(),
{
    check_scale(header.x_scale_factor, Axis::X)?;
    check_scale(header.y_scale_factor, Axis::Y)?;
    check_scale(header.z_scale_factor, Axis::Z)?;
    check_finite(header.x_offset, HeaderField::OffsetX)?;
    check_finite(header.y_offset, HeaderField::OffsetY)?;
    check_finite(header.z_offset, HeaderField::OffsetZ)?;
    check_finite(header.min_x, HeaderField::MinX)?;
    check_finite(header.min_y, HeaderField::MinY)?;
    check_finite(header.min_z, HeaderField::MinZ)?;
    check_finite(header.max_x, HeaderField::MaxX)?;
    check_finite(header.max_y, HeaderField::MaxY)?;
    check_finite(header.max_z, HeaderField::MaxZ)?;
    check_order(header.min_x, header.max_x, Axis::X)?;
    check_order(header.min_y, header.max_y, Axis::Y)?;
    check_order(header.min_z, header.max_z, Axis::Z)?;
    Ok(())
}

/// Reads the header from the first 375 bytes of a file of `file_len` bytes.
pub fn read_las_header(src: &[u8], file_len: u64) -> (r: Result<LasHeader>)
    requires
        src@.len() == LAS_HEADER_SIZE_14,
    ensures
        r == header_of(src@, file_len),
{
    proof {
        reveal(header_of);
    }
    let signed = src[0] == 0x4C && src[1] == 0x41 && src[2] == 0x53 && src[3] == 0x46;
    proof {
        let signature = seq![0x4Cu8, 0x41u8, 0x53u8, 0x46u8];
        let start = src@.subrange(0, 4);
        assert(start[0] == src@[0] && start[1] == src@[1] && start[2] == src@[2] && start[3]
            == src@[3]);
        assert(signed <==> start =~= signature);
    }
    if !signed {
        return Err(Error::InvalidData(Fault::MissingSignature));
    }
    let encoding: u16 = read_u16(src, 6);
    if encoding >= 32 {
        return Err(Error::InvalidData(Fault::ReservedEncodingBits { encoding }));
    }
    if encoding / 16 % 2 == 0 {
        return Err(Error::InvalidData(Fault::MissingWktBit));
    }
    let major: u8 = src[24];
    let minor: u8 = src[25];
    if major != 1 || minor != 4 {
        return Err(Error::Unsupported(Fault::LasVersion { major, minor }));
    }
    let size: u16 = read_u16(src, 94);
    if size != LAS_HEADER_SIZE_14 {
        return Err(Error::InvalidData(Fault::HeaderSize { size }));
    }
    let header = LasHeader {
        point_data_record_format: src[104],
        point_data_record_length: read_u16(src, 105),
        offset_to_point_data: read_u32(src, 96),
        number_of_vlrs: read_u32(src, 100),
        x_scale_factor: read_f64(src, 131),
        y_scale_factor: read_f64(src, 139),
        z_scale_factor: read_f64(src, 147),
        x_offset: read_f64(src, 155),
        y_offset: read_f64(src, 163),
        z_offset: read_f64(src, 171),
        max_x: read_f64(src, 179),
        min_x: read_f64(src, 187),
        max_y: read_f64(src, 195),
        min_y: read_f64(src, 203),
        max_z: read_f64(src, 211),
        min_z: read_f64(src, 219),
        offset_to_first_evlr: read_u64(src, 235),
        number_of_evlrs: read_u32(src, 243),
        number_of_points: read_u64(src, 247),
    };
    proof {
        assert(header == LasHeader::raw(src@));
    }
    let offset: u32 = header.offset_to_point_data;
    if offset < size as u32 {
        return Err(Error::InvalidData(Fault::PointDataBeforeHeader { offset, size }));
    }
    if offset as u64 > file_len {
        return Err(Error::InvalidData(Fault::PointDataPastEnd { offset, file_len }));
    }
    if header.number_of_vlrs > MAX_VLR_COUNT {
        return Err(Error::InvalidData(Fault::VlrCount { count: header.number_of_vlrs }));
    }
    let format: u8 = header.point_data_record_format;
    if format < 64 {
        return Err(Error::InvalidData(Fault::NotCompressed));
    }
    let id: u8 = format % 64;
    if id < 6 || id > 8 {
        return Err(Error::Unsupported(Fault::PointFormat { id }));
    }
    if header.number_of_evlrs > MAX_EVLR_COUNT {
        return Err(Error::InvalidData(Fault::EvlrCount { count: header.number_of_evlrs }));
    }
    if header.offset_to_first_evlr > file_len {
        return Err(
            Error::InvalidData(
                Fault::FirstEvlrPastEnd { offset: header.offset_to_first_evlr, file_len },
            ),
        );
    }
    validate_header_numbers(&header)?;
    Ok(header)
}

/// The fields of a header stand where LAS 1.4 has them.
pub proof fn law_header_stands(s: Seq<u8>, file_len: u64)
    requires
        s.len() >= 375,
        header_of(s, file_len) is Ok,
    ensures
        ({
            let header = header_of(s, file_len)->Ok_0;
            &&& header.offset_to_point_data == bytes::le_at(s, 96, 4)
            &&& header.number_of_vlrs == bytes::le_at(s, 100, 4)
            &&& header.point_data_record_format == s[104]
            &&& header.point_data_record_length == bytes::le_at(s, 105, 2)
            &&& header.x_scale_factor.bits == bytes::le_at(s, 131, 8)
            &&& header.y_scale_factor.bits == bytes::le_at(s, 139, 8)
            &&& header.z_scale_factor.bits == bytes::le_at(s, 147, 8)
            &&& header.x_offset.bits == bytes::le_at(s, 155, 8)
            &&& header.y_offset.bits == bytes::le_at(s, 163, 8)
            &&& header.z_offset.bits == bytes::le_at(s, 171, 8)
            &&& header.max_x.bits == bytes::le_at(s, 179, 8)
            &&& header.min_x.bits == bytes::le_at(s, 187, 8)
            &&& header.max_y.bits == bytes::le_at(s, 195, 8)
            &&& header.min_y.bits == bytes::le_at(s, 203, 8)
            &&& header.max_z.bits == bytes::le_at(s, 211, 8)
            &&& header.min_z.bits == bytes::le_at(s, 219, 8)
            &&& header.offset_to_first_evlr == bytes::le_at(s, 235, 8)
            &&& header.number_of_evlrs == bytes::le_at(s, 243, 4)
            &&& header.number_of_points == bytes::le_at(s, 247, 8)
        }),
{
    reveal(header_of);
    bytes::lemma_pow256_values();
    bytes::lemma_le_bound(s.subrange(96, 100));
    bytes::lemma_le_bound(s.subrange(100, 104));
    bytes::lemma_le_bound(s.subrange(105, 107));
    bytes::lemma_le_bound(s.subrange(131, 139));
    bytes::lemma_le_bound(s.subrange(139, 147));
    bytes::lemma_le_bound(s.subrange(147, 155));
    bytes::lemma_le_bound(s.subrange(155, 163));
    bytes::lemma_le_bound(s.subrange(163, 171));
    bytes::lemma_le_bound(s.subrange(171, 179));
    bytes::lemma_le_bound(s.subrange(179, 187));
    bytes::lemma_le_bound(s.subrange(187, 195));
    bytes::lemma_le_bound(s.subrange(195, 203));
    bytes::lemma_le_bound(s.subrange(203, 211));
    bytes::lemma_le_bound(s.subrange(211, 219));
    bytes::lemma_le_bound(s.subrange(219, 227));
    bytes::lemma_le_bound(s.subrange(235, 243));
    bytes::lemma_le_bound(s.subrange(243, 247));
    bytes::lemma_le_bound(s.subrange(247, 255));
}

/// A header is accepted just where it is one of LAS 1.4 in the encoding of COPC, of a compressed
/// format from 6 to 8, with its points and records in the file, no more records than the
/// limits, scales above zero, and finite bounds in order.
pub proof fn law_accepted_header(s: Seq<u8>, file_len: u64)
    requires
        s.len() >= 375,
    ensures
        header_of(s, file_len) is Ok <==> {
            &&& s[0] == 0x4C && s[1] == 0x41 && s[2] == 0x53 && s[3] == 0x46
            &&& 16 <= bytes::le_at(s, 6, 2) < 32
            &&& s[24] == 1 && s[25] == 4
            &&& bytes::le_at(s, 94, 2) == 375
            &&& 375 <= bytes::le_at(s, 96, 4) <= file_len
            &&& bytes::le_at(s, 100, 4) <= MAX_VLR_COUNT
            &&& s[104] >= 64 && (s[104] % 64 == 6 || s[104] % 64 == 7 || s[104] % 64 == 8)
            &&& bytes::le_at(s, 243, 4) <= MAX_EVLR_COUNT
            &&& bytes::le_at(s, 235, 8) <= file_len
            &&& LasHeader::raw(s).numbers_spec() is Ok
        },
{
    reveal(header_of);
    bytes::lemma_pow256_values();
    bytes::lemma_le_bound(s.subrange(6, 8));
    bytes::lemma_le_bound(s.subrange(94, 96));
    bytes::lemma_le_bound(s.subrange(96, 100));
    bytes::lemma_le_bound(s.subrange(100, 104));
    bytes::lemma_le_bound(s.subrange(235, 243));
    bytes::lemma_le_bound(s.subrange(243, 247));
    let start = s.subrange(0, 4);
    let signature = seq![0x4Cu8, 0x41u8, 0x53u8, 0x46u8];
    assert(start[0] == s[0] && start[1] == s[1] && start[2] == s[2] && start[3] == s[3]);
    if s[0] == 0x4C && s[1] == 0x41 && s[2] == 0x53 && s[3] == 0x46 {
        assert(start =~= signature);
    } else {
        assert(signature[0] == 0x4C && signature[1] == 0x41 && signature[2] == 0x53
            && signature[3] == 0x46);
    }
}

/// The numbers of a header pass just where the scales are above zero, all others finite, and no
/// bound lies below its counterpart.
pub proof fn law_header_numbers(header: LasHeader)
    ensures
        header.numbers_spec() is Ok <==> {
            &&& 0 < header.x_scale_factor.bits < 0x7FF0_0000_0000_0000
            &&& 0 < header.y_scale_factor.bits < 0x7FF0_0000_0000_0000
            &&& 0 < header.z_scale_factor.bits < 0x7FF0_0000_0000_0000
            &&& header.x_offset.finite() && header.y_offset.finite() && header.z_offset.finite()
            &&& header.min_x.finite() && header.max_x.finite() && header.min_x.le(header.max_x)
            &&& header.min_y.finite() && header.max_y.finite() && header.min_y.le(header.max_y)
            &&& header.min_z.finite() && header.max_z.finite() && header.min_z.le(header.max_z)
        },
{
}

/// The numbers of a header are refused for what is wrong with them.
pub proof fn law_why_numbers_are_refused(header: LasHeader)
    requires
        header.numbers_spec() is Err,
    ensures
        match header.numbers_spec()->Err_0 {
            Error::InvalidData(Fault::HeaderScale { axis }) => {
                let scale = match axis {
                    Axis::X => header.x_scale_factor,
                    Axis::Y => header.y_scale_factor,
                    Axis::Z => header.z_scale_factor,
                };
                !(scale.finite() && scale.positive())
            },
            Error::InvalidData(Fault::HeaderNotFinite { field }) => {
                let value = match field {
                    HeaderField::OffsetX => header.x_offset,
                    HeaderField::OffsetY => header.y_offset,
                    HeaderField::OffsetZ => header.z_offset,
                    HeaderField::MinX => header.min_x,
                    HeaderField::MinY => header.min_y,
                    HeaderField::MinZ => header.min_z,
                    HeaderField::MaxX => header.max_x,
                    HeaderField::MaxY => header.max_y,
                    HeaderField::MaxZ => header.max_z,
                };
                !value.finite()
            },
            Error::InvalidData(Fault::HeaderBoundsOrder { axis }) => match axis {
                Axis::X => header.max_x.lt(header.min_x),
                Axis::Y => header.max_y.lt(header.min_y),
                Axis::Z => header.max_z.lt(header.min_z),
            },
            _ => false,
        },
{
}

/// A header is refused for what is wrong with it.
pub proof fn law_why_a_header_is_refused(s: Seq<u8>, file_len: u64)
    requires
        s.len() >= 375,
        header_of(s, file_len) is Err,
    ensures
        match header_of(s, file_len)->Err_0 {
            Error::InvalidData(Fault::MissingSignature) => s.subrange(0, 4) != seq![
                0x4Cu8,
                0x41u8,
                0x53u8,
                0x46u8,
            ],
            Error::InvalidData(Fault::ReservedEncodingBits { encoding }) => encoding
                == bytes::le_at(s, 6, 2) && encoding >= 32,
            Error::InvalidData(Fault::MissingWktBit) => bytes::le_at(s, 6, 2) < 16,
            Error::Unsupported(Fault::LasVersion { major, minor }) => major == s[24] && minor
                == s[25] && !(major == 1 && minor == 4),
            Error::InvalidData(Fault::HeaderSize { size }) => size == bytes::le_at(s, 94, 2)
                && size != 375,
            Error::InvalidData(Fault::PointDataBeforeHeader { offset, size }) => offset
                == bytes::le_at(s, 96, 4) && offset < 375 && size == 375,
            Error::InvalidData(Fault::PointDataPastEnd { offset, file_len: len }) => offset
                == bytes::le_at(s, 96, 4) && offset > file_len && len == file_len,
            Error::InvalidData(Fault::VlrCount { count }) => count == bytes::le_at(s, 100, 4)
                && count > 4096,
            Error::InvalidData(Fault::NotCompressed) => s[104] < 64,
            Error::Unsupported(Fault::PointFormat { id }) => id == s[104] % 64 && !(6 <= id <= 8),
            Error::InvalidData(Fault::EvlrCount { count }) => count == bytes::le_at(s, 243, 4)
                && count > 4096,
            Error::InvalidData(Fault::FirstEvlrPastEnd { offset, file_len: len }) => offset
                == bytes::le_at(s, 235, 8) && offset > file_len && len == file_len,
            error => LasHeader::raw(s).numbers_spec() == Err::<(), Error>(error),
        },
{
    reveal(header_of);
    bytes::lemma_pow256_values();
    bytes::lemma_le_bound(s.subrange(6, 8));
    bytes::lemma_le_bound(s.subrange(94, 96));
    bytes::lemma_le_bound(s.subrange(96, 100));
    bytes::lemma_le_bound(s.subrange(100, 104));
    bytes::lemma_le_bound(s.subrange(235, 243));
    bytes::lemma_le_bound(s.subrange(243, 247));
}

} // verus!
