//! The payload of the COPC info VLR.

use vstd::prelude::*;

use crate::bytes;
use crate::bytes::{push_le, read_u64, zero_bytes};
use crate::error::{Error, Fault, InfoField, Result};
use crate::float::F64;

verus! {

/// The size of the payload.
pub const COPC_INFO_BYTES: usize = 160;

/// The cube that the octree divides, the point spacing of its root, where the hierarchy
/// starts, and the range of GPS times.
#[derive(Clone, Copy, Debug, PartialEq)]
pub struct CopcInfo {
    pub center: (F64, F64, F64),
    pub halfsize: F64,
    pub spacing: F64,
    pub root_hier_offset: u64,
    pub root_hier_size: u64,
    pub gpstime_min: F64,
    pub gpstime_max: F64,
}

/// The number whose bits stand at `offset`.
pub open spec fn f64_at(s: Seq<u8>, offset: int) -> F64 {
    F64 { bits: bytes::le_at(s, offset, 8) as u64 }
}

/// The fields at their places in a payload.
pub open spec fn raw_info(s: Seq<u8>) -> CopcInfo {
    CopcInfo {
        center: (f64_at(s, 0), f64_at(s, 8), f64_at(s, 16)),
        halfsize: f64_at(s, 24),
        spacing: f64_at(s, 32),
        root_hier_offset: bytes::le_at(s, 40, 8) as u64,
        root_hier_size: bytes::le_at(s, 48, 8) as u64,
        gpstime_min: f64_at(s, 56),
        gpstime_max: f64_at(s, 64),
    }
}

/// What [`CopcInfo::from_le_bytes`] answers.
pub open spec fn info_of(s: Seq<u8>) -> Result<CopcInfo> {
    if s.len() < COPC_INFO_BYTES {
        Err(Error::InvalidData(Fault::InfoTooShort { len: s.len() as usize }))
    } else if exists|i: int| 72 <= i < 160 && #[trigger] s[i] != 0 {
        Err(Error::InvalidData(Fault::InfoReservedBytes))
    } else {
        Ok(raw_info(s))
    }
}

/// The payload: nine fields, then zeros.
#[verifier::opaque]
pub open spec fn info_bytes(info: CopcInfo) -> Seq<u8> {
    bytes::le_bytes(info.center.0.bits as nat, 8) + bytes::le_bytes(info.center.1.bits as nat, 8)
        + bytes::le_bytes(info.center.2.bits as nat, 8) + bytes::le_bytes(
        info.halfsize.bits as nat,
        8,
    ) + bytes::le_bytes(info.spacing.bits as nat, 8) + bytes::le_bytes(
        info.root_hier_offset as nat,
        8,
    ) + bytes::le_bytes(info.root_hier_size as nat, 8) + bytes::le_bytes(
        info.gpstime_min.bits as nat,
        8,
    ) + bytes::le_bytes(info.gpstime_max.bits as nat, 8) + bytes::zeros(88)
}

/// Reads the number whose bits stand at `offset`.
pub fn read_f64(src: &[u8], offset: usize) -> (r: F64)
    requires
        offset + 8 <= src@.len(),
    ensures
        r == f64_at(src@, offset as int),
{
    F64 { bits: read_u64(src, offset) }
}

fn check_finite(value: F64, field: InfoField) -> (r: Result<()>)
    ensures
        r == finite_info(value, field),
{
    if value.is_finite() {
        Ok(())
    } else {
        Err(Error::InvalidData(Fault::InfoNotFinite { field }))
    }
}

pub open spec fn finite_info(value: F64, field: InfoField) -> Result<()> {
    if value.finite() {
        Ok(())
    } else {
        Err(Error::InvalidData(Fault::InfoNotFinite { field }))
    }
}

impl CopcInfo {
    /// Every number is finite, the cube and the spacing have a positive size, and the GPS
    /// times are in order.
    pub open spec fn valid(self) -> bool {
        &&& self.center.0.finite() && self.center.1.finite() && self.center.2.finite()
        &&& self.halfsize.finite() && self.halfsize.positive()
        &&& self.spacing.finite() && self.spacing.positive()
        &&& self.gpstime_min.finite() && self.gpstime_max.finite()
        &&& self.gpstime_min.le(self.gpstime_max)
    }

    /// What [`CopcInfo::validate`] answers.
    pub open spec fn validity(self) -> Result<()> {
        if !self.center.0.finite() {
            Err(Error::InvalidData(Fault::InfoNotFinite { field: InfoField::CenterX }))
        } else if !self.center.1.finite() {
            Err(Error::InvalidData(Fault::InfoNotFinite { field: InfoField::CenterY }))
        } else if !self.center.2.finite() {
            Err(Error::InvalidData(Fault::InfoNotFinite { field: InfoField::CenterZ }))
        } else if !self.halfsize.finite() {
            Err(Error::InvalidData(Fault::InfoNotFinite { field: InfoField::Halfsize }))
        } else if !self.spacing.finite() {
            Err(Error::InvalidData(Fault::InfoNotFinite { field: InfoField::Spacing }))
        } else if !self.gpstime_min.finite() {
            Err(Error::InvalidData(Fault::InfoNotFinite { field: InfoField::GpsTimeMin }))
        } else if !self.gpstime_max.finite() {
            Err(Error::InvalidData(Fault::InfoNotFinite { field: InfoField::GpsTimeMax }))
        } else if !self.halfsize.positive() {
            Err(Error::InvalidData(Fault::InfoNotPositive { field: InfoField::Halfsize }))
        } else if !self.spacing.positive() {
            Err(Error::InvalidData(Fault::InfoNotPositive { field: InfoField::Spacing }))
        } else if self.gpstime_max.lt(self.gpstime_min) {
            Err(Error::InvalidData(Fault::InfoTimeOrder))
        } else {
            Ok(())
        }
    }

    /// Reads the payload. Bytes behind the first 160 are left alone; the reserved ones must
    /// be zero.
    pub fn from_le_bytes(src: &[u8]) -> (r: Result<CopcInfo>)
        ensures
            r == info_of(src@),
    {
        let len: usize = src.len();
        if len < COPC_INFO_BYTES {
            return Err(Error::InvalidData(Fault::InfoTooShort { len }));
        }
        let mut i: usize = 72;
        while i < COPC_INFO_BYTES
            invariant
                72 <= i <= 160 <= src@.len(),
                forall|k: int| 72 <= k < i ==> #[trigger] src@[k] == 0,
            decreases 160 - i,
        {
            if src[i] != 0 {
                return Err(Error::InvalidData(Fault::InfoReservedBytes));
            }
            i = i + 1;
        }
        Ok(
            CopcInfo {
                center: (read_f64(src, 0), read_f64(src, 8), read_f64(src, 16)),
                halfsize: read_f64(src, 24),
                spacing: read_f64(src, 32),
                root_hier_offset: read_u64(src, 40),
                root_hier_size: read_u64(src, 48),
                gpstime_min: read_f64(src, 56),
                gpstime_max: read_f64(src, 64),
            },
        )
    }

    /// Checks the numbers.
    pub fn validate(self) -> (r: Result<()>)
        ensures
            r == self.validity(),
            r is Ok <==> self.valid(),
    {
        check_finite(self.center.0, InfoField::CenterX)?;
        check_finite(self.center.1, InfoField::CenterY)?;
        check_finite(self.center.2, InfoField::CenterZ)?;
        check_finite(self.halfsize, InfoField::Halfsize)?;
        check_finite(self.spacing, InfoField::Spacing)?;
        check_finite(self.gpstime_min, InfoField::GpsTimeMin)?;
        check_finite(self.gpstime_max, InfoField::GpsTimeMax)?;
        if !self.halfsize.is_positive() {
            return Err(Error::InvalidData(Fault::InfoNotPositive { field: InfoField::Halfsize }));
        }
        if !self.spacing.is_positive() {
            return Err(Error::InvalidData(Fault::InfoNotPositive { field: InfoField::Spacing }));
        }
        if self.gpstime_max.is_less(self.gpstime_min) {
            return Err(Error::InvalidData(Fault::InfoTimeOrder));
        }
        Ok(())
    }

    /// The payload, where the numbers are valid.
    pub fn write_le_bytes(self) -> (r: Result<Vec<u8>>)
        ensures
            match r {
                Ok(out) => self.valid() && out@ == info_bytes(self) && out@.len()
                    == COPC_INFO_BYTES,
                Err(error) => self.validity() == Err::<(), Error>(error),
            },
    {
        self.validate()?;
        let mut out: Vec<u8> = Vec::new();
        push_le(&mut out, self.center.0.bits, 8);
        push_le(&mut out, self.center.1.bits, 8);
        push_le(&mut out, self.center.2.bits, 8);
        push_le(&mut out, self.halfsize.bits, 8);
        push_le(&mut out, self.spacing.bits, 8);
        push_le(&mut out, self.root_hier_offset, 8);
        push_le(&mut out, self.root_hier_size, 8);
        push_le(&mut out, self.gpstime_min.bits, 8);
        push_le(&mut out, self.gpstime_max.bits, 8);
        let reserved = zero_bytes(88);
        bytes::push_bytes(&mut out, reserved.as_slice());
        proof {
            broadcast use bytes::lemma_le_bytes_len;

            reveal(info_bytes);
            assert(out@ =~= info_bytes(self));
        }
        Ok(out)
    }
}

/// Reading back what was written gives the same info, for all values of the fields.
pub proof fn law_info_round_trip(info: CopcInfo)
    ensures
        info_of(info_bytes(info)) == Ok::<CopcInfo, Error>(info),
        info_bytes(info).len() == COPC_INFO_BYTES,
{
    broadcast use bytes::lemma_le_bytes_len;

    reveal(info_bytes);
    let s = info_bytes(info);
    bytes::lemma_pow256_values();
    assert(s.subrange(0, 8) =~= bytes::le_bytes(info.center.0.bits as nat, 8));
    assert(s.subrange(8, 16) =~= bytes::le_bytes(info.center.1.bits as nat, 8));
    assert(s.subrange(16, 24) =~= bytes::le_bytes(info.center.2.bits as nat, 8));
    assert(s.subrange(24, 32) =~= bytes::le_bytes(info.halfsize.bits as nat, 8));
    assert(s.subrange(32, 40) =~= bytes::le_bytes(info.spacing.bits as nat, 8));
    assert(s.subrange(40, 48) =~= bytes::le_bytes(info.root_hier_offset as nat, 8));
    assert(s.subrange(48, 56) =~= bytes::le_bytes(info.root_hier_size as nat, 8));
    assert(s.subrange(56, 64) =~= bytes::le_bytes(info.gpstime_min.bits as nat, 8));
    assert(s.subrange(64, 72) =~= bytes::le_bytes(info.gpstime_max.bits as nat, 8));
    bytes::law_le_of_le_bytes(info.center.0.bits as nat, 8);
    bytes::law_le_of_le_bytes(info.center.1.bits as nat, 8);
    bytes::law_le_of_le_bytes(info.center.2.bits as nat, 8);
    bytes::law_le_of_le_bytes(info.halfsize.bits as nat, 8);
    bytes::law_le_of_le_bytes(info.spacing.bits as nat, 8);
    bytes::law_le_of_le_bytes(info.root_hier_offset as nat, 8);
    bytes::law_le_of_le_bytes(info.root_hier_size as nat, 8);
    bytes::law_le_of_le_bytes(info.gpstime_min.bits as nat, 8);
    bytes::law_le_of_le_bytes(info.gpstime_max.bits as nat, 8);
    assert(raw_info(s) == info);
}

/// The info is read from 160 bytes: the middle, half the size, the spacing, place and size of
/// the root page, and the range of times, eight bytes for each; the rest is zero.
pub proof fn law_info_stands(s: Seq<u8>, i: int)
    requires
        info_of(s) is Ok,
    ensures
        s.len() >= 160,
        72 <= i < 160 ==> s[i] == 0,
        ({
            let info = info_of(s)->Ok_0;
            &&& info.center.0.bits == bytes::le_at(s, 0, 8)
            &&& info.center.1.bits == bytes::le_at(s, 8, 8)
            &&& info.center.2.bits == bytes::le_at(s, 16, 8)
            &&& info.halfsize.bits == bytes::le_at(s, 24, 8)
            &&& info.spacing.bits == bytes::le_at(s, 32, 8)
            &&& info.root_hier_offset == bytes::le_at(s, 40, 8)
            &&& info.root_hier_size == bytes::le_at(s, 48, 8)
            &&& info.gpstime_min.bits == bytes::le_at(s, 56, 8)
            &&& info.gpstime_max.bits == bytes::le_at(s, 64, 8)
        }),
{
    bytes::lemma_pow256_values();
    bytes::lemma_le_bound(s.subrange(0, 8));
    bytes::lemma_le_bound(s.subrange(8, 16));
    bytes::lemma_le_bound(s.subrange(16, 24));
    bytes::lemma_le_bound(s.subrange(24, 32));
    bytes::lemma_le_bound(s.subrange(32, 40));
    bytes::lemma_le_bound(s.subrange(40, 48));
    bytes::lemma_le_bound(s.subrange(48, 56));
    bytes::lemma_le_bound(s.subrange(56, 64));
    bytes::lemma_le_bound(s.subrange(64, 72));
}

/// The info is refused just where it is cut short or the bytes behind it are not all zero.
pub proof fn law_refused_info(s: Seq<u8>)
    ensures
        info_of(s) is Ok <==> s.len() >= 160 && forall|i: int| 72 <= i < 160 ==> s[i] == 0,
{
}

/// The info is valid just where all its numbers are finite, the size and the spacing are above
/// zero, and the times are in order.
pub proof fn law_valid_info(info: CopcInfo)
    ensures
        info.validity() is Ok <==> {
            &&& info.center.0.finite() && info.center.1.finite() && info.center.2.finite()
            &&& 0 < info.halfsize.bits < 0x7FF0_0000_0000_0000
            &&& 0 < info.spacing.bits < 0x7FF0_0000_0000_0000
            &&& info.gpstime_min.finite() && info.gpstime_max.finite()
            &&& !info.gpstime_max.lt(info.gpstime_min)
        },
        info.validity() is Ok <==> info.valid(),
{
}

/// The number of a field of the info.
pub open spec fn field_value(info: CopcInfo, field: InfoField) -> F64 {
    match field {
        InfoField::CenterX => info.center.0,
        InfoField::CenterY => info.center.1,
        InfoField::CenterZ => info.center.2,
        InfoField::Halfsize => info.halfsize,
        InfoField::Spacing => info.spacing,
        InfoField::GpsTimeMin => info.gpstime_min,
        InfoField::GpsTimeMax => info.gpstime_max,
    }
}

/// The info is refused for what is wrong with it, and an error that names a field names one that
/// is wrong.
pub proof fn law_why_an_info_is_refused(info: CopcInfo)
    requires
        info.validity() is Err,
    ensures
        match info.validity()->Err_0 {
            Error::InvalidData(Fault::InfoNotFinite { field }) => !field_value(
                info,
                field,
            ).finite(),
            Error::InvalidData(Fault::InfoNotPositive { field }) => (field == InfoField::Halfsize
                || field == InfoField::Spacing) && !field_value(info, field).positive(),
            Error::InvalidData(Fault::InfoTimeOrder) => info.gpstime_max.lt(info.gpstime_min),
            _ => false,
        },
{
}

} // verus!
