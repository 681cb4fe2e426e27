//! LAS point formats: which fields a point record has, and how long it is.

use vstd::prelude::*;

use crate::error::{Error, Fault, LasTask, Result};
use crate::las_header::LasHeader;

verus! {

/// The fields of a LAS point record.
#[derive(Clone, Copy, Debug, PartialEq, Eq, Structural)]
pub struct PointFormat {
    pub has_gps_time: bool,
    pub has_color: bool,
    /// Whether flags take three bytes and the scan angle is scaled.
    pub is_extended: bool,
    pub has_waveform: bool,
    pub has_nir: bool,
    /// The number of bytes behind the standard fields.
    pub extra_bytes: u16,
    pub is_compressed: bool,
}

/// The format with the given number, without its compression bit and without extra bytes.
pub open spec fn format_of(id: int) -> PointFormat {
    PointFormat {
        has_gps_time: id == 1 || 3 <= id <= 10,
        has_color: id == 2 || id == 3 || id == 5 || id == 7 || id == 8 || id == 10,
        is_extended: id >= 6,
        has_waveform: id == 4 || id == 5 || id == 9 || id == 10,
        has_nir: id == 8 || id == 10,
        extra_bytes: 0,
        is_compressed: false,
    }
}

/// Creates a format with `las::point::Format::new`.
///
/// Claimed: numbers above 10 are refused unless the compression bit 0x80 is set; the fields
/// are those of the number's low six bits.
#[verifier::external_body]
fn las_format(id: u8) -> (r: Option<PointFormat>)
    ensures
        match r {
            Some(format) => {
                &&& id <= 10 || id >= 128
                &&& format == (PointFormat { is_compressed: id >= 128, ..format_of(id as int % 64) })
            },
            None => 10 < id < 128,
        },
{
    let format = las::point::Format::new(id).ok()?;
    Some(PointFormat {
        has_gps_time: format.has_gps_time,
        has_color: format.has_color,
        is_extended: format.is_extended,
        has_waveform: format.has_waveform,
        has_nir: format.has_nir,
        extra_bytes: format.extra_bytes,
        is_compressed: format.is_compressed,
    })
}

impl PointFormat {
    /// The length of a record.
    pub open spec fn record_len(self) -> int {
        (if self.is_extended {
            22int
        } else {
            20int
        }) + (if self.has_gps_time {
            8int
        } else {
            0int
        }) + (if self.has_color {
            6int
        } else {
            0int
        }) + (if self.has_nir {
            2int
        } else {
            0int
        }) + (if self.has_waveform {
            29int
        } else {
            0int
        }) + self.extra_bytes
    }

    /// The number of the format, where the fields are those of one.
    pub open spec fn number(self) -> Option<u8> {
        if self.is_extended {
            if !self.has_gps_time {
                None
            } else if self.has_color {
                if self.has_nir {
                    Some(
                        if self.has_waveform {
                            10u8
                        } else {
                            8u8
                        },
                    )
                } else if self.has_waveform {
                    None
                } else {
                    Some(7u8)
                }
            } else if self.has_nir {
                None
            } else {
                Some(
                    if self.has_waveform {
                        9u8
                    } else {
                        6u8
                    },
                )
            }
        } else if self.has_nir {
            None
        } else if self.has_waveform {
            if !self.has_gps_time {
                None
            } else {
                Some(
                    if self.has_color {
                        5u8
                    } else {
                        4u8
                    },
                )
            }
        } else if self.has_color {
            Some(
                if self.has_gps_time {
                    3u8
                } else {
                    2u8
                },
            )
        } else {
            Some(
                if self.has_gps_time {
                    1u8
                } else {
                    0u8
                },
            )
        }
    }

    /// The format with the given number.
    pub fn new(id: u8) -> (r: Result<PointFormat>)
        ensures
            r == (if 10 < id < 128 {
                Err(Error::Las(LasTask::PointFormat))
            } else {
                Ok(PointFormat { is_compressed: id >= 128, ..format_of(id as int % 64) })
            }),
    {
        match las_format(id) {
            Some(format) => Ok(format),
            None => Err(Error::Las(LasTask::PointFormat)),
        }
    }

    /// The sum of the field sizes, from `las::point::Format::len`.
    ///
    /// Claimed: it is the sum of the field sizes, cut to 16 bits.
    #[verifier::external_body]
    fn las_len(&self) -> (r: u16)
        ensures
            r == self.record_len() % 0x1_0000,
    {
        let mut format = las::point::Format::default();
        format.has_gps_time = self.has_gps_time;
        format.has_color = self.has_color;
        format.is_extended = self.is_extended;
        format.has_waveform = self.has_waveform;
        format.has_nir = self.has_nir;
        format.extra_bytes = self.extra_bytes;
        format.len()
    }

    /// The number of the format, from `las::point::Format::to_u8`.
    ///
    /// Claimed: the fields decide the number, or that there is none.
    #[verifier::external_body]
    fn las_number(&self) -> (r: Option<u8>)
        ensures
            r == self.number(),
    {
        let mut format = las::point::Format::default();
        format.has_gps_time = self.has_gps_time;
        format.has_color = self.has_color;
        format.is_extended = self.is_extended;
        format.has_waveform = self.has_waveform;
        format.has_nir = self.has_nir;
        format.extra_bytes = self.extra_bytes;
        format.is_compressed = self.is_compressed;
        format.to_u8().ok()
    }

    /// The length of a record, cut to 16 bits.
    pub fn len(&self) -> (r: u16)
        ensures
            r == self.record_len() % 0x1_0000,
    {
        self.las_len()
    }

    /// The number of the format, where the fields are those of one.
    pub fn to_u8(&self) -> (r: Option<u8>)
        ensures
            r == self.number(),
    {
        self.las_number()
    }
}

/// What [`point_format_for`] answers.
pub open spec fn header_format(header: LasHeader) -> Result<PointFormat> {
    let id = header.point_data_record_format % 64;
    let base = format_of(id as int);
    if !crate::las_header::copc_format(header.point_data_record_format) {
        Err(Error::Unsupported(Fault::PointFormat { id }))
    } else if header.point_data_record_length < base.record_len() {
        Err(
            Error::InvalidData(
                Fault::RecordLengthTooSmall {
                    length: header.point_data_record_length,
                    id,
                    base: base.record_len() as u16,
                },
            ),
        )
    } else {
        Ok(
            PointFormat {
                extra_bytes: (header.point_data_record_length - base.record_len()) as u16,
                ..base
            },
        )
    }
}

/// The format of the point records of a COPC file. What the record length leaves behind the
/// standard fields is extra bytes.
pub fn point_format_for(header: &LasHeader) -> (r: Result<PointFormat>)
    ensures
        r == header_format(*header),
        r is Ok ==> r->Ok_0.record_len() == header.point_data_record_length,
{
    let id: u8 = header.point_data_record_format % 64;
    if id < 6 || id > 8 {
        return Err(Error::Unsupported(Fault::PointFormat { id }));
    }
    let mut format = PointFormat::new(id)?;
    let base: u16 = format.len();
    let length: u16 = header.point_data_record_length;
    if length < base {
        return Err(Error::InvalidData(Fault::RecordLengthTooSmall { length, id, base }));
    }
    format.extra_bytes = length - base;
    Ok(format)
}

/// Each of the eleven formats has its number again.
pub proof fn law_format_numbers(id: u8)
    requires
        id <= 10,
    ensures
        format_of(id as int).number() == Some(id),
{
}

/// The records of a format have the size that LAS gives for its number. The formats from 6 on are
/// the extended ones, and all of them have a time; near infrared values come only with colors.
pub proof fn law_record_sizes(id: u8)
    requires
        id <= 10,
    ensures
        format_of(id as int).record_len() == match id {
            0 => 20int,
            1 => 28,
            2 => 26,
            3 => 34,
            4 => 57,
            5 => 63,
            6 => 30,
            7 => 36,
            8 => 38,
            9 => 59,
            _ => 67,
        },
        format_of(id as int).is_extended <==> id >= 6,
        id >= 6 ==> format_of(id as int).has_gps_time,
        format_of(id as int).has_nir ==> format_of(id as int).has_color && id >= 6,
        format_of(id as int).extra_bytes == 0 && !format_of(id as int).is_compressed,
{
}

/// A format has a number just where it is the format of that number.
pub proof fn law_number_of_a_format(format: PointFormat, id: u8)
    requires
        id <= 10,
    ensures
        format.number() == Some(id) <==> {
            let base = format_of(id as int);
            &&& format.has_gps_time == base.has_gps_time
            &&& format.has_color == base.has_color
            &&& format.is_extended == base.is_extended
            &&& format.has_waveform == base.has_waveform
            &&& format.has_nir == base.has_nir
        },
        format.number() matches Some(n) ==> n <= 10,
{
}

/// The format of a header is that of its number, with what is left of its records as extra
/// bytes; it is refused just where COPC does not have it or its records are too short.
pub proof fn law_format_of_a_header(header: LasHeader)
    ensures
        ({
            let id = header.point_data_record_format as int % 64;
            &&& header_format(header) is Ok <==> {
                ||| id == 6 && header.point_data_record_length >= 30
                ||| id == 7 && header.point_data_record_length >= 36
                ||| id == 8 && header.point_data_record_length >= 38
            }
            &&& header_format(header) is Ok ==> {
                let format = header_format(header)->Ok_0;
                &&& format.number() == Some(id as u8)
                &&& format.record_len() == header.point_data_record_length
            }
        }),
{
}

} // verus!
