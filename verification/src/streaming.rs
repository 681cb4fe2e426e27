//! Point records with all their fields, and their bytes in spill files.

use vstd::prelude::*;

use crate::bytes;
use crate::bytes::{push_bytes, push_le};
use crate::error::{Error, Fault, Result};
use crate::float::{F32, F64};
use crate::las_out;
use crate::las_out::Vlr;
use crate::metadata;
use crate::point_format::PointFormat;

verus! {

/// A point with all fields that LAS has.
#[derive(Clone, Debug, PartialEq)]
pub struct LasPointRecord {
    pub x: F64,
    pub y: F64,
    pub z: F64,
    pub intensity: u16,
    pub return_number: u8,
    pub number_of_returns: u8,
    pub classification: u8,
    pub scan_direction_flag: bool,
    pub edge_of_flight_line: bool,
    pub scan_angle: F32,
    pub user_data: u8,
    pub point_source_id: u16,
    pub synthetic: bool,
    pub key_point: bool,
    pub withheld: bool,
    pub overlap: bool,
    pub scan_channel: u8,
    pub gps_time: F64,
    pub red: u16,
    pub green: u16,
    pub blue: u16,
    pub nir: u16,
    pub wave_packet_descriptor_index: u8,
    pub byte_offset_to_waveform_data: u64,
    pub waveform_packet_size: u32,
    pub return_point_waveform_location: F32,
    pub extra_bytes: Vec<u8>,
}

/// What a [`LasPointRecord`] holds.
#[verifier::ext_equal]
pub struct PointModel {
    pub x: F64,
    pub y: F64,
    pub z: F64,
    pub intensity: u16,
    pub return_number: u8,
    pub number_of_returns: u8,
    pub classification: u8,
    pub scan_direction_flag: bool,
    pub edge_of_flight_line: bool,
    pub scan_angle: F32,
    pub user_data: u8,
    pub point_source_id: u16,
    pub synthetic: bool,
    pub key_point: bool,
    pub withheld: bool,
    pub overlap: bool,
    pub scan_channel: u8,
    pub gps_time: F64,
    pub red: u16,
    pub green: u16,
    pub blue: u16,
    pub nir: u16,
    pub wave_packet_descriptor_index: u8,
    pub byte_offset_to_waveform_data: u64,
    pub waveform_packet_size: u32,
    pub return_point_waveform_location: F32,
    pub extra_bytes: Seq<u8>,
}

impl View for LasPointRecord {
    type V = PointModel;

    open spec fn view(&self) -> PointModel {
        PointModel {
            x: self.x,
            y: self.y,
            z: self.z,
            intensity: self.intensity,
            return_number: self.return_number,
            number_of_returns: self.number_of_returns,
            classification: self.classification,
            scan_direction_flag: self.scan_direction_flag,
            edge_of_flight_line: self.edge_of_flight_line,
            scan_angle: self.scan_angle,
            user_data: self.user_data,
            point_source_id: self.point_source_id,
            synthetic: self.synthetic,
            key_point: self.key_point,
            withheld: self.withheld,
            overlap: self.overlap,
            scan_channel: self.scan_channel,
            gps_time: self.gps_time,
            red: self.red,
            green: self.green,
            blue: self.blue,
            nir: self.nir,
            wave_packet_descriptor_index: self.wave_packet_descriptor_index,
            byte_offset_to_waveform_data: self.byte_offset_to_waveform_data,
            waveform_packet_size: self.waveform_packet_size,
            return_point_waveform_location: self.return_point_waveform_location,
            extra_bytes: self.extra_bytes@,
        }
    }
}

impl Default for LasPointRecord {
    fn default() -> (r: LasPointRecord)
        ensures
            r@ == zero_point(),
    {
        LasPointRecord {
            x: F64 { bits: 0 },
            y: F64 { bits: 0 },
            z: F64 { bits: 0 },
            intensity: 0,
            return_number: 0,
            number_of_returns: 0,
            classification: 0,
            scan_direction_flag: false,
            edge_of_flight_line: false,
            scan_angle: F32 { bits: 0 },
            user_data: 0,
            point_source_id: 0,
            synthetic: false,
            key_point: false,
            withheld: false,
            overlap: false,
            scan_channel: 0,
            gps_time: F64 { bits: 0 },
            red: 0,
            green: 0,
            blue: 0,
            nir: 0,
            wave_packet_descriptor_index: 0,
            byte_offset_to_waveform_data: 0,
            waveform_packet_size: 0,
            return_point_waveform_location: F32 { bits: 0 },
            extra_bytes: Vec::new(),
        }
    }
}

/// A point of zeros.
pub open spec fn zero_point() -> PointModel {
    PointModel {
        x: F64 { bits: 0 },
        y: F64 { bits: 0 },
        z: F64 { bits: 0 },
        intensity: 0,
        return_number: 0,
        number_of_returns: 0,
        classification: 0,
        scan_direction_flag: false,
        edge_of_flight_line: false,
        scan_angle: F32 { bits: 0 },
        user_data: 0,
        point_source_id: 0,
        synthetic: false,
        key_point: false,
        withheld: false,
        overlap: false,
        scan_channel: 0,
        gps_time: F64 { bits: 0 },
        red: 0,
        green: 0,
        blue: 0,
        nir: 0,
        wave_packet_descriptor_index: 0,
        byte_offset_to_waveform_data: 0,
        waveform_packet_size: 0,
        return_point_waveform_location: F32 { bits: 0 },
        extra_bytes: Seq::empty(),
    }
}

/// Where a waveform lies, for a point.
#[derive(Clone, Copy, Debug)]
pub struct LasWaveform {
    pub wave_packet_descriptor_index: u8,
    pub byte_offset_to_waveform_data: u64,
    pub waveform_packet_size: u32,
    pub return_point_waveform_location: F32,
}

/// A point as LAS readers give it.
#[derive(Clone, Debug)]
pub struct LasPoint {
    pub x: F64,
    pub y: F64,
    pub z: F64,
    pub intensity: u16,
    pub return_number: u8,
    pub number_of_returns: u8,
    pub classification: u8,
    pub scan_direction_flag: bool,
    pub edge_of_flight_line: bool,
    pub scan_angle: F32,
    pub user_data: u8,
    pub point_source_id: u16,
    pub synthetic: bool,
    pub key_point: bool,
    pub withheld: bool,
    pub overlap: bool,
    pub scan_channel: u8,
    pub gps_time: Option<F64>,
    /// Red, green and blue.
    pub color: Option<(u16, u16, u16)>,
    pub nir: Option<u16>,
    pub waveform: Option<LasWaveform>,
    pub extra_bytes: Vec<u8>,
}

/// The color of points that have none.
pub const NO_COLOR: u16 = 32_768;

/// The record for a point: what the point has, and defaults for the rest.
pub open spec fn record_for(point: LasPoint) -> PointModel {
    let (red, green, blue) = match point.color {
        Some(color) => color,
        None => (NO_COLOR, NO_COLOR, NO_COLOR),
    };
    let wave = match point.waveform {
        Some(waveform) => waveform,
        None => LasWaveform {
            wave_packet_descriptor_index: 0,
            byte_offset_to_waveform_data: 0,
            waveform_packet_size: 0,
            return_point_waveform_location: F32 { bits: 0 },
        },
    };
    PointModel {
        x: point.x,
        y: point.y,
        z: point.z,
        intensity: point.intensity,
        return_number: point.return_number,
        number_of_returns: point.number_of_returns,
        classification: point.classification,
        scan_direction_flag: point.scan_direction_flag,
        edge_of_flight_line: point.edge_of_flight_line,
        scan_angle: point.scan_angle,
        user_data: point.user_data,
        point_source_id: point.point_source_id,
        synthetic: point.synthetic,
        key_point: point.key_point,
        withheld: point.withheld,
        overlap: point.overlap,
        scan_channel: point.scan_channel,
        gps_time: match point.gps_time {
            Some(time) => time,
            None => F64 { bits: 0 },
        },
        red,
        green,
        blue,
        nir: match point.nir {
            Some(nir) => nir,
            None => 0,
        },
        wave_packet_descriptor_index: wave.wave_packet_descriptor_index,
        byte_offset_to_waveform_data: wave.byte_offset_to_waveform_data,
        waveform_packet_size: wave.waveform_packet_size,
        return_point_waveform_location: wave.return_point_waveform_location,
        extra_bytes: point.extra_bytes@,
    }
}

impl LasPointRecord {
    /// The record for a point. Points without color are gray.
    pub fn from_las_point(point: &LasPoint) -> (r: LasPointRecord)
        ensures
            r@ == record_for(*point),
            r.x == point.x,
            r.y == point.y,
            r.z == point.z,
            r.intensity == point.intensity,
            r.return_number == point.return_number,
            r.number_of_returns == point.number_of_returns,
            r.classification == point.classification,
            r.scan_direction_flag == point.scan_direction_flag,
            r.edge_of_flight_line == point.edge_of_flight_line,
            r.scan_angle == point.scan_angle,
            r.user_data == point.user_data,
            r.point_source_id == point.point_source_id,
            r.synthetic == point.synthetic,
            r.key_point == point.key_point,
            r.withheld == point.withheld,
            r.overlap == point.overlap,
            r.scan_channel == point.scan_channel,
            r.gps_time == (match point.gps_time {
                Some(time) => time,
                None => F64 { bits: 0 },
            }),
            (r.red, r.green, r.blue) == (match point.color {
                Some(color) => color,
                None => (32_768u16, 32_768u16, 32_768u16),
            }),
            r.nir == (match point.nir {
                Some(nir) => nir,
                None => 0u16,
            }),
            r.extra_bytes@ == point.extra_bytes@,
            point.waveform matches Some(w) ==> {
                &&& r.wave_packet_descriptor_index == w.wave_packet_descriptor_index
                &&& r.byte_offset_to_waveform_data == w.byte_offset_to_waveform_data
                &&& r.waveform_packet_size == w.waveform_packet_size
                &&& r.return_point_waveform_location == w.return_point_waveform_location
            },
            point.waveform is None ==> {
                &&& r.wave_packet_descriptor_index == 0
                &&& r.byte_offset_to_waveform_data == 0
                &&& r.waveform_packet_size == 0
                &&& r.return_point_waveform_location.bits == 0
            },
    {
        let (red, green, blue) = match point.color {
            Some(color) => color,
            None => (NO_COLOR, NO_COLOR, NO_COLOR),
        };
        let wave = match point.waveform {
            Some(waveform) => waveform,
            None => LasWaveform {
                wave_packet_descriptor_index: 0,
                byte_offset_to_waveform_data: 0,
                waveform_packet_size: 0,
                return_point_waveform_location: F32 { bits: 0 },
            },
        };
        LasPointRecord {
            x: point.x,
            y: point.y,
            z: point.z,
            intensity: point.intensity,
            return_number: point.return_number,
            number_of_returns: point.number_of_returns,
            classification: point.classification,
            scan_direction_flag: point.scan_direction_flag,
            edge_of_flight_line: point.edge_of_flight_line,
            scan_angle: point.scan_angle,
            user_data: point.user_data,
            point_source_id: point.point_source_id,
            synthetic: point.synthetic,
            key_point: point.key_point,
            withheld: point.withheld,
            overlap: point.overlap,
            scan_channel: point.scan_channel,
            gps_time: match point.gps_time {
                Some(time) => time,
                None => F64 { bits: 0 },
            },
            red,
            green,
            blue,
            nir: match point.nir {
                Some(nir) => nir,
                None => 0,
            },
            wave_packet_descriptor_index: wave.wave_packet_descriptor_index,
            byte_offset_to_waveform_data: wave.byte_offset_to_waveform_data,
            waveform_packet_size: wave.waveform_packet_size,
            return_point_waveform_location: wave.return_point_waveform_location,
            extra_bytes: bytes::copy_range(
                point.extra_bytes.as_slice(),
                0,
                point.extra_bytes.len(),
            ),
        }
    }
}

/// Which optional fields the points of a stream have.
#[derive(Clone, Debug, PartialEq, Eq)]
pub struct StreamingLayout {
    pub point_format: u8,
    pub has_gps: bool,
    pub has_color: bool,
    pub has_nir: bool,
    pub has_waveform: bool,
    /// The number of extra bytes of a point.
    pub extra_bytes: u16,
    /// The records that describe the extra bytes.
    pub extra_bytes_descriptors: Vec<Vlr>,
}

/// The bytes of the fields that every record has.
pub const ALWAYS_BYTES: usize = 43;

pub const GPS_BYTES: usize = 8;

pub const COLOR_BYTES: usize = 6;

pub const NIR_BYTES: usize = 2;

pub const WAVEFORM_BYTES: usize = 17;

impl StreamingLayout {
    /// Where the color stands in a record.
    pub open spec fn color_at(&self) -> int {
        43 + (if self.has_gps {
            8int
        } else {
            0int
        })
    }

    /// Where the near infrared value stands in a record.
    pub open spec fn nir_at(&self) -> int {
        self.color_at() + (if self.has_color {
            6int
        } else {
            0int
        })
    }

    /// Where the waveform stands in a record.
    pub open spec fn wave_at(&self) -> int {
        self.nir_at() + (if self.has_nir {
            2int
        } else {
            0int
        })
    }

    /// Where the extra bytes stand in a record.
    pub open spec fn extra_at(&self) -> int {
        self.wave_at() + (if self.has_waveform {
            17int
        } else {
            0int
        })
    }

    /// The bytes of a record.
    pub open spec fn width(&self) -> int {
        self.extra_at() + self.extra_bytes
    }

    /// The layout for the points of a format.
    pub fn from_las_format(format: PointFormat) -> (r: StreamingLayout)
        ensures
            r.point_format == (match format.number() {
                Some(id) => id,
                None => 0u8,
            }),
            r.has_gps == format.has_gps_time,
            r.has_color == format.has_color,
            r.has_nir == format.has_nir,
            r.has_waveform == format.has_waveform,
            r.extra_bytes == format.extra_bytes,
            r.extra_bytes_descriptors@.len() == 0,
    {
        let point_format: u8 = match format.to_u8() {
            Some(id) => id,
            None => 0,
        };
        StreamingLayout {
            point_format,
            has_gps: format.has_gps_time,
            has_color: format.has_color,
            has_nir: format.has_nir,
            has_waveform: format.has_waveform,
            extra_bytes: format.extra_bytes,
            extra_bytes_descriptors: Vec::new(),
        }
    }

    /// The layout for the points of a file with the given format and VLRs.
    pub fn from_las_header(format: PointFormat, vlrs: &[Vlr]) -> (r: StreamingLayout)
        ensures
            r.point_format == (match format.number() {
                Some(id) => id,
                None => 0u8,
            }),
            r.has_gps == format.has_gps_time,
            r.has_color == format.has_color,
            r.has_nir == format.has_nir,
            r.has_waveform == format.has_waveform,
            r.extra_bytes == format.extra_bytes,
            las_out::record_models(r.extra_bytes_descriptors@) == las_out::record_models(
                vlrs@,
            ).filter(metadata::extra_bytes_chooser()),
    {
        let mut layout = StreamingLayout::from_las_format(format);
        layout.extra_bytes_descriptors = metadata::extra_bytes_descriptors(vlrs);
        layout
    }

    /// The number of bytes of a record.
    pub fn record_width(&self) -> (r: usize)
        ensures
            r == self.width(),
            r <= StreamingLayout::widest(),
    {
        let mut width: usize = ALWAYS_BYTES;
        if self.has_gps {
            width = width + GPS_BYTES;
        }
        if self.has_color {
            width = width + COLOR_BYTES;
        }
        if self.has_nir {
            width = width + NIR_BYTES;
        }
        if self.has_waveform {
            width = width + WAVEFORM_BYTES;
        }
        width + self.extra_bytes as usize
    }

    /// The bytes of the widest record.
    pub open spec fn widest() -> int {
        76 + u16::MAX
    }

    /// The number of bytes of the widest record that there can be.
    pub fn max_record_width() -> (r: usize)
        ensures
            r == StreamingLayout::widest(),
    {
        ALWAYS_BYTES + GPS_BYTES + COLOR_BYTES + NIR_BYTES + WAVEFORM_BYTES + u16::MAX as usize
    }
}

/// A flag as a byte.
pub open spec fn flag_byte(flag: bool) -> Seq<u8> {
    if flag {
        seq![1u8]
    } else {
        seq![0u8]
    }
}

/// The first nine fields, which every record has.
#[verifier::opaque]
pub open spec fn front_bytes(p: PointModel) -> Seq<u8> {
    bytes::le_bytes(p.x.bits as nat, 8) + bytes::le_bytes(p.y.bits as nat, 8)
        + bytes::le_bytes(p.z.bits as nat, 8) + bytes::le_bytes(p.intensity as nat, 2)
        + seq![p.return_number] + seq![p.number_of_returns] + seq![p.classification]
        + flag_byte(p.scan_direction_flag) + flag_byte(p.edge_of_flight_line)
}

/// The other fields that every record has.
#[verifier::opaque]
pub open spec fn back_bytes(p: PointModel) -> Seq<u8> {
    bytes::le_bytes(p.scan_angle.bits as nat, 4) + seq![p.user_data]
        + bytes::le_bytes(p.point_source_id as nat, 2) + flag_byte(p.synthetic)
        + flag_byte(p.key_point) + flag_byte(p.withheld) + flag_byte(p.overlap)
        + seq![p.scan_channel]
}

/// The fields that every record has.
pub open spec fn fixed_bytes(p: PointModel) -> Seq<u8> {
    front_bytes(p) + back_bytes(p)
}

pub open spec fn gps_bytes(p: PointModel, layout: StreamingLayout) -> Seq<u8> {
    if layout.has_gps {
        bytes::le_bytes(p.gps_time.bits as nat, 8)
    } else {
        Seq::empty()
    }
}

pub open spec fn color_bytes(p: PointModel, layout: StreamingLayout) -> Seq<u8> {
    if layout.has_color {
        bytes::le_bytes(p.red as nat, 2) + bytes::le_bytes(p.green as nat, 2) + bytes::le_bytes(
            p.blue as nat,
            2,
        )
    } else {
        Seq::empty()
    }
}

pub open spec fn nir_bytes(p: PointModel, layout: StreamingLayout) -> Seq<u8> {
    if layout.has_nir {
        bytes::le_bytes(p.nir as nat, 2)
    } else {
        Seq::empty()
    }
}

pub open spec fn wave_bytes(p: PointModel, layout: StreamingLayout) -> Seq<u8> {
    if layout.has_waveform {
        seq![p.wave_packet_descriptor_index] + bytes::le_bytes(
            p.byte_offset_to_waveform_data as nat,
            8,
        ) + bytes::le_bytes(p.waveform_packet_size as nat, 4) + bytes::le_bytes(
            p.return_point_waveform_location.bits as nat,
            4,
        )
    } else {
        Seq::empty()
    }
}

/// The bytes of a record.
pub open spec fn record_bytes(p: PointModel, layout: StreamingLayout) -> Seq<u8> {
    fixed_bytes(p) + gps_bytes(p, layout) + color_bytes(p, layout) + nir_bytes(p, layout)
        + wave_bytes(p, layout) + p.extra_bytes
}

/// A number of 64 bits at a place.
pub open spec fn f64_in(s: Seq<u8>, at: int) -> F64 {
    F64 { bits: bytes::le_at(s, at, 8) as u64 }
}

pub open spec fn f32_in(s: Seq<u8>, at: int) -> F32 {
    F32 { bits: bytes::le_at(s, at, 4) as u32 }
}

/// The record in bytes of a layout. Fields that the layout does not have are zero.
pub open spec fn record_of(s: Seq<u8>, layout: StreamingLayout) -> PointModel {
    PointModel {
        x: f64_in(s, 0),
        y: f64_in(s, 8),
        z: f64_in(s, 16),
        intensity: bytes::le_at(s, 24, 2) as u16,
        return_number: s[26],
        number_of_returns: s[27],
        classification: s[28],
        scan_direction_flag: s[29] != 0,
        edge_of_flight_line: s[30] != 0,
        scan_angle: f32_in(s, 31),
        user_data: s[35],
        point_source_id: bytes::le_at(s, 36, 2) as u16,
        synthetic: s[38] != 0,
        key_point: s[39] != 0,
        withheld: s[40] != 0,
        overlap: s[41] != 0,
        scan_channel: s[42],
        gps_time: if layout.has_gps {
            f64_in(s, 43)
        } else {
            F64 { bits: 0 }
        },
        red: if layout.has_color {
            bytes::le_at(s, layout.color_at() + 0, 2) as u16
        } else {
            0
        },
        green: if layout.has_color {
            bytes::le_at(s, layout.color_at() + 2, 2) as u16
        } else {
            0
        },
        blue: if layout.has_color {
            bytes::le_at(s, layout.color_at() + 4, 2) as u16
        } else {
            0
        },
        nir: if layout.has_nir {
            bytes::le_at(s, layout.nir_at(), 2) as u16
        } else {
            0
        },
        wave_packet_descriptor_index: if layout.has_waveform {
            s[layout.wave_at()]
        } else {
            0
        },
        byte_offset_to_waveform_data: if layout.has_waveform {
            bytes::le_at(s, layout.wave_at() + 1, 8) as u64
        } else {
            0
        },
        waveform_packet_size: if layout.has_waveform {
            bytes::le_at(s, layout.wave_at() + 9, 4) as u32
        } else {
            0
        },
        return_point_waveform_location: if layout.has_waveform {
            f32_in(s, layout.wave_at() + 13)
        } else {
            F32 { bits: 0 }
        },
        extra_bytes: s.subrange(layout.extra_at(), layout.width()),
    }
}

/// What a layout keeps of a point.
pub open spec fn kept(p: PointModel, layout: StreamingLayout) -> PointModel {
    PointModel {
        gps_time: if layout.has_gps {
            p.gps_time
        } else {
            F64 { bits: 0 }
        },
        red: if layout.has_color {
            p.red
        } else {
            0
        },
        green: if layout.has_color {
            p.green
        } else {
            0
        },
        blue: if layout.has_color {
            p.blue
        } else {
            0
        },
        nir: if layout.has_nir {
            p.nir
        } else {
            0
        },
        wave_packet_descriptor_index: if layout.has_waveform {
            p.wave_packet_descriptor_index
        } else {
            0
        },
        byte_offset_to_waveform_data: if layout.has_waveform {
            p.byte_offset_to_waveform_data
        } else {
            0
        },
        waveform_packet_size: if layout.has_waveform {
            p.waveform_packet_size
        } else {
            0
        },
        return_point_waveform_location: if layout.has_waveform {
            p.return_point_waveform_location
        } else {
            F32 { bits: 0 }
        },
        ..p
    }
}

fn push_flag(out: &mut Vec<u8>, flag: bool)
    ensures
        final(out)@ == old(out)@ + flag_byte(flag),
{
    if flag {
        out.push(1);
    } else {
        out.push(0);
    }
    proof {
        assert(out@ =~= old(out)@ + flag_byte(flag));
    }
}

fn push_front(out: &mut Vec<u8>, p: &LasPointRecord)
    ensures
        final(out)@ == old(out)@ + front_bytes(p@),
{
    push_le(out, p.x.bits, 8);
    push_le(out, p.y.bits, 8);
    push_le(out, p.z.bits, 8);
    push_le(out, p.intensity as u64, 2);
    out.push(p.return_number);
    out.push(p.number_of_returns);
    out.push(p.classification);
    push_flag(out, p.scan_direction_flag);
    push_flag(out, p.edge_of_flight_line);
    proof {
        reveal(front_bytes);
        assert(out@ =~= old(out)@ + front_bytes(p@));
    }
}

fn push_back(out: &mut Vec<u8>, p: &LasPointRecord)
    ensures
        final(out)@ == old(out)@ + back_bytes(p@),
{
    push_le(out, p.scan_angle.bits as u64, 4);
    out.push(p.user_data);
    push_le(out, p.point_source_id as u64, 2);
    push_flag(out, p.synthetic);
    push_flag(out, p.key_point);
    push_flag(out, p.withheld);
    push_flag(out, p.overlap);
    out.push(p.scan_channel);
    proof {
        reveal(back_bytes);
        assert(out@ =~= old(out)@ + back_bytes(p@));
    }
}

fn push_optional(out: &mut Vec<u8>, p: &LasPointRecord, layout: &StreamingLayout)
    ensures
        final(out)@ == old(out)@ + gps_bytes(p@, *layout) + color_bytes(p@, *layout) + nir_bytes(
            p@,
            *layout,
        ) + wave_bytes(p@, *layout),
{
    if layout.has_gps {
        push_le(out, p.gps_time.bits, 8);
    }
    proof {
        assert(out@ =~= old(out)@ + gps_bytes(p@, *layout));
    }
    let ghost with_gps = out@;
    if layout.has_color {
        push_le(out, p.red as u64, 2);
        push_le(out, p.green as u64, 2);
        push_le(out, p.blue as u64, 2);
    }
    proof {
        assert(out@ =~= with_gps + color_bytes(p@, *layout));
    }
    let ghost with_color = out@;
    if layout.has_nir {
        push_le(out, p.nir as u64, 2);
    }
    proof {
        assert(out@ =~= with_color + nir_bytes(p@, *layout));
    }
    let ghost with_nir = out@;
    if layout.has_waveform {
        out.push(p.wave_packet_descriptor_index);
        push_le(out, p.byte_offset_to_waveform_data, 8);
        push_le(out, p.waveform_packet_size as u64, 4);
        push_le(out, p.return_point_waveform_location.bits as u64, 4);
    }
    proof {
        assert(out@ =~= with_nir + wave_bytes(p@, *layout));
    }
}

/// The lengths of the parts of a record.
proof fn lemma_part_lens(p: PointModel, layout: StreamingLayout)
    ensures
        fixed_bytes(p).len() == 43,
        gps_bytes(p, layout).len() == layout.color_at() - 43,
        color_bytes(p, layout).len() == layout.nir_at() - layout.color_at(),
        nir_bytes(p, layout).len() == layout.wave_at() - layout.nir_at(),
        wave_bytes(p, layout).len() == layout.extra_at() - layout.wave_at(),
        record_bytes(p, layout).len() == layout.extra_at() + p.extra_bytes.len(),
{
    broadcast use bytes::lemma_le_bytes_len;

    reveal(front_bytes);
    reveal(back_bytes);
}

/// Writes a record over `dst`.
pub fn serialize_le(record: &LasPointRecord, layout: &StreamingLayout, dst: &mut [u8])
    requires
        old(dst)@.len() == layout.width(),
        record.extra_bytes@.len() == layout.extra_bytes,
    ensures
        final(dst)@ == record_bytes(record@, *layout),
{
    let mut out: Vec<u8> = Vec::new();
    push_front(&mut out, record);
    push_back(&mut out, record);
    push_optional(&mut out, record, layout);
    push_bytes(&mut out, record.extra_bytes.as_slice());
    proof {
        assert(out@ =~= record_bytes(record@, *layout));
        lemma_part_lens(record@, *layout);
    }
    bytes::put_bytes(dst, 0, out.as_slice());
    proof {
        assert(dst@ =~= out@);
    }
}

/// Reads a record that has the bytes of the layout.
pub fn deserialize_le(src: &[u8], layout: &StreamingLayout) -> (r: Result<LasPointRecord>)
    ensures
        match r {
            Ok(record) => src@.len() == layout.width() && record@ == record_of(src@, *layout),
            Err(error) => src@.len() != layout.width() && error == Error::InvalidData(
                Fault::SpillRecordLength {
                    len: src@.len() as usize,
                    expected: layout.width() as usize,
                },
            ),
        },
{
    let mut record = LasPointRecord::default();
    deserialize_le_into(src, layout, &mut record)?;
    Ok(record)
}

/// Reads a record into one that is there already.
pub fn deserialize_le_into(src: &[u8], layout: &StreamingLayout, out: &mut LasPointRecord) -> (r:
    Result<()>)
    ensures
        match r {
            Ok(_) => src@.len() == layout.width() && final(out)@ == record_of(src@, *layout),
            Err(error) => src@.len() != layout.width() && error == Error::InvalidData(
                Fault::SpillRecordLength {
                    len: src@.len() as usize,
                    expected: layout.width() as usize,
                },
            ) && final(out)@ == old(out)@,
        },
{
    let len: usize = src.len();
    let expected: usize = layout.record_width();
    if len != expected {
        return Err(Error::InvalidData(Fault::SpillRecordLength { len, expected }));
    }
    out.x = F64 { bits: bytes::read_u64(src, 0) };
    out.y = F64 { bits: bytes::read_u64(src, 8) };
    out.z = F64 { bits: bytes::read_u64(src, 16) };
    out.intensity = bytes::read_u16(src, 24);
    out.return_number = src[26];
    out.number_of_returns = src[27];
    out.classification = src[28];
    out.scan_direction_flag = src[29] != 0;
    out.edge_of_flight_line = src[30] != 0;
    out.scan_angle = F32 { bits: bytes::read_u32(src, 31) };
    out.user_data = src[35];
    out.point_source_id = bytes::read_u16(src, 36);
    out.synthetic = src[38] != 0;
    out.key_point = src[39] != 0;
    out.withheld = src[40] != 0;
    out.overlap = src[41] != 0;
    out.scan_channel = src[42];
    let mut at: usize = ALWAYS_BYTES;
    out.gps_time = F64 { bits: 0 };
    if layout.has_gps {
        out.gps_time = F64 { bits: bytes::read_u64(src, at) };
        at = at + GPS_BYTES;
    }
    out.red = 0;
    out.green = 0;
    out.blue = 0;
    if layout.has_color {
        out.red = bytes::read_u16(src, at);
        out.green = bytes::read_u16(src, at + 2);
        out.blue = bytes::read_u16(src, at + 4);
        at = at + COLOR_BYTES;
    }
    out.nir = 0;
    if layout.has_nir {
        out.nir = bytes::read_u16(src, at);
        at = at + NIR_BYTES;
    }
    out.wave_packet_descriptor_index = 0;
    out.byte_offset_to_waveform_data = 0;
    out.waveform_packet_size = 0;
    out.return_point_waveform_location = F32 { bits: 0 };
    if layout.has_waveform {
        out.wave_packet_descriptor_index = src[at];
        out.byte_offset_to_waveform_data = bytes::read_u64(src, at + 1);
        out.waveform_packet_size = bytes::read_u32(src, at + 9);
        out.return_point_waveform_location = F32 { bits: bytes::read_u32(src, at + 13) };
        at = at + WAVEFORM_BYTES;
    }
    out.extra_bytes = bytes::copy_range(src, at, len);
    Ok(())
}

proof fn lemma_number(s: Seq<u8>, at: int, part: Seq<u8>, v: nat, n: nat)
    requires
        0 <= at,
        at + n <= s.len(),
        part == bytes::le_bytes(v, n),
        s.subrange(at, at + n) == part,
        v < bytes::pow256(n),
    ensures
        bytes::le_at(s, at, n as int) == v,
{
    bytes::law_le_of_le_bytes(v, n);
}

/// The fixed fields of a record are read as they were written.
proof fn lemma_fixed(p: PointModel, s: Seq<u8>)
    requires
        s.len() >= 43,
        s.subrange(0, 43) == fixed_bytes(p),
    ensures
        f64_in(s, 0) == p.x,
        f64_in(s, 8) == p.y,
        f64_in(s, 16) == p.z,
        bytes::le_at(s, 24, 2) == p.intensity,
        s[26] == p.return_number,
        s[27] == p.number_of_returns,
        s[28] == p.classification,
        (s[29] != 0) == p.scan_direction_flag,
        (s[30] != 0) == p.edge_of_flight_line,
        f32_in(s, 31) == p.scan_angle,
        s[35] == p.user_data,
        bytes::le_at(s, 36, 2) == p.point_source_id,
        (s[38] != 0) == p.synthetic,
        (s[39] != 0) == p.key_point,
        (s[40] != 0) == p.withheld,
        (s[41] != 0) == p.overlap,
        s[42] == p.scan_channel,
{
    broadcast use bytes::lemma_le_bytes_len;

    bytes::lemma_pow256_values();
    reveal(front_bytes);
    reveal(back_bytes);
    let f = fixed_bytes(p);
    let head = s.subrange(0, 43);
    assert(f.subrange(0, 8) =~= bytes::le_bytes(p.x.bits as nat, 8));
    assert(s.subrange(0, 8) =~= head.subrange(0, 8));
    lemma_number(s, 0, bytes::le_bytes(p.x.bits as nat, 8), p.x.bits as nat, 8);
    assert(f.subrange(8, 16) =~= bytes::le_bytes(p.y.bits as nat, 8));
    assert(s.subrange(8, 16) =~= head.subrange(8, 16));
    lemma_number(s, 8, bytes::le_bytes(p.y.bits as nat, 8), p.y.bits as nat, 8);
    assert(f.subrange(16, 24) =~= bytes::le_bytes(p.z.bits as nat, 8));
    assert(s.subrange(16, 24) =~= head.subrange(16, 24));
    lemma_number(s, 16, bytes::le_bytes(p.z.bits as nat, 8), p.z.bits as nat, 8);
    assert(f.subrange(24, 26) =~= bytes::le_bytes(p.intensity as nat, 2));
    assert(s.subrange(24, 26) =~= head.subrange(24, 26));
    lemma_number(s, 24, bytes::le_bytes(p.intensity as nat, 2), p.intensity as nat, 2);
    assert(s[26] == head[26]);
    assert(s[27] == head[27]);
    assert(s[28] == head[28]);
    assert(s[29] == head[29]);
    assert(s[30] == head[30]);
    assert(f.subrange(31, 35) =~= bytes::le_bytes(p.scan_angle.bits as nat, 4));
    assert(s.subrange(31, 35) =~= head.subrange(31, 35));
    lemma_number(s, 31, bytes::le_bytes(p.scan_angle.bits as nat, 4), p.scan_angle.bits as nat, 4);
    assert(s[35] == head[35]);
    assert(f.subrange(36, 38) =~= bytes::le_bytes(p.point_source_id as nat, 2));
    assert(s.subrange(36, 38) =~= head.subrange(36, 38));
    lemma_number(s, 36, bytes::le_bytes(p.point_source_id as nat, 2), p.point_source_id as nat, 2);
    assert(s[38] == head[38]);
    assert(s[39] == head[39]);
    assert(s[40] == head[40]);
    assert(s[41] == head[41]);
    assert(s[42] == head[42]);
}

/// A record whose parts stand in a sequence is read from it.
#[verifier::rlimit(40)]
proof fn lemma_parts_read(p: PointModel, layout: StreamingLayout, s: Seq<u8>)
    requires
        s.len() == layout.width(),
        s.subrange(0, 43) == fixed_bytes(p),
        s.subrange(43, layout.color_at()) == gps_bytes(p, layout),
        s.subrange(layout.color_at(), layout.nir_at()) == color_bytes(p, layout),
        s.subrange(layout.nir_at(), layout.wave_at()) == nir_bytes(p, layout),
        s.subrange(layout.wave_at(), layout.extra_at()) == wave_bytes(p, layout),
        s.subrange(layout.extra_at(), layout.width()) == p.extra_bytes,
    ensures
        record_of(s, layout) == kept(p, layout),
{
    bytes::lemma_pow256_values();
    lemma_fixed(p, s);
    if layout.has_gps {
        lemma_number(s, 43, gps_bytes(p, layout), p.gps_time.bits as nat, 8);
    }
    lemma_color(p, layout, s);
    if layout.has_nir {
        lemma_number(s, layout.nir_at(), nir_bytes(p, layout), p.nir as nat, 2);
    }
    lemma_wave(p, layout, s);
}

/// A record that was written for a layout is read as it was, but for the fields that the
/// layout does not have.
pub proof fn law_record_round_trip(p: PointModel, layout: StreamingLayout)
    requires
        p.extra_bytes.len() == layout.extra_bytes,
    ensures
        record_bytes(p, layout).len() == layout.width(),
        record_of(record_bytes(p, layout), layout) == kept(p, layout),
{
    lemma_part_lens(p, layout);
    lemma_six(
        fixed_bytes(p),
        gps_bytes(p, layout),
        color_bytes(p, layout),
        nir_bytes(p, layout),
        wave_bytes(p, layout),
        p.extra_bytes,
    );
    lemma_parts_read(p, layout, record_bytes(p, layout));
}

proof fn lemma_color(p: PointModel, layout: StreamingLayout, s: Seq<u8>)
    requires
        s.len() >= layout.nir_at(),
        s.subrange(layout.color_at(), layout.nir_at()) == color_bytes(p, layout),
    ensures
        layout.has_color ==> {
            let at = layout.color_at();
            &&& bytes::le_at(s, at, 2) == p.red
            &&& bytes::le_at(s, at + 2, 2) == p.green
            &&& bytes::le_at(s, at + 4, 2) == p.blue
        },
{
    broadcast use bytes::lemma_le_bytes_len;

    bytes::lemma_pow256_values();
    if layout.has_color {
        let at = layout.color_at();
        let color = color_bytes(p, layout);
        let part = s.subrange(at, at + 6);
        assert(color.subrange(0, 2) =~= bytes::le_bytes(p.red as nat, 2));
        assert(color.subrange(2, 4) =~= bytes::le_bytes(p.green as nat, 2));
        assert(color.subrange(4, 6) =~= bytes::le_bytes(p.blue as nat, 2));
        assert(s.subrange(at, at + 2) =~= part.subrange(0, 2));
        assert(s.subrange(at + 2, at + 4) =~= part.subrange(2, 4));
        assert(s.subrange(at + 4, at + 6) =~= part.subrange(4, 6));
        lemma_number(s, at, bytes::le_bytes(p.red as nat, 2), p.red as nat, 2);
        lemma_number(s, at + 2, bytes::le_bytes(p.green as nat, 2), p.green as nat, 2);
        lemma_number(s, at + 4, bytes::le_bytes(p.blue as nat, 2), p.blue as nat, 2);
    }
}

proof fn lemma_wave(p: PointModel, layout: StreamingLayout, s: Seq<u8>)
    requires
        s.len() >= layout.extra_at(),
        s.subrange(layout.wave_at(), layout.extra_at()) == wave_bytes(p, layout),
    ensures
        layout.has_waveform ==> {
            let at = layout.wave_at();
            &&& s[at] == p.wave_packet_descriptor_index
            &&& bytes::le_at(s, at + 1, 8) == p.byte_offset_to_waveform_data
            &&& bytes::le_at(s, at + 9, 4) == p.waveform_packet_size
            &&& f32_in(s, at + 13) == p.return_point_waveform_location
        },
{
    broadcast use bytes::lemma_le_bytes_len;

    bytes::lemma_pow256_values();
    if layout.has_waveform {
        let at = layout.wave_at();
        let wave = wave_bytes(p, layout);
        let part = s.subrange(at, at + 17);
        let offset = p.byte_offset_to_waveform_data as nat;
        let size = p.waveform_packet_size as nat;
        let place = p.return_point_waveform_location.bits as nat;
        assert(wave.subrange(1, 9) =~= bytes::le_bytes(offset, 8));
        assert(wave.subrange(9, 13) =~= bytes::le_bytes(size, 4));
        assert(wave.subrange(13, 17) =~= bytes::le_bytes(place, 4));
        assert(s[at] == part[0]);
        assert(s.subrange(at + 1, at + 9) =~= part.subrange(1, 9));
        assert(s.subrange(at + 9, at + 13) =~= part.subrange(9, 13));
        assert(s.subrange(at + 13, at + 17) =~= part.subrange(13, 17));
        lemma_number(s, at + 1, bytes::le_bytes(offset, 8), offset, 8);
        lemma_number(s, at + 9, bytes::le_bytes(size, 4), size, 4);
        lemma_number(s, at + 13, bytes::le_bytes(place, 4), place, 4);
    }
}

/// The parts of a sequence of six.
proof fn lemma_six(
    a: Seq<u8>,
    b: Seq<u8>,
    c: Seq<u8>,
    d: Seq<u8>,
    e: Seq<u8>,
    f: Seq<u8>,
)
    ensures
        ({
            let s = a + b + c + d + e + f;
            let i = a.len() as int;
            let j = i + b.len();
            let k = j + c.len();
            let l = k + d.len();
            let m = l + e.len();
            &&& s.subrange(0, i) == a
            &&& s.subrange(i, j) == b
            &&& s.subrange(j, k) == c
            &&& s.subrange(k, l) == d
            &&& s.subrange(l, m) == e
            &&& s.subrange(m, s.len() as int) == f
        }),
{
    let s = a + b + c + d + e + f;
    let i = a.len() as int;
    let j = i + b.len();
    let k = j + c.len();
    let l = k + d.len();
    let m = l + e.len();
    assert(s.subrange(0, i) =~= a);
    assert(s.subrange(i, j) =~= b);
    assert(s.subrange(j, k) =~= c);
    assert(s.subrange(k, l) =~= d);
    assert(s.subrange(l, m) =~= e);
}

/// A point's record has the point's own value in each field that every point has.
pub proof fn law_record_keeps_the_point(point: LasPoint)
    ensures
        record_for(point).x == point.x,
        record_for(point).y == point.y,
        record_for(point).z == point.z,
        record_for(point).intensity == point.intensity,
        record_for(point).return_number == point.return_number,
        record_for(point).number_of_returns == point.number_of_returns,
        record_for(point).classification == point.classification,
        record_for(point).scan_direction_flag == point.scan_direction_flag,
        record_for(point).edge_of_flight_line == point.edge_of_flight_line,
        record_for(point).scan_angle == point.scan_angle,
        record_for(point).user_data == point.user_data,
        record_for(point).point_source_id == point.point_source_id,
        record_for(point).synthetic == point.synthetic,
        record_for(point).key_point == point.key_point,
        record_for(point).withheld == point.withheld,
        record_for(point).overlap == point.overlap,
        record_for(point).scan_channel == point.scan_channel,
        record_for(point).extra_bytes == point.extra_bytes@,
{
}

/// A point's record has the point's time, color, near infrared value and waveform, where it
/// has them; else zeros, and gray for the color.
pub proof fn law_record_keeps_what_is_there(point: LasPoint)
    ensures
        point.gps_time matches Some(time) ==> record_for(point).gps_time == time,
        point.gps_time is None ==> record_for(point).gps_time.bits == 0,
        point.color matches Some(color) ==> {
            &&& record_for(point).red == color.0
            &&& record_for(point).green == color.1
            &&& record_for(point).blue == color.2
        },
        point.color is None ==> {
            &&& record_for(point).red == 0x8000
            &&& record_for(point).green == 0x8000
            &&& record_for(point).blue == 0x8000
        },
        point.nir matches Some(nir) ==> record_for(point).nir == nir,
        point.nir is None ==> record_for(point).nir == 0,
        point.waveform matches Some(wave) ==> {
            let record = record_for(point);
            &&& record.wave_packet_descriptor_index == wave.wave_packet_descriptor_index
            &&& record.byte_offset_to_waveform_data == wave.byte_offset_to_waveform_data
            &&& record.waveform_packet_size == wave.waveform_packet_size
            &&& record.return_point_waveform_location == wave.return_point_waveform_location
        },
        point.waveform is None ==> {
            let record = record_for(point);
            &&& record.wave_packet_descriptor_index == 0
            &&& record.byte_offset_to_waveform_data == 0
            &&& record.waveform_packet_size == 0
            &&& record.return_point_waveform_location.bits == 0
        },
{
}

/// A spilled record keeps every field that each point has, and of the others those that the
/// layout has.
pub proof fn law_spilled_record_keeps_its_fields(p: PointModel, layout: StreamingLayout)
    ensures
        kept(p, layout).x == p.x,
        kept(p, layout).y == p.y,
        kept(p, layout).z == p.z,
        kept(p, layout).intensity == p.intensity,
        kept(p, layout).return_number == p.return_number,
        kept(p, layout).number_of_returns == p.number_of_returns,
        kept(p, layout).classification == p.classification,
        kept(p, layout).scan_direction_flag == p.scan_direction_flag,
        kept(p, layout).edge_of_flight_line == p.edge_of_flight_line,
        kept(p, layout).scan_angle == p.scan_angle,
        kept(p, layout).user_data == p.user_data,
        kept(p, layout).point_source_id == p.point_source_id,
        kept(p, layout).synthetic == p.synthetic,
        kept(p, layout).key_point == p.key_point,
        kept(p, layout).withheld == p.withheld,
        kept(p, layout).overlap == p.overlap,
        kept(p, layout).scan_channel == p.scan_channel,
        kept(p, layout).extra_bytes == p.extra_bytes,
        layout.has_gps ==> kept(p, layout).gps_time == p.gps_time,
        layout.has_color ==> {
            &&& kept(p, layout).red == p.red
            &&& kept(p, layout).green == p.green
            &&& kept(p, layout).blue == p.blue
        },
        layout.has_nir ==> kept(p, layout).nir == p.nir,
        layout.has_waveform ==> {
            let after = kept(p, layout);
            &&& after.wave_packet_descriptor_index == p.wave_packet_descriptor_index
            &&& after.byte_offset_to_waveform_data == p.byte_offset_to_waveform_data
            &&& after.waveform_packet_size == p.waveform_packet_size
            &&& after.return_point_waveform_location == p.return_point_waveform_location
        },
        kept(kept(p, layout), layout) == kept(p, layout),
{
}

/// A field that the layout does not have takes no bytes and is read as zero.
pub proof fn law_missing_fields_are_zero(p: PointModel, layout: StreamingLayout)
    ensures
        !layout.has_gps ==> kept(p, layout).gps_time.bits == 0,
        !layout.has_color ==> kept(p, layout).red == 0 && kept(p, layout).green == 0 && kept(
            p,
            layout,
        ).blue == 0,
        !layout.has_nir ==> kept(p, layout).nir == 0,
        !layout.has_waveform ==> kept(p, layout).waveform_packet_size == 0 && kept(
            p,
            layout,
        ).wave_packet_descriptor_index == 0,
        layout.width() - layout.extra_bytes - 43 == (if layout.has_gps {
            8int
        } else {
            0
        }) + (if layout.has_color {
            6int
        } else {
            0
        }) + (if layout.has_nir {
            2int
        } else {
            0
        }) + (if layout.has_waveform {
            17int
        } else {
            0
        }),
{
}

/// The model of a record has each of its fields.
pub proof fn law_model_of_a_record(record: LasPointRecord)
    ensures
        record@.x == record.x,
        record@.y == record.y,
        record@.z == record.z,
        record@.intensity == record.intensity,
        record@.return_number == record.return_number,
        record@.number_of_returns == record.number_of_returns,
        record@.classification == record.classification,
        record@.scan_direction_flag == record.scan_direction_flag,
        record@.edge_of_flight_line == record.edge_of_flight_line,
        record@.scan_angle == record.scan_angle,
        record@.user_data == record.user_data,
        record@.point_source_id == record.point_source_id,
        record@.synthetic == record.synthetic,
        record@.key_point == record.key_point,
        record@.withheld == record.withheld,
        record@.overlap == record.overlap,
        record@.scan_channel == record.scan_channel,
        record@.gps_time == record.gps_time,
        record@.red == record.red,
        record@.green == record.green,
        record@.blue == record.blue,
        record@.nir == record.nir,
        record@.wave_packet_descriptor_index == record.wave_packet_descriptor_index,
        record@.byte_offset_to_waveform_data == record.byte_offset_to_waveform_data,
        record@.waveform_packet_size == record.waveform_packet_size,
        record@.return_point_waveform_location == record.return_point_waveform_location,
        record@.extra_bytes == record.extra_bytes@,
{
}

/// No record is wider than the widest, and one with everything and as many extra bytes as there
/// can be is as wide.
pub proof fn law_widest_record(layout: StreamingLayout)
    ensures
        layout.width() <= StreamingLayout::widest(),
        layout.has_gps && layout.has_color && layout.has_nir && layout.has_waveform
            && layout.extra_bytes == 0xFFFF ==> layout.width() == StreamingLayout::widest(),
{
}

/// A point of zeros has neither bits nor flags set, and no extra bytes.
pub proof fn law_zero_point(layout: StreamingLayout)
    ensures
        ({
            let p = zero_point();
            &&& p.x.bits == 0 && p.y.bits == 0 && p.z.bits == 0 && p.gps_time.bits == 0
            &&& p.intensity == 0 && p.return_number == 0 && p.number_of_returns == 0
            &&& p.classification == 0 && p.user_data == 0 && p.point_source_id == 0
            &&& p.scan_channel == 0 && p.scan_angle.bits == 0
            &&& !p.scan_direction_flag && !p.edge_of_flight_line
            &&& !p.synthetic && !p.key_point && !p.withheld && !p.overlap
            &&& p.red == 0 && p.green == 0 && p.blue == 0 && p.nir == 0
            &&& p.extra_bytes.len() == 0
            &&& kept(p, layout) == p
        }),
{
}

} // verus!
