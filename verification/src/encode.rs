//! Point records of formats 6 and 7, for writing.

use vstd::prelude::*;

use crate::bytes;
use crate::bytes::{bits_i16, bits_i32, push_bytes, push_le};
use crate::checks;
use crate::columns::LasDimension;
use crate::decode;
use crate::decode::{FieldValue, Record, ScaledPoint, OVERLAP_CLASSIFICATION_CODE};
use crate::error::{Error, Fault, Result};
use crate::point_format;
use crate::point_format::PointFormat;
use crate::source;
use crate::source::{CopcPointFields, FieldsModel};
use crate::streaming;
use crate::streaming::{LasPoint, StreamingLayout};
use crate::validate;

verus! {

/// The byte with the return numbers.
pub open spec fn return_byte(fields: FieldsModel) -> u8 {
    fields.return_number | (fields.number_of_returns << 4)
}

/// The byte with the flags and the scanner channel.
pub open spec fn flags_byte(fields: FieldsModel) -> u8 {
    fields.synthetic | (fields.key_point << 1) | (fields.withheld << 2) | (fields.overlap << 3) | (
    fields.scan_channel << 4) | (fields.scan_direction_flag << 6) | (fields.edge_of_flight_line
        << 7)
}

/// The first 22 bytes of a record.
pub open spec fn core_bytes(fields: FieldsModel, xyz: (i32, i32, i32), angle: i16) -> Seq<u8> {
    bytes::le_bytes(bytes::pattern32(xyz.0), 4) + bytes::le_bytes(bytes::pattern32(xyz.1), 4)
        + bytes::le_bytes(bytes::pattern32(xyz.2), 4) + bytes::le_bytes(
        fields.intensity as nat,
        2,
    ) + seq![
        return_byte(fields),
        flags_byte(fields),
        fields.classification,
        fields.user_data,
    ] + bytes::le_bytes(bytes::pattern16(angle), 2) + bytes::le_bytes(
        fields.point_source_id as nat,
        2,
    )
}

/// The GPS time and, where the format has it, the color.
pub open spec fn time_bytes(fields: FieldsModel, has_color: bool) -> Seq<u8> {
    let time = bytes::le_bytes(fields.gps_time.bits as nat, 8);
    if has_color {
        time + bytes::le_bytes(fields.red as nat, 2) + bytes::le_bytes(fields.green as nat, 2)
            + bytes::le_bytes(fields.blue as nat, 2)
    } else {
        time
    }
}

/// The bytes of a record. The coordinates are given as multiples of the scale, the scan angle
/// as a multiple of 0.006 degrees.
pub open spec fn point_bytes(
    fields: FieldsModel,
    xyz: (i32, i32, i32),
    angle: i16,
    has_color: bool,
) -> Seq<u8> {
    core_bytes(fields, xyz, angle) + time_bytes(fields, has_color) + fields.extra_bytes
}

/// The bytes of a record without extra bytes.
pub open spec fn base_len(has_color: bool) -> int {
    if has_color {
        36
    } else {
        30
    }
}

/// The lengths of a record and its parts.
pub proof fn lemma_point_len(
    fields: FieldsModel,
    xyz: (i32, i32, i32),
    angle: i16,
    has_color: bool,
)
    ensures
        core_bytes(fields, xyz, angle).len() == 22,
        time_bytes(fields, has_color).len() == base_len(has_color) - 22,
        point_bytes(fields, xyz, angle, has_color).len() == base_len(has_color)
            + fields.extra_bytes.len(),
{
    broadcast use bytes::lemma_le_bytes_len;

}

fn push_core(out: &mut Vec<u8>, fields: &CopcPointFields, xyz: (i32, i32, i32), angle: i16)
    ensures
        final(out)@ == old(out)@ + core_bytes(fields@, xyz, angle),
{
    push_le(out, bits_i32(xyz.0) as u64, 4);
    push_le(out, bits_i32(xyz.1) as u64, 4);
    push_le(out, bits_i32(xyz.2) as u64, 4);
    push_le(out, fields.intensity as u64, 2);
    out.push(fields.return_number | (fields.number_of_returns << 4));
    out.push(
        fields.synthetic | (fields.key_point << 1) | (fields.withheld << 2) | (fields.overlap << 3)
            | (fields.scan_channel << 4) | (fields.scan_direction_flag << 6) | (
        fields.edge_of_flight_line << 7),
    );
    out.push(fields.classification);
    out.push(fields.user_data);
    push_le(out, bits_i16(angle) as u64, 2);
    push_le(out, fields.point_source_id as u64, 2);
    proof {
        assert(out@ =~= old(out)@ + core_bytes(fields@, xyz, angle));
    }
}

fn push_time(out: &mut Vec<u8>, fields: &CopcPointFields, has_color: bool)
    ensures
        final(out)@ == old(out)@ + time_bytes(fields@, has_color),
{
    push_le(out, fields.gps_time.bits, 8);
    if has_color {
        push_le(out, fields.red as u64, 2);
        push_le(out, fields.green as u64, 2);
        push_le(out, fields.blue as u64, 2);
    }
    proof {
        assert(out@ =~= old(out)@ + time_bytes(fields@, has_color));
    }
}

/// Writes a point over `buf`, which has the length of a record. The coordinates are given as
/// multiples of the scale, the scan angle as a multiple of 0.006 degrees.
pub fn encode_point_record(
    buf: &mut [u8],
    fields: &CopcPointFields,
    xyz: (i32, i32, i32),
    angle: i16,
    point_index: usize,
    has_color: bool,
) -> (r: Result<()>)
    requires
        old(buf)@.len() >= base_len(has_color),
    ensures
        final(buf)@.len() == old(buf)@.len(),
        ({
            let expected = (old(buf)@.len() - base_len(has_color)) as usize;
            match r {
                Ok(_) => fields.extra_bytes@.len() == expected && final(buf)@ == point_bytes(
                    fields@,
                    xyz,
                    angle,
                    has_color,
                ),
                Err(error) => {
                    &&& fields.extra_bytes@.len() != expected
                    &&& error == Error::InvalidInput(
                        Fault::ExtraByteCount {
                            index: point_index,
                            found: fields.extra_bytes@.len() as usize,
                            expected,
                        },
                    )
                    &&& final(buf)@ == old(buf)@
                },
            }
        }),
{
    let base: usize = if has_color {
        36
    } else {
        30
    };
    let total: usize = buf.len();
    let expected: usize = total - base;
    let found: usize = fields.extra_bytes.len();
    if found != expected {
        return Err(
            Error::InvalidInput(Fault::ExtraByteCount { index: point_index, found, expected }),
        );
    }
    let mut out: Vec<u8> = Vec::new();
    push_core(&mut out, fields, xyz, angle);
    push_time(&mut out, fields, has_color);
    push_bytes(&mut out, fields.extra_bytes.as_slice());
    proof {
        assert(out@ =~= point_bytes(fields@, xyz, angle, has_color));
        lemma_point_len(fields@, xyz, angle, has_color);
    }
    bytes::put_bytes(buf, 0, out.as_slice());
    proof {
        assert(buf@ =~= out@);
    }
    Ok(())
}

/// The small fields have values that LAS has room for.
pub open spec fn in_range(fields: FieldsModel) -> bool {
    &&& fields.return_number <= 15 && fields.number_of_returns <= 15
    &&& fields.synthetic <= 1 && fields.key_point <= 1 && fields.withheld <= 1
    &&& fields.overlap <= 1 && fields.scan_channel <= 3
    &&& fields.scan_direction_flag <= 1 && fields.edge_of_flight_line <= 1
}

/// Points that pass the checks have fields in range.
pub proof fn law_checked_fields(index: usize, fields: FieldsModel)
    requires
        checks::checked(validate::flag_checks(index, fields)) is Ok,
    ensures
        in_range(fields),
{
    reveal_with_fuel(checks::first_error, 10);
}

proof fn lemma_return_bits(a: u8, b: u8)
    requires
        a <= 15,
        b <= 15,
    ensures
        (a | (b << 4)) % 16 == a,
        (a | (b << 4)) / 16 == b,
{
    assert((a | (b << 4)) % 16 == a && (a | (b << 4)) / 16 == b) by (bit_vector)
        requires
            a <= 15,
            b <= 15,
    ;
}

proof fn lemma_flag_bits(a: u8, b: u8, c: u8, d: u8, e: u8, f: u8, g: u8)
    requires
        a <= 1 && b <= 1 && c <= 1 && d <= 1 && e <= 3 && f <= 1 && g <= 1,
    ensures
        ({
            let v = a | (b << 1) | (c << 2) | (d << 3) | (e << 4) | (f << 6) | (g << 7);
            &&& v % 2 == a
            &&& v / 2 % 2 == b
            &&& v / 4 % 2 == c
            &&& v / 8 % 2 == d
            &&& v / 16 % 4 == e
            &&& v / 64 % 2 == f
            &&& v / 128 == g
        }),
{
    let v = a | (b << 1) | (c << 2) | (d << 3) | (e << 4) | (f << 6) | (g << 7);
    assert(v % 2 == a && v / 2 % 2 == b && v / 4 % 2 == c && v / 8 % 2 == d && v / 16 % 4 == e && v
        / 64 % 2 == f && v / 128 == g) by (bit_vector)
        requires
            v == a | (b << 1) | (c << 2) | (d << 3) | (e << 4) | (f << 6) | (g << 7),
            a <= 1 && b <= 1 && c <= 1 && d <= 1 && e <= 3 && f <= 1 && g <= 1,
    ;
}

/// The record of a point in a file of the output's format, with the values that arithmetic
/// gives for its coordinates and its angle.
pub open spec fn written_record(
    fields: FieldsModel,
    xyz: (i32, i32, i32),
    angle: i16,
    has_color: bool,
    scaled: ScaledPoint,
) -> Record {
    let id: int = if has_color {
        7
    } else {
        6
    };
    let format = PointFormat {
        extra_bytes: fields.extra_bytes.len() as u16,
        ..point_format::format_of(id)
    };
    Record {
        buf: point_bytes(fields, xyz, angle, has_color),
        layout: decode::layout_of(format)->Ok_0,
        scaled,
    }
}

/// Where the parts of a record stand.
proof fn lemma_places(fields: FieldsModel, xyz: (i32, i32, i32), angle: i16, has_color: bool)
    ensures
        ({
            let s = point_bytes(fields, xyz, angle, has_color);
            let base = base_len(has_color);
            &&& s.len() == base + fields.extra_bytes.len()
            &&& bytes::signed32(bytes::le_at(s, 0, 4)) == xyz.0
            &&& bytes::signed32(bytes::le_at(s, 4, 4)) == xyz.1
            &&& bytes::signed32(bytes::le_at(s, 8, 4)) == xyz.2
            &&& bytes::le_at(s, 12, 2) == fields.intensity
            &&& s[14] == return_byte(fields)
            &&& s[15] == flags_byte(fields)
            &&& s[16] == fields.classification
            &&& s[17] == fields.user_data
            &&& bytes::signed16(bytes::le_at(s, 18, 2)) == angle
            &&& bytes::le_at(s, 20, 2) == fields.point_source_id
            &&& bytes::le_at(s, 22, 8) == fields.gps_time.bits
            &&& has_color ==> {
                &&& bytes::le_at(s, 30, 2) == fields.red
                &&& bytes::le_at(s, 32, 2) == fields.green
                &&& bytes::le_at(s, 34, 2) == fields.blue
            }
            &&& s.subrange(base, base + fields.extra_bytes.len()) == fields.extra_bytes
        }),
{
    broadcast use bytes::lemma_le_bytes_len;

    let core = core_bytes(fields, xyz, angle);
    let time = time_bytes(fields, has_color);
    let s = point_bytes(fields, xyz, angle, has_color);
    let base = base_len(has_color);
    bytes::lemma_pow256_values();
    lemma_point_len(fields, xyz, angle, has_color);
    assert(s.subrange(0, 22) =~= core);
    assert(s.subrange(22, base) =~= time);
    assert(s.subrange(base, base + fields.extra_bytes.len()) =~= fields.extra_bytes);
    let (x, y, z) = (
        bytes::pattern32(xyz.0),
        bytes::pattern32(xyz.1),
        bytes::pattern32(xyz.2),
    );
    let a = bytes::pattern16(angle);
    assert(s.subrange(0, 4) =~= bytes::le_bytes(x, 4));
    assert(s.subrange(4, 8) =~= bytes::le_bytes(y, 4));
    assert(s.subrange(8, 12) =~= bytes::le_bytes(z, 4));
    assert(s.subrange(12, 14) =~= bytes::le_bytes(fields.intensity as nat, 2));
    assert(s.subrange(18, 20) =~= bytes::le_bytes(a, 2));
    assert(s.subrange(20, 22) =~= bytes::le_bytes(fields.point_source_id as nat, 2));
    assert(s.subrange(22, 30) =~= bytes::le_bytes(fields.gps_time.bits as nat, 8));
    bytes::law_le_of_le_bytes(x, 4);
    bytes::law_le_of_le_bytes(y, 4);
    bytes::law_le_of_le_bytes(z, 4);
    bytes::law_le_of_le_bytes(fields.intensity as nat, 2);
    bytes::law_le_of_le_bytes(a, 2);
    bytes::law_le_of_le_bytes(fields.point_source_id as nat, 2);
    bytes::law_le_of_le_bytes(fields.gps_time.bits as nat, 8);
    if has_color {
        assert(s.subrange(30, 32) =~= bytes::le_bytes(fields.red as nat, 2));
        assert(s.subrange(32, 34) =~= bytes::le_bytes(fields.green as nat, 2));
        assert(s.subrange(34, 36) =~= bytes::le_bytes(fields.blue as nat, 2));
        bytes::law_le_of_le_bytes(fields.red as nat, 2);
        bytes::law_le_of_le_bytes(fields.green as nat, 2);
        bytes::law_le_of_le_bytes(fields.blue as nat, 2);
    }
}

/// Where the GPS time stands in a record.
pub proof fn lemma_time_place(
    fields: FieldsModel,
    xyz: (i32, i32, i32),
    angle: i16,
    has_color: bool,
)
    ensures
        bytes::le_at(point_bytes(fields, xyz, angle, has_color), 22, 8) == fields.gps_time.bits,
{
    lemma_places(fields, xyz, angle, has_color);
}

/// A point that was written is read with the fields that it had. The class of points in the
/// overlap of two swaths is read as a flag.
pub proof fn law_fields_round_trip(
    fields: FieldsModel,
    xyz: (i32, i32, i32),
    angle: i16,
    has_color: bool,
    scaled: ScaledPoint,
)
    requires
        in_range(fields),
        fields.extra_bytes.len() <= u16::MAX - 36,
    ensures
        ({
            let rec = written_record(fields, xyz, angle, has_color, scaled);
            let base = base_len(has_color);
            let swath = fields.classification == OVERLAP_CLASSIFICATION_CODE;
            &&& rec.layout.fits(rec.buf.len())
            &&& bytes::signed32(bytes::le_at(rec.buf, 0, 4)) == xyz.0
            &&& bytes::signed32(bytes::le_at(rec.buf, 4, 4)) == xyz.1
            &&& bytes::signed32(bytes::le_at(rec.buf, 8, 4)) == xyz.2
            &&& bytes::signed16(bytes::le_at(rec.buf, 18, 2)) == angle
            &&& decode::field_of(LasDimension::Intensity, rec) == Some(
                FieldValue::U16(fields.intensity),
            )
            &&& decode::field_of(LasDimension::ReturnNumber, rec) == Some(
                FieldValue::U8(fields.return_number),
            )
            &&& decode::field_of(LasDimension::NumberOfReturns, rec) == Some(
                FieldValue::U8(fields.number_of_returns),
            )
            &&& decode::field_of(LasDimension::Synthetic, rec) == Some(
                FieldValue::Bool(fields.synthetic == 1),
            )
            &&& decode::field_of(LasDimension::KeyPoint, rec) == Some(
                FieldValue::Bool(fields.key_point == 1),
            )
            &&& decode::field_of(LasDimension::Withheld, rec) == Some(
                FieldValue::Bool(fields.withheld == 1),
            )
            &&& decode::field_of(LasDimension::Overlap, rec) == Some(
                FieldValue::Bool(fields.overlap == 1 || swath),
            )
            &&& decode::field_of(LasDimension::ScanChannel, rec) == Some(
                FieldValue::U8(fields.scan_channel),
            )
            &&& decode::field_of(LasDimension::ScanDirectionFlag, rec) == Some(
                FieldValue::Bool(fields.scan_direction_flag == 1),
            )
            &&& decode::field_of(LasDimension::EdgeOfFlightLine, rec) == Some(
                FieldValue::Bool(fields.edge_of_flight_line == 1),
            )
            &&& decode::field_of(LasDimension::Classification, rec) == Some(
                FieldValue::U8(
                    if swath {
                        1
                    } else {
                        fields.classification
                    },
                ),
            )
            &&& decode::field_of(LasDimension::UserData, rec) == Some(
                FieldValue::U8(fields.user_data),
            )
            &&& decode::field_of(LasDimension::PointSourceId, rec) == Some(
                FieldValue::U16(fields.point_source_id),
            )
            &&& decode::field_of(LasDimension::GpsTime, rec) == Some(
                FieldValue::F64(fields.gps_time),
            )
            &&& has_color ==> {
                &&& decode::field_of(LasDimension::Red, rec) == Some(FieldValue::U16(fields.red))
                &&& decode::field_of(LasDimension::Green, rec) == Some(
                    FieldValue::U16(fields.green),
                )
                &&& decode::field_of(LasDimension::Blue, rec) == Some(
                    FieldValue::U16(fields.blue),
                )
            }
            &&& rec.layout.extra_offset == base
            &&& rec.layout.extra_len == fields.extra_bytes.len()
            &&& rec.buf.subrange(base, base + rec.layout.extra_len) == fields.extra_bytes
        }),
{
    lemma_places(fields, xyz, angle, has_color);
    lemma_return_bits(fields.return_number, fields.number_of_returns);
    lemma_flag_bits(
        fields.synthetic,
        fields.key_point,
        fields.withheld,
        fields.overlap,
        fields.scan_channel,
        fields.scan_direction_flag,
        fields.edge_of_flight_line,
    );
}

/// A record is laid out as LAS has it: the coordinates, the intensity, a byte with both return
/// numbers, a byte of flags, class and user data, the angle, the source, the time, and in
/// format 7 the color; then the extra bytes.
pub proof fn law_record_layout(
    fields: FieldsModel,
    xyz: (i32, i32, i32),
    angle: i16,
    has_color: bool,
)
    requires
        in_range(fields),
    ensures
        ({
            let s = point_bytes(fields, xyz, angle, has_color);
            let base: int = if has_color {
                36
            } else {
                30
            };
            &&& s.len() == base + fields.extra_bytes.len()
            &&& bytes::signed32(bytes::le_at(s, 0, 4)) == xyz.0
            &&& bytes::signed32(bytes::le_at(s, 4, 4)) == xyz.1
            &&& bytes::signed32(bytes::le_at(s, 8, 4)) == xyz.2
            &&& bytes::le_at(s, 12, 2) == fields.intensity
            &&& s[14] as int == fields.return_number + 16 * fields.number_of_returns
            &&& s[15] as int == fields.synthetic + 2 * fields.key_point + 4 * fields.withheld + 8
                * fields.overlap + 16 * fields.scan_channel + 64 * fields.scan_direction_flag + 128
                * fields.edge_of_flight_line
            &&& s[16] == fields.classification
            &&& s[17] == fields.user_data
            &&& bytes::signed16(bytes::le_at(s, 18, 2)) == angle
            &&& bytes::le_at(s, 20, 2) == fields.point_source_id
            &&& bytes::le_at(s, 22, 8) == fields.gps_time.bits
            &&& has_color ==> {
                &&& bytes::le_at(s, 30, 2) == fields.red
                &&& bytes::le_at(s, 32, 2) == fields.green
                &&& bytes::le_at(s, 34, 2) == fields.blue
            }
            &&& s.skip(base) == fields.extra_bytes
        }),
{
    lemma_places(fields, xyz, angle, has_color);
    lemma_return_bits(fields.return_number, fields.number_of_returns);
    lemma_flag_bits(
        fields.synthetic,
        fields.key_point,
        fields.withheld,
        fields.overlap,
        fields.scan_channel,
        fields.scan_direction_flag,
        fields.edge_of_flight_line,
    );
    bytes::lemma_byte_sum(flags_byte(fields));
    let s = point_bytes(fields, xyz, angle, has_color);
    assert(s.skip(base_len(has_color)) =~= fields.extra_bytes);
}

/// Points pass the checks just where their fields are in range: return numbers to 15, the
/// channel to 3, flags to 1.
pub proof fn law_range_of_fields(index: usize, fields: FieldsModel)
    ensures
        checks::checked(validate::flag_checks(index, fields)) is Ok <==> {
            &&& fields.return_number <= 15 && fields.number_of_returns <= 15
            &&& fields.scan_channel <= 3
            &&& fields.synthetic <= 1 && fields.key_point <= 1 && fields.withheld <= 1
            &&& fields.overlap <= 1
            &&& fields.scan_direction_flag <= 1 && fields.edge_of_flight_line <= 1
        },
{
    reveal_with_fuel(checks::first_error, 10);
}

/// A point goes from a LAS file through the spilled record into the output, and is read there with
/// the values that it had. Only the class of points in the overlap of two swaths is read as a
/// flag.
pub proof fn law_las_point_is_read_back(
    point: LasPoint,
    layout: StreamingLayout,
    xyz: (i32, i32, i32),
    angle: i16,
    scaled: ScaledPoint,
)
    requires
        point.return_number <= 15 && point.number_of_returns <= 15 && point.scan_channel <= 3,
        point.extra_bytes@.len() == layout.extra_bytes <= u16::MAX - 36,
    ensures
        ({
            let spilled = streaming::record_of(
                streaming::record_bytes(streaming::record_for(point), layout),
                layout,
            );
            let fields = source::record_fields(spilled);
            let rec = written_record(fields, xyz, angle, layout.has_color, scaled);
            let base: int = if layout.has_color {
                36
            } else {
                30
            };
            &&& fields.x == point.x && fields.y == point.y && fields.z == point.z
            &&& fields.scan_angle == point.scan_angle
            &&& decode::field_of(LasDimension::Intensity, rec) == Some(
                FieldValue::U16(point.intensity),
            )
            &&& decode::field_of(LasDimension::ReturnNumber, rec) == Some(
                FieldValue::U8(point.return_number),
            )
            &&& decode::field_of(LasDimension::NumberOfReturns, rec) == Some(
                FieldValue::U8(point.number_of_returns),
            )
            &&& decode::field_of(LasDimension::Synthetic, rec) == Some(
                FieldValue::Bool(point.synthetic),
            )
            &&& decode::field_of(LasDimension::KeyPoint, rec) == Some(
                FieldValue::Bool(point.key_point),
            )
            &&& decode::field_of(LasDimension::Withheld, rec) == Some(
                FieldValue::Bool(point.withheld),
            )
            &&& decode::field_of(LasDimension::ScanChannel, rec) == Some(
                FieldValue::U8(point.scan_channel),
            )
            &&& decode::field_of(LasDimension::ScanDirectionFlag, rec) == Some(
                FieldValue::Bool(point.scan_direction_flag),
            )
            &&& decode::field_of(LasDimension::EdgeOfFlightLine, rec) == Some(
                FieldValue::Bool(point.edge_of_flight_line),
            )
            &&& decode::field_of(LasDimension::UserData, rec) == Some(
                FieldValue::U8(point.user_data),
            )
            &&& decode::field_of(LasDimension::PointSourceId, rec) == Some(
                FieldValue::U16(point.point_source_id),
            )
            &&& decode::field_of(LasDimension::Overlap, rec) == Some(
                FieldValue::Bool(point.overlap || point.classification == 12),
            )
            &&& point.classification != 12 ==> decode::field_of(LasDimension::Classification, rec)
                == Some(FieldValue::U8(point.classification))
            &&& layout.has_gps && point.gps_time is Some ==> decode::field_of(
                LasDimension::GpsTime,
                rec,
            ) == Some(FieldValue::F64(point.gps_time->Some_0))
            &&& layout.has_color && point.color is Some ==> {
                let color = point.color->Some_0;
                &&& decode::field_of(LasDimension::Red, rec) == Some(FieldValue::U16(color.0))
                &&& decode::field_of(LasDimension::Green, rec) == Some(FieldValue::U16(color.1))
                &&& decode::field_of(LasDimension::Blue, rec) == Some(FieldValue::U16(color.2))
            }
            &&& rec.buf.subrange(base, base + layout.extra_bytes) == point.extra_bytes@
        }),
{
    let own = streaming::record_for(point);
    streaming::law_record_round_trip(own, layout);
    streaming::law_spilled_record_keeps_its_fields(own, layout);
    let fields = source::record_fields(streaming::kept(own, layout));
    law_fields_round_trip(fields, xyz, angle, layout.has_color, scaled);
}

} // verus!
