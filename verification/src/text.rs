//! The texts of errors.

use vstd::prelude::*;

use crate::columns::{ColumnSpec, LasDimension, ScalarType};
use crate::error::{
    Axis, Corner, Error, Fault, HeaderField, InfoField, LasTask, PointField, RangeLabel,
};
use crate::hierarchy::{Entry, VoxelKey};

verus! {

/// A digit of a number.
pub open spec fn digit(n: nat) -> Seq<char> {
    let d = n % 10;
    if d == 0 {
        "0"@
    } else if d == 1 {
        "1"@
    } else if d == 2 {
        "2"@
    } else if d == 3 {
        "3"@
    } else if d == 4 {
        "4"@
    } else if d == 5 {
        "5"@
    } else if d == 6 {
        "6"@
    } else if d == 7 {
        "7"@
    } else if d == 8 {
        "8"@
    } else {
        "9"@
    }
}

/// A number in decimal.
pub open spec fn decimal(n: nat) -> Seq<char>
    decreases n,
{
    if n < 10 {
        digit(n)
    } else {
        decimal(n / 10) + digit(n)
    }
}

/// A number with its sign, in decimal.
pub open spec fn signed(n: int) -> Seq<char> {
    if n < 0 {
        "-"@ + decimal(-n as nat)
    } else {
        decimal(n as nat)
    }
}

pub open spec fn key_text(key: VoxelKey) -> Seq<char> {
    "VoxelKey { level: "@ + signed(key.level as int) + ", x: "@ + signed(key.x as int) + ", y: "@
        + signed(key.y as int) + ", z: "@ + signed(key.z as int) + " }"@
}

pub open spec fn entry_text(entry: Entry) -> Seq<char> {
    "Entry { key: "@ + key_text(entry.key) + ", offset: "@ + decimal(entry.offset as nat)
        + ", byte_size: "@ + signed(entry.byte_size as int) + ", point_count: "@ + signed(
        entry.point_count as int,
    ) + " }"@
}

pub open spec fn width_text(width: Option<usize>) -> Seq<char> {
    match width {
        Some(width) => "Some("@ + decimal(width as nat) + ")"@,
        None => "None"@,
    }
}

pub open spec fn spec_text(spec: ColumnSpec) -> Seq<char> {
    "ColumnSpec { dimension: "@ + dimension_text(spec.dimension) + ", scalar: "@ + scalar_text(
        spec.scalar,
    ) + ", byte_width: "@ + width_text(spec.byte_width) + " }"@
}

/// A text where there is something to tell.
pub open spec fn told(told: bool, text: Seq<char>) -> Seq<char> {
    if told {
        text
    } else {
        ""@
    }
}

pub open spec fn axis_text(value: Axis) -> Seq<char> {
    match value {
        Axis::X => "x"@,
        Axis::Y => "y"@,
        Axis::Z => "z"@,
    }
}

fn axis_name(value: Axis) -> (r: &'static str)
    ensures
        r@ == axis_text(value),
{
    match value {
        Axis::X => "x",
        Axis::Y => "y",
        Axis::Z => "z",
    }
}

pub open spec fn corner_text(value: Corner) -> Seq<char> {
    match value {
        Corner::Min => "min"@,
        Corner::Max => "max"@,
    }
}

fn corner_name(value: Corner) -> (r: &'static str)
    ensures
        r@ == corner_text(value),
{
    match value {
        Corner::Min => "min",
        Corner::Max => "max",
    }
}

pub open spec fn info_field_text(value: InfoField) -> Seq<char> {
    match value {
        InfoField::CenterX => "center x"@,
        InfoField::CenterY => "center y"@,
        InfoField::CenterZ => "center z"@,
        InfoField::Halfsize => "halfsize"@,
        InfoField::Spacing => "spacing"@,
        InfoField::GpsTimeMin => "gpstime_min"@,
        InfoField::GpsTimeMax => "gpstime_max"@,
    }
}

fn info_field_name(value: InfoField) -> (r: &'static str)
    ensures
        r@ == info_field_text(value),
{
    match value {
        InfoField::CenterX => "center x",
        InfoField::CenterY => "center y",
        InfoField::CenterZ => "center z",
        InfoField::Halfsize => "halfsize",
        InfoField::Spacing => "spacing",
        InfoField::GpsTimeMin => "gpstime_min",
        InfoField::GpsTimeMax => "gpstime_max",
    }
}

pub open spec fn header_field_text(value: HeaderField) -> Seq<char> {
    match value {
        HeaderField::OffsetX => "x offset"@,
        HeaderField::OffsetY => "y offset"@,
        HeaderField::OffsetZ => "z offset"@,
        HeaderField::MinX => "minimum x"@,
        HeaderField::MinY => "minimum y"@,
        HeaderField::MinZ => "minimum z"@,
        HeaderField::MaxX => "maximum x"@,
        HeaderField::MaxY => "maximum y"@,
        HeaderField::MaxZ => "maximum z"@,
    }
}

fn header_field_name(value: HeaderField) -> (r: &'static str)
    ensures
        r@ == header_field_text(value),
{
    match value {
        HeaderField::OffsetX => "x offset",
        HeaderField::OffsetY => "y offset",
        HeaderField::OffsetZ => "z offset",
        HeaderField::MinX => "minimum x",
        HeaderField::MinY => "minimum y",
        HeaderField::MinZ => "minimum z",
        HeaderField::MaxX => "maximum x",
        HeaderField::MaxY => "maximum y",
        HeaderField::MaxZ => "maximum z",
    }
}

pub open spec fn label_text(value: RangeLabel) -> Seq<char> {
    match value {
        RangeLabel::VlrHeader => "VLR header"@,
        RangeLabel::VlrData => "VLR data"@,
        RangeLabel::FirstEvlrHeader => "first EVLR header"@,
        RangeLabel::EvlrHeader => "EVLR header"@,
        RangeLabel::EvlrData => "EVLR data"@,
        RangeLabel::HierarchyEvlr => "hierarchy EVLR body"@,
        RangeLabel::HierarchyPage => "hierarchy page"@,
        RangeLabel::PointEntry => "point data entry"@,
        RangeLabel::ChildPage => "child hierarchy page"@,
    }
}

fn label_name(value: RangeLabel) -> (r: &'static str)
    ensures
        r@ == label_text(value),
{
    match value {
        RangeLabel::VlrHeader => "VLR header",
        RangeLabel::VlrData => "VLR data",
        RangeLabel::FirstEvlrHeader => "first EVLR header",
        RangeLabel::EvlrHeader => "EVLR header",
        RangeLabel::EvlrData => "EVLR data",
        RangeLabel::HierarchyEvlr => "hierarchy EVLR body",
        RangeLabel::HierarchyPage => "hierarchy page",
        RangeLabel::PointEntry => "point data entry",
        RangeLabel::ChildPage => "child hierarchy page",
    }
}

pub open spec fn point_field_text(value: PointField) -> Seq<char> {
    match value {
        PointField::ReturnNumber => "return_number"@,
        PointField::NumberOfReturns => "number_of_returns"@,
        PointField::Synthetic => "synthetic"@,
        PointField::KeyPoint => "key_point"@,
        PointField::Withheld => "withheld"@,
        PointField::Overlap => "overlap"@,
        PointField::ScanChannel => "scan_channel"@,
        PointField::ScanDirectionFlag => "scan_direction_flag"@,
        PointField::EdgeOfFlightLine => "edge_of_flight_line"@,
    }
}

fn point_field_name(value: PointField) -> (r: &'static str)
    ensures
        r@ == point_field_text(value),
{
    match value {
        PointField::ReturnNumber => "return_number",
        PointField::NumberOfReturns => "number_of_returns",
        PointField::Synthetic => "synthetic",
        PointField::KeyPoint => "key_point",
        PointField::Withheld => "withheld",
        PointField::Overlap => "overlap",
        PointField::ScanChannel => "scan_channel",
        PointField::ScanDirectionFlag => "scan_direction_flag",
        PointField::EdgeOfFlightLine => "edge_of_flight_line",
    }
}

pub open spec fn dimension_text(value: LasDimension) -> Seq<char> {
    match value {
        LasDimension::X => "X"@,
        LasDimension::Y => "Y"@,
        LasDimension::Z => "Z"@,
        LasDimension::Intensity => "Intensity"@,
        LasDimension::ReturnNumber => "ReturnNumber"@,
        LasDimension::NumberOfReturns => "NumberOfReturns"@,
        LasDimension::Classification => "Classification"@,
        LasDimension::ScanDirectionFlag => "ScanDirectionFlag"@,
        LasDimension::EdgeOfFlightLine => "EdgeOfFlightLine"@,
        LasDimension::ScanAngle => "ScanAngle"@,
        LasDimension::UserData => "UserData"@,
        LasDimension::PointSourceId => "PointSourceId"@,
        LasDimension::Synthetic => "Synthetic"@,
        LasDimension::KeyPoint => "KeyPoint"@,
        LasDimension::Withheld => "Withheld"@,
        LasDimension::Overlap => "Overlap"@,
        LasDimension::ScanChannel => "ScanChannel"@,
        LasDimension::GpsTime => "GpsTime"@,
        LasDimension::Red => "Red"@,
        LasDimension::Green => "Green"@,
        LasDimension::Blue => "Blue"@,
        LasDimension::Nir => "Nir"@,
        LasDimension::WaveformPacketDescriptorIndex => "WaveformPacketDescriptorIndex"@,
        LasDimension::WaveformPacketByteOffset => "WaveformPacketByteOffset"@,
        LasDimension::WaveformPacketSize => "WaveformPacketSize"@,
        LasDimension::WavePacketReturnPointWaveformLocation => {
            "WavePacketReturnPointWaveformLocation"@
        },
        LasDimension::ExtraBytes => "ExtraBytes"@,
    }
}

fn dimension_name(value: LasDimension) -> (r: &'static str)
    ensures
        r@ == dimension_text(value),
{
    match value {
        LasDimension::X => "X",
        LasDimension::Y => "Y",
        LasDimension::Z => "Z",
        LasDimension::Intensity => "Intensity",
        LasDimension::ReturnNumber => "ReturnNumber",
        LasDimension::NumberOfReturns => "NumberOfReturns",
        LasDimension::Classification => "Classification",
        LasDimension::ScanDirectionFlag => "ScanDirectionFlag",
        LasDimension::EdgeOfFlightLine => "EdgeOfFlightLine",
        LasDimension::ScanAngle => "ScanAngle",
        LasDimension::UserData => "UserData",
        LasDimension::PointSourceId => "PointSourceId",
        LasDimension::Synthetic => "Synthetic",
        LasDimension::KeyPoint => "KeyPoint",
        LasDimension::Withheld => "Withheld",
        LasDimension::Overlap => "Overlap",
        LasDimension::ScanChannel => "ScanChannel",
        LasDimension::GpsTime => "GpsTime",
        LasDimension::Red => "Red",
        LasDimension::Green => "Green",
        LasDimension::Blue => "Blue",
        LasDimension::Nir => "Nir",
        LasDimension::WaveformPacketDescriptorIndex => "WaveformPacketDescriptorIndex",
        LasDimension::WaveformPacketByteOffset => "WaveformPacketByteOffset",
        LasDimension::WaveformPacketSize => "WaveformPacketSize",
        LasDimension::WavePacketReturnPointWaveformLocation => {
            "WavePacketReturnPointWaveformLocation"
        },
        LasDimension::ExtraBytes => "ExtraBytes",
    }
}

pub open spec fn scalar_text(value: ScalarType) -> Seq<char> {
    match value {
        ScalarType::F64 => "F64"@,
        ScalarType::F32 => "F32"@,
        ScalarType::I64 => "I64"@,
        ScalarType::I32 => "I32"@,
        ScalarType::I16 => "I16"@,
        ScalarType::I8 => "I8"@,
        ScalarType::U64 => "U64"@,
        ScalarType::U32 => "U32"@,
        ScalarType::U16 => "U16"@,
        ScalarType::U8 => "U8"@,
        ScalarType::Bool => "Bool"@,
    }
}

fn scalar_name(value: ScalarType) -> (r: &'static str)
    ensures
        r@ == scalar_text(value),
{
    match value {
        ScalarType::F64 => "F64",
        ScalarType::F32 => "F32",
        ScalarType::I64 => "I64",
        ScalarType::I32 => "I32",
        ScalarType::I16 => "I16",
        ScalarType::I8 => "I8",
        ScalarType::U64 => "U64",
        ScalarType::U32 => "U32",
        ScalarType::U16 => "U16",
        ScalarType::U8 => "U8",
        ScalarType::Bool => "Bool",
    }
}

pub open spec fn task_text(value: LasTask) -> Seq<char> {
    match value {
        LasTask::LaszipVlr => "LASzip VLR"@,
        LasTask::LaszipItems => "LASzip items"@,
        LasTask::PointFormat => "point format"@,
        LasTask::CompressChunk => "compress chunk"@,
        LasTask::ChunkTable => "chunk table"@,
    }
}

fn task_name(value: LasTask) -> (r: &'static str)
    ensures
        r@ == task_text(value),
{
    match value {
        LasTask::LaszipVlr => "LASzip VLR",
        LasTask::LaszipItems => "LASzip items",
        LasTask::PointFormat => "point format",
        LasTask::CompressChunk => "compress chunk",
        LasTask::ChunkTable => "chunk table",
    }
}

/// A text that grows.
struct Text {
    text: String,
}

impl Text {
    spec fn chars(&self) -> Seq<char> {
        self.text@
    }

    fn new(text: &str) -> (r: Text)
        ensures
            r.chars() == text@,
    {
        Text { text: text.to_owned() }
    }

    fn str(self, text: &str) -> (r: Text)
        ensures
            r.chars() == self.chars() + text@,
    {
        Text { text: self.text.concat(text) }
    }

    fn number(self, n: u64) -> (r: Text)
        ensures
            r.chars() == self.chars() + decimal(n as nat),
        decreases n,
    {
        let last: &str = match n % 10 {
            0 => "0",
            1 => "1",
            2 => "2",
            3 => "3",
            4 => "4",
            5 => "5",
            6 => "6",
            7 => "7",
            8 => "8",
            _ => "9",
        };
        let ghost start = self.chars();
        if n < 10 {
            return self.str(last);
        }
        let front = self.number(n / 10);
        let whole = front.str(last);
        proof {
            assert(start + decimal((n / 10) as nat) + last@ =~= start + decimal(n as nat));
        }
        whole
    }

    fn integer(self, n: i32) -> (r: Text)
        ensures
            r.chars() == self.chars() + signed(n as int),
    {
        if n < 0 {
            let size: u64 = (-(n as i64)) as u64;
            let ghost start = self.chars();
            let whole = self.str("-").number(size);
            proof {
                assert(start + "-"@ + decimal(size as nat) =~= start + signed(n as int));
            }
            whole
        } else {
            self.number(n as u64)
        }
    }

    fn key(self, key: VoxelKey) -> (r: Text)
        ensures
            r.chars() == self.chars() + key_text(key),
    {
        let ghost start = self.chars();
        let part = Text::new("VoxelKey { level: ").integer(key.level).str(", x: ").integer(
            key.x,
        ).str(", y: ").integer(key.y).str(", z: ").integer(key.z).str(" }");
        self.str(part.text.as_str())
    }

    fn entry(self, entry: Entry) -> (r: Text)
        ensures
            r.chars() == self.chars() + entry_text(entry),
    {
        let part = Text::new("Entry { key: ").key(entry.key).str(", offset: ").number(
            entry.offset,
        ).str(", byte_size: ").integer(entry.byte_size).str(", point_count: ").integer(
            entry.point_count,
        ).str(" }");
        self.str(part.text.as_str())
    }

    fn spec(self, spec: ColumnSpec) -> (r: Text)
        ensures
            r.chars() == self.chars() + spec_text(spec),
    {
        let width = match spec.byte_width {
            Some(width) => Text::new("Some(").number(width as u64).str(")"),
            None => Text::new("None"),
        };
        let part = Text::new("ColumnSpec { dimension: ").str(
            dimension_name(spec.dimension),
        ).str(", scalar: ").str(scalar_name(spec.scalar)).str(", byte_width: ").str(
            width.text.as_str(),
        ).str(" }");
        self.str(part.text.as_str())
    }

    fn told(self, told: bool, text: &str) -> (r: Text)
        ensures
            r.chars() == self.chars() + self::told(told, text@),
    {
        if told {
            self.str(text)
        } else {
            self.str("")
        }
    }
}

/// What is said of GeoTIFF keys that are in the way.
pub open spec fn geotiff_text(count: u64) -> Seq<char> {
    if count > 0 {
        decimal(count as nat)
            + " GeoTIFF CRS VLR/EVLR(s); GeoTIFF-to-WKT CRS conversion is not implemented"@
    } else {
        ""@
    }
}

fn geotiff_part(text: Text, count: u64) -> (r: Text)
    ensures
        r.chars() == text.chars() + geotiff_text(count),
{
    if count > 0 {
        let ghost start = text.chars();
        let whole = text.number(count).str(
            " GeoTIFF CRS VLR/EVLR(s); GeoTIFF-to-WKT CRS conversion is not implemented",
        );
        proof {
            assert(whole.chars() =~= start + geotiff_text(count));
        }
        whole
    } else {
        text.str("")
    }
}

/// The texts of some faults.
pub open spec fn text_9(fault: Fault) -> Seq<char> {
    match fault {
        Fault::PointNotEncodable { index, axis } => "point "@ + decimal(index as nat) + " "@
            + axis_text(axis) + " coordinate cannot be encoded with its scale and offset"@,
        Fault::PointOutOfRange { index, axis } => "point "@ + decimal(index as nat) + " "@
            + axis_text(axis) + " coordinate encodes outside LAS i32 range"@,
        Fault::ScanAngleNotFinite { index } => "point "@ + decimal(index as nat)
            + " scan_angle must be finite"@,
        Fault::ScanAngleOutOfRange { index } => "point "@ + decimal(index as nat)
            + " scan_angle encodes outside LAS i16 range"@,
        Fault::FieldOutOfRange { index, field, max, value } => "point "@ + decimal(index as nat)
            + " "@ + point_field_text(field) + " must be in 0..="@ + decimal(max as nat)
            + ", got "@ + decimal(value as nat),
        Fault::CoordinatesDiffer { index } => "point "@ + decimal(index as nat)
            + " has other coordinates in its fields"@,
        Fault::ExtraByteCount { index, found, expected } => "point "@ + decimal(index as nat)
            + " has "@ + decimal(found as nat) + " extra byte(s), expected "@
            + decimal(expected as nat),
        Fault::SpillCountExceedsUsize => "spill record count exceeds usize range"@,
        Fault::SpillSizeOverflow => "spill size overflow"@,
        Fault::SpillSize { len, expected } => "spill file is "@ + decimal(len as nat)
            + " bytes, expected "@ + decimal(expected as nat),
        Fault::SpillIndex { index, len } => "spill index "@ + decimal(index as nat)
            + " out of range (len "@ + decimal(len as nat) + ")"@,
        Fault::EmptyCloud => "cannot write empty cloud to COPC"@,
        Fault::NodeBufferOverflow => "node point buffer size overflows usize"@,
        Fault::TruncatedStream => "truncated LAZ chunk stream"@,
        Fault::ChunkTableOffset => "invalid LAZ chunk table offset"@,
        Fault::ChunkTableOutside => "LAZ chunk table offset out of range"@,
        _ => Seq::empty(),
    }
}

fn make_text_9(fault: &Fault) -> (r: Text)
    ensures
        r.chars() == text_9(*fault),
{
    match fault {
        Fault::PointNotEncodable { index, axis } => {
            Text::new("point ")
                .number(*index as u64)
                .str(" ")
                .str(axis_name(*axis))
                .str(" coordinate cannot be encoded with its scale and offset")
        },
        Fault::PointOutOfRange { index, axis } => {
            Text::new("point ")
                .number(*index as u64)
                .str(" ")
                .str(axis_name(*axis))
                .str(" coordinate encodes outside LAS i32 range")
        },
        Fault::ScanAngleNotFinite { index } => {
            Text::new("point ")
                .number(*index as u64)
                .str(" scan_angle must be finite")
        },
        Fault::ScanAngleOutOfRange { index } => {
            Text::new("point ")
                .number(*index as u64)
                .str(" scan_angle encodes outside LAS i16 range")
        },
        Fault::FieldOutOfRange { index, field, max, value } => {
            Text::new("point ")
                .number(*index as u64)
                .str(" ")
                .str(point_field_name(*field))
                .str(" must be in 0..=")
                .number(*max as u64)
                .str(", got ")
                .number(*value as u64)
        },
        Fault::CoordinatesDiffer { index } => {
            Text::new("point ")
                .number(*index as u64)
                .str(" has other coordinates in its fields")
        },
        Fault::ExtraByteCount { index, found, expected } => {
            Text::new("point ")
                .number(*index as u64)
                .str(" has ")
                .number(*found as u64)
                .str(" extra byte(s), expected ")
                .number(*expected as u64)
        },
        Fault::SpillCountExceedsUsize => Text::new("spill record count exceeds usize range"),
        Fault::SpillSizeOverflow => Text::new("spill size overflow"),
        Fault::SpillSize { len, expected } => {
            Text::new("spill file is ")
                .number(*len as u64)
                .str(" bytes, expected ")
                .number(*expected as u64)
        },
        Fault::SpillIndex { index, len } => {
            Text::new("spill index ")
                .number(*index as u64)
                .str(" out of range (len ")
                .number(*len as u64)
                .str(")")
        },
        Fault::EmptyCloud => Text::new("cannot write empty cloud to COPC"),
        Fault::NodeBufferOverflow => Text::new("node point buffer size overflows usize"),
        Fault::TruncatedStream => Text::new("truncated LAZ chunk stream"),
        Fault::ChunkTableOffset => Text::new("invalid LAZ chunk table offset"),
        Fault::ChunkTableOutside => Text::new("LAZ chunk table offset out of range"),
        _ => empty_text(),
    }
}

/// The texts of some faults.
pub open spec fn text_8(fault: Fault) -> Seq<char> {
    match fault {
        Fault::MissingColumn { dimension } => "ColumnBatchSource requires "@
            + dimension_text(dimension) + " column"@,
        Fault::ColumnsNotPreserved { nir, waveform } => "COPC writer cannot preserve "@
            + told(nir > 0, "NIR point data"@) + told(nir > 0 && waveform > 0, ", "@)
            + told(waveform > 0, "waveform point data"@),
        Fault::ExtraBytesTooWide { width } => "ExtraBytes column width "@ + decimal(width as nat)
            + " exceeds LAS u16 range"@,
        Fault::PartialColor => "Red, Green, and Blue columns must be supplied together"@,
        Fault::EmptyBatchBounds => "cannot compute bounds for empty column batch"@,
        Fault::BatchIndex { index, len } => "column batch index "@ + decimal(index as nat)
            + " out of range (len "@ + decimal(len as nat) + ")"@,
        Fault::GpsTimeNotFinite { index } => "point "@ + decimal(index as nat)
            + " GPS time must be finite"@,
        Fault::LayoutNotPreserved { nir, waveform } => "COPC writer cannot preserve "@
            + told(nir, "NIR point data"@) + told(nir && waveform, ", "@)
            + told(waveform, "waveform point data"@),
        Fault::SourceNotPreserved { nir, waveform, geotiff } => {
            "LAS-to-COPC streaming conversion cannot preserve "@ + told(nir, "NIR point data"@)
                + told(nir && waveform, ", "@) + told(waveform, "waveform point data"@)
                + told((nir || waveform) && geotiff > 0, ", "@) + geotiff_text(geotiff)
        },
        Fault::BoundNotFinite { corner, axis } => "bounds "@ + corner_text(corner) + " "@
            + axis_text(axis) + " must be finite"@,
        Fault::BoundsOrder { axis } => "bounds "@ + axis_text(axis) + " min exceeds max"@,
        Fault::SpanNotFinite { axis } => "bounds "@ + axis_text(axis) + " span must be finite"@,
        Fault::ScaleInvalid { axis } => "LAS "@ + axis_text(axis)
            + " scale must be finite and positive"@,
        Fault::OffsetNotFinite { axis } => "LAS "@ + axis_text(axis) + " offset must be finite"@,
        Fault::PointNotFinite { index, axis } => "point "@ + decimal(index as nat) + " "@
            + axis_text(axis) + " coordinate must be finite"@,
        Fault::PointOutsideBounds { index } => "point "@ + decimal(index as nat)
            + " lies outside the declared bounds"@,
        _ => text_9(fault),
    }
}

fn make_text_8(fault: &Fault) -> (r: Text)
    ensures
        r.chars() == text_8(*fault),
{
    match fault {
        Fault::MissingColumn { dimension } => {
            Text::new("ColumnBatchSource requires ")
                .str(dimension_name(*dimension))
                .str(" column")
        },
        Fault::ColumnsNotPreserved { nir, waveform } => {
            Text::new("COPC writer cannot preserve ")
                .told(*nir > 0, "NIR point data")
                .told(*nir > 0 && *waveform > 0, ", ")
                .told(*waveform > 0, "waveform point data")
        },
        Fault::ExtraBytesTooWide { width } => {
            Text::new("ExtraBytes column width ")
                .number(*width as u64)
                .str(" exceeds LAS u16 range")
        },
        Fault::PartialColor => Text::new("Red, Green, and Blue columns must be supplied together"),
        Fault::EmptyBatchBounds => Text::new("cannot compute bounds for empty column batch"),
        Fault::BatchIndex { index, len } => {
            Text::new("column batch index ")
                .number(*index as u64)
                .str(" out of range (len ")
                .number(*len as u64)
                .str(")")
        },
        Fault::GpsTimeNotFinite { index } => {
            Text::new("point ")
                .number(*index as u64)
                .str(" GPS time must be finite")
        },
        Fault::LayoutNotPreserved { nir, waveform } => {
            Text::new("COPC writer cannot preserve ")
                .told(*nir, "NIR point data")
                .told(*nir && *waveform, ", ")
                .told(*waveform, "waveform point data")
        },
        Fault::SourceNotPreserved { nir, waveform, geotiff } => {
            let start = Text::new("LAS-to-COPC streaming conversion cannot preserve ");
            let told = start
                .told(*nir, "NIR point data")
                .told(*nir && *waveform, ", ")
                .told(*waveform, "waveform point data")
                .told((*nir || *waveform) && *geotiff > 0, ", ");
            geotiff_part(told, *geotiff)
        },
        Fault::BoundNotFinite { corner, axis } => {
            Text::new("bounds ")
                .str(corner_name(*corner))
                .str(" ")
                .str(axis_name(*axis))
                .str(" must be finite")
        },
        Fault::BoundsOrder { axis } => {
            Text::new("bounds ")
                .str(axis_name(*axis))
                .str(" min exceeds max")
        },
        Fault::SpanNotFinite { axis } => {
            Text::new("bounds ")
                .str(axis_name(*axis))
                .str(" span must be finite")
        },
        Fault::ScaleInvalid { axis } => {
            Text::new("LAS ")
                .str(axis_name(*axis))
                .str(" scale must be finite and positive")
        },
        Fault::OffsetNotFinite { axis } => {
            Text::new("LAS ")
                .str(axis_name(*axis))
                .str(" offset must be finite")
        },
        Fault::PointNotFinite { index, axis } => {
            Text::new("point ")
                .number(*index as u64)
                .str(" ")
                .str(axis_name(*axis))
                .str(" coordinate must be finite")
        },
        Fault::PointOutsideBounds { index } => {
            Text::new("point ")
                .number(*index as u64)
                .str(" lies outside the declared bounds")
        },
        _ => make_text_9(fault),
    }
}

/// The texts of some faults.
pub open spec fn text_7(fault: Fault) -> Seq<char> {
    match fault {
        Fault::ZeroNodeBudget => "max_points_per_node must be greater than zero"@,
        Fault::MaximumDepth { key, count, budget } => "octree node "@ + key_text(key)
            + " still contains "@ + decimal(count as nat)
            + " points at the maximum depth; increase max_points_per_node above "@
            + decimal(budget as nat),
        Fault::TooManyPoints => "COPC writer supports at most u32::MAX points per file"@,
        Fault::RecordLengthOverflow { extra } => "point record length with "@
            + decimal(extra as nat) + " extra bytes exceeds LAS u16 range"@,
        Fault::VlrCountOverflow => "VLR count overflow"@,
        Fault::OutputVlrCount { count } => "output VLR count "@ + decimal(count as nat)
            + " exceeds max supported 4096"@,
        Fault::EvlrCountOverflow => "EVLR count overflow"@,
        Fault::OutputEvlrCount { count } => "output EVLR count "@ + decimal(count as nat)
            + " exceeds max supported 4096"@,
        Fault::LaszipVlrTooLarge => "LAZ VLR byte size exceeds LAS VLR limit"@,
        Fault::PointOffsetOverflow => "point data offset overflow"@,
        Fault::VlrAccounting { at, expected } => "VLR size accounting mismatch: at "@
            + decimal(at as nat) + ", expected "@ + decimal(expected as nat),
        Fault::PointDataOverflow => "LAZ point-data offset overflows u64"@,
        Fault::ChunkTableExceedsI64 => "LAZ chunk table offset exceeds i64 range"@,
        Fault::HierarchyOffsetOverflow => "hierarchy EVLR offset overflow"@,
        Fault::SpillRecordLength { len, expected } => "record is "@ + decimal(len as nat)
            + " bytes, expected "@ + decimal(expected as nat),
        Fault::UnexpectedColumnType { dimension, expected, found } => ""@
            + dimension_text(dimension) + " column must be "@ + scalar_text(expected)
            + ", found "@ + scalar_text(found),
        _ => text_8(fault),
    }
}

fn make_text_7(fault: &Fault) -> (r: Text)
    ensures
        r.chars() == text_7(*fault),
{
    match fault {
        Fault::ZeroNodeBudget => Text::new("max_points_per_node must be greater than zero"),
        Fault::MaximumDepth { key, count, budget } => {
            Text::new("octree node ")
                .key(*key)
                .str(" still contains ")
                .number(*count as u64)
                .str(" points at the maximum depth; increase max_points_per_node above ")
                .number(*budget as u64)
        },
        Fault::TooManyPoints => Text::new("COPC writer supports at most u32::MAX points per file"),
        Fault::RecordLengthOverflow { extra } => {
            Text::new("point record length with ")
                .number(*extra as u64)
                .str(" extra bytes exceeds LAS u16 range")
        },
        Fault::VlrCountOverflow => Text::new("VLR count overflow"),
        Fault::OutputVlrCount { count } => {
            Text::new("output VLR count ")
                .number(*count as u64)
                .str(" exceeds max supported 4096")
        },
        Fault::EvlrCountOverflow => Text::new("EVLR count overflow"),
        Fault::OutputEvlrCount { count } => {
            Text::new("output EVLR count ")
                .number(*count as u64)
                .str(" exceeds max supported 4096")
        },
        Fault::LaszipVlrTooLarge => Text::new("LAZ VLR byte size exceeds LAS VLR limit"),
        Fault::PointOffsetOverflow => Text::new("point data offset overflow"),
        Fault::VlrAccounting { at, expected } => {
            Text::new("VLR size accounting mismatch: at ")
                .number(*at as u64)
                .str(", expected ")
                .number(*expected as u64)
        },
        Fault::PointDataOverflow => Text::new("LAZ point-data offset overflows u64"),
        Fault::ChunkTableExceedsI64 => Text::new("LAZ chunk table offset exceeds i64 range"),
        Fault::HierarchyOffsetOverflow => Text::new("hierarchy EVLR offset overflow"),
        Fault::SpillRecordLength { len, expected } => {
            Text::new("record is ")
                .number(*len as u64)
                .str(" bytes, expected ")
                .number(*expected as u64)
        },
        Fault::UnexpectedColumnType { dimension, expected, found } => {
            Text::new("")
                .str(dimension_name(*dimension))
                .str(" column must be ")
                .str(scalar_name(*expected))
                .str(", found ")
                .str(scalar_name(*found))
        },
        _ => make_text_8(fault),
    }
}

/// The texts of some faults.
pub open spec fn text_6(fault: Fault) -> Seq<char> {
    match fault {
        Fault::HttpNoContentRange => "GET returned no usable Content-Range header"@,
        Fault::HttpRangeMismatch { first, last, expected_first, expected_last } => {
            "GET returned Content-Range bytes "@ + decimal(first as nat) + "-"@
                + decimal(last as nat) + ", expected bytes "@ + decimal(expected_first as nat)
                + "-"@ + decimal(expected_last as nat)
        },
        Fault::HttpZeroTotal => "GET returned a zero Content-Range total"@,
        Fault::HttpTotalChanged { expected, found } => "GET Content-Range total changed from "@
            + decimal(expected as nat) + " to "@ + decimal(found as nat),
        Fault::HttpBodyTooLong => "GET returned more bytes than its Content-Range"@,
        Fault::EmptyPage => "cannot write empty hierarchy page"@,
        Fault::EntryNotUnderPage { entry, page } => "hierarchy entry "@ + key_text(entry)
            + " is not under page key "@ + key_text(page),
        Fault::PageOffsetOverflow => "hierarchy page offset overflow"@,
        Fault::ChildPageExceedsI32 => "child hierarchy page exceeds COPC i32 byte size"@,
        Fault::PageOffsetMismatch { at, expected } => "hierarchy page offset mismatch: at "@
            + decimal(at as nat) + ", expected "@ + decimal(expected as nat),
        Fault::ChunkExceedsI32 => "LAZ chunk exceeds COPC i32 byte size"@,
        Fault::NodeCountExceedsI32 => "node point count exceeds COPC i32 range"@,
        Fault::VlrTooLarge { record_id, len } => "regular VLR "@ + decimal(record_id as nat)
            + " is too large: "@ + decimal(len as nat) + " byte(s)"@,
        Fault::VlrBytesOverflow => "VLR byte size overflow"@,
        Fault::CrsVlrTooLarge { len } => "regular WKT CRS VLR is too large: "@
            + decimal(len as nat) + " byte(s)"@,
        Fault::CrsVlrBytesOverflow => "CRS VLR byte size overflow"@,
        _ => text_7(fault),
    }
}

fn make_text_6(fault: &Fault) -> (r: Text)
    ensures
        r.chars() == text_6(*fault),
{
    match fault {
        Fault::HttpNoContentRange => Text::new("GET returned no usable Content-Range header"),
        Fault::HttpRangeMismatch { first, last, expected_first, expected_last } => {
            Text::new("GET returned Content-Range bytes ")
                .number(*first as u64)
                .str("-")
                .number(*last as u64)
                .str(", expected bytes ")
                .number(*expected_first as u64)
                .str("-")
                .number(*expected_last as u64)
        },
        Fault::HttpZeroTotal => Text::new("GET returned a zero Content-Range total"),
        Fault::HttpTotalChanged { expected, found } => {
            Text::new("GET Content-Range total changed from ")
                .number(*expected as u64)
                .str(" to ")
                .number(*found as u64)
        },
        Fault::HttpBodyTooLong => Text::new("GET returned more bytes than its Content-Range"),
        Fault::EmptyPage => Text::new("cannot write empty hierarchy page"),
        Fault::EntryNotUnderPage { entry, page } => {
            Text::new("hierarchy entry ")
                .key(*entry)
                .str(" is not under page key ")
                .key(*page)
        },
        Fault::PageOffsetOverflow => Text::new("hierarchy page offset overflow"),
        Fault::ChildPageExceedsI32 => Text::new("child hierarchy page exceeds COPC i32 byte size"),
        Fault::PageOffsetMismatch { at, expected } => {
            Text::new("hierarchy page offset mismatch: at ")
                .number(*at as u64)
                .str(", expected ")
                .number(*expected as u64)
        },
        Fault::ChunkExceedsI32 => Text::new("LAZ chunk exceeds COPC i32 byte size"),
        Fault::NodeCountExceedsI32 => Text::new("node point count exceeds COPC i32 range"),
        Fault::VlrTooLarge { record_id, len } => {
            Text::new("regular VLR ")
                .number(*record_id as u64)
                .str(" is too large: ")
                .number(*len as u64)
                .str(" byte(s)")
        },
        Fault::VlrBytesOverflow => Text::new("VLR byte size overflow"),
        Fault::CrsVlrTooLarge { len } => {
            Text::new("regular WKT CRS VLR is too large: ")
                .number(*len as u64)
                .str(" byte(s)")
        },
        Fault::CrsVlrBytesOverflow => Text::new("CRS VLR byte size overflow"),
        _ => make_text_7(fault),
    }
}

/// The texts of some faults.
pub open spec fn text_5(fault: Fault) -> Seq<char> {
    match fault {
        Fault::ResolutionInvalid => "resolution must be finite and positive"@,
        Fault::SpacingInvalid => "COPC spacing must be finite and positive"@,
        Fault::LevelTooLarge { level } => "LOD level "@ + signed(level as int) + " is too large"@,
        Fault::NegativeLevel { level } => "LOD level must be non-negative, got "@
            + signed(level as int),
        Fault::LevelOrder { min, max } => "LOD max "@ + signed(max as int)
            + " is smaller than min "@ + signed(min as int),
        Fault::ChunkByteSize { key, byte_size } => "invalid byte size "@
            + signed(byte_size as int) + " for "@ + key_text(key),
        Fault::NegativePointCount { key, point_count } => "negative point count "@
            + signed(point_count as int) + " for "@ + key_text(key),
        Fault::CandidateOverflow => "selected point count overflows usize"@,
        Fault::VlrSectionTooLarge { len } => "VLR section is "@ + decimal(len as nat)
            + " bytes, max supported is 67108864"@,
        Fault::RootSizeExceedsI32 => "root hierarchy size exceeds i32"@,
        Fault::PointTotalExceeds { total, limit } => "hierarchy point total "@
            + decimal(total as nat) + " exceeds LAS header point count "@ + decimal(limit as nat),
        Fault::RangeInverted => "chunk range end precedes its start"@,
        Fault::RangeTooLarge => "chunk range exceeds usize"@,
        Fault::ChunkOutsideGroup => "chunk range exceeds fetched group"@,
        Fault::HttpRangeOverflow => "HTTP range end overflows u64"@,
        Fault::HttpStatus { status } => "GET returned status "@ + decimal(status as nat)
            + "; the server must support HTTP range requests"@,
        _ => text_6(fault),
    }
}

fn make_text_5(fault: &Fault) -> (r: Text)
    ensures
        r.chars() == text_5(*fault),
{
    match fault {
        Fault::ResolutionInvalid => Text::new("resolution must be finite and positive"),
        Fault::SpacingInvalid => Text::new("COPC spacing must be finite and positive"),
        Fault::LevelTooLarge { level } => {
            Text::new("LOD level ")
                .integer(*level)
                .str(" is too large")
        },
        Fault::NegativeLevel { level } => {
            Text::new("LOD level must be non-negative, got ")
                .integer(*level)
        },
        Fault::LevelOrder { min, max } => {
            Text::new("LOD max ")
                .integer(*max)
                .str(" is smaller than min ")
                .integer(*min)
        },
        Fault::ChunkByteSize { key, byte_size } => {
            Text::new("invalid byte size ")
                .integer(*byte_size)
                .str(" for ")
                .key(*key)
        },
        Fault::NegativePointCount { key, point_count } => {
            Text::new("negative point count ")
                .integer(*point_count)
                .str(" for ")
                .key(*key)
        },
        Fault::CandidateOverflow => Text::new("selected point count overflows usize"),
        Fault::VlrSectionTooLarge { len } => {
            Text::new("VLR section is ")
                .number(*len as u64)
                .str(" bytes, max supported is 67108864")
        },
        Fault::RootSizeExceedsI32 => Text::new("root hierarchy size exceeds i32"),
        Fault::PointTotalExceeds { total, limit } => {
            Text::new("hierarchy point total ")
                .number(*total as u64)
                .str(" exceeds LAS header point count ")
                .number(*limit as u64)
        },
        Fault::RangeInverted => Text::new("chunk range end precedes its start"),
        Fault::RangeTooLarge => Text::new("chunk range exceeds usize"),
        Fault::ChunkOutsideGroup => Text::new("chunk range exceeds fetched group"),
        Fault::HttpRangeOverflow => Text::new("HTTP range end overflows u64"),
        Fault::HttpStatus { status } => {
            Text::new("GET returned status ")
                .number(*status as u64)
                .str("; the server must support HTTP range requests")
        },
        _ => make_text_6(fault),
    }
}

/// The texts of some faults.
pub open spec fn text_4(fault: Fault) -> Seq<char> {
    match fault {
        Fault::ByteWidthOnFixed { dimension, width } => "column "@ + dimension_text(dimension)
            + " cannot declare byte width "@ + decimal(width as nat),
        Fault::NotDefaultScalar { dimension, scalar } => "column "@ + dimension_text(dimension)
            + " declares "@ + scalar_text(scalar) + ", which is not its default"@,
        Fault::ExtraBytesNotDivisible { len, width } => "ExtraBytes column has "@
            + decimal(len as nat) + " bytes, which is not divisible by byte width "@
            + decimal(width as nat),
        Fault::DuplicateColumn { dimension } => "column "@ + dimension_text(dimension)
            + " appears more than once in the batch"@,
        Fault::ColumnLength { dimension, points, len } => "column "@ + dimension_text(dimension)
            + " has "@ + decimal(points as nat) + " points but batch len is "@
            + decimal(len as nat),
        Fault::NotExtendedFormat => "COPC column reads require extended point formats (6-10)"@,
        Fault::ColumnDataType { dimension, scalar } => "column "@ + dimension_text(dimension)
            + " has incompatible data type "@ + scalar_text(scalar),
        Fault::ExtraBytesLength { len, expected } => "ExtraBytes point has "@
            + decimal(len as nat) + " bytes, expected "@ + decimal(expected as nat),
        Fault::ColumnCapacity => "ExtraBytes column capacity exceeds usize range"@,
        Fault::MergeColumnCount { found, expected } => "chunk produced "@ + decimal(found as nat)
            + " columns, expected "@ + decimal(expected as nat),
        Fault::MergeColumnSpec { found, expected } => "chunk column spec mismatch: found "@
            + spec_text(found) + ", expected "@ + spec_text(expected),
        Fault::MergeColumnScalar => "chunk column scalar mismatch during merge"@,
        Fault::RecordSize { item_size, record_length } => "LASzip item size is "@
            + decimal(item_size as nat) + " bytes, but LAS point record length is "@
            + decimal(record_length as nat) + " bytes"@,
        Fault::ChunkRecordCount { count } => "chunk of "@ + decimal(count as nat)
            + " points overflows usize"@,
        Fault::DamagedLayer => "LAZ chunk has a layer that cannot be decoded"@,
        Fault::WaveformItem => "LAZ chunks with waveform data are not supported"@,
        Fault::GpsTimeSteps => "LAZ codec cannot hold a step between GPS times of a node"@,
        Fault::QueryBoundNotFinite { corner, axis } => "query bounds "@ + corner_text(corner)
            + " "@ + axis_text(axis) + " must be finite"@,
        Fault::QueryBoundsOrder { axis } => "query bounds "@ + axis_text(axis)
            + " minimum exceeds maximum"@,
        _ => text_5(fault),
    }
}

fn make_text_4(fault: &Fault) -> (r: Text)
    ensures
        r.chars() == text_4(*fault),
{
    match fault {
        Fault::ByteWidthOnFixed { dimension, width } => {
            Text::new("column ")
                .str(dimension_name(*dimension))
                .str(" cannot declare byte width ")
                .number(*width as u64)
        },
        Fault::NotDefaultScalar { dimension, scalar } => {
            Text::new("column ")
                .str(dimension_name(*dimension))
                .str(" declares ")
                .str(scalar_name(*scalar))
                .str(", which is not its default")
        },
        Fault::ExtraBytesNotDivisible { len, width } => {
            Text::new("ExtraBytes column has ")
                .number(*len as u64)
                .str(" bytes, which is not divisible by byte width ")
                .number(*width as u64)
        },
        Fault::DuplicateColumn { dimension } => {
            Text::new("column ")
                .str(dimension_name(*dimension))
                .str(" appears more than once in the batch")
        },
        Fault::ColumnLength { dimension, points, len } => {
            Text::new("column ")
                .str(dimension_name(*dimension))
                .str(" has ")
                .number(*points as u64)
                .str(" points but batch len is ")
                .number(*len as u64)
        },
        Fault::NotExtendedFormat => {
            Text::new("COPC column reads require extended point formats (6-10)")
        },
        Fault::ColumnDataType { dimension, scalar } => {
            Text::new("column ")
                .str(dimension_name(*dimension))
                .str(" has incompatible data type ")
                .str(scalar_name(*scalar))
        },
        Fault::ExtraBytesLength { len, expected } => {
            Text::new("ExtraBytes point has ")
                .number(*len as u64)
                .str(" bytes, expected ")
                .number(*expected as u64)
        },
        Fault::ColumnCapacity => Text::new("ExtraBytes column capacity exceeds usize range"),
        Fault::MergeColumnCount { found, expected } => {
            Text::new("chunk produced ")
                .number(*found as u64)
                .str(" columns, expected ")
                .number(*expected as u64)
        },
        Fault::MergeColumnSpec { found, expected } => {
            Text::new("chunk column spec mismatch: found ")
                .spec(*found)
                .str(", expected ")
                .spec(*expected)
        },
        Fault::MergeColumnScalar => Text::new("chunk column scalar mismatch during merge"),
        Fault::RecordSize { item_size, record_length } => {
            Text::new("LASzip item size is ")
                .number(*item_size as u64)
                .str(" bytes, but LAS point record length is ")
                .number(*record_length as u64)
                .str(" bytes")
        },
        Fault::ChunkRecordCount { count } => {
            Text::new("chunk of ")
                .number(*count as u64)
                .str(" points overflows usize")
        },
        Fault::DamagedLayer => Text::new("LAZ chunk has a layer that cannot be decoded"),
        Fault::WaveformItem => Text::new("LAZ chunks with waveform data are not supported"),
        Fault::GpsTimeSteps => {
            Text::new("LAZ codec cannot hold a step between GPS times of a node")
        },
        Fault::QueryBoundNotFinite { corner, axis } => {
            Text::new("query bounds ")
                .str(corner_name(*corner))
                .str(" ")
                .str(axis_name(*axis))
                .str(" must be finite")
        },
        Fault::QueryBoundsOrder { axis } => {
            Text::new("query bounds ")
                .str(axis_name(*axis))
                .str(" minimum exceeds maximum")
        },
        _ => make_text_5(fault),
    }
}

/// The texts of some faults.
pub open spec fn text_3(fault: Fault) -> Seq<char> {
    match fault {
        Fault::RootSizeExceedsEvlr { size, evlr_len } => "COPC root hierarchy size "@
            + decimal(size as nat) + " exceeds hierarchy EVLR body size "@
            + decimal(evlr_len as nat),
        Fault::EvlrBeforePointData { evlr_offset, point_offset } => "first EVLR offset "@
            + decimal(evlr_offset as nat) + " precedes point data offset "@
            + decimal(point_offset as nat),
        Fault::PageEmpty => "hierarchy page is empty"@,
        Fault::PageTooLarge { byte_size } => "hierarchy page is "@ + decimal(byte_size as nat)
            + " bytes, max supported is 67108864"@,
        Fault::PageTotalOverflow => "hierarchy byte total overflow"@,
        Fault::PageTotal { total } => "hierarchy pages total "@ + decimal(total as nat)
            + " bytes, max supported is 268435456"@,
        Fault::PointChunkTooLarge { key, byte_size } => "point data entry "@ + key_text(key)
            + " is "@ + decimal(byte_size as nat) + " bytes, max supported is 536870912"@,
        Fault::PointEntryOutside { key, offset, end, section_start, section_end } => {
            "point data entry "@ + key_text(key) + " range "@ + decimal(offset as nat) + ".."@
                + decimal(end as nat) + " is outside LAS point-data section "@
                + decimal(section_start as nat) + ".."@ + decimal(section_end as nat)
        },
        Fault::ChildPageOutside { key, offset, end, body_start, body_end } => {
            "child hierarchy page "@ + key_text(key) + " range "@ + decimal(offset as nat) + ".."@
                + decimal(end as nat) + " is outside hierarchy EVLR body "@
                + decimal(body_start as nat) + ".."@ + decimal(body_end as nat)
        },
        Fault::DuplicateKey { previous, entry } => "duplicate hierarchy key "@
            + key_text(entry.key) + ": previous "@ + entry_text(previous) + ", new "@
            + entry_text(entry),
        Fault::ChunksOverlap { first, second } => "point chunks "@ + key_text(first) + " and "@
            + key_text(second) + " overlap"@,
        Fault::PointTotalOverflow => "hierarchy point total overflows u64"@,
        Fault::PointTotal { total, expected } => "hierarchy point total "@ + decimal(total as nat)
            + " does not match LAS header point count "@ + decimal(expected as nat),
        Fault::RecordLengthTooSmall { length, id, base } => "point record length "@
            + decimal(length as nat) + " is smaller than point format "@ + decimal(id as nat)
            + " base length "@ + decimal(base as nat),
        Fault::ColumnScalarMismatch { dimension, declared, found } => "column "@
            + dimension_text(dimension) + " declares "@ + scalar_text(declared)
            + " data but contains "@ + scalar_text(found),
        Fault::ExtraBytesWidth => "ExtraBytes column requires a non-zero byte width"@,
        _ => text_4(fault),
    }
}

fn make_text_3(fault: &Fault) -> (r: Text)
    ensures
        r.chars() == text_3(*fault),
{
    match fault {
        Fault::RootSizeExceedsEvlr { size, evlr_len } => {
            Text::new("COPC root hierarchy size ")
                .number(*size as u64)
                .str(" exceeds hierarchy EVLR body size ")
                .number(*evlr_len as u64)
        },
        Fault::EvlrBeforePointData { evlr_offset, point_offset } => {
            Text::new("first EVLR offset ")
                .number(*evlr_offset as u64)
                .str(" precedes point data offset ")
                .number(*point_offset as u64)
        },
        Fault::PageEmpty => Text::new("hierarchy page is empty"),
        Fault::PageTooLarge { byte_size } => {
            Text::new("hierarchy page is ")
                .number(*byte_size as u64)
                .str(" bytes, max supported is 67108864")
        },
        Fault::PageTotalOverflow => Text::new("hierarchy byte total overflow"),
        Fault::PageTotal { total } => {
            Text::new("hierarchy pages total ")
                .number(*total as u64)
                .str(" bytes, max supported is 268435456")
        },
        Fault::PointChunkTooLarge { key, byte_size } => {
            Text::new("point data entry ")
                .key(*key)
                .str(" is ")
                .number(*byte_size as u64)
                .str(" bytes, max supported is 536870912")
        },
        Fault::PointEntryOutside { key, offset, end, section_start, section_end } => {
            Text::new("point data entry ")
                .key(*key)
                .str(" range ")
                .number(*offset as u64)
                .str("..")
                .number(*end as u64)
                .str(" is outside LAS point-data section ")
                .number(*section_start as u64)
                .str("..")
                .number(*section_end as u64)
        },
        Fault::ChildPageOutside { key, offset, end, body_start, body_end } => {
            Text::new("child hierarchy page ")
                .key(*key)
                .str(" range ")
                .number(*offset as u64)
                .str("..")
                .number(*end as u64)
                .str(" is outside hierarchy EVLR body ")
                .number(*body_start as u64)
                .str("..")
                .number(*body_end as u64)
        },
        Fault::DuplicateKey { previous, entry } => {
            Text::new("duplicate hierarchy key ")
                .key((*entry).key)
                .str(": previous ")
                .entry(*previous)
                .str(", new ")
                .entry(*entry)
        },
        Fault::ChunksOverlap { first, second } => {
            Text::new("point chunks ")
                .key(*first)
                .str(" and ")
                .key(*second)
                .str(" overlap")
        },
        Fault::PointTotalOverflow => Text::new("hierarchy point total overflows u64"),
        Fault::PointTotal { total, expected } => {
            Text::new("hierarchy point total ")
                .number(*total as u64)
                .str(" does not match LAS header point count ")
                .number(*expected as u64)
        },
        Fault::RecordLengthTooSmall { length, id, base } => {
            Text::new("point record length ")
                .number(*length as u64)
                .str(" is smaller than point format ")
                .number(*id as u64)
                .str(" base length ")
                .number(*base as u64)
        },
        Fault::ColumnScalarMismatch { dimension, declared, found } => {
            Text::new("column ")
                .str(dimension_name(*dimension))
                .str(" declares ")
                .str(scalar_name(*declared))
                .str(" data but contains ")
                .str(scalar_name(*found))
        },
        Fault::ExtraBytesWidth => Text::new("ExtraBytes column requires a non-zero byte width"),
        _ => make_text_4(fault),
    }
}

/// The texts of some faults.
pub open spec fn text_2(fault: Fault) -> Seq<char> {
    match fault {
        Fault::HeaderScale { axis } => "LAS "@ + axis_text(axis)
            + " scale must be finite and positive"@,
        Fault::HeaderNotFinite { field } => "LAS "@ + header_field_text(field) + " must be finite"@,
        Fault::HeaderBoundsOrder { axis } => "LAS "@ + axis_text(axis)
            + " minimum exceeds maximum"@,
        Fault::VlrSectionPastEnd { end, file_len } => "VLR section end "@ + decimal(end as nat)
            + " exceeds file length "@ + decimal(file_len as nat),
        Fault::RangeOverflow { label } => ""@ + label_text(label) + " offset/size overflow"@,
        Fault::RangePastEnd { label, offset, end, file_len } => ""@ + label_text(label)
            + " range "@ + decimal(offset as nat) + ".."@ + decimal(end as nat)
            + " exceeds file length "@ + decimal(file_len as nat),
        Fault::VlrReserved { index, reserved } => "VLR "@ + decimal(index as nat)
            + " reserved field must be zero, got "@ + decimal(reserved as nat),
        Fault::EvlrReserved { index, reserved } => "EVLR "@ + decimal(index as nat)
            + " reserved field must be zero, got "@ + decimal(reserved as nat),
        Fault::MissingInfoVlr => "missing COPC info VLR"@,
        Fault::DuplicateInfoVlr => "duplicate COPC info VLR"@,
        Fault::InfoVlrNotFirst => "COPC info VLR must be the first VLR"@,
        Fault::MissingLaszipVlr => "missing LASzip VLR"@,
        Fault::DuplicateLaszipVlr => "duplicate LASzip VLR"@,
        Fault::NotLayered => "COPC point iteration requires layered LAZ point records"@,
        Fault::MissingHierarchyEvlr => "missing COPC hierarchy EVLR"@,
        Fault::RootOffsetMismatch { offset, evlr_offset } => "COPC root hierarchy offset "@
            + decimal(offset as nat) + " does not match EVLR data offset "@
            + decimal(evlr_offset as nat),
        _ => text_3(fault),
    }
}

fn make_text_2(fault: &Fault) -> (r: Text)
    ensures
        r.chars() == text_2(*fault),
{
    match fault {
        Fault::HeaderScale { axis } => {
            Text::new("LAS ")
                .str(axis_name(*axis))
                .str(" scale must be finite and positive")
        },
        Fault::HeaderNotFinite { field } => {
            Text::new("LAS ")
                .str(header_field_name(*field))
                .str(" must be finite")
        },
        Fault::HeaderBoundsOrder { axis } => {
            Text::new("LAS ")
                .str(axis_name(*axis))
                .str(" minimum exceeds maximum")
        },
        Fault::VlrSectionPastEnd { end, file_len } => {
            Text::new("VLR section end ")
                .number(*end as u64)
                .str(" exceeds file length ")
                .number(*file_len as u64)
        },
        Fault::RangeOverflow { label } => {
            Text::new("")
                .str(label_name(*label))
                .str(" offset/size overflow")
        },
        Fault::RangePastEnd { label, offset, end, file_len } => {
            Text::new("")
                .str(label_name(*label))
                .str(" range ")
                .number(*offset as u64)
                .str("..")
                .number(*end as u64)
                .str(" exceeds file length ")
                .number(*file_len as u64)
        },
        Fault::VlrReserved { index, reserved } => {
            Text::new("VLR ")
                .number(*index as u64)
                .str(" reserved field must be zero, got ")
                .number(*reserved as u64)
        },
        Fault::EvlrReserved { index, reserved } => {
            Text::new("EVLR ")
                .number(*index as u64)
                .str(" reserved field must be zero, got ")
                .number(*reserved as u64)
        },
        Fault::MissingInfoVlr => Text::new("missing COPC info VLR"),
        Fault::DuplicateInfoVlr => Text::new("duplicate COPC info VLR"),
        Fault::InfoVlrNotFirst => Text::new("COPC info VLR must be the first VLR"),
        Fault::MissingLaszipVlr => Text::new("missing LASzip VLR"),
        Fault::DuplicateLaszipVlr => Text::new("duplicate LASzip VLR"),
        Fault::NotLayered => Text::new("COPC point iteration requires layered LAZ point records"),
        Fault::MissingHierarchyEvlr => Text::new("missing COPC hierarchy EVLR"),
        Fault::RootOffsetMismatch { offset, evlr_offset } => {
            Text::new("COPC root hierarchy offset ")
                .number(*offset as u64)
                .str(" does not match EVLR data offset ")
                .number(*evlr_offset as u64)
        },
        _ => make_text_3(fault),
    }
}

/// The texts of some faults.
pub open spec fn text_1(fault: Fault) -> Seq<char> {
    match fault {
        Fault::InfoNotPositive { field } => "COPC info "@ + info_field_text(field)
            + " must be positive"@,
        Fault::InfoTimeOrder => "COPC info GPS time minimum exceeds maximum"@,
        Fault::ReadPastEnd { offset, len } => "read of "@ + decimal(len as nat) + " bytes at "@
            + decimal(offset as nat) + " exceeds the source"@,
        Fault::FileTooShort { len } => "file is "@ + decimal(len as nat)
            + " bytes; COPC requires at least 375"@,
        Fault::MissingSignature => "missing LASF signature"@,
        Fault::ReservedEncodingBits { encoding } => "LAS global encoding has reserved bits set: "@
            + decimal(encoding as nat),
        Fault::MissingWktBit => "COPC point formats require the LAS WKT global-encoding bit"@,
        Fault::LasVersion { major, minor } => "COPC requires LAS 1.4; found LAS "@
            + decimal(major as nat) + "."@ + decimal(minor as nat),
        Fault::HeaderSize { size } => "LAS header size "@ + decimal(size as nat)
            + " is invalid; COPC requires exactly 375 bytes"@,
        Fault::PointDataBeforeHeader { offset, size } => "point data offset "@
            + decimal(offset as nat) + " is before LAS header size "@ + decimal(size as nat),
        Fault::PointDataPastEnd { offset, file_len } => "point data offset "@
            + decimal(offset as nat) + " exceeds file length "@ + decimal(file_len as nat),
        Fault::VlrCount { count } => "VLR count "@ + decimal(count as nat)
            + " exceeds max supported 4096"@,
        Fault::NotCompressed => "COPC point data must be LAZ-compressed"@,
        Fault::PointFormat { id } => "COPC requires LAS point format 6, 7, or 8; found "@
            + decimal(id as nat),
        Fault::EvlrCount { count } => "EVLR count "@ + decimal(count as nat)
            + " exceeds max supported 4096"@,
        Fault::SourceEvlrCount { count } => "source EVLR count "@ + decimal(count as nat)
            + " exceeds max supported 4096"@,
        Fault::FirstEvlrPastEnd { offset, file_len } => "first EVLR offset "@
            + decimal(offset as nat) + " exceeds file length "@ + decimal(file_len as nat),
        _ => text_2(fault),
    }
}

fn make_text_1(fault: &Fault) -> (r: Text)
    ensures
        r.chars() == text_1(*fault),
{
    match fault {
        Fault::InfoNotPositive { field } => {
            Text::new("COPC info ")
                .str(info_field_name(*field))
                .str(" must be positive")
        },
        Fault::InfoTimeOrder => Text::new("COPC info GPS time minimum exceeds maximum"),
        Fault::ReadPastEnd { offset, len } => {
            Text::new("read of ")
                .number(*len as u64)
                .str(" bytes at ")
                .number(*offset as u64)
                .str(" exceeds the source")
        },
        Fault::FileTooShort { len } => {
            Text::new("file is ")
                .number(*len as u64)
                .str(" bytes; COPC requires at least 375")
        },
        Fault::MissingSignature => Text::new("missing LASF signature"),
        Fault::ReservedEncodingBits { encoding } => {
            Text::new("LAS global encoding has reserved bits set: ")
                .number(*encoding as u64)
        },
        Fault::MissingWktBit => {
            Text::new("COPC point formats require the LAS WKT global-encoding bit")
        },
        Fault::LasVersion { major, minor } => {
            Text::new("COPC requires LAS 1.4; found LAS ")
                .number(*major as u64)
                .str(".")
                .number(*minor as u64)
        },
        Fault::HeaderSize { size } => {
            Text::new("LAS header size ")
                .number(*size as u64)
                .str(" is invalid; COPC requires exactly 375 bytes")
        },
        Fault::PointDataBeforeHeader { offset, size } => {
            Text::new("point data offset ")
                .number(*offset as u64)
                .str(" is before LAS header size ")
                .number(*size as u64)
        },
        Fault::PointDataPastEnd { offset, file_len } => {
            Text::new("point data offset ")
                .number(*offset as u64)
                .str(" exceeds file length ")
                .number(*file_len as u64)
        },
        Fault::VlrCount { count } => {
            Text::new("VLR count ")
                .number(*count as u64)
                .str(" exceeds max supported 4096")
        },
        Fault::NotCompressed => Text::new("COPC point data must be LAZ-compressed"),
        Fault::PointFormat { id } => {
            Text::new("COPC requires LAS point format 6, 7, or 8; found ")
                .number(*id as u64)
        },
        Fault::EvlrCount { count } => {
            Text::new("EVLR count ")
                .number(*count as u64)
                .str(" exceeds max supported 4096")
        },
        Fault::SourceEvlrCount { count } => {
            Text::new("source EVLR count ")
                .number(*count as u64)
                .str(" exceeds max supported 4096")
        },
        Fault::FirstEvlrPastEnd { offset, file_len } => {
            Text::new("first EVLR offset ")
                .number(*offset as u64)
                .str(" exceeds file length ")
                .number(*file_len as u64)
        },
        _ => make_text_2(fault),
    }
}

/// The texts of some faults.
pub open spec fn text_0(fault: Fault) -> Seq<char> {
    match fault {
        Fault::NegativeVoxelKey { key } => "invalid negative COPC voxel key "@ + key_text(key),
        Fault::VoxelAxisOutsideLimit { key, limit } => "COPC voxel key "@ + key_text(key)
            + " has an axis outside 0.."@ + signed(limit as int),
        Fault::OctantOutOfRange { octant } => "octant must be in 0..=7, got "@
            + decimal(octant as nat),
        Fault::VoxelLevelOverflow => "voxel level overflow"@,
        Fault::VoxelAxisOverflow => "voxel axis overflow"@,
        Fault::EmptyEntryNotZero { key } => "empty hierarchy entry "@ + key_text(key)
            + " must have zero offset and byte size"@,
        Fault::PointEntryByteSize { key, byte_size } => "point data entry "@ + key_text(key)
            + " has invalid byte size "@ + signed(byte_size as int),
        Fault::ChildPageByteSize { key, byte_size } => "child hierarchy page "@ + key_text(key)
            + " has invalid byte size "@ + signed(byte_size as int),
        Fault::EntryPointCount { key, point_count } => "hierarchy entry "@ + key_text(key)
            + " has invalid point count "@ + signed(point_count as int),
        Fault::EntryDestination { len } => "hierarchy entry destination is "@
            + decimal(len as nat) + " bytes, expected 32"@,
        Fault::EntrySource { len } => "hierarchy entry is "@ + decimal(len as nat)
            + " bytes, expected 32"@,
        Fault::PageNotMultiple { len } => "hierarchy page is "@ + decimal(len as nat)
            + " bytes, not a multiple of 32"@,
        Fault::PageSizeOverflow => "hierarchy page size overflow"@,
        Fault::InfoTooShort { len } => "COPC info payload is "@ + decimal(len as nat)
            + " bytes, expected at least 160"@,
        Fault::InfoReservedBytes => "COPC info reserved bytes must be zero"@,
        Fault::InfoNotFinite { field } => "COPC info "@ + info_field_text(field)
            + " must be finite"@,
        _ => text_1(fault),
    }
}

fn make_text_0(fault: &Fault) -> (r: Text)
    ensures
        r.chars() == text_0(*fault),
{
    match fault {
        Fault::NegativeVoxelKey { key } => Text::new("invalid negative COPC voxel key ").key(*key),
        Fault::VoxelAxisOutsideLimit { key, limit } => {
            Text::new("COPC voxel key ")
                .key(*key)
                .str(" has an axis outside 0..")
                .integer(*limit)
        },
        Fault::OctantOutOfRange { octant } => {
            Text::new("octant must be in 0..=7, got ")
                .number(*octant as u64)
        },
        Fault::VoxelLevelOverflow => Text::new("voxel level overflow"),
        Fault::VoxelAxisOverflow => Text::new("voxel axis overflow"),
        Fault::EmptyEntryNotZero { key } => {
            Text::new("empty hierarchy entry ")
                .key(*key)
                .str(" must have zero offset and byte size")
        },
        Fault::PointEntryByteSize { key, byte_size } => {
            Text::new("point data entry ")
                .key(*key)
                .str(" has invalid byte size ")
                .integer(*byte_size)
        },
        Fault::ChildPageByteSize { key, byte_size } => {
            Text::new("child hierarchy page ")
                .key(*key)
                .str(" has invalid byte size ")
                .integer(*byte_size)
        },
        Fault::EntryPointCount { key, point_count } => {
            Text::new("hierarchy entry ")
                .key(*key)
                .str(" has invalid point count ")
                .integer(*point_count)
        },
        Fault::EntryDestination { len } => {
            Text::new("hierarchy entry destination is ")
                .number(*len as u64)
                .str(" bytes, expected 32")
        },
        Fault::EntrySource { len } => {
            Text::new("hierarchy entry is ")
                .number(*len as u64)
                .str(" bytes, expected 32")
        },
        Fault::PageNotMultiple { len } => {
            Text::new("hierarchy page is ")
                .number(*len as u64)
                .str(" bytes, not a multiple of 32")
        },
        Fault::PageSizeOverflow => Text::new("hierarchy page size overflow"),
        Fault::InfoTooShort { len } => {
            Text::new("COPC info payload is ")
                .number(*len as u64)
                .str(" bytes, expected at least 160")
        },
        Fault::InfoReservedBytes => Text::new("COPC info reserved bytes must be zero"),
        Fault::InfoNotFinite { field } => {
            Text::new("COPC info ")
                .str(info_field_name(*field))
                .str(" must be finite")
        },
        _ => make_text_1(fault),
    }
}

fn empty_text() -> (r: Text)
    ensures
        r.chars() == Seq::<char>::empty(),
{
    let text = Text { text: String::new() };
    proof {
        assert(text.chars() =~= Seq::empty());
    }
    text
}

/// What an error says, but for what the operating system says of a failed operation.
pub open spec fn error_text(error: Error) -> Seq<char> {
    match error {
        Error::InvalidInput(fault) => "invalid COPC input: "@ + text_0(fault),
        Error::InvalidData(fault) => "invalid COPC data: "@ + text_0(fault),
        Error::Las(task) => "LAS/LAZ error: "@ + task_text(task),
        Error::Io { context, .. } => context@,
        Error::Cancelled => "operation cancelled"@,
        Error::Unsupported(fault) => "unsupported COPC feature: "@ + text_0(fault),
    }
}

impl Fault {
    /// The fault in words.
    pub fn message(&self) -> (r: String)
        ensures
            r@ == text_0(*self),
    {
        make_text_0(self).text
    }
}

impl Error {
    /// The error in words. Of a failed operation only its name is told: what the operating
    /// system says of it is in `source`.
    pub fn message(&self) -> (r: String)
        ensures
            r@ == error_text(*self),
    {
        match self {
            Error::InvalidInput(fault) => {
                let text = make_text_0(fault);
                Text::new("invalid COPC input: ").str(text.text.as_str()).text
            },
            Error::InvalidData(fault) => {
                let text = make_text_0(fault);
                Text::new("invalid COPC data: ").str(text.text.as_str()).text
            },
            Error::Las(task) => Text::new("LAS/LAZ error: ").str(task_name(*task)).text,
            Error::Io { context, .. } => Text::new(context).text,
            Error::Cancelled => Text::new("operation cancelled").text,
            Error::Unsupported(fault) => {
                let text = make_text_0(fault);
                Text::new("unsupported COPC feature: ").str(text.text.as_str()).text
            },
        }
    }
}

/// The number that a text of digits writes.
pub open spec fn value_of(text: Seq<char>) -> nat
    decreases text.len(),
{
    if text.len() == 0 {
        0
    } else {
        10 * value_of(text.drop_last()) + (text.last() as u32 - '0' as u32) as nat
    }
}

/// A number is written in digits that give the number again, and starts with a zero only where
/// it is zero.
pub proof fn law_decimal(n: nat)
    ensures
        decimal(n).len() > 0,
        forall|i: int|
            0 <= i < decimal(n).len() ==> '0' as u32 <= #[trigger] decimal(n)[i] as u32 <= '9' as u32,
        value_of(decimal(n)) == n,
        decimal(n)[0] as u32 == '0' as u32 <==> n == 0,
    decreases n,
{
    lemma_digit(n);
    let own = digit(n);
    if n < 10 {
        assert(own.drop_last() =~= Seq::empty());
        assert(value_of(own.drop_last()) == 0);
    } else {
        law_decimal(n / 10);
        let text = decimal(n);
        assert(text.drop_last() =~= decimal(n / 10));
        assert(text.last() == own[0]);
        assert(text[0] == decimal(n / 10)[0]);
    }
}

proof fn lemma_digit(n: nat)
    ensures
        digit(n).len() == 1,
        digit(n)[0] as u32 == '0' as u32 + n % 10,
{
    reveal_strlit("0");
    reveal_strlit("1");
    reveal_strlit("2");
    reveal_strlit("3");
    reveal_strlit("4");
    reveal_strlit("5");
    reveal_strlit("6");
    reveal_strlit("7");
    reveal_strlit("8");
    reveal_strlit("9");
}

/// A negative number is written as its amount with a minus before it.
pub proof fn law_signed(n: int)
    ensures
        n >= 0 ==> value_of(signed(n)) == n,
        n < 0 ==> signed(n).len() > 1 && signed(n)[0] == '-' && value_of(signed(n).drop_first())
            == -n,
{
    if n >= 0 {
        law_decimal(n as nat);
    } else {
        law_decimal((-n) as nat);
        reveal_strlit("-");
        assert(signed(n).drop_first() =~= decimal((-n) as nat));
    }
}

/// An error is told by its kind and what is wrong.
pub proof fn law_error_kinds(fault: Fault, task: LasTask)
    ensures
        error_text(Error::InvalidInput(fault)) == "invalid COPC input: "@ + text_0(fault),
        error_text(Error::InvalidData(fault)) == "invalid COPC data: "@ + text_0(fault),
        error_text(Error::Unsupported(fault)) == "unsupported COPC feature: "@ + text_0(fault),
        error_text(Error::Las(task)) == "LAS/LAZ error: "@ + task_text(task),
        error_text(Error::Cancelled) == "operation cancelled"@,
{
}

/// Whether a text has a value right behind a label.
pub open spec fn tells(text: Seq<char>, label: Seq<char>, value: Seq<char>) -> bool {
    exists|before: Seq<char>, behind: Seq<char>| #[trigger]
        (before + label + value + behind) == text
}

proof fn lemma_tells(before: Seq<char>, label: Seq<char>, value: Seq<char>, behind: Seq<char>)
    ensures
        tells(before + label + value + behind, label, value),
{
}

/// The text of a key tells its level and its three places, each behind its name.
#[verifier::rlimit(40)]
pub proof fn law_key_text(key: VoxelKey)
    ensures
        tells(key_text(key), "VoxelKey { level: "@, signed(key.level as int)),
        tells(key_text(key), ", x: "@, signed(key.x as int)),
        tells(key_text(key), ", y: "@, signed(key.y as int)),
        tells(key_text(key), ", z: "@, signed(key.z as int)),
{
    let text = key_text(key);
    let level = "VoxelKey { level: "@ + signed(key.level as int);
    let x = ", x: "@ + signed(key.x as int);
    let y = ", y: "@ + signed(key.y as int);
    let z = ", z: "@ + signed(key.z as int);
    let end = " }"@;
    let none = Seq::<char>::empty();
    lemma_tells(none, "VoxelKey { level: "@, signed(key.level as int), x + y + z + end);
    assert(none + "VoxelKey { level: "@ + signed(key.level as int) + (x + y + z + end) =~= text);
    lemma_tells(level, ", x: "@, signed(key.x as int), y + z + end);
    assert(level + ", x: "@ + signed(key.x as int) + (y + z + end) =~= text);
    lemma_tells(level + x, ", y: "@, signed(key.y as int), z + end);
    assert(level + x + ", y: "@ + signed(key.y as int) + (z + end) =~= text);
    lemma_tells(level + x + y, ", z: "@, signed(key.z as int), end);
    assert(level + x + y + ", z: "@ + signed(key.z as int) + end =~= text);
}

/// The text of an entry tells its key, its place, its size and its points, each behind its name.
#[verifier::rlimit(40)]
pub proof fn law_entry_text(entry: Entry)
    ensures
        tells(entry_text(entry), "Entry { key: "@, key_text(entry.key)),
        tells(entry_text(entry), ", offset: "@, decimal(entry.offset as nat)),
        tells(entry_text(entry), ", byte_size: "@, signed(entry.byte_size as int)),
        tells(entry_text(entry), ", point_count: "@, signed(entry.point_count as int)),
{
    let text = entry_text(entry);
    let key = "Entry { key: "@ + key_text(entry.key);
    let offset = ", offset: "@ + decimal(entry.offset as nat);
    let size = ", byte_size: "@ + signed(entry.byte_size as int);
    let count = ", point_count: "@ + signed(entry.point_count as int);
    let end = " }"@;
    let none = Seq::<char>::empty();
    lemma_tells(none, "Entry { key: "@, key_text(entry.key), offset + size + count + end);
    assert(none + "Entry { key: "@ + key_text(entry.key) + (offset + size + count + end) =~= text);
    lemma_tells(key, ", offset: "@, decimal(entry.offset as nat), size + count + end);
    assert(key + ", offset: "@ + decimal(entry.offset as nat) + (size + count + end) =~= text);
    lemma_tells(key + offset, ", byte_size: "@, signed(entry.byte_size as int), count + end);
    assert(key + offset + ", byte_size: "@ + signed(entry.byte_size as int) + (count + end)
        =~= text);
    lemma_tells(key + offset + size, ", point_count: "@, signed(entry.point_count as int), end);
    assert(key + offset + size + ", point_count: "@ + signed(entry.point_count as int) + end
        =~= text);
}

} // verus!
