//! What can be wrong with COPC input, and with what a caller asks for.

use vstd::prelude::*;

use crate::columns::{ColumnSpec, LasDimension, ScalarType};
use crate::hierarchy::{Entry, VoxelKey};

verus! {

/// The error of an input or output operation of the standard library.
#[verifier::external_type_specification]
#[verifier::external_body]
pub struct ExIoError(std::io::Error);

pub type Result<T> = std::result::Result<T, Error>;

#[derive(Debug)]
pub enum Error {
    /// The caller asked for something that cannot be done.
    InvalidInput(Fault),
    /// The bytes that were read are not COPC data.
    InvalidData(Fault),
    /// The LAS or LAZ code refused its input.
    Las(LasTask),
    Io { context: &'static str, source: std::io::Error },
    Cancelled,
    /// The input is well-formed but uses what is not supported.
    Unsupported(Fault),
}

impl Error {
    pub fn io(context: &'static str, source: std::io::Error) -> (r: Error)
        ensures
            r == (Error::Io { context, source }),
    {
        Error::Io { context, source }
    }
}

/// What exactly was found to be wrong.
#[allow(inconsistent_fields)]
#[derive(Debug)]
pub enum Fault {
    NegativeVoxelKey { key: VoxelKey },
    VoxelAxisOutsideLimit { key: VoxelKey, limit: i32 },
    OctantOutOfRange { octant: u8 },
    VoxelLevelOverflow,
    VoxelAxisOverflow,
    EmptyEntryNotZero { key: VoxelKey },
    PointEntryByteSize { key: VoxelKey, byte_size: i32 },
    ChildPageByteSize { key: VoxelKey, byte_size: i32 },
    EntryPointCount { key: VoxelKey, point_count: i32 },
    EntryDestination { len: usize },
    EntrySource { len: usize },
    PageNotMultiple { len: u64 },
    PageSizeOverflow,
    InfoTooShort { len: usize },
    InfoReservedBytes,
    InfoNotFinite { field: InfoField },
    InfoNotPositive { field: InfoField },
    InfoTimeOrder,
    ReadPastEnd { offset: u64, len: u64 },
    FileTooShort { len: u64 },
    MissingSignature,
    ReservedEncodingBits { encoding: u16 },
    MissingWktBit,
    LasVersion { major: u8, minor: u8 },
    HeaderSize { size: u16 },
    PointDataBeforeHeader { offset: u32, size: u16 },
    PointDataPastEnd { offset: u32, file_len: u64 },
    VlrCount { count: u32 },
    NotCompressed,
    PointFormat { id: u8 },
    EvlrCount { count: u32 },
    SourceEvlrCount { count: u32 },
    FirstEvlrPastEnd { offset: u64, file_len: u64 },
    HeaderScale { axis: Axis },
    HeaderNotFinite { field: HeaderField },
    HeaderBoundsOrder { axis: Axis },
    VlrSectionPastEnd { end: u64, file_len: u64 },
    RangeOverflow { label: RangeLabel },
    RangePastEnd { label: RangeLabel, offset: u64, end: u64, file_len: u64 },
    VlrReserved { index: u32, reserved: u16 },
    EvlrReserved { index: u32, reserved: u16 },
    MissingInfoVlr,
    DuplicateInfoVlr,
    InfoVlrNotFirst,
    MissingLaszipVlr,
    DuplicateLaszipVlr,
    NotLayered,
    MissingHierarchyEvlr,
    RootOffsetMismatch { offset: u64, evlr_offset: u64 },
    RootSizeExceedsEvlr { size: u64, evlr_len: u64 },
    EvlrBeforePointData { evlr_offset: u64, point_offset: u64 },
    PageEmpty,
    PageTooLarge { byte_size: u64 },
    PageTotalOverflow,
    PageTotal { total: u64 },
    PointChunkTooLarge { key: VoxelKey, byte_size: u64 },
    PointEntryOutside { key: VoxelKey, offset: u64, end: u64, section_start: u64, section_end: u64 },
    ChildPageOutside { key: VoxelKey, offset: u64, end: u64, body_start: u64, body_end: u64 },
    DuplicateKey { previous: Entry, entry: Entry },
    ChunksOverlap { first: VoxelKey, second: VoxelKey },
    PointTotalOverflow,
    PointTotal { total: u64, expected: u64 },
    RecordLengthTooSmall { length: u16, id: u8, base: u16 },
    ColumnScalarMismatch { dimension: LasDimension, declared: ScalarType, found: ScalarType },
    ExtraBytesWidth,
    ByteWidthOnFixed { dimension: LasDimension, width: usize },
    NotDefaultScalar { dimension: LasDimension, scalar: ScalarType },
    ExtraBytesNotDivisible { len: usize, width: usize },
    DuplicateColumn { dimension: LasDimension },
    ColumnLength { dimension: LasDimension, points: usize, len: usize },
    NotExtendedFormat,
    ColumnDataType { dimension: LasDimension, scalar: ScalarType },
    ExtraBytesLength { len: usize, expected: usize },
    ColumnCapacity,
    MergeColumnCount { found: usize, expected: usize },
    MergeColumnSpec { found: ColumnSpec, expected: ColumnSpec },
    MergeColumnScalar,
    RecordSize { item_size: usize, record_length: usize },
    ChunkRecordCount { count: usize },
    DamagedLayer,
    WaveformItem,
    GpsTimeSteps,
    QueryBoundNotFinite { corner: Corner, axis: Axis },
    QueryBoundsOrder { axis: Axis },
    ResolutionInvalid,
    SpacingInvalid,
    LevelTooLarge { level: i32 },
    NegativeLevel { level: i32 },
    LevelOrder { min: i32, max: i32 },
    ChunkByteSize { key: VoxelKey, byte_size: i32 },
    NegativePointCount { key: VoxelKey, point_count: i32 },
    CandidateOverflow,
    VlrSectionTooLarge { len: u64 },
    RootSizeExceedsI32,
    PointTotalExceeds { total: u64, limit: u64 },
    RangeInverted,
    RangeTooLarge,
    ChunkOutsideGroup,
    HttpRangeOverflow,
    HttpStatus { status: u16 },
    HttpNoContentRange,
    HttpRangeMismatch { first: u64, last: u64, expected_first: u64, expected_last: u64 },
    HttpZeroTotal,
    HttpTotalChanged { expected: u64, found: u64 },
    HttpBodyTooLong,
    EmptyPage,
    EntryNotUnderPage { entry: VoxelKey, page: VoxelKey },
    PageOffsetOverflow,
    ChildPageExceedsI32,
    PageOffsetMismatch { at: u64, expected: u64 },
    ChunkExceedsI32,
    NodeCountExceedsI32,
    VlrTooLarge { record_id: u16, len: usize },
    VlrBytesOverflow,
    CrsVlrTooLarge { len: usize },
    CrsVlrBytesOverflow,
    ZeroNodeBudget,
    MaximumDepth { key: VoxelKey, count: usize, budget: usize },
    TooManyPoints,
    RecordLengthOverflow { extra: u16 },
    VlrCountOverflow,
    OutputVlrCount { count: u32 },
    EvlrCountOverflow,
    OutputEvlrCount { count: u32 },
    LaszipVlrTooLarge,
    PointOffsetOverflow,
    VlrAccounting { at: u64, expected: u32 },
    PointDataOverflow,
    ChunkTableExceedsI64,
    HierarchyOffsetOverflow,
    SpillRecordLength { len: usize, expected: usize },
    UnexpectedColumnType { dimension: LasDimension, expected: ScalarType, found: ScalarType },
    MissingColumn { dimension: LasDimension },
    ColumnsNotPreserved { nir: usize, waveform: usize },
    ExtraBytesTooWide { width: usize },
    PartialColor,
    EmptyBatchBounds,
    BatchIndex { index: usize, len: usize },
    GpsTimeNotFinite { index: usize },
    LayoutNotPreserved { nir: bool, waveform: bool },
    SourceNotPreserved { nir: bool, waveform: bool, geotiff: u64 },
    BoundNotFinite { corner: Corner, axis: Axis },
    BoundsOrder { axis: Axis },
    SpanNotFinite { axis: Axis },
    ScaleInvalid { axis: Axis },
    OffsetNotFinite { axis: Axis },
    PointNotFinite { index: usize, axis: Axis },
    PointOutsideBounds { index: usize },
    PointNotEncodable { index: usize, axis: Axis },
    PointOutOfRange { index: usize, axis: Axis },
    ScanAngleNotFinite { index: usize },
    ScanAngleOutOfRange { index: usize },
    FieldOutOfRange { index: usize, field: PointField, max: u8, value: u8 },
    CoordinatesDiffer { index: usize },
    ExtraByteCount { index: usize, found: usize, expected: usize },
    SpillCountExceedsUsize,
    SpillSizeOverflow,
    SpillSize { len: usize, expected: usize },
    SpillIndex { index: usize, len: usize },
    EmptyCloud,
    NodeBufferOverflow,
    TruncatedStream,
    ChunkTableOffset,
    ChunkTableOutside,
}

/// What a byte range of a file holds.
#[derive(Clone, Copy, Debug, PartialEq, Eq, Structural)]
pub enum RangeLabel {
    VlrHeader,
    VlrData,
    FirstEvlrHeader,
    EvlrHeader,
    EvlrData,
    HierarchyEvlr,
    HierarchyPage,
    PointEntry,
    ChildPage,
}

/// What was asked of the LAS or LAZ code that refused it.
#[derive(Clone, Copy, Debug, PartialEq, Eq, Structural)]
pub enum LasTask {
    LaszipVlr,
    LaszipItems,
    PointFormat,
    CompressChunk,
    ChunkTable,
}

/// An axis of space.
#[derive(Clone, Copy, Debug, PartialEq, Eq, Structural)]
pub enum Axis {
    X,
    Y,
    Z,
}

/// A field of a point that has few bits in a record.
#[derive(Clone, Copy, Debug, PartialEq, Eq, Structural)]
pub enum PointField {
    ReturnNumber,
    NumberOfReturns,
    Synthetic,
    KeyPoint,
    Withheld,
    Overlap,
    ScanChannel,
    ScanDirectionFlag,
    EdgeOfFlightLine,
}

/// A corner of a box.
#[derive(Clone, Copy, Debug, PartialEq, Eq, Structural)]
pub enum Corner {
    Min,
    Max,
}

/// A number of the COPC info payload.
#[derive(Clone, Copy, Debug, PartialEq, Eq, Structural)]
pub enum InfoField {
    CenterX,
    CenterY,
    CenterZ,
    Halfsize,
    Spacing,
    GpsTimeMin,
    GpsTimeMax,
}

/// A number of the LAS header.
#[derive(Clone, Copy, Debug, PartialEq, Eq, Structural)]
pub enum HeaderField {
    OffsetX,
    OffsetY,
    OffsetZ,
    MinX,
    MinY,
    MinZ,
    MaxX,
    MaxY,
    MaxZ,
}

} // verus!
