//! Point data in columns, one per dimension.

use vstd::prelude::*;

use crate::error::{Error, Fault, Result};
use crate::float::{F32, F64};
use crate::point_format::PointFormat;

verus! {

/// The dimensions of a LAS point that can be a column.
#[derive(Clone, Copy, Debug, PartialEq, Eq, Hash, Structural)]
pub enum LasDimension {
    X,
    Y,
    Z,
    Intensity,
    ReturnNumber,
    NumberOfReturns,
    Classification,
    ScanDirectionFlag,
    EdgeOfFlightLine,
    /// The scan angle in degrees. Point records hold it as a multiple of 0.006 degrees.
    ScanAngle,
    UserData,
    PointSourceId,
    Synthetic,
    KeyPoint,
    Withheld,
    Overlap,
    ScanChannel,
    GpsTime,
    Red,
    Green,
    Blue,
    Nir,
    WaveformPacketDescriptorIndex,
    WaveformPacketByteOffset,
    WaveformPacketSize,
    WavePacketReturnPointWaveformLocation,
    ExtraBytes,
}

/// The types of column values.
#[derive(Clone, Copy, Debug, PartialEq, Eq, Hash, Structural)]
pub enum ScalarType {
    F64,
    F32,
    I64,
    I32,
    I16,
    I8,
    U64,
    U32,
    U16,
    U8,
    Bool,
}

/// The type that a dimension's values have by default; extra bytes have none.
pub open spec fn scalar_of(dimension: LasDimension) -> Option<ScalarType> {
    match dimension {
        LasDimension::X | LasDimension::Y | LasDimension::Z | LasDimension::GpsTime => Some(
            ScalarType::F64,
        ),
        LasDimension::ScanAngle | LasDimension::WavePacketReturnPointWaveformLocation => Some(
            ScalarType::F32,
        ),
        LasDimension::WaveformPacketByteOffset => Some(ScalarType::U64),
        LasDimension::Intensity
        | LasDimension::PointSourceId
        | LasDimension::Red
        | LasDimension::Green
        | LasDimension::Blue
        | LasDimension::Nir => Some(ScalarType::U16),
        LasDimension::WaveformPacketSize => Some(ScalarType::U32),
        LasDimension::ReturnNumber
        | LasDimension::NumberOfReturns
        | LasDimension::Classification
        | LasDimension::UserData
        | LasDimension::ScanChannel
        | LasDimension::WaveformPacketDescriptorIndex => Some(ScalarType::U8),
        LasDimension::ScanDirectionFlag
        | LasDimension::EdgeOfFlightLine
        | LasDimension::Synthetic
        | LasDimension::KeyPoint
        | LasDimension::Withheld
        | LasDimension::Overlap => Some(ScalarType::Bool),
        LasDimension::ExtraBytes => None,
    }
}

impl LasDimension {
    /// The type that the dimension's values have by default.
    pub fn default_scalar(self) -> (r: Option<ScalarType>)
        ensures
            r == scalar_of(self),
    {
        match self {
            LasDimension::X | LasDimension::Y | LasDimension::Z | LasDimension::GpsTime => Some(
                ScalarType::F64,
            ),
            LasDimension::ScanAngle | LasDimension::WavePacketReturnPointWaveformLocation => Some(
                ScalarType::F32,
            ),
            LasDimension::WaveformPacketByteOffset => Some(ScalarType::U64),
            LasDimension::Intensity
            | LasDimension::PointSourceId
            | LasDimension::Red
            | LasDimension::Green
            | LasDimension::Blue
            | LasDimension::Nir => Some(ScalarType::U16),
            LasDimension::WaveformPacketSize => Some(ScalarType::U32),
            LasDimension::ReturnNumber
            | LasDimension::NumberOfReturns
            | LasDimension::Classification
            | LasDimension::UserData
            | LasDimension::ScanChannel
            | LasDimension::WaveformPacketDescriptorIndex => Some(ScalarType::U8),
            LasDimension::ScanDirectionFlag
            | LasDimension::EdgeOfFlightLine
            | LasDimension::Synthetic
            | LasDimension::KeyPoint
            | LasDimension::Withheld
            | LasDimension::Overlap => Some(ScalarType::Bool),
            LasDimension::ExtraBytes => None,
        }
    }

    /// Whether values of the type may stand for the dimension: the default type, or any for
    /// extra bytes.
    pub fn accepts_scalar(self, scalar: ScalarType) -> (r: bool)
        ensures
            r == (scalar_of(self) is None || scalar_of(self) == Some(scalar)),
    {
        match self.default_scalar() {
            Some(default_scalar) => default_scalar == scalar,
            None => true,
        }
    }
}

/// The dimensions that a caller asks for, each once.
#[derive(Clone, Debug, PartialEq, Eq)]
pub struct ColumnSelection {
    dimensions: Vec<LasDimension>,
}

impl View for ColumnSelection {
    type V = Seq<LasDimension>;

    closed spec fn view(&self) -> Seq<LasDimension> {
        self.dimensions@
    }
}

/// The dimensions in the order in which they first occur, each once.
pub open spec fn distinct(dims: Seq<LasDimension>) -> Seq<LasDimension>
    decreases dims.len(),
{
    if dims.len() == 0 {
        Seq::empty()
    } else {
        let before = distinct(dims.drop_last());
        if before.contains(dims.last()) {
            before
        } else {
            before.push(dims.last())
        }
    }
}

/// Selecting keeps every dimension that was asked for, nothing else, and nothing twice.
pub proof fn law_distinct(dims: Seq<LasDimension>)
    ensures
        distinct(dims).no_duplicates(),
        forall|d: LasDimension| #[trigger] distinct(dims).contains(d) <==> dims.contains(d),
        dims.no_duplicates() ==> distinct(dims) == dims,
    decreases dims.len(),
{
    if dims.len() > 0 {
        let rest = dims.drop_last();
        let last = dims.last();
        let before = distinct(rest);
        law_distinct(rest);
        assert forall|d: LasDimension| #[trigger] distinct(dims).contains(d) <==> dims.contains(
            d,
        ) by {
            assert(dims =~= rest.push(last));
            if rest.contains(d) {
                let i = choose|i: int| 0 <= i < rest.len() && rest[i] == d;
                assert(dims[i] == d);
            }
            assert(dims[dims.len() - 1] == last);
            if before.contains(d) && !before.contains(last) {
                let i = choose|i: int| 0 <= i < before.len() && before[i] == d;
                assert(before.push(last)[i] == d);
            }
            if !before.contains(last) {
                assert(before.push(last)[before.len() as int] == last);
            }
        }
        if dims.no_duplicates() {
            assert(rest.no_duplicates());
            assert(!rest.contains(last));
            assert(rest.push(last) =~= dims);
        }
    } else {
        assert(dims =~= Seq::empty());
    }
}

/// All dimensions.
pub open spec fn all_dimensions() -> Seq<LasDimension> {
    core_dimensions() + seq![
        LasDimension::GpsTime,
        LasDimension::Red,
        LasDimension::Green,
        LasDimension::Blue,
        LasDimension::Nir,
        LasDimension::WaveformPacketDescriptorIndex,
        LasDimension::WaveformPacketByteOffset,
        LasDimension::WaveformPacketSize,
        LasDimension::WavePacketReturnPointWaveformLocation,
        LasDimension::ExtraBytes,
    ]
}

/// The dimensions that every point format has.
pub open spec fn core_dimensions() -> Seq<LasDimension> {
    seq![
        LasDimension::X,
        LasDimension::Y,
        LasDimension::Z,
        LasDimension::Intensity,
        LasDimension::ReturnNumber,
        LasDimension::NumberOfReturns,
        LasDimension::Classification,
        LasDimension::ScanDirectionFlag,
        LasDimension::EdgeOfFlightLine,
        LasDimension::ScanAngle,
        LasDimension::UserData,
        LasDimension::PointSourceId,
        LasDimension::Synthetic,
        LasDimension::KeyPoint,
        LasDimension::Withheld,
        LasDimension::Overlap,
        LasDimension::ScanChannel,
    ]
}

fn has_dimension(dims: &Vec<LasDimension>, dim: LasDimension) -> (r: bool)
    ensures
        r == dims@.contains(dim),
{
    let mut i: usize = 0;
    while i < dims.len()
        invariant
            i <= dims@.len(),
            forall|k: int| 0 <= k < i ==> dims@[k] != dim,
        decreases dims@.len() - i,
    {
        if dims[i] == dim {
            return true;
        }
        i = i + 1;
    }
    false
}

impl ColumnSelection {
    /// Every dimension.
    pub fn all() -> (r: ColumnSelection)
        ensures
            r@ == all_dimensions(),
    {
        let dimensions = vec![
            LasDimension::X,
            LasDimension::Y,
            LasDimension::Z,
            LasDimension::Intensity,
            LasDimension::ReturnNumber,
            LasDimension::NumberOfReturns,
            LasDimension::Classification,
            LasDimension::ScanDirectionFlag,
            LasDimension::EdgeOfFlightLine,
            LasDimension::ScanAngle,
            LasDimension::UserData,
            LasDimension::PointSourceId,
            LasDimension::Synthetic,
            LasDimension::KeyPoint,
            LasDimension::Withheld,
            LasDimension::Overlap,
            LasDimension::ScanChannel,
            LasDimension::GpsTime,
            LasDimension::Red,
            LasDimension::Green,
            LasDimension::Blue,
            LasDimension::Nir,
            LasDimension::WaveformPacketDescriptorIndex,
            LasDimension::WaveformPacketByteOffset,
            LasDimension::WaveformPacketSize,
            LasDimension::WavePacketReturnPointWaveformLocation,
            LasDimension::ExtraBytes,
        ];
        proof {
            assert(dimensions@ =~= all_dimensions());
        }
        ColumnSelection { dimensions }
    }

    /// The coordinates.
    pub fn xyz() -> (r: ColumnSelection)
        ensures
            r@ == seq![LasDimension::X, LasDimension::Y, LasDimension::Z],
    {
        let dimensions = vec![LasDimension::X, LasDimension::Y, LasDimension::Z];
        proof {
            assert(dimensions@ =~= seq![LasDimension::X, LasDimension::Y, LasDimension::Z]);
        }
        ColumnSelection { dimensions }
    }

    /// The given dimensions, in the order in which they first occur.
    pub fn from_dimensions(dims: &[LasDimension]) -> (r: ColumnSelection)
        ensures
            r@ == distinct(dims@),
    {
        let mut dimensions: Vec<LasDimension> = Vec::new();
        let mut i: usize = 0;
        proof {
            assert(dims@.subrange(0, 0) =~= Seq::empty());
        }
        while i < dims.len()
            invariant
                i <= dims@.len(),
                dimensions@ == distinct(dims@.subrange(0, i as int)),
            decreases dims@.len() - i,
        {
            proof {
                let longer = dims@.subrange(0, i + 1);
                assert(longer.drop_last() =~= dims@.subrange(0, i as int));
            }
            if !has_dimension(&dimensions, dims[i]) {
                dimensions.push(dims[i]);
            }
            i = i + 1;
        }
        proof {
            assert(dims@.subrange(0, dims@.len() as int) =~= dims@);
        }
        ColumnSelection { dimensions }
    }

    pub fn contains(&self, dim: LasDimension) -> (r: bool)
        ensures
            r == self@.contains(dim),
    {
        has_dimension(&self.dimensions, dim)
    }

    pub fn dimensions(&self) -> (r: &[LasDimension])
        ensures
            r@ == self@,
    {
        self.dimensions.as_slice()
    }

    pub fn len(&self) -> (r: usize)
        ensures
            r == self@.len(),
    {
        self.dimensions.len()
    }

    pub fn is_empty(&self) -> (r: bool)
        ensures
            r == (self@.len() == 0),
    {
        self.dimensions.len() == 0
    }
}

/// The dimension of a column and the type of its values.
#[derive(Clone, Copy, Debug, PartialEq, Eq, Hash, Structural)]
pub struct ColumnSpec {
    pub dimension: LasDimension,
    pub scalar: ScalarType,
    /// For extra bytes, the number of bytes of each point.
    pub byte_width: Option<usize>,
}

/// Values of a column.
#[derive(Clone, Debug, PartialEq)]
pub enum ColumnData {
    F64(Vec<F64>),
    F32(Vec<F32>),
    I64(Vec<i64>),
    I32(Vec<i32>),
    I16(Vec<i16>),
    I8(Vec<i8>),
    U64(Vec<u64>),
    U32(Vec<u32>),
    U16(Vec<u16>),
    U8(Vec<u8>),
    Bool(Vec<bool>),
}

/// Borrowed values of a column.
#[derive(Clone, Copy, Debug, PartialEq)]
pub enum ColumnView<'a> {
    F64(&'a [F64]),
    F32(&'a [F32]),
    I64(&'a [i64]),
    I32(&'a [i32]),
    I16(&'a [i16]),
    I8(&'a [i8]),
    U64(&'a [u64]),
    U32(&'a [u32]),
    U16(&'a [u16]),
    U8(&'a [u8]),
    Bool(&'a [bool]),
}

/// The values of a column as a mathematical sequence.
#[verifier::ext_equal]
pub enum ColumnModel {
    F64(Seq<F64>),
    F32(Seq<F32>),
    I64(Seq<i64>),
    I32(Seq<i32>),
    I16(Seq<i16>),
    I8(Seq<i8>),
    U64(Seq<u64>),
    U32(Seq<u32>),
    U16(Seq<u16>),
    U8(Seq<u8>),
    Bool(Seq<bool>),
}

impl ColumnModel {
    pub open spec fn count(self) -> nat {
        match self {
            ColumnModel::F64(values) => values.len(),
            ColumnModel::F32(values) => values.len(),
            ColumnModel::I64(values) => values.len(),
            ColumnModel::I32(values) => values.len(),
            ColumnModel::I16(values) => values.len(),
            ColumnModel::I8(values) => values.len(),
            ColumnModel::U64(values) => values.len(),
            ColumnModel::U32(values) => values.len(),
            ColumnModel::U16(values) => values.len(),
            ColumnModel::U8(values) => values.len(),
            ColumnModel::Bool(values) => values.len(),
        }
    }

    pub open spec fn kind(self) -> ScalarType {
        match self {
            ColumnModel::F64(_) => ScalarType::F64,
            ColumnModel::F32(_) => ScalarType::F32,
            ColumnModel::I64(_) => ScalarType::I64,
            ColumnModel::I32(_) => ScalarType::I32,
            ColumnModel::I16(_) => ScalarType::I16,
            ColumnModel::I8(_) => ScalarType::I8,
            ColumnModel::U64(_) => ScalarType::U64,
            ColumnModel::U32(_) => ScalarType::U32,
            ColumnModel::U16(_) => ScalarType::U16,
            ColumnModel::U8(_) => ScalarType::U8,
            ColumnModel::Bool(_) => ScalarType::Bool,
        }
    }
}

impl ColumnData {
    /// The values.
    pub open spec fn model(&self) -> ColumnModel {
        match self {
            ColumnData::F64(values) => ColumnModel::F64(values@),
            ColumnData::F32(values) => ColumnModel::F32(values@),
            ColumnData::I64(values) => ColumnModel::I64(values@),
            ColumnData::I32(values) => ColumnModel::I32(values@),
            ColumnData::I16(values) => ColumnModel::I16(values@),
            ColumnData::I8(values) => ColumnModel::I8(values@),
            ColumnData::U64(values) => ColumnModel::U64(values@),
            ColumnData::U32(values) => ColumnModel::U32(values@),
            ColumnData::U16(values) => ColumnModel::U16(values@),
            ColumnData::U8(values) => ColumnModel::U8(values@),
            ColumnData::Bool(values) => ColumnModel::Bool(values@),
        }
    }

    pub fn len(&self) -> (r: usize)
        ensures
            r == self.model().count(),
    {
        match self {
            ColumnData::F64(values) => values.len(),
            ColumnData::F32(values) => values.len(),
            ColumnData::I64(values) => values.len(),
            ColumnData::I32(values) => values.len(),
            ColumnData::I16(values) => values.len(),
            ColumnData::I8(values) => values.len(),
            ColumnData::U64(values) => values.len(),
            ColumnData::U32(values) => values.len(),
            ColumnData::U16(values) => values.len(),
            ColumnData::U8(values) => values.len(),
            ColumnData::Bool(values) => values.len(),
        }
    }

    pub fn is_empty(&self) -> (r: bool)
        ensures
            r == (self.model().count() == 0),
    {
        self.len() == 0
    }

    pub fn scalar(&self) -> (r: ScalarType)
        ensures
            r == self.model().kind(),
    {
        match self {
            ColumnData::F64(_) => ScalarType::F64,
            ColumnData::F32(_) => ScalarType::F32,
            ColumnData::I64(_) => ScalarType::I64,
            ColumnData::I32(_) => ScalarType::I32,
            ColumnData::I16(_) => ScalarType::I16,
            ColumnData::I8(_) => ScalarType::I8,
            ColumnData::U64(_) => ScalarType::U64,
            ColumnData::U32(_) => ScalarType::U32,
            ColumnData::U16(_) => ScalarType::U16,
            ColumnData::U8(_) => ScalarType::U8,
            ColumnData::Bool(_) => ScalarType::Bool,
        }
    }

    pub fn scalar_type(&self) -> (r: ScalarType)
        ensures
            r == self.model().kind(),
    {
        self.scalar()
    }

    pub fn matches_scalar(&self, scalar: ScalarType) -> (r: bool)
        ensures
            r == (self.model().kind() == scalar),
    {
        self.scalar() == scalar
    }

    pub fn view(&self) -> (r: ColumnView<'_>)
        ensures
            r.model() == self.model(),
    {
        match self {
            ColumnData::F64(values) => ColumnView::F64(values.as_slice()),
            ColumnData::F32(values) => ColumnView::F32(values.as_slice()),
            ColumnData::I64(values) => ColumnView::I64(values.as_slice()),
            ColumnData::I32(values) => ColumnView::I32(values.as_slice()),
            ColumnData::I16(values) => ColumnView::I16(values.as_slice()),
            ColumnData::I8(values) => ColumnView::I8(values.as_slice()),
            ColumnData::U64(values) => ColumnView::U64(values.as_slice()),
            ColumnData::U32(values) => ColumnView::U32(values.as_slice()),
            ColumnData::U16(values) => ColumnView::U16(values.as_slice()),
            ColumnData::U8(values) => ColumnView::U8(values.as_slice()),
            ColumnData::Bool(values) => ColumnView::Bool(values.as_slice()),
        }
    }
}

impl<'a> ColumnView<'a> {
    /// The values.
    pub open spec fn model(&self) -> ColumnModel {
        match self {
            ColumnView::F64(values) => ColumnModel::F64(values@),
            ColumnView::F32(values) => ColumnModel::F32(values@),
            ColumnView::I64(values) => ColumnModel::I64(values@),
            ColumnView::I32(values) => ColumnModel::I32(values@),
            ColumnView::I16(values) => ColumnModel::I16(values@),
            ColumnView::I8(values) => ColumnModel::I8(values@),
            ColumnView::U64(values) => ColumnModel::U64(values@),
            ColumnView::U32(values) => ColumnModel::U32(values@),
            ColumnView::U16(values) => ColumnModel::U16(values@),
            ColumnView::U8(values) => ColumnModel::U8(values@),
            ColumnView::Bool(values) => ColumnModel::Bool(values@),
        }
    }

    pub fn len(&self) -> (r: usize)
        ensures
            r == self.model().count(),
    {
        match self {
            ColumnView::F64(values) => values.len(),
            ColumnView::F32(values) => values.len(),
            ColumnView::I64(values) => values.len(),
            ColumnView::I32(values) => values.len(),
            ColumnView::I16(values) => values.len(),
            ColumnView::I8(values) => values.len(),
            ColumnView::U64(values) => values.len(),
            ColumnView::U32(values) => values.len(),
            ColumnView::U16(values) => values.len(),
            ColumnView::U8(values) => values.len(),
            ColumnView::Bool(values) => values.len(),
        }
    }

    pub fn is_empty(&self) -> (r: bool)
        ensures
            r == (self.model().count() == 0),
    {
        self.len() == 0
    }

    pub fn scalar(&self) -> (r: ScalarType)
        ensures
            r == self.model().kind(),
    {
        match self {
            ColumnView::F64(_) => ScalarType::F64,
            ColumnView::F32(_) => ScalarType::F32,
            ColumnView::I64(_) => ScalarType::I64,
            ColumnView::I32(_) => ScalarType::I32,
            ColumnView::I16(_) => ScalarType::I16,
            ColumnView::I8(_) => ScalarType::I8,
            ColumnView::U64(_) => ScalarType::U64,
            ColumnView::U32(_) => ScalarType::U32,
            ColumnView::U16(_) => ScalarType::U16,
            ColumnView::U8(_) => ScalarType::U8,
            ColumnView::Bool(_) => ScalarType::Bool,
        }
    }

    pub fn scalar_type(&self) -> (r: ScalarType)
        ensures
            r == self.model().kind(),
    {
        self.scalar()
    }
}

impl ColumnSpec {
    /// The byte width of an extra bytes column, where it is one and has a width.
    pub open spec fn width(self) -> Option<usize> {
        match (self.dimension, self.scalar, self.byte_width) {
            (LasDimension::ExtraBytes, ScalarType::U8, Some(width)) => if width > 0 {
                Some(width)
            } else {
                None
            },
            _ => None,
        }
    }

    /// Whether the column has the type that its dimension has by default.
    pub open spec fn is_default(self) -> bool {
        if self.dimension == LasDimension::ExtraBytes {
            self.scalar == ScalarType::U8 && self.byte_width is Some
        } else {
            self.byte_width is None && scalar_of(self.dimension) == Some(self.scalar)
        }
    }

    /// What [`ColumnSpec::validate_data`] answers for values of a type.
    pub open spec fn data_check(self, kind: ScalarType) -> Result<()> {
        if self.scalar != kind {
            Err(
                Error::InvalidInput(
                    Fault::ColumnScalarMismatch {
                        dimension: self.dimension,
                        declared: self.scalar,
                        found: kind,
                    },
                ),
            )
        } else if self.dimension == LasDimension::ExtraBytes && self.width() is None {
            Err(Error::InvalidInput(Fault::ExtraBytesWidth))
        } else if self.dimension != LasDimension::ExtraBytes && self.byte_width is Some {
            Err(
                Error::InvalidInput(
                    Fault::ByteWidthOnFixed {
                        dimension: self.dimension,
                        width: self.byte_width->Some_0,
                    },
                ),
            )
        } else {
            Ok(())
        }
    }

    /// What [`ColumnSpec::point_count_for_data`] answers for `count` values of a type.
    pub open spec fn points_check(self, kind: ScalarType, count: nat) -> Result<usize> {
        if self.data_check(kind) is Err {
            Err(self.data_check(kind)->Err_0)
        } else if self.dimension == LasDimension::ExtraBytes {
            let width = self.width()->Some_0;
            if count % (width as nat) != 0 {
                Err(
                    Error::InvalidInput(
                        Fault::ExtraBytesNotDivisible { len: count as usize, width },
                    ),
                )
            } else {
                Ok((count / (width as nat)) as usize)
            }
        } else {
            Ok(count as usize)
        }
    }

    pub fn new(dimension: LasDimension, scalar: ScalarType) -> (r: ColumnSpec)
        ensures
            r == (ColumnSpec { dimension, scalar, byte_width: None }),
    {
        ColumnSpec { dimension, scalar, byte_width: None }
    }

    pub fn extra_bytes(byte_width: usize) -> (r: ColumnSpec)
        ensures
            r == extra_spec(byte_width),
    {
        ColumnSpec {
            dimension: LasDimension::ExtraBytes,
            scalar: ScalarType::U8,
            byte_width: Some(byte_width),
        }
    }

    /// The column of a dimension with its default type, where it has one.
    pub fn default_for(dimension: LasDimension) -> (r: Option<ColumnSpec>)
        ensures
            r == match scalar_of(dimension) {
                Some(scalar) => Some(ColumnSpec { dimension, scalar, byte_width: None }),
                None => None,
            },
    {
        match dimension.default_scalar() {
            Some(scalar) => Some(ColumnSpec { dimension, scalar, byte_width: None }),
            None => None,
        }
    }

    pub fn has_default_scalar(self) -> (r: bool)
        ensures
            r == self.is_default(),
    {
        if self.dimension == LasDimension::ExtraBytes {
            self.scalar == ScalarType::U8 && self.byte_width.is_some()
        } else {
            self.byte_width.is_none() && self.dimension.accepts_scalar(self.scalar)
        }
    }

    /// Whether the values have the declared type.
    pub fn matches_data(self, data: &ColumnData) -> (r: bool)
        ensures
            r == (self.scalar == data.model().kind()),
    {
        self.scalar == data.scalar()
    }

    /// Checks the declaration against the values.
    pub fn validate_data(self, data: &ColumnData) -> (r: Result<()>)
        ensures
            r == self.data_check(data.model().kind()),
    {
        if !self.matches_data(data) {
            return Err(
                Error::InvalidInput(
                    Fault::ColumnScalarMismatch {
                        dimension: self.dimension,
                        declared: self.scalar,
                        found: data.scalar(),
                    },
                ),
            );
        }
        if self.dimension == LasDimension::ExtraBytes {
            if self.extra_byte_width().is_none() {
                return Err(Error::InvalidInput(Fault::ExtraBytesWidth));
            }
        } else {
            match self.byte_width {
                Some(width) => {
                    return Err(
                        Error::InvalidInput(
                            Fault::ByteWidthOnFixed { dimension: self.dimension, width },
                        ),
                    );
                },
                None => {},
            }
        }
        Ok(())
    }

    /// Checks that the type is the dimension's default.
    pub fn validate_default_scalar(self) -> (r: Result<()>)
        ensures
            r == self.default_check(),
    {
        if self.has_default_scalar() {
            Ok(())
        } else {
            Err(
                Error::InvalidInput(
                    Fault::NotDefaultScalar { dimension: self.dimension, scalar: self.scalar },
                ),
            )
        }
    }

    /// What [`ColumnSpec::validate_default_scalar`] answers.
    pub open spec fn default_check(self) -> Result<()> {
        if self.is_default() {
            Ok(())
        } else {
            Err(
                Error::InvalidInput(
                    Fault::NotDefaultScalar { dimension: self.dimension, scalar: self.scalar },
                ),
            )
        }
    }

    /// The byte width of an extra bytes column, where it is one and has a width.
    pub fn extra_byte_width(self) -> (r: Option<usize>)
        ensures
            r == self.width(),
    {
        if self.dimension == LasDimension::ExtraBytes && self.scalar == ScalarType::U8 {
            match self.byte_width {
                Some(width) => if width > 0 {
                    Some(width)
                } else {
                    None
                },
                None => None,
            }
        } else {
            None
        }
    }

    /// The number of points that the values stand for.
    pub fn point_count_for_data(self, data: &ColumnData) -> (r: Result<usize>)
        ensures
            r == self.points_check(data.model().kind(), data.model().count()),
    {
        self.validate_data(data)?;
        let len: usize = data.len();
        match self.extra_byte_width() {
            Some(width) => {
                if len % width != 0 {
                    return Err(Error::InvalidInput(Fault::ExtraBytesNotDivisible { len, width }));
                }
                Ok(len / width)
            },
            None => Ok(len),
        }
    }
}

/// The column of extra bytes.
pub open spec fn extra_spec(byte_width: usize) -> ColumnSpec {
    ColumnSpec {
        dimension: LasDimension::ExtraBytes,
        scalar: ScalarType::U8,
        byte_width: Some(byte_width),
    }
}

/// The columns of dimensions with their default types.
pub open spec fn default_specs(dims: Seq<LasDimension>) -> Seq<ColumnSpec> {
    Seq::new(
        dims.len(),
        |i: int|
            ColumnSpec {
                dimension: dims[i],
                scalar: scalar_of(dims[i])->Some_0,
                byte_width: None,
            },
    )
}

/// The dimensions of a point format besides its extra bytes.
pub open spec fn format_dimensions(format: PointFormat) -> Seq<LasDimension> {
    core_dimensions() + (if format.has_gps_time {
        seq![LasDimension::GpsTime]
    } else {
        Seq::empty()
    }) + (if format.has_color {
        seq![LasDimension::Red, LasDimension::Green, LasDimension::Blue]
    } else {
        Seq::empty()
    }) + (if format.has_nir {
        seq![LasDimension::Nir]
    } else {
        Seq::empty()
    }) + (if format.has_waveform {
        seq![
            LasDimension::WaveformPacketDescriptorIndex,
            LasDimension::WaveformPacketByteOffset,
            LasDimension::WaveformPacketSize,
            LasDimension::WavePacketReturnPointWaveformLocation,
        ]
    } else {
        Seq::empty()
    })
}

/// The columns of a point format.
pub open spec fn format_columns(format: PointFormat) -> Seq<ColumnSpec> {
    default_specs(format_dimensions(format)) + (if format.extra_bytes > 0 {
        seq![extra_spec(format.extra_bytes as usize)]
    } else {
        Seq::empty()
    })
}

fn default_column_spec(dimension: LasDimension) -> (r: ColumnSpec)
    requires
        dimension != LasDimension::ExtraBytes,
    ensures
        r == (ColumnSpec {
            dimension,
            scalar: scalar_of(dimension)->Some_0,
            byte_width: None,
        }),
{
    match dimension.default_scalar() {
        Some(scalar) => ColumnSpec { dimension, scalar, byte_width: None },
        None => ColumnSpec { dimension, scalar: ScalarType::U8, byte_width: None },
    }
}

fn push_default_specs(columns: &mut Vec<ColumnSpec>, dims: &[LasDimension])
    requires
        !dims@.contains(LasDimension::ExtraBytes),
    ensures
        final(columns)@ == old(columns)@ + default_specs(dims@),
{
    let mut i: usize = 0;
    while i < dims.len()
        invariant
            i <= dims@.len(),
            !dims@.contains(LasDimension::ExtraBytes),
            columns@ == old(columns)@ + default_specs(dims@.subrange(0, i as int)),
        decreases dims@.len() - i,
    {
        let ghost before = default_specs(dims@.subrange(0, i as int));
        columns.push(default_column_spec(dims[i]));
        proof {
            assert(default_specs(dims@.subrange(0, i + 1)) =~= before.push(
                columns@[columns@.len() - 1],
            ));
        }
        i = i + 1;
    }
    proof {
        assert(dims@.subrange(0, dims@.len() as int) =~= dims@);
    }
}

proof fn lemma_default_specs_concat(a: Seq<LasDimension>, b: Seq<LasDimension>)
    ensures
        default_specs(a + b) == default_specs(a) + default_specs(b),
{
    assert(default_specs(a + b) =~= default_specs(a) + default_specs(b));
}

/// The columns that point records of the format can fill.
pub fn layout_for_las_format(format: PointFormat) -> (r: Vec<ColumnSpec>)
    ensures
        r@ == format_columns(format),
{
    let mut columns: Vec<ColumnSpec> = Vec::new();
    let ghost mut dims = core_dimensions();
    let core = [
        LasDimension::X,
        LasDimension::Y,
        LasDimension::Z,
        LasDimension::Intensity,
        LasDimension::ReturnNumber,
        LasDimension::NumberOfReturns,
        LasDimension::Classification,
        LasDimension::ScanDirectionFlag,
        LasDimension::EdgeOfFlightLine,
        LasDimension::ScanAngle,
        LasDimension::UserData,
        LasDimension::PointSourceId,
        LasDimension::Synthetic,
        LasDimension::KeyPoint,
        LasDimension::Withheld,
        LasDimension::Overlap,
        LasDimension::ScanChannel,
    ];
    proof {
        assert(core@ =~= core_dimensions());
        assert(!core_dimensions().contains(LasDimension::ExtraBytes));
    }
    push_default_specs(&mut columns, core.as_slice());
    proof {
        assert(columns@ =~= default_specs(dims));
    }
    if format.has_gps_time {
        let more = [LasDimension::GpsTime];
        push_default_specs(&mut columns, more.as_slice());
        proof {
            assert(more@ =~= seq![LasDimension::GpsTime]);
            lemma_default_specs_concat(dims, more@);
            dims = dims + more@;
        }
    }
    let ghost with_gps = dims;
    proof {
        assert(with_gps =~= core_dimensions() + (if format.has_gps_time {
            seq![LasDimension::GpsTime]
        } else {
            Seq::empty()
        }));
    }
    if format.has_color {
        let more = [LasDimension::Red, LasDimension::Green, LasDimension::Blue];
        push_default_specs(&mut columns, more.as_slice());
        proof {
            assert(more@ =~= seq![LasDimension::Red, LasDimension::Green, LasDimension::Blue]);
            lemma_default_specs_concat(dims, more@);
            dims = dims + more@;
        }
    }
    let ghost with_color = dims;
    proof {
        assert(with_color =~= with_gps + (if format.has_color {
            seq![LasDimension::Red, LasDimension::Green, LasDimension::Blue]
        } else {
            Seq::empty()
        }));
    }
    if format.has_nir {
        let more = [LasDimension::Nir];
        push_default_specs(&mut columns, more.as_slice());
        proof {
            assert(more@ =~= seq![LasDimension::Nir]);
            lemma_default_specs_concat(dims, more@);
            dims = dims + more@;
        }
    }
    let ghost with_nir = dims;
    proof {
        assert(with_nir =~= with_color + (if format.has_nir {
            seq![LasDimension::Nir]
        } else {
            Seq::empty()
        }));
    }
    if format.has_waveform {
        let more = [
            LasDimension::WaveformPacketDescriptorIndex,
            LasDimension::WaveformPacketByteOffset,
            LasDimension::WaveformPacketSize,
            LasDimension::WavePacketReturnPointWaveformLocation,
        ];
        push_default_specs(&mut columns, more.as_slice());
        proof {
            assert(more@ =~= seq![
                LasDimension::WaveformPacketDescriptorIndex,
                LasDimension::WaveformPacketByteOffset,
                LasDimension::WaveformPacketSize,
                LasDimension::WavePacketReturnPointWaveformLocation,
            ]);
            lemma_default_specs_concat(dims, more@);
            dims = dims + more@;
        }
    }
    proof {
        assert(dims =~= format_dimensions(format));
        assert(columns@ =~= default_specs(dims));
    }
    if format.extra_bytes > 0 {
        columns.push(ColumnSpec::extra_bytes(format.extra_bytes as usize));
    }
    proof {
        assert(columns@ =~= format_columns(format));
    }
    columns
}

/// Points as columns of equal length.
#[derive(Clone, Debug, PartialEq)]
pub struct LasColumnBatch {
    pub len: usize,
    pub columns: Vec<(ColumnSpec, ColumnData)>,
}

/// Whether one of the first `n` columns has the dimension.
pub open spec fn has_column(
    columns: Seq<(ColumnSpec, ColumnData)>,
    n: int,
    dimension: LasDimension,
) -> bool {
    exists|i: int| 0 <= i < n && (#[trigger] columns[i]).0.dimension == dimension
}

/// What is wrong with the first `n` columns of a batch of `len` points.
pub open spec fn columns_check(
    columns: Seq<(ColumnSpec, ColumnData)>,
    n: nat,
    len: usize,
) -> Result<()>
    decreases n,
{
    if n == 0 {
        Ok(())
    } else if columns_check(columns, (n - 1) as nat, len) is Err {
        columns_check(columns, (n - 1) as nat, len)
    } else {
        let (spec, data) = columns[n - 1];
        if has_column(columns, n - 1, spec.dimension) {
            Err(Error::InvalidInput(Fault::DuplicateColumn { dimension: spec.dimension }))
        } else {
            match spec.points_check(data.model().kind(), data.model().count()) {
                Err(error) => Err(error),
                Ok(points) => if points != len {
                    Err(
                        Error::InvalidInput(
                            Fault::ColumnLength { dimension: spec.dimension, points, len },
                        ),
                    )
                } else {
                    Ok(())
                },
            }
        }
    }
}

/// What is wrong with the types of the first `n` columns.
pub open spec fn defaults_check(columns: Seq<(ColumnSpec, ColumnData)>, n: nat) -> Result<()>
    decreases n,
{
    if n == 0 {
        Ok(())
    } else if defaults_check(columns, (n - 1) as nat) is Err {
        defaults_check(columns, (n - 1) as nat)
    } else {
        columns[n - 1].0.default_check()
    }
}

proof fn lemma_columns_check_error(
    columns: Seq<(ColumnSpec, ColumnData)>,
    n: nat,
    m: nat,
    len: usize,
)
    requires
        n <= m,
        columns_check(columns, n, len) is Err,
    ensures
        columns_check(columns, m, len) == columns_check(columns, n, len),
    decreases m,
{
    if n < m {
        lemma_columns_check_error(columns, n, (m - 1) as nat, len);
    }
}

proof fn lemma_defaults_check_error(columns: Seq<(ColumnSpec, ColumnData)>, n: nat, m: nat)
    requires
        n <= m,
        defaults_check(columns, n) is Err,
    ensures
        defaults_check(columns, m) == defaults_check(columns, n),
    decreases m,
{
    if n < m {
        lemma_defaults_check_error(columns, n, (m - 1) as nat);
    }
}

/// What [`LasColumnBatch::new`] answers on the columns, apart from the batch itself.
pub open spec fn new_check(columns: Seq<(ColumnSpec, ColumnData)>) -> Result<usize> {
    if columns.len() == 0 {
        Ok(0)
    } else {
        let (spec, data) = columns[0];
        match spec.points_check(data.model().kind(), data.model().count()) {
            Err(error) => Err(error),
            Ok(len) => match columns_check(columns, columns.len(), len) {
                Err(error) => Err(error),
                Ok(_) => Ok(len),
            },
        }
    }
}

impl LasColumnBatch {
    /// Whether all columns are consistent with the length and with each other.
    pub open spec fn check(&self) -> Result<()> {
        columns_check(self.columns@, self.columns@.len(), self.len)
    }

    /// A batch of the columns, with the length of the first.
    pub fn new(columns: Vec<(ColumnSpec, ColumnData)>) -> (r: Result<LasColumnBatch>)
        ensures
            match r {
                Ok(batch) => {
                    &&& batch.columns == columns
                    &&& new_check(columns@) == Ok::<usize, Error>(batch.len)
                    &&& batch.check() is Ok
                },
                Err(error) => new_check(columns@) == Err::<usize, Error>(error),
            },
    {
        let len: usize = if columns.len() == 0 {
            0
        } else {
            columns[0].0.point_count_for_data(&columns[0].1)?
        };
        let batch = LasColumnBatch { len, columns };
        batch.validate()?;
        Ok(batch)
    }

    pub fn len(&self) -> (r: usize)
        ensures
            r == self.len,
    {
        self.len
    }

    pub fn is_empty(&self) -> (r: bool)
        ensures
            r == (self.len == 0),
    {
        self.len == 0
    }

    /// The values of the first column of the dimension.
    pub fn column(&self, dimension: LasDimension) -> (r: Option<&ColumnData>)
        ensures
            match r {
                Some(data) => exists|i: int|
                    {
                        &&& 0 <= i < self.columns@.len()
                        &&& (#[trigger] self.columns@[i]).0.dimension == dimension
                        &&& self.columns@[i].1 == *data
                        &&& !has_column(self.columns@, i, dimension)
                    },
                None => !has_column(self.columns@, self.columns@.len() as int, dimension),
            },
    {
        let mut i: usize = 0;
        while i < self.columns.len()
            invariant
                i <= self.columns@.len(),
                !has_column(self.columns@, i as int, dimension),
            decreases self.columns@.len() - i,
        {
            let column = &self.columns[i];
            if column.0.dimension == dimension {
                proof {
                    assert(self.columns@[i as int].0.dimension == dimension);
                }
                return Some(&column.1);
            }
            i = i + 1;
        }
        None
    }

    /// The values of the first column with exactly this declaration.
    pub fn column_by_spec(&self, spec: ColumnSpec) -> (r: Option<&ColumnData>)
        ensures
            match r {
                Some(data) => exists|i: int|
                    {
                        &&& 0 <= i < self.columns@.len()
                        &&& (#[trigger] self.columns@[i]).0 == spec
                        &&& self.columns@[i].1 == *data
                        &&& forall|j: int| 0 <= j < i ==> (#[trigger] self.columns@[j]).0 != spec
                    },
                None => forall|j: int|
                    0 <= j < self.columns@.len() ==> (#[trigger] self.columns@[j]).0 != spec,
            },
    {
        let mut i: usize = 0;
        while i < self.columns.len()
            invariant
                i <= self.columns@.len(),
                forall|j: int| 0 <= j < i ==> (#[trigger] self.columns@[j]).0 != spec,
            decreases self.columns@.len() - i,
        {
            let column = &self.columns[i];
            if column.0 == spec {
                proof {
                    assert(self.columns@[i as int].0 == spec);
                }
                return Some(&column.1);
            }
            i = i + 1;
        }
        None
    }

    pub fn column_view(&self, dimension: LasDimension) -> (r: Option<ColumnView<'_>>)
        ensures
            match r {
                Some(values) => exists|i: int|
                    {
                        &&& 0 <= i < self.columns@.len()
                        &&& (#[trigger] self.columns@[i]).0.dimension == dimension
                        &&& self.columns@[i].1.model() == values.model()
                        &&& !has_column(self.columns@, i, dimension)
                    },
                None => !has_column(self.columns@, self.columns@.len() as int, dimension),
            },
    {
        match self.column(dimension) {
            Some(data) => Some(data.view()),
            None => None,
        }
    }

    pub fn column_view_by_spec(&self, spec: ColumnSpec) -> (r: Option<ColumnView<'_>>)
        ensures
            match r {
                Some(values) => exists|i: int|
                    {
                        &&& 0 <= i < self.columns@.len()
                        &&& (#[trigger] self.columns@[i]).0 == spec
                        &&& self.columns@[i].1.model() == values.model()
                        &&& forall|j: int| 0 <= j < i ==> (#[trigger] self.columns@[j]).0 != spec
                    },
                None => forall|j: int|
                    0 <= j < self.columns@.len() ==> (#[trigger] self.columns@[j]).0 != spec,
            },
    {
        match self.column_by_spec(spec) {
            Some(data) => Some(data.view()),
            None => None,
        }
    }

    fn earlier_column(&self, n: usize, dimension: LasDimension) -> (r: bool)
        requires
            n <= self.columns@.len(),
        ensures
            r == has_column(self.columns@, n as int, dimension),
    {
        let mut i: usize = 0;
        while i < n
            invariant
                i <= n <= self.columns@.len(),
                !has_column(self.columns@, i as int, dimension),
            decreases n - i,
        {
            let column = &self.columns[i];
            if column.0.dimension == dimension {
                proof {
                    assert(self.columns@[i as int].0.dimension == dimension);
                }
                return true;
            }
            i = i + 1;
        }
        false
    }

    /// Checks that no dimension occurs twice, and each column's type and length.
    pub fn validate(&self) -> (r: Result<()>)
        ensures
            r == self.check(),
    {
        let mut i: usize = 0;
        while i < self.columns.len()
            invariant
                i <= self.columns@.len(),
                columns_check(self.columns@, i as nat, self.len) is Ok,
            decreases self.columns@.len() - i,
        {
            let column = &self.columns[i];
            let dimension = column.0.dimension;
            let ghost next = (i + 1) as nat;
            let ghost count = self.columns@.len();
            if self.earlier_column(i, dimension) {
                proof {
                    lemma_columns_check_error(self.columns@, next, count, self.len);
                }
                return Err(Error::InvalidInput(Fault::DuplicateColumn { dimension }));
            }
            match column.0.point_count_for_data(&column.1) {
                Ok(points) => {
                    if points != self.len {
                        proof {
                            lemma_columns_check_error(self.columns@, next, count, self.len);
                        }
                        return Err(
                            Error::InvalidInput(
                                Fault::ColumnLength { dimension, points, len: self.len },
                            ),
                        );
                    }
                },
                Err(error) => {
                    proof {
                        lemma_columns_check_error(self.columns@, next, count, self.len);
                    }
                    return Err(error);
                },
            }
            i = i + 1;
        }
        Ok(())
    }

    /// Checks the batch, and that every column has its dimension's default type.
    pub fn validate_default_scalars(&self) -> (r: Result<()>)
        ensures
            r == (if self.check() is Err {
                self.check()
            } else {
                defaults_check(self.columns@, self.columns@.len())
            }),
    {
        self.validate()?;
        let mut i: usize = 0;
        while i < self.columns.len()
            invariant
                i <= self.columns@.len(),
                self.check() is Ok,
                defaults_check(self.columns@, i as nat) is Ok,
            decreases self.columns@.len() - i,
        {
            match self.columns[i].0.validate_default_scalar() {
                Ok(_) => {},
                Err(error) => {
                    proof {
                        lemma_defaults_check_error(
                            self.columns@,
                            (i + 1) as nat,
                            self.columns@.len(),
                        );
                    }
                    return Err(error);
                },
            }
            i = i + 1;
        }
        Ok(())
    }
}

/// A batch is accepted exactly where no dimension occurs twice and every column has the
/// batch's number of points.
pub proof fn law_columns_check(columns: Seq<(ColumnSpec, ColumnData)>, n: nat, len: usize)
    requires
        n <= columns.len(),
    ensures
        columns_check(columns, n, len) is Ok <==> {
            &&& forall|i: int, j: int|
                0 <= i < j < n ==> (#[trigger] columns[i]).0.dimension != (
                #[trigger] columns[j]).0.dimension
            &&& forall|i: int|
                0 <= i < n ==> (#[trigger] columns[i]).0.points_check(
                    columns[i].1.model().kind(),
                    columns[i].1.model().count(),
                ) == Ok::<usize, Error>(len)
        },
    decreases n,
{
    if n > 0 {
        law_columns_check(columns, (n - 1) as nat, len);
        if columns_check(columns, n, len) is Ok {
            assert forall|i: int, j: int| 0 <= i < j < n implies (#[trigger] columns[i]).0.dimension
                != (#[trigger] columns[j]).0.dimension by {
                if j == n - 1 {
                    assert(!has_column(columns, n - 1, columns[j].0.dimension));
                }
            }
        } else if columns_check(columns, (n - 1) as nat, len) is Ok {
            let last = columns[n - 1];
            if has_column(columns, n - 1, last.0.dimension) {
                let i = choose|i: int|
                    0 <= i < n - 1 && (#[trigger] columns[i]).0.dimension == last.0.dimension;
                assert(columns[i].0.dimension == columns[n - 1].0.dimension);
            }
        }
    }
}

/// A selection of all has every dimension; the others have what their names say.
pub proof fn law_all_dimensions(dimension: LasDimension)
    ensures
        all_dimensions().contains(dimension),
        all_dimensions().no_duplicates(),
        all_dimensions().len() == 27,
{
    let all = all_dimensions();
    assert(all[0] == LasDimension::X && all[1] == LasDimension::Y && all[2] == LasDimension::Z);
    assert(all[3] == LasDimension::Intensity && all[4] == LasDimension::ReturnNumber);
    assert(all[5] == LasDimension::NumberOfReturns && all[6] == LasDimension::Classification);
    assert(all[7] == LasDimension::ScanDirectionFlag);
    assert(all[8] == LasDimension::EdgeOfFlightLine && all[9] == LasDimension::ScanAngle);
    assert(all[10] == LasDimension::UserData && all[11] == LasDimension::PointSourceId);
    assert(all[12] == LasDimension::Synthetic && all[13] == LasDimension::KeyPoint);
    assert(all[14] == LasDimension::Withheld && all[15] == LasDimension::Overlap);
    assert(all[16] == LasDimension::ScanChannel && all[17] == LasDimension::GpsTime);
    assert(all[18] == LasDimension::Red && all[19] == LasDimension::Green);
    assert(all[20] == LasDimension::Blue && all[21] == LasDimension::Nir);
    assert(all[22] == LasDimension::WaveformPacketDescriptorIndex);
    assert(all[23] == LasDimension::WaveformPacketByteOffset);
    assert(all[24] == LasDimension::WaveformPacketSize);
    assert(all[25] == LasDimension::WavePacketReturnPointWaveformLocation);
    assert(all[26] == LasDimension::ExtraBytes);
}

/// Whether records of the format have the field.
pub open spec fn in_format(format: PointFormat, dimension: LasDimension) -> bool {
    match dimension {
        LasDimension::GpsTime => format.has_gps_time,
        LasDimension::Red => format.has_color,
        LasDimension::Green => format.has_color,
        LasDimension::Blue => format.has_color,
        LasDimension::Nir => format.has_nir,
        LasDimension::WaveformPacketDescriptorIndex => format.has_waveform,
        LasDimension::WaveformPacketByteOffset => format.has_waveform,
        LasDimension::WaveformPacketSize => format.has_waveform,
        LasDimension::WavePacketReturnPointWaveformLocation => format.has_waveform,
        LasDimension::ExtraBytes => format.extra_bytes > 0,
        _ => true,
    }
}

proof fn lemma_joined_dimensions(
    a: Seq<LasDimension>,
    b: Seq<LasDimension>,
    dimension: LasDimension,
)
    ensures
        (a + b).contains(dimension) <==> a.contains(dimension) || b.contains(dimension),
{
    let both = a + b;
    if a.contains(dimension) {
        let i = choose|i: int| 0 <= i < a.len() && a[i] == dimension;
        assert(both[i] == dimension);
    }
    if b.contains(dimension) {
        let i = choose|i: int| 0 <= i < b.len() && b[i] == dimension;
        assert(both[a.len() + i] == dimension);
    }
}

/// The fields that every format has are those that none lacks.
proof fn lemma_core_dimensions(dimension: LasDimension)
    ensures
        core_dimensions().contains(dimension) <==> match dimension {
            LasDimension::GpsTime => false,
            LasDimension::Red => false,
            LasDimension::Green => false,
            LasDimension::Blue => false,
            LasDimension::Nir => false,
            LasDimension::WaveformPacketDescriptorIndex => false,
            LasDimension::WaveformPacketByteOffset => false,
            LasDimension::WaveformPacketSize => false,
            LasDimension::WavePacketReturnPointWaveformLocation => false,
            LasDimension::ExtraBytes => false,
            _ => true,
        },
{
    let core = core_dimensions();
    assert(core[0] == LasDimension::X && core[1] == LasDimension::Y && core[2] == LasDimension::Z);
    assert(core[3] == LasDimension::Intensity && core[4] == LasDimension::ReturnNumber);
    assert(core[5] == LasDimension::NumberOfReturns && core[6] == LasDimension::Classification);
    assert(core[7] == LasDimension::ScanDirectionFlag);
    assert(core[8] == LasDimension::EdgeOfFlightLine && core[9] == LasDimension::ScanAngle);
    assert(core[10] == LasDimension::UserData && core[11] == LasDimension::PointSourceId);
    assert(core[12] == LasDimension::Synthetic && core[13] == LasDimension::KeyPoint);
    assert(core[14] == LasDimension::Withheld && core[15] == LasDimension::Overlap);
    assert(core[16] == LasDimension::ScanChannel);
}

proof fn lemma_format_dimensions(format: PointFormat, dimension: LasDimension)
    ensures
        format_dimensions(format).contains(dimension) <==> dimension != LasDimension::ExtraBytes
            && in_format(format, dimension),
{
    let core = core_dimensions();
    let none = Seq::<LasDimension>::empty();
    let gps = if format.has_gps_time {
        seq![LasDimension::GpsTime]
    } else {
        none
    };
    let color = if format.has_color {
        seq![LasDimension::Red, LasDimension::Green, LasDimension::Blue]
    } else {
        none
    };
    let nir = if format.has_nir {
        seq![LasDimension::Nir]
    } else {
        none
    };
    let wave = if format.has_waveform {
        seq![
            LasDimension::WaveformPacketDescriptorIndex,
            LasDimension::WaveformPacketByteOffset,
            LasDimension::WaveformPacketSize,
            LasDimension::WavePacketReturnPointWaveformLocation,
        ]
    } else {
        none
    };
    lemma_core_dimensions(dimension);
    lemma_joined_dimensions(core, gps, dimension);
    lemma_joined_dimensions(core + gps, color, dimension);
    lemma_joined_dimensions(core + gps + color, nir, dimension);
    lemma_joined_dimensions(core + gps + color + nir, wave, dimension);
    if format.has_gps_time {
        assert(gps[0] == LasDimension::GpsTime);
    }
    if format.has_color {
        assert(color[0] == LasDimension::Red && color[1] == LasDimension::Green && color[2]
            == LasDimension::Blue);
    }
    if format.has_nir {
        assert(nir[0] == LasDimension::Nir);
    }
    if format.has_waveform {
        assert(wave[0] == LasDimension::WaveformPacketDescriptorIndex);
        assert(wave[1] == LasDimension::WaveformPacketByteOffset);
        assert(wave[2] == LasDimension::WaveformPacketSize);
        assert(wave[3] == LasDimension::WavePacketReturnPointWaveformLocation);
    }
}

/// The columns of a format are those of the fields that its records have.
pub proof fn law_dimensions_of_a_format(format: PointFormat, dimension: LasDimension)
    ensures
        has_spec(format_columns(format), dimension) <==> in_format(format, dimension),
{
    let dims = format_dimensions(format);
    let specs = format_columns(format);
    lemma_format_dimensions(format, dimension);
    if dims.contains(dimension) {
        let i = choose|i: int| 0 <= i < dims.len() && dims[i] == dimension;
        assert(specs[i].dimension == dimension);
    }
    if format.extra_bytes > 0 {
        assert(specs[dims.len() as int].dimension == LasDimension::ExtraBytes);
    }
    if has_spec(specs, dimension) {
        let i = choose|i: int| 0 <= i < specs.len() && (#[trigger] specs[i]).dimension == dimension;
        if i < dims.len() {
            assert(specs[i].dimension == dims[i]);
            assert(dims.contains(dimension));
        }
    }
}

/// A column of a format has the default type of its dimension, and the one of the extra bytes
/// has their width.
pub proof fn law_types_of_a_format(format: PointFormat, i: int)
    requires
        0 <= i < format_columns(format).len(),
    ensures
        ({
            let spec = format_columns(format)[i];
            if spec.dimension == LasDimension::ExtraBytes {
                spec.byte_width == Some(format.extra_bytes as usize) && spec.scalar
                    == ScalarType::U8
            } else {
                spec.byte_width is None && Some(spec.scalar) == scalar_of(spec.dimension)
            }
        }),
{
    let dims = format_dimensions(format);
    if i < dims.len() {
        lemma_format_dimensions(format, dims[i]);
        assert(dims.contains(dims[i]));
        assert(format_columns(format)[i].dimension == dims[i]);
    }
}

/// Whether one of the columns has the dimension.
pub open spec fn has_spec(specs: Seq<ColumnSpec>, dimension: LasDimension) -> bool {
    exists|i: int| 0 <= i < specs.len() && (#[trigger] specs[i]).dimension == dimension
}

/// The values of a column are for so many points just where they have the column's type and
/// there are so many of them; of extra bytes, so many times the width.
pub proof fn law_points_of_a_column(
    spec: ColumnSpec,
    kind: ScalarType,
    count: nat,
    points: usize,
)
    requires
        count <= usize::MAX,
    ensures
        spec.points_check(kind, count) == Ok::<usize, Error>(points) <==> {
            &&& kind == spec.scalar
            &&& if spec.dimension == LasDimension::ExtraBytes {
                &&& kind == ScalarType::U8
                &&& spec.byte_width is Some && spec.byte_width->Some_0 > 0
                &&& count == points * spec.byte_width->Some_0
            } else {
                spec.byte_width is None && count == points
            }
        },
{
    if spec.dimension == LasDimension::ExtraBytes && spec.width() is Some {
        let width = spec.width()->Some_0 as int;
        vstd::arithmetic::div_mod::lemma_fundamental_div_mod(count as int, width);
        vstd::arithmetic::mul::lemma_mul_is_commutative(count as int / width, width);
        vstd::arithmetic::div_mod::lemma_div_is_ordered_by_denominator(count as int, 1, width);
        vstd::arithmetic::div_mod::lemma_div_basics(count as int);
        if count == points * width {
            vstd::arithmetic::div_mod::lemma_fundamental_div_mod_converse(
                count as int,
                width,
                points as int,
                0,
            );
        }
    }
}

/// A column has its default type just where it is the dimension's, or bytes of a stated width.
pub proof fn law_default_column(spec: ColumnSpec)
    ensures
        spec.default_check() is Ok <==> match scalar_of(spec.dimension) {
            Some(scalar) => spec == (ColumnSpec {
                dimension: spec.dimension,
                scalar,
                byte_width: None,
            }),
            None => spec.scalar == ScalarType::U8 && spec.byte_width is Some,
        },
{
}

/// The types of a batch's columns pass just where each does.
pub proof fn law_defaults_check(columns: Seq<(ColumnSpec, ColumnData)>, n: nat)
    requires
        n <= columns.len(),
    ensures
        defaults_check(columns, n) is Ok <==> forall|i: int|
            0 <= i < n ==> (#[trigger] columns[i]).0.default_check() is Ok,
    decreases n,
{
    if n > 0 {
        law_defaults_check(columns, (n - 1) as nat);
    }
}

/// A new batch has as many points as each of its columns, and none where it has no column.
pub proof fn law_new_batch(columns: Seq<(ColumnSpec, ColumnData)>, i: int)
    requires
        new_check(columns) is Ok,
    ensures
        columns.len() == 0 ==> new_check(columns)->Ok_0 == 0,
        0 <= i < columns.len() && columns[i].1.model().count() <= usize::MAX ==> {
            let spec = columns[i].0;
            let len = new_check(columns)->Ok_0;
            &&& spec.scalar == columns[i].1.model().kind()
            &&& columns[i].1.model().count() == if spec.dimension == LasDimension::ExtraBytes {
                len * spec.byte_width->Some_0
            } else {
                len as int
            }
        },
{
    if 0 <= i < columns.len() {
        let len = new_check(columns)->Ok_0;
        law_columns_check(columns, columns.len(), len);
        let model = columns[i].1.model();
        assert(columns[i].0.points_check(model.kind(), model.count()) == Ok::<usize, Error>(len));
        if model.count() <= usize::MAX {
            law_points_of_a_column(columns[i].0, model.kind(), model.count(), len);
        }
    }
}

/// A column's number of values and their type are those of its vector.
pub proof fn law_column_models(data: ColumnData)
    ensures
        match data {
            ColumnData::F64(v) => data.model().count() == v@.len() && data.model().kind()
                == ScalarType::F64,
            ColumnData::F32(v) => data.model().count() == v@.len() && data.model().kind()
                == ScalarType::F32,
            ColumnData::I64(v) => data.model().count() == v@.len() && data.model().kind()
                == ScalarType::I64,
            ColumnData::I32(v) => data.model().count() == v@.len() && data.model().kind()
                == ScalarType::I32,
            ColumnData::I16(v) => data.model().count() == v@.len() && data.model().kind()
                == ScalarType::I16,
            ColumnData::I8(v) => data.model().count() == v@.len() && data.model().kind()
                == ScalarType::I8,
            ColumnData::U64(v) => data.model().count() == v@.len() && data.model().kind()
                == ScalarType::U64,
            ColumnData::U32(v) => data.model().count() == v@.len() && data.model().kind()
                == ScalarType::U32,
            ColumnData::U16(v) => data.model().count() == v@.len() && data.model().kind()
                == ScalarType::U16,
            ColumnData::U8(v) => data.model().count() == v@.len() && data.model().kind()
                == ScalarType::U8,
            ColumnData::Bool(v) => data.model().count() == v@.len() && data.model().kind()
                == ScalarType::Bool,
        },
{
}

/// The values of a column are refused for what is wrong with them, by the column's dimension.
pub proof fn law_why_values_are_refused(spec: ColumnSpec, kind: ScalarType, count: nat)
    requires
        spec.points_check(kind, count) is Err,
        count <= usize::MAX,
    ensures
        match spec.points_check(kind, count)->Err_0 {
            Error::InvalidInput(
                Fault::ColumnScalarMismatch { dimension, declared, found },
            ) => dimension == spec.dimension && declared == spec.scalar && found == kind && declared
                != found,
            Error::InvalidInput(Fault::ExtraBytesWidth) => spec.dimension
                == LasDimension::ExtraBytes && !(spec.scalar == ScalarType::U8 && spec.byte_width
                is Some && spec.byte_width->Some_0 > 0),
            Error::InvalidInput(Fault::ByteWidthOnFixed { dimension, width }) => dimension
                == spec.dimension && dimension != LasDimension::ExtraBytes && spec.byte_width
                == Some(width),
            Error::InvalidInput(Fault::ExtraBytesNotDivisible { len, width }) => len == count
                && spec.byte_width == Some(width) && len as int % width as int != 0,
            _ => false,
        },
{
}

/// A batch is refused for a column that is there twice, that has another number of points, or
/// whose values are refused.
pub proof fn law_why_a_batch_is_refused(
    columns: Seq<(ColumnSpec, ColumnData)>,
    n: nat,
    len: usize,
)
    requires
        n <= columns.len(),
        columns_check(columns, n, len) is Err,
    ensures
        exists|i: int|
            {
                let (spec, data) = #[trigger] columns[i];
                let points = spec.points_check(data.model().kind(), data.model().count());
                &&& 0 <= i < n
                &&& match columns_check(columns, n, len)->Err_0 {
                    Error::InvalidInput(Fault::DuplicateColumn { dimension }) => dimension
                        == spec.dimension && has_column(columns, i, dimension),
                    Error::InvalidInput(Fault::ColumnLength { dimension, points: own, len: all },
                    ) => dimension == spec.dimension && points == Ok::<usize, Error>(own) && own
                        != len && all == len,
                    error => points == Err::<usize, Error>(error),
                }
            },
    decreases n,
{
    if columns_check(columns, (n - 1) as nat, len) is Err {
        law_why_a_batch_is_refused(columns, (n - 1) as nat, len);
        let i = choose|i: int|
            {
                let (spec, data) = #[trigger] columns[i];
                let points = spec.points_check(data.model().kind(), data.model().count());
                &&& 0 <= i < n - 1
                &&& match columns_check(columns, (n - 1) as nat, len)->Err_0 {
                    Error::InvalidInput(Fault::DuplicateColumn { dimension }) => dimension
                        == spec.dimension && has_column(columns, i, dimension),
                    Error::InvalidInput(Fault::ColumnLength { dimension, points: own, len: all },
                    ) => dimension == spec.dimension && points == Ok::<usize, Error>(own) && own
                        != len && all == len,
                    error => points == Err::<usize, Error>(error),
                }
            };
        assert(0 <= i < n);
    } else {
        let i = n - 1;
        let (spec, data) = columns[i];
        let points = spec.points_check(data.model().kind(), data.model().count());
        assert(0 <= i < n);
    }
}

/// Dimensions keep the order in which they come first: what comes later only goes behind.
pub proof fn law_first_come(a: Seq<LasDimension>, b: Seq<LasDimension>)
    ensures
        distinct(a).is_prefix_of(distinct(a + b)),
    decreases b.len(),
{
    if b.len() == 0 {
        assert(a + b =~= a);
    } else {
        law_first_come(a, b.drop_last());
        assert((a + b).drop_last() =~= a + b.drop_last());
    }
}

} // verus!
