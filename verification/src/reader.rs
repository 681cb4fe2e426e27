//! Reading points of an opened file: chunks, their records, and the walk over them.

use vstd::prelude::*;

use crate::bounds::Bounds;
use crate::cancel::{CancelCheck, CANCEL_POLL_STRIDE};
use crate::columns::{ColumnData, ColumnModel, ColumnSpec};
use crate::decode;
use crate::decode::{append_chunk, ExtendedPointLayout, ScaledPoint};
use crate::error::{Error, Fault, Result};
use crate::file;
use crate::file::{CopcFile, CopcModel};
use crate::hierarchy::Entry;
use crate::info::CopcInfo;
use crate::las_header::LasHeader;
use crate::laszip;
use crate::laszip::{decode_chunk, laszip_record_size};
use crate::point_format::PointFormat;
use crate::query;
use crate::query::total_candidate_points;
use crate::range_read;
use crate::range_read::{fetch, RangeRead};

verus! {

/// The point count and the byte size of a chunk, where neither is negative.
pub open spec fn chunk_sizes(entry: Entry) -> Result<(usize, usize)> {
    if entry.point_count < 0 {
        Err(
            Error::InvalidData(
                Fault::NegativePointCount { key: entry.key, point_count: entry.point_count },
            ),
        )
    } else if entry.byte_size < 0 {
        Err(
            Error::InvalidData(
                Fault::ChunkByteSize { key: entry.key, byte_size: entry.byte_size },
            ),
        )
    } else {
        Ok((entry.point_count as usize, entry.byte_size as usize))
    }
}

/// The point count and the byte size of a chunk.
pub fn checked_chunk_sizes(entry: Entry) -> (r: Result<(usize, usize)>)
    ensures
        r == chunk_sizes(entry),
{
    if entry.point_count < 0 {
        return Err(
            Error::InvalidData(
                Fault::NegativePointCount { key: entry.key, point_count: entry.point_count },
            ),
        );
    }
    if entry.byte_size < 0 {
        return Err(
            Error::InvalidData(
                Fault::ChunkByteSize { key: entry.key, byte_size: entry.byte_size },
            ),
        );
    }
    Ok((entry.point_count as usize, entry.byte_size as usize))
}

/// Reads the compressed bytes of a chunk, and says how many points it holds.
pub fn read_chunk_bytes<S: RangeRead>(source: &mut S, entry: Entry) -> (r: Result<
    (Vec<u8>, usize),
>)
    ensures
        range_read::steady(*old(source), *final(source)),
        match chunk_sizes(entry) {
            Err(error) => match r {
                Err(e) => e == error,
                Ok(_) => false,
            },
            Ok((points, size)) => match r {
                Ok((chunk, count)) => {
                    &&& count == points
                    &&& entry.offset + size <= old(source).content().len()
                    &&& chunk@ == old(source).content().subrange(
                        entry.offset as int,
                        entry.offset + size,
                    )
                },
                Err(_) => final(source).failed() || entry.offset + size > old(
                    source,
                ).content().len(),
            },
        },
{
    let (count, size) = checked_chunk_sizes(entry)?;
    let chunk = fetch(source, entry.offset, size)?;
    Ok((chunk, count))
}

/// What [`ChunkColumnDecoder::new`] answers about the record size.
pub open spec fn size_check(payload: Seq<u8>, format: PointFormat) -> Result<usize> {
    let expected = (format.record_len() % 0x1_0000) as usize;
    match laszip::record_size_of(payload) {
        Err(error) => Err(error),
        Ok(size) => if size != expected {
            Err(
                Error::InvalidData(
                    Fault::RecordSize { item_size: size, record_length: expected },
                ),
            )
        } else {
            Ok(size)
        },
    }
}

/// The record size, which the LASzip payload and the point format must agree on.
pub fn validated_record_size(payload: &[u8], format: &PointFormat) -> (r: Result<usize>)
    ensures
        r == size_check(payload@, *format),
{
    let size: usize = laszip_record_size(payload)?;
    let expected: usize = format.len() as usize;
    if size != expected {
        return Err(
            Error::InvalidData(Fault::RecordSize { item_size: size, record_length: expected }),
        );
    }
    Ok(size)
}

/// Turns chunks into columns.
pub struct ChunkColumnDecoder<'a> {
    payload: &'a [u8],
    layout: ExtendedPointLayout,
    bounds: Option<Bounds>,
    record_size: usize,
}

impl<'a> ChunkColumnDecoder<'a> {
    pub closed spec fn payload(&self) -> Seq<u8> {
        self.payload@
    }

    pub closed spec fn layout(&self) -> ExtendedPointLayout {
        self.layout
    }

    pub closed spec fn bounds(&self) -> Option<Bounds> {
        self.bounds
    }

    pub closed spec fn size(&self) -> usize {
        self.record_size
    }

    /// The record size is that of the payload, and the fields lie in the record.
    pub open spec fn wf(&self) -> bool {
        &&& laszip::record_size_of(self.payload()) == Ok::<usize, Error>(self.size())
        &&& self.layout().fits(self.size() as nat)
    }

    /// A decoder for the records of a format. Points outside of `bounds` are left out.
    pub fn new(payload: &'a [u8], format: &PointFormat, bounds: Option<Bounds>) -> (r: Result<
        ChunkColumnDecoder<'a>,
    >)
        requires
            format.has_gps_time,
            format.record_len() < 0x1_0000,
        ensures
            match decode::layout_of(*format) {
                Err(error) => match r {
                    Err(e) => e == error,
                    Ok(_) => false,
                },
                Ok(layout) => match r {
                    Ok(decoder) => {
                        &&& decoder.wf()
                        &&& decoder.payload() == payload@
                        &&& decoder.layout() == layout
                        &&& decoder.bounds() == bounds
                        &&& size_check(payload@, *format) == Ok::<usize, Error>(decoder.size())
                    },
                    Err(e) => size_check(payload@, *format) == Err::<usize, Error>(e),
                },
            },
    {
        let layout = ExtendedPointLayout::for_format(format)?;
        let record_size: usize = validated_record_size(payload, format)?;
        Ok(ChunkColumnDecoder { payload, layout, bounds, record_size })
    }

    pub fn record_size(&self) -> (r: usize)
        ensures
            r == self.size(),
    {
        self.record_size
    }

    /// The records of a chunk of `count` points.
    pub fn records(&self, chunk: &[u8], count: usize) -> (r: Result<Vec<u8>>)
        requires
            self.wf(),
        ensures
            laszip::decoded(self.payload(), self.size(), chunk@, count, r),
    {
        decode_chunk(self.payload, chunk, count)
    }

    /// Adds the points of `records` that lie in the bounds to the columns, and says how many
    /// did. `scaled` holds the coordinates and scan angles of the records.
    pub fn append<C: CancelCheck>(
        &self,
        records: &[u8],
        scaled: &[ScaledPoint],
        columns: &mut Vec<(ColumnSpec, ColumnData)>,
        cancel: &C,
    ) -> (r: Result<usize>)
        requires
            self.wf(),
            records@.len() == scaled@.len() * self.size(),
        ensures
            match r {
                Ok(count) => {
                    &&& count == decode::accepted_count(scaled@, scaled@.len(), self.bounds())
                    &&& decode::chunk_appended(
                        decode::column_models(old(columns)@),
                        records@,
                        self.size() as int,
                        scaled@.len(),
                        self.layout(),
                        scaled@,
                        self.bounds(),
                    ) == Ok::<Seq<(ColumnSpec, ColumnModel)>, Error>(
                        decode::column_models(final(columns)@),
                    )
                },
                Err(error) => cancel.may_answer(error) || decode::chunk_appended(
                    decode::column_models(old(columns)@),
                    records@,
                    self.size() as int,
                    scaled@.len(),
                    self.layout(),
                    scaled@,
                    self.bounds(),
                ) == Err::<Seq<(ColumnSpec, ColumnModel)>, Error>(error),
            },
    {
        append_chunk(
            columns,
            records,
            self.record_size,
            &self.layout,
            scaled,
            self.bounds,
            cancel,
        )
    }
}

/// A source together with the file that was read from it.
pub struct CopcReader<S: RangeRead> {
    source: S,
    file: CopcFile,
}

impl<S: RangeRead> CopcReader<S> {
    pub closed spec fn source(&self) -> S {
        self.source
    }

    pub closed spec fn model(&self) -> CopcModel {
        self.file@
    }

    pub closed spec fn wf(&self) -> bool {
        self.file.wf()
    }

    /// Reads and checks everything but the points.
    pub fn open(source: S) -> (r: Result<CopcReader<S>>)
        ensures
            match r {
                Ok(reader) => {
                    &&& reader.wf()
                    &&& range_read::steady(source, reader.source())
                    &&& file::opens_as(source.content(), Ok(reader.model()))
                },
                Err(error) => source.reliable() && !source.failed() ==> file::opens_as(
                    source.content(),
                    Err(error),
                ),
            },
    {
        let mut source = source;
        let file = CopcFile::from_reader(&mut source)?;
        Ok(CopcReader { source, file })
    }

    pub fn file(&self) -> (r: &CopcFile)
        requires
            self.wf(),
        ensures
            r.wf(),
            r@ == self.model(),
    {
        &self.file
    }

    pub fn header(&self) -> (r: &LasHeader)
        ensures
            *r == self.model().header,
    {
        self.file.header()
    }

    pub fn copc_info(&self) -> (r: &CopcInfo)
        ensures
            *r == self.model().info,
    {
        self.file.copc_info()
    }

    pub fn into_inner(self) -> (r: S)
        ensures
            r == self.source(),
    {
        self.source
    }

    /// Reads the compressed bytes of a chunk, and says how many points it holds.
    pub fn read_chunk(&mut self, entry: Entry) -> (r: Result<(Vec<u8>, usize)>)
        ensures
            range_read::steady(old(self).source(), final(self).source()),
            final(self).model() == old(self).model(),
            old(self).wf() ==> final(self).wf(),
            match chunk_sizes(entry) {
                Err(error) => match r {
                    Err(e) => e == error,
                    Ok(_) => false,
                },
                Ok((points, size)) => match r {
                    Ok((chunk, count)) => {
                        &&& count == points
                        &&& entry.offset + size <= old(self).source().content().len()
                        &&& chunk@ == old(self).source().content().subrange(
                            entry.offset as int,
                            entry.offset + size,
                        )
                    },
                    Err(_) => final(self).source().failed() || entry.offset + size > old(
                        self,
                    ).source().content().len(),
                },
            },
    {
        read_chunk_bytes(&mut self.source, entry)
    }
}

/// The chunk of every node with points can be read from a reliable source.
pub proof fn law_chunks_are_readable<S: RangeRead>(source: S, model: CopcModel, entry: Entry)
    requires
        file::opens_as(source.content(), Ok(model)),
        source.content().len() <= u64::MAX,
        model.hierarchy.contains_key(entry.key),
        model.hierarchy[entry.key] == entry,
        entry.point_count > 0,
    ensures
        chunk_sizes(entry) is Ok,
        entry.offset + chunk_sizes(entry)->Ok_0.1 <= source.content().len(),
{
    file::law_opened_file(source.content(), model);
}

/// What a walk over chunks does next.
#[derive(Clone, Copy, Debug, PartialEq, Eq, Structural)]
pub enum CursorStep {
    /// Open the chunk of this entry.
    Load(Entry),
    /// Decode the next record of the open chunk; ask the cancel hook first where `poll`.
    Decode { poll: bool },
    Done,
}

/// The walk over the records of selected chunks.
#[derive(Clone, Debug)]
pub struct PointCursor {
    chunks: Vec<Entry>,
    next_chunk: usize,
    points_left: usize,
    remaining: usize,
    exact_size: bool,
    decoded: usize,
    finished: bool,
}

/// The points of the chunks from the index `i` on.
pub open spec fn points_from(chunks: Seq<Entry>, i: int) -> nat
    decreases chunks.len() - i,
{
    if 0 <= i < chunks.len() {
        crate::index::entry_points(chunks[i]) + points_from(chunks, i + 1)
    } else {
        0
    }
}

/// The places of the records of the chunks from the index `i` on: chunk by chunk, record by
/// record. A place is the index of a chunk and the index of a record in it.
pub open spec fn places_from(chunks: Seq<Entry>, i: int) -> Seq<(int, int)>
    decreases chunks.len() - i,
{
    if 0 <= i < chunks.len() {
        let count = crate::index::entry_points(chunks[i]);
        chunk_places(i, 0, count) + places_from(chunks, i + 1)
    } else {
        Seq::empty()
    }
}

/// The places of `count` records of the chunk `i`, from the record `first` on.
pub open spec fn chunk_places(i: int, first: int, count: nat) -> Seq<(int, int)> {
    Seq::new(count, |j: int| (i, first + j))
}

proof fn lemma_candidates_split(chunks: Seq<Entry>, n: nat)
    requires
        n <= chunks.len(),
        query::candidates(chunks, chunks.len()) is Ok,
    ensures
        query::candidates(chunks, n) is Ok,
        query::candidates(chunks, n)->Ok_0 + points_from(chunks, n as int)
            == query::candidates(chunks, chunks.len())->Ok_0,
    decreases chunks.len() - n,
{
    if n < chunks.len() {
        lemma_candidates_split(chunks, n + 1);
    }
}

impl PointCursor {
    pub closed spec fn chunks(&self) -> Seq<Entry> {
        self.chunks@
    }

    /// The number of records that are still to be decoded.
    pub closed spec fn left(&self) -> nat {
        self.remaining as nat
    }

    /// The number of records that were decoded.
    pub closed spec fn done(&self) -> nat {
        self.decoded as nat
    }

    /// The number of chunks that were opened or passed over.
    pub closed spec fn opened(&self) -> nat {
        self.next_chunk as nat
    }

    /// The number of records left in the open chunk.
    pub closed spec fn in_chunk(&self) -> nat {
        self.points_left as nat
    }

    pub closed spec fn ended(&self) -> bool {
        self.finished
    }

    pub closed spec fn exact(&self) -> bool {
        self.exact_size
    }

    /// The places of the records that are still to be decoded.
    pub open spec fn to_come(&self) -> Seq<(int, int)> {
        let open = self.opened() - 1;
        let count = crate::index::entry_points(self.chunks()[open]);
        chunk_places(open, count - self.in_chunk(), self.in_chunk()) + places_from(
            self.chunks(),
            self.opened() as int,
        )
    }

    /// What is left is what the open chunk and the chunks behind it hold.
    pub open spec fn wf(&self) -> bool {
        &&& self.opened() <= self.chunks().len()
        &&& self.in_chunk() > 0 ==> self.opened() > 0 && self.in_chunk()
            <= crate::index::entry_points(self.chunks()[self.opened() - 1])
        &&& self.left() == self.in_chunk() + points_from(self.chunks(), self.opened() as int)
        &&& self.done() + self.left() <= usize::MAX
    }

    /// A walk over all records of the chunks. The number of points is known beforehand where
    /// none is filtered out.
    pub fn new(chunks: Vec<Entry>, exact_size: bool) -> (r: Result<PointCursor>)
        ensures
            match r {
                Ok(cursor) => {
                    &&& cursor.wf()
                    &&& cursor.chunks() == chunks@
                    &&& cursor.exact() == exact_size
                    &&& !cursor.ended()
                    &&& cursor.done() == 0
                    &&& cursor.opened() == 0
                    &&& cursor.in_chunk() == 0
                    &&& cursor.to_come() == places_from(chunks@, 0)
                    &&& query::candidates(chunks@, chunks@.len()) == Ok::<usize, Error>(
                        cursor.left() as usize,
                    )
                },
                Err(error) => query::candidates(chunks@, chunks@.len()) == Err::<usize, Error>(
                    error,
                ),
            },
    {
        let remaining: usize = total_candidate_points(chunks.as_slice())?;
        proof {
            lemma_candidates_split(chunks@, 0);
        }
        let cursor = PointCursor {
            chunks,
            next_chunk: 0,
            points_left: 0,
            remaining,
            exact_size,
            decoded: 0,
            finished: false,
        };
        proof {
            assert(cursor.to_come() =~= places_from(chunks@, 0));
        }
        Ok(cursor)
    }

    /// What to do next. Chunks are opened in order, those without points passed over, and of
    /// each as many records decoded as it has points.
    pub fn step(&mut self) -> (r: CursorStep)
        requires
            old(self).wf(),
        ensures
            final(self).wf(),
            final(self).chunks() == old(self).chunks(),
            final(self).exact() == old(self).exact(),
            match r {
                CursorStep::Done => {
                    &&& final(self).ended()
                    &&& old(self).ended() || old(self).left() == 0
                    &&& final(self).in_chunk() == old(self).in_chunk()
                    &&& final(self).to_come() == old(self).to_come()
                    &&& !old(self).ended() ==> old(self).to_come().len() == 0
                    &&& final(self).left() == old(self).left()
                    &&& final(self).done() == old(self).done()
                },
                CursorStep::Load(entry) => {
                    &&& !old(self).ended() && !final(self).ended()
                    &&& old(self).in_chunk() == 0
                    &&& old(self).opened() < final(self).opened()
                    &&& entry == old(self).chunks()[final(self).opened() - 1]
                    &&& entry.point_count > 0
                    &&& final(self).in_chunk() == entry.point_count
                    &&& forall|i: int|
                        old(self).opened() <= i < final(self).opened() - 1 ==> (
                        #[trigger] old(self).chunks()[i]).point_count <= 0
                    &&& final(self).to_come() == old(self).to_come()
                    &&& final(self).left() == old(self).left()
                    &&& final(self).done() == old(self).done()
                },
                CursorStep::Decode { poll } => {
                    &&& !old(self).ended() && !final(self).ended()
                    &&& old(self).in_chunk() > 0
                    &&& final(self).in_chunk() == old(self).in_chunk() - 1
                    &&& final(self).opened() == old(self).opened()
                    &&& old(self).to_come().len() > 0
                    &&& old(self).to_come()[0].0 == old(self).opened() - 1
                    &&& final(self).to_come() == old(self).to_come().drop_first()
                    &&& final(self).left() == old(self).left() - 1
                    &&& final(self).done() == old(self).done() + 1
                    &&& poll == (old(self).done() % 4_096 == 0)
                },
            },
    {
        if self.finished {
            return CursorStep::Done;
        }
        if self.points_left > 0 {
            let poll = self.decoded % CANCEL_POLL_STRIDE == 0;
            self.points_left = self.points_left - 1;
            self.remaining = self.remaining - 1;
            self.decoded = self.decoded + 1;
            proof {
                assert(self.to_come() =~= old(self).to_come().drop_first());
            }
            return CursorStep::Decode { poll };
        }
        let ghost first = self.next_chunk;
        while self.next_chunk < self.chunks.len()
            invariant
                self.wf(),
                self.chunks == old(self).chunks,
                self.exact_size == old(self).exact_size,
                self.remaining == old(self).remaining,
                self.decoded == old(self).decoded,
                self.points_left == 0,
                !self.finished,
                !old(self).finished,
                old(self).points_left == 0,
                first == old(self).next_chunk,
                first <= self.next_chunk <= self.chunks@.len(),
                self.to_come() == old(self).to_come(),
                forall|i: int|
                    first <= i < self.next_chunk ==> (#[trigger] self.chunks@[i]).point_count <= 0,
            decreases self.chunks@.len() - self.next_chunk,
        {
            let entry = self.chunks[self.next_chunk];
            let ghost come = self.to_come();
            self.next_chunk = self.next_chunk + 1;
            if entry.point_count > 0 {
                self.points_left = entry.point_count as usize;
                proof {
                    assert(self.to_come() =~= come);
                }
                return CursorStep::Load(entry);
            }
            proof {
                assert(self.to_come() =~= come);
            }
        }
        self.finished = true;
        CursorStep::Done
    }

    /// Ends the walk, as after an error.
    pub fn stop(&mut self)
        requires
            old(self).wf(),
        ensures
            final(self).wf(),
            final(self).ended(),
            final(self).chunks() == old(self).chunks(),
            final(self).exact() == old(self).exact(),
            final(self).opened() == old(self).opened(),
            final(self).in_chunk() == old(self).in_chunk(),
            final(self).to_come() == old(self).to_come(),
            final(self).left() == old(self).left(),
            final(self).done() == old(self).done(),
    {
        self.finished = true;
    }

    /// The least and the most points that are still to come.
    pub fn size_hint(&self) -> (r: (usize, Option<usize>))
        ensures
            r == (
                (if self.exact() {
                    self.left() as usize
                } else {
                    0
                }),
                Some(self.left() as usize),
            ),
    {
        if self.exact_size {
            (self.remaining, Some(self.remaining))
        } else {
            (0, Some(self.remaining))
        }
    }
}

/// A chunk has the points and the bytes of its entry; an entry that has no such numbers is
/// refused.
pub proof fn law_chunk_sizes(entry: Entry)
    ensures
        chunk_sizes(entry) is Ok <==> entry.point_count >= 0 && entry.byte_size >= 0,
        chunk_sizes(entry) is Ok ==> chunk_sizes(entry)->Ok_0.0 == entry.point_count
            && chunk_sizes(entry)->Ok_0.1 == entry.byte_size,
{
}

/// A walk goes through each point of each chunk once, chunk by chunk and from the first point of
/// each on.
pub proof fn law_places(chunks: Seq<Entry>, i: int)
    requires
        0 <= i <= chunks.len(),
    ensures
        forall|a: int, b: int| #[trigger]
            places_from(chunks, i).contains((a, b)) <==> i <= a < chunks.len() && 0 <= b
                && b < chunks[a].point_count,
        forall|j: int, k: int|
            0 <= j < k < places_from(chunks, i).len() ==> {
                let first = #[trigger] places_from(chunks, i)[j];
                let second = #[trigger] places_from(chunks, i)[k];
                first.0 < second.0 || first.0 == second.0 && first.1 < second.1
            },
        places_from(chunks, i).len() == points_from(chunks, i),
    decreases chunks.len() - i,
{
    let all = places_from(chunks, i);
    if i < chunks.len() {
        law_places(chunks, i + 1);
        let rest = places_from(chunks, i + 1);
        let count = crate::index::entry_points(chunks[i]);
        let own = chunk_places(i, 0, count);
        assert(all == own + rest);
        assert forall|a: int, b: int| #[trigger] all.contains((a, b)) <==> i <= a < chunks.len()
            && 0 <= b && b < chunks[a].point_count by {
            if all.contains((a, b)) {
                let k = choose|k: int| 0 <= k < all.len() && all[k] == (a, b);
                if k >= own.len() {
                    assert(rest[k - own.len()] == (a, b));
                    assert(rest.contains((a, b)));
                }
            }
            if i <= a < chunks.len() && 0 <= b && b < chunks[a].point_count {
                if a == i {
                    assert(all[b] == (a, b));
                } else {
                    assert(rest.contains((a, b)));
                    let k = choose|k: int| 0 <= k < rest.len() && rest[k] == (a, b);
                    assert(all[own.len() + k] == (a, b));
                }
            }
        }
        assert forall|j: int, k: int| 0 <= j < k < all.len() implies {
            let first = #[trigger] all[j];
            let second = #[trigger] all[k];
            first.0 < second.0 || first.0 == second.0 && first.1 < second.1
        } by {
            if k >= own.len() {
                let c = k - own.len();
                assert(rest[c] == all[k]);
                assert(rest.contains((rest[c].0, rest[c].1)));
                if j >= own.len() {
                    assert(rest[j - own.len()] == all[j]);
                }
            }
        }
    } else {
        assert(all =~= Seq::empty());
    }
}

/// The records of a chunk have the length that the format says, or the read is refused.
pub proof fn law_size_check(payload: Seq<u8>, format: PointFormat)
    requires
        format.record_len() <= u16::MAX,
    ensures
        size_check(payload, format) is Ok <==> laszip::record_size_of(payload) is Ok
            && laszip::record_size_of(payload)->Ok_0 == format.record_len(),
        size_check(payload, format) is Ok ==> size_check(payload, format)->Ok_0
            == format.record_len(),
{
}

/// As many records are left as places are still to come.
pub proof fn law_records_left(cursor: PointCursor)
    requires
        cursor.wf(),
    ensures
        cursor.left() == cursor.to_come().len(),
{
    law_places(cursor.chunks(), cursor.opened() as int);
}

} // verus!
