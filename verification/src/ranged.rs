//! Reading remote files piece by piece: pages on demand, and chunks in few requests.

use vstd::prelude::*;

use crate::bounds::Bounds;
use crate::bytes;
use crate::error::{Error, Fault, RangeLabel, Result};
use crate::file;
use crate::file::{
    read_hierarchy_ranges, validate_hierarchy_entry, validate_point_chunk_ranges, CopcDataRanges,
    HierarchyReadLimits,
};
use crate::hierarchy::{Entry, HierarchyPage, VoxelKey};
use crate::index;
use crate::index::{HierarchyIndex, PageSet};
use crate::info::CopcInfo;
use crate::las_header::{read_las_header, LasHeader};
use crate::limits::{LAS_HEADER_SIZE_14, MAX_COALESCED_BYTES, MAX_VLR_SECTION_BYTES};
use crate::query;
use crate::query::{page_may_match, PointQuery};
use crate::range_read;
use crate::range_read::{fetch, MemorySource, RangeRead};
use crate::reader;
use crate::reader::checked_chunk_sizes;
use crate::sort;
use crate::vlr;
use crate::vlr::{extract_required_vlrs, read_vlrs, validate_range_in_file};

verus! {

/// Chunks that are fetched with one request, and the bytes of that request.
#[derive(Clone, Debug)]
pub struct ChunkGroup {
    pub start: u64,
    pub end: u64,
    pub entries: Vec<Entry>,
}

/// What a [`ChunkGroup`] holds.
#[verifier::ext_equal]
pub struct GroupModel {
    pub start: u64,
    pub end: u64,
    pub entries: Seq<Entry>,
}

impl View for ChunkGroup {
    type V = GroupModel;

    open spec fn view(&self) -> GroupModel {
        GroupModel { start: self.start, end: self.end, entries: self.entries@ }
    }
}

pub open spec fn group_models(groups: Seq<ChunkGroup>) -> Seq<GroupModel> {
    Seq::new(groups.len(), |i: int| groups[i]@)
}

/// Where the data of a chunk end.
pub open spec fn chunk_end(entry: Entry) -> int {
    entry.offset + if entry.byte_size > 0 {
        entry.byte_size as int
    } else {
        0
    }
}

/// Whether a chunk joins a group: the gap is small enough, and so is the request then.
pub open spec fn joins(group: GroupModel, entry: Entry, gap: u64) -> bool {
    &&& entry.offset <= group.end + gap
    &&& chunk_end(entry) - group.start <= MAX_COALESCED_BYTES
    &&& group.end - group.start <= MAX_COALESCED_BYTES
}

/// The groups with one more chunk.
pub open spec fn grouped(groups: Seq<GroupModel>, entry: Entry, gap: u64) -> Seq<GroupModel> {
    let end = chunk_end(entry) as u64;
    if groups.len() > 0 && joins(groups.last(), entry, gap) {
        let last = groups.last();
        groups.update(
            groups.len() - 1,
            GroupModel {
                start: last.start,
                end: if end > last.end {
                    end
                } else {
                    last.end
                },
                entries: last.entries.push(entry),
            },
        )
    } else {
        groups.push(GroupModel { start: entry.offset, end, entries: seq![entry] })
    }
}

/// The groups of the first `n` chunks.
pub open spec fn coalesced(chunks: Seq<Entry>, n: nat, gap: u64) -> Seq<GroupModel>
    decreases n,
{
    if n == 0 {
        Seq::empty()
    } else {
        grouped(coalesced(chunks, (n - 1) as nat, gap), chunks[n - 1], gap)
    }
}

/// Groups chunks that are in the order of their data, so that close ones are fetched with one
/// request.
pub fn coalesce_chunks(chunks: &[Entry], gap: u64) -> (r: Vec<ChunkGroup>)
    requires
        sort::by_offset(chunks@),
        forall|i: int| 0 <= i < chunks@.len() ==> chunk_end(#[trigger] chunks@[i]) <= u64::MAX,
    ensures
        group_models(r@) == coalesced(chunks@, chunks@.len(), gap),
{
    let mut groups: Vec<ChunkGroup> = Vec::new();
    let mut i: usize = 0;
    proof {
        assert(group_models(groups@) =~= Seq::empty());
    }
    while i < chunks.len()
        invariant
            i <= chunks@.len(),
            sort::by_offset(chunks@),
            forall|k: int| 0 <= k < chunks@.len() ==> chunk_end(#[trigger] chunks@[k]) <= u64::MAX,
            group_models(groups@) == coalesced(chunks@, i as nat, gap),
            groups@.len() == 0 <==> i == 0,
            groups@.len() > 0 ==> groups@.last().start <= chunks@[i - 1].offset,
            groups@.len() > 0 ==> groups@.last().start <= groups@.last().end,
        decreases chunks@.len() - i,
    {
        let entry = chunks[i];
        let start: u64 = entry.offset;
        let end: u64 = if entry.byte_size > 0 {
            entry.offset + entry.byte_size as u64
        } else {
            entry.offset
        };
        let ghost before = group_models(groups@);
        let count: usize = groups.len();
        let mut joined = false;
        if count > 0 {
            let last_start: u64 = groups[count - 1].start;
            let last_end: u64 = groups[count - 1].end;
            proof {
                assert(chunks@[i - 1].offset <= chunks@[i as int].offset);
                assert(before.last() == groups@[count - 1]@);
            }
            let near = start <= last_end || start - last_end <= gap;
            if near && end - last_start <= MAX_COALESCED_BYTES && last_end - last_start
                <= MAX_COALESCED_BYTES {
                joined = true;
                let group = &mut groups[count - 1];
                if end > group.end {
                    group.end = end;
                }
                group.entries.push(entry);
            }
        }
        if !joined {
            let mut entries: Vec<Entry> = Vec::new();
            entries.push(entry);
            groups.push(ChunkGroup { start, end, entries });
            proof {
                assert(entries@ =~= seq![entry]);
            }
        }
        proof {
            assert(group_models(groups@) =~= grouped(before, entry, gap));
        }
        i = i + 1;
    }
    groups
}

/// The chunks of the groups, one group after the other.
pub open spec fn chunks_of(groups: Seq<GroupModel>) -> Seq<Entry>
    decreases groups.len(),
{
    if groups.len() == 0 {
        Seq::empty()
    } else {
        chunks_of(groups.drop_last()) + groups.last().entries
    }
}

/// Whether a group has the bytes of its chunks: from where the first starts to where the last
/// one ends.
pub open spec fn group_covers(group: GroupModel) -> bool {
    &&& group.entries.len() > 0
    &&& group.start == group.entries[0].offset
    &&& exists|i: int|
        0 <= i < group.entries.len() && chunk_end(#[trigger] group.entries[i]) == group.end
    &&& forall|i: int|
        0 <= i < group.entries.len() ==> {
            &&& group.start <= (#[trigger] group.entries[i]).offset
            &&& chunk_end(group.entries[i]) <= group.end
        }
}

/// Whether a chunk of a group starts not too far behind what the chunks before it cover.
pub open spec fn near_before(group: GroupModel, i: int, gap: u64) -> bool {
    exists|j: int| 0 <= j < i && group.entries[i].offset <= #[trigger] chunk_end(group.entries[j])
        + gap
}

/// Whether a group could not have been joined to the one before it.
pub open spec fn apart(before: GroupModel, group: GroupModel, gap: u64) -> bool {
    !joins(before, group.entries[0], gap)
}

/// Coalescing loses no chunk and keeps their order; each chunk lies in the bytes of its
/// group, close behind the chunks before it; a group is not joined to the one before it only
/// where the gap or the request would be too large; and a request is larger than the limit
/// only where it is for a single chunk.
pub proof fn law_coalesced(chunks: Seq<Entry>, n: nat, gap: u64)
    requires
        n <= chunks.len(),
        sort::by_offset(chunks),
        forall|i: int| 0 <= i < chunks.len() ==> chunk_end(#[trigger] chunks[i]) <= u64::MAX,
    ensures
        chunks_of(coalesced(chunks, n, gap)) == chunks.subrange(0, n as int),
        forall|i: int|
            0 <= i < coalesced(chunks, n, gap).len() ==> group_covers(
                #[trigger] coalesced(chunks, n, gap)[i],
            ),
        forall|i: int, k: int|
            0 <= i < coalesced(chunks, n, gap).len() && 0 < k < coalesced(
                chunks,
                n,
                gap,
            )[i].entries.len() ==> #[trigger] near_before(coalesced(chunks, n, gap)[i], k, gap),
        forall|i: int|
            0 < i < coalesced(chunks, n, gap).len() ==> apart(
                coalesced(chunks, n, gap)[i - 1],
                #[trigger] coalesced(chunks, n, gap)[i],
                gap,
            ),
        forall|i: int|
            0 <= i < coalesced(chunks, n, gap).len() ==> {
                let group = #[trigger] coalesced(chunks, n, gap)[i];
                group.entries.len() > 1 ==> group.end - group.start <= MAX_COALESCED_BYTES
            },
        n > 0 ==> coalesced(chunks, n, gap).len() > 0 && coalesced(chunks, n, gap).last().start
            <= chunks[n - 1].offset,
    decreases n,
{
    if n > 0 {
        law_coalesced(chunks, (n - 1) as nat, gap);
        let before = coalesced(chunks, (n - 1) as nat, gap);
        let after = coalesced(chunks, n, gap);
        let entry = chunks[n - 1];
        let at = after.len() - 1;
        if n > 1 {
            assert(chunks[n - 2].offset <= chunks[n - 1].offset);
        }
        if before.len() > 0 && joins(before.last(), entry, gap) {
            let last = before[at];
            let m = last.entries.len() as int;
            assert(after.drop_last() =~= before.drop_last());
            assert(after.last().entries =~= last.entries.push(entry));
            assert(chunks_of(after) =~= chunks_of(before).push(entry));
            assert(group_covers(last));
            let far = choose|i: int| 0 <= i < m && chunk_end(#[trigger] last.entries[i])
                == last.end;
            assert(after.last().entries[far] == last.entries[far]);
            assert(after.last().entries[m] == entry);
            assert(after.last().entries[0] == last.entries[0]);
            assert forall|i: int| 0 <= i < after.last().entries.len() implies {
                &&& after.last().start <= (#[trigger] after.last().entries[i]).offset
                &&& chunk_end(after.last().entries[i]) <= after.last().end
            } by {
                if i < m {
                    assert(after.last().entries[i] == last.entries[i]);
                }
            }
            assert(group_covers(after[at])) by {
                if after.last().end == last.end {
                    assert(chunk_end(after.last().entries[far]) == after.last().end);
                } else {
                    assert(chunk_end(after.last().entries[m]) == after.last().end);
                }
            }
            assert forall|k: int| 0 < k < after[at].entries.len() implies #[trigger] near_before(
                after[at],
                k,
                gap,
            ) by {
                if k < m {
                    assert(near_before(last, k, gap));
                    let j = choose|j: int|
                        0 <= j < k && last.entries[k].offset <= #[trigger] chunk_end(
                            last.entries[j],
                        ) + gap;
                    assert(after[at].entries[j] == last.entries[j]);
                    assert(after[at].entries[k] == last.entries[k]);
                    assert(after[at].entries[k].offset <= chunk_end(after[at].entries[j]) + gap);
                } else {
                    assert(after[at].entries[k].offset <= chunk_end(after[at].entries[far]) + gap);
                }
            }
        } else {
            assert(after.drop_last() =~= before);
            assert(chunks_of(after) =~= chunks_of(before).push(entry));
            assert(chunk_end(after[at].entries[0]) == after[at].end);
            assert(group_covers(after[at]));
        }
        assert(chunks.subrange(0, n as int) =~= chunks.subrange(0, n - 1).push(entry));
        assert forall|i: int| 0 <= i < after.len() implies {
            let group = #[trigger] after[i];
            &&& group_covers(group)
            &&& group.entries.len() > 1 ==> group.end - group.start <= MAX_COALESCED_BYTES
        } by {
            if i < at {
                assert(after[i] == before[i]);
            }
        }
        assert forall|i: int, k: int|
            0 <= i < after.len() && 0 < k < after[i].entries.len() implies #[trigger] near_before(
            after[i],
            k,
            gap,
        ) by {
            if i < at {
                assert(after[i] == before[i]);
                assert(near_before(before[i], k, gap));
            }
        }
        assert forall|i: int| 0 < i < after.len() implies apart(
            after[i - 1],
            #[trigger] after[i],
            gap,
        ) by {
            if i - 1 < before.len() {
                assert(after[i - 1] == before[i - 1] || i - 1 == at);
            }
            if i < before.len() {
                assert(apart(before[i - 1], before[i], gap));
                assert(group_covers(before[i]));
                assert(after[i].entries[0] == before[i].entries[0]);
            }
        }
    } else {
        assert(chunks.subrange(0, 0) =~= Seq::empty());
    }
}

/// What [`chunk_slice`] answers for `len` bytes from `group_start` on.
pub open spec fn slice_check(len: nat, group_start: u64, entry: Entry) -> Result<
    (int, int, usize),
> {
    match reader::chunk_sizes(entry) {
        Err(error) => Err(error),
        Ok((points, size)) => {
            let offset = entry.offset - group_start;
            if offset < 0 || offset + size > len {
                Err(Error::InvalidData(Fault::ChunkOutsideGroup))
            } else {
                Ok((offset, offset + size, points))
            }
        },
    }
}

/// The bytes of a chunk among those of its group, and the chunk's point count.
pub fn chunk_slice<'a>(group_bytes: &'a [u8], group_start: u64, entry: Entry) -> (r: Result<
    (&'a [u8], usize),
>)
    ensures
        match slice_check(group_bytes@.len(), group_start, entry) {
            Ok((start, end, points)) => match r {
                Ok((part, count)) => part@ == group_bytes@.subrange(start, end) && count == points,
                Err(_) => false,
            },
            Err(error) => match r {
                Ok(_) => false,
                Err(e) => e == error,
            },
        },
{
    let (points, size) = checked_chunk_sizes(entry)?;
    let len: usize = group_bytes.len();
    if entry.offset < group_start {
        return Err(Error::InvalidData(Fault::ChunkOutsideGroup));
    }
    let offset: u64 = entry.offset - group_start;
    if offset > len as u64 || size as u64 > len as u64 - offset {
        return Err(Error::InvalidData(Fault::ChunkOutsideGroup));
    }
    let start: usize = offset as usize;
    Ok((vstd::slice::slice_subrange(group_bytes, start, start + size), points))
}

/// What a lazy reader knows of its file.
#[verifier::ext_equal]
pub struct RangeModel {
    pub header: LasHeader,
    pub info: CopcInfo,
    pub laszip: Seq<u8>,
    pub ranges: CopcDataRanges,
    pub hierarchy: Map<VoxelKey, Entry>,
    pub pending: Seq<Entry>,
    pub visited: Set<(u64, u64)>,
    pub total: u64,
}

/// Whether a page of this size at this place is fetched, and the total of page bytes then.
pub open spec fn fetch_check(offset: u64, byte_size: u64, total: u64, file_len: u64) -> Result<
    u64,
> {
    if byte_size == 0 || byte_size % 32 != 0 {
        Err(Error::InvalidData(Fault::PageNotMultiple { len: byte_size }))
    } else {
        match HierarchyReadLimits::added(total, byte_size) {
            Err(error) => Err(error),
            Ok(sum) => match vlr::range_in_file(
                offset,
                byte_size,
                file_len,
                RangeLabel::HierarchyPage,
            ) {
                Err(error) => Err(error),
                Ok(_) => Ok(sum),
            },
        }
    }
}

/// The references to pages among the first `n` entries.
pub open spec fn page_references(entries: Seq<Entry>, n: nat) -> Seq<Entry>
    decreases n,
{
    if n == 0 {
        Seq::empty()
    } else {
        let before = page_references(entries, (n - 1) as nat);
        if entries[n - 1].point_count == -1 {
            before.push(entries[n - 1])
        } else {
            before
        }
    }
}

/// The reader after the page of `entry` was taken in, before the hierarchy as a whole is
/// checked. A page that was met before changes nothing.
pub open spec fn page_taken(c: Seq<u8>, model: RangeModel, entry: Entry) -> Result<RangeModel> {
    let size = entry.byte_size as u64;
    let file_len = c.len() as u64;
    if entry.byte_size < 0 {
        Err(
            Error::InvalidData(
                Fault::ChildPageByteSize { key: entry.key, byte_size: entry.byte_size },
            ),
        )
    } else if model.visited.contains((entry.offset, size)) {
        Ok(model)
    } else {
        match fetch_check(entry.offset, size, model.total, file_len) {
            Err(error) => Err(error),
            Ok(total) => match crate::hierarchy::page_of(
                c.subrange(entry.offset as int, entry.offset + size),
            ) {
                Err(error) => Err(error),
                Ok(entries) => match file::merged_all(
                    model.hierarchy,
                    entries,
                    entries.len(),
                    file_len,
                    model.ranges,
                ) {
                    Err(error) => Err(error),
                    Ok(hierarchy) => Ok(
                        RangeModel {
                            hierarchy,
                            pending: model.pending + page_references(entries, entries.len()),
                            visited: model.visited.insert((entry.offset, size)),
                            total,
                            ..model
                        },
                    ),
                },
            },
        }
    }
}

/// The page that loading the page of `entry` asks of the source, if it asks for one: a page
/// that was met before is not fetched again.
pub open spec fn page_fetched(model: RangeModel, entry: Entry, file_len: u64) -> Seq<(u64, u64)> {
    let size = entry.byte_size as u64;
    if entry.byte_size >= 0 && !model.visited.contains((entry.offset, size)) && fetch_check(
        entry.offset,
        size,
        model.total,
        file_len,
    ) is Ok {
        seq![(entry.offset, size)]
    } else {
        Seq::empty()
    }
}

/// Whether pages were fetched for the references `hit` between two states of a reader: none
/// twice, none that had been met before, and all of them are met now.
pub open spec fn fetched_for(
    before: RangeModel,
    after: RangeModel,
    hit: Seq<Entry>,
    fetched: Seq<(u64, u64)>,
) -> bool {
    &&& before.visited.subset_of(after.visited)
    &&& fetched.no_duplicates()
    &&& forall|i: int|
        0 <= i < fetched.len() ==> {
            &&& !before.visited.contains(#[trigger] fetched[i])
            &&& after.visited.contains(fetched[i])
            &&& referred_by(hit, fetched[i])
        }
}

/// Whether one of the entries refers to the page.
pub open spec fn referred_by(entries: Seq<Entry>, page: (u64, u64)) -> bool {
    exists|k: int|
        0 <= k < entries.len() && (#[trigger] entries[k]).offset == page.0 && entries[k].byte_size
            == page.1
}

/// What was fetched for one more reference joins what was fetched before.
proof fn lemma_fetched_more(
    before: RangeModel,
    mid: RangeModel,
    after: RangeModel,
    hit: Seq<Entry>,
    k: int,
    fetched: Seq<(u64, u64)>,
    more: Seq<(u64, u64)>,
)
    requires
        0 <= k < hit.len(),
        fetched_for(before, mid, hit, fetched),
        fetched_for(mid, after, seq![hit[k]], more),
    ensures
        fetched_for(before, after, hit, fetched + more),
{
    let all = fetched + more;
    assert forall|i: int| 0 <= i < all.len() implies {
        &&& !before.visited.contains(#[trigger] all[i])
        &&& after.visited.contains(all[i])
        &&& referred_by(hit, all[i])
    } by {
        if i < fetched.len() {
            assert(all[i] == fetched[i]);
        } else {
            let page = more[i - fetched.len()];
            assert(all[i] == page);
            assert(referred_by(seq![hit[k]], page));
            assert(hit[k].offset == page.0 && hit[k].byte_size == page.1);
        }
    }
    assert forall|i: int, j: int| 0 <= i < all.len() && 0 <= j < all.len() && i != j implies all[i]
        != all[j] by {
        if i < fetched.len() && j >= fetched.len() {
            assert(mid.visited.contains(fetched[i]));
            assert(!mid.visited.contains(more[j - fetched.len()]));
        } else if j < fetched.len() && i >= fetched.len() {
            assert(mid.visited.contains(fetched[j]));
            assert(!mid.visited.contains(more[i - fetched.len()]));
        }
    }
}

/// The checks on the hierarchy as far as it is loaded: no two nodes share point data, and
/// there are not more points than the header declares.
pub open spec fn loaded_part_ok(model: RangeModel) -> bool {
    &&& file::chunks_disjoint(model.hierarchy)
    &&& index::point_total(model.hierarchy) <= model.header.number_of_points
}

/// Whether `error` is an answer for a loaded part that is not in order.
pub open spec fn loaded_part_error(model: RangeModel, error: Error) -> bool {
    if !file::chunks_disjoint(model.hierarchy) {
        match error {
            Error::InvalidData(Fault::ChunksOverlap { first, second }) => file::overlapping_pair(
                model.hierarchy,
                first,
                second,
            ),
            _ => false,
        }
    } else {
        let total = index::point_total(model.hierarchy);
        &&& total > model.header.number_of_points
        &&& error == (if total > u64::MAX {
            Error::InvalidData(Fault::PointTotalOverflow)
        } else {
            Error::InvalidData(
                Fault::PointTotalExceeds {
                    total: total as u64,
                    limit: model.header.number_of_points,
                },
            )
        })
    }
}

/// The reader after the page of `entry` was loaded, where that succeeds.
pub open spec fn page_loaded(c: Seq<u8>, model: RangeModel, entry: Entry) -> Option<RangeModel> {
    match page_taken(c, model, entry) {
        Ok(after) => if loaded_part_ok(after) {
            Some(after)
        } else {
            None
        },
        Err(_) => None,
    }
}

/// Whether `error` is an answer for a page that cannot be loaded.
pub open spec fn page_refused(c: Seq<u8>, model: RangeModel, entry: Entry, error: Error) -> bool {
    match page_taken(c, model, entry) {
        Ok(after) => loaded_part_error(after, error),
        Err(e) => error == e,
    }
}

/// The reader after the pages of the first `n` entries were loaded, where that succeeds.
pub open spec fn pages_loaded(
    c: Seq<u8>,
    model: RangeModel,
    entries: Seq<Entry>,
    n: nat,
) -> Option<RangeModel>
    decreases n,
{
    if n == 0 {
        Some(model)
    } else {
        match pages_loaded(c, model, entries, (n - 1) as nat) {
            Some(before) => page_loaded(c, before, entries[n - 1]),
            None => None,
        }
    }
}

/// The first `n` pending pages, split into those that the query can reach and the others.
pub open spec fn reachable(
    pending: Seq<Entry>,
    nodes: Seq<Bounds>,
    n: nat,
    info: CopcInfo,
    query: PointQuery,
    halvings: i64,
) -> Result<(Seq<Entry>, Seq<Entry>)>
    decreases n,
{
    if n == 0 {
        Ok((Seq::empty(), Seq::empty()))
    } else {
        match reachable(pending, nodes, (n - 1) as nat, info, query, halvings) {
            Err(error) => Err(error),
            Ok((hit, rest)) => match query::page_matches(
                pending[n - 1].key,
                nodes[n - 1],
                info,
                query,
                halvings,
            ) {
                Err(error) => Err(error),
                Ok(true) => Ok((hit.push(pending[n - 1]), rest)),
                Ok(false) => Ok((hit, rest.push(pending[n - 1]))),
            },
        }
    }
}

proof fn lemma_reachable_error(
    pending: Seq<Entry>,
    nodes: Seq<Bounds>,
    n: nat,
    m: nat,
    info: CopcInfo,
    query: PointQuery,
    halvings: i64,
)
    requires
        n <= m,
        reachable(pending, nodes, n, info, query, halvings) is Err,
    ensures
        reachable(pending, nodes, m, info, query, halvings) == reachable(
            pending,
            nodes,
            n,
            info,
            query,
            halvings,
        ),
    decreases m,
{
    if n < m {
        lemma_reachable_error(pending, nodes, n, (m - 1) as nat, info, query, halvings);
    }
}

/// A pending page is hit only where it can hold nodes that the query takes.
proof fn lemma_hit_matches(
    pending: Seq<Entry>,
    nodes: Seq<Bounds>,
    n: nat,
    info: CopcInfo,
    query: PointQuery,
    halvings: i64,
    i: int,
) -> (k: int)
    requires
        n <= pending.len(),
        reachable(pending, nodes, n, info, query, halvings) is Ok,
        0 <= i < reachable(pending, nodes, n, info, query, halvings)->Ok_0.0.len(),
    ensures
        0 <= k < n,
        pending[k] == reachable(pending, nodes, n, info, query, halvings)->Ok_0.0[i],
        query::page_matches(pending[k].key, nodes[k], info, query, halvings) == Ok::<bool, Error>(
            true,
        ),
    decreases n,
{
    let before = reachable(pending, nodes, (n - 1) as nat, info, query, halvings)->Ok_0.0;
    if i < before.len() {
        lemma_hit_matches(pending, nodes, (n - 1) as nat, info, query, halvings, i)
    } else {
        n - 1
    }
}

/// A page is fetched for a query only where it can serve it: a pending reference leads to it
/// whose node is above the query's lowest level and whose box meets the query's.
pub proof fn law_only_needed_pages(
    before: RangeModel,
    after: RangeModel,
    nodes: Seq<Bounds>,
    query: PointQuery,
    halvings: i64,
    fetched: Seq<(u64, u64)>,
    i: int,
)
    requires
        reachable(
            before.pending,
            nodes,
            before.pending.len(),
            before.info,
            query,
            halvings,
        ) matches Ok((hit, _)) && fetched_for(before, after, hit, fetched),
        0 <= i < fetched.len(),
    ensures
        query::levels_of(query.lod, before.info, halvings) is Ok,
        exists|k: int|
            {
                &&& 0 <= k < before.pending.len()
                &&& (#[trigger] before.pending[k]).offset == fetched[i].0
                &&& before.pending[k].byte_size == fetched[i].1
                &&& before.pending[k].key.level < query::levels_of(
                    query.lod,
                    before.info,
                    halvings,
                )->Ok_0.1
                &&& query::box_of(query) matches Some(b) ==> nodes[k].meets(b)
            },
{
    let n = before.pending.len();
    let hit = reachable(before.pending, nodes, n, before.info, query, halvings)->Ok_0.0;
    assert(referred_by(hit, fetched[i]));
    let j = choose|j: int|
        0 <= j < hit.len() && (#[trigger] hit[j]).offset == fetched[i].0 && hit[j].byte_size
            == fetched[i].1;
    let k = lemma_hit_matches(before.pending, nodes, n, before.info, query, halvings, j);
    assert(before.pending[k] == hit[j]);
}

/// No page is fetched twice: what a reader fetches at one time and what it fetches later, when
/// it still knows the pages that it met, has no page in common.
pub proof fn law_no_page_twice(
    first: (RangeModel, RangeModel),
    second: (RangeModel, RangeModel),
    hits: (Seq<Entry>, Seq<Entry>),
    fetched: (Seq<(u64, u64)>, Seq<(u64, u64)>),
)
    requires
        fetched_for(first.0, first.1, hits.0, fetched.0),
        first.1.visited.subset_of(second.0.visited),
        fetched_for(second.0, second.1, hits.1, fetched.1),
    ensures
        (fetched.0 + fetched.1).no_duplicates(),
{
    let all = fetched.0 + fetched.1;
    let n = fetched.0.len();
    assert forall|i: int, j: int| 0 <= i < n <= j < all.len() implies all[i] != all[j] by {
        assert(first.1.visited.contains(fetched.0[i]));
        assert(!second.0.visited.contains(fetched.1[j - n]));
    }
    assert forall|i: int, j: int| 0 <= i < all.len() && 0 <= j < all.len() && i != j implies all[i]
        != all[j] by {
        if n <= i && n <= j {
            assert(fetched.1[i - n] != fetched.1[j - n]);
        }
    }
}

/// A reader that was opened has met the root page.
pub proof fn law_root_is_met(c: Seq<u8>, model: RangeModel)
    requires
        opens_lazily(c, model),
    ensures
        model.visited.contains((model.info.root_hier_offset, model.info.root_hier_size)),
{
}

/// The entry that stands for the root page.
pub open spec fn root_reference(info: CopcInfo) -> Entry {
    Entry {
        key: VoxelKey { level: 0, x: 0, y: 0, z: 0 },
        offset: info.root_hier_offset,
        byte_size: info.root_hier_size as i32,
        point_count: -1i32,
    }
}

/// What is known before the root page is loaded.
pub open spec fn unloaded(c: Seq<u8>) -> Result<RangeModel> {
    match file::file_header(c) {
        Err(error) => Err(error),
        Ok(header) => {
            let section = header.offset_to_point_data - 375;
            if section > MAX_VLR_SECTION_BYTES {
                Err(Error::InvalidData(Fault::VlrSectionTooLarge { len: section as u64 }))
            } else {
                match file::file_records(c, header) {
                    Err(error) => Err(error),
                    Ok((info, laszip)) => match file::hierarchy_ranges(c, header, info) {
                        Err(error) => Err(error),
                        Ok(ranges) => if info.root_hier_size > i32::MAX {
                            Err(Error::InvalidData(Fault::RootSizeExceedsI32))
                        } else {
                            Ok(
                                RangeModel {
                                    header,
                                    info,
                                    laszip,
                                    ranges,
                                    hierarchy: Map::empty(),
                                    pending: Seq::empty(),
                                    visited: Set::empty(),
                                    total: 0,
                                },
                            )
                        },
                    },
                }
            }
        },
    }
}

/// Whether opening the content `c` lazily gives this reader.
pub open spec fn opens_lazily(c: Seq<u8>, model: RangeModel) -> bool {
    match unloaded(c) {
        Ok(start) => page_loaded(c, start, root_reference(start.info)) == Some(model),
        Err(_) => false,
    }
}

/// Whether opening the content `c` lazily is refused with this error.
pub open spec fn refused_lazily(c: Seq<u8>, error: Error) -> bool {
    match unloaded(c) {
        Ok(start) => page_refused(c, start, root_reference(start.info), error),
        Err(e) => error == e,
    }
}

/// A reader that fetches pages and chunks as queries need them.
pub struct CopcRangeReader<S: RangeRead> {
    source: S,
    file_len: u64,
    header: LasHeader,
    copc_info: CopcInfo,
    laszip: Vec<u8>,
    ranges: CopcDataRanges,
    hierarchy: HierarchyIndex,
    pending: Vec<Entry>,
    visited: PageSet,
    limits: HierarchyReadLimits,
}

proof fn lemma_vlrs_prefix(
    c: Seq<u8>,
    d: Seq<u8>,
    pos: u64,
    index: u32,
    count: u32,
    section_end: u64,
)
    requires
        section_end <= c.len(),
        section_end <= d.len(),
        c.subrange(0, section_end as int) == d.subrange(0, section_end as int),
    ensures
        vlr::vlrs_from(c, pos, index, count, section_end) == vlr::vlrs_from(
            d,
            pos,
            index,
            count,
            section_end,
        ),
    decreases count - index,
{
    if index < count && pos + 54 <= section_end {
        let head = c.subrange(0, section_end as int);
        assert forall|a: int, b: int| 0 <= a <= b <= section_end implies #[trigger] c.subrange(a, b)
            == d.subrange(a, b) by {
            assert(c.subrange(a, b) =~= head.subrange(a, b));
            assert(d.subrange(a, b) =~= head.subrange(a, b));
        }
        assert(c.subrange(pos as int, pos + 2) == d.subrange(pos as int, pos + 2));
        assert(c.subrange(pos + 2, pos + 18) == d.subrange(pos + 2, pos + 18));
        assert(c.subrange(pos + 18, pos + 20) == d.subrange(pos + 18, pos + 20));
        assert(c.subrange(pos + 20, pos + 22) == d.subrange(pos + 20, pos + 22));
        let len = bytes::le_at(c, pos + 20, 2) as u64;
        let data = (pos + 54) as u64;
        bytes::lemma_le_bound(c.subrange(pos + 20, pos + 22));
        bytes::lemma_pow256_values();
        if data + len <= section_end {
            assert(c.subrange(pos + 54, pos + 54 + len) == d.subrange(pos + 54, pos + 54 + len));
            lemma_vlrs_prefix(
                c,
                d,
                (data + len) as u64,
                (index + 1) as u32,
                count,
                section_end,
            );
        }
    }
}

impl<S: RangeRead> CopcRangeReader<S> {
    pub closed spec fn source(&self) -> S {
        self.source
    }

    pub closed spec fn model(&self) -> RangeModel {
        RangeModel {
            header: self.header,
            info: self.copc_info,
            laszip: self.laszip@,
            ranges: self.ranges,
            hierarchy: self.hierarchy.map(),
            pending: self.pending@,
            visited: self.visited@,
            total: self.limits.total_bytes,
        }
    }

    /// The file's length is that of the source, and each loaded entry passed its checks.
    pub closed spec fn wf(&self) -> bool {
        &&& self.hierarchy.wf()
        &&& self.file_len == self.source.content().len()
        &&& file::all_checked(self.hierarchy.map(), self.file_len, self.ranges)
    }

    /// Fetches the header, the VLRs and the root page.
    pub fn open(source: S) -> (r: Result<CopcRangeReader<S>>)
        ensures
            match r {
                Ok(reader) => {
                    &&& reader.wf()
                    &&& range_read::steady(source, reader.source())
                    &&& opens_lazily(source.content(), reader.model())
                    &&& reader.source().reads().len() > 0
                    &&& reader.source().reads().last() == (
                        reader.model().info.root_hier_offset,
                        reader.model().info.root_hier_size,
                    )
                },
                Err(error) => source.reliable() && !source.failed() ==> refused_lazily(
                    source.content(),
                    error,
                ),
            },
    {
        let mut source = source;
        let ghost c = source.content();
        let file_len: u64 = source.len()?;
        if file_len < LAS_HEADER_SIZE_14 as u64 {
            return Err(Error::InvalidData(Fault::FileTooShort { len: file_len }));
        }
        let mut head = fetch(&mut source, 0, 375)?;
        let header = read_las_header(head.as_slice(), file_len)?;
        proof {
            assert(file::file_header(c) == Ok::<LasHeader, Error>(header));
        }
        let section_end: u64 = header.offset_to_point_data as u64;
        proof {
            reveal(crate::las_header::header_of);
        }
        let section_len: u64 = section_end - 375;
        if section_len > MAX_VLR_SECTION_BYTES {
            return Err(Error::InvalidData(Fault::VlrSectionTooLarge { len: section_len }));
        }
        let section = fetch(&mut source, 375, section_len as usize)?;
        bytes::push_bytes(&mut head, section.as_slice());
        proof {
            assert(head@ =~= c.subrange(0, section_end as int));
            assert(head@.subrange(0, section_end as int) =~= head@);
            lemma_vlrs_prefix(c, head@, 375, 0, header.number_of_vlrs, section_end);
        }
        let mut start = MemorySource::new(head);
        let vlrs = read_vlrs(&mut start, 375, header.number_of_vlrs, section_end, section_end)?;
        let (copc_info, laszip) = extract_required_vlrs(vlrs.as_slice())?;
        proof {
            assert(file::file_records(c, header) == Ok::<(CopcInfo, Seq<u8>), Error>(
                (copc_info, laszip@),
            ));
        }
        let ranges = read_hierarchy_ranges(&mut source, &header, &copc_info, file_len)?;
        if copc_info.root_hier_size > i32::MAX as u64 {
            return Err(Error::InvalidData(Fault::RootSizeExceedsI32));
        }
        let root = Entry {
            key: VoxelKey::root(),
            offset: copc_info.root_hier_offset,
            byte_size: copc_info.root_hier_size as i32,
            point_count: -1,
        };
        let mut reader = CopcRangeReader {
            source,
            file_len,
            header,
            copc_info,
            laszip,
            ranges,
            hierarchy: HierarchyIndex::new(),
            pending: Vec::new(),
            visited: PageSet::new(),
            limits: HierarchyReadLimits::new(),
        };
        proof {
            assert(Ok::<RangeModel, Error>(reader.model()) =~= unloaded(c));
        }
        reader.load_page(root)?;
        Ok(reader)
    }

    pub fn header(&self) -> (r: &LasHeader)
        ensures
            *r == self.model().header,
    {
        &self.header
    }

    pub fn copc_info(&self) -> (r: &CopcInfo)
        ensures
            *r == self.model().info,
    {
        &self.copc_info
    }

    /// The payload of the LASzip VLR.
    pub fn laszip_payload(&self) -> (r: &[u8])
        ensures
            r@ == self.model().laszip,
    {
        self.laszip.as_slice()
    }

    /// The references to pages that were met and not loaded.
    pub fn pending_pages(&self) -> (r: &[Entry])
        ensures
            r@ == self.model().pending,
    {
        self.pending.as_slice()
    }

    /// The loaded entries, in the order of their keys.
    pub fn entries(&self) -> (r: Vec<Entry>)
        requires
            self.wf(),
        ensures
            index::lists(r@, self.model().hierarchy),
    {
        self.hierarchy.to_vec()
    }

    /// The bytes from `start` to `end`.
    pub fn fetch_range(&mut self, start: u64, end: u64) -> (r: Result<Vec<u8>>)
        ensures
            range_read::steady(old(self).source(), final(self).source()),
            final(self).model() == old(self).model(),
            old(self).wf() ==> final(self).wf(),
            if end < start {
                r == Err::<Vec<u8>, Error>(Error::InvalidData(Fault::RangeInverted))
            } else if end - start > usize::MAX {
                r == Err::<Vec<u8>, Error>(Error::InvalidData(Fault::RangeTooLarge))
            } else {
                match r {
                    Ok(out) => {
                        &&& end <= old(self).source().content().len()
                        &&& out@ == old(self).source().content().subrange(start as int, end as int)
                    },
                    Err(_) => final(self).source().failed() || end > old(
                        self,
                    ).source().content().len(),
                }
            },
    {
        if end < start {
            return Err(Error::InvalidData(Fault::RangeInverted));
        }
        let len: u64 = end - start;
        if len > usize::MAX as u64 {
            return Err(Error::InvalidData(Fault::RangeTooLarge));
        }
        fetch(&mut self.source, start, len as usize)
    }

    /// Loads every pending page that the query can reach, and says how many there were.
    /// Loading may bring new pages, so a caller goes on until there are none.
    ///
    /// `nodes` holds the box of each pending page's node.
    pub fn load_matching(&mut self, query: PointQuery, halvings: i64, nodes: &[Bounds]) -> (r:
        Result<usize>)
        requires
            old(self).wf(),
            nodes@.len() == old(self).model().pending.len(),
        ensures
            final(self).wf(),
            range_read::steady(old(self).source(), final(self).source()),
            ({
                let c = old(self).source().content();
                let before = old(self).model();
                let reads = final(self).source().reads();
                let asked = old(self).source().reads();
                let fetched = reads.skip(asked.len() as int);
                &&& asked.is_prefix_of(reads)
                &&& match reachable(
                    before.pending,
                    nodes@,
                    before.pending.len(),
                    before.info,
                    query,
                    halvings,
                ) {
                    Err(error) => {
                        &&& r == Err::<usize, Error>(error)
                        &&& final(self).model() == before
                        &&& reads == asked
                    },
                    Ok((hit, rest)) => {
                        let start = RangeModel { pending: rest, ..before };
                        &&& fetched_for(before, final(self).model(), hit, fetched)
                        &&& match r {
                            Ok(count) => {
                                &&& count == hit.len()
                                &&& pages_loaded(c, start, hit, hit.len()) == Some(
                                    final(self).model(),
                                )
                            },
                            Err(error) => final(self).source().failed() || exists|k: int|
                                {
                                    &&& 0 <= k < hit.len()
                                    &&& pages_loaded(c, start, hit, k as nat) is Some
                                    &&& #[trigger] page_refused(
                                        c,
                                        pages_loaded(c, start, hit, k as nat)->Some_0,
                                        hit[k],
                                        error,
                                    )
                                },
                        }
                    },
                }
            }),
    {
        let mut hit: Vec<Entry> = Vec::new();
        let mut rest: Vec<Entry> = Vec::new();
        let mut i: usize = 0;
        while i < self.pending.len()
            invariant
                *self == *old(self),
                self.wf(),
                i <= self.pending@.len(),
                nodes@.len() == self.pending@.len(),
                reachable(
                    self.pending@,
                    nodes@,
                    i as nat,
                    self.copc_info,
                    query,
                    halvings,
                ) == Ok::<(Seq<Entry>, Seq<Entry>), Error>((hit@, rest@)),
            decreases self.pending@.len() - i,
        {
            let entry = self.pending[i];
            match page_may_match(entry.key, &nodes[i], &self.copc_info, query, halvings) {
                Ok(matches) => {
                    if matches {
                        hit.push(entry);
                    } else {
                        rest.push(entry);
                    }
                },
                Err(error) => {
                    proof {
                        lemma_reachable_error(
                            self.pending@,
                            nodes@,
                            (i + 1) as nat,
                            self.pending@.len(),
                            self.copc_info,
                            query,
                            halvings,
                        );
                    }
                    return Err(error);
                },
            }
            i = i + 1;
        }
        let ghost c = self.source.content();
        let ghost start = RangeModel { pending: rest@, ..self.model() };
        self.pending = rest;
        let count: usize = hit.len();
        let mut k: usize = 0;
        let ghost asked = self.source().reads();
        let ghost mut fetched = Seq::<(u64, u64)>::empty();
        proof {
            assert(self.model() =~= start);
            assert(asked + fetched =~= asked);
        }
        while k < count
            invariant
                self.wf(),
                range_read::steady(old(self).source(), self.source()),
                c == old(self).source().content(),
                count == hit@.len(),
                k <= count,
                pages_loaded(c, start, hit@, k as nat) == Some(self.model()),
                asked == old(self).source().reads(),
                self.source().reads() == asked + fetched,
                fetched_for(old(self).model(), self.model(), hit@, fetched),
                start == (RangeModel { pending: rest@, ..old(self).model() }),
                reachable(
                    old(self).model().pending,
                    nodes@,
                    old(self).model().pending.len(),
                    old(self).model().info,
                    query,
                    halvings,
                ) == Ok::<(Seq<Entry>, Seq<Entry>), Error>((hit@, rest@)),
            decreases count - k,
        {
            let ghost before = self.model();
            let loaded = self.load_page(hit[k]);
            proof {
                let more = page_fetched(before, hit@[k as int], c.len() as u64);
                lemma_fetched_more(
                    old(self).model(),
                    before,
                    self.model(),
                    hit@,
                    k as int,
                    fetched,
                    more,
                );
                assert(asked + fetched + more =~= asked + (fetched + more));
                fetched = fetched + more;
                assert((asked + fetched).skip(asked.len() as int) =~= fetched);
            }
            match loaded {
                Ok(_) => {},
                Err(error) => {
                    proof {
                        if !self.source().failed() {
                            let at = k as int;
                            assert(page_refused(
                                c,
                                pages_loaded(c, start, hit@, at as nat)->Some_0,
                                hit@[at],
                                error,
                            ));
                            assert(exists|j: int|
                                {
                                    &&& 0 <= j < hit@.len()
                                    &&& pages_loaded(c, start, hit@, j as nat) is Some
                                    &&& #[trigger] page_refused(
                                        c,
                                        pages_loaded(c, start, hit@, j as nat)->Some_0,
                                        hit@[j],
                                        error,
                                    )
                                });
                        }
                    }
                    return Err(error);
                },
            }
            k = k + 1;
        }
        proof {
            assert((asked + fetched).skip(asked.len() as int) =~= fetched);
        }
        Ok(count)
    }

    /// Loads the page that `page_entry` refers to, unless it was loaded before.
    pub fn load_page(&mut self, page_entry: Entry) -> (r: Result<()>)
        requires
            old(self).wf(),
        ensures
            final(self).wf(),
            range_read::steady(old(self).source(), final(self).source()),
            final(self).source().reads() == old(self).source().reads() + page_fetched(
                old(self).model(),
                page_entry,
                old(self).source().content().len() as u64,
            ),
            fetched_for(
                old(self).model(),
                final(self).model(),
                seq![page_entry],
                page_fetched(
                    old(self).model(),
                    page_entry,
                    old(self).source().content().len() as u64,
                ),
            ),
            match r {
                Ok(_) => page_loaded(
                    old(self).source().content(),
                    old(self).model(),
                    page_entry,
                ) == Some(final(self).model()),
                Err(error) => final(self).source().failed() || page_refused(
                    old(self).source().content(),
                    old(self).model(),
                    page_entry,
                    error,
                ),
            },
    {
        let ghost c = self.source.content();
        let ghost before = self.model();
        if page_entry.byte_size < 0 {
            return Err(
                Error::InvalidData(
                    Fault::ChildPageByteSize {
                        key: page_entry.key,
                        byte_size: page_entry.byte_size,
                    },
                ),
            );
        }
        let size: u64 = page_entry.byte_size as u64;
        proof {
            assert(seq![page_entry][0] == page_entry);
            assert(referred_by(seq![page_entry], (page_entry.offset, size)));
        }
        if !self.visited.insert(page_entry.offset, size) {
            proof {
                assert(before.visited.insert((page_entry.offset, size)) =~= before.visited);
                assert(self.model() =~= before);
            }
            self.check_loaded_part()?;
            return Ok(());
        }
        if size == 0 || size % 32 != 0 {
            return Err(Error::InvalidData(Fault::PageNotMultiple { len: size }));
        }
        self.limits.add_page(size)?;
        validate_range_in_file(
            page_entry.offset,
            size,
            self.file_len,
            RangeLabel::HierarchyPage,
        )?;
        let raw = fetch(&mut self.source, page_entry.offset, size as usize)?;
        let page = HierarchyPage::from_le_bytes(raw.as_slice())?;
        self.take_entries(&page)?;
        proof {
            assert(page_taken(c, before, page_entry) =~= Ok::<RangeModel, Error>(self.model()));
        }
        self.check_loaded_part()
    }

    /// Takes the entries of a page in.
    fn take_entries(&mut self, page: &HierarchyPage) -> (r: Result<()>)
        requires
            old(self).wf(),
        ensures
            final(self).wf(),
            final(self).source() == old(self).source(),
            final(self).model().visited == old(self).model().visited,
            match file::merged_all(
                old(self).model().hierarchy,
                page@,
                page@.len(),
                old(self).source().content().len() as u64,
                old(self).model().ranges,
            ) {
                Err(error) => r == Err::<(), Error>(error),
                Ok(hierarchy) => {
                    &&& r is Ok
                    &&& final(self).model() == (RangeModel {
                        hierarchy,
                        pending: old(self).model().pending + page_references(page@, page@.len()),
                        ..old(self).model()
                    })
                },
            },
    {
        let ghost map = self.hierarchy.map();
        let entries = page.entries();
        let count: usize = entries.len();
        let mut i: usize = 0;
        proof {
            assert(self.pending@ + page_references(page@, 0) =~= self.pending@);
        }
        while i < count
            invariant
                self.wf(),
                self.source == old(self).source,
                self.file_len == old(self).file_len,
                self.header == old(self).header,
                self.copc_info == old(self).copc_info,
                self.laszip == old(self).laszip,
                self.ranges == old(self).ranges,
                self.visited == old(self).visited,
                self.limits == old(self).limits,
                old(self).wf(),
                map == old(self).hierarchy.map(),
                entries@ == page@,
                count == page@.len(),
                i <= count,
                self.pending@ == old(self).pending@ + page_references(page@, i as nat),
                file::merged_all(map, page@, i as nat, self.file_len, self.ranges) == Ok::<
                    Map<VoxelKey, Entry>,
                    Error,
                >(self.hierarchy.map()),
            decreases count - i,
        {
            let entry = entries[i];
            match validate_hierarchy_entry(entry, self.file_len, &self.ranges) {
                Ok(_) => {},
                Err(error) => {
                    proof {
                        file::lemma_merged_all_error(
                            map,
                            page@,
                            (i + 1) as nat,
                            count as nat,
                            self.file_len,
                            self.ranges,
                        );
                    }
                    return Err(error);
                },
            }
            match self.hierarchy.get(entry.key) {
                None => {},
                Some(previous) => {
                    if !(previous.is_child_page() && !entry.is_child_page()) {
                        proof {
                            file::lemma_merged_all_error(
                                map,
                                page@,
                                (i + 1) as nat,
                                count as nat,
                                self.file_len,
                                self.ranges,
                            );
                        }
                        return Err(Error::InvalidData(Fault::DuplicateKey { previous, entry }));
                    }
                },
            }
            self.hierarchy.insert(entry);
            let ghost references = page_references(page@, i as nat);
            if entry.is_child_page() {
                self.pending.push(entry);
                proof {
                    assert(self.pending@ =~= old(self).pending@ + references.push(entry));
                }
            }
            i = i + 1;
        }
        proof {
            assert(self.model() =~= (RangeModel {
                hierarchy: self.hierarchy.map(),
                pending: old(self).model().pending + page_references(page@, page@.len()),
                ..old(self).model()
            }));
        }
        Ok(())
    }

    /// Checks the hierarchy as far as it is loaded.
    fn check_loaded_part(&self) -> (r: Result<()>)
        requires
            self.wf(),
        ensures
            match r {
                Ok(_) => loaded_part_ok(self.model()),
                Err(error) => loaded_part_error(self.model(), error),
            },
    {
        let entries = self.hierarchy.to_vec();
        proof {
            self.hierarchy.lemma_finite();
            index::lemma_points_of_listing(entries@, self.hierarchy.map());
        }
        validate_point_chunk_ranges(
            entries.as_slice(),
            Ghost(self.hierarchy.map()),
            Ghost(self.file_len),
            Ghost(self.ranges),
        )?;
        let limit: u64 = self.header.number_of_points;
        match file::points_of(entries.as_slice()) {
            None => Err(Error::InvalidData(Fault::PointTotalOverflow)),
            Some(total) => {
                if total > limit {
                    Err(Error::InvalidData(Fault::PointTotalExceeds { total, limit }))
                } else {
                    Ok(())
                }
            },
        }
    }
}

/// A new group starts only where it must: its first chunk starts more than the gap behind the
/// end of the group before it, or both together would be more than one request may fetch.
pub proof fn law_groups_are_needed(chunks: Seq<Entry>, n: nat, gap: u64, i: int)
    requires
        n <= chunks.len(),
        sort::by_offset(chunks),
        forall|k: int| 0 <= k < chunks.len() ==> chunk_end(#[trigger] chunks[k]) <= u64::MAX,
        0 < i < coalesced(chunks, n, gap).len(),
    ensures
        ({
            let before = coalesced(chunks, n, gap)[i - 1];
            let first = coalesced(chunks, n, gap)[i].entries[0];
            ||| first.offset > before.end + gap
            ||| chunk_end(first) - before.start > 64 * 1024 * 1024
            ||| before.end - before.start > 64 * 1024 * 1024
        }),
{
    law_coalesced(chunks, n, gap);
    assert(apart(coalesced(chunks, n, gap)[i - 1], coalesced(chunks, n, gap)[i], gap));
}

/// The bytes of a chunk end its size behind its place.
pub proof fn law_chunk_end(entry: Entry)
    ensures
        entry.byte_size >= 0 ==> chunk_end(entry) == entry.offset + entry.byte_size,
        entry.byte_size < 0 ==> chunk_end(entry) == entry.offset,
{
}

/// A chunk is cut from its group where it lies in the file, with all its bytes, and only where
/// the group has them.
pub proof fn law_slice_of_a_group(len: nat, group_start: u64, entry: Entry)
    ensures
        slice_check(len, group_start, entry) is Ok <==> {
            &&& entry.point_count >= 0
            &&& entry.byte_size >= 0
            &&& group_start <= entry.offset
            &&& entry.offset + entry.byte_size <= group_start + len
        },
        slice_check(len, group_start, entry) is Ok ==> {
            let (start, end, points) = slice_check(len, group_start, entry)->Ok_0;
            &&& group_start + start == entry.offset
            &&& end - start == entry.byte_size
            &&& points == entry.point_count
        },
{
}

/// A page is fetched only where it holds whole entries, lies in the file, and neither it nor all
/// pages together are larger than the limits.
pub proof fn law_fetched_page(offset: u64, byte_size: u64, total: u64, file_len: u64)
    ensures
        fetch_check(offset, byte_size, total, file_len) is Ok <==> {
            &&& byte_size > 0 && byte_size % 32 == 0
            &&& byte_size <= 64 * 1024 * 1024
            &&& total + byte_size <= 256 * 1024 * 1024
            &&& offset + byte_size <= file_len
        },
        fetch_check(offset, byte_size, total, file_len) is Ok ==> fetch_check(
            offset,
            byte_size,
            total,
            file_len,
        )->Ok_0 == total + byte_size,
{
}

/// The references of a page are its entries that lead to pages.
pub proof fn law_page_references(entries: Seq<Entry>, n: nat, entry: Entry)
    requires
        n <= entries.len(),
    ensures
        page_references(entries, n).contains(entry) <==> entry.point_count == -1 && exists|i: int|
            0 <= i < n && #[trigger] entries[i] == entry,
    decreases n,
{
    if n > 0 {
        law_page_references(entries, (n - 1) as nat, entry);
        let before = page_references(entries, (n - 1) as nat);
        let after = page_references(entries, n);
        let last = entries[n - 1];
        if before.contains(entry) {
            let k = choose|k: int| 0 <= k < before.len() && before[k] == entry;
            assert(after[k] == entry);
            let i = choose|i: int| 0 <= i < n - 1 && #[trigger] entries[i] == entry;
            assert(entries[i] == entry);
        }
        if last == entry && last.point_count == -1 {
            assert(after[after.len() - 1] == entry);
        }
        if after.contains(entry) && !before.contains(entry) {
            let k = choose|k: int| 0 <= k < after.len() && after[k] == entry;
            assert(k == before.len());
            assert(entries[n - 1] == entry);
        }
    }
}

/// Each page that is waited for is read or goes on waiting: it is read just where the query may
/// find something in it.
pub proof fn law_reached_pages(
    pending: Seq<Entry>,
    nodes: Seq<Bounds>,
    n: nat,
    info: CopcInfo,
    query: PointQuery,
    halvings: i64,
    i: int,
)
    requires
        0 <= i < n <= pending.len(),
        reachable(pending, nodes, n, info, query, halvings) is Ok,
    ensures
        ({
            let (hit, rest) = reachable(pending, nodes, n, info, query, halvings)->Ok_0;
            let answer = query::page_matches(pending[i].key, nodes[i], info, query, halvings);
            &&& answer is Ok
            &&& answer->Ok_0 ==> hit.contains(pending[i])
            &&& !answer->Ok_0 ==> rest.contains(pending[i])
            &&& hit.len() + rest.len() == n
        }),
    decreases n,
{
    let (hit, rest) = reachable(pending, nodes, n, info, query, halvings)->Ok_0;
    let (hit0, rest0) = reachable(
        pending,
        nodes,
        (n - 1) as nat,
        info,
        query,
        halvings,
    )->Ok_0;
    if i < n - 1 {
        law_reached_pages(pending, nodes, (n - 1) as nat, info, query, halvings, i);
        let answer = query::page_matches(pending[i].key, nodes[i], info, query, halvings);
        if answer->Ok_0 {
            let k = choose|k: int| 0 <= k < hit0.len() && hit0[k] == pending[i];
            assert(hit[k] == pending[i]);
        } else {
            let k = choose|k: int| 0 <= k < rest0.len() && rest0[k] == pending[i];
            assert(rest[k] == pending[i]);
        }
    } else {
        if n > 1 {
            law_reached_pages(pending, nodes, (n - 1) as nat, info, query, halvings, 0);
        }
        let answer = query::page_matches(pending[i].key, nodes[i], info, query, halvings);
        if answer->Ok_0 {
            assert(hit[hit0.len() as int] == pending[i]);
        } else {
            assert(rest[rest0.len() as int] == pending[i]);
        }
    }
}

/// A page that was met changes nothing. One that was not is taken in just where it may be
/// fetched, its bytes are entries, and they go with the others; its references then wait, it
/// counts as met, and its bytes are added to the total.
pub proof fn law_page_taken(c: Seq<u8>, model: RangeModel, entry: Entry)
    requires
        entry.byte_size >= 0,
    ensures
        ({
            let page = (entry.offset, entry.byte_size as u64);
            let bytes = c.subrange(entry.offset as int, entry.offset + entry.byte_size);
            let read = crate::hierarchy::page_of(bytes);
            let merged = file::merged_all(
                model.hierarchy,
                read->Ok_0,
                read->Ok_0.len(),
                c.len() as u64,
                model.ranges,
            );
            let after = page_taken(c, model, entry);
            &&& model.visited.contains(page) ==> after == Ok::<RangeModel, Error>(model)
            &&& !model.visited.contains(page) ==> (after is Ok <==> fetch_check(
                page.0,
                page.1,
                model.total,
                c.len() as u64,
            ) is Ok && read is Ok && merged is Ok)
            &&& !model.visited.contains(page) && after is Ok ==> {
                &&& after->Ok_0.hierarchy == merged->Ok_0
                &&& after->Ok_0.pending == model.pending + page_references(
                    read->Ok_0,
                    read->Ok_0.len(),
                )
                &&& after->Ok_0.visited == model.visited.insert(page)
                &&& after->Ok_0.total == model.total + entry.byte_size
                &&& after->Ok_0.header == model.header && after->Ok_0.info == model.info
                &&& after->Ok_0.laszip == model.laszip && after->Ok_0.ranges == model.ranges
            }
        }),
{
}

/// What is loaded of a hierarchy is accepted just where no two chunks have a byte in common and
/// there are no more points than the header says.
pub proof fn law_loaded_part(model: RangeModel)
    ensures
        loaded_part_ok(model) <==> file::chunks_disjoint(model.hierarchy) && index::point_total(
            model.hierarchy,
        ) <= model.header.number_of_points,
        forall|error: Error| #[trigger]
            loaded_part_error(model, error) ==> !loaded_part_ok(model),
{
}

/// The model of a group has its range and its chunks; groups keep their places.
pub proof fn law_model_of_a_group(groups: Seq<ChunkGroup>, i: int)
    requires
        0 <= i < groups.len(),
    ensures
        group_models(groups).len() == groups.len(),
        group_models(groups)[i].start == groups[i].start,
        group_models(groups)[i].end == groups[i].end,
        group_models(groups)[i].entries == groups[i].entries@,
{
}

/// A page is loaded just where it is taken in and what is loaded then is accepted; and it is
/// fetched just where it was not met before and may be.
pub proof fn law_page_loaded(c: Seq<u8>, model: RangeModel, entry: Entry, after: RangeModel)
    ensures
        page_loaded(c, model, entry) == Some(after) <==> page_taken(c, model, entry) == Ok::<
            RangeModel,
            Error,
        >(after) && loaded_part_ok(after),
        entry.byte_size >= 0 ==> page_fetched(model, entry, c.len() as u64) == if {
            let page = (entry.offset, entry.byte_size as u64);
            !model.visited.contains(page) && fetch_check(
                page.0,
                page.1,
                model.total,
                c.len() as u64,
            ) is Ok
        } {
            seq![(entry.offset, entry.byte_size as u64)]
        } else {
            Seq::empty()
        },
{
}

} // verus!
