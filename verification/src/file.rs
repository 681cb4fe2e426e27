//! Opening a COPC file: header, required VLRs, and the whole hierarchy.

use vstd::prelude::*;

use crate::error::{Error, Fault, RangeLabel, Result};
use crate::hierarchy::{Entry, HierarchyPage, VoxelKey};
use crate::index::{HierarchyIndex, PageSet};
use crate::index;
use crate::info::CopcInfo;
use crate::las_header::{read_las_header, LasHeader};
use crate::limits::{
    LAS_HEADER_SIZE_14, MAX_HIERARCHY_PAGE_BYTES, MAX_HIERARCHY_TOTAL_BYTES, MAX_POINT_CHUNK_BYTES,
};
use crate::range_read;
use crate::range_read::{fetch, RangeRead};
use crate::sort::sort_by_offset;
use crate::sort;
use crate::vlr;
use crate::vlr::{
    checked_range_end, extract_required_vlrs, is_copc_hierarchy_id, read_evlr_refs, read_vlrs,
    validate_range_in_file, EvlrModel, EvlrRef,
};

verus! {

/// Where a file keeps its point data and its hierarchy.
#[derive(Clone, Copy, Debug, PartialEq, Eq, Structural)]
pub struct CopcDataRanges {
    pub point_data_start: u64,
    pub point_data_end: u64,
    pub hierarchy_start: u64,
    pub hierarchy_end: u64,
}

impl CopcDataRanges {
    /// What [`CopcDataRanges::new`] answers.
    pub open spec fn of(header: LasHeader, start: u64, len: u64) -> Result<CopcDataRanges> {
        if header.offset_to_first_evlr < header.offset_to_point_data {
            Err(
                Error::InvalidData(
                    Fault::EvlrBeforePointData {
                        evlr_offset: header.offset_to_first_evlr,
                        point_offset: header.offset_to_point_data as u64,
                    },
                ),
            )
        } else {
            match vlr::range_end(start, len, RangeLabel::HierarchyEvlr) {
                Err(error) => Err(error),
                Ok(end) => Ok(
                    CopcDataRanges {
                        point_data_start: header.offset_to_point_data as u64,
                        point_data_end: header.offset_to_first_evlr,
                        hierarchy_start: start,
                        hierarchy_end: end,
                    },
                ),
            }
        }
    }

    /// The point data end where the EVLRs start; the hierarchy is the body of its EVLR.
    pub fn new(header: &LasHeader, hierarchy_start: u64, hierarchy_len: u64) -> (r: Result<
        CopcDataRanges,
    >)
        ensures
            r == CopcDataRanges::of(*header, hierarchy_start, hierarchy_len),
    {
        let point_data_start: u64 = header.offset_to_point_data as u64;
        let point_data_end: u64 = header.offset_to_first_evlr;
        if point_data_end < point_data_start {
            return Err(
                Error::InvalidData(
                    Fault::EvlrBeforePointData {
                        evlr_offset: point_data_end,
                        point_offset: point_data_start,
                    },
                ),
            );
        }
        let hierarchy_end: u64 = checked_range_end(
            hierarchy_start,
            hierarchy_len,
            RangeLabel::HierarchyEvlr,
        )?;
        Ok(CopcDataRanges { point_data_start, point_data_end, hierarchy_start, hierarchy_end })
    }
}

/// What [`validate_hierarchy_page_byte_size`] answers.
pub open spec fn page_size_check(byte_size: u64) -> Result<()> {
    if byte_size > MAX_HIERARCHY_PAGE_BYTES {
        Err(Error::InvalidData(Fault::PageTooLarge { byte_size }))
    } else {
        Ok(())
    }
}

/// Refuses pages that are too large to be read.
pub fn validate_hierarchy_page_byte_size(byte_size: u64) -> (r: Result<()>)
    ensures
        r == page_size_check(byte_size),
{
    if byte_size > MAX_HIERARCHY_PAGE_BYTES {
        return Err(Error::InvalidData(Fault::PageTooLarge { byte_size }));
    }
    Ok(())
}

/// How many bytes of hierarchy pages were read.
#[derive(Clone, Copy, Debug, PartialEq, Eq, Structural)]
pub struct HierarchyReadLimits {
    pub total_bytes: u64,
}

impl HierarchyReadLimits {
    pub fn new() -> (r: HierarchyReadLimits)
        ensures
            r.total_bytes == 0,
    {
        HierarchyReadLimits { total_bytes: 0 }
    }

    /// The total with one more page, where the limits allow it.
    pub open spec fn added(total: u64, byte_size: u64) -> Result<u64> {
        if page_size_check(byte_size) is Err {
            Err(page_size_check(byte_size)->Err_0)
        } else if total + byte_size > u64::MAX {
            Err(Error::InvalidData(Fault::PageTotalOverflow))
        } else if total + byte_size > MAX_HIERARCHY_TOTAL_BYTES {
            Err(Error::InvalidData(Fault::PageTotal { total: (total + byte_size) as u64 }))
        } else {
            Ok((total + byte_size) as u64)
        }
    }

    /// Counts one more page.
    pub fn add_page(&mut self, byte_size: u64) -> (r: Result<()>)
        ensures
            match HierarchyReadLimits::added(old(self).total_bytes, byte_size) {
                Ok(total) => r is Ok && final(self).total_bytes == total,
                Err(error) => {
                    &&& r == Err::<(), Error>(error)
                    &&& final(self).total_bytes == (if page_size_check(byte_size) is Err || old(
                        self,
                    ).total_bytes + byte_size > u64::MAX {
                        old(self).total_bytes as int
                    } else {
                        old(self).total_bytes + byte_size
                    })
                },
            },
    {
        validate_hierarchy_page_byte_size(byte_size)?;
        match self.total_bytes.checked_add(byte_size) {
            None => {
                return Err(Error::InvalidData(Fault::PageTotalOverflow));
            },
            Some(total) => {
                self.total_bytes = total;
                if total > MAX_HIERARCHY_TOTAL_BYTES {
                    return Err(Error::InvalidData(Fault::PageTotal { total }));
                }
            },
        }
        Ok(())
    }
}

/// What [`validate_hierarchy_entry`] answers.
pub open spec fn entry_check(entry: Entry, file_len: u64, ranges: CopcDataRanges) -> Result<()> {
    let size = entry.byte_size as u64;
    if entry.validity() is Err {
        entry.validity()
    } else if entry.point_count == 0 {
        Ok(())
    } else if entry.point_count > 0 {
        if size > MAX_POINT_CHUNK_BYTES {
            Err(
                Error::InvalidData(Fault::PointChunkTooLarge { key: entry.key, byte_size: size }),
            )
        } else {
            match vlr::range_in_file(entry.offset, size, file_len, RangeLabel::PointEntry) {
                Err(error) => Err(error),
                Ok(end) => if entry.offset < ranges.point_data_start || end
                    > ranges.point_data_end {
                    Err(
                        Error::InvalidData(
                            Fault::PointEntryOutside {
                                key: entry.key,
                                offset: entry.offset,
                                end,
                                section_start: ranges.point_data_start,
                                section_end: ranges.point_data_end,
                            },
                        ),
                    )
                } else {
                    Ok(())
                },
            }
        }
    } else {
        match vlr::range_in_file(entry.offset, size, file_len, RangeLabel::ChildPage) {
            Err(error) => Err(error),
            Ok(end) => if entry.offset < ranges.hierarchy_start || end > ranges.hierarchy_end {
                Err(
                    Error::InvalidData(
                        Fault::ChildPageOutside {
                            key: entry.key,
                            offset: entry.offset,
                            end,
                            body_start: ranges.hierarchy_start,
                            body_end: ranges.hierarchy_end,
                        },
                    ),
                )
            } else {
                Ok(())
            },
        }
    }
}

/// Checks an entry against the file: point chunks lie in the point data, child pages in the
/// hierarchy.
pub fn validate_hierarchy_entry(entry: Entry, file_len: u64, ranges: &CopcDataRanges) -> (r: Result<
    (),
>)
    ensures
        r == entry_check(entry, file_len, *ranges),
{
    entry.validate()?;
    if entry.point_count == 0 {
        return Ok(());
    }
    let byte_size: u64 = entry.byte_size as u64;
    if entry.point_count > 0 {
        if byte_size > MAX_POINT_CHUNK_BYTES {
            return Err(Error::InvalidData(Fault::PointChunkTooLarge { key: entry.key, byte_size }));
        }
        let end: u64 = validate_range_in_file(
            entry.offset,
            byte_size,
            file_len,
            RangeLabel::PointEntry,
        )?;
        if entry.offset < ranges.point_data_start || end > ranges.point_data_end {
            return Err(
                Error::InvalidData(
                    Fault::PointEntryOutside {
                        key: entry.key,
                        offset: entry.offset,
                        end,
                        section_start: ranges.point_data_start,
                        section_end: ranges.point_data_end,
                    },
                ),
            );
        }
        return Ok(());
    }
    let end: u64 = validate_range_in_file(
        entry.offset,
        byte_size,
        file_len,
        RangeLabel::ChildPage,
    )?;
    if entry.offset < ranges.hierarchy_start || end > ranges.hierarchy_end {
        return Err(
            Error::InvalidData(
                Fault::ChildPageOutside {
                    key: entry.key,
                    offset: entry.offset,
                    end,
                    body_start: ranges.hierarchy_start,
                    body_end: ranges.hierarchy_end,
                },
            ),
        );
    }
    Ok(())
}

/// Whether a page of this size at this place is read, and the total of page bytes then.
pub open spec fn page_check(offset: u64, byte_size: u64, total: u64, file_len: u64) -> Result<
    u64,
> {
    if byte_size == 0 {
        Err(Error::InvalidData(Fault::PageEmpty))
    } else if byte_size % 32 != 0 {
        Err(Error::InvalidData(Fault::PageNotMultiple { len: byte_size }))
    } else {
        match HierarchyReadLimits::added(total, byte_size) {
            Err(error) => Err(error),
            Ok(sum) => match vlr::range_in_file(
                offset,
                byte_size,
                file_len,
                RangeLabel::HierarchyPage,
            ) {
                Err(error) => Err(error),
                Ok(_) => Ok(sum),
            },
        }
    }
}

/// The entries of the page at `offset`.
pub open spec fn page_at(
    c: Seq<u8>,
    offset: u64,
    byte_size: u64,
    total: u64,
    file_len: u64,
) -> Result<Seq<Entry>> {
    match page_check(offset, byte_size, total, file_len) {
        Err(error) => Err(error),
        Ok(_) => crate::hierarchy::page_of(c.subrange(offset as int, offset + byte_size)),
    }
}

/// Reads the page at `offset`.
pub fn read_hierarchy_page_at<S: RangeRead>(
    reader: &mut S,
    offset: u64,
    byte_size: u64,
    file_len: u64,
    limits: &mut HierarchyReadLimits,
) -> (r: Result<HierarchyPage>)
    requires
        file_len == old(reader).content().len(),
    ensures
        range_read::steady(*old(reader), *final(reader)),
        match r {
            Ok(page) => {
                &&& page_at(
                    old(reader).content(),
                    offset,
                    byte_size,
                    old(limits).total_bytes,
                    file_len,
                ) == Ok::<Seq<Entry>, Error>(page@)
                &&& page_check(offset, byte_size, old(limits).total_bytes, file_len) == Ok::<
                    u64,
                    Error,
                >(final(limits).total_bytes)
            },
            Err(error) => final(reader).failed() || page_at(
                old(reader).content(),
                offset,
                byte_size,
                old(limits).total_bytes,
                file_len,
            ) == Err::<Seq<Entry>, Error>(error),
        },
{
    if byte_size == 0 {
        return Err(Error::InvalidData(Fault::PageEmpty));
    }
    if byte_size % 32 != 0 {
        return Err(Error::InvalidData(Fault::PageNotMultiple { len: byte_size }));
    }
    limits.add_page(byte_size)?;
    validate_range_in_file(offset, byte_size, file_len, RangeLabel::HierarchyPage)?;
    let raw = fetch(reader, offset, byte_size as usize)?;
    HierarchyPage::from_le_bytes(raw.as_slice())
}

/// `map` with one more entry. A key may occur twice only where a page reference is replaced
/// by the node itself.
pub open spec fn merged(map: Map<VoxelKey, Entry>, entry: Entry) -> Result<
    Map<VoxelKey, Entry>,
> {
    if map.contains_key(entry.key) && !(map[entry.key].point_count == -1 && entry.point_count
        != -1) {
        Err(Error::InvalidData(Fault::DuplicateKey { previous: map[entry.key], entry }))
    } else {
        Ok(map.insert(entry.key, entry))
    }
}

/// `map` with the first `n` of `entries`, each checked against the file.
pub open spec fn merged_all(
    map: Map<VoxelKey, Entry>,
    entries: Seq<Entry>,
    n: nat,
    file_len: u64,
    ranges: CopcDataRanges,
) -> Result<Map<VoxelKey, Entry>>
    decreases n,
{
    if n == 0 {
        Ok(map)
    } else {
        match merged_all(map, entries, (n - 1) as nat, file_len, ranges) {
            Err(error) => Err(error),
            Ok(before) => match entry_check(entries[n - 1], file_len, ranges) {
                Err(error) => Err(error),
                Ok(_) => merged(before, entries[n - 1]),
            },
        }
    }
}

/// The pages that were met, and those of them that are still to be read.
#[verifier::ext_equal]
pub struct PageQueue {
    pub visited: Set<(u64, u64)>,
    pub pending: Seq<(u64, u64)>,
}

/// The queue with the pages that the first `n` of `entries` refer to, each once.
pub open spec fn queued(queue: PageQueue, entries: Seq<Entry>, n: nat) -> PageQueue
    decreases n,
{
    if n == 0 {
        queue
    } else {
        let before = queued(queue, entries, (n - 1) as nat);
        let entry = entries[n - 1];
        let page = (entry.offset, entry.byte_size as u64);
        if entry.point_count == -1 && !before.visited.contains(page) {
            PageQueue {
                visited: before.visited.insert(page),
                pending: before.pending.push(page),
            }
        } else {
            before
        }
    }
}

pub proof fn lemma_merged_all_error(
    map: Map<VoxelKey, Entry>,
    entries: Seq<Entry>,
    n: nat,
    m: nat,
    file_len: u64,
    ranges: CopcDataRanges,
)
    requires
        n <= m,
        merged_all(map, entries, n, file_len, ranges) is Err,
    ensures
        merged_all(map, entries, m, file_len, ranges) == merged_all(
            map,
            entries,
            n,
            file_len,
            ranges,
        ),
    decreases m,
{
    if n < m {
        lemma_merged_all_error(map, entries, n, (m - 1) as nat, file_len, ranges);
    }
}

/// Takes the entries of a page into the hierarchy, and queues the pages that it refers to.
pub fn queue_hierarchy_page(
    page: &HierarchyPage,
    hierarchy: &mut HierarchyIndex,
    visited: &mut PageSet,
    pending: &mut Vec<(u64, u64)>,
    file_len: u64,
    ranges: &CopcDataRanges,
) -> (r: Result<()>)
    requires
        old(hierarchy).wf(),
    ensures
        final(hierarchy).wf(),
        match merged_all(old(hierarchy).map(), page@, page@.len(), file_len, *ranges) {
            Err(error) => r == Err::<(), Error>(error),
            Ok(map) => {
                let before = PageQueue { visited: old(visited)@, pending: old(pending)@ };
                let after = queued(before, page@, page@.len());
                &&& r is Ok
                &&& final(hierarchy).map() == map
                &&& final(visited)@ == after.visited
                &&& final(pending)@ == after.pending
            },
        },
{
    let entries = page.entries();
    let ghost start = hierarchy.map();
    let mut i: usize = 0;
    while i < entries.len()
        invariant
            i <= entries@.len(),
            entries@ == page@,
            hierarchy.wf(),
            start == old(hierarchy).map(),
            merged_all(start, page@, i as nat, file_len, *ranges) == Ok::<
                Map<VoxelKey, Entry>,
                Error,
            >(hierarchy.map()),
        decreases entries@.len() - i,
    {
        let entry = entries[i];
        let ghost next = (i + 1) as nat;
        let ghost count = page@.len();
        match validate_hierarchy_entry(entry, file_len, ranges) {
            Ok(_) => {},
            Err(error) => {
                proof {
                    lemma_merged_all_error(start, page@, next, count, file_len, *ranges);
                }
                return Err(error);
            },
        }
        match hierarchy.get(entry.key) {
            None => {
                hierarchy.insert(entry);
            },
            Some(previous) => {
                if previous.is_child_page() && !entry.is_child_page() {
                    hierarchy.insert(entry);
                } else {
                    proof {
                        lemma_merged_all_error(start, page@, next, count, file_len, *ranges);
                    }
                    return Err(Error::InvalidData(Fault::DuplicateKey { previous, entry }));
                }
            },
        }
        i = i + 1;
    }
    let ghost before = PageQueue { visited: visited@, pending: pending@ };
    let mut j: usize = 0;
    while j < entries.len()
        invariant
            j <= entries@.len(),
            entries@ == page@,
            before == (PageQueue { visited: old(visited)@, pending: old(pending)@ }),
            queued(before, page@, j as nat).visited == visited@,
            queued(before, page@, j as nat).pending == pending@,
        decreases entries@.len() - j,
    {
        let entry = entries[j];
        if entry.is_child_page() {
            let byte_size: u64 = entry.byte_size as u64;
            if visited.insert(entry.offset, byte_size) {
                pending.push((entry.offset, byte_size));
            }
        }
        proof {
            let now = queued(before, page@, j as nat).visited;
            let met = (entry.offset, entry.byte_size as u64);
            if now.contains(met) {
                assert(now.insert(met) =~= now);
            }
        }
        j = j + 1;
    }
    Ok(())
}

/// The hierarchy after all queued pages, and those that they refer to, were read: the page
/// that was queued last is read first.
pub open spec fn loaded(
    c: Seq<u8>,
    map: Map<VoxelKey, Entry>,
    queue: PageQueue,
    total: u64,
    file_len: u64,
    ranges: CopcDataRanges,
) -> Result<Map<VoxelKey, Entry>>
    decreases MAX_HIERARCHY_TOTAL_BYTES - total,
{
    if queue.pending.len() == 0 {
        Ok(map)
    } else {
        let (offset, byte_size) = queue.pending.last();
        let rest = PageQueue { visited: queue.visited, pending: queue.pending.drop_last() };
        match page_at(c, offset, byte_size, total, file_len) {
            Err(error) => Err(error),
            Ok(entries) => match merged_all(map, entries, entries.len(), file_len, ranges) {
                Err(error) => Err(error),
                Ok(next) => loaded(
                    c,
                    next,
                    queued(rest, entries, entries.len()),
                    (total + byte_size) as u64,
                    file_len,
                    ranges,
                ),
            },
        }
    }
}

/// Reads the whole tree of pages with an explicit list of pages to do, so that a long chain
/// of child pages needs no stack.
pub fn insert_hierarchy_pages<S: RangeRead>(
    reader: &mut S,
    root_page: &HierarchyPage,
    hierarchy: &mut HierarchyIndex,
    visited: &mut PageSet,
    file_len: u64,
    limits: &mut HierarchyReadLimits,
    ranges: &CopcDataRanges,
) -> (r: Result<()>)
    requires
        old(hierarchy).wf(),
        file_len == old(reader).content().len(),
    ensures
        range_read::steady(*old(reader), *final(reader)),
        final(hierarchy).wf(),
        match r {
            Ok(_) => tree_spec(
                old(reader).content(),
                root_page@,
                old(hierarchy).map(),
                old(visited)@,
                old(limits).total_bytes,
                file_len,
                *ranges,
            ) == Ok::<Map<VoxelKey, Entry>, Error>(final(hierarchy).map()),
            Err(error) => final(reader).failed() || tree_spec(
                old(reader).content(),
                root_page@,
                old(hierarchy).map(),
                old(visited)@,
                old(limits).total_bytes,
                file_len,
                *ranges,
            ) == Err::<Map<VoxelKey, Entry>, Error>(error),
        },
{
    let mut pending: Vec<(u64, u64)> = Vec::new();
    let ghost c = reader.content();
    let ghost whole = tree_spec(
        c,
        root_page@,
        hierarchy.map(),
        visited@,
        limits.total_bytes,
        file_len,
        *ranges,
    );
    queue_hierarchy_page(root_page, hierarchy, visited, &mut pending, file_len, ranges)?;
    let ghost mut queue = PageQueue { visited: visited@, pending: pending@ };
    while pending.len() > 0
        invariant
            hierarchy.wf(),
            range_read::steady(*old(reader), *reader),
            c == old(reader).content(),
            file_len == c.len(),
            whole == tree_spec(
                c,
                root_page@,
                old(hierarchy).map(),
                old(visited)@,
                old(limits).total_bytes,
                file_len,
                *ranges,
            ),
            queue == (PageQueue { visited: visited@, pending: pending@ }),
            whole == loaded(c, hierarchy.map(), queue, limits.total_bytes, file_len, *ranges),
        decreases MAX_HIERARCHY_TOTAL_BYTES - limits.total_bytes, pending@.len(),
    {
        let ghost total = limits.total_bytes;
        let ghost before = queue;
        let ghost map = hierarchy.map();
        let last: usize = pending.len() - 1;
        let (offset, byte_size) = pending[last];
        pending.pop();
        let ghost rest = PageQueue { visited: visited@, pending: pending@ };
        proof {
            assert(before.pending.last() == (offset, byte_size));
            assert(before.pending.drop_last() =~= pending@);
        }
        let page = read_hierarchy_page_at(reader, offset, byte_size, file_len, limits)?;
        queue_hierarchy_page(&page, hierarchy, visited, &mut pending, file_len, ranges)?;
        proof {
            queue = PageQueue { visited: visited@, pending: pending@ };
            assert(queue =~= queued(rest, page@, page@.len()));
            assert(limits.total_bytes == total + byte_size);
        }
    }
    Ok(())
}

/// The hierarchy whose root page has the given entries.
pub open spec fn tree_spec(
    c: Seq<u8>,
    root: Seq<Entry>,
    map: Map<VoxelKey, Entry>,
    visited: Set<(u64, u64)>,
    total: u64,
    file_len: u64,
    ranges: CopcDataRanges,
) -> Result<Map<VoxelKey, Entry>> {
    match merged_all(map, root, root.len(), file_len, ranges) {
        Err(error) => Err(error),
        Ok(next) => loaded(
            c,
            next,
            queued(PageQueue { visited, pending: Seq::empty() }, root, root.len()),
            total,
            file_len,
            ranges,
        ),
    }
}

/// Whether the data of two nodes share a byte.
pub open spec fn overlap(a: Entry, b: Entry) -> bool {
    a.offset < b.offset + b.byte_size && b.offset < a.offset + a.byte_size
}

/// No two nodes share a byte of point data.
pub open spec fn chunks_disjoint(map: Map<VoxelKey, Entry>) -> bool {
    forall|a: VoxelKey, b: VoxelKey|
        #![trigger map.contains_key(a), map.contains_key(b)]
        map.contains_key(a) && map.contains_key(b) && a != b && map[a].point_count > 0
            && map[b].point_count > 0 ==> !overlap(map[a], map[b])
}

/// Two nodes of the map that share a byte.
pub open spec fn overlapping_pair(
    map: Map<VoxelKey, Entry>,
    first: VoxelKey,
    second: VoxelKey,
) -> bool {
    &&& map.contains_key(first) && map.contains_key(second) && first != second
    &&& map[first].point_count > 0 && map[second].point_count > 0
    &&& overlap(map[first], map[second])
}

/// Every entry of the map is checked against the file.
pub open spec fn all_checked(
    map: Map<VoxelKey, Entry>,
    file_len: u64,
    ranges: CopcDataRanges,
) -> bool {
    forall|key: VoxelKey| #[trigger]
        map.contains_key(key) ==> map[key].key == key && entry_check(map[key], file_len, ranges)
            is Ok
}

/// The entries with point data, in order.
fn with_points(entries: &[Entry]) -> (r: Vec<Entry>)
    ensures
        forall|entry: Entry| #[trigger]
            r@.contains(entry) <==> entries@.contains(entry) && entry.point_count > 0,
        index::keys_increase(entries@) ==> index::keys_increase(r@),
{
    let mut out: Vec<Entry> = Vec::new();
    let mut i: usize = 0;
    proof {
        assert(entries@.subrange(0, 0) =~= Seq::empty());
    }
    while i < entries.len()
        invariant
            i <= entries@.len(),
            forall|entry: Entry| #[trigger]
                out@.contains(entry) <==> entries@.subrange(0, i as int).contains(entry)
                    && entry.point_count > 0,
            index::keys_increase(entries@) ==> index::keys_increase(out@),
        decreases entries@.len() - i,
    {
        let entry = entries[i];
        let ghost before = out@;
        let ghost seen = entries@.subrange(0, i as int);
        proof {
            assert(entries@.subrange(0, i + 1) =~= seen.push(entry));
            assert forall|e: Entry| #[trigger]
                seen.push(entry).contains(e) <==> seen.contains(e) || e == entry by {
                if seen.contains(e) {
                    let k = choose|k: int| 0 <= k < seen.len() && seen[k] == e;
                    assert(seen.push(entry)[k] == e);
                }
                assert(seen.push(entry)[seen.len() as int] == entry);
            }
        }
        if entry.has_point_data() {
            out.push(entry);
            proof {
                assert forall|e: Entry| #[trigger] out@.contains(e) <==> before.contains(e) || e
                    == entry by {
                    if before.contains(e) {
                        let k = choose|k: int| 0 <= k < before.len() && before[k] == e;
                        assert(out@[k] == e);
                    }
                    assert(out@[before.len() as int] == entry);
                }
                if index::keys_increase(entries@) {
                    assert forall|a: int, b: int| 0 <= a < b < out@.len() implies (
                    #[trigger] out@[a]).key.order() < (#[trigger] out@[b]).key.order() by {
                        if b == before.len() {
                            assert(before.contains(out@[a]));
                            let k = choose|k: int| 0 <= k < seen.len() && seen[k] == out@[a];
                            assert(entries@[k] == out@[a]);
                            assert(entries@[i as int] == entry);
                        } else {
                            assert(out@[a] == before[a] && out@[b] == before[b]);
                        }
                    }
                }
            }
        }
        i = i + 1;
    }
    proof {
        assert(entries@.subrange(0, entries@.len() as int) =~= entries@);
    }
    out
}

/// Refuses hierarchies in which two nodes share a byte of point data.
pub(crate) fn validate_point_chunk_ranges(
    entries: &[Entry],
    Ghost(map): Ghost<Map<VoxelKey, Entry>>,
    Ghost(file_len): Ghost<u64>,
    Ghost(ranges): Ghost<CopcDataRanges>,
) -> (r: Result<()>)
    requires
        index::lists(entries@, map),
        all_checked(map, file_len, ranges),
    ensures
        match r {
            Ok(_) => chunks_disjoint(map),
            Err(Error::InvalidData(Fault::ChunksOverlap { first, second })) => overlapping_pair(
                map,
                first,
                second,
            ),
            Err(_) => false,
        },
{
    let chunks = with_points(entries);
    let ordered = sort_by_offset(chunks.as_slice());
    proof {
        assert forall|i: int| 0 <= i < ordered@.len() implies {
            let entry = #[trigger] ordered@[i];
            &&& map.contains_key(entry.key)
            &&& map[entry.key] == entry
            &&& entry.point_count > 0
            &&& entry.byte_size > 0
            &&& entry.offset + entry.byte_size <= u64::MAX
        } by {
            let entry = ordered@[i];
            assert(ordered@.contains(entry));
            sort::lemma_same_members(ordered@, chunks@, entry);
            assert(entries@.contains(entry));
            let k = choose|k: int| 0 <= k < entries@.len() && entries@[k] == entry;
            assert(map.contains_key(entries@[k].key));
        }
        lemma_distinct_keys(chunks@, ordered@);
    }
    let mut i: usize = 1;
    while i < ordered.len()
        invariant
            1 <= i,
            i <= ordered@.len() || ordered@.len() == 0,
            sort::sorted(ordered@),
            forall|a: int, b: int|
                0 <= a < b < ordered@.len() ==> (#[trigger] ordered@[a]).key != (
                #[trigger] ordered@[b]).key,
            forall|k: int|
                0 <= k < ordered@.len() ==> {
                    let entry = #[trigger] ordered@[k];
                    &&& map.contains_key(entry.key)
                    &&& map[entry.key] == entry
                    &&& entry.point_count > 0
                    &&& entry.byte_size > 0
                    &&& entry.offset + entry.byte_size <= u64::MAX
                },
            forall|a: int, b: int|
                0 <= a < b < i && b < ordered@.len() ==> (#[trigger] ordered@[a]).offset
                    + ordered@[a].byte_size <= (#[trigger] ordered@[b]).offset,
        decreases ordered@.len() - i,
    {
        let previous = ordered[i - 1];
        let next = ordered[i];
        proof {
            assert(sort::not_after(ordered@[i - 1], ordered@[i as int]));
        }
        if previous.offset + previous.byte_size as u64 > next.offset {
            return Err(
                Error::InvalidData(
                    Fault::ChunksOverlap { first: previous.key, second: next.key },
                ),
            );
        }
        i = i + 1;
    }
    proof {
        assert forall|a: VoxelKey, b: VoxelKey|
            #![trigger map.contains_key(a), map.contains_key(b)]
            map.contains_key(a) && map.contains_key(b) && a != b && map[a].point_count > 0
                && map[b].point_count > 0 implies !overlap(map[a], map[b]) by {
            let i = lemma_position(entries@, chunks@, ordered@, map, a);
            let j = lemma_position(entries@, chunks@, ordered@, map, b);
            if i < j {
                assert(ordered@[i].offset + ordered@[i].byte_size <= ordered@[j].offset);
            } else {
                assert(j < i);
                assert(ordered@[j].offset + ordered@[j].byte_size <= ordered@[i].offset);
            }
        }
    }
    Ok(())
}

proof fn lemma_distinct_keys(chunks: Seq<Entry>, ordered: Seq<Entry>)
    requires
        index::keys_increase(chunks),
        ordered.to_multiset() =~= chunks.to_multiset(),
    ensures
        forall|a: int, b: int|
            0 <= a < b < ordered.len() ==> (#[trigger] ordered[a]).key != (
            #[trigger] ordered[b]).key,
{
    assert(chunks.no_duplicates()) by {
        assert forall|a: int, b: int| 0 <= a < b < chunks.len() implies chunks[a] != chunks[b] by {
            assert(chunks[a].key.order() < chunks[b].key.order());
        }
    }
    chunks.lemma_multiset_has_no_duplicates();
    ordered.lemma_multiset_has_no_duplicates_conv();
    assert forall|a: int, b: int| 0 <= a < b < ordered.len() implies (#[trigger] ordered[a]).key
        != (#[trigger] ordered[b]).key by {
        sort::lemma_same_members(ordered, chunks, ordered[a]);
        sort::lemma_same_members(ordered, chunks, ordered[b]);
        assert(ordered.contains(ordered[a]) && ordered.contains(ordered[b]));
        let i = choose|i: int| 0 <= i < chunks.len() && chunks[i] == ordered[a];
        let j = choose|j: int| 0 <= j < chunks.len() && chunks[j] == ordered[b];
        if i < j {
            assert(chunks[i].key.order() < chunks[j].key.order());
        } else if j < i {
            assert(chunks[j].key.order() < chunks[i].key.order());
        } else {
            assert(ordered[a] == ordered[b]);
        }
    }
}

proof fn lemma_position(
    entries: Seq<Entry>,
    chunks: Seq<Entry>,
    ordered: Seq<Entry>,
    map: Map<VoxelKey, Entry>,
    key: VoxelKey,
) -> (i: int)
    requires
        index::lists(entries, map),
        map.contains_key(key),
        map[key].point_count > 0,
        forall|entry: Entry| #[trigger]
            chunks.contains(entry) <==> entries.contains(entry) && entry.point_count > 0,
        ordered.to_multiset() =~= chunks.to_multiset(),
    ensures
        0 <= i < ordered.len(),
        ordered[i] == map[key],
{
    let k = choose|k: int| 0 <= k < entries.len() && (#[trigger] entries[k]).key == key;
    assert(entries[k] == map[key]);
    assert(entries.contains(map[key]));
    assert(chunks.contains(map[key]));
    sort::lemma_same_members(ordered, chunks, map[key]);
    choose|i: int| 0 <= i < ordered.len() && ordered[i] == map[key]
}

/// What [`validate_hierarchy_point_count`] answers for a hierarchy with `total` points.
pub open spec fn count_check(total: nat, number_of_points: u64) -> Result<()> {
    if total > u64::MAX {
        Err(Error::InvalidData(Fault::PointTotalOverflow))
    } else if total != number_of_points {
        Err(
            Error::InvalidData(
                Fault::PointTotal { total: total as u64, expected: number_of_points },
            ),
        )
    } else {
        Ok(())
    }
}

proof fn lemma_points_monotonic(entries: Seq<Entry>, n: int)
    requires
        0 <= n <= entries.len(),
    ensures
        index::points_in(entries.subrange(0, n)) <= index::points_in(entries),
    decreases entries.len(),
{
    if n == entries.len() {
        assert(entries.subrange(0, n) =~= entries);
    } else {
        assert(entries.drop_last().subrange(0, n) =~= entries.subrange(0, n));
        lemma_points_monotonic(entries.drop_last(), n);
    }
}

/// The number of points that the entries hold, where it fits.
pub fn points_of(entries: &[Entry]) -> (r: Option<u64>)
    ensures
        match r {
            Some(total) => total == index::points_in(entries@),
            None => index::points_in(entries@) > u64::MAX,
        },
{
    let mut total: u64 = 0;
    let mut i: usize = 0;
    proof {
        assert(entries@.subrange(0, 0) =~= Seq::empty());
    }
    while i < entries.len()
        invariant
            i <= entries@.len(),
            total == index::points_in(entries@.subrange(0, i as int)),
        decreases entries@.len() - i,
    {
        let entry = entries[i];
        proof {
            let longer = entries@.subrange(0, i + 1);
            assert(longer.drop_last() =~= entries@.subrange(0, i as int));
            assert(longer.last() == entry);
        }
        if entry.has_point_data() {
            match total.checked_add(entry.point_count as u64) {
                Some(sum) => {
                    total = sum;
                },
                None => {
                    proof {
                        lemma_points_monotonic(entries@, i + 1);
                    }
                    return None;
                },
            }
        }
        i = i + 1;
    }
    proof {
        assert(entries@.subrange(0, entries@.len() as int) =~= entries@);
    }
    Some(total)
}

/// Each point belongs to exactly one node, so the nodes hold as many points as the header
/// declares.
pub fn validate_hierarchy_point_count(entries: &[Entry], number_of_points: u64) -> (r: Result<()>)
    ensures
        r == count_check(index::points_in(entries@), number_of_points),
{
    match points_of(entries) {
        None => Err(Error::InvalidData(Fault::PointTotalOverflow)),
        Some(total) => {
            if total != number_of_points {
                Err(Error::InvalidData(Fault::PointTotal { total, expected: number_of_points }))
            } else {
                Ok(())
            }
        },
    }
}

pub proof fn lemma_merged_all_checked(
    map: Map<VoxelKey, Entry>,
    entries: Seq<Entry>,
    n: nat,
    file_len: u64,
    ranges: CopcDataRanges,
)
    requires
        all_checked(map, file_len, ranges),
        n <= entries.len(),
        merged_all(map, entries, n, file_len, ranges) is Ok,
    ensures
        all_checked(merged_all(map, entries, n, file_len, ranges)->Ok_0, file_len, ranges),
    decreases n,
{
    if n > 0 {
        lemma_merged_all_checked(map, entries, (n - 1) as nat, file_len, ranges);
    }
}

proof fn lemma_loaded_checked(
    c: Seq<u8>,
    map: Map<VoxelKey, Entry>,
    queue: PageQueue,
    total: u64,
    file_len: u64,
    ranges: CopcDataRanges,
)
    requires
        all_checked(map, file_len, ranges),
        loaded(c, map, queue, total, file_len, ranges) is Ok,
    ensures
        all_checked(loaded(c, map, queue, total, file_len, ranges)->Ok_0, file_len, ranges),
    decreases MAX_HIERARCHY_TOTAL_BYTES - total,
{
    if queue.pending.len() > 0 {
        let (offset, byte_size) = queue.pending.last();
        let rest = PageQueue { visited: queue.visited, pending: queue.pending.drop_last() };
        let entries = page_at(c, offset, byte_size, total, file_len)->Ok_0;
        lemma_merged_all_checked(map, entries, entries.len(), file_len, ranges);
        let next = merged_all(map, entries, entries.len(), file_len, ranges)->Ok_0;
        lemma_loaded_checked(
            c,
            next,
            queued(rest, entries, entries.len()),
            (total + byte_size) as u64,
            file_len,
            ranges,
        );
    }
}

proof fn lemma_tree_checked(
    c: Seq<u8>,
    root: Seq<Entry>,
    visited: Set<(u64, u64)>,
    total: u64,
    file_len: u64,
    ranges: CopcDataRanges,
)
    requires
        tree_spec(c, root, Map::empty(), visited, total, file_len, ranges) is Ok,
    ensures
        all_checked(
            tree_spec(c, root, Map::empty(), visited, total, file_len, ranges)->Ok_0,
            file_len,
            ranges,
        ),
{
    lemma_merged_all_checked(Map::empty(), root, root.len(), file_len, ranges);
    lemma_loaded_checked(
        c,
        merged_all(Map::empty(), root, root.len(), file_len, ranges)->Ok_0,
        queued(PageQueue { visited, pending: Seq::empty() }, root, root.len()),
        total,
        file_len,
        ranges,
    );
}

/// What a COPC file holds.
#[verifier::ext_equal]
pub struct CopcModel {
    pub header: LasHeader,
    pub info: CopcInfo,
    pub laszip: Seq<u8>,
    pub root: Seq<Entry>,
    pub hierarchy: Map<VoxelKey, Entry>,
    pub ranges: CopcDataRanges,
}

/// The hierarchy EVLRs among `evlrs`.
pub open spec fn hierarchies_in(evlrs: Seq<EvlrModel>) -> Seq<EvlrModel> {
    evlrs.filter(|evlr: EvlrModel| vlr::is_hierarchy(evlr.user_id, evlr.record_id))
}

/// The header, or why the content is too short or not LAS 1.4.
pub open spec fn file_header(c: Seq<u8>) -> Result<LasHeader> {
    if c.len() < LAS_HEADER_SIZE_14 {
        Err(Error::InvalidData(Fault::FileTooShort { len: c.len() as u64 }))
    } else {
        crate::las_header::header_of(c.subrange(0, 375), c.len() as u64)
    }
}

/// The COPC info and the LASzip payload of a file with the given header.
pub open spec fn file_records(c: Seq<u8>, header: LasHeader) -> Result<(CopcInfo, Seq<u8>)> {
    match vlr::vlrs_spec(
        c,
        375,
        header.number_of_vlrs,
        c.len() as u64,
        header.offset_to_point_data as u64,
    ) {
        Err(error) => Err(error),
        Ok(vlrs) => vlr::required_spec(vlrs),
    }
}

/// The place of the hierarchy, whose root page must not be too large.
pub open spec fn root_ranges(c: Seq<u8>, header: LasHeader, info: CopcInfo) -> Result<
    CopcDataRanges,
> {
    match page_size_check(info.root_hier_size) {
        Err(error) => Err(error),
        Ok(_) => hierarchy_ranges(c, header, info),
    }
}

/// The first hierarchy EVLR, which must start with the root page.
pub open spec fn hierarchy_ranges(c: Seq<u8>, header: LasHeader, info: CopcInfo) -> Result<
    CopcDataRanges,
> {
    match vlr::evlrs_spec(c, header, c.len() as u64) {
        Err(error) => Err(error),
        Ok(evlrs) => {
            let found = hierarchies_in(evlrs);
            if found.len() == 0 {
                Err(Error::InvalidData(Fault::MissingHierarchyEvlr))
            } else if info.root_hier_offset != found[0].data_offset {
                Err(
                    Error::InvalidData(
                        Fault::RootOffsetMismatch {
                            offset: info.root_hier_offset,
                            evlr_offset: found[0].data_offset,
                        },
                    ),
                )
            } else if info.root_hier_size > found[0].data_len {
                Err(
                    Error::InvalidData(
                        Fault::RootSizeExceedsEvlr {
                            size: info.root_hier_size,
                            evlr_len: found[0].data_len,
                        },
                    ),
                )
            } else {
                CopcDataRanges::of(header, found[0].data_offset, found[0].data_len)
            }
        },
    }
}

/// The file up to the last checks: everything is read, and each entry checked by itself.
#[verifier::opaque]
pub open spec fn file_loaded(c: Seq<u8>) -> Result<CopcModel> {
    let file_len = c.len() as u64;
    match file_header(c) {
        Err(error) => Err(error),
        Ok(header) => match file_records(c, header) {
            Err(error) => Err(error),
            Ok((info, laszip)) => match root_ranges(c, header, info) {
                Err(error) => Err(error),
                Ok(ranges) => {
                    let offset = info.root_hier_offset;
                    let size = info.root_hier_size;
                    match page_at(c, offset, size, 0, file_len) {
                        Err(error) => Err(error),
                        Ok(root) => match tree_spec(
                            c,
                            root,
                            Map::empty(),
                            Set::empty().insert((offset, size)),
                            size,
                            file_len,
                            ranges,
                        ) {
                            Err(error) => Err(error),
                            Ok(hierarchy) => Ok(
                                CopcModel { header, info, laszip, root, hierarchy, ranges },
                            ),
                        },
                    }
                },
            },
        },
    }
}

/// Whether `answer` is what opening the content `c` gives. Where nodes overlap, the error
/// names two that do.
pub open spec fn opens_as(c: Seq<u8>, answer: Result<CopcModel>) -> bool {
    match file_loaded(c) {
        Err(error) => answer == Err::<CopcModel, Error>(error),
        Ok(model) => if !chunks_disjoint(model.hierarchy) {
            match answer {
                Err(Error::InvalidData(Fault::ChunksOverlap { first, second })) => overlapping_pair(
                    model.hierarchy,
                    first,
                    second,
                ),
                _ => false,
            }
        } else {
            match count_check(
                index::point_total(model.hierarchy),
                model.header.number_of_points,
            ) {
                Err(error) => answer == Err::<CopcModel, Error>(error),
                Ok(_) => answer == Ok::<CopcModel, Error>(model),
            }
        },
    }
}

/// A parsed COPC file.
#[derive(Clone, Debug)]
pub struct CopcFile {
    header: LasHeader,
    copc_info: CopcInfo,
    laszip: Vec<u8>,
    root_hierarchy: HierarchyPage,
    hierarchy: HierarchyIndex,
    ranges: CopcDataRanges,
}

impl View for CopcFile {
    type V = CopcModel;

    closed spec fn view(&self) -> CopcModel {
        CopcModel {
            header: self.header,
            info: self.copc_info,
            laszip: self.laszip@,
            root: self.root_hierarchy@,
            hierarchy: self.hierarchy.map(),
            ranges: self.ranges,
        }
    }
}

/// The answer with the file replaced by what it holds.
pub open spec fn answer_model(r: Result<CopcFile>) -> Result<CopcModel> {
    match r {
        Ok(file) => Ok(file@),
        Err(error) => Err(error),
    }
}

fn find_hierarchy(evlrs: &[EvlrRef]) -> (r: Option<usize>)
    ensures
        ({
            let found = hierarchies_in(vlr::evlr_models(evlrs@));
            match r {
                Some(i) => i < evlrs@.len() && found.len() > 0 && evlrs@[i as int]@ == found[0],
                None => found.len() == 0,
            }
        }),
{
    let ghost f = |evlr: EvlrModel| vlr::is_hierarchy(evlr.user_id, evlr.record_id);
    let ghost all = vlr::evlr_models(evlrs@);
    let mut i: usize = 0;
    proof {
        reveal(Seq::filter);
        assert(all.subrange(0, 0) =~= Seq::empty());
    }
    while i < evlrs.len()
        invariant
            i <= evlrs@.len(),
            all == vlr::evlr_models(evlrs@),
            f == (|evlr: EvlrModel| vlr::is_hierarchy(evlr.user_id, evlr.record_id)),
            all.subrange(0, i as int).filter(f).len() == 0,
        decreases evlrs@.len() - i,
    {
        proof {
            reveal(Seq::filter);
            assert(all.subrange(0, i + 1).drop_last() =~= all.subrange(0, i as int));
        }
        if is_copc_hierarchy_id(evlrs[i].user_id.as_slice(), evlrs[i].record_id) {
            proof {
                lemma_filter_head(all, f, i + 1);
            }
            return Some(i);
        }
        i = i + 1;
    }
    proof {
        assert(all.subrange(0, all.len() as int) =~= all);
    }
    None
}

proof fn lemma_filter_head(all: Seq<EvlrModel>, f: spec_fn(EvlrModel) -> bool, n: int)
    requires
        0 < n <= all.len(),
        all.subrange(0, n).filter(f).len() == 1,
        all.subrange(0, n).filter(f)[0] == all[n - 1],
    ensures
        all.filter(f).len() > 0,
        all.filter(f)[0] == all[n - 1],
    decreases all.len(),
{
    reveal(Seq::filter);
    if n == all.len() {
        assert(all.subrange(0, n) =~= all);
    } else {
        assert(all.drop_last().subrange(0, n) =~= all.subrange(0, n));
        lemma_filter_head(all.drop_last(), f, n);
    }
}

/// Finds the hierarchy EVLR, which must start with the root page.
pub fn read_hierarchy_ranges<S: RangeRead>(
    reader: &mut S,
    header: &LasHeader,
    info: &CopcInfo,
    file_len: u64,
) -> (r: Result<CopcDataRanges>)
    requires
        file_len == old(reader).content().len(),
    ensures
        range_read::steady(*old(reader), *final(reader)),
        match r {
            Ok(ranges) => hierarchy_ranges(old(reader).content(), *header, *info) == Ok::<
                CopcDataRanges,
                Error,
            >(ranges),
            Err(error) => final(reader).failed() || hierarchy_ranges(
                old(reader).content(),
                *header,
                *info,
            ) == Err::<CopcDataRanges, Error>(error),
        },
{
    let evlrs = read_evlr_refs(reader, header, file_len)?;
    let root_index: usize = match find_hierarchy(evlrs.as_slice()) {
        Some(i) => i,
        None => {
            return Err(Error::InvalidData(Fault::MissingHierarchyEvlr));
        },
    };
    let evlr_offset: u64 = evlrs[root_index].data_offset;
    let evlr_len: u64 = evlrs[root_index].data_len;
    let offset: u64 = info.root_hier_offset;
    let size: u64 = info.root_hier_size;
    if offset != evlr_offset {
        return Err(Error::InvalidData(Fault::RootOffsetMismatch { offset, evlr_offset }));
    }
    if size > evlr_len {
        return Err(Error::InvalidData(Fault::RootSizeExceedsEvlr { size, evlr_len }));
    }
    CopcDataRanges::new(header, evlr_offset, evlr_len)
}

impl CopcFile {
    /// The hierarchy of a file that was opened is well-formed.
    pub closed spec fn wf(&self) -> bool {
        self.hierarchy.wf()
    }

    /// Reads and checks everything but the points.
    pub fn from_reader<S: RangeRead>(reader: &mut S) -> (r: Result<CopcFile>)
        ensures
            range_read::steady(*old(reader), *final(reader)),
            match r {
                Ok(file) => file.wf() && opens_as(old(reader).content(), answer_model(r)),
                Err(_) => final(reader).failed() || opens_as(
                    old(reader).content(),
                    answer_model(r),
                ),
            },
    {
        proof {
            reveal(file_loaded);
        }
        let ghost c = reader.content();
        let file_len: u64 = reader.len()?;
        if file_len < LAS_HEADER_SIZE_14 as u64 {
            return Err(Error::InvalidData(Fault::FileTooShort { len: file_len }));
        }
        let raw = fetch(reader, 0, 375)?;
        let header = read_las_header(raw.as_slice(), file_len)?;
        let vlrs = read_vlrs(
            reader,
            375,
            header.number_of_vlrs,
            file_len,
            header.offset_to_point_data as u64,
        )?;
        let (copc_info, laszip) = extract_required_vlrs(vlrs.as_slice())?;
        validate_hierarchy_page_byte_size(copc_info.root_hier_size)?;
        let ranges = read_hierarchy_ranges(reader, &header, &copc_info, file_len)?;
        let offset: u64 = copc_info.root_hier_offset;
        let size: u64 = copc_info.root_hier_size;
        let mut limits = HierarchyReadLimits::new();
        let root_hierarchy = read_hierarchy_page_at(reader, offset, size, file_len, &mut limits)?;
        let mut hierarchy = HierarchyIndex::new();
        let mut visited = PageSet::new();
        visited.insert(offset, size);
        insert_hierarchy_pages(
            reader,
            &root_hierarchy,
            &mut hierarchy,
            &mut visited,
            file_len,
            &mut limits,
            &ranges,
        )?;
        let entries = hierarchy.to_vec();
        proof {
            lemma_tree_checked(
                c,
                root_hierarchy@,
                Set::empty().insert((offset, size)),
                size,
                file_len,
                ranges,
            );
            hierarchy.lemma_finite();
            index::lemma_points_of_listing(entries@, hierarchy.map());
        }
        validate_point_chunk_ranges(
            entries.as_slice(),
            Ghost(hierarchy.map()),
            Ghost(file_len),
            Ghost(ranges),
        )?;
        validate_hierarchy_point_count(entries.as_slice(), header.number_of_points)?;
        let file = CopcFile { header, copc_info, laszip, root_hierarchy, hierarchy, ranges };
        proof {
            assert(file_loaded(c) == Ok::<CopcModel, Error>(file@));
        }
        Ok(file)
    }

    pub fn header(&self) -> (r: &LasHeader)
        ensures
            *r == self@.header,
    {
        &self.header
    }

    pub fn copc_info(&self) -> (r: &CopcInfo)
        ensures
            *r == self@.info,
    {
        &self.copc_info
    }

    /// The payload of the LASzip VLR.
    pub fn laszip_payload(&self) -> (r: &[u8])
        ensures
            r@ == self@.laszip,
    {
        self.laszip.as_slice()
    }

    pub fn root_hierarchy(&self) -> (r: &HierarchyPage)
        ensures
            r@ == self@.root,
    {
        &self.root_hierarchy
    }

    /// All entries, those of child pages included, in the order of their keys.
    pub fn hierarchy_walk(&self) -> (r: Vec<Entry>)
        requires
            self.wf(),
        ensures
            index::lists(r@, self@.hierarchy),
    {
        self.hierarchy.to_vec()
    }

    /// The entries by key.
    pub fn hierarchy(&self) -> (r: &HierarchyIndex)
        requires
            self.wf(),
        ensures
            r.wf(),
            r.map() == self@.hierarchy,
    {
        &self.hierarchy
    }

    /// All entries in the order of their keys.
    pub fn hierarchy_entries(&self) -> (r: Vec<Entry>)
        requires
            self.wf(),
        ensures
            index::lists(r@, self@.hierarchy),
    {
        self.hierarchy.to_vec()
    }
}

/// What holds of every file that opens: the header is that of its first bytes, each entry
/// stands under its key and passed the checks, point data lie in the point data section and
/// child pages in the hierarchy, no two nodes share point data, and the nodes hold exactly
/// the points that the header declares.
pub proof fn law_opened_file(c: Seq<u8>, model: CopcModel)
    requires
        opens_as(c, Ok(model)),
        c.len() <= u64::MAX,
    ensures
        file_header(c) == Ok::<LasHeader, Error>(model.header),
        crate::laszip::payload_readable(model.laszip),
        all_checked(model.hierarchy, c.len() as u64, model.ranges),
        forall|key: VoxelKey| #[trigger]
            model.hierarchy.contains_key(key) ==> {
                let entry = model.hierarchy[key];
                let end = entry.offset + entry.byte_size;
                &&& entry.key == key && entry.valid()
                &&& entry.point_count > 0 ==> model.header.offset_to_point_data <= entry.offset
                    && end <= model.header.offset_to_first_evlr <= c.len()
                &&& entry.point_count == -1 ==> model.info.root_hier_offset <= entry.offset && end
                    <= model.ranges.hierarchy_end && end <= c.len()
            },
        chunks_disjoint(model.hierarchy),
        index::point_total(model.hierarchy) == model.header.number_of_points,
{
    reveal(file_loaded);
    reveal(crate::las_header::header_of);
    let offset = model.info.root_hier_offset;
    let size = model.info.root_hier_size;
    lemma_tree_checked(
        c,
        model.root,
        Set::empty().insert((offset, size)),
        size,
        c.len() as u64,
        model.ranges,
    );
}

/// The points lie between the start of the point data and the first extended record, and the
/// pages in the hierarchy's record.
pub proof fn law_data_ranges(header: LasHeader, start: u64, len: u64)
    ensures
        CopcDataRanges::of(header, start, len) is Ok <==> header.offset_to_point_data
            <= header.offset_to_first_evlr && start + len <= u64::MAX,
        CopcDataRanges::of(header, start, len) is Ok ==> {
            let ranges = CopcDataRanges::of(header, start, len)->Ok_0;
            &&& ranges.point_data_start == header.offset_to_point_data
            &&& ranges.point_data_end == header.offset_to_first_evlr
            &&& ranges.hierarchy_start == start
            &&& ranges.hierarchy_end == start + len
        },
{
}

/// An entry is accepted just where it is valid and what it leads to lies where such things do:
/// points among the point data and within the limit, pages in the hierarchy.
pub proof fn law_checked_entry(entry: Entry, file_len: u64, ranges: CopcDataRanges)
    ensures
        entry_check(entry, file_len, ranges) is Ok <==> {
            let end = entry.offset + entry.byte_size;
            &&& entry.valid()
            &&& entry.point_count > 0 ==> {
                &&& entry.byte_size <= 512 * 1024 * 1024
                &&& ranges.point_data_start <= entry.offset
                &&& end <= ranges.point_data_end && end <= file_len
            }
            &&& entry.point_count < 0 ==> {
                &&& ranges.hierarchy_start <= entry.offset
                &&& end <= ranges.hierarchy_end && end <= file_len
            }
        },
{
}

/// A page is read only where it holds whole entries, lies in the file, and neither it nor all
/// pages together are larger than the limits.
pub proof fn law_checked_page(offset: u64, byte_size: u64, total: u64, file_len: u64)
    ensures
        page_check(offset, byte_size, total, file_len) is Ok <==> {
            &&& byte_size > 0 && byte_size % 32 == 0
            &&& byte_size <= 64 * 1024 * 1024
            &&& total + byte_size <= 256 * 1024 * 1024
            &&& offset + byte_size <= file_len
        },
        page_check(offset, byte_size, total, file_len) is Ok ==> page_check(
            offset,
            byte_size,
            total,
            file_len,
        )->Ok_0 == total + byte_size,
        page_size_check(byte_size) is Ok <==> byte_size <= 64 * 1024 * 1024,
{
}

/// An entry takes the place of a reference to a page, and of nothing else; what stands under
/// other keys stays.
pub proof fn law_merged(map: Map<VoxelKey, Entry>, entry: Entry, key: VoxelKey)
    ensures
        merged(map, entry) is Ok <==> !map.contains_key(entry.key) || (map[entry.key].point_count
            == -1 && entry.point_count != -1),
        merged(map, entry) is Ok ==> {
            let after = merged(map, entry)->Ok_0;
            &&& after.contains_key(entry.key) && after[entry.key] == entry
            &&& key != entry.key ==> after.contains_key(key) == map.contains_key(key)
            &&& key != entry.key && map.contains_key(key) ==> after[key] == map[key]
        },
{
}

/// Every entry of a page is found under its key afterwards, unless an entry behind it took its
/// place; and nothing else is new.
pub proof fn law_merged_all(
    map: Map<VoxelKey, Entry>,
    entries: Seq<Entry>,
    n: nat,
    file_len: u64,
    ranges: CopcDataRanges,
    key: VoxelKey,
)
    requires
        n <= entries.len(),
        merged_all(map, entries, n, file_len, ranges) is Ok,
    ensures
        ({
            let after = merged_all(map, entries, n, file_len, ranges)->Ok_0;
            &&& after.contains_key(key) <==> map.contains_key(key) || exists|i: int|
                0 <= i < n && (#[trigger] entries[i]).key == key
            &&& after.contains_key(key) ==> {
                ||| map.contains_key(key) && after[key] == map[key] && forall|i: int|
                    0 <= i < n ==> (#[trigger] entries[i]).key != key
                ||| exists|i: int|
                    0 <= i < n && #[trigger] entries[i] == after[key] && entries[i].key == key
            }
            &&& forall|i: int|
                0 <= i < n && (#[trigger] entries[i]).key == key && entries[i].point_count >= 0
                    ==> after[key] == entries[i]
        }),
    decreases n,
{
    if n > 0 {
        law_merged_all(map, entries, (n - 1) as nat, file_len, ranges, key);
        let before = merged_all(map, entries, (n - 1) as nat, file_len, ranges)->Ok_0;
        let after = merged_all(map, entries, n, file_len, ranges)->Ok_0;
        let last = entries[n - 1];
        law_merged(before, last, key);
        if last.key != key {
            if before.contains_key(key) && !(map.contains_key(key) && before[key] == map[key]) {
                let i = choose|i: int|
                    0 <= i < n - 1 && #[trigger] entries[i] == before[key] && entries[i].key
                        == key;
                assert(entries[i] == after[key]);
            }
            if exists|i: int| 0 <= i < n - 1 && (#[trigger] entries[i]).key == key {
                let i = choose|i: int| 0 <= i < n - 1 && (#[trigger] entries[i]).key == key;
                assert(entries[i].key == key);
            }
        } else {
            assert(entries[n - 1] == after[key]);
        }
    }
}

/// Each page that entries refer to is marked as met, is put into the queue where it was not met
/// before, and never twice.
pub proof fn law_queue(queue: PageQueue, entries: Seq<Entry>, n: nat, page: (u64, u64))
    requires
        n <= entries.len(),
        queue.pending.no_duplicates(),
        forall|k: int|
            0 <= k < queue.pending.len() ==> queue.visited.contains(#[trigger] queue.pending[k]),
    ensures
        ({
            let after = queued(queue, entries, n);
            &&& after.visited.contains(page) <==> queue.visited.contains(page) || exists|i: int|
                0 <= i < n && (#[trigger] entries[i]).point_count == -1 && entries[i].offset
                    == page.0 && entries[i].byte_size as u64 == page.1
            &&& queue.pending.is_prefix_of(after.pending)
            &&& after.pending.contains(page) <==> queue.pending.contains(page)
                || after.visited.contains(page) && !queue.visited.contains(page)
            &&& after.pending.no_duplicates()
            &&& forall|k: int|
                0 <= k < after.pending.len() ==> after.visited.contains(
                    #[trigger] after.pending[k],
                )
        }),
    decreases n,
{
    if n > 0 {
        law_queue(queue, entries, (n - 1) as nat, page);
        let before = queued(queue, entries, (n - 1) as nat);
        let after = queued(queue, entries, n);
        let last = entries[n - 1];
        let own = (last.offset, last.byte_size as u64);
        if before.visited.contains(page) && !queue.visited.contains(page) {
            let i = choose|i: int|
                0 <= i < n - 1 && (#[trigger] entries[i]).point_count == -1 && entries[i].offset
                    == page.0 && entries[i].byte_size as u64 == page.1;
            assert(entries[i].point_count == -1);
        }
        if last.point_count == -1 && !before.visited.contains(own) {
            assert(after.pending == before.pending.push(own));
            assert(after.pending[before.pending.len() as int] == own);
            if before.pending.contains(page) {
                let k = choose|k: int| 0 <= k < before.pending.len() && before.pending[k] == page;
                assert(after.pending[k] == page);
            }
            if after.pending.contains(page) && page != own {
                let k = choose|k: int| 0 <= k < after.pending.len() && after.pending[k] == page;
                assert(before.pending[k] == page);
            }
        }
    }
}

/// Chunks overlap just where they have a byte in common.
pub proof fn law_overlap(a: Entry, b: Entry)
    requires
        a.byte_size > 0,
        b.byte_size > 0,
    ensures
        overlap(a, b) <==> exists|p: int| #[trigger] in_chunk(a, p) && in_chunk(b, p),
        overlap(a, b) <==> overlap(b, a),
{
    if overlap(a, b) {
        let p = if a.offset < b.offset {
            b.offset as int
        } else {
            a.offset as int
        };
        assert(in_chunk(a, p) && in_chunk(b, p));
    }
}

/// Whether a byte of the file is one of a chunk.
pub open spec fn in_chunk(entry: Entry, p: int) -> bool {
    entry.offset <= p < entry.offset + entry.byte_size
}

/// A hierarchy is accepted just where it has the points that the header says.
pub proof fn law_count_check(total: nat, number_of_points: u64)
    ensures
        count_check(total, number_of_points) is Ok <==> total == number_of_points,
{
}

/// The hierarchy lies in the first record of its kind: the root page starts with its data and is
/// no longer than they are.
pub proof fn law_hierarchy_record(c: Seq<u8>, header: LasHeader, info: CopcInfo)
    requires
        hierarchy_ranges(c, header, info) is Ok,
    ensures
        ({
            let ranges = hierarchy_ranges(c, header, info)->Ok_0;
            let evlrs = vlr::evlrs_spec(c, header, c.len() as u64)->Ok_0;
            &&& vlr::evlrs_spec(c, header, c.len() as u64) is Ok
            &&& ranges.hierarchy_start == info.root_hier_offset
            &&& info.root_hier_offset + info.root_hier_size <= ranges.hierarchy_end
            &&& ranges.point_data_start == header.offset_to_point_data
            &&& ranges.point_data_end == header.offset_to_first_evlr
            &&& exists|i: int|
                {
                    &&& 0 <= i < evlrs.len()
                    &&& vlr::is_hierarchy((#[trigger] evlrs[i]).user_id, evlrs[i].record_id)
                    &&& evlrs[i].data_offset == ranges.hierarchy_start
                    &&& evlrs[i].data_offset + evlrs[i].data_len == ranges.hierarchy_end
                }
        }),
{
    let evlrs = vlr::evlrs_spec(c, header, c.len() as u64)->Ok_0;
    let f = |evlr: EvlrModel| vlr::is_hierarchy(evlr.user_id, evlr.record_id);
    let found = hierarchies_in(evlrs);
    crate::seqs::lemma_filter_contains(evlrs, f);
    assert(found == evlrs.filter(f));
    assert(evlrs.filter(f).contains(found[0]));
    let i = choose|i: int| 0 <= i < evlrs.len() && evlrs[i] == found[0];
    assert(evlrs[i] == found[0]);
}

/// Every page that waits is read: its entries are found in the hierarchy, each node under its
/// key, and nothing that was there before is lost.
pub proof fn law_waiting_pages_are_read(
    c: Seq<u8>,
    map: Map<VoxelKey, Entry>,
    queue: PageQueue,
    total: u64,
    file_len: u64,
    ranges: CopcDataRanges,
    page: (u64, u64),
    key: VoxelKey,
    i: int,
)
    requires
        loaded(c, map, queue, total, file_len, ranges) is Ok,
    ensures
        ({
            let after = loaded(c, map, queue, total, file_len, ranges)->Ok_0;
            let bytes = c.subrange(page.0 as int, page.0 + page.1);
            &&& map.contains_key(key) ==> after.contains_key(key)
            &&& map.contains_key(key) && map[key].point_count != -1 ==> after[key] == map[key]
            &&& queue.pending.contains(page) ==> {
                &&& crate::hierarchy::page_of(bytes) is Ok
                &&& 0 <= i < crate::hierarchy::page_of(bytes)->Ok_0.len() ==> {
                    let entry = crate::hierarchy::page_of(bytes)->Ok_0[i];
                    &&& after.contains_key(entry.key)
                    &&& entry.point_count >= 0 ==> after[entry.key] == entry
                }
            }
        }),
    decreases MAX_HIERARCHY_TOTAL_BYTES - total,
{
    if queue.pending.len() > 0 {
        let (offset, byte_size) = queue.pending.last();
        let rest = PageQueue { visited: queue.visited, pending: queue.pending.drop_last() };
        let entries = page_at(c, offset, byte_size, total, file_len)->Ok_0;
        let next = merged_all(map, entries, entries.len(), file_len, ranges)->Ok_0;
        let more = queued(rest, entries, entries.len());
        let sum = (total + byte_size) as u64;
        let bytes = c.subrange(page.0 as int, page.0 + page.1);
        let own = crate::hierarchy::page_of(bytes)->Ok_0[i];
        lemma_merged_keeps(map, entries, entries.len(), file_len, ranges, key);
        law_waiting_pages_are_read(c, next, more, sum, file_len, ranges, page, key, i);
        if queue.pending.contains(page) {
            let k = choose|k: int| 0 <= k < queue.pending.len() && queue.pending[k] == page;
            if k < rest.pending.len() {
                lemma_queue_grows(rest, entries, entries.len());
                assert(more.pending[k] == rest.pending[k]);
                assert(more.pending.contains(page));
            } else {
                assert(page == (offset, byte_size));
                if 0 <= i < entries.len() {
                    law_merged_all(map, entries, entries.len(), file_len, ranges, own.key);
                    assert(entries[i] == own);
                    law_waiting_pages_are_read(
                        c,
                        next,
                        more,
                        sum,
                        file_len,
                        ranges,
                        page,
                        own.key,
                        i,
                    );
                    lemma_merged_all_checked_entry(map, entries, entries.len(), file_len, ranges, i);
                }
            }
        }
    }
}

proof fn lemma_merged_all_checked_entry(
    map: Map<VoxelKey, Entry>,
    entries: Seq<Entry>,
    n: nat,
    file_len: u64,
    ranges: CopcDataRanges,
    i: int,
)
    requires
        0 <= i < n <= entries.len(),
        merged_all(map, entries, n, file_len, ranges) is Ok,
    ensures
        entry_check(entries[i], file_len, ranges) is Ok,
    decreases n,
{
    if i < n - 1 {
        lemma_merged_all_checked_entry(map, entries, (n - 1) as nat, file_len, ranges, i);
    }
}

proof fn lemma_merged_keeps(
    map: Map<VoxelKey, Entry>,
    entries: Seq<Entry>,
    n: nat,
    file_len: u64,
    ranges: CopcDataRanges,
    key: VoxelKey,
)
    requires
        merged_all(map, entries, n, file_len, ranges) is Ok,
    ensures
        ({
            let after = merged_all(map, entries, n, file_len, ranges)->Ok_0;
            &&& map.contains_key(key) ==> after.contains_key(key)
            &&& map.contains_key(key) && map[key].point_count != -1 ==> after[key] == map[key]
        }),
    decreases n,
{
    if n > 0 {
        lemma_merged_keeps(map, entries, (n - 1) as nat, file_len, ranges, key);
    }
}

proof fn lemma_queue_grows(queue: PageQueue, entries: Seq<Entry>, n: nat)
    ensures
        queue.pending.is_prefix_of(queued(queue, entries, n).pending),
    decreases n,
{
    if n > 0 {
        lemma_queue_grows(queue, entries, (n - 1) as nat);
    }
}

/// An entry is refused for what is wrong with it, by its key and with the section in which it
/// should lie.
pub proof fn law_why_an_entry_is_refused(entry: Entry, file_len: u64, ranges: CopcDataRanges)
    requires
        entry_check(entry, file_len, ranges) is Err,
    ensures
        match entry_check(entry, file_len, ranges)->Err_0 {
            Error::InvalidData(Fault::PointChunkTooLarge { key, byte_size }) => key == entry.key
                && byte_size == entry.byte_size && byte_size > 512 * 1024 * 1024
                && entry.point_count > 0,
            Error::InvalidData(
                Fault::PointEntryOutside { key, offset, end, section_start, section_end },
            ) => {
                &&& key == entry.key && entry.point_count > 0
                &&& offset == entry.offset && end == entry.offset + entry.byte_size
                &&& section_start == ranges.point_data_start
                &&& section_end == ranges.point_data_end
                &&& offset < section_start || end > section_end
            },
            Error::InvalidData(
                Fault::ChildPageOutside { key, offset, end, body_start, body_end },
            ) => {
                &&& key == entry.key && entry.point_count == -1
                &&& offset == entry.offset && end == entry.offset + entry.byte_size
                &&& body_start == ranges.hierarchy_start
                &&& body_end == ranges.hierarchy_end
                &&& offset < body_start || end > body_end
            },
            Error::InvalidData(Fault::RangePastEnd { label, offset, end, .. }) => {
                &&& label == if entry.point_count > 0 {
                    RangeLabel::PointEntry
                } else {
                    RangeLabel::ChildPage
                }
                &&& offset == entry.offset && end == entry.offset + entry.byte_size
                &&& end > file_len
            },
            Error::InvalidData(Fault::RangeOverflow { .. }) => entry.offset + entry.byte_size
                > u64::MAX,
            error => entry.validity() == Err::<(), Error>(error),
        },
{
}

/// Entries are refused for one of them: it is itself refused, or its key is taken by what it may
/// not replace.
pub proof fn law_why_entries_are_refused(
    map: Map<VoxelKey, Entry>,
    entries: Seq<Entry>,
    n: nat,
    file_len: u64,
    ranges: CopcDataRanges,
)
    requires
        n <= entries.len(),
        merged_all(map, entries, n, file_len, ranges) is Err,
    ensures
        exists|i: int|
            {
                let before = merged_all(map, entries, i as nat, file_len, ranges);
                let own = entry_check(#[trigger] entries[i], file_len, ranges);
                let error = merged_all(map, entries, n, file_len, ranges)->Err_0;
                &&& 0 <= i < n
                &&& before is Ok
                &&& {
                    ||| own == Err::<(), Error>(error)
                    ||| {
                        &&& before->Ok_0.contains_key(entries[i].key)
                        &&& error == Error::InvalidData(
                            Fault::DuplicateKey {
                                previous: before->Ok_0[entries[i].key],
                                entry: entries[i],
                            },
                        )
                    }
                }
            },
    decreases n,
{
    let m = (n - 1) as nat;
    let error = merged_all(map, entries, n, file_len, ranges)->Err_0;
    if merged_all(map, entries, m, file_len, ranges) is Err {
        law_why_entries_are_refused(map, entries, m, file_len, ranges);
    } else {
        let own = entry_check(entries[n - 1], file_len, ranges);
        let before = merged_all(map, entries, m, file_len, ranges)->Ok_0;
        assert(own is Err || merged(before, entries[n - 1]) is Err);
        assert((n - 1) as nat == m);
    }
}

/// Where no entry is refused and no key is there twice, all entries are taken in.
pub proof fn law_entries_are_merged(
    map: Map<VoxelKey, Entry>,
    entries: Seq<Entry>,
    n: nat,
    file_len: u64,
    ranges: CopcDataRanges,
)
    requires
        n <= entries.len(),
        forall|i: int|
            0 <= i < n ==> entry_check(#[trigger] entries[i], file_len, ranges) is Ok
                && !map.contains_key(entries[i].key),
        forall|i: int, j: int|
            0 <= i < j < n ==> (#[trigger] entries[i]).key != (#[trigger] entries[j]).key,
    ensures
        merged_all(map, entries, n, file_len, ranges) is Ok,
    decreases n,
{
    if n > 0 {
        law_entries_are_merged(map, entries, (n - 1) as nat, file_len, ranges);
        law_merged_all(map, entries, (n - 1) as nat, file_len, ranges, entries[n - 1].key);
        let before = merged_all(map, entries, (n - 1) as nat, file_len, ranges)->Ok_0;
        assert(entry_check(entries[n - 1], file_len, ranges) is Ok);
        if before.contains_key(entries[n - 1].key) {
            let i = choose|i: int|
                0 <= i < n - 1 && (#[trigger] entries[i]).key == entries[n - 1].key;
            assert(entries[i].key != entries[n - 1].key);
        }
    }
}

} // verus!
