//! A hierarchy that was loaded page by page, and the one that is read at once.

use vstd::prelude::*;

use crate::bounds::Bounds;
use crate::error::Error;
use crate::file;
use crate::file::{CopcDataRanges, CopcModel, PageQueue};
use crate::hierarchy;
use crate::hierarchy::{Entry, VoxelKey};
use crate::limits::MAX_HIERARCHY_TOTAL_BYTES;
use crate::query;
use crate::query::PointQuery;
use crate::ranged;
use crate::ranged::RangeModel;

verus! {

/// The place of a page that an entry refers to.
pub open spec fn page_of_entry(entry: Entry) -> (u64, u64) {
    (entry.offset, entry.byte_size as u64)
}

/// The entries of the page at a place.
pub open spec fn listed(c: Seq<u8>, page: (u64, u64)) -> Seq<Entry> {
    hierarchy::page_of(c.subrange(page.0 as int, page.0 + page.1))->Ok_0
}

/// The entries of some pages.
pub open spec fn entries_of(c: Seq<u8>, pages: Set<(u64, u64)>) -> Set<Entry> {
    Set::new(|e: Entry| exists|p: (u64, u64)| pages.contains(p) && listed(c, p).contains(e))
}

/// A map of entries: each is in it under its key, but that a reference to a page gives way to
/// the node itself.
pub open spec fn gathers(map: Map<VoxelKey, Entry>, all: Set<Entry>) -> bool {
    &&& forall|k: VoxelKey| #[trigger]
        map.contains_key(k) ==> map[k].key == k && all.contains(map[k])
    &&& forall|e: Entry| #[trigger]
        all.contains(e) ==> {
            &&& map.contains_key(e.key)
            &&& map[e.key] == e || (e.point_count == -1 && map[e.key].point_count != -1)
        }
}

/// Whatever the pages refer to is among `met`.
pub open spec fn leads_into(
    c: Seq<u8>,
    pages: Set<(u64, u64)>,
    met: Set<(u64, u64)>,
) -> bool {
    forall|p: (u64, u64), e: Entry|
        pages.contains(p) && #[trigger] listed(c, p).contains(e) && e.point_count == -1
            ==> met.contains(page_of_entry(e))
}

/// The pages belong to every set of pages that has the root and whatever its pages refer to.
pub open spec fn all_needed(c: Seq<u8>, root: (u64, u64), pages: Set<(u64, u64)>) -> bool {
    forall|s: Set<(u64, u64)>|
        #![trigger leads_into(c, s, s)]
        s.contains(root) && leads_into(c, s, s) ==> pages.subset_of(s)
}

/// The tree of pages below the root: the root, whatever its pages refer to, and no more.
pub open spec fn page_tree(c: Seq<u8>, root: (u64, u64), pages: Set<(u64, u64)>) -> bool {
    &&& pages.contains(root)
    &&& leads_into(c, pages, pages)
    &&& all_needed(c, root, pages)
}

/// There is one tree of pages.
proof fn lemma_one_tree(
    c: Seq<u8>,
    root: (u64, u64),
    a: Set<(u64, u64)>,
    b: Set<(u64, u64)>,
)
    requires
        page_tree(c, root, a),
        page_tree(c, root, b),
    ensures
        a == b,
{
    assert(a.subset_of(b));
    assert(b.subset_of(a));
    assert(a =~= b);
}

/// There is one map of the same entries.
proof fn lemma_one_map(a: Map<VoxelKey, Entry>, b: Map<VoxelKey, Entry>, all: Set<Entry>)
    requires
        gathers(a, all),
        gathers(b, all),
    ensures
        a == b,
{
    assert forall|k: VoxelKey| #[trigger] a.contains_key(k) implies b.contains_key(k) && b[k]
        == a[k] by {
        assert(all.contains(a[k]));
        if b[k] != a[k] {
            assert(all.contains(b[k]));
        }
    }
    assert forall|k: VoxelKey| #[trigger] b.contains_key(k) implies a.contains_key(k) by {
        assert(all.contains(b[k]));
    }
    assert(a =~= b);
}

/// One more entry.
proof fn lemma_gathers_one(map: Map<VoxelKey, Entry>, all: Set<Entry>, entry: Entry)
    requires
        gathers(map, all),
        file::merged(map, entry) is Ok,
    ensures
        gathers(file::merged(map, entry)->Ok_0, all.insert(entry)),
{
    let next = file::merged(map, entry)->Ok_0;
    let more = all.insert(entry);
    assert forall|k: VoxelKey| #[trigger] next.contains_key(k) implies next[k].key == k
        && more.contains(next[k]) by {
        if k != entry.key {
            assert(map.contains_key(k));
        }
    }
    assert forall|e: Entry| #[trigger] more.contains(e) implies {
        &&& next.contains_key(e.key)
        &&& next[e.key] == e || (e.point_count == -1 && next[e.key].point_count != -1)
    } by {
        if e != entry {
            assert(all.contains(e));
        }
    }
}

/// The entries of a page, up to the first `n`.
proof fn lemma_gathers_page(
    map: Map<VoxelKey, Entry>,
    all: Set<Entry>,
    entries: Seq<Entry>,
    n: nat,
    file_len: u64,
    ranges: CopcDataRanges,
)
    requires
        gathers(map, all),
        n <= entries.len(),
        file::merged_all(map, entries, n, file_len, ranges) is Ok,
    ensures
        gathers(
            file::merged_all(map, entries, n, file_len, ranges)->Ok_0,
            all.union(entries.take(n as int).to_set()),
        ),
    decreases n,
{
    if n == 0 {
        assert(all.union(entries.take(0).to_set()) =~= all);
    } else {
        let k = (n - 1) as nat;
        lemma_gathers_page(map, all, entries, k, file_len, ranges);
        let before = file::merged_all(map, entries, k, file_len, ranges)->Ok_0;
        let met = all.union(entries.take(k as int).to_set());
        let entry = entries[k as int];
        lemma_gathers_one(before, met, entry);
        let now = entries.take(n as int);
        assert forall|e: Entry| #[trigger] met.insert(entry).contains(e) <==> all.union(
            now.to_set(),
        ).contains(e) by {
            if entries.take(k as int).contains(e) {
                let i = choose|i: int| 0 <= i < k && entries.take(k as int)[i] == e;
                assert(now[i] == e);
            }
            if now.contains(e) {
                let i = choose|i: int| 0 <= i < n && now[i] == e;
                if i < k {
                    assert(entries.take(k as int)[i] == e);
                }
            }
            assert(now[k as int] == entry);
        }
        assert(met.insert(entry) =~= all.union(now.to_set()));
    }
}

/// One more page.
proof fn lemma_gathers_more(
    c: Seq<u8>,
    map: Map<VoxelKey, Entry>,
    pages: Set<(u64, u64)>,
    page: (u64, u64),
    file_len: u64,
    ranges: CopcDataRanges,
)
    requires
        gathers(map, entries_of(c, pages)),
        file::merged_all(
            map,
            listed(c, page),
            listed(c, page).len(),
            file_len,
            ranges,
        ) is Ok,
    ensures
        gathers(
            file::merged_all(
                map,
                listed(c, page),
                listed(c, page).len(),
                file_len,
                ranges,
            )->Ok_0,
            entries_of(c, pages.insert(page)),
        ),
{
    let entries = listed(c, page);
    let n = entries.len();
    lemma_gathers_page(map, entries_of(c, pages), entries, n, file_len, ranges);
    assert(entries.take(n as int) =~= entries);
    let more = pages.insert(page);
    let both = entries_of(c, pages).union(entries.to_set());
    assert forall|e: Entry| #[trigger] both.contains(e) <==> entries_of(c, more).contains(e) by {
        if entries_of(c, pages).contains(e) {
            let p = choose|p: (u64, u64)| pages.contains(p) && listed(c, p).contains(e);
            assert(more.contains(p) && listed(c, p).contains(e));
        }
        if entries.contains(e) {
            assert(more.contains(page) && listed(c, page).contains(e));
        }
        if entries_of(c, more).contains(e) {
            let p = choose|p: (u64, u64)| more.contains(p) && listed(c, p).contains(e);
            if p != page {
                assert(pages.contains(p) && listed(c, p).contains(e));
            }
        }
    }
    assert(both =~= entries_of(c, more));
}

/// What queueing the references of a page adds.
proof fn lemma_queued(queue: PageQueue, entries: Seq<Entry>, n: nat)
    requires
        n <= entries.len(),
    ensures
        ({
            let after = file::queued(queue, entries, n);
            &&& queue.visited.subset_of(after.visited)
            &&& forall|i: int|
                0 <= i < n && (#[trigger] entries[i]).point_count == -1 ==> after.visited.contains(
                    page_of_entry(entries[i]),
                )
            &&& forall|p: (u64, u64)| #[trigger]
                after.visited.contains(p) ==> queue.visited.contains(p) || exists|i: int|
                    0 <= i < n && (#[trigger] entries[i]).point_count == -1 && page_of_entry(
                        entries[i],
                    ) == p
            &&& forall|p: (u64, u64)| #[trigger]
                after.pending.contains(p) <==> queue.pending.contains(p) || (
                after.visited.contains(p) && !queue.visited.contains(p))
        }),
    decreases n,
{
    if n > 0 {
        let k = (n - 1) as nat;
        lemma_queued(queue, entries, k);
        let before = file::queued(queue, entries, k);
        let after = file::queued(queue, entries, n);
        let entry = entries[k as int];
        let page = page_of_entry(entry);
        if entry.point_count == -1 && !before.visited.contains(page) {
            assert forall|p: (u64, u64)| #[trigger]
                after.pending.contains(p) <==> queue.pending.contains(p) || (
                after.visited.contains(p) && !queue.visited.contains(p)) by {
                if before.pending.contains(p) {
                    let i = choose|i: int| 0 <= i < before.pending.len() && before.pending[i] == p;
                    assert(after.pending[i] == p);
                }
                assert(after.pending[before.pending.len() as int] == page);
                if after.pending.contains(p) && p != page {
                    let i = choose|i: int| 0 <= i < after.pending.len() && after.pending[i] == p;
                    assert(before.pending[i] == p);
                }
            }
            assert forall|p: (u64, u64)| #[trigger]
                after.visited.contains(p) implies queue.visited.contains(p) || exists|i: int|
                0 <= i < n && (#[trigger] entries[i]).point_count == -1 && page_of_entry(entries[i])
                    == p by {
                if p == page {
                    assert(entries[k as int].point_count == -1);
                } else {
                    assert(before.visited.contains(p));
                }
            }
        }
    }
}

/// A whole read that is under way: `done` are the pages that were read.
pub open spec fn under_way(
    c: Seq<u8>,
    root: (u64, u64),
    map: Map<VoxelKey, Entry>,
    done: Set<(u64, u64)>,
    queue: PageQueue,
) -> bool {
    &&& gathers(map, entries_of(c, done))
    &&& queue.visited.contains(root)
    &&& forall|p: (u64, u64)| #[trigger]
        queue.visited.contains(p) <==> done.contains(p) || queue.pending.contains(p)
    &&& leads_into(c, done, queue.visited)
    &&& all_needed(c, root, queue.visited)
}

/// A page was read.
proof fn lemma_page_read(
    c: Seq<u8>,
    root: (u64, u64),
    map: Map<VoxelKey, Entry>,
    done: Set<(u64, u64)>,
    queue: PageQueue,
    rest: PageQueue,
    page: (u64, u64),
    file_len: u64,
    ranges: CopcDataRanges,
)
    requires
        gathers(map, entries_of(c, done)),
        queue.visited.contains(root),
        queue.visited.contains(page),
        rest.visited == queue.visited,
        forall|p: (u64, u64)| #[trigger]
            queue.visited.contains(p) <==> done.contains(p) || p == page || rest.pending.contains(
                p,
            ),
        leads_into(c, done, queue.visited),
        all_needed(c, root, queue.visited),
        file::merged_all(
            map,
            listed(c, page),
            listed(c, page).len(),
            file_len,
            ranges,
        ) is Ok,
    ensures
        under_way(
            c,
            root,
            file::merged_all(
                map,
                listed(c, page),
                listed(c, page).len(),
                file_len,
                ranges,
            )->Ok_0,
            done.insert(page),
            file::queued(rest, listed(c, page), listed(c, page).len()),
        ),
{
    let entries = listed(c, page);
    let n = entries.len();
    let after = file::queued(rest, entries, n);
    let now = done.insert(page);
    lemma_gathers_more(c, map, done, page, file_len, ranges);
    lemma_queued(rest, entries, n);
    assert forall|p: (u64, u64)| #[trigger]
        after.visited.contains(p) <==> now.contains(p) || after.pending.contains(p) by {
        assert(queue.visited.contains(p) <==> done.contains(p) || p == page
            || rest.pending.contains(p));
    }
    assert forall|p: (u64, u64), e: Entry|
        now.contains(p) && #[trigger] listed(c, p).contains(e) && e.point_count
            == -1 implies after.visited.contains(page_of_entry(e)) by {
        if p == page {
            let i = choose|i: int| 0 <= i < entries.len() && entries[i] == e;
            assert(entries[i].point_count == -1);
        } else {
            assert(done.contains(p));
        }
    }
    assert forall|s: Set<(u64, u64)>|
        #![trigger leads_into(c, s, s)]
        s.contains(root) && leads_into(c, s, s) implies after.visited.subset_of(s) by {
        assert(queue.visited.subset_of(s));
        assert forall|p: (u64, u64)| #[trigger] after.visited.contains(p) implies s.contains(
            p,
        ) by {
            if !rest.visited.contains(p) {
                let i = choose|i: int|
                    0 <= i < n && (#[trigger] entries[i]).point_count == -1 && page_of_entry(
                        entries[i],
                    ) == p;
                assert(s.contains(page) && listed(c, page).contains(entries[i]));
            }
        }
    }
}

/// A whole read gathers the entries of the tree of pages.
proof fn lemma_whole(
    c: Seq<u8>,
    root: (u64, u64),
    map: Map<VoxelKey, Entry>,
    done: Set<(u64, u64)>,
    queue: PageQueue,
    total: u64,
    file_len: u64,
    ranges: CopcDataRanges,
) -> (pages: Set<(u64, u64)>)
    requires
        under_way(c, root, map, done, queue),
        file::loaded(c, map, queue, total, file_len, ranges) is Ok,
    ensures
        page_tree(c, root, pages),
        gathers(
            file::loaded(c, map, queue, total, file_len, ranges)->Ok_0,
            entries_of(c, pages),
        ),
    decreases MAX_HIERARCHY_TOTAL_BYTES - total,
{
    if queue.pending.len() == 0 {
        assert forall|p: (u64, u64)| #[trigger] queue.visited.contains(p) <==> done.contains(
            p,
        ) by {
            assert(!queue.pending.contains(p));
        }
        assert(queue.visited =~= done);
        done
    } else {
        let page = queue.pending.last();
        let rest = PageQueue { visited: queue.visited, pending: queue.pending.drop_last() };
        let entries = listed(c, page);
        assert forall|p: (u64, u64)| #[trigger]
            queue.visited.contains(p) <==> done.contains(p) || p == page || rest.pending.contains(
                p,
            ) by {
            if queue.pending.contains(p) && p != page {
                let i = choose|i: int| 0 <= i < queue.pending.len() && queue.pending[i] == p;
                assert(rest.pending[i] == p);
            }
            if rest.pending.contains(p) {
                let i = choose|i: int| 0 <= i < rest.pending.len() && rest.pending[i] == p;
                assert(queue.pending[i] == p);
            }
            assert(queue.pending[queue.pending.len() - 1] == page);
        }
        assert(queue.pending.contains(page));
        assert(queue.visited.contains(page));
        lemma_page_read(c, root, map, done, queue, rest, page, file_len, ranges);
        lemma_whole(
            c,
            root,
            file::merged_all(map, entries, entries.len(), file_len, ranges)->Ok_0,
            done.insert(page),
            file::queued(rest, entries, entries.len()),
            (total + page.1) as u64,
            file_len,
            ranges,
        )
    }
}

/// The place of the root page.
pub open spec fn root_page(model: RangeModel) -> (u64, u64) {
    (model.info.root_hier_offset, model.info.root_hier_size)
}

/// A reader that opened the content `c` and loaded pages since: it has gathered the entries of
/// the pages that it visited, and whatever those refer to was visited, is pending, or is about
/// to be loaded.
pub open spec fn part_of(c: Seq<u8>, model: RangeModel, todo: Seq<Entry>) -> bool {
    &&& ranged::unloaded(c) is Ok
    &&& model.header == ranged::unloaded(c)->Ok_0.header
    &&& model.info == ranged::unloaded(c)->Ok_0.info
    &&& model.laszip == ranged::unloaded(c)->Ok_0.laszip
    &&& model.ranges == ranged::unloaded(c)->Ok_0.ranges
    &&& gathers(model.hierarchy, entries_of(c, model.visited))
    &&& leads_into(c, model.visited, met_by(model, todo))
    &&& all_needed(c, root_page(model), met_by(model, todo))
    &&& met_by(model, todo).contains(root_page(model))
    &&& forall|i: int|
        0 <= i < model.pending.len() ==> referred_to(c, model, #[trigger] model.pending[i])
    &&& forall|i: int|
        0 <= i < todo.len() ==> referred_to(c, model, #[trigger] todo[i]) || todo[i]
            == ranged::root_reference(model.info)
}

/// A reference to a page on one of the pages that were visited.
pub open spec fn referred_to(c: Seq<u8>, model: RangeModel, entry: Entry) -> bool {
    entry.point_count == -1 && entries_of(c, model.visited).contains(entry)
}

/// The pages that a reader knows of.
pub open spec fn met_by(model: RangeModel, todo: Seq<Entry>) -> Set<(u64, u64)> {
    Set::new(
        |p: (u64, u64)|
            {
                ||| model.visited.contains(p)
                ||| exists|i: int|
                    0 <= i < model.pending.len() && page_of_entry(#[trigger] model.pending[i]) == p
                ||| exists|i: int| 0 <= i < todo.len() && page_of_entry(#[trigger] todo[i]) == p
            },
    )
}

proof fn lemma_references(entries: Seq<Entry>, n: nat)
    requires
        n <= entries.len(),
    ensures
        ({
            let refs = ranged::page_references(entries, n);
            &&& forall|i: int|
                0 <= i < n && (#[trigger] entries[i]).point_count == -1 ==> refs.contains(
                    entries[i],
                )
            &&& forall|i: int|
                0 <= i < refs.len() ==> (#[trigger] refs[i]).point_count == -1
                    && entries.contains(refs[i])
        }),
    decreases n,
{
    if n > 0 {
        let k = (n - 1) as nat;
        lemma_references(entries, k);
        let before = ranged::page_references(entries, k);
        let refs = ranged::page_references(entries, n);
        let entry = entries[k as int];
        if entry.point_count == -1 {
            assert(refs[before.len() as int] == entry);
            assert forall|i: int|
                0 <= i < n && (#[trigger] entries[i]).point_count == -1 implies refs.contains(
                entries[i],
            ) by {
                if i < k {
                    assert(before.contains(entries[i]));
                    let j = choose|j: int| 0 <= j < before.len() && before[j] == entries[i];
                    assert(refs[j] == entries[i]);
                }
            }
            assert forall|i: int| 0 <= i < refs.len() implies (#[trigger] refs[i]).point_count == -1
                && entries.contains(refs[i]) by {
                if i < before.len() {
                    assert(refs[i] == before[i]);
                } else {
                    assert(entries[k as int] == refs[i]);
                }
            }
        }
    }
}

/// The pages that are still to be loaded are referred to, where more pages were visited.
proof fn lemma_rest_referred(c: Seq<u8>, model: RangeModel, after: RangeModel, todo: Seq<Entry>)
    requires
        forall|i: int|
            0 <= i < todo.len() ==> referred_to(c, model, #[trigger] todo[i]) || todo[i]
                == ranged::root_reference(model.info),
        todo.len() > 0,
        model.visited.subset_of(after.visited),
        after.info == model.info,
    ensures
        ({
            let rest = todo.subrange(1, todo.len() as int);
            forall|i: int|
                0 <= i < rest.len() ==> referred_to(c, after, #[trigger] rest[i]) || rest[i]
                    == ranged::root_reference(after.info)
        }),
{
    let rest = todo.subrange(1, todo.len() as int);
    assert forall|i: int| 0 <= i < rest.len() implies referred_to(c, after, #[trigger] rest[i])
        || rest[i] == ranged::root_reference(after.info) by {
        let e = todo[i + 1];
        assert(rest[i] == e);
        if referred_to(c, model, e) {
            let p = choose|p: (u64, u64)| model.visited.contains(p) && listed(c, p).contains(e);
            assert(after.visited.contains(p) && listed(c, p).contains(e));
        }
    }
}

/// What is pending after one more page was visited is referred to.
proof fn lemma_still_referred(
    c: Seq<u8>,
    model: RangeModel,
    after: RangeModel,
    page: (u64, u64),
    todo: Seq<Entry>,
)
    requires
        forall|i: int|
            0 <= i < model.pending.len() ==> referred_to(c, model, #[trigger] model.pending[i]),
        forall|i: int|
            0 <= i < todo.len() ==> referred_to(c, model, #[trigger] todo[i]) || todo[i]
                == ranged::root_reference(model.info),
        todo.len() > 0,
        after.visited == model.visited.insert(page),
        after.info == model.info,
        after.pending == model.pending + ranged::page_references(
            listed(c, page),
            listed(c, page).len(),
        ),
    ensures
        forall|i: int|
            0 <= i < after.pending.len() ==> referred_to(c, after, #[trigger] after.pending[i]),
        ({
            let rest = todo.subrange(1, todo.len() as int);
            forall|i: int|
                0 <= i < rest.len() ==> referred_to(c, after, #[trigger] rest[i]) || rest[i]
                    == ranged::root_reference(after.info)
        }),
{
    let refs = ranged::page_references(listed(c, page), listed(c, page).len());
    lemma_references(listed(c, page), listed(c, page).len());
    lemma_rest_referred(c, model, after, todo);
    assert forall|i: int| 0 <= i < after.pending.len() implies referred_to(
        c,
        after,
        #[trigger] after.pending[i],
    ) by {
        let e = after.pending[i];
        if i < model.pending.len() {
            assert(e == model.pending[i]);
            let p = choose|p: (u64, u64)| model.visited.contains(p) && listed(c, p).contains(e);
            assert(after.visited.contains(p) && listed(c, p).contains(e));
        } else {
            assert(e == refs[i - model.pending.len()]);
            assert(after.visited.contains(page) && listed(c, page).contains(e));
        }
    }
}

/// The first page of those that are about to be loaded was loaded.
proof fn lemma_taken(c: Seq<u8>, model: RangeModel, todo: Seq<Entry>)
    requires
        part_of(c, model, todo),
        todo.len() > 0,
        ranged::page_loaded(c, model, todo[0]) is Some,
    ensures
        part_of(
            c,
            ranged::page_loaded(c, model, todo[0])->Some_0,
            todo.subrange(1, todo.len() as int),
        ),
{
    let entry = todo[0];
    let rest = todo.subrange(1, todo.len() as int);
    let after = ranged::page_loaded(c, model, entry)->Some_0;
    let page = page_of_entry(entry);
    let root = root_page(model);
    let met = met_by(model, todo);
    let now = met_by(after, rest);
    assert(met.contains(page));
    if model.visited.contains(page) {
        assert forall|p: (u64, u64)| #[trigger] met.contains(p) <==> now.contains(p) by {
            if exists|i: int| 0 <= i < todo.len() && page_of_entry(#[trigger] todo[i]) == p {
                let i = choose|i: int| 0 <= i < todo.len() && page_of_entry(#[trigger] todo[i])
                    == p;
                if i > 0 {
                    assert(rest[i - 1] == todo[i]);
                }
            }
            if exists|i: int| 0 <= i < rest.len() && page_of_entry(#[trigger] rest[i]) == p {
                let i = choose|i: int| 0 <= i < rest.len() && page_of_entry(#[trigger] rest[i])
                    == p;
                assert(todo[i + 1] == rest[i]);
            }
        }
        assert(met =~= now);
        lemma_rest_referred(c, model, after, todo);
    } else {
        let entries = listed(c, page);
        let refs = ranged::page_references(entries, entries.len());
        let file_len = c.len() as u64;
        lemma_gathers_more(c, model.hierarchy, model.visited, page, file_len, model.ranges);
        lemma_references(entries, entries.len());
        assert(after.pending == model.pending + refs);
        assert(after.visited == model.visited.insert(page));
        lemma_still_referred(c, model, after, page, todo);
        assert forall|p: (u64, u64)| #[trigger] met.contains(p) implies now.contains(p) by {
            if exists|i: int|
                0 <= i < model.pending.len() && page_of_entry(#[trigger] model.pending[i]) == p {
                let i = choose|i: int|
                    0 <= i < model.pending.len() && page_of_entry(#[trigger] model.pending[i]) == p;
                assert(after.pending[i] == model.pending[i]);
            }
            if exists|i: int| 0 <= i < todo.len() && page_of_entry(#[trigger] todo[i]) == p {
                let i = choose|i: int| 0 <= i < todo.len() && page_of_entry(#[trigger] todo[i])
                    == p;
                if i > 0 {
                    assert(rest[i - 1] == todo[i]);
                }
            }
        }
        assert forall|p: (u64, u64), e: Entry|
            after.visited.contains(p) && #[trigger] listed(c, p).contains(e) && e.point_count
                == -1 implies now.contains(page_of_entry(e)) by {
            if p == page {
                let i = choose|i: int| 0 <= i < entries.len() && entries[i] == e;
                assert(entries[i].point_count == -1);
                assert(refs.contains(e));
                let j = choose|j: int| 0 <= j < refs.len() && refs[j] == e;
                assert(after.pending[model.pending.len() + j] == e);
            } else {
                assert(model.visited.contains(p));
                assert(met.contains(page_of_entry(e)));
            }
        }
        assert forall|s: Set<(u64, u64)>|
            #![trigger leads_into(c, s, s)]
            s.contains(root) && leads_into(c, s, s) implies now.subset_of(s) by {
            assert(met.subset_of(s));
            assert forall|p: (u64, u64)| #[trigger] now.contains(p) implies s.contains(p) by {
                if !met.contains(p) {
                    if exists|i: int|
                        0 <= i < after.pending.len() && page_of_entry(#[trigger] after.pending[i])
                            == p {
                        let i = choose|i: int|
                            0 <= i < after.pending.len() && page_of_entry(
                                #[trigger] after.pending[i],
                            ) == p;
                        if i < model.pending.len() {
                            assert(model.pending[i] == after.pending[i]);
                        } else {
                            let e = refs[i - model.pending.len()];
                            assert(after.pending[i] == e);
                            assert(e.point_count == -1 && entries.contains(e));
                            assert(s.contains(page) && listed(c, page).contains(e));
                        }
                    } else {
                        let i = choose|i: int|
                            0 <= i < rest.len() && page_of_entry(#[trigger] rest[i]) == p;
                        assert(todo[i + 1] == rest[i]);
                    }
                }
            }
        }
    }
}

/// Pages were loaded, the first `n` of those that were to be.
proof fn lemma_many_taken(c: Seq<u8>, model: RangeModel, todo: Seq<Entry>, n: nat)
    requires
        part_of(c, model, todo),
        n <= todo.len(),
        ranged::pages_loaded(c, model, todo, n) is Some,
    ensures
        part_of(
            c,
            ranged::pages_loaded(c, model, todo, n)->Some_0,
            todo.subrange(n as int, todo.len() as int),
        ),
    decreases n,
{
    if n == 0 {
        assert(todo.subrange(0, todo.len() as int) =~= todo);
    } else {
        let k = (n - 1) as nat;
        lemma_many_taken(c, model, todo, k);
        let left = todo.subrange(k as int, todo.len() as int);
        lemma_taken(c, ranged::pages_loaded(c, model, todo, k)->Some_0, left);
        assert(left[0] == todo[k as int]);
        assert(left.subrange(1, left.len() as int) =~= todo.subrange(n as int, todo.len() as int));
    }
}

/// A reader that was opened has loaded a part of the hierarchy.
pub proof fn law_opened_part(c: Seq<u8>, model: RangeModel)
    requires
        ranged::opens_lazily(c, model),
    ensures
        part_of(c, model, Seq::empty()),
{
    let start = ranged::unloaded(c)->Ok_0;
    let root = ranged::root_reference(start.info);
    let todo = seq![root];
    assert(page_of_entry(root) == root_page(start));
    assert(entries_of(c, start.visited) =~= Set::empty());
    assert(todo[0] == root);
    assert forall|p: (u64, u64)| #[trigger] met_by(start, todo).contains(p) implies p == root_page(
        start,
    ) by {
        if exists|i: int| 0 <= i < todo.len() && page_of_entry(#[trigger] todo[i]) == p {
            let i = choose|i: int| 0 <= i < todo.len() && page_of_entry(#[trigger] todo[i]) == p;
            assert(todo[i] == root);
        }
    }
    assert(part_of(c, start, todo));
    lemma_taken(c, start, todo);
    assert(todo.subrange(1, 1) =~= Seq::empty());
}

/// A reader that has loaded a part of the hierarchy has loaded one after each query too.
pub proof fn law_grown_part(
    c: Seq<u8>,
    model: RangeModel,
    nodes: Seq<Bounds>,
    query: PointQuery,
    halvings: i64,
)
    requires
        part_of(c, model, Seq::empty()),
        nodes.len() == model.pending.len(),
    ensures
        match ranged::reachable(
            model.pending,
            nodes,
            model.pending.len(),
            model.info,
            query,
            halvings,
        ) {
            Ok((hit, rest)) => match ranged::pages_loaded(
                c,
                (RangeModel { pending: rest, ..model }),
                hit,
                hit.len(),
            ) {
                Some(after) => part_of(c, after, Seq::empty()),
                None => true,
            },
            Err(_) => true,
        },
{
    let split = ranged::reachable(
        model.pending,
        nodes,
        model.pending.len(),
        model.info,
        query,
        halvings,
    );
    if split is Ok {
        let (hit, rest) = split->Ok_0;
        let start = RangeModel { pending: rest, ..model };
        let none = Seq::<Entry>::empty();
        lemma_split(model.pending, nodes, model.pending.len(), model.info, query, halvings);
        assert forall|p: (u64, u64)| #[trigger] met_by(model, none).contains(p) <==> met_by(
            start,
            hit,
        ).contains(p) by {
            if exists|i: int|
                0 <= i < model.pending.len() && page_of_entry(#[trigger] model.pending[i]) == p {
                let i = choose|i: int|
                    0 <= i < model.pending.len() && page_of_entry(#[trigger] model.pending[i]) == p;
                let e = model.pending[i];
                assert(hit.contains(e) || rest.contains(e));
                if hit.contains(e) {
                    let j = choose|j: int| 0 <= j < hit.len() && hit[j] == e;
                    assert(page_of_entry(hit[j]) == p);
                } else {
                    let j = choose|j: int| 0 <= j < rest.len() && rest[j] == e;
                    assert(page_of_entry(start.pending[j]) == p);
                }
            }
            if exists|i: int| 0 <= i < rest.len() && page_of_entry(#[trigger] rest[i]) == p {
                let i = choose|i: int| 0 <= i < rest.len() && page_of_entry(#[trigger] rest[i])
                    == p;
                let j = choose|j: int| 0 <= j < model.pending.len() && model.pending[j] == rest[i];
                assert(page_of_entry(model.pending[j]) == p);
            }
            if exists|i: int| 0 <= i < hit.len() && page_of_entry(#[trigger] hit[i]) == p {
                let i = choose|i: int| 0 <= i < hit.len() && page_of_entry(#[trigger] hit[i]) == p;
                let j = choose|j: int| 0 <= j < model.pending.len() && model.pending[j] == hit[i];
                assert(page_of_entry(model.pending[j]) == p);
            }
        }
        assert(met_by(model, none) =~= met_by(start, hit));
        assert forall|i: int| 0 <= i < rest.len() implies referred_to(
            c,
            start,
            #[trigger] start.pending[i],
        ) by {
            let j = choose|j: int| 0 <= j < model.pending.len() && model.pending[j] == rest[i];
            assert(referred_to(c, model, model.pending[j]));
        }
        assert forall|i: int| 0 <= i < hit.len() implies referred_to(c, start, #[trigger] hit[i]) by {
            let j = choose|j: int| 0 <= j < model.pending.len() && model.pending[j] == hit[i];
            assert(referred_to(c, model, model.pending[j]));
        }
        assert(part_of(c, start, hit));
        if ranged::pages_loaded(c, start, hit, hit.len()) is Some {
            lemma_many_taken(c, start, hit, hit.len());
            assert(hit.subrange(hit.len() as int, hit.len() as int) =~= none);
        }
    }
}

/// Each pending page goes to one side.
proof fn lemma_split(
    pending: Seq<Entry>,
    nodes: Seq<Bounds>,
    n: nat,
    info: crate::info::CopcInfo,
    query: PointQuery,
    halvings: i64,
)
    requires
        n <= pending.len(),
        ranged::reachable(pending, nodes, n, info, query, halvings) is Ok,
    ensures
        ({
            let (hit, rest) = ranged::reachable(pending, nodes, n, info, query, halvings)->Ok_0;
            &&& forall|i: int|
                0 <= i < n ==> hit.contains(#[trigger] pending[i]) || rest.contains(pending[i])
            &&& forall|i: int| 0 <= i < hit.len() ==> pending.contains(#[trigger] hit[i])
            &&& forall|i: int| 0 <= i < rest.len() ==> pending.contains(#[trigger] rest[i])
        }),
    decreases n,
{
    if n > 0 {
        let k = (n - 1) as nat;
        lemma_split(pending, nodes, k, info, query, halvings);
        let (hit, rest) = ranged::reachable(pending, nodes, k, info, query, halvings)->Ok_0;
        let (more, left) = ranged::reachable(pending, nodes, n, info, query, halvings)->Ok_0;
        assert(pending.contains(pending[k as int]));
        assert forall|i: int| 0 <= i < n implies more.contains(#[trigger] pending[i])
            || left.contains(pending[i]) by {
            if i < k {
                if hit.contains(pending[i]) {
                    let j = choose|j: int| 0 <= j < hit.len() && hit[j] == pending[i];
                    assert(more[j] == pending[i]);
                } else {
                    let j = choose|j: int| 0 <= j < rest.len() && rest[j] == pending[i];
                    assert(left[j] == pending[i]);
                }
            } else if more.len() > hit.len() {
                assert(more[hit.len() as int] == pending[i]);
            } else {
                assert(left[rest.len() as int] == pending[i]);
            }
        }
        assert forall|i: int| 0 <= i < more.len() implies pending.contains(#[trigger] more[i]) by {
            if i < hit.len() {
                assert(more[i] == hit[i]);
            }
        }
        assert forall|i: int| 0 <= i < left.len() implies pending.contains(#[trigger] left[i]) by {
            if i < rest.len() {
                assert(left[i] == rest[i]);
            }
        }
    }
}

/// A whole read has gathered the entries of the tree of pages.
proof fn lemma_whole_tree(c: Seq<u8>, whole: CopcModel) -> (pages: Set<(u64, u64)>)
    requires
        file::file_loaded(c) == Ok::<CopcModel, Error>(whole),
    ensures
        page_tree(c, (whole.info.root_hier_offset, whole.info.root_hier_size), pages),
        gathers(whole.hierarchy, entries_of(c, pages)),
{
    reveal(file::file_loaded);
    let root = (whole.info.root_hier_offset, whole.info.root_hier_size);
    let file_len = c.len() as u64;
    assert(whole.root == listed(c, root));
    let queue = PageQueue { visited: Set::empty().insert(root), pending: Seq::empty() };
    let empty = Map::<VoxelKey, Entry>::empty();
    assert(entries_of(c, Set::empty()) =~= Set::empty());
    lemma_page_read(
        c,
        root,
        empty,
        Set::empty(),
        queue,
        queue,
        root,
        file_len,
        whole.ranges,
    );
    let next = file::merged_all(
        empty,
        whole.root,
        whole.root.len(),
        file_len,
        whole.ranges,
    )->Ok_0;
    lemma_whole(
        c,
        root,
        next,
        Set::empty().insert(root),
        file::queued(queue, whole.root, whole.root.len()),
        whole.info.root_hier_size,
        file_len,
        whole.ranges,
    )
}

/// The header, the info and the payload of a lazy reader are those of the whole file.
proof fn lemma_same_file(c: Seq<u8>, model: RangeModel, whole: CopcModel)
    requires
        part_of(c, model, Seq::empty()),
        file::file_loaded(c) == Ok::<CopcModel, Error>(whole),
    ensures
        model.header == whole.header,
        model.info == whole.info,
        model.laszip == whole.laszip,
        model.ranges == whole.ranges,
{
    reveal(file::file_loaded);
}

/// A reader with no page left to load has the hierarchy that reading the whole file gives,
/// where that succeeds.
pub proof fn law_lazy_is_whole(c: Seq<u8>, model: RangeModel, whole: CopcModel)
    requires
        part_of(c, model, Seq::empty()),
        model.pending.len() == 0,
        file::file_loaded(c) == Ok::<CopcModel, Error>(whole),
    ensures
        model.header == whole.header,
        model.info == whole.info,
        model.laszip == whole.laszip,
        model.ranges == whole.ranges,
        model.hierarchy == whole.hierarchy,
{
    lemma_same_file(c, model, whole);
    assert(met_by(model, Seq::empty()) =~= model.visited);
    let pages = lemma_whole_tree(c, whole);
    lemma_one_tree(c, root_page(model), pages, model.visited);
    lemma_one_map(model.hierarchy, whole.hierarchy, entries_of(c, pages));
}

/// Each of the pages holds nodes below the one that refers to it: none is above its level, and
/// what their boxes meet its box meets.
pub open spec fn nested(
    c: Seq<u8>,
    pages: Set<(u64, u64)>,
    boxes: spec_fn(VoxelKey) -> Bounds,
) -> bool {
    forall|r: Entry, e: Entry, b: Bounds|
        #![trigger listed(c, page_of_entry(r)).contains(e), boxes(e.key).meets(b)]
        entries_of(c, pages).contains(r) && r.point_count == -1 && listed(
            c,
            page_of_entry(r),
        ).contains(e) ==> {
            &&& e.key.level >= r.key.level
            &&& boxes(e.key).meets(b) ==> boxes(r.key).meets(b)
        }
}

/// A node that a query for these levels and this box does not take.
pub open spec fn missed(
    key: VoxelKey,
    boxes: spec_fn(VoxelKey) -> Bounds,
    levels: (i32, i32),
    bounds: Option<Bounds>,
) -> bool {
    key.level >= levels.1 || (bounds matches Some(b) && !boxes(key).meets(b))
}

/// The pages with a reference that a query does not take.
spec fn missed_pages(
    c: Seq<u8>,
    pages: Set<(u64, u64)>,
    boxes: spec_fn(VoxelKey) -> Bounds,
    levels: (i32, i32),
    bounds: Option<Bounds>,
) -> Set<(u64, u64)> {
    Set::new(
        |p: (u64, u64)|
            exists|r: Entry|
                r.point_count == -1 && entries_of(c, pages).contains(r) && #[trigger] page_of_entry(
                    r,
                ) == p && missed(r.key, boxes, levels, bounds),
    )
}

/// Where nothing is hit, no pending page can match.
proof fn lemma_no_hit(
    pending: Seq<Entry>,
    nodes: Seq<Bounds>,
    n: nat,
    info: crate::info::CopcInfo,
    query: PointQuery,
    halvings: i64,
    i: int,
)
    requires
        0 <= i < n <= pending.len(),
        ranged::reachable(pending, nodes, n, info, query, halvings) is Ok,
        ranged::reachable(pending, nodes, n, info, query, halvings)->Ok_0.0.len() == 0,
    ensures
        query::page_matches(pending[i].key, nodes[i], info, query, halvings) == Ok::<bool, Error>(
            false,
        ),
    decreases n,
{
    if i < n - 1 {
        lemma_no_hit(pending, nodes, (n - 1) as nat, info, query, halvings, i);
    }
}

/// The pages that a reader with nothing more to load for a query has not visited are missed by
/// it.
proof fn lemma_pending_missed(
    c: Seq<u8>,
    model: RangeModel,
    pages: Set<(u64, u64)>,
    boxes: spec_fn(VoxelKey) -> Bounds,
    query: PointQuery,
    halvings: i64,
    p: (u64, u64),
)
    requires
        part_of(c, model, Seq::empty()),
        query::levels_of(query.lod, model.info, halvings) is Ok,
        nothing_to_load(model, boxes, query, halvings),
        model.visited.subset_of(pages),
        met_by(model, Seq::empty()).contains(p),
        !model.visited.contains(p),
    ensures
        missed_pages(
            c,
            pages,
            boxes,
            query::levels_of(query.lod, model.info, halvings)->Ok_0,
            query::box_of(query),
        ).contains(p),
{
    let nodes = Seq::new(model.pending.len(), |i: int| boxes(model.pending[i].key));
    let i = choose|i: int|
        0 <= i < model.pending.len() && page_of_entry(#[trigger] model.pending[i]) == p;
    let r = model.pending[i];
    lemma_no_hit(model.pending, nodes, model.pending.len(), model.info, query, halvings, i);
    assert(nodes[i] == boxes(r.key));
    assert(referred_to(c, model, r));
    let q = choose|q: (u64, u64)| model.visited.contains(q) && listed(c, q).contains(r);
    assert(pages.contains(q) && listed(c, q).contains(r));
    assert(entries_of(c, pages).contains(r));
    assert(page_of_entry(r) == p);
}

/// The entries of a page that a query misses are missed too.
proof fn lemma_missed_below(
    c: Seq<u8>,
    pages: Set<(u64, u64)>,
    boxes: spec_fn(VoxelKey) -> Bounds,
    levels: (i32, i32),
    bounds: Option<Bounds>,
    p: (u64, u64),
    e: Entry,
)
    requires
        nested(c, pages, boxes),
        missed_pages(c, pages, boxes, levels, bounds).contains(p),
        listed(c, p).contains(e),
    ensures
        missed(e.key, boxes, levels, bounds),
{
    let r = choose|r: Entry|
        r.point_count == -1 && entries_of(c, pages).contains(r) && #[trigger] page_of_entry(r) == p
            && missed(r.key, boxes, levels, bounds);
    assert(listed(c, page_of_entry(r)).contains(e));
    let b = if bounds is Some {
        bounds->Some_0
    } else {
        boxes(e.key)
    };
    assert(boxes(e.key).meets(b) ==> boxes(r.key).meets(b));
}

/// No pending page can hold nodes that the query takes.
pub open spec fn nothing_to_load(
    model: RangeModel,
    boxes: spec_fn(VoxelKey) -> Bounds,
    query: PointQuery,
    halvings: i64,
) -> bool {
    let nodes = Seq::new(model.pending.len(), |i: int| boxes(model.pending[i].key));
    match ranged::reachable(
        model.pending,
        nodes,
        model.pending.len(),
        model.info,
        query,
        halvings,
    ) {
        Ok((hit, _)) => hit.len() == 0,
        Err(_) => false,
    }
}

/// A reader that has loaded every page that a query can reach has the nodes that the query
/// takes: those that reading the whole file gives, and no others. `pages` are the pages of the
/// file.
pub proof fn law_lazy_query(
    c: Seq<u8>,
    model: RangeModel,
    whole: CopcModel,
    pages: Set<(u64, u64)>,
    boxes: spec_fn(VoxelKey) -> Bounds,
    query: PointQuery,
    halvings: i64,
    entry: Entry,
)
    requires
        part_of(c, model, Seq::empty()),
        file::file_loaded(c) == Ok::<CopcModel, Error>(whole),
        page_tree(c, root_page(model), pages),
        nested(c, pages, boxes),
        query::levels_of(query.lod, model.info, halvings) is Ok,
        nothing_to_load(model, boxes, query, halvings),
        query::chosen(
            entry,
            boxes(entry.key),
            query::levels_of(query.lod, model.info, halvings)->Ok_0,
            query::box_of(query),
        ),
    ensures
        (model.hierarchy.contains_key(entry.key) && model.hierarchy[entry.key] == entry) <==> (
        whole.hierarchy.contains_key(entry.key) && whole.hierarchy[entry.key] == entry),
{
    let none = Seq::<Entry>::empty();
    let root = root_page(model);
    let levels = query::levels_of(query.lod, model.info, halvings)->Ok_0;
    let bounds = query::box_of(query);
    let met = met_by(model, none);
    lemma_same_file(c, model, whole);
    let found = lemma_whole_tree(c, whole);
    lemma_one_tree(c, root, pages, found);
    assert(met.subset_of(pages)) by {
        assert(leads_into(c, pages, pages));
    }
    assert(model.visited.subset_of(pages)) by {
        assert forall|p: (u64, u64)| #[trigger] model.visited.contains(p) implies pages.contains(
            p,
        ) by {
            assert(met.contains(p));
        }
    }
    let dead = missed_pages(c, pages, boxes, levels, bounds);
    // The pages of the file that were visited or are missed are all there are.
    let cover = pages.intersect(model.visited.union(dead));
    assert forall|p: (u64, u64)| met.contains(p) implies #[trigger] cover.contains(p) by {
        if !model.visited.contains(p) {
            lemma_pending_missed(c, model, pages, boxes, query, halvings, p);
        }
    }
    assert forall|p: (u64, u64), e: Entry|
        cover.contains(p) && #[trigger] listed(c, p).contains(e) && e.point_count
            == -1 implies cover.contains(page_of_entry(e)) by {
        if model.visited.contains(p) {
            assert(met.contains(page_of_entry(e)));
        } else {
            lemma_missed_below(c, pages, boxes, levels, bounds, p, e);
            assert(pages.contains(p) && listed(c, p).contains(e));
            assert(entries_of(c, pages).contains(e));
            assert(dead.contains(page_of_entry(e)));
        }
    }
    assert(leads_into(c, cover, cover));
    assert(cover.contains(root)) by {
        assert(met.contains(root));
    }
    assert(pages.subset_of(cover));
    if whole.hierarchy.contains_key(entry.key) && whole.hierarchy[entry.key] == entry {
        assert(entries_of(c, pages).contains(entry));
        let p = choose|p: (u64, u64)| pages.contains(p) && listed(c, p).contains(entry);
        assert(cover.contains(p));
        if !model.visited.contains(p) {
            lemma_missed_below(c, pages, boxes, levels, bounds, p, entry);
        }
        assert(model.visited.contains(p) && listed(c, p).contains(entry));
        assert(entries_of(c, model.visited).contains(entry));
    }
    if model.hierarchy.contains_key(entry.key) && model.hierarchy[entry.key] == entry {
        assert(entries_of(c, model.visited).contains(entry));
        let p = choose|p: (u64, u64)| model.visited.contains(p) && listed(c, p).contains(entry);
        assert(pages.contains(p) && listed(c, p).contains(entry));
        assert(entries_of(c, pages).contains(entry));
    }
}

} // verus!
