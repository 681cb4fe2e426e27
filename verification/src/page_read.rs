//! Planned hierarchy pages, read back from a file.

use vstd::prelude::*;

use crate::error::Error;
use crate::file;
use crate::file::{CopcDataRanges, PageQueue};
use crate::hierarchy;
use crate::hierarchy::{Entry, VoxelKey};
use crate::limits::MAX_HIERARCHY_TOTAL_BYTES;
use crate::page_tree;
use crate::pages;
use crate::pages::{PageItem, PageModel, HIERARCHY_PAGE_MAX_ENTRIES};

verus! {

/// The entries on page `i`.
spec fn page_entries(pages: Seq<PageModel>, i: int) -> Seq<Entry> {
    pages::item_entries(pages, pages[i].items, pages[i].items.len() as int)->Ok_0
}

/// Where page `i` lies.
spec fn page_range(pages: Seq<PageModel>, i: int) -> (u64, u64) {
    (pages[i].offset, pages[i].byte_size)
}

proof fn lemma_item_entries(pages: Seq<PageModel>, items: Seq<PageItem>, n: int)
    requires
        0 <= n <= items.len(),
        pages::item_entries(pages, items, n) is Ok,
    ensures
        ({
            let entries = pages::item_entries(pages, items, n)->Ok_0;
            &&& entries.len() == n
            &&& forall|j: int|
                0 <= j < n ==> {
                    &&& pages::item_entry(pages, items[j]) == Ok::<Entry, Error>(
                        #[trigger] entries[j],
                    )
                    &&& entries[j].valid()
                }
        }),
    decreases n,
{
    if n > 0 {
        lemma_item_entries(pages, items, n - 1);
        let entry = pages::item_entry(pages, items[n - 1])->Ok_0;
        assert(entry.valid());
    }
}

/// Page `i` of the written bytes.
proof fn lemma_page_bytes(pages: Seq<PageModel>, position: u64, n: int, i: int)
    requires
        0 <= i < n <= pages.len(),
        pages::tree_bytes(pages, position, n) is Ok,
    ensures
        ({
            let all = pages::tree_bytes(pages, position, n)->Ok_0;
            let start = pages::bytes_before(pages, i) as int;
            &&& pages::item_entries(pages, pages[i].items, pages[i].items.len() as int) is Ok
            &&& all.len() == pages::bytes_before(pages, n)
            &&& start + 32 * pages[i].items.len() <= all.len()
            &&& pages[i].offset == position + start
            &&& all.subrange(start, start + 32 * pages[i].items.len())
                == hierarchy::entries_bytes(page_entries(pages, i))
        }),
    decreases n,
{
    lemma_tree_len(pages, position, n);
    lemma_tree_len(pages, position, n - 1);
    let all = pages::tree_bytes(pages, position, n)->Ok_0;
    let before = pages::tree_bytes(pages, position, n - 1)->Ok_0;
    let start = pages::bytes_before(pages, i) as int;
    let len = 32 * pages[i].items.len();
    lemma_item_entries(pages, pages[n - 1].items, pages[n - 1].items.len() as int);
    hierarchy::lemma_entries_bytes_len(page_entries(pages, n - 1));
    if i < n - 1 {
        lemma_page_bytes(pages, position, n - 1, i);
        assert(all.subrange(start, start + len) =~= before.subrange(start, start + len));
    } else {
        assert(all.subrange(start, start + len) =~= hierarchy::entries_bytes(
            page_entries(pages, i),
        ));
    }
}

/// The bytes of all pages are as many as the pages say.
pub proof fn lemma_tree_len(pages: Seq<PageModel>, position: u64, n: int)
    requires
        0 <= n <= pages.len(),
        pages::tree_bytes(pages, position, n) is Ok,
    ensures
        pages::tree_bytes(pages, position, n)->Ok_0.len() == pages::bytes_before(pages, n),
    decreases n,
{
    if n > 0 {
        lemma_tree_len(pages, position, n - 1);
        lemma_item_entries(pages, pages[n - 1].items, pages[n - 1].items.len() as int);
        hierarchy::lemma_entries_bytes_len(page_entries(pages, n - 1));
    }
}

/// The bytes of `c` from `start` on are those of the pages, which hold `entries`, and all
/// that the pages say can be read.
pub open spec fn stored(
    c: Seq<u8>,
    pages: Seq<PageModel>,
    start: u64,
    entries: Set<Entry>,
    file_len: u64,
    ranges: CopcDataRanges,
) -> bool {
    let written = pages::tree_bytes(pages, start, pages.len() as int);
    &&& file_len == c.len()
    &&& exists|key: VoxelKey| #[trigger] page_tree::sound(pages, 0, entries, key)
    &&& forall|i: int|
        0 <= i < pages.len() ==> {
            &&& 0 < (#[trigger] pages[i]).items.len() <= HIERARCHY_PAGE_MAX_ENTRIES
            &&& pages[i].byte_size == 32 * pages[i].items.len()
        }
    &&& written is Ok
    &&& start + written->Ok_0.len() <= file_len
    &&& c.subrange(start as int, start + written->Ok_0.len()) == written->Ok_0
    &&& ranges.hierarchy_start <= start
    &&& start + written->Ok_0.len() <= ranges.hierarchy_end
    &&& written->Ok_0.len() <= MAX_HIERARCHY_TOTAL_BYTES
    &&& forall|entry: Entry| #[trigger]
        entries.contains(entry) ==> entry.point_count >= 0 && file::entry_check(
            entry,
            file_len,
            ranges,
        ) is Ok
}

/// The bytes of those of the first `n` pages that are in `done`.
spec fn done_bytes(pages: Seq<PageModel>, done: Set<int>, n: int) -> nat
    decreases n,
{
    if n <= 0 {
        0
    } else {
        done_bytes(pages, done, n - 1) + if done.contains(n - 1) {
            32 * pages[n - 1].items.len()
        } else {
            0
        }
    }
}

proof fn lemma_done_bytes(pages: Seq<PageModel>, done: Set<int>, p: int, n: int)
    requires
        0 <= p < pages.len(),
        0 <= n <= pages.len(),
        !done.contains(p),
    ensures
        done_bytes(pages, done.insert(p), n) == done_bytes(pages, done, n) + if p < n {
            32 * pages[p].items.len()
        } else {
            0
        },
        done_bytes(pages, done.insert(p), n) <= pages::bytes_before(pages, n),
    decreases n,
{
    if n > 0 {
        lemma_done_bytes(pages, done, p, n - 1);
    }
}

/// What is in the map after the pages in `done`, and the first `n` items of page `p`.
spec fn tracks(
    pages: Seq<PageModel>,
    map: Map<VoxelKey, Entry>,
    done: Set<int>,
    p: int,
    n: int,
) -> bool {
    &&& forall|i: int, j: int|
        (#[trigger] page_tree::point_at(pages, i, j)) is Some && met(done, p, n, i, j) ==> {
            let entry = page_tree::point_at(pages, i, j)->0;
            map.contains_key(entry.key) && map[entry.key] == entry
        }
    &&& forall|k: VoxelKey| #[trigger]
        map.contains_key(k) ==> from_point(pages, map, done, p, n, k) || from_child(
            pages,
            map,
            done,
            p,
            n,
            k,
        )
}

spec fn from_point(
    pages: Seq<PageModel>,
    map: Map<VoxelKey, Entry>,
    done: Set<int>,
    p: int,
    n: int,
    k: VoxelKey,
) -> bool {
    map[k].key == k && exists|i: int, j: int|
        (#[trigger] page_tree::point_at(pages, i, j)) == Some(map[k]) && met(done, p, n, i, j)
}

spec fn from_child(
    pages: Seq<PageModel>,
    map: Map<VoxelKey, Entry>,
    done: Set<int>,
    p: int,
    n: int,
    k: VoxelKey,
) -> bool {
    exists|i: int, j: int|
        {
            &&& (#[trigger] page_tree::child_at(pages, i, j)) is Some
            &&& met(done, p, n, i, j)
            &&& pages[page_tree::child_at(pages, i, j)->0].key == k
            &&& pages::item_entry(pages, pages[i].items[j]) == Ok::<Entry, Error>(map[k])
        }
}

spec fn met(done: Set<int>, p: int, n: int, i: int, j: int) -> bool {
    done.contains(i) || i == p && j < n
}

/// What was read: the pages in `done`. What is to be read: `todo`.
spec fn progress(pages: Seq<PageModel>, done: Set<int>, todo: Seq<int>) -> bool {
    &&& forall|i: int| #[trigger] done.contains(i) ==> 0 <= i < pages.len()
    &&& forall|k: int|
        0 <= k < todo.len() ==> 0 <= #[trigger] todo[k] < pages.len() && !done.contains(todo[k])
    &&& forall|k: int, l: int|
        0 <= k < l < todo.len() ==> #[trigger] todo[k] != #[trigger] todo[l]
    // Pages that were read or are to be read were referred to by a page that was read.
    &&& forall|i: int, j: int|
        {
            let g = page_tree::child_at(pages, i, j);
            (#[trigger] page_tree::child_at(pages, i, j)) is Some ==> (done.contains(i) <==> (
            done.contains(g->0) || todo.contains(g->0)))
        }
}

spec fn queue_of(pages: Seq<PageModel>, done: Set<int>, todo: Seq<int>) -> PageQueue {
    PageQueue {
        visited: Set::new(
            |r: (u64, u64)| exists|i: int|
                (done.contains(i) || todo.contains(i)) && r == #[trigger] page_range(pages, i),
        ),
        pending: Seq::new(todo.len(), |k: int| page_range(pages, todo[k])),
    }
}

/// What [`stored`] says, without the key of the first page.
proof fn lemma_stored(
    c: Seq<u8>,
    pages: Seq<PageModel>,
    start: u64,
    entries: Set<Entry>,
    file_len: u64,
    ranges: CopcDataRanges,
)
    requires
        stored(c, pages, start, entries, file_len, ranges),
    ensures
        pages.len() > 0,
        page_tree::points_sound(pages, entries),
        page_tree::children_sound(pages, 0),
        forall|i: int, j: int|
            0 <= i < pages.len() && 0 <= j < pages.len() && i != j ==> (
            #[trigger] pages[i]).key != (#[trigger] pages[j]).key,
{
    let key = choose|key: VoxelKey| #[trigger] page_tree::sound(pages, 0, entries, key);
    assert(page_tree::sound(pages, 0, entries, key));
}

proof fn lemma_before_increases(pages: Seq<PageModel>, a: int, b: int)
    requires
        0 <= a <= b <= pages.len(),
        forall|i: int| 0 <= i < pages.len() ==> 0 < (#[trigger] pages[i]).items.len(),
    ensures
        pages::bytes_before(pages, a) <= pages::bytes_before(pages, b),
        a < b ==> pages::bytes_before(pages, a) < pages::bytes_before(pages, b),
    decreases b - a,
{
    if a < b {
        lemma_before_increases(pages, a, b - 1);
        assert(pages[b - 1].items.len() > 0);
    }
}

/// More pages, more bytes.
pub proof fn lemma_before_grows(pages: Seq<PageModel>, a: int, b: int)
    requires
        0 <= a <= b <= pages.len(),
    ensures
        pages::bytes_before(pages, a) <= pages::bytes_before(pages, b),
    decreases b - a,
{
    if a < b {
        lemma_before_grows(pages, a, b - 1);
    }
}

/// Distinct pages lie at distinct places.
proof fn lemma_ranges_distinct(pages: Seq<PageModel>, start: u64, i: int, k: int)
    requires
        0 <= i < pages.len(),
        0 <= k < pages.len(),
        i != k,
        pages::tree_bytes(pages, start, pages.len() as int) is Ok,
        forall|i: int| 0 <= i < pages.len() ==> 0 < (#[trigger] pages[i]).items.len(),
    ensures
        page_range(pages, i) != page_range(pages, k),
{
    lemma_page_bytes(pages, start, pages.len() as int, i);
    lemma_page_bytes(pages, start, pages.len() as int, k);
    if i < k {
        lemma_before_increases(pages, i, k);
    } else {
        lemma_before_increases(pages, k, i);
    }
}

/// A stored page is read as it was written.
#[verifier::rlimit(40)]
proof fn lemma_page_read(
    c: Seq<u8>,
    pages: Seq<PageModel>,
    start: u64,
    entries: Set<Entry>,
    file_len: u64,
    ranges: CopcDataRanges,
    p: int,
    total: u64,
)
    requires
        stored(c, pages, start, entries, file_len, ranges),
        0 <= p < pages.len(),
        total + pages[p].byte_size <= MAX_HIERARCHY_TOTAL_BYTES,
    ensures
        file::page_at(c, pages[p].offset, pages[p].byte_size, total, file_len) == Ok::<
            Seq<Entry>,
            Error,
        >(page_entries(pages, p)),
        page_entries(pages, p).len() == pages[p].items.len(),
        forall|j: int|
            0 <= j < pages[p].items.len() ==> {
                &&& pages::item_entry(pages, pages[p].items[j]) == Ok::<Entry, Error>(
                    #[trigger] page_entries(pages, p)[j],
                )
                &&& page_entries(pages, p)[j].valid()
            },
{
    let n = pages.len() as int;
    let written = pages::tree_bytes(pages, start, n)->Ok_0;
    lemma_page_bytes(pages, start, n, p);
    lemma_item_entries(pages, pages[p].items, pages[p].items.len() as int);
    let at = pages::bytes_before(pages, p) as int;
    let len = 32 * pages[p].items.len();
    let own = page_entries(pages, p);
    assert(c.subrange(pages[p].offset as int, pages[p].offset + pages[p].byte_size)
        =~= c.subrange(start as int, start + written.len()).subrange(at, at + len));
    hierarchy::law_page_round_trip(own);
}

/// An entry that stands on a page can be taken.
proof fn lemma_item_checked(
    c: Seq<u8>,
    pages: Seq<PageModel>,
    start: u64,
    entries: Set<Entry>,
    file_len: u64,
    ranges: CopcDataRanges,
    p: int,
    j: int,
)
    requires
        stored(c, pages, start, entries, file_len, ranges),
        0 <= p < pages.len(),
        0 <= j < pages[p].items.len(),
    ensures
        pages::item_entry(pages, pages[p].items[j]) is Ok,
        file::entry_check(
            pages::item_entry(pages, pages[p].items[j])->Ok_0,
            file_len,
            ranges,
        ) is Ok,
        match pages[p].items[j] {
            PageItem::Point(entry) => page_tree::point_at(pages, p, j) == Some(entry)
                && page_tree::child_at(pages, p, j) is None && entry.point_count != -1,
            PageItem::Child(g) => page_tree::child_at(pages, p, j) == Some(g as int) && p < g
                < pages.len() && page_tree::point_at(pages, p, j) is None,
        },
{
    let n = pages.len() as int;
    lemma_stored(c, pages, start, entries, file_len, ranges);
    lemma_page_bytes(pages, start, n, p);
    lemma_item_entries(pages, pages[p].items, pages[p].items.len() as int);
    let entry = page_entries(pages, p)[j];
    assert(pages::item_entry(pages, pages[p].items[j]) == Ok::<Entry, Error>(entry));
    assert(entry.valid());
    match pages[p].items[j] {
        PageItem::Point(node) => {
            assert(page_tree::point_at(pages, p, j) == Some(node));
            assert(entries.contains(node));
        },
        PageItem::Child(g) => {
            assert(page_tree::child_at(pages, p, j) == Some(g as int));
            lemma_page_bytes(pages, start, n, g as int);
            assert(pages[g as int].byte_size == 32 * pages[g as int].items.len());
        },
    }
}

/// Taking the items of page `p` one after the other.
proof fn lemma_merge(
    c: Seq<u8>,
    pages: Seq<PageModel>,
    start: u64,
    entries: Set<Entry>,
    file_len: u64,
    ranges: CopcDataRanges,
    map: Map<VoxelKey, Entry>,
    done: Set<int>,
    todo: Seq<int>,
    p: int,
    n: int,
)
    requires
        stored(c, pages, start, entries, file_len, ranges),
        progress(pages, done, todo),
        todo.contains(p),
        0 <= p < pages.len(),
        !done.contains(p),
        tracks(pages, map, done, p, 0),
        0 <= n <= pages[p].items.len(),
    ensures
        file::merged_all(map, page_entries(pages, p), n as nat, file_len, ranges) is Ok,
        tracks(
            pages,
            file::merged_all(map, page_entries(pages, p), n as nat, file_len, ranges)->Ok_0,
            done,
            p,
            n,
        ),
    decreases n,
{
    if n > 0 {
        let own = page_entries(pages, p);
        let at = n - 1;
        lemma_merge(c, pages, start, entries, file_len, ranges, map, done, todo, p, at);
        lemma_stored(c, pages, start, entries, file_len, ranges);
        lemma_item_checked(c, pages, start, entries, file_len, ranges, p, at);
        lemma_page_bytes(pages, start, pages.len() as int, p);
        lemma_item_entries(pages, pages[p].items, pages[p].items.len() as int);
        let before = file::merged_all(map, own, at as nat, file_len, ranges)->Ok_0;
        let entry = own[at];
        assert(pages::item_entry(pages, pages[p].items[at]) == Ok::<Entry, Error>(entry));
        let k = entry.key;
        match pages[p].items[at] {
            PageItem::Point(node) => {
                assert(page_tree::point_at(pages, p, at) == Some(entry));
                if before.contains_key(k) {
                    assert(!from_point(pages, before, done, p, at, k)) by {
                        if from_point(pages, before, done, p, at, k) {
                            let (i, j) = choose|i: int, j: int|
                                (#[trigger] page_tree::point_at(pages, i, j)) == Some(before[k])
                                    && met(done, p, at, i, j);
                            assert(i == p && j == at);
                        }
                    }
                    assert(from_child(pages, before, done, p, at, k));
                    assert(before[k].point_count == -1);
                }
            },
            PageItem::Child(g) => {
                assert(k == pages[g as int].key);
                if before.contains_key(k) {
                    if from_point(pages, before, done, p, at, k) {
                        let (i, j) = choose|i: int, j: int|
                            (#[trigger] page_tree::point_at(pages, i, j)) == Some(before[k])
                                && met(done, p, at, i, j);
                        assert(i == g);
                        assert(page_tree::child_at(pages, p, at) == Some(g as int));
                        assert(false);
                    } else {
                        let (i, j) = choose|i: int, j: int|
                            {
                                &&& (#[trigger] page_tree::child_at(pages, i, j)) is Some
                                &&& met(done, p, at, i, j)
                                &&& pages[page_tree::child_at(pages, i, j)->0].key == k
                                &&& pages::item_entry(pages, pages[i].items[j]) == Ok::<
                                    Entry,
                                    Error,
                                >(before[k])
                            };
                        let h = page_tree::child_at(pages, i, j)->0;
                        assert(0 <= h < pages.len());
                        assert(h == g);
                        assert(page_tree::child_at(pages, p, at) == Some(g as int));
                        assert(i == p && j == at);
                        assert(false);
                    }
                }
            },
        }
        let after = before.insert(k, entry);
        assert(file::merged_all(map, own, n as nat, file_len, ranges) == Ok::<
            Map<VoxelKey, Entry>,
            Error,
        >(after));
        assert forall|i: int, j: int|
            (#[trigger] page_tree::point_at(pages, i, j)) is Some && met(done, p, n, i, j) implies ({
            let node = page_tree::point_at(pages, i, j)->0;
            after.contains_key(node.key) && after[node.key] == node
        }) by {
            let node = page_tree::point_at(pages, i, j)->0;
            if i == p && j == at {
            } else {
                assert(met(done, p, at, i, j));
                assert(before[node.key] == node);
                if node.key == k {
                    match pages[p].items[at] {
                        PageItem::Point(_) => {
                            assert(page_tree::point_at(pages, p, at) == Some(entry));
                        },
                        PageItem::Child(_) => {},
                    }
                }
            }
        }
        assert forall|x: VoxelKey| #[trigger] after.contains_key(x) implies from_point(
            pages,
            after,
            done,
            p,
            n,
            x,
        ) || from_child(pages, after, done, p, n, x) by {
            if x == k {
                assert(met(done, p, n, p, at));
                match pages[p].items[at] {
                    PageItem::Point(_) => {
                        assert(page_tree::point_at(pages, p, at) == Some(after[x]));
                    },
                    PageItem::Child(g) => {
                        assert(page_tree::child_at(pages, p, at) == Some(g as int));
                    },
                }
            } else {
                assert(before.contains_key(x));
                assert(after[x] == before[x]);
                if from_point(pages, before, done, p, at, x) {
                    let (i, j) = choose|i: int, j: int|
                        (#[trigger] page_tree::point_at(pages, i, j)) == Some(before[x]) && met(
                            done,
                            p,
                            at,
                            i,
                            j,
                        );
                    assert(met(done, p, n, i, j));
                    assert(page_tree::point_at(pages, i, j) == Some(after[x]));
                } else {
                    let (i, j) = choose|i: int, j: int|
                        {
                            &&& (#[trigger] page_tree::child_at(pages, i, j)) is Some
                            &&& met(done, p, at, i, j)
                            &&& pages[page_tree::child_at(pages, i, j)->0].key == x
                            &&& pages::item_entry(pages, pages[i].items[j]) == Ok::<Entry, Error>(
                                before[x],
                            )
                        };
                    assert(met(done, p, n, i, j));
                    assert(page_tree::child_at(pages, i, j) is Some);
                }
            }
        }
    }
}

/// The pages that the first `n` items of page `p` refer to.
spec fn children(pages: Seq<PageModel>, p: int, n: int) -> Seq<int>
    decreases n,
{
    if n <= 0 {
        Seq::empty()
    } else {
        match page_tree::child_at(pages, p, n - 1) {
            Some(g) => children(pages, p, n - 1).push(g),
            None => children(pages, p, n - 1),
        }
    }
}

proof fn lemma_children(pages: Seq<PageModel>, p: int, n: int)
    requires
        0 <= p < pages.len(),
        0 <= n <= pages[p].items.len(),
        page_tree::children_sound(pages, 0),
    ensures
        forall|g: int| #[trigger]
            children(pages, p, n).contains(g) <==> exists|j: int|
                0 <= j < n && #[trigger] page_tree::child_at(pages, p, j) == Some(g),
        forall|k: int, l: int|
            0 <= k < l < children(pages, p, n).len() ==> #[trigger] children(pages, p, n)[k]
                != #[trigger] children(pages, p, n)[l],
        forall|k: int|
            0 <= k < children(pages, p, n).len() ==> p < #[trigger] children(pages, p, n)[k]
                < pages.len(),
    decreases n,
{
    if n > 0 {
        lemma_children(pages, p, n - 1);
        let before = children(pages, p, n - 1);
        let all = children(pages, p, n);
        let next = page_tree::child_at(pages, p, n - 1);
        assert forall|g: int| #[trigger] all.contains(g) <==> exists|j: int|
            0 <= j < n && #[trigger] page_tree::child_at(pages, p, j) == Some(g) by {
            if all.contains(g) {
                let k = choose|k: int| 0 <= k < all.len() && all[k] == g;
                if k < before.len() {
                    assert(before[k] == g);
                    assert(before.contains(g));
                } else {
                    assert(page_tree::child_at(pages, p, n - 1) == Some(g));
                }
            }
            if exists|j: int| 0 <= j < n && #[trigger] page_tree::child_at(pages, p, j) == Some(g) {
                let j = choose|j: int|
                    0 <= j < n && #[trigger] page_tree::child_at(pages, p, j) == Some(g);
                if j < n - 1 {
                    assert(before.contains(g));
                    let k = choose|k: int| 0 <= k < before.len() && before[k] == g;
                    assert(all[k] == g);
                } else {
                    assert(all[all.len() - 1] == g);
                }
            }
        }
        if next is Some {
            assert(!before.contains(next->0));
            assert forall|k: int, l: int| 0 <= k < l < all.len() implies #[trigger] all[k]
                != #[trigger] all[l] by {
                if l < before.len() {
                    assert(before[k] != before[l]);
                } else {
                    assert(before.contains(before[k]));
                }
            }
        }
    }
}

/// The queue with the pages that the first `n` items of page `p` refer to.
spec fn with_children(pages: Seq<PageModel>, rest: PageQueue, p: int, n: int) -> PageQueue {
    let more = children(pages, p, n);
    PageQueue {
        visited: Set::new(
            |r: (u64, u64)|
                rest.visited.contains(r) || exists|g: int| #[trigger]
                    more.contains(g) && r == page_range(pages, g),
        ),
        pending: rest.pending + Seq::new(more.len(), |k: int| page_range(pages, more[k])),
    }
}

proof fn lemma_queue(
    c: Seq<u8>,
    pages: Seq<PageModel>,
    start: u64,
    entries: Set<Entry>,
    file_len: u64,
    ranges: CopcDataRanges,
    done: Set<int>,
    todo: Seq<int>,
    rest: PageQueue,
    p: int,
    n: int,
)
    requires
        stored(c, pages, start, entries, file_len, ranges),
        progress(pages, done, todo),
        rest.visited == queue_of(pages, done, todo).visited,
        0 <= p < pages.len(),
        !done.contains(p),
        0 <= n <= pages[p].items.len(),
    ensures
        file::queued(rest, page_entries(pages, p), n as nat) == with_children(pages, rest, p, n),
    decreases n,
{
    let own = page_entries(pages, p);
    if n == 0 {
        let none = with_children(pages, rest, p, 0);
        assert(none.pending =~= rest.pending);
        assert(none.visited =~= rest.visited);
    } else {
        let at = n - 1;
        lemma_queue(c, pages, start, entries, file_len, ranges, done, todo, rest, p, at);
        lemma_stored(c, pages, start, entries, file_len, ranges);
        lemma_item_checked(c, pages, start, entries, file_len, ranges, p, at);
        lemma_page_bytes(pages, start, pages.len() as int, p);
        lemma_item_entries(pages, pages[p].items, pages[p].items.len() as int);
        lemma_children(pages, p, at);
        lemma_children(pages, p, n);
        let before = with_children(pages, rest, p, at);
        let after = with_children(pages, rest, p, n);
        let some = children(pages, p, at);
        let more = children(pages, p, n);
        let entry = own[at];
        assert(pages::item_entry(pages, pages[p].items[at]) == Ok::<Entry, Error>(entry));
        match pages[p].items[at] {
            PageItem::Point(_) => {
                assert(page_tree::child_at(pages, p, at) is None);
                assert(more == some);
            },
            PageItem::Child(h) => {
                let g = h as int;
                let r = page_range(pages, g);
                assert(page_tree::child_at(pages, p, at) == Some(g));
                assert(more == some.push(g));
                assert((entry.offset, entry.byte_size as u64) == r);
                assert(!before.visited.contains(r)) by {
                    if rest.visited.contains(r) {
                        let i = choose|i: int|
                            (done.contains(i) || todo.contains(i)) && r == #[trigger] page_range(
                                pages,
                                i,
                            );
                        if i != g {
                            lemma_ranges_distinct(pages, start, i, g);
                        }
                    } else if before.visited.contains(r) {
                        let i = choose|i: int| #[trigger]
                            some.contains(i) && r == page_range(pages, i);
                        let j = choose|j: int|
                            0 <= j < at && #[trigger] page_tree::child_at(pages, p, j) == Some(i);
                        if i != g {
                            lemma_ranges_distinct(pages, start, i, g);
                        }
                    }
                }
                assert(after.visited =~= before.visited.insert(r)) by {
                    assert forall|x: (u64, u64)| after.visited.contains(x) implies
                        before.visited.insert(r).contains(x) by {
                        if !rest.visited.contains(x) {
                            let i = choose|i: int| #[trigger]
                                more.contains(i) && x == page_range(pages, i);
                            if i != g {
                                let k = choose|k: int| 0 <= k < more.len() && more[k] == i;
                                assert(some[k] == i);
                                assert(some.contains(i));
                            }
                        }
                    }
                    assert forall|x: (u64, u64)| before.visited.insert(r).contains(x) implies
                        after.visited.contains(x) by {
                        if x == r {
                            assert(more[more.len() - 1] == g);
                            assert(more.contains(g));
                        } else if !rest.visited.contains(x) {
                            let i = choose|i: int| #[trigger]
                                some.contains(i) && x == page_range(pages, i);
                            let k = choose|k: int| 0 <= k < some.len() && some[k] == i;
                            assert(more[k] == i);
                            assert(more.contains(i));
                        }
                    }
                }
                assert(after.pending =~= before.pending.push(r));
            },
        }
    }
}

/// One page is read: the last one of `todo`.
proof fn lemma_step(
    c: Seq<u8>,
    pages: Seq<PageModel>,
    start: u64,
    entries: Set<Entry>,
    file_len: u64,
    ranges: CopcDataRanges,
    done: Set<int>,
    todo: Seq<int>,
)
    requires
        stored(c, pages, start, entries, file_len, ranges),
        progress(pages, done, todo),
        todo.len() > 0,
    ensures
        ({
            let p = todo.last();
            let n = pages[p].items.len() as int;
            let queue = queue_of(pages, done, todo);
            let rest = PageQueue { visited: queue.visited, pending: queue.pending.drop_last() };
            let next = todo.drop_last() + children(pages, p, n);
            &&& progress(pages, done.insert(p), next)
            &&& with_children(pages, rest, p, n) == queue_of(pages, done.insert(p), next)
        }),
{
    let p = todo.last();
    let n = pages[p].items.len() as int;
    let queue = queue_of(pages, done, todo);
    let rest = PageQueue { visited: queue.visited, pending: queue.pending.drop_last() };
    let more = children(pages, p, n);
    let left = todo.drop_last();
    let next = left + more;
    let now = done.insert(p);
    lemma_stored(c, pages, start, entries, file_len, ranges);
    lemma_children(pages, p, n);
    assert forall|g: int| #[trigger] next.contains(g) <==> left.contains(g) || more.contains(g) by {
        if next.contains(g) {
            let k = choose|k: int| 0 <= k < next.len() && next[k] == g;
            if k < left.len() {
                assert(left[k] == g);
            } else {
                assert(more[k - left.len()] == g);
            }
        }
        if left.contains(g) {
            let k = choose|k: int| 0 <= k < left.len() && left[k] == g;
            assert(next[k] == g);
        }
        if more.contains(g) {
            let k = choose|k: int| 0 <= k < more.len() && more[k] == g;
            assert(next[left.len() + k] == g);
        }
    }
    assert forall|g: int| #[trigger] todo.contains(g) <==> left.contains(g) || g == p by {
        if todo.contains(g) {
            let k = choose|k: int| 0 <= k < todo.len() && todo[k] == g;
            if k < left.len() {
                assert(left[k] == g);
            }
        }
        if left.contains(g) {
            let k = choose|k: int| 0 <= k < left.len() && left[k] == g;
            assert(todo[k] == g);
        }
        assert(todo[todo.len() - 1] == p);
    }
    assert(!left.contains(p)) by {
        if left.contains(p) {
            let k = choose|k: int| 0 <= k < left.len() && left[k] == p;
            assert(todo[k] != todo[todo.len() - 1]);
        }
    }
    assert forall|g: int| #[trigger] more.contains(g) implies !done.contains(g) && !todo.contains(
        g,
    ) && g != p by {
        let j = choose|j: int| 0 <= j < n && #[trigger] page_tree::child_at(pages, p, j) == Some(g);
        assert(page_tree::child_at(pages, p, j) is Some);
    }
    assert(progress(pages, now, next)) by {
        assert forall|k: int| 0 <= k < next.len() implies 0 <= #[trigger] next[k] < pages.len()
            && !now.contains(next[k]) by {
            if k < left.len() {
                assert(todo[k] == next[k]);
                assert(left.contains(left[k]));
            } else {
                assert(more[k - left.len()] == next[k]);
                assert(more.contains(next[k]));
            }
        }
        assert forall|k: int, l: int| 0 <= k < l < next.len() implies #[trigger] next[k]
            != #[trigger] next[l] by {
            if l < left.len() {
                assert(todo[k] != todo[l]);
            } else if k >= left.len() {
                assert(more[k - left.len()] != more[l - left.len()]);
            } else {
                assert(more[l - left.len()] == next[l]);
                assert(more.contains(next[l]));
                assert(todo[k] == next[k]);
                assert(todo.contains(next[k]));
            }
        }
        assert forall|i: int, j: int|
            {
                let g = page_tree::child_at(pages, i, j);
                (#[trigger] page_tree::child_at(pages, i, j)) is Some ==> (now.contains(i) <==> (
                now.contains(g->0) || next.contains(g->0)))
            } by {
            if page_tree::child_at(pages, i, j) is Some {
                let g = page_tree::child_at(pages, i, j)->0;
                if i == p {
                    assert(more.contains(g));
                } else {
                    assert(!more.contains(g)) by {
                        if more.contains(g) {
                            let l = choose|l: int|
                                0 <= l < n && #[trigger] page_tree::child_at(pages, p, l) == Some(
                                    g,
                                );
                            assert(i == p);
                        }
                    }
                }
            }
        }
    }
    let a = with_children(pages, rest, p, n);
    let b = queue_of(pages, now, next);
    assert(a.pending =~= b.pending);
    assert(a.visited =~= b.visited) by {
        assert forall|r: (u64, u64)| a.visited.contains(r) implies b.visited.contains(r) by {
            if rest.visited.contains(r) {
                let i = choose|i: int|
                    (done.contains(i) || todo.contains(i)) && r == #[trigger] page_range(pages, i);
                assert(now.contains(i) || next.contains(i));
            } else {
                let g = choose|g: int| #[trigger] more.contains(g) && r == page_range(pages, g);
                assert(next.contains(g));
            }
        }
        assert forall|r: (u64, u64)| b.visited.contains(r) implies a.visited.contains(r) by {
            let i = choose|i: int|
                (now.contains(i) || next.contains(i)) && r == #[trigger] page_range(pages, i);
            if !more.contains(i) {
                assert(done.contains(i) || todo.contains(i));
            }
        }
    }
}

/// The hierarchy that is read from the pages: every node, and besides the nodes only
/// references to pages.
pub open spec fn holds(
    map: Map<VoxelKey, Entry>,
    pages: Seq<PageModel>,
    entries: Set<Entry>,
) -> bool {
    &&& forall|entry: Entry| #[trigger]
        entries.contains(entry) ==> map.contains_key(entry.key) && map[entry.key] == entry
    &&& forall|k: VoxelKey| #[trigger]
        map.contains_key(k) ==> map[k].key == k && (entries.contains(map[k])
            || map[k].point_count == -1 && exists|g: int|
            0 < g < pages.len() && (#[trigger] pages[g]).key == k)
}

proof fn lemma_all_done(pages: Seq<PageModel>, done: Set<int>, i: int)
    requires
        page_tree::children_sound(pages, 0),
        progress(pages, done, Seq::empty()),
        done.contains(0),
        0 <= i < pages.len(),
    ensures
        done.contains(i),
    decreases i,
{
    if i > 0 {
        assert(page_tree::referenced(pages, i));
        let (k, j) = choose|k: int, j: int| #[trigger] page_tree::child_at(pages, k, j) == Some(i);
        assert(page_tree::child_at(pages, k, j) is Some);
        lemma_all_done(pages, done, k);
        assert(!Seq::<int>::empty().contains(i));
    }
}

/// All pages that are left are read.
proof fn lemma_load(
    c: Seq<u8>,
    pages: Seq<PageModel>,
    start: u64,
    entries: Set<Entry>,
    file_len: u64,
    ranges: CopcDataRanges,
    map: Map<VoxelKey, Entry>,
    done: Set<int>,
    todo: Seq<int>,
    total: u64,
)
    requires
        stored(c, pages, start, entries, file_len, ranges),
        progress(pages, done, todo),
        done.contains(0),
        tracks(pages, map, done, 0, 0),
        total == done_bytes(pages, done, pages.len() as int),
        total <= MAX_HIERARCHY_TOTAL_BYTES,
    ensures
        ({
            let queue = queue_of(pages, done, todo);
            let r = file::loaded(c, map, queue, total, file_len, ranges);
            r is Ok && holds(r->Ok_0, pages, entries)
        }),
    decreases MAX_HIERARCHY_TOTAL_BYTES - total,
{
    let queue = queue_of(pages, done, todo);
    let m = pages.len() as int;
    lemma_stored(c, pages, start, entries, file_len, ranges);
    if todo.len() == 0 {
        assert(todo =~= Seq::empty());
        assert forall|entry: Entry| #[trigger] entries.contains(entry) implies map.contains_key(
            entry.key,
        ) && map[entry.key] == entry by {
            assert(page_tree::planned(pages, entry));
            let (i, j) = choose|i: int, j: int| #[trigger] page_tree::point_at(pages, i, j) == Some(
                entry,
            );
            lemma_all_done(pages, done, i);
            assert(met(done, 0, 0, i, j));
        }
        assert forall|k: VoxelKey| #[trigger] map.contains_key(k) implies map[k].key == k && (
        entries.contains(map[k]) || map[k].point_count == -1 && exists|g: int|
            0 < g < pages.len() && (#[trigger] pages[g]).key == k) by {
            if from_child(pages, map, done, 0, 0, k) {
                let (i, j) = choose|i: int, j: int|
                    {
                        &&& (#[trigger] page_tree::child_at(pages, i, j)) is Some
                        &&& met(done, 0, 0, i, j)
                        &&& pages[page_tree::child_at(pages, i, j)->0].key == k
                        &&& pages::item_entry(pages, pages[i].items[j]) == Ok::<Entry, Error>(
                            map[k],
                        )
                    };
                let g = page_tree::child_at(pages, i, j)->0;
                assert(0 < g < pages.len());
            } else {
                assert(from_point(pages, map, done, 0, 0, k));
            }
        }
    } else {
        let p = todo.last();
        assert(todo[todo.len() - 1] == p);
        assert(todo.contains(p));
        let n = pages[p].items.len() as int;
        let rest = PageQueue { visited: queue.visited, pending: queue.pending.drop_last() };
        let own = page_entries(pages, p);
        let now = done.insert(p);
        let next = todo.drop_last() + children(pages, p, n);
        lemma_done_bytes(pages, done, p, m);
        lemma_tree_len(pages, start, m);
        lemma_page_read(c, pages, start, entries, file_len, ranges, p, total);
        assert(tracks(pages, map, done, p, 0)) by {
            lemma_tracks(pages, map, done, 0, 0, p);
        }
        lemma_merge(c, pages, start, entries, file_len, ranges, map, done, todo, p, n);
        let after = file::merged_all(map, own, n as nat, file_len, ranges)->Ok_0;
        lemma_tracks_done(pages, after, done, p);
        lemma_queue(c, pages, start, entries, file_len, ranges, done, todo, rest, p, n);
        lemma_step(c, pages, start, entries, file_len, ranges, done, todo);
        lemma_load(
            c,
            pages,
            start,
            entries,
            file_len,
            ranges,
            after,
            now,
            next,
            (total + pages[p].byte_size) as u64,
        );
        assert(queue.pending.last() == page_range(pages, p));
    }
}

/// With no item of it, the page that is being read does not matter.
proof fn lemma_tracks(
    pages: Seq<PageModel>,
    map: Map<VoxelKey, Entry>,
    done: Set<int>,
    p: int,
    n: int,
    q: int,
)
    requires
        tracks(pages, map, done, p, n),
        n <= 0,
    ensures
        tracks(pages, map, done, q, 0),
{
    assert forall|k: VoxelKey| #[trigger] map.contains_key(k) implies from_point(
        pages,
        map,
        done,
        q,
        0,
        k,
    ) || from_child(pages, map, done, q, 0, k) by {
        if from_point(pages, map, done, p, n, k) {
            let (i, j) = choose|i: int, j: int|
                (#[trigger] page_tree::point_at(pages, i, j)) == Some(map[k]) && met(
                    done,
                    p,
                    n,
                    i,
                    j,
                );
            assert(met(done, q, 0, i, j));
        } else {
            let (i, j) = choose|i: int, j: int|
                {
                    &&& (#[trigger] page_tree::child_at(pages, i, j)) is Some
                    &&& met(done, p, n, i, j)
                    &&& pages[page_tree::child_at(pages, i, j)->0].key == k
                    &&& pages::item_entry(pages, pages[i].items[j]) == Ok::<Entry, Error>(map[k])
                };
            assert(met(done, q, 0, i, j));
        }
    }
}

/// A page with all of its items taken is done.
proof fn lemma_tracks_done(
    pages: Seq<PageModel>,
    map: Map<VoxelKey, Entry>,
    done: Set<int>,
    p: int,
)
    requires
        0 <= p < pages.len(),
        tracks(pages, map, done, p, pages[p].items.len() as int),
    ensures
        tracks(pages, map, done.insert(p), 0, 0),
{
    let n = pages[p].items.len() as int;
    let now = done.insert(p);
    assert forall|i: int, j: int|
        (#[trigger] page_tree::point_at(pages, i, j)) is Some && met(now, 0, 0, i, j) implies ({
        let node = page_tree::point_at(pages, i, j)->0;
        map.contains_key(node.key) && map[node.key] == node
    }) by {
        assert(met(done, p, n, i, j));
    }
    assert forall|k: VoxelKey| #[trigger] map.contains_key(k) implies from_point(
        pages,
        map,
        now,
        0,
        0,
        k,
    ) || from_child(pages, map, now, 0, 0, k) by {
        if from_point(pages, map, done, p, n, k) {
            let (i, j) = choose|i: int, j: int|
                (#[trigger] page_tree::point_at(pages, i, j)) == Some(map[k]) && met(
                    done,
                    p,
                    n,
                    i,
                    j,
                );
            assert(met(now, 0, 0, i, j));
        } else {
            let (i, j) = choose|i: int, j: int|
                {
                    &&& (#[trigger] page_tree::child_at(pages, i, j)) is Some
                    &&& met(done, p, n, i, j)
                    &&& pages[page_tree::child_at(pages, i, j)->0].key == k
                    &&& pages::item_entry(pages, pages[i].items[j]) == Ok::<Entry, Error>(map[k])
                };
            assert(met(now, 0, 0, i, j));
        }
    }
}

/// Reading stored pages from the root page on gives every node that they hold, and besides
/// the nodes only references to pages.
pub proof fn law_pages_read_back(
    c: Seq<u8>,
    pages: Seq<PageModel>,
    start: u64,
    entries: Set<Entry>,
    file_len: u64,
    ranges: CopcDataRanges,
)
    requires
        stored(c, pages, start, entries, file_len, ranges),
    ensures
        ({
            let root = file::page_at(c, pages[0].offset, pages[0].byte_size, 0, file_len);
            let r = file::tree_spec(
                c,
                root->Ok_0,
                Map::empty(),
                set![(pages[0].offset, pages[0].byte_size)],
                pages[0].byte_size,
                file_len,
                ranges,
            );
            &&& root is Ok
            &&& r is Ok
            &&& holds(r->Ok_0, pages, entries)
        }),
{
    let map = Map::<VoxelKey, Entry>::empty();
    let done = Set::<int>::empty();
    let todo = seq![0int];
    let m = pages.len() as int;
    let n = pages[0].items.len() as int;
    lemma_stored(c, pages, start, entries, file_len, ranges);
    assert(todo[0] == 0);
    assert forall|g: int| #[trigger] todo.contains(g) implies g == 0 by {}
    assert forall|i: int, j: int|
        {
            let g = page_tree::child_at(pages, i, j);
            (#[trigger] page_tree::child_at(pages, i, j)) is Some ==> (done.contains(i) <==> (
            done.contains(g->0) || todo.contains(g->0)))
        } by {}
    assert(progress(pages, done, todo));
    lemma_done_bytes(pages, done, 0, m);
    lemma_none_done(pages, m);
    lemma_tree_len(pages, start, m);
    lemma_page_read(c, pages, start, entries, file_len, ranges, 0, 0);
    assert(todo.contains(0));
    lemma_merge(c, pages, start, entries, file_len, ranges, map, done, todo, 0, n);
    let own = page_entries(pages, 0);
    let after = file::merged_all(map, own, n as nat, file_len, ranges)->Ok_0;
    lemma_tracks_done(pages, after, done, 0);
    let queue = queue_of(pages, done, todo);
    let rest = PageQueue { visited: queue.visited, pending: queue.pending.drop_last() };
    assert(rest.pending =~= Seq::empty());
    assert(rest.visited =~= set![(pages[0].offset, pages[0].byte_size)]) by {
        assert(page_range(pages, 0) == (pages[0].offset, pages[0].byte_size));
        assert forall|r: (u64, u64)| set![(pages[0].offset, pages[0].byte_size)].contains(
            r,
        ) implies rest.visited.contains(r) by {
            assert(todo.contains(0) && r == page_range(pages, 0));
        }
    }
    lemma_queue(c, pages, start, entries, file_len, ranges, done, todo, rest, 0, n);
    lemma_step(c, pages, start, entries, file_len, ranges, done, todo);
    lemma_load(
        c,
        pages,
        start,
        entries,
        file_len,
        ranges,
        after,
        done.insert(0),
        todo.drop_last() + children(pages, 0, n),
        pages[0].byte_size,
    );
}

proof fn lemma_none_done(pages: Seq<PageModel>, n: int)
    ensures
        done_bytes(pages, Set::empty(), n) == 0,
    decreases n,
{
    if n > 0 {
        lemma_none_done(pages, n - 1);
    }
}

} // verus!
