//! What holds of every plan of hierarchy pages.

use vstd::prelude::*;

use crate::hierarchy;
use crate::hierarchy::{Entry, VoxelKey};
use crate::pages;
use crate::pages::{PageItem, PageModel, HIERARCHY_PAGE_MAX_ENTRIES};

verus! {

/// Every reference of a plan is to one of its own pages.
pub proof fn lemma_references(entries: Seq<Entry>, key: VoxelKey, base: nat)
    requires
        pages::plan_of(entries, key, base) is Ok,
        base + pages::plan_of(entries, key, base)->Ok_0.len() <= usize::MAX,
    ensures
        ({
            let pages = pages::plan_of(entries, key, base)->Ok_0;
            pages::references_in(pages, base, pages.len())
        }),
    decreases i32::MAX - key.level, 10int,
{
    if entries.len() > HIERARCHY_PAGE_MAX_ENTRIES {
        lemma_child_references(entries, key, base, 8);
        let all = pages::plan_of(entries, key, base)->Ok_0;
        let (items, rest) = pages::children_of(entries, key, base, 8)->Ok_0;
        assert forall|i: int, j: int|
            0 <= i < all.len() && 0 <= j < all[i].items.len() implies (
        #[trigger] all[i].items[j] matches PageItem::Child(k) ==> base <= k < base
            + all.len()) by {
            if i > 0 {
                assert(all[i] == rest[i - 1]);
                assert(rest[i - 1].items[j] == all[i].items[j]);
            } else {
                let own = all[0].items.len() - items.len();
                if j >= own {
                    assert(all[0].items[j] == items[j - own]);
                }
            }
        }
    }
}

proof fn lemma_child_references(entries: Seq<Entry>, key: VoxelKey, base: nat, n: nat)
    requires
        n <= 8,
        pages::children_of(entries, key, base, n) is Ok,
        base + 1 + pages::children_of(entries, key, base, n)->Ok_0.1.len() <= usize::MAX,
    ensures
        ({
            let (items, rest) = pages::children_of(entries, key, base, n)->Ok_0;
            &&& pages::references_in(rest, base, 1 + rest.len())
            &&& forall|j: int|
                0 <= j < items.len() ==> (#[trigger] items[j] matches PageItem::Child(k) && base
                    <= k < base + 1 + rest.len())
        }),
    decreases i32::MAX - key.level, n,
{
    if n > 0 {
        lemma_child_references(entries, key, base, (n - 1) as nat);
        let (some, before) = pages::children_of(entries, key, base, (n - 1) as nat)->Ok_0;
        let (items, rest) = pages::children_of(entries, key, base, n)->Ok_0;
        let group = pages::octant_entries(entries, key, n - 1);
        if group.len() > 0 {
            let child = key.child_spec((n - 1) as u8)->Ok_0;
            let index = base + 1 + before.len();
            lemma_references(group, child, index);
            let more = pages::plan_of(group, child, index)->Ok_0;
            assert forall|i: int, j: int|
                0 <= i < rest.len() && 0 <= j < rest[i].items.len() implies (
            #[trigger] rest[i].items[j] matches PageItem::Child(k) ==> base <= k < base + 1
                + rest.len()) by {
                if i < before.len() {
                    assert(before[i].items[j] == rest[i].items[j]);
                } else {
                    assert(more[i - before.len()].items[j] == rest[i].items[j]);
                }
            }
        }
    }
}

/// The node that is the item `j` of page `i`.
pub open spec fn point_at(pages: Seq<PageModel>, i: int, j: int) -> Option<Entry> {
    if 0 <= i < pages.len() && 0 <= j < pages[i].items.len() {
        match pages[i].items[j] {
            PageItem::Point(entry) => Some(entry),
            PageItem::Child(_) => None,
        }
    } else {
        None
    }
}

/// The page that the item `j` of page `i` refers to.
pub open spec fn child_at(pages: Seq<PageModel>, i: int, j: int) -> Option<int> {
    if 0 <= i < pages.len() && 0 <= j < pages[i].items.len() {
        match pages[i].items[j] {
            PageItem::Point(_) => None,
            PageItem::Child(k) => Some(k as int),
        }
    } else {
        None
    }
}

/// Whether the node stands on one of the pages.
pub open spec fn planned(pages: Seq<PageModel>, entry: Entry) -> bool {
    exists|i: int, j: int| #[trigger] point_at(pages, i, j) == Some(entry)
}

/// Whether one of the pages refers to page `g`.
pub open spec fn referenced(pages: Seq<PageModel>, g: int) -> bool {
    exists|i: int, j: int| #[trigger] child_at(pages, i, j) == Some(g)
}

/// Whether `below` is `key` or a node below it.
pub open spec fn under(key: VoxelKey, below: VoxelKey) -> bool {
    below.nonnegative() && pages::contains(key, below)
}

/// The pages are a tree that holds each of `entries` exactly once. `base` is the index of the
/// first page.
pub open spec fn sound(
    pages: Seq<PageModel>,
    base: int,
    entries: Set<Entry>,
    key: VoxelKey,
) -> bool {
    &&& pages.len() > 0
    &&& pages[0].key == key
    &&& keys_sound(pages, key)
    &&& points_sound(pages, entries)
    &&& children_sound(pages, base)
}

/// The pages' keys are distinct, and lie under the key of the first.
pub open spec fn keys_sound(pages: Seq<PageModel>, key: VoxelKey) -> bool {
    &&& forall|i: int| 0 <= i < pages.len() ==> under(key, (#[trigger] pages[i]).key)
    &&& forall|i: int, j: int|
        0 <= i < j < pages.len() ==> (#[trigger] pages[i]).key != (#[trigger] pages[j]).key
    &&& forall|i: int|
        0 < i < pages.len() ==> 0 < (#[trigger] pages[i]).items.len()
            <= HIERARCHY_PAGE_MAX_ENTRIES
}

/// The nodes on the pages are `entries`. Each stands at one place: on a page above it, and a
/// node that has a page stands on that page.
pub open spec fn points_sound(pages: Seq<PageModel>, entries: Set<Entry>) -> bool {
    &&& forall|i: int, j: int|
        (#[trigger] point_at(pages, i, j)) is Some ==> entries.contains(
            point_at(pages, i, j)->0,
        ) && under(pages[i].key, point_at(pages, i, j)->0.key)
    &&& forall|entry: Entry| #[trigger] entries.contains(entry) ==> planned(pages, entry)
    &&& forall|i: int, j: int, k: int, l: int|
        #![trigger point_at(pages, i, j), point_at(pages, k, l)]
        point_at(pages, i, j) is Some && point_at(pages, k, l) is Some && point_at(
            pages,
            i,
            j,
        )->0.key == point_at(pages, k, l)->0.key ==> i == k && j == l
    &&& forall|i: int, j: int, k: int|
        #![trigger point_at(pages, i, j), pages[k]]
        point_at(pages, i, j) is Some && 0 <= k < pages.len() && point_at(pages, i, j)->0.key
            == pages[k].key ==> i == k
}

/// Every page but the first is referred to once, on an earlier page.
pub open spec fn children_sound(pages: Seq<PageModel>, base: int) -> bool {
    &&& forall|i: int, j: int|
        (#[trigger] child_at(pages, i, j)) is Some ==> base + i < child_at(pages, i, j)->0 < base
            + pages.len()
    &&& forall|g: int|
        base < g < base + pages.len() ==> #[trigger] referenced(pages, g)
    &&& forall|i: int, j: int, k: int, l: int|
        #![trigger child_at(pages, i, j), child_at(pages, k, l)]
        child_at(pages, i, j) is Some && child_at(pages, i, j) == child_at(pages, k, l) ==> i == k
            && j == l
}

/// All nodes and pages but the first page and its node lie in the first `n` octants of `key`.
spec fn spread(pages: Seq<PageModel>, key: VoxelKey, n: int) -> bool {
    &&& forall|i: int|
        0 < i < pages.len() ==> in_octants(key, (#[trigger] pages[i]).key, n)
    &&& forall|i: int, j: int|
        (#[trigger] point_at(pages, i, j)) is Some ==> point_at(pages, i, j)->0.key == key
            || in_octants(key, point_at(pages, i, j)->0.key, n)
}

spec fn in_octants(key: VoxelKey, below: VoxelKey, n: int) -> bool {
    under(key, below) && below.level > key.level && pages::octant_of(key, below) < n
}

pub proof fn lemma_under_transitive(a: VoxelKey, b: VoxelKey, c: VoxelKey)
    requires
        under(a, b),
        under(b, c),
    ensures
        under(a, c),
{
    let low = hierarchy::pow2((c.level - b.level) as nat) as int;
    let high = hierarchy::pow2((b.level - a.level) as nat) as int;
    hierarchy::lemma_pow2_monotonic(0, (c.level - b.level) as nat);
    hierarchy::lemma_pow2_monotonic(0, (b.level - a.level) as nat);
    lemma_pow2_sum((c.level - b.level) as nat, (b.level - a.level) as nat);
    vstd::arithmetic::div_mod::lemma_div_denominator(c.x as int, low, high);
    vstd::arithmetic::div_mod::lemma_div_denominator(c.y as int, low, high);
    vstd::arithmetic::div_mod::lemma_div_denominator(c.z as int, low, high);
}

proof fn lemma_pow2_sum(a: nat, b: nat)
    ensures
        hierarchy::pow2(a + b) == hierarchy::pow2(a) * hierarchy::pow2(b),
    decreases b,
{
    if b > 0 {
        lemma_pow2_sum(a, (b - 1) as nat);
        let p = hierarchy::pow2(a) as int;
        let q = hierarchy::pow2((b - 1) as nat) as int;
        assert(hierarchy::pow2(b) == 2 * hierarchy::pow2((b - 1) as nat));
        assert(hierarchy::pow2(a + b) == 2 * hierarchy::pow2((a + b - 1) as nat));
        assert(2 * (p * q) == p * (2 * q)) by (nonlinear_arith);
    } else {
        assert(hierarchy::pow2(0) == 1);
    }
}

pub proof fn lemma_under_self(key: VoxelKey)
    requires
        key.nonnegative(),
    ensures
        under(key, key),
{
    assert(hierarchy::pow2(0) == 1);
    vstd::arithmetic::div_mod::lemma_div_basics(key.x as int);
    vstd::arithmetic::div_mod::lemma_div_basics(key.y as int);
    vstd::arithmetic::div_mod::lemma_div_basics(key.z as int);
}

/// A node lies under the child of an octant just when the octant is its own.
pub proof fn lemma_octant(key: VoxelKey, octant: u8, below: VoxelKey)
    requires
        key.valid(),
        octant <= 7,
        key.child_spec(octant) is Ok,
        below.nonnegative(),
    ensures
        under(key.child_spec(octant)->Ok_0, below) <==> {
            &&& under(key, below)
            &&& below.level > key.level
            &&& pages::octant_of(key, below) == octant
        },
{
    let child = key.child_spec(octant)->Ok_0;
    if below.level > key.level {
        let n = (below.level - key.level - 1) as nat;
        let scale = hierarchy::pow2(n) as int;
        hierarchy::lemma_pow2_monotonic(0, n);
        assert(hierarchy::pow2(n + 1) == 2 * hierarchy::pow2(n));
        pages::lemma_scaled(below.x as int, scale);
        pages::lemma_scaled(below.y as int, scale);
        pages::lemma_scaled(below.z as int, scale);
        let x = below.x as int / scale;
        let y = below.y as int / scale;
        let z = below.z as int / scale;
        assert(child.x == 2 * key.x + octant as int % 2);
        assert(child.y == 2 * key.y + octant as int / 2 % 2);
        assert(child.z == 2 * key.z + octant as int / 4 % 2);
        assert(pages::octant_of(key, below) == x % 2 + 2 * (y % 2) + 4 * (z % 2));
        assert(under(child, below) <==> x == child.x && y == child.y && z == child.z);
        assert(under(key, below) <==> x / 2 == key.x && y / 2 == key.y && z / 2 == key.z);
    }
}

/// No two of the entries have the same key.
pub open spec fn distinct_keys(entries: Seq<Entry>) -> bool {
    forall|i: int, j: int|
        0 <= i < j < entries.len() ==> (#[trigger] entries[i]).key != (#[trigger] entries[j]).key
}

proof fn lemma_filter(s: Seq<Entry>, f: spec_fn(Entry) -> bool)
    ensures
        forall|entry: Entry| #[trigger]
            s.filter(f).contains(entry) <==> s.contains(entry) && f(entry),
        distinct_keys(s) ==> distinct_keys(s.filter(f)),
    decreases s.len(),
{
    reveal(Seq::filter);
    if s.len() > 0 {
        let rest = s.drop_last();
        let last = s.last();
        lemma_filter(rest, f);
        let kept = rest.filter(f);
        let all = s.filter(f);
        assert forall|entry: Entry| #[trigger] all.contains(entry) <==> s.contains(entry) && f(
            entry,
        ) by {
            if all.contains(entry) {
                let i = choose|i: int| 0 <= i < all.len() && all[i] == entry;
                if i < kept.len() {
                    assert(kept[i] == entry);
                    assert(kept.contains(entry));
                    let k = choose|k: int| 0 <= k < rest.len() && rest[k] == entry;
                    assert(s[k] == entry);
                } else {
                    assert(s[s.len() - 1] == entry);
                }
            }
            if s.contains(entry) && f(entry) {
                let i = choose|i: int| 0 <= i < s.len() && s[i] == entry;
                if i < rest.len() {
                    assert(rest[i] == entry);
                    assert(kept.contains(entry));
                    let k = choose|k: int| 0 <= k < kept.len() && kept[k] == entry;
                    assert(all[k] == entry);
                } else {
                    assert(all[all.len() - 1] == entry);
                }
            }
        }
        if distinct_keys(s) {
            assert(distinct_keys(rest)) by {
                assert forall|i: int, j: int| 0 <= i < j < rest.len() implies (
                #[trigger] rest[i]).key != (#[trigger] rest[j]).key by {
                    assert(s[i].key != s[j].key);
                }
            }
            assert forall|i: int, j: int| 0 <= i < j < all.len() implies (
            #[trigger] all[i]).key != (#[trigger] all[j]).key by {
                if j < kept.len() {
                    assert(kept[i].key != kept[j].key);
                } else {
                    assert(kept.contains(kept[i]));
                    let k = choose|k: int| 0 <= k < rest.len() && rest[k] == kept[i];
                    assert(s[k].key != s[s.len() - 1].key);
                }
            }
        }
    }
}

/// The first page of `a` with a reference to the pages `b`, and these behind `a`.
spec fn grafted(a: Seq<PageModel>, base: int, b: Seq<PageModel>) -> Seq<PageModel> {
    let items = a[0].items.push(PageItem::Child((base + a.len()) as usize));
    a.update(
        0,
        PageModel { key: a[0].key, items, offset: a[0].offset, byte_size: a[0].byte_size },
    ) + b
}

proof fn lemma_grafted(a: Seq<PageModel>, base: int, b: Seq<PageModel>)
    requires
        a.len() > 0,
        0 <= base,
        base + a.len() <= usize::MAX,
    ensures
        ({
            let r = grafted(a, base, b);
            let end = a[0].items.len() as int;
            &&& r.len() == a.len() + b.len()
            &&& forall|i: int| 0 <= i < a.len() ==> (#[trigger] r[i]).key == a[i].key
            &&& forall|i: int| 0 < i < a.len() ==> (#[trigger] r[i]).items == a[i].items
            &&& forall|i: int| a.len() <= i < r.len() ==> #[trigger] r[i] == b[i - a.len()]
            &&& forall|i: int, j: int| #[trigger]
                point_at(r, i, j) == (if i < a.len() {
                    point_at(a, i, j)
                } else {
                    point_at(b, i - a.len(), j)
                })
            &&& forall|i: int, j: int| #[trigger]
                child_at(r, i, j) == (if i == 0 && j == end {
                    Some(base + a.len())
                } else if i < a.len() {
                    child_at(a, i, j)
                } else {
                    child_at(b, i - a.len(), j)
                })
        }),
{
    let r = grafted(a, base, b);
    assert forall|i: int| a.len() <= i < r.len() implies #[trigger] r[i] == b[i - a.len()] by {}
    assert forall|i: int, j: int| #[trigger]
        point_at(r, i, j) == (if i < a.len() {
            point_at(a, i, j)
        } else {
            point_at(b, i - a.len(), j)
        }) by {
        if a.len() <= i < r.len() {
            assert(r[i] == b[i - a.len()]);
        }
    }
    assert forall|i: int, j: int| #[trigger]
        child_at(r, i, j) == (if i == 0 && j == a[0].items.len() {
            Some(base + a.len())
        } else if i < a.len() {
            child_at(a, i, j)
        } else {
            child_at(b, i - a.len(), j)
        }) by {
        if a.len() <= i < r.len() {
            assert(r[i] == b[i - a.len()]);
        }
    }
}

#[verifier::rlimit(40)]
proof fn lemma_graft(
    a: Seq<PageModel>,
    base: int,
    left: Set<Entry>,
    key: VoxelKey,
    b: Seq<PageModel>,
    right: Set<Entry>,
    octant: u8,
)
    requires
        key.valid(),
        octant <= 7,
        key.child_spec(octant) is Ok,
        0 <= base,
        base + a.len() <= usize::MAX,
        sound(a, base, left, key),
        spread(a, key, octant as int),
        sound(b, base + a.len(), right, key.child_spec(octant)->Ok_0),
        0 < b[0].items.len() <= HIERARCHY_PAGE_MAX_ENTRIES,
    ensures
        sound(grafted(a, base, b), base, left.union(right), key),
        spread(grafted(a, base, b), key, octant + 1),
{
    let r = grafted(a, base, b);
    let child = key.child_spec(octant)->Ok_0;
    let n = a.len() as int;
    let end = a[0].items.len() as int;
    lemma_grafted(a, base, b);
    assert forall|i: int| 0 <= i < b.len() implies in_octants(
        key,
        (#[trigger] b[i]).key,
        octant + 1,
    ) && pages::octant_of(key, b[i].key) == octant by {
        lemma_octant(key, octant, b[i].key);
    }
    assert forall|i: int, j: int| (#[trigger] point_at(b, i, j)) is Some implies in_octants(
        key,
        point_at(b, i, j)->0.key,
        octant + 1,
    ) && pages::octant_of(key, point_at(b, i, j)->0.key) == octant by {
        assert(under(child, b[i].key));
        lemma_under_transitive(child, b[i].key, point_at(b, i, j)->0.key);
        lemma_octant(key, octant, point_at(b, i, j)->0.key);
    }
    assert(keys_sound(r, key)) by {
        assert forall|i: int, j: int| 0 <= i < j < r.len() implies (#[trigger] r[i]).key != (
        #[trigger] r[j]).key by {
            if j < n {
                assert(a[i].key != a[j].key);
            } else if i >= n {
                assert(b[i - n].key != b[j - n].key);
            } else {
                assert(r[j] == b[j - n]);
                assert(r[i].key == a[i].key);
            }
        }
        assert forall|i: int| 0 <= i < r.len() implies under(key, (#[trigger] r[i]).key) by {
            if i < n {
                assert(under(key, a[i].key));
            } else {
                assert(r[i] == b[i - n]);
            }
        }
        assert forall|i: int| 0 < i < r.len() implies 0 < (#[trigger] r[i]).items.len()
            <= HIERARCHY_PAGE_MAX_ENTRIES by {
            if i < n {
                assert(r[i].items == a[i].items);
                assert(a[i].items.len() > 0);
            } else {
                assert(r[i] == b[i - n]);
            }
        }
    }
    assert(points_sound(r, left.union(right))) by {
        let both = left.union(right);
        assert forall|entry: Entry| #[trigger] both.contains(entry) implies planned(r, entry) by {
            if left.contains(entry) {
                assert(planned(a, entry));
                let (i, j) = choose|i: int, j: int| #[trigger] point_at(a, i, j) == Some(entry);
                assert(point_at(r, i, j) == Some(entry));
            } else {
                assert(planned(b, entry));
                let (i, j) = choose|i: int, j: int| #[trigger] point_at(b, i, j) == Some(entry);
                assert(point_at(r, i + n, j) == point_at(b, i, j));
            }
        }
        assert forall|i: int, j: int, k: int|
            #![trigger point_at(r, i, j), r[k]]
            point_at(r, i, j) is Some && 0 <= k < r.len() && point_at(r, i, j)->0.key
                == r[k].key implies i == k by {
            if i < n {
                assert(point_at(a, i, j) is Some);
                if k < n {
                    assert(r[k].key == a[k].key);
                } else {
                    assert(r[k] == b[k - n]);
                }
            } else {
                assert(point_at(b, i - n, j) is Some);
                if k < n {
                    assert(r[k].key == a[k].key);
                    assert(k == 0 || in_octants(key, a[k].key, octant as int));
                } else {
                    assert(r[k] == b[k - n]);
                }
            }
        }
        assert forall|i: int, j: int, k: int, l: int|
            #![trigger point_at(r, i, j), point_at(r, k, l)]
            point_at(r, i, j) is Some && point_at(r, k, l) is Some && point_at(r, i, j)->0.key
                == point_at(r, k, l)->0.key implies i == k && j == l by {
            if i < n {
                assert(point_at(a, i, j) is Some);
            } else {
                assert(point_at(b, i - n, j) is Some);
            }
            if k < n {
                assert(point_at(a, k, l) is Some);
            } else {
                assert(point_at(b, k - n, l) is Some);
            }
        }
    }
    assert(children_sound(r, base)) by {
        assert forall|g: int| base < g < base + r.len() implies #[trigger] referenced(r, g) by {
            if g < base + n {
                assert(referenced(a, g));
                let (i, j) = choose|i: int, j: int| #[trigger] child_at(a, i, j) == Some(g);
                assert(child_at(r, i, j) == Some(g));
            } else if g == base + n {
                assert(child_at(r, 0, end) == Some(g));
            } else {
                assert(referenced(b, g));
                let (i, j) = choose|i: int, j: int| #[trigger] child_at(b, i, j) == Some(g);
                assert(child_at(r, i + n, j) == child_at(b, i, j));
            }
        }
        assert forall|i: int, j: int| (#[trigger] child_at(r, i, j)) is Some implies base + i
            < child_at(r, i, j)->0 < base + r.len() by {
            if i == 0 && j == end {
            } else if i < n {
                assert(child_at(a, i, j) is Some);
            } else {
                assert(child_at(b, i - n, j) is Some);
            }
        }
        assert forall|i: int, j: int, k: int, l: int|
            #![trigger child_at(r, i, j), child_at(r, k, l)]
            child_at(r, i, j) is Some && child_at(r, i, j) == child_at(r, k, l) implies i == k
            && j == l by {
            if i == 0 && j == end {
            } else if i < n {
                assert(child_at(a, i, j) is Some);
            } else {
                assert(child_at(b, i - n, j) is Some);
            }
            if k == 0 && l == end {
            } else if k < n {
                assert(child_at(a, k, l) is Some);
            } else {
                assert(child_at(b, k - n, l) is Some);
            }
        }
    }
    assert(spread(r, key, octant + 1)) by {
        assert forall|i: int| 0 < i < r.len() implies in_octants(
            key,
            (#[trigger] r[i]).key,
            octant + 1,
        ) by {
            if i < n {
                assert(in_octants(key, a[i].key, octant as int));
            } else {
                assert(r[i] == b[i - n]);
            }
        }
        assert forall|i: int, j: int| (#[trigger] point_at(r, i, j)) is Some implies point_at(
            r,
            i,
            j,
        )->0.key == key || in_octants(key, point_at(r, i, j)->0.key, octant + 1) by {
            if i < n {
                assert(point_at(a, i, j) is Some);
            } else {
                assert(point_at(b, i - n, j) is Some);
            }
        }
    }
}

/// Those of the entries that lie at `key` or in its first `n` octants.
spec fn first_octants(entries: Seq<Entry>, key: VoxelKey, n: int) -> Set<Entry> {
    Set::new(
        |entry: Entry| entries.contains(entry) && (entry.key == key || in_octants(
            key,
            entry.key,
            n,
        )),
    )
}

/// What can be planned under `key`: distinct nodes at `key` or below it.
pub open spec fn plannable(entries: Seq<Entry>, key: VoxelKey) -> bool {
    &&& distinct_keys(entries)
    &&& forall|i: int| 0 <= i < entries.len() ==> under(key, (#[trigger] entries[i]).key)
}

/// A page that holds entries and refers to nothing.
proof fn lemma_leaf(entries: Seq<Entry>, key: VoxelKey, base: int)
    requires
        plannable(entries, key),
        key.nonnegative(),
        entries.len() <= HIERARCHY_PAGE_MAX_ENTRIES,
    ensures
        sound(
            seq![pages::bare_page(key, pages::point_items(entries))],
            base,
            entries.to_set(),
            key,
        ),
{
    let pages = seq![pages::bare_page(key, pages::point_items(entries))];
    lemma_under_self(key);
    assert forall|i: int, j: int| (#[trigger] point_at(pages, i, j)) is Some implies i == 0 && 0
        <= j < entries.len() && point_at(pages, i, j) == Some(entries[j]) by {}
    assert forall|entry: Entry| #[trigger] entries.to_set().contains(entry) implies planned(
        pages,
        entry,
    ) by {
        let j = choose|j: int| 0 <= j < entries.len() && entries[j] == entry;
        assert(point_at(pages, 0, j) == Some(entry));
    }
    assert forall|i: int, j: int| (#[trigger] child_at(pages, i, j)) is None by {}
}

proof fn lemma_children_sound(entries: Seq<Entry>, key: VoxelKey, base: nat, n: nat)
    requires
        n <= 8,
        key.valid(),
        plannable(entries, key),
        pages::misplaced(entries, key).len() == 0,
        pages::children_of(entries, key, base, n) is Ok,
        base + 1 + pages::children_of(entries, key, base, n)->Ok_0.1.len() <= usize::MAX,
    ensures
        ({
            let (items, rest) = pages::children_of(entries, key, base, n)->Ok_0;
            let own = pages::own_entries(entries, key);
            let first = if own.len() > 0 {
                seq![PageItem::Point(own.last())]
            } else {
                Seq::empty()
            };
            let all = seq![pages::bare_page(key, first + items)] + rest;
            &&& sound(all, base as int, first_octants(entries, key, n as int), key)
            &&& spread(all, key, n as int)
            &&& items.len() <= n
        }),
    decreases i32::MAX - key.level, n,
{
    let (items, rest) = pages::children_of(entries, key, base, n)->Ok_0;
    let own = pages::own_entries(entries, key);
    let first = if own.len() > 0 {
        seq![PageItem::Point(own.last())]
    } else {
        Seq::empty()
    };
    let all = seq![pages::bare_page(key, first + items)] + rest;
    if n == 0 {
        let mine = |entry: Entry| pages::place_of(key, entry) == Some(None::<int>);
        lemma_filter(entries, mine);
        assert(own == entries.filter(mine));
        let nodes = if own.len() > 0 {
            seq![own.last()]
        } else {
            Seq::empty()
        };
        if own.len() > 0 {
            assert(own.contains(own.last()));
            assert(entries.contains(own.last()));
        }
        lemma_under_self(key);
        assert(plannable(nodes, key));
        lemma_leaf(nodes, key, base as int);
        assert(pages::point_items(nodes) =~= first + items);
        assert(all =~= seq![pages::bare_page(key, pages::point_items(nodes))]);
        assert(nodes.to_set() =~= first_octants(entries, key, 0)) by {
            assert forall|entry: Entry| first_octants(entries, key, 0).contains(
                entry,
            ) implies nodes.to_set().contains(entry) by {
                if in_octants(key, entry.key, 0) {
                    lemma_octant_range(key, entry.key);
                }
                assert(own.contains(entry));
                let i = choose|i: int| 0 <= i < own.len() && own[i] == entry;
                if i < own.len() - 1 {
                    let last = own.last();
                    assert(own.contains(last));
                    assert(own[i].key != own[own.len() - 1].key);
                }
                assert(nodes[0] == entry);
            }
            assert forall|entry: Entry| nodes.to_set().contains(entry) implies first_octants(
                entries,
                key,
                0,
            ).contains(entry) by {
                assert(entry == own.last());
            }
        }
        assert forall|i: int, j: int| (#[trigger] point_at(all, i, j)) is Some implies point_at(
            all,
            i,
            j,
        )->0.key == key by {
            assert(point_at(all, i, j)->0 == own.last());
        }
    } else {
        let m = (n - 1) as nat;
        lemma_children_sound(entries, key, base, m);
        let (some, before) = pages::children_of(entries, key, base, m)->Ok_0;
        let part = seq![pages::bare_page(key, first + some)] + before;
        let group = pages::octant_entries(entries, key, n - 1);
        let chosen = |entry: Entry| pages::place_of(key, entry) == Some(Some(n - 1));
        lemma_filter(entries, chosen);
        assert(group == entries.filter(chosen));
        if group.len() == 0 {
            assert(first_octants(entries, key, n as int) =~= first_octants(
                entries,
                key,
                m as int,
            )) by {
                assert forall|entry: Entry| first_octants(entries, key, n as int).contains(
                    entry,
                ) implies first_octants(entries, key, m as int).contains(entry) by {
                    if entry.key != key && pages::octant_of(key, entry.key) == m {
                        assert(chosen(entry));
                        assert(group.contains(entry));
                    }
                }
            }
        } else {
            let octant = (n - 1) as u8;
            let child = key.child_spec(octant)->Ok_0;
            let index = base + 1 + before.len();
            assert(child.valid()) by {
                hierarchy::lemma_child_valid(key, octant);
            }
            assert forall|i: int| 0 <= i < group.len() implies under(
                child,
                (#[trigger] group[i]).key,
            ) by {
                assert(group.contains(group[i]));
                lemma_octant(key, octant, group[i].key);
            }
            let more = pages::plan_of(group, child, index)->Ok_0;
            assert(part.len() == 1 + before.len());
            law_plan(group, child, index);
            lemma_graft(
                part,
                base as int,
                first_octants(entries, key, m as int),
                key,
                more,
                group.to_set(),
                octant,
            );
            let r = grafted(part, base as int, more);
            assert(first + items =~= (first + some).push(PageItem::Child(index as usize)));
            assert(r =~= all) by {
                assert(r[0] == all[0]);
                assert forall|i: int| 0 <= i < r.len() implies r[i] == all[i] by {
                    if 0 < i < part.len() {
                        assert(part[i] == before[i - 1]);
                    }
                }
            }
            assert(first_octants(entries, key, m as int).union(group.to_set()) =~= first_octants(
                entries,
                key,
                n as int,
            )) by {
                assert forall|entry: Entry| first_octants(entries, key, n as int).contains(
                    entry,
                ) implies first_octants(entries, key, m as int).union(group.to_set()).contains(
                    entry,
                ) by {
                    if entry.key != key && pages::octant_of(key, entry.key) == m {
                        assert(chosen(entry));
                        assert(group.contains(entry));
                    }
                }
                assert forall|entry: Entry| group.to_set().contains(entry) implies first_octants(
                    entries,
                    key,
                    n as int,
                ).contains(entry) by {
                    assert(group.contains(entry));
                }
            }
        }
    }
}

proof fn lemma_octant_range(key: VoxelKey, below: VoxelKey)
    ensures
        0 <= pages::octant_of(key, below) < 8,
{
}

/// The pages of a plan are a tree that holds each entry exactly once, and each page has as
/// many items as a page can have, and not none.
pub proof fn law_plan(entries: Seq<Entry>, key: VoxelKey, base: nat)
    requires
        key.valid(),
        plannable(entries, key),
        pages::plan_of(entries, key, base) is Ok,
        base + pages::plan_of(entries, key, base)->Ok_0.len() <= usize::MAX,
    ensures
        ({
            let pages = pages::plan_of(entries, key, base)->Ok_0;
            &&& sound(pages, base as int, entries.to_set(), key)
            &&& 0 < pages[0].items.len() <= HIERARCHY_PAGE_MAX_ENTRIES
        }),
    decreases i32::MAX - key.level, 10int,
{
    let all = pages::plan_of(entries, key, base)->Ok_0;
    if entries.len() <= HIERARCHY_PAGE_MAX_ENTRIES {
        lemma_leaf(entries, key, base as int);
    } else {
        lemma_children_sound(entries, key, base, 8);
        let bad = |entry: Entry| pages::place_of(key, entry) is None;
        lemma_filter(entries, bad);
        assert(first_octants(entries, key, 8) =~= entries.to_set()) by {
            assert forall|entry: Entry| entries.to_set().contains(entry) implies first_octants(
                entries,
                key,
                8,
            ).contains(entry) by {
                assert(entries.contains(entry));
                assert(!bad(entry)) by {
                    if bad(entry) {
                        assert(entries.filter(bad).contains(entry));
                        let i = choose|i: int|
                            0 <= i < pages::misplaced(entries, key).len() && pages::misplaced(
                                entries,
                                key,
                            )[i] == entry;
                    }
                }
                lemma_octant_range(key, entry.key);
            }
        }
        if all.len() == 1 {
            let entry = entries[0];
            assert(entries.contains(entry));
            assert(entries.to_set().contains(entry));
            assert(planned(all, entry));
            let (i, j) = choose|i: int, j: int| #[trigger] point_at(all, i, j) == Some(entry);
        } else {
            assert(referenced(all, base as int + 1));
            let (i, j) = choose|i: int, j: int| #[trigger] child_at(all, i, j) == Some(base as int + 1);
        }
    }
}

/// The root node holds every valid node.
pub proof fn law_root_holds_all(key: VoxelKey)
    requires
        key.valid(),
    ensures
        under(VoxelKey { level: 0, x: 0, y: 0, z: 0 }, key),
{
    let n = key.level as nat;
    hierarchy::lemma_pow2_30();
    hierarchy::lemma_pow2_monotonic(0, n);
    if n >= 31 {
        hierarchy::lemma_pow2_monotonic(31, n);
    }
    let scale = hierarchy::pow2(n) as int;
    vstd::arithmetic::div_mod::lemma_basic_div(key.x as int, scale);
    vstd::arithmetic::div_mod::lemma_basic_div(key.y as int, scale);
    vstd::arithmetic::div_mod::lemma_basic_div(key.z as int, scale);
}

/// Nodes that can be planned are planned.
pub proof fn law_plan_succeeds(entries: Seq<Entry>, key: VoxelKey, base: nat)
    requires
        key.valid(),
        plannable(entries, key),
        entries.len() > 0,
    ensures
        pages::plan_of(entries, key, base) is Ok,
    decreases i32::MAX - key.level, 10int,
{
    if entries.len() > HIERARCHY_PAGE_MAX_ENTRIES {
        let bad = |entry: Entry| pages::place_of(key, entry) is None;
        lemma_filter(entries, bad);
        if pages::misplaced(entries, key).len() > 0 {
            let entry = pages::misplaced(entries, key)[0];
            assert(entries.filter(bad).contains(entry));
            assert(bad(entry));
            assert(under(key, entry.key));
            if entry.key.level == key.level {
                lemma_same_level(key, entry.key);
            }
            assert(false);
        }
        lemma_children_succeed(entries, key, base, 8);
    }
}

proof fn lemma_same_level(key: VoxelKey, below: VoxelKey)
    requires
        under(key, below),
        below.level == key.level,
    ensures
        below == key,
{
    assert(hierarchy::pow2(0) == 1);
    vstd::arithmetic::div_mod::lemma_div_basics(below.x as int);
    vstd::arithmetic::div_mod::lemma_div_basics(below.y as int);
    vstd::arithmetic::div_mod::lemma_div_basics(below.z as int);
}

proof fn lemma_child_exists(key: VoxelKey, below: VoxelKey)
    requires
        key.valid(),
        under(key, below),
        below.level > key.level,
    ensures
        0 <= pages::octant_of(key, below) <= 7,
        key.child_spec(pages::octant_of(key, below) as u8) is Ok,
{
    let n = (below.level - key.level - 1) as nat;
    let scale = hierarchy::pow2(n) as int;
    hierarchy::lemma_pow2_monotonic(0, n);
    assert(hierarchy::pow2(n + 1) == 2 * hierarchy::pow2(n));
    pages::lemma_scaled(below.x as int, scale);
    pages::lemma_scaled(below.y as int, scale);
    pages::lemma_scaled(below.z as int, scale);
    let x = below.x as int / scale;
    let y = below.y as int / scale;
    let z = below.z as int / scale;
    lemma_quotient(below.x as int, scale);
    lemma_quotient(below.y as int, scale);
    lemma_quotient(below.z as int, scale);
    let o = pages::octant_of(key, below);
    assert(o == x % 2 + 2 * (y % 2) + 4 * (z % 2));
    assert(x == 2 * key.x + o % 2);
    assert(y == 2 * key.y + o / 2 % 2);
    assert(z == 2 * key.z + o / 4 % 2);
    assert(key.validity() is Ok);
}

proof fn lemma_quotient(v: int, scale: int)
    requires
        v >= 0,
        scale > 0,
    ensures
        0 <= v / scale <= v,
{
    vstd::arithmetic::div_mod::lemma_div_pos_is_pos(v, scale);
    vstd::arithmetic::div_mod::lemma_div_is_ordered_by_denominator(v, 1, scale);
    vstd::arithmetic::div_mod::lemma_div_basics(v);
}

proof fn lemma_children_succeed(entries: Seq<Entry>, key: VoxelKey, base: nat, n: nat)
    requires
        n <= 8,
        key.valid(),
        plannable(entries, key),
    ensures
        pages::children_of(entries, key, base, n) is Ok,
    decreases i32::MAX - key.level, n,
{
    if n > 0 {
        lemma_children_succeed(entries, key, base, (n - 1) as nat);
        let (some, before) = pages::children_of(entries, key, base, (n - 1) as nat)->Ok_0;
        let group = pages::octant_entries(entries, key, n - 1);
        let chosen = |entry: Entry| pages::place_of(key, entry) == Some(Some(n - 1));
        lemma_filter(entries, chosen);
        assert(group == entries.filter(chosen));
        if group.len() > 0 {
            let octant = (n - 1) as u8;
            assert(group.contains(group[0]));
            lemma_child_exists(key, group[0].key);
            let child = key.child_spec(octant)->Ok_0;
            hierarchy::lemma_child_valid(key, octant);
            assert forall|i: int| 0 <= i < group.len() implies under(
                child,
                (#[trigger] group[i]).key,
            ) by {
                assert(group.contains(group[i]));
                lemma_octant(key, octant, group[i].key);
            }
            law_plan_succeeds(group, child, base + 1 + before.len());
        }
    }
}

/// Where the pages lie is of no matter to what they hold.
pub proof fn lemma_sound_depends(
    a: Seq<PageModel>,
    b: Seq<PageModel>,
    base: int,
    entries: Set<Entry>,
    key: VoxelKey,
)
    requires
        a.len() == b.len(),
        forall|i: int|
            0 <= i < a.len() ==> (#[trigger] b[i]).items == a[i].items && b[i].key == a[i].key,
        sound(a, base, entries, key),
    ensures
        sound(b, base, entries, key),
{
    assert forall|i: int, j: int| #[trigger] point_at(b, i, j) == point_at(a, i, j) by {
        if 0 <= i < a.len() {
            assert(b[i].items == a[i].items);
        }
    }
    assert forall|i: int, j: int| #[trigger] child_at(b, i, j) == child_at(a, i, j) by {
        if 0 <= i < a.len() {
            assert(b[i].items == a[i].items);
        }
    }
    assert(points_sound(b, entries)) by {
        assert forall|entry: Entry| #[trigger] entries.contains(entry) implies planned(b, entry) by {
            assert(planned(a, entry));
            let (i, j) = choose|i: int, j: int| #[trigger] point_at(a, i, j) == Some(entry);
            assert(point_at(b, i, j) == Some(entry));
        }
        assert forall|i: int, j: int, k: int|
            #![trigger point_at(b, i, j), b[k]]
            point_at(b, i, j) is Some && 0 <= k < b.len() && point_at(b, i, j)->0.key
                == b[k].key implies i == k by {
            assert(point_at(a, i, j) is Some);
            assert(a[k].key == b[k].key);
        }
        assert forall|i: int, j: int, k: int, l: int|
            #![trigger point_at(b, i, j), point_at(b, k, l)]
            point_at(b, i, j) is Some && point_at(b, k, l) is Some && point_at(b, i, j)->0.key
                == point_at(b, k, l)->0.key implies i == k && j == l by {
            assert(point_at(a, i, j) is Some);
            assert(point_at(a, k, l) is Some);
        }
    }
    assert(children_sound(b, base)) by {
        assert forall|g: int| base < g < base + b.len() implies #[trigger] referenced(b, g) by {
            assert(referenced(a, g));
            let (i, j) = choose|i: int, j: int| #[trigger] child_at(a, i, j) == Some(g);
            assert(child_at(b, i, j) == Some(g));
        }
        assert forall|i: int, j: int, k: int, l: int|
            #![trigger child_at(b, i, j), child_at(b, k, l)]
            child_at(b, i, j) is Some && child_at(b, i, j) == child_at(b, k, l) implies i == k
            && j == l by {
            assert(child_at(a, i, j) is Some);
            assert(child_at(a, k, l) is Some);
        }
    }
    assert(keys_sound(b, key)) by {
        assert forall|i: int, j: int| 0 <= i < j < b.len() implies (#[trigger] b[i]).key != (
        #[trigger] b[j]).key by {
            assert(a[i].key != a[j].key);
        }
        assert forall|i: int| 0 <= i < b.len() implies under(key, (#[trigger] b[i]).key) by {
            assert(under(key, a[i].key));
        }
        assert forall|i: int| 0 < i < b.len() implies 0 < (#[trigger] b[i]).items.len()
            <= HIERARCHY_PAGE_MAX_ENTRIES by {
            assert(a[i].items.len() > 0);
        }
    }
}

} // verus!
