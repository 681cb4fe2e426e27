//! Hierarchy pages for writing: which entries go on which page, where the pages lie, and
//! their bytes.

use vstd::prelude::*;

use crate::bytes;
use crate::error::{Error, Fault, Result};
use crate::hierarchy;
use crate::page_tree;
use crate::hierarchy::{Entry, VoxelKey, HIERARCHY_ENTRY_BYTES};
use crate::seqs;

verus! {

/// The most items of one page.
pub const HIERARCHY_PAGE_MAX_ENTRIES: usize = 4_096;

/// One item of a page: a node, or the page with the given index in the plan.
#[derive(Clone, Copy, Debug, PartialEq, Eq, Structural)]
pub enum PageItem {
    Point(Entry),
    Child(usize),
}

/// A page of a plan.
#[derive(Clone, Debug)]
pub struct PlanPage {
    pub key: VoxelKey,
    pub items: Vec<PageItem>,
    pub offset: u64,
    pub byte_size: u64,
}

/// What a [`PlanPage`] holds.
#[verifier::ext_equal]
pub struct PageModel {
    pub key: VoxelKey,
    pub items: Seq<PageItem>,
    pub offset: u64,
    pub byte_size: u64,
}

impl View for PlanPage {
    type V = PageModel;

    open spec fn view(&self) -> PageModel {
        PageModel {
            key: self.key,
            items: self.items@,
            offset: self.offset,
            byte_size: self.byte_size,
        }
    }
}

pub open spec fn page_models(pages: Seq<PlanPage>) -> Seq<PageModel> {
    Seq::new(pages.len(), |i: int| pages[i]@)
}

/// Pages in the order in which they are written: each one is followed by the subtrees of
/// its child pages. The first is the root page.
#[derive(Clone, Debug)]
pub struct HierarchyPagePlan {
    pub pages: Vec<PlanPage>,
}

/// Whether `key` is `ancestor` or lies below it.
pub open spec fn contains(ancestor: VoxelKey, key: VoxelKey) -> bool {
    let scale = hierarchy::pow2((key.level - ancestor.level) as nat) as int;
    &&& key.level >= ancestor.level
    &&& key.x as int / scale == ancestor.x
    &&& key.y as int / scale == ancestor.y
    &&& key.z as int / scale == ancestor.z
}

proof fn lemma_halve(v: int, n: nat)
    requires
        v >= 0,
    ensures
        (v / 2) / (hierarchy::pow2(n) as int) == v / (hierarchy::pow2(n + 1) as int),
{
    hierarchy::lemma_pow2_monotonic(0, n);
    let p = hierarchy::pow2(n) as int;
    assert(hierarchy::pow2(n + 1) == 2 * hierarchy::pow2(n));
    vstd::arithmetic::div_mod::lemma_div_denominator(v, 2, p);
}

/// The value halved `times` times, rounded down.
fn halved(value: i32, times: i32) -> (r: i32)
    requires
        value >= 0,
        times >= 0,
    ensures
        r == value as int / (hierarchy::pow2(times as nat) as int),
        0 <= r <= value,
{
    let mut rest: i32 = value;
    let mut left: i32 = times;
    while left > 0 && rest > 0
        invariant
            0 <= left <= times,
            0 <= rest <= value,
            rest as int / (hierarchy::pow2(left as nat) as int) == value as int / (
            hierarchy::pow2(times as nat) as int),
        decreases left,
    {
        proof {
            lemma_halve(rest as int, (left - 1) as nat);
        }
        rest = rest / 2;
        left = left - 1;
    }
    proof {
        hierarchy::lemma_pow2_monotonic(0, left as nat);
        if left == 0 {
            assert(hierarchy::pow2(left as nat) == 1);
            vstd::arithmetic::div_mod::lemma_div_basics(rest as int);
        }
        if rest == 0 {
            vstd::arithmetic::div_mod::lemma_div_of0(hierarchy::pow2(left as nat) as int);
        }
    }
    rest
}

/// Whether `key` is `ancestor` or lies below it. Both must be free of negative parts.
pub fn key_contains(ancestor: VoxelKey, key: VoxelKey) -> (r: bool)
    requires
        ancestor.nonnegative(),
        key.nonnegative(),
    ensures
        r == contains(ancestor, key),
{
    if key.level < ancestor.level {
        return false;
    }
    let shift: i32 = key.level - ancestor.level;
    halved(key.x, shift) == ancestor.x && halved(key.y, shift) == ancestor.y && halved(
        key.z,
        shift,
    ) == ancestor.z
}

/// The octant of `key` in which the node `below` lies, for a node strictly below it.
pub open spec fn octant_of(key: VoxelKey, below: VoxelKey) -> int {
    let scale = hierarchy::pow2((below.level - key.level - 1) as nat) as int;
    below.x as int / scale % 2 + 2 * (below.y as int / scale % 2) + 4 * (below.z as int / scale
        % 2)
}

/// Where an entry goes that is planned under the page key `key`: into the page itself, into
/// an octant, or nowhere.
pub open spec fn place_of(key: VoxelKey, entry: Entry) -> Option<Option<int>> {
    if entry.key == key {
        Some(None)
    } else if entry.key.nonnegative() && contains(key, entry.key) && entry.key.level
        > key.level {
        Some(Some(octant_of(key, entry.key)))
    } else {
        None
    }
}

fn place(key: VoxelKey, entry: &Entry) -> (r: Option<Option<u8>>)
    requires
        key.nonnegative(),
    ensures
        match r {
            None => place_of(key, *entry) is None,
            Some(None) => place_of(key, *entry) == Some(None::<int>),
            Some(Some(octant)) => octant <= 7 && place_of(key, *entry) == Some(
                Some(octant as int),
            ),
        },
{
    if entry.key == key {
        return Some(None);
    }
    if entry.key.level <= key.level || entry.key.x < 0 || entry.key.y < 0 || entry.key.z < 0 {
        return None;
    }
    if !key_contains(key, entry.key) {
        return None;
    }
    let shift: i32 = entry.key.level - key.level - 1;
    let x: i32 = halved(entry.key.x, shift) % 2;
    let y: i32 = halved(entry.key.y, shift) % 2;
    let z: i32 = halved(entry.key.z, shift) % 2;
    Some(Some((x + 2 * y + 4 * z) as u8))
}

/// A node that is placed in an octant lies in the child of that octant, and in no other.
pub proof fn law_place(key: VoxelKey, entry: Entry)
    requires
        key.valid(),
        key.level <= 30,
        place_of(key, entry) is Some,
        place_of(key, entry)->Some_0 is Some,
    ensures
        ({
            let octant = place_of(key, entry)->Some_0->Some_0;
            let child = key.child_spec(octant as u8);
            &&& 0 <= octant <= 7
            &&& child is Ok
            &&& contains(child->Ok_0, entry.key)
            &&& forall|other: u8|
                other <= 7 && #[trigger] contains(key.child_spec(other)->Ok_0, entry.key) ==> other
                    == octant
        }),
{
    let octant = octant_of(key, entry.key);
    let n = (entry.key.level - key.level - 1) as nat;
    let scale = hierarchy::pow2(n) as int;
    hierarchy::lemma_pow2_monotonic(0, n);
    assert(hierarchy::pow2(n + 1) == 2 * hierarchy::pow2(n));
    assert(key.valid());
    lemma_scaled(entry.key.x as int, scale);
    lemma_scaled(entry.key.y as int, scale);
    lemma_scaled(entry.key.z as int, scale);
    hierarchy::law_child(key, octant as u8);
    assert forall|other: u8|
        other <= 7 && #[trigger] contains(key.child_spec(other)->Ok_0, entry.key) implies other
        == octant by {
        hierarchy::law_child(key, other);
    }
}

pub proof fn lemma_scaled(v: int, scale: int)
    requires
        v >= 0,
        scale > 0,
    ensures
        v / (2 * scale) == (v / scale) / 2,
        v / scale >= 0,
{
    vstd::arithmetic::div_mod::lemma_div_denominator(v, scale, 2);
    vstd::arithmetic::div_mod::lemma_div_pos_is_pos(v, scale);
    assert(scale * 2 == 2 * scale);
}

/// The entries of one octant.
pub open spec fn octant_entries(entries: Seq<Entry>, key: VoxelKey, octant: int) -> Seq<Entry> {
    entries.filter(|entry: Entry| place_of(key, entry) == Some(Some(octant)))
}

/// The entries of the page's own node.
pub open spec fn own_entries(entries: Seq<Entry>, key: VoxelKey) -> Seq<Entry> {
    entries.filter(|entry: Entry| place_of(key, entry) == Some(None::<int>))
}

/// The first entry that has no place under the key.
pub open spec fn misplaced(entries: Seq<Entry>, key: VoxelKey) -> Seq<Entry> {
    entries.filter(|entry: Entry| place_of(key, entry) is None)
}

pub open spec fn point_items(entries: Seq<Entry>) -> Seq<PageItem> {
    Seq::new(entries.len(), |i: int| PageItem::Point(entries[i]))
}

/// The page of the given items, not yet at a place.
pub open spec fn bare_page(key: VoxelKey, items: Seq<PageItem>) -> PageModel {
    PageModel { key, items, offset: 0, byte_size: 0 }
}

/// The pages for entries under a key. `base` is the number of pages in front of them.
pub open spec fn plan_of(entries: Seq<Entry>, key: VoxelKey, base: nat) -> Result<Seq<PageModel>>
    decreases i32::MAX - key.level, 10int,
{
    if entries.len() == 0 {
        Err(Error::InvalidInput(Fault::EmptyPage))
    } else if entries.len() <= HIERARCHY_PAGE_MAX_ENTRIES {
        Ok(seq![bare_page(key, point_items(entries))])
    } else if misplaced(entries, key).len() > 0 {
        Err(
            Error::InvalidInput(
                Fault::EntryNotUnderPage { entry: misplaced(entries, key)[0].key, page: key },
            ),
        )
    } else {
        let own = own_entries(entries, key);
        let first = if own.len() > 0 {
            seq![PageItem::Point(own.last())]
        } else {
            Seq::empty()
        };
        match children_of(entries, key, base, 8) {
            Err(error) => Err(error),
            Ok((items, pages)) => Ok(seq![bare_page(key, first + items)] + pages),
        }
    }
}

/// The items and the pages for the first `n` octants.
pub open spec fn children_of(entries: Seq<Entry>, key: VoxelKey, base: nat, n: nat) -> Result<
    (Seq<PageItem>, Seq<PageModel>),
>
    decreases i32::MAX - key.level, n,
    when n <= 8
{
    if n == 0 {
        Ok((Seq::empty(), Seq::empty()))
    } else {
        match children_of(entries, key, base, (n - 1) as nat) {
            Err(error) => Err(error),
            Ok((items, pages)) => {
                let group = octant_entries(entries, key, n - 1);
                let index = base + 1 + pages.len();
                if group.len() == 0 {
                    Ok((items, pages))
                } else {
                    match key.child_spec((n - 1) as u8) {
                        Err(error) => Err(error),
                        Ok(child) => match plan_of(group, child, index) {
                            Err(error) => Err(error),
                            Ok(more) => Ok(
                                (items.push(PageItem::Child(index as usize)), pages + more),
                            ),
                        },
                    }
                }
            },
        }
    }
}

proof fn lemma_filter_first(s: Seq<Entry>, f: spec_fn(Entry) -> bool, n: int)
    requires
        0 < n <= s.len(),
        s.subrange(0, n).filter(f).len() == 1,
    ensures
        s.filter(f).len() > 0,
        s.filter(f)[0] == s.subrange(0, n).filter(f)[0],
    decreases s.len(),
{
    reveal(Seq::filter);
    if n == s.len() {
        assert(s.subrange(0, n) =~= s);
    } else {
        assert(s.drop_last().subrange(0, n) =~= s.subrange(0, n));
        lemma_filter_first(s.drop_last(), f, n);
    }
}

/// The entries by octant, and the last one of the page's own node.
fn split_entries(entries: &[Entry], key: VoxelKey) -> (r: Result<(Option<Entry>, Vec<Vec<Entry>>)>)
    requires
        key.nonnegative(),
    ensures
        match r {
            Ok((own, groups)) => {
                &&& misplaced(entries@, key).len() == 0
                &&& groups@.len() == 8
                &&& forall|o: int|
                    0 <= o < 8 ==> (#[trigger] groups@[o])@ == octant_entries(entries@, key, o)
                &&& match own {
                    Some(entry) => own_entries(entries@, key).len() > 0 && own_entries(
                        entries@,
                        key,
                    ).last() == entry,
                    None => own_entries(entries@, key).len() == 0,
                }
            },
            Err(error) => {
                &&& misplaced(entries@, key).len() > 0
                &&& error == Error::InvalidInput(
                    Fault::EntryNotUnderPage { entry: misplaced(entries@, key)[0].key, page: key },
                )
            },
        },
{
    let mut groups: Vec<Vec<Entry>> = Vec::new();
    let mut o: usize = 0;
    while o < 8
        invariant
            o <= 8,
            groups@.len() == o,
            forall|k: int| 0 <= k < o ==> (#[trigger] groups@[k])@ == Seq::<Entry>::empty(),
        decreases 8 - o,
    {
        groups.push(Vec::new());
        o = o + 1;
    }
    let mut own: Option<Entry> = None;
    let ghost bad = |entry: Entry| place_of(key, entry) is None;
    let ghost mine = |entry: Entry| place_of(key, entry) == Some(None::<int>);
    let mut i: usize = 0;
    proof {
        assert(entries@.subrange(0, 0) =~= Seq::empty());
        seqs::lemma_filter_empty(bad);
        seqs::lemma_filter_empty(mine);
        assert forall|k: int| 0 <= k < 8 implies (#[trigger] groups@[k])@ == octant_entries(
            entries@.subrange(0, 0),
            key,
            k,
        ) by {
            seqs::lemma_filter_empty(|entry: Entry| place_of(key, entry) == Some(Some(k)));
        }
    }
    while i < entries.len()
        invariant
            i <= entries@.len(),
            key.nonnegative(),
            bad == (|entry: Entry| place_of(key, entry) is None),
            mine == (|entry: Entry| place_of(key, entry) == Some(None::<int>)),
            groups@.len() == 8,
            misplaced(entries@.subrange(0, i as int), key).len() == 0,
            forall|k: int|
                0 <= k < 8 ==> (#[trigger] groups@[k])@ == octant_entries(
                    entries@.subrange(0, i as int),
                    key,
                    k,
                ),
            match own {
                Some(entry) => own_entries(entries@.subrange(0, i as int), key).len() > 0
                    && own_entries(entries@.subrange(0, i as int), key).last() == entry,
                None => own_entries(entries@.subrange(0, i as int), key).len() == 0,
            },
        decreases entries@.len() - i,
    {
        let entry = entries[i];
        let ghost seen = entries@.subrange(0, i as int);
        let ghost before = groups@;
        proof {
            assert(entries@.subrange(0, i + 1) =~= seen.push(entry));
            seqs::lemma_filter_push(seen, entry, bad);
            seqs::lemma_filter_push(seen, entry, mine);
            assert forall|k: int| 0 <= k < 8 implies #[trigger] octant_entries(
                seen.push(entry),
                key,
                k,
            ) == (if place_of(key, entry) == Some(Some(k)) {
                octant_entries(seen, key, k).push(entry)
            } else {
                octant_entries(seen, key, k)
            }) by {
                seqs::lemma_filter_push(
                    seen,
                    entry,
                    |e: Entry| place_of(key, e) == Some(Some(k)),
                );
            }
        }
        match place(key, &entry) {
            None => {
                proof {
                    lemma_filter_first(entries@, bad, i + 1);
                }
                return Err(
                    Error::InvalidInput(
                        Fault::EntryNotUnderPage { entry: entry.key, page: key },
                    ),
                );
            },
            Some(None) => {
                own = Some(entry);
            },
            Some(Some(octant)) => {
                groups[octant as usize].push(entry);
                proof {
                    assert forall|k: int| 0 <= k < 8 implies (#[trigger] groups@[k])@
                        == octant_entries(seen.push(entry), key, k) by {
                        if k != octant {
                            assert(groups@[k] == before[k]);
                        } else {
                            assert(groups@[k]@ == before[k]@.push(entry));
                        }
                    }
                }
            },
        }
        i = i + 1;
    }
    proof {
        assert(entries@.subrange(0, entries@.len() as int) =~= entries@);
    }
    Ok((own, groups))
}

fn plan_into(entries: &[Entry], key: VoxelKey, pages: &mut Vec<PlanPage>) -> (r: Result<()>)
    requires
        entries@.len() > HIERARCHY_PAGE_MAX_ENTRIES ==> key.valid(),
    ensures
        match plan_of(entries@, key, old(pages)@.len()) {
            Ok(more) => r is Ok && page_models(final(pages)@) == page_models(old(pages)@) + more,
            Err(error) => r == Err::<(), Error>(error),
        },
    decreases i32::MAX - key.level,
{
    let count: usize = entries.len();
    if count == 0 {
        return Err(Error::InvalidInput(Fault::EmptyPage));
    }
    let ghost start = page_models(pages@);
    let ghost base = pages@.len();
    if count <= HIERARCHY_PAGE_MAX_ENTRIES {
        let mut items: Vec<PageItem> = Vec::new();
        let mut i: usize = 0;
        while i < count
            invariant
                i <= count,
                count == entries@.len(),
                items@ == point_items(entries@.subrange(0, i as int)),
            decreases count - i,
        {
            items.push(PageItem::Point(entries[i]));
            proof {
                assert(items@ =~= point_items(entries@.subrange(0, i + 1)));
            }
            i = i + 1;
        }
        proof {
            assert(entries@.subrange(0, count as int) =~= entries@);
        }
        pages.push(PlanPage { key, items, offset: 0, byte_size: 0 });
        proof {
            assert(page_models(pages@) =~= start + seq![bare_page(key, point_items(entries@))]);
        }
        return Ok(());
    }
    let (own, groups) = split_entries(entries, key)?;
    let mut items: Vec<PageItem> = Vec::new();
    let ghost first = if own_entries(entries@, key).len() > 0 {
        seq![PageItem::Point(own_entries(entries@, key).last())]
    } else {
        Seq::empty()
    };
    match own {
        Some(entry) => {
            items.push(PageItem::Point(entry));
        },
        None => {},
    }
    proof {
        assert(items@ =~= first);
    }
    let index: usize = pages.len();
    pages.push(PlanPage { key, items: Vec::new(), offset: 0, byte_size: 0 });
    let ghost front = page_models(pages@);
    proof {
        assert(front.len() == base + 1);
        assert(front.subrange(0, base as int) =~= start);
        assert(items@ =~= first + Seq::empty());
        assert(page_models(pages@) =~= front + Seq::empty());
    }
    let mut octant: usize = 0;
    while octant < 8
        invariant
            octant <= 8,
            key.valid(),
            base == old(pages)@.len(),
            count == entries@.len(),
            count > HIERARCHY_PAGE_MAX_ENTRIES,
            misplaced(entries@, key).len() == 0,
            front.len() == base + 1,
            groups@.len() == 8,
            forall|o: int|
                0 <= o < 8 ==> (#[trigger] groups@[o])@ == octant_entries(entries@, key, o),
            children_of(entries@, key, base, octant as nat) is Ok,
            items@ == first + children_of(entries@, key, base, octant as nat)->Ok_0.0,
            page_models(pages@) == front + children_of(
                entries@,
                key,
                base,
                octant as nat,
            )->Ok_0.1,
            first == (if own_entries(entries@, key).len() > 0 {
                seq![PageItem::Point(own_entries(entries@, key).last())]
            } else {
                Seq::empty()
            }),
        decreases 8 - octant,
    {
        let ghost (some, more) = children_of(entries@, key, base, octant as nat)->Ok_0;
        let group = &groups[octant];
        if group.len() > 0 {
            let child = match key.child(octant as u8) {
                Ok(child) => child,
                Err(error) => {
                    proof {
                        lemma_children_error(entries@, key, base, (octant + 1) as nat);
                    }
                    return Err(error);
                },
            };
            let at: usize = pages.len();
            proof {
                assert(page_models(pages@).len() == at);
                assert(at == base + 1 + more.len());
            }
            match plan_into(group.as_slice(), child, pages) {
                Ok(_) => {},
                Err(error) => {
                    proof {
                        lemma_children_error(entries@, key, base, (octant + 1) as nat);
                    }
                    return Err(error);
                },
            }
            items.push(PageItem::Child(at));
            proof {
                let sub = plan_of(group@, child, at as nat)->Ok_0;
                assert(items@ =~= first + some.push(PageItem::Child(at)));
                assert(page_models(pages@) =~= front + (more + sub));
            }
        }
        octant = octant + 1;
    }
    let ghost (some, more) = children_of(entries@, key, base, 8)->Ok_0;
    let ghost before = page_models(pages@);
    pages[index].items = items;
    proof {
        let root = bare_page(key, first + some);
        assert(before[index as int] == front[index as int]);
        assert(pages@[index as int]@ =~= root);
        assert(page_models(pages@) =~= before.update(index as int, root));
        assert(page_models(pages@) =~= start + (seq![root] + more));
    }
    Ok(())
}

proof fn lemma_children_error(entries: Seq<Entry>, key: VoxelKey, base: nat, n: nat)
    requires
        n <= 8,
        children_of(entries, key, base, n) is Err,
    ensures
        children_of(entries, key, base, 8) == children_of(entries, key, base, n),
    decreases 8 - n,
{
    if n < 8 {
        lemma_children_error(entries, key, base, n + 1);
    }
}

impl HierarchyPagePlan {
    /// What the pages hold.
    pub open spec fn models(&self) -> Seq<PageModel> {
        page_models(self.pages@)
    }

    /// Every reference is to a page of the plan.
    pub open spec fn wf(&self) -> bool {
        references_in(self.models(), 0, self.models().len())
    }
}

/// Every reference on the pages is to one of the pages `base..base + n`.
pub open spec fn references_in(pages: Seq<PageModel>, base: nat, n: nat) -> bool {
    forall|i: int, j: int|
        0 <= i < pages.len() && 0 <= j < pages[i].items.len() ==> (
        #[trigger] pages[i].items[j] matches PageItem::Child(k) ==> base <= k < base + n)
}

/// Plans the pages for the entries under `key`. A page with too many entries is split: it
/// keeps the entry of its own node, and each octant that has entries gets a page.
pub fn plan_hierarchy_pages(entries: &[Entry], key: VoxelKey) -> (r: Result<HierarchyPagePlan>)
    requires
        entries@.len() > HIERARCHY_PAGE_MAX_ENTRIES ==> key.valid(),
    ensures
        match r {
            Ok(plan) => plan.wf() && plan_of(entries@, key, 0) == Ok::<Seq<PageModel>, Error>(
                plan.models(),
            ),
            Err(error) => plan_of(entries@, key, 0) == Err::<Seq<PageModel>, Error>(error),
        },
{
    let mut pages: Vec<PlanPage> = Vec::new();
    plan_into(entries, key, &mut pages)?;
    proof {
        let more = plan_of(entries@, key, 0)->Ok_0;
        assert(page_models(Seq::empty()) + more =~= more);
        assert(page_models(Seq::<PlanPage>::empty()) =~= Seq::empty());
        assert(pages.len() == page_models(pages@).len());
        page_tree::lemma_references(entries@, key, 0);
    }
    Ok(HierarchyPagePlan { pages })
}

/// A plan has a page at least.
pub proof fn lemma_plan_not_empty(entries: Seq<Entry>, key: VoxelKey, base: nat)
    requires
        plan_of(entries, key, base) is Ok,
    ensures
        plan_of(entries, key, base)->Ok_0.len() > 0,
{
}

/// The bytes of the first `n` pages.
pub open spec fn bytes_before(pages: Seq<PageModel>, n: int) -> nat
    decreases n,
{
    if n <= 0 {
        0
    } else {
        bytes_before(pages, n - 1) + 32 * pages[n - 1].items.len()
    }
}

/// The pages one behind the other, the first of them at `offset`.
pub open spec fn placed(pages: Seq<PageModel>, offset: u64) -> Seq<PageModel> {
    Seq::new(
        pages.len(),
        |i: int|
            PageModel {
                key: pages[i].key,
                items: pages[i].items,
                offset: (offset + bytes_before(pages, i)) as u64,
                byte_size: (32 * pages[i].items.len()) as u64,
            },
    )
}

/// Where the first `n` pages end, when they start at `offset`.
pub open spec fn end_of(pages: Seq<PageModel>, offset: u64, n: int) -> Result<u64>
    decreases n,
{
    if n <= 0 {
        Ok(offset)
    } else {
        match end_of(pages, offset, n - 1) {
            Err(error) => Err(error),
            Ok(before) => match page_bytes(pages[n - 1].items.len()) {
                Err(error) => Err(error),
                Ok(size) => if before + size > u64::MAX {
                    Err(Error::InvalidInput(Fault::PageOffsetOverflow))
                } else {
                    Ok((before + size) as u64)
                },
            },
        }
    }
}

/// The bytes of a page of so many items.
pub open spec fn page_bytes(items: nat) -> Result<u64> {
    if items * 32 > usize::MAX {
        Err(Error::InvalidInput(Fault::PageSizeOverflow))
    } else {
        Ok((items * 32) as u64)
    }
}

/// The number of bytes of a page with `entry_count` items.
pub fn hierarchy_page_byte_size(entry_count: usize) -> (r: Result<u64>)
    ensures
        r == page_bytes(entry_count as nat),
{
    match entry_count.checked_mul(HIERARCHY_ENTRY_BYTES) {
        None => Err(Error::InvalidInput(Fault::PageSizeOverflow)),
        Some(size) => Ok(size as u64),
    }
}

proof fn lemma_end_of_error(pages: Seq<PageModel>, offset: u64, n: int, m: int)
    requires
        0 <= n <= m,
        end_of(pages, offset, n) is Err,
    ensures
        end_of(pages, offset, m) == end_of(pages, offset, n),
    decreases m,
{
    if n < m {
        lemma_end_of_error(pages, offset, n, m - 1);
    }
}

/// What is placed is placed without gaps: the pages end where the bytes before them, and
/// their own, say.
pub proof fn law_end_of(pages: Seq<PageModel>, offset: u64, n: int)
    requires
        0 <= n <= pages.len(),
        end_of(pages, offset, n) is Ok,
    ensures
        end_of(pages, offset, n)->Ok_0 == offset + bytes_before(pages, n),
    decreases n,
{
    if n > 0 {
        law_end_of(pages, offset, n - 1);
    }
}

/// Where pages end depends on their numbers of items only.
pub proof fn lemma_end_of_depends(a: Seq<PageModel>, b: Seq<PageModel>, offset: u64, n: int)
    requires
        0 <= n <= a.len(),
        a.len() == b.len(),
        forall|i: int| 0 <= i < a.len() ==> (#[trigger] a[i]).items == b[i].items,
    ensures
        end_of(a, offset, n) == end_of(b, offset, n),
        bytes_before(a, n) == bytes_before(b, n),
    decreases n,
{
    if n > 0 {
        lemma_end_of_depends(a, b, offset, n - 1);
        assert(a[n - 1].items == b[n - 1].items);
    }
}

/// A page that could be placed has a size that fits.
pub proof fn lemma_page_fits(pages: Seq<PageModel>, offset: u64, n: int, i: int)
    requires
        0 <= i < n <= pages.len(),
        end_of(pages, offset, n) is Ok,
    ensures
        32 * pages[i].items.len() <= u64::MAX,
    decreases n,
{
    if i < n - 1 {
        lemma_page_fits(pages, offset, n - 1, i);
    }
}

/// Puts the pages one behind the other from `offset` on, and returns where they end.
pub fn assign_hierarchy_page_offsets(plan: &mut HierarchyPagePlan, offset: u64) -> (r: Result<
    u64,
>)
    ensures
        r == end_of(old(plan).models(), offset, old(plan).models().len() as int),
        r is Ok ==> final(plan).models() == placed(old(plan).models(), offset),
        old(plan).wf() ==> final(plan).wf(),
{
    let ghost start = plan.models();
    let count: usize = plan.pages.len();
    let mut next: u64 = offset;
    let mut i: usize = 0;
    while i < count
        invariant
            i <= count,
            count == plan.pages@.len(),
            start == old(plan).models(),
            start.len() == count,
            end_of(start, offset, i as int) == Ok::<u64, Error>(next),
            forall|k: int|
                0 <= k < count ==> (#[trigger] plan.pages@[k])@ == (if k < i {
                    placed(start, offset)[k]
                } else {
                    start[k]
                }),
        decreases count - i,
    {
        let ghost before = plan.pages@;
        proof {
            assert(before[i as int]@ == start[i as int]);
        }
        let size: u64 = match hierarchy_page_byte_size(plan.pages[i].items.len()) {
            Ok(size) => size,
            Err(error) => {
                proof {
                    lemma_end_of_error(start, offset, i + 1, count as int);
                    lemma_same_items(plan.models(), start);
                }
                return Err(error);
            },
        };
        plan.pages[i].offset = next;
        plan.pages[i].byte_size = size;
        proof {
            law_end_of(start, offset, i as int);
            assert forall|k: int| 0 <= k < count implies (#[trigger] plan.pages@[k])@ == (if k < i
                + 1 {
                placed(start, offset)[k]
            } else {
                start[k]
            }) by {
                if k != i {
                    assert(plan.pages@[k] == before[k]);
                }
            }
        }
        next = match next.checked_add(size) {
            Some(sum) => sum,
            None => {
                proof {
                    lemma_end_of_error(start, offset, i + 1, count as int);
                    lemma_same_items(plan.models(), start);
                }
                return Err(Error::InvalidInput(Fault::PageOffsetOverflow));
            },
        };
        i = i + 1;
    }
    proof {
        assert(plan.models() =~= placed(start, offset));
        lemma_same_items(plan.models(), start);
    }
    Ok(next)
}

proof fn lemma_same_items(a: Seq<PageModel>, b: Seq<PageModel>)
    requires
        a.len() == b.len(),
        forall|i: int| 0 <= i < a.len() ==> (#[trigger] a[i]).items == b[i].items,
    ensures
        references_in(b, 0, b.len()) ==> references_in(a, 0, a.len()),
{
    if references_in(b, 0, b.len()) {
        assert forall|i: int, j: int|
            0 <= i < a.len() && 0 <= j < a[i].items.len() implies (
        #[trigger] a[i].items[j] matches PageItem::Child(k) ==> 0 <= k < a.len()) by {
            assert(a[i].items[j] == b[i].items[j]);
        }
    }
}

/// The entry that stands on a page for an item.
pub open spec fn item_entry(pages: Seq<PageModel>, item: PageItem) -> Result<Entry> {
    match item {
        PageItem::Point(entry) => Ok(entry),
        PageItem::Child(i) => if pages[i as int].byte_size > i32::MAX {
            Err(Error::InvalidInput(Fault::ChildPageExceedsI32))
        } else {
            Ok(
                Entry {
                    key: pages[i as int].key,
                    offset: pages[i as int].offset,
                    byte_size: pages[i as int].byte_size as i32,
                    point_count: -1i32,
                },
            )
        },
    }
}

/// The entries for the first `n` items, all of them valid.
pub open spec fn item_entries(pages: Seq<PageModel>, items: Seq<PageItem>, n: int) -> Result<
    Seq<Entry>,
>
    decreases n,
{
    if n <= 0 {
        Ok(Seq::empty())
    } else {
        match item_entries(pages, items, n - 1) {
            Err(error) => Err(error),
            Ok(before) => match item_entry(pages, items[n - 1]) {
                Err(error) => Err(error),
                Ok(entry) => match entry.validity() {
                    Err(error) => Err(error),
                    Ok(_) => Ok(before.push(entry)),
                },
            },
        }
    }
}

/// The bytes of the first `n` pages, the first of them at `position`.
pub open spec fn tree_bytes(pages: Seq<PageModel>, position: u64, n: int) -> Result<Seq<u8>>
    decreases n,
{
    if n <= 0 {
        Ok(Seq::empty())
    } else {
        match tree_bytes(pages, position, n - 1) {
            Err(error) => Err(error),
            Ok(before) => {
                let page = pages[n - 1];
                let at = position + before.len();
                if at != page.offset {
                    Err(
                        Error::InvalidInput(
                            Fault::PageOffsetMismatch {
                                at: if at > u64::MAX {
                                    u64::MAX
                                } else {
                                    at as u64
                                },
                                expected: page.offset,
                            },
                        ),
                    )
                } else {
                    match item_entries(pages, page.items, page.items.len() as int) {
                        Err(error) => Err(error),
                        Ok(entries) => Ok(before + hierarchy::entries_bytes(entries)),
                    }
                }
            },
        }
    }
}

fn hierarchy_page_item_entry(plan: &HierarchyPagePlan, item: PageItem) -> (r: Result<Entry>)
    requires
        item matches PageItem::Child(i) ==> i < plan.pages@.len(),
    ensures
        r == item_entry(plan.models(), item),
{
    match item {
        PageItem::Point(entry) => Ok(entry),
        PageItem::Child(i) => {
            let page = &plan.pages[i];
            if page.byte_size > i32::MAX as u64 {
                return Err(Error::InvalidInput(Fault::ChildPageExceedsI32));
            }
            Ok(
                Entry {
                    key: page.key,
                    offset: page.offset,
                    byte_size: page.byte_size as i32,
                    point_count: -1,
                },
            )
        },
    }
}

proof fn lemma_item_entries_error(
    pages: Seq<PageModel>,
    items: Seq<PageItem>,
    n: int,
    m: int,
)
    requires
        0 <= n <= m,
        item_entries(pages, items, n) is Err,
    ensures
        item_entries(pages, items, m) == item_entries(pages, items, n),
    decreases m,
{
    if n < m {
        lemma_item_entries_error(pages, items, n, m - 1);
    }
}

proof fn lemma_tree_bytes_error(pages: Seq<PageModel>, position: u64, n: int, m: int)
    requires
        0 <= n <= m,
        tree_bytes(pages, position, n) is Err,
    ensures
        tree_bytes(pages, position, m) == tree_bytes(pages, position, n),
    decreases m,
{
    if n < m {
        lemma_tree_bytes_error(pages, position, n, m - 1);
    }
}

/// Appends the bytes of one page.
fn write_hierarchy_page(plan: &HierarchyPagePlan, index: usize, out: &mut Vec<u8>) -> (r: Result<
    (),
>)
    requires
        plan.wf(),
        index < plan.pages@.len(),
    ensures
        ({
            let items = plan.models()[index as int].items;
            match item_entries(plan.models(), items, items.len() as int) {
                Err(error) => r == Err::<(), Error>(error),
                Ok(entries) => r is Ok && final(out)@ == old(out)@ + hierarchy::entries_bytes(
                    entries,
                ),
            }
        }),
{
    let items = &plan.pages[index].items;
    let ghost models = plan.models();
    let ghost mut entries: Seq<Entry> = Seq::empty();
    let mut i: usize = 0;
    proof {
        assert(out@ =~= old(out)@ + hierarchy::entries_bytes(entries));
    }
    while i < items.len()
        invariant
            i <= items@.len(),
            plan.wf(),
            models == plan.models(),
            index < plan.pages@.len(),
            items == plan.pages@[index as int].items,
            item_entries(models, items@, i as int) == Ok::<Seq<Entry>, Error>(entries),
            out@ == old(out)@ + hierarchy::entries_bytes(entries),
        decreases items@.len() - i,
    {
        let item = items[i];
        proof {
            assert(models[index as int].items[i as int] == item);
        }
        let entry = match hierarchy_page_item_entry(plan, item) {
            Ok(entry) => entry,
            Err(error) => {
                proof {
                    lemma_item_entries_error(models, items@, i + 1, items@.len() as int);
                }
                return Err(error);
            },
        };
        let mut encoded: [u8; 32] = [0u8;32];
        match entry.write_le(&mut encoded) {
            Ok(_) => {},
            Err(error) => {
                proof {
                    lemma_item_entries_error(models, items@, i + 1, items@.len() as int);
                }
                return Err(error);
            },
        }
        bytes::push_bytes(out, &encoded);
        proof {
            let next = entries.push(entry);
            assert(next.drop_last() =~= entries);
            assert(out@ =~= old(out)@ + hierarchy::entries_bytes(next));
            entries = next;
        }
        i = i + 1;
    }
    Ok(())
}

/// The bytes of all pages, the first of them at `position`.
pub fn write_hierarchy_page_tree(plan: &HierarchyPagePlan, position: u64) -> (r: Result<Vec<u8>>)
    requires
        plan.wf(),
    ensures
        match r {
            Ok(out) => tree_bytes(plan.models(), position, plan.models().len() as int) == Ok::<
                Seq<u8>,
                Error,
            >(out@),
            Err(error) => tree_bytes(plan.models(), position, plan.models().len() as int)
                == Err::<Seq<u8>, Error>(error),
        },
{
    let mut out: Vec<u8> = Vec::new();
    let ghost models = plan.models();
    let count: usize = plan.pages.len();
    let mut i: usize = 0;
    while i < count
        invariant
            i <= count,
            plan.wf(),
            models == plan.models(),
            count == plan.pages@.len(),
            tree_bytes(models, position, i as int) == Ok::<Seq<u8>, Error>(out@),
        decreases count - i,
    {
        let expected: u64 = plan.pages[i].offset;
        let len: usize = out.len();
        let at: u64 = position.saturating_add(len as u64);
        if at != expected || len as u64 > u64::MAX - position {
            proof {
                lemma_tree_bytes_error(models, position, i + 1, count as int);
            }
            return Err(Error::InvalidInput(Fault::PageOffsetMismatch { at, expected }));
        }
        match write_hierarchy_page(plan, i, &mut out) {
            Ok(_) => {},
            Err(error) => {
                proof {
                    lemma_tree_bytes_error(models, position, i + 1, count as int);
                }
                return Err(error);
            },
        }
        i = i + 1;
    }
    Ok(out)
}

/// The entry of a node whose chunk lies at `offset`.
pub fn hierarchy_entry(key: VoxelKey, offset: u64, byte_size: u64, count: usize) -> (r: Result<
    Entry,
>)
    ensures
        r == node_entry(key, offset, byte_size, count),
{
    if byte_size > i32::MAX as u64 {
        return Err(Error::InvalidInput(Fault::ChunkExceedsI32));
    }
    if count > i32::MAX as usize {
        return Err(Error::InvalidInput(Fault::NodeCountExceedsI32));
    }
    Ok(Entry { key, offset, byte_size: byte_size as i32, point_count: count as i32 })
}

/// What [`hierarchy_entry`] answers.
pub open spec fn node_entry(key: VoxelKey, offset: u64, byte_size: u64, count: usize) -> Result<
    Entry,
> {
    if byte_size > i32::MAX {
        Err(Error::InvalidInput(Fault::ChunkExceedsI32))
    } else if count > i32::MAX {
        Err(Error::InvalidInput(Fault::NodeCountExceedsI32))
    } else {
        Ok(Entry { key, offset, byte_size: byte_size as i32, point_count: count as i32 })
    }
}

/// The node one level up.
pub open spec fn parent_of(key: VoxelKey) -> VoxelKey {
    VoxelKey {
        level: (key.level - 1) as i32,
        x: (key.x as int / 2) as i32,
        y: (key.y as int / 2) as i32,
        z: (key.z as int / 2) as i32,
    }
}

/// A node lies in itself and in no other of its level, in none below it, and else just where its
/// parent does.
pub proof fn law_contains(ancestor: VoxelKey, key: VoxelKey)
    requires
        key.x >= 0 && key.y >= 0 && key.z >= 0,
        ancestor.level >= 0,
    ensures
        key.level < ancestor.level ==> !contains(ancestor, key),
        key.level == ancestor.level ==> (contains(ancestor, key) <==> ancestor == key),
        key.level > ancestor.level ==> (contains(ancestor, key) <==> contains(
            ancestor,
            parent_of(key),
        )),
{
    if key.level == ancestor.level {
        assert(hierarchy::pow2(0) == 1);
        vstd::arithmetic::div_mod::lemma_div_basics(key.x as int);
        vstd::arithmetic::div_mod::lemma_div_basics(key.y as int);
        vstd::arithmetic::div_mod::lemma_div_basics(key.z as int);
    } else if key.level > ancestor.level {
        let n = (key.level - ancestor.level - 1) as nat;
        let scale = hierarchy::pow2(n) as int;
        hierarchy::lemma_pow2_monotonic(0, n);
        assert(hierarchy::pow2(n + 1) == 2 * hierarchy::pow2(n));
        vstd::arithmetic::div_mod::lemma_div_denominator(key.x as int, 2, scale);
        vstd::arithmetic::div_mod::lemma_div_denominator(key.y as int, 2, scale);
        vstd::arithmetic::div_mod::lemma_div_denominator(key.z as int, 2, scale);
    }
}

/// Entries that fit into one page are put into one, in their order; more are split.
pub proof fn law_one_page(entries: Seq<Entry>, key: VoxelKey, base: nat, i: int)
    requires
        0 < entries.len() <= 4096,
    ensures
        plan_of(entries, key, base) is Ok,
        plan_of(entries, key, base)->Ok_0.len() == 1,
        plan_of(entries, key, base)->Ok_0[0].key == key,
        plan_of(entries, key, base)->Ok_0[0].items.len() == entries.len(),
        0 <= i < entries.len() ==> plan_of(entries, key, base)->Ok_0[0].items[i]
            == PageItem::Point(entries[i]),
{
}

/// Pages stand one behind the other, from the given place on, each with 32 bytes for every
/// entry.
pub proof fn law_placed(pages: Seq<PageModel>, offset: u64, i: int)
    requires
        0 <= i < pages.len(),
        end_of(pages, offset, pages.len() as int) is Ok,
    ensures
        ({
            let after = placed(pages, offset);
            &&& after.len() == pages.len()
            &&& after[0].offset == offset
            &&& after[i].key == pages[i].key && after[i].items == pages[i].items
            &&& after[i].byte_size == 32 * pages[i].items.len()
            &&& i + 1 < pages.len() ==> after[i + 1].offset == after[i].offset
                + after[i].byte_size
            &&& i + 1 == pages.len() ==> end_of(pages, offset, pages.len() as int)->Ok_0
                == after[i].offset + after[i].byte_size
        }),
{
    let n = pages.len() as int;
    lemma_page_fits(pages, offset, n, i);
    if end_of(pages, offset, i) is Err {
        lemma_end_of_error(pages, offset, i, n);
    }
    if end_of(pages, offset, i + 1) is Err {
        lemma_end_of_error(pages, offset, i + 1, n);
    }
    law_end_of(pages, offset, i);
    law_end_of(pages, offset, i + 1);
    law_end_of(pages, offset, n);
    assert(bytes_before(pages, 0) == 0);
    assert(bytes_before(pages, i + 1) == bytes_before(pages, i) + 32 * pages[i].items.len());
}

/// The entry for a page tells its key, its place and its size, and that it is a page.
pub proof fn law_reference_to_a_page(pages: Seq<PageModel>, i: usize)
    ensures
        ({
            let entry = item_entry(pages, PageItem::Child(i));
            &&& entry is Ok <==> pages[i as int].byte_size <= i32::MAX
            &&& entry is Ok ==> {
                &&& entry->Ok_0.key == pages[i as int].key
                &&& entry->Ok_0.offset == pages[i as int].offset
                &&& entry->Ok_0.byte_size == pages[i as int].byte_size
                &&& entry->Ok_0.point_count == -1
            }
        }),
{
}

/// The entry of a node has its key, its place, its bytes and its points, where they have room.
pub proof fn law_node_entry(key: VoxelKey, offset: u64, byte_size: u64, count: usize)
    ensures
        node_entry(key, offset, byte_size, count) is Ok <==> byte_size <= i32::MAX && count
            <= i32::MAX,
        node_entry(key, offset, byte_size, count) is Ok ==> {
            let entry = node_entry(key, offset, byte_size, count)->Ok_0;
            &&& entry.key == key && entry.offset == offset
            &&& entry.byte_size == byte_size && entry.point_count == count
        },
{
}

/// A page has 32 bytes for each of its items, where that has room.
pub proof fn law_page_bytes(items: nat)
    ensures
        page_bytes(items) is Ok <==> 32 * items <= usize::MAX,
        page_bytes(items) is Ok ==> page_bytes(items)->Ok_0 == 32 * items,
{
}

} // verus!
