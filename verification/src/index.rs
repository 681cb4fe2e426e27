//! The entries of a hierarchy by voxel key, and the set of pages that were visited.

use std::collections::{BTreeMap, BTreeSet};

use vstd::prelude::*;

use crate::hierarchy::{Entry, VoxelKey};

verus! {

broadcast use {
    vstd::std_specs::btree::group_btree_axioms,
    vstd::laws_cmp::group_laws_cmp,
    vstd::laws_eq::group_laws_eq,
};

impl VoxelKey {
    pub open spec fn nonnegative(self) -> bool {
        self.level >= 0 && self.x >= 0 && self.y >= 0 && self.z >= 0
    }

    /// The key as one number, ordered as keys are: by level, then x, y and z.
    pub open spec fn order(self) -> int {
        ((self.level * 0x1_0000_0000 + self.x) * 0x1_0000_0000 + self.y) * 0x1_0000_0000 + self.z
    }
}

/// Distinct keys have distinct order numbers.
pub proof fn lemma_order_injective(a: VoxelKey, b: VoxelKey)
    requires
        a.nonnegative(),
        b.nonnegative(),
        a.order() == b.order(),
    ensures
        a == b,
{
}

/// Keys are ordered by their first differing part.
pub proof fn law_order_is_lexicographic(a: VoxelKey, b: VoxelKey)
    requires
        a.nonnegative(),
        b.nonnegative(),
    ensures
        a.order() < b.order() <==> {
            ||| a.level < b.level
            ||| a.level == b.level && a.x < b.x
            ||| a.level == b.level && a.x == b.x && a.y < b.y
            ||| a.level == b.level && a.x == b.x && a.y == b.y && a.z < b.z
        },
{
}

/// Ordered keys with nothing occurring twice.
pub open spec fn keys_increase(entries: Seq<Entry>) -> bool {
    forall|i: int, j: int|
        0 <= i < j < entries.len() ==> (#[trigger] entries[i]).key.order() < (
        #[trigger] entries[j]).key.order()
}

/// `entries` are the values of `map`, in the order of their keys.
pub open spec fn lists(entries: Seq<Entry>, map: Map<VoxelKey, Entry>) -> bool {
    &&& keys_increase(entries)
    &&& forall|i: int|
        0 <= i < entries.len() ==> {
            &&& map.contains_key((#[trigger] entries[i]).key)
            &&& map[entries[i].key] == entries[i]
        }
    &&& forall|key: VoxelKey| #[trigger]
        map.contains_key(key) ==> exists|i: int|
            0 <= i < entries.len() && (#[trigger] entries[i]).key == key
}

proof fn lemma_increasing(numbers: Seq<u128>)
    requires
        vstd::std_specs::btree::increasing_seq(numbers),
    ensures
        forall|i: int, j: int| 0 <= i < j < numbers.len() ==> numbers[i] < numbers[j],
{
    assert forall|i: int, j: int| 0 <= i < j < numbers.len() implies numbers[i] < numbers[j] by {
        assert(vstd::std_specs::cmp::OrdSpec::cmp_spec(&numbers[i], &numbers[j]) is Less);
    }
}

/// Hierarchy entries by key.
#[derive(Clone, Debug)]
pub struct HierarchyIndex {
    entries: BTreeMap<u128, Entry>,
}

fn order_number(key: VoxelKey) -> (r: u128)
    requires
        key.nonnegative(),
    ensures
        r == key.order(),
{
    ((key.level as u128 * 0x1_0000_0000 + key.x as u128) * 0x1_0000_0000 + key.y as u128)
        * 0x1_0000_0000 + key.z as u128
}

impl HierarchyIndex {
    /// Each entry stands under the number of its own key.
    pub closed spec fn wf(&self) -> bool {
        forall|number: u128| #[trigger]
            self.entries@.contains_key(number) ==> {
                &&& self.entries@[number].key.nonnegative()
                &&& self.entries@[number].key.order() == number
            }
    }

    pub closed spec fn map(&self) -> Map<VoxelKey, Entry> {
        Map::new(
            |key: VoxelKey|
                key.nonnegative() && self.entries@.contains_key(key.order() as u128),
            |key: VoxelKey| self.entries@[key.order() as u128],
        )
    }

    pub fn new() -> (r: HierarchyIndex)
        ensures
            r.wf(),
            r.map() == Map::<VoxelKey, Entry>::empty(),
    {
        let r = HierarchyIndex { entries: BTreeMap::new() };
        proof {
            assert(r.map() =~= Map::<VoxelKey, Entry>::empty());
        }
        r
    }

    pub fn get(&self, key: VoxelKey) -> (r: Option<Entry>)
        requires
            self.wf(),
        ensures
            match r {
                Some(entry) => self.map().contains_key(key) && self.map()[key] == entry
                    && entry.key == key,
                None => !self.map().contains_key(key),
            },
    {
        if key.level < 0 || key.x < 0 || key.y < 0 || key.z < 0 {
            return None;
        }
        let number: u128 = order_number(key);
        match self.entries.get(&number) {
            Some(entry) => {
                proof {
                    lemma_order_injective(key, entry.key);
                }
                Some(*entry)
            },
            None => None,
        }
    }

    pub fn insert(&mut self, entry: Entry)
        requires
            old(self).wf(),
            entry.key.nonnegative(),
        ensures
            final(self).wf(),
            final(self).map() == old(self).map().insert(entry.key, entry),
    {
        let number: u128 = order_number(entry.key);
        self.entries.insert(number, entry);
        proof {
            assert forall|key: VoxelKey|
                key.nonnegative() && #[trigger] key.order() == number implies key == entry.key by {
                lemma_order_injective(key, entry.key);
            }
            assert(self.map() =~= old(self).map().insert(entry.key, entry));
        }
    }

    pub proof fn lemma_finite(&self)
        requires
            self.wf(),
        ensures
            self.map().dom().finite(),
    {
        self.lemma_size();
    }

    proof fn lemma_size(&self)
        requires
            self.wf(),
        ensures
            self.map().dom().finite(),
            self.map().dom().len() == self.entries@.dom().len(),
    {
        let numbers = self.entries@.dom();
        let keys = self.map().dom();
        let f = |number: u128| self.entries@[number].key;
        assert forall|a: u128, b: u128|
            numbers.contains(a) && numbers.contains(b) && f(a) == f(b) implies a == b by {}
        assert(numbers.map(f) =~= keys) by {
            assert forall|key: VoxelKey| keys.contains(key) implies numbers.map(f).contains(
                key,
            ) by {
                let number = key.order() as u128;
                lemma_order_injective(key, self.entries@[number].key);
                assert(f(number) == key);
            }
        }
        numbers.lemma_map_finite(f);
        vstd::set_lib::lemma_map_size(numbers, keys, f);
    }

    pub fn len(&self) -> (r: usize)
        requires
            self.wf(),
        ensures
            r == self.map().dom().len(),
    {
        proof {
            self.lemma_size();
        }
        self.entries.len()
    }

    /// All entries, in the order of their keys.
    pub fn to_vec(&self) -> (r: Vec<Entry>)
        requires
            self.wf(),
        ensures
            lists(r@, self.map()),
    {
        let mut out: Vec<Entry> = Vec::new();
        let iter = self.entries.iter();
        let ghost pairs = vstd::std_specs::iter::IteratorSpec::remaining(&iter);
        for pair in it: iter
            invariant
                self.wf(),
                out@.len() == it.index(),
                it.seq() == pairs,
                forall|i: int| 0 <= i < out@.len() ==> #[trigger] out@[i] == *pairs[i].1,
        {
            out.push(*pair.1);
        }
        proof {
            let numbers = pairs.map_values(|kv: (&u128, &Entry)| *kv.0);
            lemma_increasing(numbers);
            assert forall|i: int| 0 <= i < pairs.len() implies {
                &&& self.entries@.contains_key(*(#[trigger] pairs[i]).0)
                &&& self.entries@[*pairs[i].0] == *pairs[i].1
                &&& pairs[i].1.key.order() == *pairs[i].0
            } by {
                assert(self.entries@.contains_key(*pairs[i].0));
            }
            assert forall|i: int, j: int| 0 <= i < j < out@.len() implies (
            #[trigger] out@[i]).key.order() < (#[trigger] out@[j]).key.order() by {
                assert(numbers[i] == *pairs[i].0);
                assert(numbers[j] == *pairs[j].0);
            }
            assert forall|i: int| 0 <= i < out@.len() implies {
                &&& self.map().contains_key((#[trigger] out@[i]).key)
                &&& self.map()[out@[i].key] == out@[i]
            } by {
                assert(self.entries@.contains_key(*pairs[i].0));
            }
            assert forall|key: VoxelKey| #[trigger] self.map().contains_key(key) implies exists|
                i: int,
            |
                0 <= i < out@.len() && (#[trigger] out@[i]).key == key by {
                let number = key.order() as u128;
                assert(self.entries@.contains_key(number));
                assert(pairs.contains((&number, &self.entries@[number])));
                let i = choose|i: int|
                    0 <= i < pairs.len() && pairs[i] == (&number, &self.entries@[number]);
                lemma_order_injective(key, self.entries@[number].key);
                assert(out@[i].key == key);
            }
        }
        out
    }
}

/// The number of points that the entry itself holds.
pub open spec fn entry_points(entry: Entry) -> nat {
    if entry.point_count > 0 {
        entry.point_count as nat
    } else {
        0
    }
}

/// The number of points that the entries hold.
pub open spec fn points_in(entries: Seq<Entry>) -> nat
    decreases entries.len(),
{
    if entries.len() == 0 {
        0
    } else {
        points_in(entries.drop_last()) + entry_points(entries.last())
    }
}

/// The number of points that the entries of a map hold.
pub open spec fn point_total(map: Map<VoxelKey, Entry>) -> nat
    decreases map.dom().len(),
    when map.dom().finite()
{
    if map.dom().len() == 0 {
        0
    } else {
        let key = map.dom().choose();
        entry_points(map[key]) + point_total(map.remove(key))
    }
}

pub proof fn lemma_point_total_remove(map: Map<VoxelKey, Entry>, key: VoxelKey)
    requires
        map.dom().finite(),
        map.contains_key(key),
    ensures
        point_total(map) == entry_points(map[key]) + point_total(map.remove(key)),
    decreases map.dom().len(),
{
    let first = map.dom().choose();
    if first != key {
        lemma_point_total_remove(map.remove(first), key);
        lemma_point_total_remove(map.remove(key), first);
        assert(map.remove(first).remove(key) =~= map.remove(key).remove(first));
    }
}

/// A listing of a map holds the points of the map.
pub proof fn lemma_points_of_listing(entries: Seq<Entry>, map: Map<VoxelKey, Entry>)
    requires
        lists(entries, map),
        map.dom().finite(),
    ensures
        points_in(entries) == point_total(map),
        entries.len() == map.dom().len(),
    decreases entries.len(),
{
    if entries.len() == 0 {
        assert(map.dom() =~= Set::empty());
    } else {
        let rest = entries.drop_last();
        let last = entries.last();
        assert(last == entries[entries.len() - 1]);
        let smaller = map.remove(last.key);
        assert(lists(rest, smaller)) by {
            assert forall|i: int| 0 <= i < rest.len() implies {
                &&& smaller.contains_key((#[trigger] rest[i]).key)
                &&& smaller[rest[i].key] == rest[i]
            } by {
                assert(rest[i] == entries[i]);
                assert(entries[i].key.order() < last.key.order());
            }
            assert forall|key: VoxelKey| #[trigger] smaller.contains_key(key) implies exists|
                i: int,
            |
                0 <= i < rest.len() && (#[trigger] rest[i]).key == key by {
                assert(map.contains_key(key));
                let i = choose|i: int|
                    0 <= i < entries.len() && (#[trigger] entries[i]).key == key;
                assert(rest[i].key == key);
            }
            assert forall|i: int, j: int| 0 <= i < j < rest.len() implies (
            #[trigger] rest[i]).key.order() < (#[trigger] rest[j]).key.order() by {
                assert(rest[i] == entries[i] && rest[j] == entries[j]);
            }
        }
        lemma_points_of_listing(rest, smaller);
        lemma_point_total_remove(map, last.key);
    }
}

/// Byte ranges of hierarchy pages, by offset and size.
#[derive(Clone, Debug)]
pub struct PageSet {
    pages: BTreeSet<u128>,
}

spec fn page_number(offset: u64, size: u64) -> int {
    offset * 0x1_0000_0000_0000_0000 + size
}

impl View for PageSet {
    type V = Set<(u64, u64)>;

    closed spec fn view(&self) -> Set<(u64, u64)> {
        Set::new(|page: (u64, u64)| self.pages@.contains(page_number(page.0, page.1) as u128))
    }
}

impl PageSet {
    pub fn new() -> (r: PageSet)
        ensures
            r@ == Set::<(u64, u64)>::empty(),
    {
        let r = PageSet { pages: BTreeSet::new() };
        proof {
            assert(r@ =~= Set::<(u64, u64)>::empty());
        }
        r
    }

    /// Adds a page; true if it was not there yet.
    pub fn insert(&mut self, offset: u64, size: u64) -> (r: bool)
        ensures
            final(self)@ == old(self)@.insert((offset, size)),
            r == !old(self)@.contains((offset, size)),
    {
        let number: u128 = offset as u128 * 0x1_0000_0000_0000_0000 + size as u128;
        let added = self.pages.insert(number);
        proof {
            assert(self@ =~= old(self)@.insert((offset, size)));
        }
        added
    }
}

/// An entry counts for its points; one that leads to a page and one without points count for
/// nothing.
pub proof fn law_points_of_an_entry(entry: Entry)
    ensures
        entry.point_count >= 0 ==> entry_points(entry) == entry.point_count,
        entry.point_count < 0 ==> entry_points(entry) == 0,
        points_in(seq![entry]) == entry_points(entry),
        points_in(Seq::empty()) == 0,
{
    assert(seq![entry].drop_last() =~= Seq::empty());
    assert(points_in(seq![entry].drop_last()) == 0);
}

/// Two lists of entries together count for the points of both.
pub proof fn law_points_joined(a: Seq<Entry>, b: Seq<Entry>)
    ensures
        points_in(a + b) == points_in(a) + points_in(b),
    decreases b.len(),
{
    if b.len() > 0 {
        law_points_joined(a, b.drop_last());
        assert((a + b).drop_last() =~= a + b.drop_last());
        assert((a + b).last() == b.last());
    } else {
        assert(a + b =~= a);
    }
}

/// A new entry adds its points to those of a map.
pub proof fn law_total_with_one_more(map: Map<VoxelKey, Entry>, key: VoxelKey, entry: Entry)
    requires
        map.dom().finite(),
        !map.contains_key(key),
    ensures
        point_total(map.insert(key, entry)) == point_total(map) + entry_points(entry),
        point_total(Map::empty()) == 0,
{
    lemma_point_total_remove(map.insert(key, entry), key);
    assert(map.insert(key, entry).remove(key) =~= map);
}

/// A listing goes by level, then by x, y and z, holds the entry of each key, and no others.
pub proof fn law_listing(entries: Seq<Entry>, map: Map<VoxelKey, Entry>, i: int, j: int)
    requires
        lists(entries, map),
        0 <= i < j < entries.len(),
        entries[i].key.nonnegative(),
        entries[j].key.nonnegative(),
    ensures
        ({
            let a = entries[i].key;
            let b = entries[j].key;
            ||| a.level < b.level
            ||| a.level == b.level && a.x < b.x
            ||| a.level == b.level && a.x == b.x && a.y < b.y
            ||| a.level == b.level && a.x == b.x && a.y == b.y && a.z < b.z
        }),
        map.contains_key(entries[i].key) && map[entries[i].key] == entries[i],
{
    law_order_is_lexicographic(entries[i].key, entries[j].key);
    assert(entries[i].key.order() < entries[j].key.order());
}

/// Every entry of a map is listed.
pub proof fn law_listing_is_whole(
    entries: Seq<Entry>,
    map: Map<VoxelKey, Entry>,
    key: VoxelKey,
)
    requires
        lists(entries, map),
        map.contains_key(key),
    ensures
        entries.contains(map[key]),
{
    let i = choose|i: int| 0 <= i < entries.len() && (#[trigger] entries[i]).key == key;
    assert(entries[i] == map[key]);
}

} // verus!
