//! Entries in the order of their data in the file.

use vstd::prelude::*;

use crate::hierarchy::{Entry, VoxelKey};

verus! {

broadcast use {
    vstd::seq_lib::group_to_multiset_ensures,
    vstd::multiset::group_multiset_axioms,
};

/// Whether `a` comes before `b`, or is at the same place: by offset, then by the parts of
/// the key.
pub open spec fn not_after(a: Entry, b: Entry) -> bool {
    ||| a.offset < b.offset
    ||| a.offset == b.offset && key_not_after(a.key, b.key)
}

/// Keys by level, then x, y and z.
pub open spec fn key_not_after(a: VoxelKey, b: VoxelKey) -> bool {
    ||| a.level < b.level
    ||| a.level == b.level && a.x < b.x
    ||| a.level == b.level && a.x == b.x && a.y < b.y
    ||| a.level == b.level && a.x == b.x && a.y == b.y && a.z <= b.z
}

pub open spec fn sorted(entries: Seq<Entry>) -> bool {
    forall|i: int, j: int|
        0 <= i <= j < entries.len() ==> not_after(#[trigger] entries[i], #[trigger] entries[j])
}

/// The data of no entry lie before those of the one in front of it.
pub open spec fn by_offset(entries: Seq<Entry>) -> bool {
    forall|i: int, j: int|
        0 <= i <= j < entries.len() ==> (#[trigger] entries[i]).offset <= (
        #[trigger] entries[j]).offset
}

/// Whether a key comes before another, or is the same.
pub fn key_is_not_after(a: VoxelKey, b: VoxelKey) -> (r: bool)
    ensures
        r == key_not_after(a, b),
{
    if a.level != b.level {
        a.level < b.level
    } else if a.x != b.x {
        a.x < b.x
    } else if a.y != b.y {
        a.y < b.y
    } else {
        a.z <= b.z
    }
}

fn is_not_after(a: &Entry, b: &Entry) -> (r: bool)
    ensures
        r == not_after(*a, *b),
{
    if a.offset != b.offset {
        a.offset < b.offset
    } else {
        key_is_not_after(a.key, b.key)
    }
}

/// Both parts are sorted; every entry of the result comes from one of them.
fn merge(a: &[Entry], b: &[Entry]) -> (r: Vec<Entry>)
    requires
        sorted(a@),
        sorted(b@),
    ensures
        sorted(r@),
        r@.to_multiset() =~= a@.to_multiset().add(b@.to_multiset()),
{
    let mut out: Vec<Entry> = Vec::new();
    let mut i: usize = 0;
    let mut j: usize = 0;
    proof {
        assert(a@.subrange(0, 0) =~= Seq::empty());
        assert(b@.subrange(0, 0) =~= Seq::empty());
        assert(out@ =~= Seq::empty());
    }
    while i < a.len() || j < b.len()
        invariant
            i <= a@.len(),
            j <= b@.len(),
            sorted(a@),
            sorted(b@),
            sorted(out@),
            out@.to_multiset() =~= a@.subrange(0, i as int).to_multiset().add(
                b@.subrange(0, j as int).to_multiset(),
            ),
            forall|k: int, m: int|
                0 <= k < out@.len() && i <= m < a@.len() ==> not_after(
                    #[trigger] out@[k],
                    #[trigger] a@[m],
                ),
            forall|k: int, m: int|
                0 <= k < out@.len() && j <= m < b@.len() ==> not_after(
                    #[trigger] out@[k],
                    #[trigger] b@[m],
                ),
        decreases a@.len() - i + b@.len() - j,
    {
        let take_a = if i == a.len() {
            false
        } else if j == b.len() {
            true
        } else {
            is_not_after(&a[i], &b[j])
        };
        if take_a {
            proof {
                assert(a@.subrange(0, i + 1) =~= a@.subrange(0, i as int).push(a@[i as int]));
            }
            let ghost before = out@;
            out.push(a[i]);
            proof {
                assert(out@.to_multiset() =~= before.to_multiset().insert(a@[i as int]));
            }
            i = i + 1;
        } else {
            proof {
                assert(b@.subrange(0, j + 1) =~= b@.subrange(0, j as int).push(b@[j as int]));
            }
            let ghost before = out@;
            out.push(b[j]);
            proof {
                assert(out@.to_multiset() =~= before.to_multiset().insert(b@[j as int]));
            }
            j = j + 1;
        }
    }
    proof {
        assert(a@.subrange(0, a@.len() as int) =~= a@);
        assert(b@.subrange(0, b@.len() as int) =~= b@);
    }
    out
}

/// The entries in order; the same ones, as often as they occur.
pub fn sort_by_offset(entries: &[Entry]) -> (r: Vec<Entry>)
    ensures
        sorted(r@),
        r@.to_multiset() =~= entries@.to_multiset(),
    decreases entries@.len(),
{
    let len: usize = entries.len();
    if len <= 1 {
        let mut out: Vec<Entry> = Vec::new();
        if len == 1 {
            out.push(entries[0]);
        }
        proof {
            assert(out@ =~= entries@);
        }
        return out;
    }
    let half: usize = len / 2;
    let low = vstd::slice::slice_subrange(entries, 0, half);
    let high = vstd::slice::slice_subrange(entries, half, len);
    let first = sort_by_offset(low);
    let second = sort_by_offset(high);
    proof {
        assert(entries@ =~= low@ + high@);
        vstd::seq_lib::lemma_multiset_commutative(low@, high@);
    }
    merge(first.as_slice(), second.as_slice())
}

/// An entry is in the sorted sequence exactly where it was in the other.
pub proof fn lemma_same_members(a: Seq<Entry>, b: Seq<Entry>, entry: Entry)
    requires
        a.to_multiset() =~= b.to_multiset(),
    ensures
        a.contains(entry) <==> b.contains(entry),
        a.len() == b.len(),
{
    assert(a.to_multiset().contains(entry) <==> b.to_multiset().contains(entry));
    assert(a.to_multiset().len() == b.to_multiset().len());
}

/// Entries in order have their data one after the other in the file, and where two stand at one
/// place, go by their keys.
pub proof fn law_sorted(entries: Seq<Entry>, i: int, j: int)
    requires
        sorted(entries),
        0 <= i < j < entries.len(),
    ensures
        entries[i].offset <= entries[j].offset,
        entries[i].offset == entries[j].offset ==> entries[i].key.level <= entries[j].key.level,
        entries[i].offset == entries[j].offset && entries[i].key.nonnegative()
            && entries[j].key.nonnegative() ==> entries[i].key.order() <= entries[j].key.order(),
{
    assert(not_after(entries[i], entries[j]));
    if entries[i].key.nonnegative() && entries[j].key.nonnegative() {
        crate::index::law_order_is_lexicographic(entries[j].key, entries[i].key);
    }
}

/// The order of entries is total: of two, one does not come after the other, and both only
/// where they have one key and one place.
pub proof fn law_order_of_entries(a: Entry, b: Entry, c: Entry)
    ensures
        not_after(a, b) || not_after(b, a),
        not_after(a, b) && not_after(b, a) ==> a.key == b.key && a.offset == b.offset,
        not_after(a, b) && not_after(b, c) ==> not_after(a, c),
{
}

} // verus!
