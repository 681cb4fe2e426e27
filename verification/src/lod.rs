//! Spreading points over the nodes of an octree.

use vstd::prelude::*;

use crate::cancel::{CancelCheck, CANCEL_POLL_STRIDE};
use crate::error::{Error, Fault, Result};
use crate::float::F64;
use crate::hierarchy;
use crate::hierarchy::VoxelKey;
use crate::page_tree;
use crate::pages;
use crate::seqs;
use crate::sort;

verus! {

broadcast use {
    vstd::seq_lib::group_to_multiset_ensures,
    vstd::multiset::group_multiset_axioms,
};

/// The level below which nodes are not split any more.
pub const MAX_OCTREE_DEPTH: i32 = 30;

/// What [`child_octant`] answers: one bit for each axis, set where the point does not lie below
/// the middle.
pub open spec fn octant_of(center: (F64, F64, F64), x: F64, y: F64, z: F64) -> int {
    (if center.0.le(x) {
        1int
    } else {
        0
    }) + (if center.1.le(y) {
        2int
    } else {
        0
    }) + (if center.2.le(z) {
        4int
    } else {
        0
    })
}

/// The octant of a node with this middle in which a point lies.
pub fn child_octant(center: (F64, F64, F64), x: F64, y: F64, z: F64) -> (r: u8)
    ensures
        r == octant_of(center, x, y, z),
        r < 8,
{
    let mut octant: u8 = 0;
    if center.0.is_at_most(x) {
        octant = octant + 1;
    }
    if center.1.is_at_most(y) {
        octant = octant + 2;
    }
    if center.2.is_at_most(z) {
        octant = octant + 4;
    }
    octant
}

/// Tells in which octant of a node a point lies. Unless a type says otherwise, it may fail
/// in any way.
pub trait OctantSource {
    /// How many points there are.
    open spec fn points(&self) -> nat {
        arbitrary()
    }

    /// The octant of the node `key` in which the point lies, if it lies in the node.
    open spec fn octant_at(&self, index: u32, key: VoxelKey) -> u8 {
        arbitrary()
    }

    /// Whether the source may fail with this error.
    open spec fn may_fail(&self, error: Error) -> bool {
        true
    }

    fn octant(&self, index: u32, key: VoxelKey) -> (r: Result<u8>)
        requires
            index < self.points(),
            0 <= key.level < MAX_OCTREE_DEPTH,
        ensures
            match r {
                Ok(octant) => octant < 8 && octant == self.octant_at(index, key),
                Err(error) => self.may_fail(error),
            },
    ;
}

/// Points by the octants that they lie in: three bits for each level, the lowest ones for
/// the root.
#[derive(Clone, Debug)]
pub struct OctantPaths {
    pub paths: Vec<u128>,
}

/// Eight to the power of `n`.
pub open spec fn pow8(n: nat) -> nat
    decreases n,
{
    if n == 0 {
        1
    } else {
        8 * pow8((n - 1) as nat)
    }
}

proof fn lemma_pow8_positive(n: nat)
    ensures
        pow8(n) > 0,
    decreases n,
{
    if n > 0 {
        lemma_pow8_positive((n - 1) as nat);
    }
}

impl OctantSource for OctantPaths {
    open spec fn points(&self) -> nat {
        self.paths@.len()
    }

    open spec fn octant_at(&self, index: u32, key: VoxelKey) -> u8 {
        (self.paths@[index as int] as int / pow8(key.level as nat) as int % 8) as u8
    }

    open spec fn may_fail(&self, error: Error) -> bool {
        false
    }

    fn octant(&self, index: u32, key: VoxelKey) -> (r: Result<u8>) {
        let path: u128 = self.paths[index as usize];
        let mut rest: u128 = path;
        let mut level: i32 = 0;
        proof {
            vstd::arithmetic::div_mod::lemma_div_basics(path as int);
        }
        while level < key.level
            invariant
                0 <= level <= key.level,
                rest as int == path as int / pow8(level as nat) as int,
            decreases key.level - level,
        {
            proof {
                lemma_pow8_positive(level as nat);
                vstd::arithmetic::div_mod::lemma_div_denominator(
                    path as int,
                    pow8(level as nat) as int,
                    8,
                );
                assert(pow8((level + 1) as nat) == 8 * pow8(level as nat));
            }
            rest = rest / 8;
            level = level + 1;
        }
        Ok((rest % 8) as u8)
    }
}

/// A list of point indices, in memory or elsewhere. Unless a type says otherwise, each call
/// may fail in any way.
pub trait IndexRun: Sized {
    /// The indices.
    open spec fn content(&self) -> Seq<u32> {
        arbitrary()
    }

    /// Whether the list may fail with this error.
    open spec fn may_fail(error: Error) -> bool {
        true
    }

    /// An empty list.
    fn create() -> (r: Result<Self>)
        ensures
            match r {
                Ok(run) => run.content() == Seq::<u32>::empty(),
                Err(error) => Self::may_fail(error),
            },
    ;

    fn len(&self) -> (r: usize)
        ensures
            r == self.content().len(),
    ;

    fn get(&mut self, i: usize) -> (r: Result<u32>)
        requires
            i < old(self).content().len(),
        ensures
            final(self).content() == old(self).content(),
            match r {
                Ok(index) => index == old(self).content()[i as int],
                Err(error) => Self::may_fail(error),
            },
    ;

    fn push(&mut self, index: u32) -> (r: Result<()>)
        ensures
            match r {
                Ok(_) => final(self).content() == old(self).content().push(index),
                Err(error) => Self::may_fail(error),
            },
    ;
}

/// A list of point indices in memory.
#[derive(Clone, Debug)]
pub struct MemoryRun {
    pub indices: Vec<u32>,
}

impl IndexRun for MemoryRun {
    open spec fn content(&self) -> Seq<u32> {
        self.indices@
    }

    open spec fn may_fail(error: Error) -> bool {
        false
    }

    fn create() -> (r: Result<Self>) {
        Ok(MemoryRun { indices: Vec::new() })
    }

    fn len(&self) -> (r: usize) {
        self.indices.len()
    }

    fn get(&mut self, i: usize) -> (r: Result<u32>) {
        Ok(self.indices[i])
    }

    fn push(&mut self, index: u32) -> (r: Result<()>) {
        self.indices.push(index);
        Ok(())
    }
}

/// A node and its points, by their place in the order of all points.
#[derive(Clone, Copy, Debug, PartialEq, Eq, Structural)]
pub struct LodNodeRange {
    pub key: VoxelKey,
    pub start: usize,
    pub count: usize,
}

/// A node and the indices of its points.
#[verifier::ext_equal]
pub struct LodModel {
    pub key: VoxelKey,
    pub points: Seq<u32>,
}

/// The nodes of an octree. Each point is in one of them.
#[derive(Clone, Debug)]
pub struct LodIndex<R> {
    pub nodes: Vec<LodNodeRange>,
    pub order: R,
}

/// Whether the nodes' ranges lie in the order.
pub open spec fn in_order(nodes: Seq<LodNodeRange>, order: Seq<u32>) -> bool {
    forall|i: int| 0 <= i < nodes.len() ==> (#[trigger] nodes[i]).start + nodes[i].count
        <= order.len()
}

pub open spec fn lod_models(nodes: Seq<LodNodeRange>, order: Seq<u32>) -> Seq<LodModel> {
    Seq::new(
        nodes.len(),
        |i: int|
            LodModel {
                key: nodes[i].key,
                points: order.subrange(
                    nodes[i].start as int,
                    nodes[i].start + nodes[i].count,
                ),
            },
    )
}

/// Whether a point lies in an octant of `key`.
pub open spec fn lies_in<S: OctantSource>(source: S, key: VoxelKey, o: int) -> spec_fn(u32) -> bool {
    |index: u32| source.octant_at(index, key) == o
}

/// The points of a run that lie in one octant.
pub open spec fn part_of<S: OctantSource>(source: S, key: VoxelKey, run: Seq<u32>, o: int) -> Seq<
    u32,
> {
    run.filter(lies_in(source, key, o))
}

/// The points of a run by octant.
pub open spec fn parts_of<S: OctantSource>(source: S, key: VoxelKey, run: Seq<u32>) -> Seq<
    Seq<u32>,
> {
    Seq::new(8, |o: int| part_of(source, key, run, o))
}

/// The points that are picked up to place `k` of the round: the first of each octant in turn,
/// then the second ones, and so on.
pub open spec fn picked(parts: Seq<Seq<u32>>, k: int) -> Seq<u32>
    decreases k,
{
    if k <= 0 {
        Seq::empty()
    } else {
        let o = (k - 1) % 8;
        let r = (k - 1) / 8;
        if r < parts[o].len() {
            picked(parts, k - 1).push(parts[o][r])
        } else {
            picked(parts, k - 1)
        }
    }
}

/// How many points of octant `o` are picked up to place `k`.
pub open spec fn taken(parts: Seq<Seq<u32>>, k: int, o: int) -> int {
    let rounds = (k - o + 7) / 8;
    if rounds < parts[o].len() {
        rounds
    } else {
        parts[o].len() as int
    }
}

/// The place from `k` on where `max` points are picked. `n` is the number of points.
pub open spec fn stop(parts: Seq<Seq<u32>>, max: int, n: int, k: int) -> int
    decreases 8 * n - k,
{
    if k >= 8 * n || picked(parts, k).len() >= max {
        k
    } else {
        stop(parts, max, n, k + 1)
    }
}

/// What is left of octant `o` behind place `k`.
pub open spec fn left(parts: Seq<Seq<u32>>, k: int, o: int) -> Seq<u32> {
    parts[o].skip(taken(parts, k, o))
}

/// The nodes for a run of points under `key`. A node of too many points keeps some of each
/// octant, and the others go to its children.
pub open spec fn lod_of<S: OctantSource>(source: S, key: VoxelKey, run: Seq<u32>, max: usize) -> Result<
    Seq<LodModel>,
>
    decreases MAX_OCTREE_DEPTH - key.level, 10int,
{
    if run.len() == 0 {
        Ok(Seq::empty())
    } else if run.len() <= max {
        Ok(seq![LodModel { key, points: run }])
    } else if key.level >= MAX_OCTREE_DEPTH {
        Err(
            Error::InvalidInput(
                Fault::MaximumDepth { key, count: run.len() as usize, budget: max },
            ),
        )
    } else {
        let parts = parts_of(source, key, run);
        let k = stop(parts, max as int, run.len() as int, 0);
        match lod_children(source, key, parts, k, max, 8) {
            Err(error) => Err(error),
            Ok(nodes) => Ok(seq![LodModel { key, points: picked(parts, k) }] + nodes),
        }
    }
}

/// The nodes for what is left of the first `n` octants.
pub open spec fn lod_children<S: OctantSource>(
    source: S,
    key: VoxelKey,
    parts: Seq<Seq<u32>>,
    k: int,
    max: usize,
    n: nat,
) -> Result<Seq<LodModel>>
    decreases MAX_OCTREE_DEPTH - key.level, n,
    when n <= 8 && key.level < MAX_OCTREE_DEPTH
{
    if n == 0 {
        Ok(Seq::empty())
    } else {
        match lod_children(source, key, parts, k, max, (n - 1) as nat) {
            Err(error) => Err(error),
            Ok(before) => if left(parts, k, n - 1).len() == 0 {
                Ok(before)
            } else {
                match key.child_spec((n - 1) as u8) {
                    Err(error) => Err(error),
                    Ok(child) => match lod_of(source, child, left(parts, k, n - 1), max) {
                        Err(error) => Err(error),
                        Ok(more) => Ok(before + more),
                    },
                }
            },
        }
    }
}

/// What is left of the first `o` octants, all together.
spec fn bag(parts: Seq<Seq<u32>>, k: int, o: nat) -> vstd::multiset::Multiset<u32>
    decreases o,
{
    if o == 0 {
        vstd::multiset::Multiset::empty()
    } else {
        bag(parts, k, (o - 1) as nat).add(left(parts, k, o - 1).to_multiset())
    }
}

/// A step of the round takes a point from its octant, and nothing from the others.
proof fn lemma_bag_step(parts: Seq<Seq<u32>>, k: int, o: nat)
    requires
        parts.len() == 8,
        k > 0,
        o <= 8,
    ensures
        ({
            let at = (k - 1) % 8;
            let r = (k - 1) / 8;
            if at < o && r < parts[at].len() {
                bag(parts, k - 1, o) =~= bag(parts, k, o).insert(parts[at][r])
            } else {
                bag(parts, k - 1, o) =~= bag(parts, k, o)
            }
        }),
    decreases o,
{
    let at = (k - 1) % 8;
    let r = (k - 1) / 8;
    if o > 0 {
        lemma_bag_step(parts, k, (o - 1) as nat);
        let before = left(parts, k - 1, o - 1);
        let after = left(parts, k, o - 1);
        if at == o - 1 {
            assert(taken(parts, k - 1, at) == if r < parts[at].len() {
                r
            } else {
                parts[at].len() as int
            });
            if r < parts[at].len() {
                assert(taken(parts, k, at) == r + 1);
                assert(before =~= seq![parts[at][r]] + after);
                vstd::seq_lib::lemma_multiset_commutative(seq![parts[at][r]], after);
                assert(seq![parts[at][r]] =~= Seq::empty().push(parts[at][r]));
                assert(seq![parts[at][r]].to_multiset() =~= Seq::<u32>::empty().to_multiset().insert(
                    parts[at][r],
                ));
                assert(before.to_multiset() =~= after.to_multiset().insert(parts[at][r]));
            }
        } else {
            assert(taken(parts, k - 1, o - 1) == taken(parts, k, o - 1));
        }
    }
}

/// What is picked and what is left is what there was.
proof fn lemma_nothing_lost(parts: Seq<Seq<u32>>, k: int)
    requires
        parts.len() == 8,
        k >= 0,
    ensures
        picked(parts, k).to_multiset().add(bag(parts, k, 8)) =~= bag(parts, 0, 8),
    decreases k,
{
    if k > 0 {
        lemma_nothing_lost(parts, k - 1);
        lemma_bag_step(parts, k, 8);
        let at = (k - 1) % 8;
        let r = (k - 1) / 8;
        if r < parts[at].len() {
            assert(picked(parts, k).to_multiset() =~= picked(parts, k - 1).to_multiset().insert(
                parts[at][r],
            ));
        }
    } else {
        assert(picked(parts, 0) =~= Seq::empty());
    }
}

/// The octants together hold the run.
proof fn lemma_parts<S: OctantSource>(source: S, key: VoxelKey, run: Seq<u32>)
    requires
        forall|i: int| 0 <= i < run.len() ==> source.octant_at(#[trigger] run[i], key) < 8,
    ensures
        bag(parts_of(source, key, run), 0, 8) =~= run.to_multiset(),
    decreases run.len(),
{
    let parts = parts_of(source, key, run);
    reveal_with_fuel(bag, 9);
    assert forall|o: int| 0 <= o < 8 implies #[trigger] left(parts, 0, o) == parts[o] by {
        assert(taken(parts, 0, o) == 0);
        assert(parts[o].skip(0) =~= parts[o]);
    }
    if run.len() == 0 {
        assert forall|o: int| 0 <= o < 8 implies #[trigger] parts[o] == Seq::<u32>::empty() by {
            seqs::lemma_filter_empty(lies_in(source, key, o));
            assert(run =~= Seq::empty());
        }
        assert(run =~= Seq::empty());
    } else {
        let rest = run.drop_last();
        let last = run.last();
        assert(run[run.len() - 1] == last);
        assert forall|i: int| 0 <= i < rest.len() implies source.octant_at(
            #[trigger] rest[i],
            key,
        ) < 8 by {
            assert(run[i] == rest[i]);
        }
        lemma_parts(source, key, rest);
        let before = parts_of(source, key, rest);
        assert forall|o: int| 0 <= o < 8 implies #[trigger] left(before, 0, o) == before[o] by {
            assert(taken(before, 0, o) == 0);
            assert(before[o].skip(0) =~= before[o]);
        }
        assert(run =~= rest.push(last));
        assert forall|o: int| 0 <= o < 8 implies #[trigger] parts[o] == (if source.octant_at(
            last,
            key,
        ) == o {
            before[o].push(last)
        } else {
            before[o]
        }) by {
            seqs::lemma_filter_push(
                rest,
                last,
                lies_in(source, key, o),
            );
        }
        assert(run.to_multiset() =~= rest.to_multiset().insert(last));
        assert(bag(parts, 0, 8) =~= bag(before, 0, 8).insert(last));
    }
}

/// Behind the last place of the round nothing is left.
proof fn lemma_all_taken(parts: Seq<Seq<u32>>, n: int, k: int, o: nat)
    requires
        parts.len() == 8,
        o <= 8,
        k >= 8 * n,
        forall|i: int| 0 <= i < 8 ==> (#[trigger] parts[i]).len() <= n,
    ensures
        bag(parts, k, o) =~= vstd::multiset::Multiset::<u32>::empty(),
    decreases o,
{
    if o > 0 {
        lemma_all_taken(parts, n, k, (o - 1) as nat);
        assert(parts[o - 1].len() <= n);
        assert(taken(parts, k, o - 1) == parts[o - 1].len());
        assert(left(parts, k, o - 1) =~= Seq::empty());
    }
}

/// So many points are picked in the end as are asked for, where there are more.
proof fn lemma_stop<S: OctantSource>(source: S, key: VoxelKey, run: Seq<u32>, max: int, k: int)
    requires
        0 <= max < run.len(),
        0 <= k,
        forall|i: int| 0 <= i < run.len() ==> source.octant_at(#[trigger] run[i], key) < 8,
        picked(parts_of(source, key, run), k).len() <= max,
    ensures
        ({
            let parts = parts_of(source, key, run);
            let end = stop(parts, max, run.len() as int, k);
            &&& k <= end
            &&& picked(parts, end).len() == max
        }),
    decreases 8 * run.len() - k,
{
    let parts = parts_of(source, key, run);
    let n = run.len() as int;
    if k >= 8 * n {
        assert forall|i: int| 0 <= i < 8 implies (#[trigger] parts[i]).len() <= n by {
            lemma_filter_len(run, lies_in(source, key, i));
        }
        lemma_all_taken(parts, n, k, 8);
        lemma_nothing_lost(parts, k);
        lemma_parts(source, key, run);
        assert(picked(parts, k).to_multiset().len() == run.to_multiset().len());
        assert(false);
    } else if picked(parts, k).len() < max {
        assert(picked(parts, k + 1).len() <= picked(parts, k).len() + 1);
        lemma_stop(source, key, run, max, k + 1);
    }
}

proof fn lemma_filter_len(s: Seq<u32>, f: spec_fn(u32) -> bool)
    ensures
        s.filter(f).len() <= s.len(),
    decreases s.len(),
{
    reveal(Seq::filter);
    if s.len() > 0 {
        lemma_filter_len(s.drop_last(), f);
    }
}

pub open spec fn views<R: IndexRun>(groups: Seq<R>) -> Seq<Seq<u32>> {
    Seq::new(groups.len(), |o: int| groups[o].content())
}

/// Splits a run of points by octant.
fn partition_index_run<S: OctantSource, R: IndexRun, C: CancelCheck>(
    source: &S,
    run: &mut R,
    from: usize,
    key: VoxelKey,
    cancel: &C,
) -> (r: Result<Vec<R>>)
    requires
        0 <= key.level < MAX_OCTREE_DEPTH,
        from <= old(run).content().len(),
        forall|i: int|
            0 <= i < old(run).content().len() ==> #[trigger] old(run).content()[i]
                < source.points(),
    ensures
        final(run).content() == old(run).content(),
        match r {
            Ok(groups) => {
                let points = old(run).content().skip(from as int);
                &&& views(groups@) == parts_of(*source, key, points)
                &&& forall|i: int|
                    0 <= i < points.len() ==> source.octant_at(#[trigger] points[i], key) < 8
            },
            Err(error) => cancel.may_answer(error) || source.may_fail(error) || R::may_fail(error),
        },
{
    let ghost points = run.content().skip(from as int);
    let mut groups: Vec<R> = Vec::new();
    let mut o: usize = 0;
    while o < 8
        invariant
            o <= 8,
            run.content() == old(run).content(),
            groups@.len() == o,
            forall|k: int| 0 <= k < o ==> (#[trigger] groups@[k]).content() == Seq::<u32>::empty(),
        decreases 8 - o,
    {
        let group = R::create()?;
        groups.push(group);
        o = o + 1;
    }
    let total: usize = run.len();
    let count: usize = total - from;
    let mut i: usize = 0;
    proof {
        assert(points.subrange(0, 0) =~= Seq::empty());
        assert forall|k: int| 0 <= k < 8 implies (#[trigger] groups@[k]).content() == parts_of(
            *source,
            key,
            points.subrange(0, 0),
        )[k] by {
            seqs::lemma_filter_empty(lies_in(*source, key, k));
        }
    }
    while i < count
        invariant
            i <= count,
            count == points.len(),
            from + count == total,
            total == run.content().len(),
            run.content() == old(run).content(),
            points == old(run).content().skip(from as int),
            0 <= key.level < MAX_OCTREE_DEPTH,
            forall|k: int|
                0 <= k < old(run).content().len() ==> #[trigger] old(run).content()[k]
                    < source.points(),
            groups@.len() == 8,
            forall|k: int| 0 <= k < i ==> source.octant_at(#[trigger] points[k], key) < 8,
            forall|k: int|
                0 <= k < 8 ==> (#[trigger] groups@[k]).content() == parts_of(
                    *source,
                    key,
                    points.subrange(0, i as int),
                )[k],
        decreases count - i,
    {
        if i % CANCEL_POLL_STRIDE == 0 {
            cancel.check()?;
        }
        let index: u32 = run.get(from + i)?;
        proof {
            assert(points[i as int] == old(run).content()[from + i]);
        }
        let octant: u8 = source.octant(index, key)?;
        let ghost seen = points.subrange(0, i as int);
        let ghost before = groups@;
        groups[octant as usize].push(index)?;
        proof {
            assert(points.subrange(0, i + 1) =~= seen.push(index));
            assert forall|k: int| 0 <= k < 8 implies (#[trigger] groups@[k]).content() == parts_of(
                *source,
                key,
                points.subrange(0, i + 1),
            )[k] by {
                seqs::lemma_filter_push(seen, index, lies_in(*source, key, k));
                if k == octant {
                    assert(groups@[k].content() == before[k].content().push(index));
                } else {
                    assert(groups@[k] == before[k]);
                }
            }
        }
        i = i + 1;
    }
    proof {
        assert(points.subrange(0, points.len() as int) =~= points);
        assert(views(groups@) =~= parts_of(*source, key, points));
    }
    Ok(groups)
}

/// Picks points for a node from its octants in turn. Appends them to the order, and returns
/// how many were picked from each octant.
fn append_lod_selection_to_order<S: OctantSource, R: IndexRun, C: CancelCheck>(
    source: &S,
    key: VoxelKey,
    Ghost(run): Ghost<Seq<u32>>,
    groups: &mut Vec<R>,
    max_points_per_node: usize,
    order: &mut R,
    cancel: &C,
) -> (r: Result<Vec<usize>>)
    requires
        views(old(groups)@) == parts_of(*source, key, run),
        forall|i: int| 0 <= i < run.len() ==> source.octant_at(#[trigger] run[i], key) < 8,
        max_points_per_node < run.len() <= usize::MAX,
    ensures
        views(final(groups)@) == views(old(groups)@),
        match r {
            Ok(counts) => {
                let parts = parts_of(*source, key, run);
                let k = stop(parts, max_points_per_node as int, run.len() as int, 0);
                &&& final(order).content() == old(order).content() + picked(parts, k)
                &&& counts@.len() == 8
                &&& forall|o: int| 0 <= o < 8 ==> #[trigger] counts@[o] == taken(parts, k, o)
            },
            Err(error) => cancel.may_answer(error) || R::may_fail(error),
        },
{
    let ghost parts = parts_of(*source, key, run);
    let ghost start = order.content();
    let ghost n = run.len() as int;
    let ghost max = max_points_per_node as int;
    proof {
        assert(picked(parts, 0) =~= Seq::empty());
        lemma_stop(*source, key, run, max, 0);
        assert(order.content() =~= start + picked(parts, 0));
        assert(views(groups@).len() == 8);
    }
    let mut selected: usize = 0;
    let mut round: usize = 0;
    let mut octant: usize = 0;
    while selected < max_points_per_node
        invariant
            octant < 8,
            selected <= max_points_per_node,
            max == max_points_per_node,
            n <= usize::MAX,
            start == old(order).content(),
            groups@.len() == 8,
            parts.len() == 8,
            views(groups@) == parts,
            views(old(groups)@) == parts,
            selected == picked(parts, 8 * round + octant).len(),
            order.content() == start + picked(parts, 8 * round + octant),
            stop(parts, max, n, 8 * round + octant) == stop(parts, max, n, 0),
            picked(parts, stop(parts, max, n, 0)).len() == max,
        decreases 8 * n - (8 * round + octant),
    {
        if octant == 0 {
            cancel.check()?;
        }
        let ghost k = 8 * round + octant;
        proof {
            assert(k < 8 * n);
            assert(parts[octant as int] == groups@[octant as int].content());
            assert((k + 1 - 1) % 8 == octant && (k + 1 - 1) / 8 == round);
        }
        let len: usize = groups[octant].len();
        if round < len {
            let ghost before = groups@;
            let index: u32 = match groups[octant].get(round) {
                Ok(index) => index,
                Err(error) => {
                    proof {
                        lemma_views_kept(before, groups@, octant as int);
                    }
                    return Err(error);
                },
            };
            proof {
                lemma_views_kept(before, groups@, octant as int);
            }
            order.push(index)?;
            selected = selected + 1;
        }
        proof {
            assert(order.content() =~= start + picked(parts, k + 1));
        }
        octant = octant + 1;
        if octant == 8 {
            octant = 0;
            round = round + 1;
        }
    }
    let ghost k = 8 * round + octant;
    let mut counts: Vec<usize> = Vec::new();
    let mut o: usize = 0;
    while o < 8
        invariant
            o <= 8,
            octant < 8,
            k == 8 * round + octant,
            groups@.len() == 8,
            parts.len() == 8,
            views(groups@) == parts,
            counts@.len() == o,
            forall|i: int| 0 <= i < o ==> #[trigger] counts@[i] == taken(parts, k, i),
        decreases 8 - o,
    {
        proof {
            assert(parts[o as int] == groups@[o as int].content());
        }
        let len: usize = groups[o].len();
        let count: usize = if o < octant {
            if round < len {
                round + 1
            } else {
                len
            }
        } else if round < len {
            round
        } else {
            len
        };
        proof {
            assert(count == taken(parts, k, o as int));
        }
        counts.push(count);
        o = o + 1;
    }
    Ok(counts)
}

proof fn lemma_views_kept<R: IndexRun>(before: Seq<R>, after: Seq<R>, o: int)
    requires
        0 <= o < before.len(),
        after.len() == before.len(),
        after[o].content() == before[o].content(),
        forall|i: int| 0 <= i < before.len() && i != o ==> #[trigger] after[i] == before[i],
    ensures
        views(after) == views(before),
{
    assert(views(after) =~= views(before));
}

proof fn lemma_lod_children_error<S: OctantSource>(
    source: S,
    key: VoxelKey,
    parts: Seq<Seq<u32>>,
    k: int,
    max: usize,
    n: nat,
)
    requires
        n <= 8,
        key.level < MAX_OCTREE_DEPTH,
        lod_children(source, key, parts, k, max, n) is Err,
    ensures
        lod_children(source, key, parts, k, max, 8) == lod_children(
            source,
            key,
            parts,
            k,
            max,
            n,
        ),
    decreases 8 - n,
{
    if n < 8 {
        lemma_lod_children_error(source, key, parts, k, max, n + 1);
    }
}

/// What was in the order stays where it is.
proof fn lemma_models_kept(nodes: Seq<LodNodeRange>, order: Seq<u32>, longer: Seq<u32>)
    requires
        in_order(nodes, order),
        order.is_prefix_of(longer),
    ensures
        in_order(nodes, longer),
        lod_models(nodes, longer) == lod_models(nodes, order),
{
    assert forall|i: int| 0 <= i < nodes.len() implies lod_models(nodes, longer)[i] == lod_models(
        nodes,
        order,
    )[i] by {
        let a = nodes[i].start as int;
        let b = nodes[i].start + nodes[i].count;
        assert(order.subrange(a, b) =~= longer.subrange(a, b));
    }
    assert(lod_models(nodes, longer) =~= lod_models(nodes, order));
}

/// Spreads the points of a run from `from` on over the nodes under `key`.
fn assign<S: OctantSource, R: IndexRun, C: CancelCheck>(
    source: &S,
    key: VoxelKey,
    run: &mut R,
    from: usize,
    max_points_per_node: usize,
    cancel: &C,
    nodes: &mut Vec<LodNodeRange>,
    order: &mut R,
) -> (r: Result<()>)
    requires
        key.valid(),
        from <= old(run).content().len(),
        in_order(old(nodes)@, old(order).content()),
        forall|i: int|
            0 <= i < old(run).content().len() ==> #[trigger] old(run).content()[i]
                < source.points(),
    ensures
        ({
            let points = old(run).content().skip(from as int);
            let spread = lod_of(*source, key, points, max_points_per_node);
            match r {
                Ok(_) => {
                    &&& spread is Ok
                    &&& in_order(final(nodes)@, final(order).content())
                    &&& old(order).content().is_prefix_of(final(order).content())
                    &&& lod_models(final(nodes)@, final(order).content()) == lod_models(
                        old(nodes)@,
                        old(order).content(),
                    ) + spread->Ok_0
                },
                Err(error) => cancel.may_answer(error) || source.may_fail(error) || R::may_fail(
                    error,
                ) || spread == Err::<Seq<LodModel>, Error>(error),
            }
        }),
    decreases MAX_OCTREE_DEPTH - key.level,
{
    let ghost points = run.content().skip(from as int);
    cancel.check()?;
    let count: usize = run.len() - from;
    if count == 0 {
        proof {
            assert(lod_models(nodes@, order.content()) + Seq::empty() =~= lod_models(
                nodes@,
                order.content(),
            ));
        }
        return Ok(());
    }
    let ghost first = lod_models(nodes@, order.content());
    let start: usize = order.len();
    if count <= max_points_per_node {
        let ghost before = nodes@;
        append_run(run, from, order, cancel)?;
        nodes.push(LodNodeRange { key, start, count });
        proof {
            lemma_models_kept(before, old(order).content(), order.content());
            assert(order.content().subrange(start as int, start + count) =~= points);
            assert(lod_models(nodes@, order.content()) =~= first + seq![
                LodModel { key, points },
            ]);
        }
        return Ok(());
    }
    if key.level >= MAX_OCTREE_DEPTH {
        return Err(
            Error::InvalidInput(Fault::MaximumDepth { key, count, budget: max_points_per_node }),
        );
    }
    let mut groups = partition_index_run(source, run, from, key, cancel)?;
    let ghost parts = parts_of(*source, key, points);
    let ghost k = stop(parts, max_points_per_node as int, points.len() as int, 0);
    let counts = append_lod_selection_to_order(
        source,
        key,
        Ghost(points),
        &mut groups,
        max_points_per_node,
        order,
        cancel,
    )?;
    proof {
        assert(picked(parts, 0) =~= Seq::empty());
        lemma_stop(*source, key, points, max_points_per_node as int, 0);
    }
    let ghost before = nodes@;
    nodes.push(LodNodeRange { key, start, count: max_points_per_node });
    let ghost own = LodModel { key, points: picked(parts, k) };
    proof {
        lemma_models_kept(before, old(order).content(), order.content());
        assert(order.content().subrange(start as int, start + max_points_per_node) =~= picked(
            parts,
            k,
        ));
        assert(lod_models(nodes@, order.content()) =~= first + seq![own] + Seq::empty());
        assert(views(groups@).len() == 8);
    }
    let mut octant: usize = 0;
    while octant < 8
        invariant
            octant <= 8,
            key.valid(),
            key.level < MAX_OCTREE_DEPTH,
            from <= old(run).content().len(),
            points == old(run).content().skip(from as int),
            max_points_per_node < points.len(),
            in_order(nodes@, order.content()),
            old(order).content().is_prefix_of(order.content()),
            first == lod_models(old(nodes)@, old(order).content()),
            parts == parts_of(*source, key, points),
            k == stop(parts, max_points_per_node as int, points.len() as int, 0),
            k >= 0,
            own == (LodModel { key, points: picked(parts, k) }),
            groups@.len() == 8,
            forall|o: int|
                octant <= o < 8 ==> (#[trigger] groups@[o]).content() == parts[o],
            counts@.len() == 8,
            forall|o: int| 0 <= o < 8 ==> #[trigger] counts@[o] == taken(parts, k, o),
            forall|i: int|
                0 <= i < old(run).content().len() ==> #[trigger] old(run).content()[i]
                    < source.points(),
            lod_children(*source, key, parts, k, max_points_per_node, octant as nat) is Ok,
            lod_models(nodes@, order.content()) == first + seq![own] + lod_children(
                *source,
                key,
                parts,
                k,
                max_points_per_node,
                octant as nat,
            )->Ok_0,
        decreases 8 - octant,
    {
        let selected: usize = counts[octant];
        let ghost next = (octant + 1) as nat;
        let len: usize = groups[octant].len();
        proof {
            assert(parts[octant as int] == groups@[octant as int].content());
            assert(selected == taken(parts, k, octant as int));
            if lod_children(*source, key, parts, k, max_points_per_node, next) is Err {
                lemma_lod_children_error(*source, key, parts, k, max_points_per_node, next);
            }
        }
        if selected < len {
            let ghost rest = left(parts, k, octant as int);
            proof {
                let part = parts[octant as int];
                assert forall|i: int| 0 <= i < part.len() implies #[trigger] part[i]
                    < source.points() by {
                    lemma_part_member(*source, key, points, octant as int, part[i]);
                    assert(part.contains(part[i]));
                    let j = choose|j: int| 0 <= j < points.len() && points[j] == part[i];
                    assert(old(run).content()[from + j] == part[i]);
                }
            }
            let child = key.child(octant as u8)?;
            proof {
                hierarchy::lemma_child_valid(key, octant as u8);
            }
            assign(
                source,
                child,
                &mut groups[octant],
                selected,
                max_points_per_node,
                cancel,
                nodes,
                order,
            )?;
            proof {
                let some = lod_children(
                    *source,
                    key,
                    parts,
                    k,
                    max_points_per_node,
                    octant as nat,
                )->Ok_0;
                let more = lod_of(*source, child, rest, max_points_per_node)->Ok_0;
                assert(first + seq![own] + some + more =~= first + seq![own] + (some + more));
            }
        } else {
            proof {
                assert(left(parts, k, octant as int).len() == 0);
            }
        }
        octant = octant + 1;
    }
    proof {
        let all = lod_children(*source, key, parts, k, max_points_per_node, 8)->Ok_0;
        assert(first + seq![own] + all =~= first + (seq![own] + all));
    }
    Ok(())
}

/// The points of an octant are points of the run.
proof fn lemma_part_member<S: OctantSource>(
    source: S,
    key: VoxelKey,
    run: Seq<u32>,
    o: int,
    point: u32,
)
    requires
        0 <= o < 8,
    ensures
        parts_of(source, key, run)[o].contains(point) <==> run.contains(point)
            && source.octant_at(point, key) == o,
{
    seqs::lemma_filter_contains(run, lies_in(source, key, o));
}

fn append_run<R: IndexRun, C: CancelCheck>(
    run: &mut R,
    from: usize,
    order: &mut R,
    cancel: &C,
) -> (r: Result<()>)
    requires
        from <= old(run).content().len(),
    ensures
        final(run).content() == old(run).content(),
        match r {
            Ok(_) => final(order).content() == old(order).content() + old(run).content().skip(
                from as int,
            ),
            Err(error) => cancel.may_answer(error) || R::may_fail(error),
        },
{
    let ghost start = order.content();
    let ghost points = run.content().skip(from as int);
    let total: usize = run.len();
    let count: usize = total - from;
    let mut i: usize = 0;
    proof {
        assert(order.content() =~= start + points.subrange(0, 0));
    }
    while i < count
        invariant
            i <= count,
            count == points.len(),
            from + count == total,
            total == run.content().len(),
            run.content() == old(run).content(),
            points == old(run).content().skip(from as int),
            order.content() == start + points.subrange(0, i as int),
        decreases count - i,
    {
        if i % CANCEL_POLL_STRIDE == 0 {
            cancel.check()?;
        }
        let index: u32 = run.get(from + i)?;
        order.push(index)?;
        proof {
            assert(points[i as int] == index);
            assert(order.content() =~= start + points.subrange(0, i + 1));
        }
        i = i + 1;
    }
    proof {
        assert(points.subrange(0, points.len() as int) =~= points);
    }
    Ok(())
}

/// The source tells an octant for each of the points.
pub open spec fn telling<S: OctantSource>(source: S, run: Seq<u32>) -> bool {
    forall|i: int, key: VoxelKey|
        #![trigger source.octant_at(run[i], key)]
        0 <= i < run.len() ==> source.octant_at(run[i], key) < 8
}

/// The points of the first `n` nodes, all together.
pub open spec fn nodes_bag(nodes: Seq<LodModel>, n: int) -> vstd::multiset::Multiset<u32>
    decreases n,
{
    if n <= 0 {
        vstd::multiset::Multiset::empty()
    } else {
        nodes_bag(nodes, n - 1).add(nodes[n - 1].points.to_multiset())
    }
}

/// Going from octant to octant as the point lies leads from the node `from` to the node `to`.
pub open spec fn inside<S: OctantSource>(
    source: S,
    index: u32,
    from: VoxelKey,
    to: VoxelKey,
) -> bool
    decreases to.level - from.level,
{
    if to.level <= from.level {
        to == from
    } else {
        let child = from.child_spec(source.octant_at(index, from));
        child is Ok && child->Ok_0.level == from.level + 1 && inside(
            source,
            index,
            child->Ok_0,
            to,
        )
    }
}

/// The nodes are distinct nodes under `key`, none is empty or holds more than `max` points,
/// and each point is in a node that it lies in.
pub open spec fn well_spread<S: OctantSource>(
    source: S,
    key: VoxelKey,
    nodes: Seq<LodModel>,
    max: usize,
) -> bool {
    &&& forall|i: int|
        0 <= i < nodes.len() ==> {
            &&& page_tree::under(key, (#[trigger] nodes[i]).key)
            &&& nodes[i].key.valid()
            &&& 0 < nodes[i].points.len() <= max
        }
    &&& forall|i: int, j: int|
        0 <= i < j < nodes.len() ==> (#[trigger] nodes[i]).key != (#[trigger] nodes[j]).key
    &&& forall|i: int, j: int|
        0 <= i < nodes.len() && 0 <= j < nodes[i].points.len() ==> inside(
            source,
            #[trigger] nodes[i].points[j],
            key,
            nodes[i].key,
        )
}

proof fn lemma_bag_joined(a: Seq<LodModel>, b: Seq<LodModel>, n: int)
    requires
        0 <= n <= b.len(),
    ensures
        nodes_bag(a + b, a.len() + n) =~= nodes_bag(a, a.len() as int).add(nodes_bag(b, n)),
    decreases n,
{
    if n == 0 {
        lemma_bag_prefix(a, b, a.len() as int);
    } else {
        lemma_bag_joined(a, b, n - 1);
        assert((a + b)[a.len() + n - 1] == b[n - 1]);
    }
}

proof fn lemma_bag_prefix(a: Seq<LodModel>, b: Seq<LodModel>, n: int)
    requires
        0 <= n <= a.len(),
    ensures
        nodes_bag(a + b, n) =~= nodes_bag(a, n),
    decreases n,
{
    if n > 0 {
        lemma_bag_prefix(a, b, n - 1);
        assert((a + b)[n - 1] == a[n - 1]);
    }
}

/// Every point of the run is in exactly one node, in one that it lies in; no node is empty or
/// holds more points than it may.
pub proof fn law_points_are_spread<S: OctantSource>(
    source: S,
    key: VoxelKey,
    run: Seq<u32>,
    max: usize,
)
    requires
        key.valid(),
        key.level <= MAX_OCTREE_DEPTH,
        max > 0,
        telling(source, run),
        lod_of(source, key, run, max) is Ok,
    ensures
        ({
            let nodes = lod_of(source, key, run, max)->Ok_0;
            &&& well_spread(source, key, nodes, max)
            &&& nodes_bag(nodes, nodes.len() as int) =~= run.to_multiset()
        }),
    decreases MAX_OCTREE_DEPTH - key.level, 10int,
{
    let nodes = lod_of(source, key, run, max)->Ok_0;
    page_tree::lemma_under_self(key);
    reveal_with_fuel(nodes_bag, 2);
    if run.len() == 0 {
        assert(run =~= Seq::empty());
    } else if run.len() > max {
        let parts = parts_of(source, key, run);
        let k = stop(parts, max as int, run.len() as int, 0);
        assert(picked(parts, 0) =~= Seq::empty());
        lemma_stop(source, key, run, max as int, 0);
        lemma_children_spread(source, key, run, max, k, 8);
        lemma_nothing_lost(parts, k);
        lemma_parts(source, key, run);
        let rest = lod_children(source, key, parts, k, max, 8)->Ok_0;
        let own = seq![LodModel { key, points: picked(parts, k) }];
        lemma_bag_joined(own, rest, rest.len() as int);
        assert(nodes == own + rest);
        assert(nodes_bag(own, 1) =~= picked(parts, k).to_multiset());
        assert forall|i: int, j: int| 0 <= i < j < nodes.len() implies (
        #[trigger] nodes[i]).key != (#[trigger] nodes[j]).key by {
            assert(nodes[j] == rest[j - 1]);
            if i > 0 {
                assert(nodes[i] == rest[i - 1]);
            }
        }
        assert forall|i: int| 0 <= i < nodes.len() implies {
            &&& page_tree::under(key, (#[trigger] nodes[i]).key)
            &&& nodes[i].key.valid()
            &&& 0 < nodes[i].points.len() <= max
        } by {
            if i > 0 {
                assert(nodes[i] == rest[i - 1]);
            }
        }
        assert forall|i: int, j: int|
            0 <= i < nodes.len() && 0 <= j < nodes[i].points.len() implies inside(
            source,
            #[trigger] nodes[i].points[j],
            key,
            nodes[i].key,
        ) by {
            if i > 0 {
                assert(nodes[i] == rest[i - 1]);
                assert(rest[i - 1].points[j] == nodes[i].points[j]);
            }
        }
    }
}

/// The nodes for what is left of the first `n` octants lie in these octants.
spec fn in_first(nodes: Seq<LodModel>, key: VoxelKey, n: int) -> bool {
    forall|i: int|
        0 <= i < nodes.len() ==> (#[trigger] nodes[i]).key.level > key.level && pages::octant_of(
            key,
            nodes[i].key,
        ) < n
}

proof fn lemma_children_spread<S: OctantSource>(
    source: S,
    key: VoxelKey,
    run: Seq<u32>,
    max: usize,
    k: int,
    n: nat,
)
    requires
        n <= 8,
        k >= 0,
        key.valid(),
        key.level < MAX_OCTREE_DEPTH,
        max > 0,
        telling(source, run),
        lod_children(source, key, parts_of(source, key, run), k, max, n) is Ok,
    ensures
        ({
            let parts = parts_of(source, key, run);
            let nodes = lod_children(source, key, parts, k, max, n)->Ok_0;
            &&& well_spread(source, key, nodes, max)
            &&& in_first(nodes, key, n as int)
            &&& nodes_bag(nodes, nodes.len() as int) =~= bag(parts, k, n)
        }),
    decreases MAX_OCTREE_DEPTH - key.level, n,
{
    let parts = parts_of(source, key, run);
    if n > 0 {
        let m = (n - 1) as nat;
        lemma_children_spread(source, key, run, max, k, m);
        let before = lod_children(source, key, parts, k, max, m)->Ok_0;
        let nodes = lod_children(source, key, parts, k, max, n)->Ok_0;
        let rest = left(parts, k, n - 1);
        if rest.len() == 0 {
            assert(rest =~= Seq::empty());
        } else {
            let octant = (n - 1) as u8;
            let child = key.child_spec(octant)->Ok_0;
            hierarchy::lemma_child_valid(key, octant);
            assert forall|i: int| 0 <= i < rest.len() implies source.octant_at(
                #[trigger] rest[i],
                key,
            ) == n - 1 && run.contains(rest[i]) by {
                assert(parts[n - 1][taken(parts, k, n - 1) + i] == rest[i]);
                assert(parts[n - 1].contains(rest[i]));
                lemma_part_member(source, key, run, n - 1, rest[i]);
            }
            assert(telling(source, rest)) by {
                assert forall|i: int, below: VoxelKey|
                    #![trigger source.octant_at(rest[i], below)]
                    0 <= i < rest.len() implies source.octant_at(rest[i], below) < 8 by {
                    assert(source.octant_at(rest[i], key) == n - 1);
                    assert(run.contains(rest[i]));
                    let j = choose|j: int| 0 <= j < run.len() && run[j] == rest[i];
                    assert(source.octant_at(run[j], below) < 8);
                }
            }
            law_points_are_spread(source, child, rest, max);
            let more = lod_of(source, child, rest, max)->Ok_0;
            lemma_bag_joined(before, more, more.len() as int);
            assert(nodes == before + more);
            assert forall|i: int| 0 <= i < more.len() implies (#[trigger] more[i]).key.level
                > key.level && pages::octant_of(key, more[i].key) == n - 1 && page_tree::under(
                key,
                more[i].key,
            ) by {
                page_tree::lemma_octant(key, octant, more[i].key);
            }
            assert(well_spread(source, key, nodes, max)) by {
                assert forall|i: int| 0 <= i < nodes.len() implies {
                    &&& page_tree::under(key, (#[trigger] nodes[i]).key)
                    &&& nodes[i].key.valid()
                    &&& 0 < nodes[i].points.len() <= max
                } by {
                    if i < before.len() {
                        assert(nodes[i] == before[i]);
                    } else {
                        assert(nodes[i] == more[i - before.len()]);
                    }
                }
                assert forall|i: int, j: int| 0 <= i < j < nodes.len() implies (
                #[trigger] nodes[i]).key != (#[trigger] nodes[j]).key by {
                    if j < before.len() {
                        assert(before[i].key != before[j].key);
                    } else if i >= before.len() {
                        assert(more[i - before.len()].key != more[j - before.len()].key);
                    } else {
                        assert(nodes[i] == before[i]);
                        assert(nodes[j] == more[j - before.len()]);
                    }
                }
                assert forall|i: int, j: int|
                    0 <= i < nodes.len() && 0 <= j < nodes[i].points.len() implies inside(
                    source,
                    #[trigger] nodes[i].points[j],
                    key,
                    nodes[i].key,
                ) by {
                    if i < before.len() {
                        assert(nodes[i] == before[i]);
                        assert(before[i].points[j] == nodes[i].points[j]);
                    } else {
                        let at = i - before.len();
                        let point = nodes[i].points[j];
                        assert(nodes[i] == more[at]);
                        assert(more[at].points[j] == point);
                        assert(inside(source, point, child, more[at].key));
                        lemma_bag_member(more, more.len() as int, at, j);
                        assert(rest.to_multiset().count(point) > 0);
                        assert(rest.contains(point));
                        let x = choose|x: int| 0 <= x < rest.len() && rest[x] == point;
                        assert(source.octant_at(rest[x], key) == n - 1);
                    }
                }
            }
            assert forall|i: int| 0 <= i < nodes.len() implies (#[trigger] nodes[i]).key.level
                > key.level && pages::octant_of(key, nodes[i].key) < n by {
                if i < before.len() {
                    assert(nodes[i] == before[i]);
                } else {
                    assert(nodes[i] == more[i - before.len()]);
                }
            }
        }
    }
}

/// A point of a node is among the points of all nodes.
proof fn lemma_bag_member(nodes: Seq<LodModel>, n: int, i: int, j: int)
    requires
        0 <= i < n <= nodes.len(),
        0 <= j < nodes[i].points.len(),
    ensures
        nodes_bag(nodes, n).count(nodes[i].points[j]) > 0,
    decreases n,
{
    if i < n - 1 {
        lemma_bag_member(nodes, n - 1, i, j);
    } else {
        let points = nodes[i].points;
        assert(points.contains(points[j]));
        assert(points.to_multiset().count(points[j]) > 0);
    }
}

/// The nodes stand in the order of their keys.
pub open spec fn by_key(nodes: Seq<LodNodeRange>) -> bool {
    forall|i: int, j: int|
        0 <= i <= j < nodes.len() ==> sort::key_not_after(
            (#[trigger] nodes[i]).key,
            (#[trigger] nodes[j]).key,
        )
}

fn merge_nodes(a: &[LodNodeRange], b: &[LodNodeRange]) -> (r: Vec<LodNodeRange>)
    requires
        by_key(a@),
        by_key(b@),
    ensures
        by_key(r@),
        r@.to_multiset() =~= a@.to_multiset().add(b@.to_multiset()),
{
    let mut out: Vec<LodNodeRange> = Vec::new();
    let mut i: usize = 0;
    let mut j: usize = 0;
    proof {
        assert(a@.subrange(0, 0) =~= Seq::empty());
        assert(b@.subrange(0, 0) =~= Seq::empty());
        assert(out@ =~= Seq::empty());
    }
    while i < a.len() || j < b.len()
        invariant
            i <= a@.len(),
            j <= b@.len(),
            by_key(a@),
            by_key(b@),
            by_key(out@),
            out@.to_multiset() =~= a@.subrange(0, i as int).to_multiset().add(
                b@.subrange(0, j as int).to_multiset(),
            ),
            forall|k: int, m: int|
                0 <= k < out@.len() && i <= m < a@.len() ==> sort::key_not_after(
                    (#[trigger] out@[k]).key,
                    (#[trigger] a@[m]).key,
                ),
            forall|k: int, m: int|
                0 <= k < out@.len() && j <= m < b@.len() ==> sort::key_not_after(
                    (#[trigger] out@[k]).key,
                    (#[trigger] b@[m]).key,
                ),
        decreases a@.len() - i + b@.len() - j,
    {
        let take_a = if i == a.len() {
            false
        } else if j == b.len() {
            true
        } else {
            sort::key_is_not_after(a[i].key, b[j].key)
        };
        let ghost before = out@;
        if take_a {
            proof {
                assert(a@.subrange(0, i + 1) =~= a@.subrange(0, i as int).push(a@[i as int]));
            }
            out.push(a[i]);
            proof {
                assert(out@.to_multiset() =~= before.to_multiset().insert(a@[i as int]));
            }
            i = i + 1;
        } else {
            proof {
                assert(b@.subrange(0, j + 1) =~= b@.subrange(0, j as int).push(b@[j as int]));
            }
            out.push(b[j]);
            proof {
                assert(out@.to_multiset() =~= before.to_multiset().insert(b@[j as int]));
            }
            j = j + 1;
        }
    }
    proof {
        assert(a@.subrange(0, a@.len() as int) =~= a@);
        assert(b@.subrange(0, b@.len() as int) =~= b@);
    }
    out
}

/// The nodes in the order of their keys.
fn sort_nodes(nodes: &[LodNodeRange]) -> (r: Vec<LodNodeRange>)
    ensures
        by_key(r@),
        r@.to_multiset() =~= nodes@.to_multiset(),
    decreases nodes@.len(),
{
    let len: usize = nodes.len();
    if len <= 1 {
        let mut out: Vec<LodNodeRange> = Vec::new();
        if len == 1 {
            out.push(nodes[0]);
        }
        proof {
            assert(out@ =~= nodes@);
        }
        return out;
    }
    let half: usize = len / 2;
    let low = vstd::slice::slice_subrange(nodes, 0, half);
    let high = vstd::slice::slice_subrange(nodes, half, len);
    let first = sort_nodes(low);
    let second = sort_nodes(high);
    proof {
        assert(nodes@ =~= low@ + high@);
        vstd::seq_lib::lemma_multiset_commutative(low@, high@);
    }
    merge_nodes(first.as_slice(), second.as_slice())
}

/// All point indices in order.
pub open spec fn all_points(count: u32) -> Seq<u32> {
    Seq::new(count as nat, |i: int| i as u32)
}

impl<R: IndexRun> LodIndex<R> {
    /// The nodes with their points.
    pub open spec fn models(&self) -> Seq<LodModel> {
        lod_models(self.nodes@, self.order.content())
    }
}

/// The root node.
pub open spec fn root_key() -> VoxelKey {
    VoxelKey { level: 0, x: 0, y: 0, z: 0 }
}

/// Spreads `count` points over the nodes of an octree, with at most `max_points_per_node`
/// points in each.
pub fn build_lod_index<S: OctantSource, R: IndexRun, C: CancelCheck>(
    source: &S,
    count: usize,
    max_points_per_node: u32,
    cancel: &C,
) -> (r: Result<LodIndex<R>>)
    requires
        count <= source.points(),
    ensures
        match r {
            Ok(index) => {
                let spread = lod_of(
                    *source,
                    root_key(),
                    all_points(count as u32),
                    max_points_per_node as usize,
                );
                &&& count <= u32::MAX
                &&& max_points_per_node > 0
                &&& spread is Ok
                &&& in_order(index.nodes@, index.order.content())
                &&& by_key(index.nodes@)
                &&& index.nodes@.len() == spread->Ok_0.len()
                &&& forall|node: LodModel| #[trigger]
                    index.models().contains(node) <==> spread->Ok_0.contains(node)
            },
            Err(error) => cancel.may_answer(error) || source.may_fail(error) || R::may_fail(
                error,
            ) || (if count
                > u32::MAX {
                error == Error::InvalidInput(Fault::TooManyPoints)
            } else if max_points_per_node == 0 {
                error == Error::InvalidInput(Fault::ZeroNodeBudget)
            } else {
                lod_of(
                    *source,
                    root_key(),
                    all_points(count as u32),
                    max_points_per_node as usize,
                ) == Err::<Seq<LodModel>, Error>(error)
            }),
        },
{
    cancel.check()?;
    if count > u32::MAX as usize {
        return Err(Error::InvalidInput(Fault::TooManyPoints));
    }
    if max_points_per_node == 0 {
        return Err(Error::InvalidInput(Fault::ZeroNodeBudget));
    }
    let total: u32 = count as u32;
    let mut run: R = R::create()?;
    let mut i: u32 = 0;
    while i < total
        invariant
            i <= total,
            run.content().len() == i,
            forall|k: int| 0 <= k < i ==> #[trigger] run.content()[k] == k,
        decreases total - i,
    {
        if i as usize % CANCEL_POLL_STRIDE == 0 {
            cancel.check()?;
        }
        run.push(i)?;
        i = i + 1;
    }
    proof {
        assert(run.content() =~= all_points(count as u32));
        assert(run.content().skip(0) =~= run.content());
    }
    let mut nodes: Vec<LodNodeRange> = Vec::new();
    let mut order: R = R::create()?;
    assign(
        source,
        VoxelKey::root(),
        &mut run,
        0,
        max_points_per_node as usize,
        cancel,
        &mut nodes,
        &mut order,
    )?;
    let sorted = sort_nodes(nodes.as_slice());
    proof {
        let spread = lod_of(
            *source,
            root_key(),
            all_points(count as u32),
            max_points_per_node as usize,
        )->Ok_0;
        assert(lod_models(Seq::empty(), Seq::empty()) + spread =~= spread);
        assert(lod_models(Seq::<LodNodeRange>::empty(), Seq::<u32>::empty()) =~= Seq::empty());
        assert(lod_models(nodes@, order.content()) == spread);
        assert(nodes@.len() == spread.len());
        lemma_same_nodes(nodes@, sorted@, order.content());
    }
    Ok(LodIndex { nodes: sorted, order })
}

/// Sorting changes only the order.
proof fn lemma_same_nodes(a: Seq<LodNodeRange>, b: Seq<LodNodeRange>, order: Seq<u32>)
    requires
        in_order(a, order),
        b.to_multiset() =~= a.to_multiset(),
    ensures
        a.len() == b.len(),
        in_order(b, order),
        forall|node: LodModel| #[trigger]
            lod_models(b, order).contains(node) <==> lod_models(a, order).contains(node),
{
    assert(a.to_multiset().len() == b.to_multiset().len());
    assert forall|i: int| 0 <= i < b.len() implies (#[trigger] b[i]).start + b[i].count
        <= order.len() by {
        assert(b.contains(b[i]));
        assert(a.to_multiset().count(b[i]) > 0);
        assert(a.contains(b[i]));
        let j = choose|j: int| 0 <= j < a.len() && a[j] == b[i];
    }
    assert forall|node: LodModel| #[trigger] lod_models(b, order).contains(node) implies lod_models(
        a,
        order,
    ).contains(node) by {
        let models = lod_models(b, order);
        let i = choose|i: int| 0 <= i < models.len() && models[i] == node;
        assert(b.contains(b[i]));
        assert(a.to_multiset().count(b[i]) > 0);
        assert(a.contains(b[i]));
        let j = choose|j: int| 0 <= j < a.len() && a[j] == b[i];
        assert(lod_models(a, order)[j] == node);
    }
    assert forall|node: LodModel| #[trigger] lod_models(a, order).contains(node) implies lod_models(
        b,
        order,
    ).contains(node) by {
        let models = lod_models(a, order);
        let i = choose|i: int| 0 <= i < models.len() && models[i] == node;
        assert(a.contains(a[i]));
        assert(b.to_multiset().count(a[i]) > 0);
        assert(b.contains(a[i]));
        let j = choose|j: int| 0 <= j < b.len() && b[j] == a[i];
        assert(lod_models(b, order)[j] == node);
    }
}

/// Whether a node is the child of another.
pub open spec fn is_child(parent: VoxelKey, key: VoxelKey) -> bool {
    &&& key.level == parent.level + 1
    &&& key.x as int / 2 == parent.x && key.y as int / 2 == parent.y && key.z as int / 2
        == parent.z
}

/// Whether a node has its parent among the nodes before it.
pub open spec fn has_parent(nodes: Seq<LodModel>, i: int) -> bool {
    exists|j: int| 0 <= j < i && is_child((#[trigger] nodes[j]).key, nodes[i].key)
}

/// Whether each node is a child of `key` or has its parent among the nodes before it, and none
/// lies too deep.
spec fn hang(nodes: Seq<LodModel>, key: VoxelKey) -> bool {
    forall|i: int|
        0 <= i < nodes.len() ==> {
            &&& (#[trigger] nodes[i]).key.level <= MAX_OCTREE_DEPTH
            &&& is_child(key, nodes[i].key) || has_parent(nodes, i)
        }
}

/// The nodes are a tree: the first is the root, each other one comes behind its parent, and none
/// lies below the greatest depth.
pub proof fn law_nodes_are_a_tree<S: OctantSource>(
    source: S,
    key: VoxelKey,
    run: Seq<u32>,
    max: usize,
)
    requires
        key.valid(),
        key.level <= MAX_OCTREE_DEPTH,
        lod_of(source, key, run, max) is Ok,
    ensures
        ({
            let nodes = lod_of(source, key, run, max)->Ok_0;
            &&& run.len() > 0 ==> nodes.len() > 0 && nodes[0].key == key
            &&& forall|i: int|
                0 <= i < nodes.len() ==> {
                    &&& (#[trigger] nodes[i]).key.level <= MAX_OCTREE_DEPTH
                    &&& i > 0 ==> has_parent(nodes, i)
                }
        }),
    decreases MAX_OCTREE_DEPTH - key.level, 10int,
{
    if run.len() > 0 && run.len() > max {
        let nodes = lod_of(source, key, run, max)->Ok_0;
        let parts = parts_of(source, key, run);
        let k = stop(parts, max as int, run.len() as int, 0);
        lemma_children_hang(source, key, parts, k, max, 8);
        let rest = lod_children(source, key, parts, k, max, 8)->Ok_0;
        assert forall|i: int| 0 <= i < nodes.len() implies {
            &&& (#[trigger] nodes[i]).key.level <= MAX_OCTREE_DEPTH
            &&& i > 0 ==> has_parent(nodes, i)
        } by {
            if i > 0 {
                assert(nodes[i] == rest[i - 1]);
                if is_child(key, rest[i - 1].key) {
                    assert(is_child(nodes[0].key, nodes[i].key));
                } else {
                    let j = choose|j: int|
                        0 <= j < i - 1 && is_child((#[trigger] rest[j]).key, rest[i - 1].key);
                    assert(nodes[j + 1] == rest[j]);
                }
            }
        }
    }
}

proof fn lemma_children_hang<S: OctantSource>(
    source: S,
    key: VoxelKey,
    parts: Seq<Seq<u32>>,
    k: int,
    max: usize,
    n: nat,
)
    requires
        n <= 8,
        key.valid(),
        key.level < MAX_OCTREE_DEPTH,
        lod_children(source, key, parts, k, max, n) is Ok,
    ensures
        hang(lod_children(source, key, parts, k, max, n)->Ok_0, key),
    decreases MAX_OCTREE_DEPTH - key.level, n,
{
    if n > 0 {
        lemma_children_hang(source, key, parts, k, max, (n - 1) as nat);
        let before = lod_children(source, key, parts, k, max, (n - 1) as nat)->Ok_0;
        let part = left(parts, k, n - 1);
        if part.len() > 0 {
            let nodes = lod_children(source, key, parts, k, max, n)->Ok_0;
            let m = before.len();
            hierarchy::law_child(key, (n - 1) as u8);
            let child = key.child_spec((n - 1) as u8)->Ok_0;
            law_nodes_are_a_tree(source, child, part, max);
            let more = lod_of(source, child, part, max)->Ok_0;
            assert forall|i: int| 0 <= i < nodes.len() implies {
                &&& (#[trigger] nodes[i]).key.level <= MAX_OCTREE_DEPTH
                &&& is_child(key, nodes[i].key) || has_parent(nodes, i)
            } by {
                if i < m {
                    assert(nodes[i] == before[i]);
                    if !is_child(key, before[i].key) {
                        let j = choose|j: int|
                            0 <= j < i && is_child((#[trigger] before[j]).key, before[i].key);
                        assert(nodes[j] == before[j]);
                    }
                } else {
                    assert(nodes[i] == more[i - m]);
                    if i > m {
                        let j = choose|j: int|
                            0 <= j < i - m && is_child((#[trigger] more[j]).key, more[i - m].key);
                        assert(nodes[m + j] == more[j]);
                    }
                }
            }
        }
    }
}

/// A node that has a node below it holds as many points as a node may: points are passed down
/// only where the node is full.
pub open spec fn full_above(nodes: Seq<LodModel>, max: usize) -> bool {
    forall|i: int, j: int|
        0 <= i < nodes.len() && 0 <= j < nodes.len() && page_tree::under(
            (#[trigger] nodes[i]).key,
            (#[trigger] nodes[j]).key,
        ) && nodes[i].key.level < nodes[j].key.level ==> nodes[i].points.len() == max
}

/// Every node with nodes below it is full, and where there are more points than a node may
/// hold, the first node is.
pub proof fn law_nodes_fill_up<S: OctantSource>(
    source: S,
    key: VoxelKey,
    run: Seq<u32>,
    max: usize,
)
    requires
        key.valid(),
        key.level <= MAX_OCTREE_DEPTH,
        max > 0,
        telling(source, run),
        lod_of(source, key, run, max) is Ok,
    ensures
        full_above(lod_of(source, key, run, max)->Ok_0, max),
        run.len() > max ==> lod_of(source, key, run, max)->Ok_0[0].points.len() == max
            && lod_of(source, key, run, max)->Ok_0.len() > 1,
        0 < run.len() <= max ==> lod_of(source, key, run, max)->Ok_0.len() == 1
            && lod_of(source, key, run, max)->Ok_0[0].points == run,
    decreases MAX_OCTREE_DEPTH - key.level, 10int,
{
    let nodes = lod_of(source, key, run, max)->Ok_0;
    law_points_are_spread(source, key, run, max);
    if run.len() > max {
        let parts = parts_of(source, key, run);
        let k = stop(parts, max as int, run.len() as int, 0);
        assert(picked(parts, 0) =~= Seq::empty());
        lemma_stop(source, key, run, max as int, 0);
        lemma_children_spread(source, key, run, max, k, 8);
        lemma_children_fill_up(source, key, run, max, k, 8);
        let rest = lod_children(source, key, parts, k, max, 8)->Ok_0;
        assert(nodes == seq![LodModel { key, points: picked(parts, k) }] + rest);
        assert forall|i: int, j: int|
            0 <= i < nodes.len() && 0 <= j < nodes.len() && page_tree::under(
                (#[trigger] nodes[i]).key,
                (#[trigger] nodes[j]).key,
            ) && nodes[i].key.level < nodes[j].key.level implies nodes[i].points.len() == max by {
            if i > 0 {
                assert(nodes[i] == rest[i - 1]);
                if j > 0 {
                    assert(nodes[j] == rest[j - 1]);
                }
            }
        }
        if rest.len() == 0 {
            lemma_nothing_lost(parts, k);
            lemma_parts(source, key, run);
            assert(nodes_bag(rest, 0) =~= vstd::multiset::Multiset::<u32>::empty());
            assert(picked(parts, k).to_multiset().len() == run.to_multiset().len());
        }
    }
}

/// What is left of an octant are points of the run.
proof fn lemma_left_telling<S: OctantSource>(
    source: S,
    key: VoxelKey,
    run: Seq<u32>,
    k: int,
    o: int,
)
    requires
        0 <= o < 8,
        k >= 0,
        telling(source, run),
    ensures
        telling(source, left(parts_of(source, key, run), k, o)),
{
    let parts = parts_of(source, key, run);
    let rest = left(parts, k, o);
    assert forall|i: int, below: VoxelKey|
        #![trigger source.octant_at(rest[i], below)]
        0 <= i < rest.len() implies source.octant_at(rest[i], below) < 8 by {
        assert(parts[o][taken(parts, k, o) + i] == rest[i]);
        assert(parts[o].contains(rest[i]));
        lemma_part_member(source, key, run, o, rest[i]);
        let j = choose|j: int| 0 <= j < run.len() && run[j] == rest[i];
        assert(source.octant_at(run[j], below) < 8);
    }
}

/// A node below another one lies in the same octant as that.
proof fn lemma_same_octant(key: VoxelKey, octant: u8, above: VoxelKey, below: VoxelKey)
    requires
        key.valid(),
        octant <= 7,
        key.child_spec(octant) is Ok,
        above.nonnegative(),
        page_tree::under(key, above),
        above.level > key.level,
        pages::octant_of(key, above) == octant,
        page_tree::under(above, below),
    ensures
        pages::octant_of(key, below) == octant,
{
    let child = key.child_spec(octant)->Ok_0;
    page_tree::lemma_octant(key, octant, above);
    page_tree::lemma_under_transitive(child, above, below);
    page_tree::lemma_octant(key, octant, below);
}

proof fn lemma_children_fill_up<S: OctantSource>(
    source: S,
    key: VoxelKey,
    run: Seq<u32>,
    max: usize,
    k: int,
    n: nat,
)
    requires
        n <= 8,
        k >= 0,
        key.valid(),
        key.level < MAX_OCTREE_DEPTH,
        max > 0,
        telling(source, run),
        lod_children(source, key, parts_of(source, key, run), k, max, n) is Ok,
    ensures
        full_above(lod_children(source, key, parts_of(source, key, run), k, max, n)->Ok_0, max),
    decreases MAX_OCTREE_DEPTH - key.level, n,
{
    let parts = parts_of(source, key, run);
    if n > 0 {
        let m = (n - 1) as nat;
        lemma_children_fill_up(source, key, run, max, k, m);
        let before = lod_children(source, key, parts, k, max, m)->Ok_0;
        let nodes = lod_children(source, key, parts, k, max, n)->Ok_0;
        let rest = left(parts, k, n - 1);
        if rest.len() > 0 {
            let octant = (n - 1) as u8;
            let child = key.child_spec(octant)->Ok_0;
            hierarchy::lemma_child_valid(key, octant);
            lemma_left_telling(source, key, run, k, n - 1);
            law_points_are_spread(source, child, rest, max);
            law_nodes_fill_up(source, child, rest, max);
            lemma_children_spread(source, key, run, max, k, m);
            let more = lod_of(source, child, rest, max)->Ok_0;
            let c = before.len() as int;
            assert(nodes == before + more);
            assert forall|i: int, j: int|
                0 <= i < nodes.len() && 0 <= j < nodes.len() && page_tree::under(
                    (#[trigger] nodes[i]).key,
                    (#[trigger] nodes[j]).key,
                ) && nodes[i].key.level < nodes[j].key.level implies nodes[i].points.len()
                == max by {
                let a = nodes[i].key;
                let b = nodes[j].key;
                if i < c && j < c {
                    assert(nodes[i] == before[i] && nodes[j] == before[j]);
                } else if i >= c && j >= c {
                    assert(nodes[i] == more[i - c] && nodes[j] == more[j - c]);
                } else if i < c {
                    assert(nodes[i] == before[i] && nodes[j] == more[j - c]);
                    let other = pages::octant_of(key, a) as u8;
                    hierarchy::law_child(key, other);
                    lemma_same_octant(key, other, a, b);
                    page_tree::lemma_octant(key, octant, b);
                } else {
                    assert(nodes[i] == more[i - c] && nodes[j] == before[j]);
                    page_tree::lemma_octant(key, octant, a);
                    lemma_same_octant(key, octant, a, b);
                }
            }
        }
    }
}

/// The points of the octant `o` among the points of a node.
pub open spec fn in_octant<S: OctantSource>(
    source: S,
    key: VoxelKey,
    points: Seq<u32>,
    o: int,
) -> Seq<u32> {
    points.filter(lies_in(source, key, o))
}

proof fn lemma_picked_by_octant<S: OctantSource>(
    source: S,
    key: VoxelKey,
    run: Seq<u32>,
    k: int,
    o: int,
)
    requires
        0 <= o < 8,
        k >= 0,
    ensures
        ({
            let parts = parts_of(source, key, run);
            in_octant(source, key, picked(parts, k), o) == parts[o].take(taken(parts, k, o))
        }),
    decreases k,
{
    let parts = parts_of(source, key, run);
    let f = lies_in(source, key, o);
    if k == 0 {
        seqs::lemma_filter_empty(f);
        assert(picked(parts, 0) =~= Seq::empty());
        assert(taken(parts, 0, o) == 0);
        assert(parts[o].take(0) =~= Seq::empty());
    } else {
        lemma_picked_by_octant(source, key, run, k - 1, o);
        let at = (k - 1) % 8;
        let r = (k - 1) / 8;
        if r < parts[at].len() {
            let e = parts[at][r];
            assert(parts[at].contains(e));
            lemma_part_member(source, key, run, at, e);
            seqs::lemma_filter_push(picked(parts, k - 1), e, f);
            if at == o {
                assert(taken(parts, k - 1, o) == r && taken(parts, k, o) == r + 1);
                assert(parts[o].take(r).push(e) =~= parts[o].take(r + 1));
            } else {
                assert(taken(parts, k - 1, o) == taken(parts, k, o));
            }
        } else if at == o {
            assert(taken(parts, k - 1, o) == parts[o].len());
            assert(taken(parts, k, o) == parts[o].len());
        } else {
            assert(taken(parts, k - 1, o) == taken(parts, k, o));
        }
    }
}

/// A node that is full takes points from its octants in turn. From each it takes the first
/// ones, and as long as an octant has more, no octant gives more than one point more than it
/// does, and none behind it gives more than it does.
pub proof fn law_octants_take_turns<S: OctantSource>(
    source: S,
    key: VoxelKey,
    run: Seq<u32>,
    max: usize,
    o: int,
    other: int,
)
    requires
        telling(source, run),
        run.len() > max > 0,
        lod_of(source, key, run, max) is Ok,
        0 <= o < 8,
        0 <= other < 8,
    ensures
        ({
            let own = lod_of(source, key, run, max)->Ok_0[0].points;
            let all = in_octant(source, key, run, o);
            let took = in_octant(source, key, own, o);
            &&& took.is_prefix_of(all)
            &&& took.len() < all.len() ==> in_octant(source, key, own, other).len() <= took.len()
                + if other < o {
                1int
            } else {
                0int
            }
        }),
{
    let parts = parts_of(source, key, run);
    let k = stop(parts, max as int, run.len() as int, 0);
    assert(picked(parts, 0) =~= Seq::empty());
    lemma_stop(source, key, run, max as int, 0);
    lemma_picked_by_octant(source, key, run, k, o);
    lemma_picked_by_octant(source, key, run, k, other);
    assert(lod_of(source, key, run, max)->Ok_0[0].points == picked(parts, k));
    assert(parts[o] == in_octant(source, key, run, o));
    assert(parts[o].take(taken(parts, k, o)).is_prefix_of(parts[o]));
}

/// Points are refused only where more of them than a node may hold are left at the greatest
/// depth.
pub proof fn law_refused_points<S: OctantSource>(
    source: S,
    key: VoxelKey,
    run: Seq<u32>,
    max: usize,
)
    requires
        key.valid(),
        key.level <= MAX_OCTREE_DEPTH,
        run.len() <= usize::MAX,
        lod_of(source, key, run, max) is Err,
    ensures
        lod_of(source, key, run, max)->Err_0 matches Error::InvalidInput(
            Fault::MaximumDepth { key: deep, count, budget },
        ) && deep.level == 30 && page_tree::under(key, deep) && max == budget && max < count
            <= run.len(),
    decreases MAX_OCTREE_DEPTH - key.level, 10int,
{
    page_tree::lemma_under_self(key);
    if key.level < MAX_OCTREE_DEPTH {
        let parts = parts_of(source, key, run);
        let k = stop(parts, max as int, run.len() as int, 0);
        lemma_stop_from(parts, max as int, run.len() as int, 0);
        lemma_refused_children(source, key, run, k, max, 8);
    }
}

proof fn lemma_stop_from(parts: Seq<Seq<u32>>, max: int, n: int, k: int)
    ensures
        stop(parts, max, n, k) >= k,
    decreases 8 * n - k,
{
    if !(k >= 8 * n || picked(parts, k).len() >= max) {
        lemma_stop_from(parts, max, n, k + 1);
    }
}

proof fn lemma_refused_children<S: OctantSource>(
    source: S,
    key: VoxelKey,
    run: Seq<u32>,
    k: int,
    max: usize,
    n: nat,
)
    requires
        n <= 8,
        k >= 0,
        key.valid(),
        key.level < MAX_OCTREE_DEPTH,
        run.len() <= usize::MAX,
        lod_children(source, key, parts_of(source, key, run), k, max, n) is Err,
    ensures
        lod_children(source, key, parts_of(source, key, run), k, max, n)->Err_0
            matches Error::InvalidInput(
            Fault::MaximumDepth { key: deep, count, budget },
        ) && deep.level == 30 && page_tree::under(key, deep) && max == budget && max < count
            <= run.len(),
    decreases MAX_OCTREE_DEPTH - key.level, n,
{
    let parts = parts_of(source, key, run);
    if n > 0 {
        let m = (n - 1) as nat;
        if lod_children(source, key, parts, k, max, m) is Err {
            lemma_refused_children(source, key, run, k, max, m);
        } else {
            let octant = (n - 1) as u8;
            hierarchy::law_child(key, octant);
            let child = key.child_spec(octant)->Ok_0;
            hierarchy::lemma_child_valid(key, octant);
            let rest = left(parts, k, n - 1);
            lemma_filter_len(run, lies_in(source, key, n - 1));
            law_refused_points(source, child, rest, max);
            let error = lod_of(source, child, rest, max)->Err_0;
            page_tree::lemma_under_self(child);
            page_tree::lemma_octant(key, octant, child);
            match error {
                Error::InvalidInput(Fault::MaximumDepth { key: deep, count, budget }) => {
                    page_tree::lemma_under_transitive(key, child, deep);
                },
                _ => {},
            }
        }
    }
}

/// The octant of a point has a bit for each axis: one for x, two for y, four for z, set just
/// where the point is not below the middle.
pub proof fn law_octant_bits(center: (F64, F64, F64), x: F64, y: F64, z: F64)
    requires
        !center.0.nan() && !center.1.nan() && !center.2.nan(),
        !x.nan() && !y.nan() && !z.nan(),
    ensures
        0 <= octant_of(center, x, y, z) < 8,
        octant_of(center, x, y, z) % 2 == 1 <==> !x.lt(center.0),
        octant_of(center, x, y, z) / 2 % 2 == 1 <==> !y.lt(center.1),
        octant_of(center, x, y, z) / 4 % 2 == 1 <==> !z.lt(center.2),
{
}

/// A path holds three bits for each level, the lowest ones for the root: what is above them is
/// the path from the next level on.
pub proof fn law_path_steps(paths: OctantPaths, deeper: OctantPaths, index: u32, key: VoxelKey)
    requires
        index < paths.paths@.len(),
        deeper.paths@.len() == paths.paths@.len(),
        deeper.paths@[index as int] == paths.paths@[index as int] / 8,
        0 <= key.level,
    ensures
        key.level == 0 ==> paths.octant_at(index, key) == paths.paths@[index as int] % 8,
        key.level > 0 ==> paths.octant_at(index, key) == deeper.octant_at(
            index,
            VoxelKey { level: (key.level - 1) as i32, x: key.x, y: key.y, z: key.z },
        ),
{
    let path = paths.paths@[index as int] as int;
    if key.level > 0 {
        let n = (key.level - 1) as nat;
        lemma_pow8_positive(n);
        assert(pow8(n + 1) == 8 * pow8(n));
        vstd::arithmetic::div_mod::lemma_div_denominator(path, 8, pow8(n) as int);
    } else {
        assert(pow8(0) == 1);
        vstd::arithmetic::div_mod::lemma_div_basics(path);
    }
}

/// The points of an index are all the points, each once.
pub proof fn law_all_points(count: u32, index: u32)
    ensures
        all_points(count).len() == count,
        all_points(count).contains(index) <==> index < count,
        all_points(count).no_duplicates(),
{
    if index < count {
        assert(all_points(count)[index as int] == index);
    }
}

/// Nodes in order go by level, then by x, y and z.
pub proof fn law_nodes_by_key(nodes: Seq<LodNodeRange>, i: int, j: int)
    requires
        by_key(nodes),
        0 <= i < j < nodes.len(),
        nodes[i].key.nonnegative(),
        nodes[j].key.nonnegative(),
    ensures
        nodes[i].key.order() <= nodes[j].key.order(),
{
    assert(sort::key_not_after(nodes[i].key, nodes[j].key));
    crate::index::law_order_is_lexicographic(nodes[j].key, nodes[i].key);
}

/// The points of a node are those from its start on in the order of all points, as many as it
/// counts.
pub proof fn law_points_of_a_range(
    nodes: Seq<LodNodeRange>,
    order: Seq<u32>,
    i: int,
    j: int,
)
    requires
        in_order(nodes, order),
        0 <= i < nodes.len(),
    ensures
        lod_models(nodes, order).len() == nodes.len(),
        lod_models(nodes, order)[i].key == nodes[i].key,
        lod_models(nodes, order)[i].points.len() == nodes[i].count,
        0 <= j < nodes[i].count ==> lod_models(nodes, order)[i].points[j] == order[nodes[i].start
            + j],
{
    assert(nodes[i].start + nodes[i].count <= order.len());
}

} // verus!
