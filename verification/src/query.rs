//! Which nodes a query selects.

use vstd::prelude::*;

use crate::bounds::Bounds;
use crate::error::{Axis, Corner, Error, Fault, Result};
use crate::float::F64;
use crate::hierarchy::{Entry, VoxelKey};
use crate::info::CopcInfo;
use crate::sort;
use crate::sort::sort_by_offset;

verus! {

/// Which octree levels a query takes.
#[derive(Clone, Copy, Debug, PartialEq)]
pub enum LodSelection {
    /// Every level.
    All,
    /// The levels that are needed for the point spacing.
    Resolution(F64),
    /// One level.
    Level(i32),
    /// The levels from the first up to, but not including, the second.
    LevelMinMax(i32, i32),
}

/// Which part of space a query takes.
#[derive(Clone, Copy, Debug, PartialEq)]
pub enum BoundsSelection {
    All,
    Within(Bounds),
}

/// What points are asked for.
#[derive(Clone, Copy, Debug, PartialEq)]
pub struct PointQuery {
    pub lod: LodSelection,
    pub bounds: BoundsSelection,
}

impl PointQuery {
    /// Everything.
    pub fn all() -> (r: PointQuery)
        ensures
            r == (PointQuery { lod: LodSelection::All, bounds: BoundsSelection::All }),
    {
        PointQuery { lod: LodSelection::All, bounds: BoundsSelection::All }
    }

    pub fn new(lod: LodSelection, bounds: BoundsSelection) -> (r: PointQuery)
        ensures
            r == (PointQuery { lod, bounds }),
    {
        PointQuery { lod, bounds }
    }
}

/// The box of a query, where it has one.
pub open spec fn box_of(query: PointQuery) -> Option<Bounds> {
    match query.bounds {
        BoundsSelection::All => None,
        BoundsSelection::Within(bounds) => Some(bounds),
    }
}

/// The box of a query, where it has one.
pub fn query_bounds(query: PointQuery) -> (r: Option<Bounds>)
    ensures
        r == box_of(query),
{
    match query.bounds {
        BoundsSelection::All => None,
        BoundsSelection::Within(bounds) => Some(bounds),
    }
}

pub open spec fn not_finite(corner: Corner, axis: Axis) -> Result<()> {
    Err(Error::InvalidInput(Fault::QueryBoundNotFinite { corner, axis }))
}

/// What [`validate_query`] answers.
pub open spec fn query_check(query: PointQuery) -> Result<()> {
    match query.bounds {
        BoundsSelection::All => Ok(()),
        BoundsSelection::Within(b) => if !b.min.0.finite() {
            not_finite(Corner::Min, Axis::X)
        } else if !b.min.1.finite() {
            not_finite(Corner::Min, Axis::Y)
        } else if !b.min.2.finite() {
            not_finite(Corner::Min, Axis::Z)
        } else if !b.max.0.finite() {
            not_finite(Corner::Max, Axis::X)
        } else if !b.max.1.finite() {
            not_finite(Corner::Max, Axis::Y)
        } else if !b.max.2.finite() {
            not_finite(Corner::Max, Axis::Z)
        } else if b.max.0.lt(b.min.0) {
            Err(Error::InvalidInput(Fault::QueryBoundsOrder { axis: Axis::X }))
        } else if b.max.1.lt(b.min.1) {
            Err(Error::InvalidInput(Fault::QueryBoundsOrder { axis: Axis::Y }))
        } else if b.max.2.lt(b.min.2) {
            Err(Error::InvalidInput(Fault::QueryBoundsOrder { axis: Axis::Z }))
        } else {
            Ok(())
        },
    }
}

fn check_finite(value: F64, corner: Corner, axis: Axis) -> (r: Result<()>)
    ensures
        r == (if value.finite() {
            Ok(())
        } else {
            not_finite(corner, axis)
        }),
{
    if value.is_finite() {
        Ok(())
    } else {
        Err(Error::InvalidInput(Fault::QueryBoundNotFinite { corner, axis }))
    }
}

fn check_order(min: F64, max: F64, axis: Axis) -> (r: Result<()>)
    ensures
        r == (if max.lt(min) {
            Err(Error::InvalidInput(Fault::QueryBoundsOrder { axis }))
        } else {
            Ok(())
        }),
{
    if max.is_less(min) {
        Err(Error::InvalidInput(Fault::QueryBoundsOrder { axis }))
    } else {
        Ok(())
    }
}

/// Refuses boxes that are not finite or whose corners are in the wrong order.
pub fn validate_query(query: PointQuery) -> (r: Result<()>)
    ensures
        r == query_check(query),
{
    match query.bounds {
        BoundsSelection::All => Ok(()),
        BoundsSelection::Within(b) => {
            check_finite(b.min.0, Corner::Min, Axis::X)?;
            check_finite(b.min.1, Corner::Min, Axis::Y)?;
            check_finite(b.min.2, Corner::Min, Axis::Z)?;
            check_finite(b.max.0, Corner::Max, Axis::X)?;
            check_finite(b.max.1, Corner::Max, Axis::Y)?;
            check_finite(b.max.2, Corner::Max, Axis::Z)?;
            check_order(b.min.0, b.max.0, Axis::X)?;
            check_order(b.min.1, b.max.1, Axis::Y)?;
            check_order(b.min.2, b.max.2, Axis::Z)?;
            Ok(())
        },
    }
}

/// The first level that is not taken, for a resolution that needs the spacing halved
/// `halvings` times.
pub open spec fn resolution_level(halvings: i64) -> i32 {
    if halvings < 0 {
        1
    } else if halvings >= i32::MAX {
        i32::MAX
    } else {
        (halvings + 1) as i32
    }
}

/// What [`level_range`] answers.
pub open spec fn levels_of(lod: LodSelection, info: CopcInfo, halvings: i64) -> Result<
    (i32, i32),
> {
    match lod {
        LodSelection::All => Ok((0, i32::MAX)),
        LodSelection::Resolution(resolution) => if !resolution.finite() || !resolution.positive() {
            Err(Error::InvalidInput(Fault::ResolutionInvalid))
        } else if !info.spacing.finite() || !info.spacing.positive() {
            Err(Error::InvalidData(Fault::SpacingInvalid))
        } else {
            Ok((0, resolution_level(halvings)))
        },
        LodSelection::Level(level) => if level < 0 {
            Err(Error::InvalidInput(Fault::NegativeLevel { level }))
        } else if level == i32::MAX {
            Err(Error::InvalidInput(Fault::LevelTooLarge { level }))
        } else {
            Ok((level, (level + 1) as i32))
        },
        LodSelection::LevelMinMax(min, max) => if min < 0 {
            Err(Error::InvalidInput(Fault::NegativeLevel { level: min }))
        } else if max < 0 {
            Err(Error::InvalidInput(Fault::NegativeLevel { level: max }))
        } else if max < min {
            Err(Error::InvalidInput(Fault::LevelOrder { min, max }))
        } else {
            Ok((min, max))
        },
    }
}

fn validate_level(level: i32) -> (r: Result<()>)
    ensures
        r == (if level < 0 {
            Err(Error::InvalidInput(Fault::NegativeLevel { level }))
        } else {
            Ok(())
        }),
{
    if level < 0 {
        return Err(Error::InvalidInput(Fault::NegativeLevel { level }));
    }
    Ok(())
}

/// The levels of a selection: from the first up to, but not including, the second.
///
/// `halvings` is the logarithm to base two of spacing over resolution, rounded up; it counts
/// only for a selection by resolution.
pub fn level_range(lod: LodSelection, info: &CopcInfo, halvings: i64) -> (r: Result<(i32, i32)>)
    ensures
        r == levels_of(lod, *info, halvings),
{
    match lod {
        LodSelection::All => Ok((0, i32::MAX)),
        LodSelection::Resolution(resolution) => {
            if !resolution.is_finite() || !resolution.is_positive() {
                return Err(Error::InvalidInput(Fault::ResolutionInvalid));
            }
            if !info.spacing.is_finite() || !info.spacing.is_positive() {
                return Err(Error::InvalidData(Fault::SpacingInvalid));
            }
            let limit: i64 = i32::MAX as i64;
            if halvings < 0 {
                Ok((0, 1))
            } else if halvings >= limit {
                Ok((0, i32::MAX))
            } else {
                Ok((0, (halvings + 1) as i32))
            }
        },
        LodSelection::Level(level) => {
            validate_level(level)?;
            if level == i32::MAX {
                return Err(Error::InvalidInput(Fault::LevelTooLarge { level }));
            }
            Ok((level, level + 1))
        },
        LodSelection::LevelMinMax(min, max) => {
            validate_level(min)?;
            validate_level(max)?;
            if max < min {
                return Err(Error::InvalidInput(Fault::LevelOrder { min, max }));
            }
            Ok((min, max))
        },
    }
}

/// Whether a node with points is selected.
pub open spec fn chosen(
    entry: Entry,
    node: Bounds,
    levels: (i32, i32),
    bounds: Option<Bounds>,
) -> bool {
    &&& entry.point_count > 0
    &&& levels.0 <= entry.key.level < levels.1
    &&& bounds matches Some(b) ==> node.meets(b)
}

/// The selected ones of the first `n` entries, in the order of the entries.
pub open spec fn selected(
    entries: Seq<Entry>,
    nodes: Seq<Bounds>,
    n: nat,
    levels: (i32, i32),
    bounds: Option<Bounds>,
) -> Result<Seq<Entry>>
    decreases n,
{
    if n == 0 {
        Ok(Seq::empty())
    } else {
        match selected(entries, nodes, (n - 1) as nat, levels, bounds) {
            Err(error) => Err(error),
            Ok(before) => {
                let entry = entries[n - 1];
                if entry.point_count > 0 && entry.byte_size <= 0 {
                    Err(
                        Error::InvalidData(
                            Fault::ChunkByteSize { key: entry.key, byte_size: entry.byte_size },
                        ),
                    )
                } else if chosen(entry, nodes[n - 1], levels, bounds) {
                    Ok(before.push(entry))
                } else {
                    Ok(before)
                }
            },
        }
    }
}

/// What [`select_point_chunks_from`] selects, before it is put in order.
pub open spec fn selection_of(
    entries: Seq<Entry>,
    nodes: Seq<Bounds>,
    info: CopcInfo,
    query: PointQuery,
    halvings: i64,
) -> Result<Seq<Entry>> {
    match query_check(query) {
        Err(error) => Err(error),
        Ok(_) => match levels_of(query.lod, info, halvings) {
            Err(error) => Err(error),
            Ok(levels) => selected(entries, nodes, entries.len(), levels, box_of(query)),
        },
    }
}

proof fn lemma_selected_error(
    entries: Seq<Entry>,
    nodes: Seq<Bounds>,
    n: nat,
    m: nat,
    levels: (i32, i32),
    bounds: Option<Bounds>,
)
    requires
        n <= m,
        selected(entries, nodes, n, levels, bounds) is Err,
    ensures
        selected(entries, nodes, m, levels, bounds) == selected(entries, nodes, n, levels, bounds),
    decreases m,
{
    if n < m {
        lemma_selected_error(entries, nodes, n, (m - 1) as nat, levels, bounds);
    }
}

/// The nodes with points that a query takes, in the order of their data in the file.
///
/// `nodes` holds the box of each entry's node. For a query without a box they are not looked
/// at.
pub fn select_point_chunks_from(
    entries: &[Entry],
    nodes: &[Bounds],
    info: &CopcInfo,
    query: PointQuery,
    halvings: i64,
) -> (r: Result<Vec<Entry>>)
    requires
        nodes@.len() == entries@.len(),
    ensures
        match selection_of(entries@, nodes@, *info, query, halvings) {
            Ok(chunks) => {
                &&& r is Ok
                &&& sort::sorted(r->Ok_0@)
                &&& r->Ok_0@.to_multiset() =~= chunks.to_multiset()
            },
            Err(error) => r == Err::<Vec<Entry>, Error>(error),
        },
{
    validate_query(query)?;
    let levels = level_range(query.lod, info, halvings)?;
    let bounds = query_bounds(query);
    let mut chunks: Vec<Entry> = Vec::new();
    let mut i: usize = 0;
    while i < entries.len()
        invariant
            i <= entries@.len(),
            nodes@.len() == entries@.len(),
            query_check(query) is Ok,
            levels_of(query.lod, *info, halvings) == Ok::<(i32, i32), Error>(levels),
            bounds == box_of(query),
            selected(entries@, nodes@, i as nat, levels, bounds) == Ok::<Seq<Entry>, Error>(
                chunks@,
            ),
        decreases entries@.len() - i,
    {
        let entry = entries[i];
        if entry.has_point_data() {
            if entry.byte_size <= 0 {
                proof {
                    lemma_selected_error(
                        entries@,
                        nodes@,
                        (i + 1) as nat,
                        entries@.len(),
                        levels,
                        bounds,
                    );
                }
                return Err(
                    Error::InvalidData(
                        Fault::ChunkByteSize { key: entry.key, byte_size: entry.byte_size },
                    ),
                );
            }
            if levels.0 <= entry.key.level && entry.key.level < levels.1 {
                let meets = match bounds {
                    Some(b) => nodes[i].intersects(b),
                    None => true,
                };
                if meets {
                    chunks.push(entry);
                }
            }
        }
        i = i + 1;
    }
    Ok(sort_by_offset(chunks.as_slice()))
}

/// A selection takes exactly the nodes with points on its levels whose box meets the
/// query's, each as often as it is listed.
pub proof fn law_selected(
    entries: Seq<Entry>,
    nodes: Seq<Bounds>,
    n: nat,
    levels: (i32, i32),
    bounds: Option<Bounds>,
    entry: Entry,
)
    requires
        n <= entries.len(),
        entries.len() == nodes.len(),
        selected(entries, nodes, n, levels, bounds) is Ok,
    ensures
        selected(entries, nodes, n, levels, bounds)->Ok_0.contains(entry) <==> exists|i: int|
            0 <= i < n && #[trigger] entries[i] == entry && chosen(
                entry,
                nodes[i],
                levels,
                bounds,
            ),
    decreases n,
{
    if n > 0 {
        law_selected(entries, nodes, (n - 1) as nat, levels, bounds, entry);
        let before = selected(entries, nodes, (n - 1) as nat, levels, bounds)->Ok_0;
        let after = selected(entries, nodes, n, levels, bounds)->Ok_0;
        let last = entries[n - 1];
        if before.contains(entry) {
            let k = choose|k: int| 0 <= k < before.len() && before[k] == entry;
            assert(after[k] == entry);
            let i = choose|i: int|
                0 <= i < n - 1 && #[trigger] entries[i] == entry && chosen(
                    entry,
                    nodes[i],
                    levels,
                    bounds,
                );
            assert(entries[i] == entry && chosen(entry, nodes[i], levels, bounds));
        }
        if last == entry && chosen(last, nodes[n - 1], levels, bounds) {
            assert(after[after.len() - 1] == entry);
        }
        if after.contains(entry) && !before.contains(entry) {
            let k = choose|k: int| 0 <= k < after.len() && after[k] == entry;
            assert(k == before.len());
            assert(entries[n - 1] == entry);
        }
    }
}

/// Nothing is left out of a query for everything: each node with points is taken.
pub proof fn law_all_selects_every_node(
    entries: Seq<Entry>,
    nodes: Seq<Bounds>,
    info: CopcInfo,
    halvings: i64,
    i: int,
)
    requires
        0 <= i < entries.len(),
        entries.len() == nodes.len(),
        forall|k: int| 0 <= k < entries.len() ==> (#[trigger] entries[k]).valid(),
        entries[i].point_count > 0,
        entries[i].key.level < i32::MAX,
    ensures
        ({
            let query = PointQuery { lod: LodSelection::All, bounds: BoundsSelection::All };
            let chunks = selection_of(entries, nodes, info, query, halvings);
            chunks is Ok && chunks->Ok_0.contains(entries[i])
        }),
{
    let levels = (0i32, i32::MAX);
    lemma_selected_ok(entries, nodes, entries.len(), levels, None);
    law_selected(entries, nodes, entries.len(), levels, None, entries[i]);
    assert(chosen(entries[i], nodes[i], levels, None));
}

/// A query takes every node of its levels that holds a point of its box.
pub proof fn law_no_point_is_missed(
    entries: Seq<Entry>,
    nodes: Seq<Bounds>,
    info: CopcInfo,
    query: PointQuery,
    halvings: i64,
    i: int,
    x: F64,
    y: F64,
    z: F64,
)
    requires
        0 <= i < entries.len(),
        entries.len() == nodes.len(),
        forall|k: int| 0 <= k < entries.len() ==> (#[trigger] entries[k]).valid(),
        entries[i].point_count > 0,
        query_check(query) is Ok,
        levels_of(query.lod, info, halvings) matches Ok(levels) && levels.0 <= entries[i].key.level
            < levels.1,
        nodes[i].holds(x, y, z),
        box_of(query) matches Some(b) ==> b.holds(x, y, z),
    ensures
        ({
            let chunks = selection_of(entries, nodes, info, query, halvings);
            chunks is Ok && chunks->Ok_0.contains(entries[i])
        }),
{
    let levels = levels_of(query.lod, info, halvings)->Ok_0;
    let bounds = box_of(query);
    if bounds is Some {
        crate::bounds::law_common_point(nodes[i], bounds->Some_0, x, y, z);
    }
    lemma_selected_ok(entries, nodes, entries.len(), levels, bounds);
    law_selected(entries, nodes, entries.len(), levels, bounds, entries[i]);
    assert(chosen(entries[i], nodes[i], levels, bounds));
}

proof fn lemma_selected_ok(
    entries: Seq<Entry>,
    nodes: Seq<Bounds>,
    n: nat,
    levels: (i32, i32),
    bounds: Option<Bounds>,
)
    requires
        n <= entries.len(),
        forall|k: int| 0 <= k < entries.len() ==> (#[trigger] entries[k]).valid(),
    ensures
        selected(entries, nodes, n, levels, bounds) is Ok,
    decreases n,
{
    if n > 0 {
        lemma_selected_ok(entries, nodes, (n - 1) as nat, levels, bounds);
        assert(entries[n - 1].valid());
    }
}

/// The points of the first `n` chunks, or the first negative count, or an overflow.
pub open spec fn candidates(entries: Seq<Entry>, n: nat) -> Result<usize>
    decreases n,
{
    if n == 0 {
        Ok(0)
    } else {
        match candidates(entries, (n - 1) as nat) {
            Err(error) => Err(error),
            Ok(before) => {
                let entry = entries[n - 1];
                if entry.point_count < 0 {
                    Err(
                        Error::InvalidData(
                            Fault::NegativePointCount {
                                key: entry.key,
                                point_count: entry.point_count,
                            },
                        ),
                    )
                } else if before + entry.point_count > usize::MAX {
                    Err(Error::InvalidData(Fault::CandidateOverflow))
                } else {
                    Ok((before + entry.point_count) as usize)
                }
            },
        }
    }
}

proof fn lemma_candidates_error(entries: Seq<Entry>, n: nat, m: nat)
    requires
        n <= m,
        candidates(entries, n) is Err,
    ensures
        candidates(entries, m) == candidates(entries, n),
    decreases m,
{
    if n < m {
        lemma_candidates_error(entries, n, (m - 1) as nat);
    }
}

/// How many points the chunks hold together.
pub fn total_candidate_points(entries: &[Entry]) -> (r: Result<usize>)
    ensures
        r == candidates(entries@, entries@.len()),
{
    let mut total: usize = 0;
    let mut i: usize = 0;
    while i < entries.len()
        invariant
            i <= entries@.len(),
            candidates(entries@, i as nat) == Ok::<usize, Error>(total),
        decreases entries@.len() - i,
    {
        let entry = entries[i];
        if entry.point_count < 0 {
            proof {
                lemma_candidates_error(entries@, (i + 1) as nat, entries@.len());
            }
            return Err(
                Error::InvalidData(
                    Fault::NegativePointCount { key: entry.key, point_count: entry.point_count },
                ),
            );
        }
        match total.checked_add(entry.point_count as usize) {
            Some(sum) => {
                total = sum;
            },
            None => {
                proof {
                    lemma_candidates_error(entries@, (i + 1) as nat, entries@.len());
                }
                return Err(Error::InvalidData(Fault::CandidateOverflow));
            },
        }
        i = i + 1;
    }
    Ok(total)
}

/// What [`page_may_match`] answers.
pub open spec fn page_matches(
    key: VoxelKey,
    node: Bounds,
    info: CopcInfo,
    query: PointQuery,
    halvings: i64,
) -> Result<bool> {
    match levels_of(query.lod, info, halvings) {
        Err(error) => Err(error),
        Ok(levels) => Ok(
            key.level < levels.1 && (box_of(query) matches Some(b) ==> node.meets(b)),
        ),
    }
}

/// Whether the page of a subtree can hold nodes that the query takes. `node` is the box of
/// the subtree's root; the nodes of the page lie in it and are not above it.
pub fn page_may_match(
    key: VoxelKey,
    node: &Bounds,
    info: &CopcInfo,
    query: PointQuery,
    halvings: i64,
) -> (r: Result<bool>)
    ensures
        r == page_matches(key, *node, *info, query, halvings),
{
    let levels = level_range(query.lod, info, halvings)?;
    if key.level >= levels.1 {
        return Ok(false);
    }
    match query_bounds(query) {
        Some(b) => Ok(node.intersects(b)),
        None => Ok(true),
    }
}

/// A page that cannot match holds no node that the query takes: its nodes lie at or below
/// its key's level, in boxes that share no point with the query's where the page's box does
/// not.
pub proof fn law_skipped_page(
    key: VoxelKey,
    node: Bounds,
    info: CopcInfo,
    query: PointQuery,
    halvings: i64,
    entry: Entry,
    inner: Bounds,
)
    requires
        page_matches(key, node, info, query, halvings) == Ok::<bool, Error>(false),
        entry.key.level >= key.level,
        forall|b: Bounds| #[trigger] inner.meets(b) ==> node.meets(b),
    ensures
        !chosen(
            entry,
            inner,
            levels_of(query.lod, info, halvings)->Ok_0,
            box_of(query),
        ),
{
}

/// Whether a level is one of a range.
pub open spec fn takes(levels: Result<(i32, i32)>, level: int) -> bool {
    levels is Ok && levels->Ok_0.0 <= level < levels->Ok_0.1
}

/// A selection by resolution takes a level just where it is needed: the level zero, and each
/// level up to the number of times that the spacing has to be halved.
pub proof fn law_levels_of_a_resolution(
    resolution: F64,
    info: CopcInfo,
    halvings: i64,
    level: int,
)
    requires
        resolution.finite() && resolution.positive(),
        info.spacing.finite() && info.spacing.positive(),
        0 <= level < i32::MAX,
    ensures
        takes(levels_of(LodSelection::Resolution(resolution), info, halvings), level)
            <==> level == 0 || level <= halvings,
{
}

/// No level is missing from a selection of all, a selection of one level takes it alone, and
/// one of a range takes the levels from its first on that are below its second.
pub proof fn law_levels_of_a_range(info: CopcInfo, halvings: i64, a: i32, b: i32, level: int)
    requires
        0 <= level < i32::MAX,
    ensures
        takes(levels_of(LodSelection::All, info, halvings), level),
        takes(levels_of(LodSelection::Level(a), info, halvings), level) <==> level == a,
        0 <= a <= b ==> (takes(levels_of(LodSelection::LevelMinMax(a, b), info, halvings), level)
            <==> a <= level < b),
{
}

/// A level selection is refused just where it is by a resolution or a spacing that is no
/// positive number, by a negative level, by the greatest of all, or by a range that ends
/// before it starts.
pub proof fn law_refused_levels(lod: LodSelection, info: CopcInfo, halvings: i64)
    ensures
        levels_of(lod, info, halvings) is Ok <==> match lod {
            LodSelection::All => true,
            LodSelection::Resolution(resolution) => {
                &&& 0 < resolution.bits < 0x7FF0_0000_0000_0000
                &&& 0 < info.spacing.bits < 0x7FF0_0000_0000_0000
            },
            LodSelection::Level(level) => 0 <= level < i32::MAX,
            LodSelection::LevelMinMax(min, max) => 0 <= min <= max,
        },
        levels_of(lod, info, halvings) is Ok ==> 0 <= levels_of(lod, info, halvings)->Ok_0.0
            <= levels_of(lod, info, halvings)->Ok_0.1,
{
}

/// More halvings take no level away.
pub proof fn law_finer_takes_more(
    resolution: F64,
    info: CopcInfo,
    coarse: i64,
    fine: i64,
    level: int,
)
    requires
        coarse <= fine,
        takes(levels_of(LodSelection::Resolution(resolution), info, coarse), level),
    ensures
        takes(levels_of(LodSelection::Resolution(resolution), info, fine), level),
{
}

/// A query passes just where it has no box, or one with finite corners in order, which then
/// holds both its corners.
pub proof fn law_checked_query(query: PointQuery, b: Bounds)
    ensures
        query.bounds == BoundsSelection::All ==> query_check(query) is Ok && box_of(query) is None,
        query.bounds == BoundsSelection::Within(b) ==> {
            &&& box_of(query) == Some(b)
            &&& query_check(query) is Ok <==> {
                &&& b.min.0.finite() && b.min.1.finite() && b.min.2.finite()
                &&& b.max.0.finite() && b.max.1.finite() && b.max.2.finite()
                &&& b.holds(b.min.0, b.min.1, b.min.2)
            }
        },
{
}

/// A query takes an entry with points just where its level is one of the selection's and,
/// for a query with a box, no axis parts the node's box from it. An entry without points is
/// never taken.
pub proof fn law_what_a_query_takes(
    entries: Seq<Entry>,
    nodes: Seq<Bounds>,
    info: CopcInfo,
    query: PointQuery,
    halvings: i64,
    entry: Entry,
)
    requires
        entries.len() == nodes.len(),
        selection_of(entries, nodes, info, query, halvings) is Ok,
    ensures
        selection_of(entries, nodes, info, query, halvings)->Ok_0.contains(entry) <==> exists|i:
            int|
            {
                &&& 0 <= i < entries.len()
                &&& #[trigger] entries[i] == entry
                &&& entry.point_count > 0
                &&& takes(levels_of(query.lod, info, halvings), entry.key.level as int)
                &&& match query.bounds {
                    BoundsSelection::All => true,
                    BoundsSelection::Within(b) => nodes[i].meets(b),
                }
            },
{
    let levels = levels_of(query.lod, info, halvings)->Ok_0;
    let bounds = box_of(query);
    law_selected(entries, nodes, entries.len(), levels, bounds, entry);
    assert forall|i: int| 0 <= i < entries.len() implies (chosen(
        #[trigger] entries[i],
        nodes[i],
        levels,
        bounds,
    ) <==> {
        &&& entries[i].point_count > 0
        &&& takes(levels_of(query.lod, info, halvings), entries[i].key.level as int)
        &&& match query.bounds {
            BoundsSelection::All => true,
            BoundsSelection::Within(b) => nodes[i].meets(b),
        }
    }) by {}
}

/// `at` leads from each place of `part` to an equal item of `whole`, further on each time.
pub open spec fn picks(part: Seq<Entry>, whole: Seq<Entry>, at: Seq<int>) -> bool {
    &&& at.len() == part.len()
    &&& forall|k: int|
        0 <= k < at.len() ==> 0 <= #[trigger] at[k] < whole.len() && part[k] == whole[at[k]]
    &&& forall|j: int, k: int| 0 <= j < k < at.len() ==> #[trigger] at[j] < #[trigger] at[k]
}

/// A selection takes no entry twice and keeps the order of the entries.
pub proof fn law_selected_once(
    entries: Seq<Entry>,
    nodes: Seq<Bounds>,
    n: nat,
    levels: (i32, i32),
    bounds: Option<Bounds>,
)
    requires
        n <= entries.len(),
        selected(entries, nodes, n, levels, bounds) is Ok,
    ensures
        exists|at: Seq<int>| #[trigger]
            picks(
                selected(entries, nodes, n, levels, bounds)->Ok_0,
                entries.subrange(0, n as int),
                at,
            ),
    decreases n,
{
    let whole = entries.subrange(0, n as int);
    let after = selected(entries, nodes, n, levels, bounds)->Ok_0;
    if n == 0 {
        assert(picks(after, whole, Seq::empty()));
    } else {
        law_selected_once(entries, nodes, (n - 1) as nat, levels, bounds);
        let before = selected(entries, nodes, (n - 1) as nat, levels, bounds)->Ok_0;
        let rest = entries.subrange(0, n - 1);
        let at = choose|at: Seq<int>| #[trigger] picks(before, rest, at);
        if chosen(entries[n - 1], nodes[n - 1], levels, bounds) {
            assert(picks(after, whole, at.push(n - 1)));
        } else {
            assert(picks(after, whole, at));
        }
    }
}

/// Entries are refused just where one that has points has no data.
pub proof fn law_refused_entries(
    entries: Seq<Entry>,
    nodes: Seq<Bounds>,
    n: nat,
    levels: (i32, i32),
    bounds: Option<Bounds>,
)
    requires
        n <= entries.len(),
    ensures
        selected(entries, nodes, n, levels, bounds) is Err <==> exists|i: int|
            0 <= i < n && (#[trigger] entries[i]).point_count > 0 && entries[i].byte_size <= 0,
    decreases n,
{
    if n > 0 {
        law_refused_entries(entries, nodes, (n - 1) as nat, levels, bounds);
        let last = entries[n - 1];
        if selected(entries, nodes, (n - 1) as nat, levels, bounds) is Err {
            let i = choose|i: int|
                0 <= i < n - 1 && (#[trigger] entries[i]).point_count > 0 && entries[i].byte_size
                    <= 0;
            assert(entries[i].point_count > 0);
        }
    }
}

/// One chunk counts for its own points.
pub proof fn law_candidates_of_one(entry: Entry)
    requires
        entry.point_count >= 0,
    ensures
        candidates(seq![entry], 1) == Ok::<usize, Error>(entry.point_count as usize),
        candidates(Seq::empty(), 0) == Ok::<usize, Error>(0),
{
    reveal_with_fuel(candidates, 2);
}

/// The chunks of two lists together hold the points of both.
pub proof fn law_candidates_joined(a: Seq<Entry>, b: Seq<Entry>, n: nat)
    requires
        n <= b.len(),
        candidates(a, a.len()) is Ok,
        candidates(b, n) is Ok,
    ensures
        ({
            let sum = candidates(a, a.len())->Ok_0 + candidates(b, n)->Ok_0;
            candidates(a + b, a.len() + n) == if sum <= usize::MAX {
                Ok::<usize, Error>(sum as usize)
            } else {
                Err(Error::InvalidData(Fault::CandidateOverflow))
            }
        }),
    decreases n,
{
    if n == 0 {
        lemma_candidates_prefix(a, b, a.len());
    } else {
        law_candidates_joined(a, b, (n - 1) as nat);
        assert((a + b)[a.len() + n - 1] == b[n - 1]);
    }
}

proof fn lemma_candidates_prefix(a: Seq<Entry>, b: Seq<Entry>, n: nat)
    requires
        n <= a.len(),
    ensures
        candidates(a + b, n) == candidates(a, n),
    decreases n,
{
    if n > 0 {
        lemma_candidates_prefix(a, b, (n - 1) as nat);
        assert((a + b)[n - 1] == a[n - 1]);
    }
}

/// No chunk has fewer than no points.
pub proof fn law_negative_count_is_refused(entries: Seq<Entry>, n: nat, i: int)
    requires
        0 <= i < n <= entries.len(),
        entries[i].point_count < 0,
    ensures
        candidates(entries, n) is Err,
    decreases n,
{
    if i < n - 1 {
        law_negative_count_is_refused(entries, (n - 1) as nat, i);
    }
}

/// A page is passed over where no level from its key's on is taken, and where its box shares
/// nothing with the query's; else it is read.
pub proof fn law_needed_page(
    key: VoxelKey,
    node: Bounds,
    info: CopcInfo,
    query: PointQuery,
    halvings: i64,
)
    requires
        0 <= key.level < i32::MAX,
        levels_of(query.lod, info, halvings) is Ok,
    ensures
        ({
            let levels = levels_of(query.lod, info, halvings);
            page_matches(key, node, info, query, halvings) == Ok::<bool, Error>(
                key.level < levels->Ok_0.1 && (query.bounds is Within ==> node.meets(
                    query.bounds->Within_0,
                )),
            )
        }),
        takes(levels_of(query.lod, info, halvings), key.level as int) && query.bounds is All
            ==> page_matches(key, node, info, query, halvings) == Ok::<bool, Error>(true),
{
}

/// The number of a box at a corner on an axis.
pub open spec fn corner_value(b: Bounds, corner: Corner, axis: Axis) -> F64 {
    let point = match corner {
        Corner::Min => b.min,
        Corner::Max => b.max,
    };
    match axis {
        Axis::X => point.0,
        Axis::Y => point.1,
        Axis::Z => point.2,
    }
}

/// A query is refused for what is wrong with it: the number that is named is not finite, or on
/// the axis that is named the corners are in the wrong order.
pub proof fn law_why_a_query_is_refused(query: PointQuery)
    requires
        query_check(query) is Err,
    ensures
        query.bounds is Within,
        ({
            let b = query.bounds->Within_0;
            match query_check(query)->Err_0 {
                Error::InvalidInput(Fault::QueryBoundNotFinite { corner, axis }) => !corner_value(
                    b,
                    corner,
                    axis,
                ).finite(),
                Error::InvalidInput(Fault::QueryBoundsOrder { axis }) => corner_value(
                    b,
                    Corner::Max,
                    axis,
                ).lt(corner_value(b, Corner::Min, axis)),
                _ => false,
            }
        }),
{
}

/// A level selection is refused for what is wrong with it, and an error that names a level names
/// one of the selection.
pub proof fn law_why_levels_are_refused(lod: LodSelection, info: CopcInfo, halvings: i64)
    requires
        levels_of(lod, info, halvings) is Err,
    ensures
        match levels_of(lod, info, halvings)->Err_0 {
            Error::InvalidInput(Fault::ResolutionInvalid) => lod is Resolution && !(
            lod->Resolution_0.finite() && lod->Resolution_0.positive()),
            Error::InvalidData(Fault::SpacingInvalid) => lod is Resolution && !(
            info.spacing.finite() && info.spacing.positive()),
            Error::InvalidInput(Fault::NegativeLevel { level }) => level < 0 && match lod {
                LodSelection::Level(own) => level == own,
                LodSelection::LevelMinMax(min, max) => level == min || level == max,
                _ => false,
            },
            Error::InvalidInput(Fault::LevelTooLarge { level }) => lod == LodSelection::Level(
                level,
            ) && level == i32::MAX,
            Error::InvalidInput(Fault::LevelOrder { min, max }) => lod
                == LodSelection::LevelMinMax(min, max) && max < min,
            _ => false,
        },
{
}

/// Entries are refused for the first one that has points and no data.
pub proof fn law_why_entries_are_refused(
    entries: Seq<Entry>,
    nodes: Seq<Bounds>,
    n: nat,
    levels: (i32, i32),
    bounds: Option<Bounds>,
)
    requires
        n <= entries.len(),
        selected(entries, nodes, n, levels, bounds) is Err,
    ensures
        exists|i: int|
            {
                &&& 0 <= i < n
                &&& (#[trigger] entries[i]).point_count > 0 && entries[i].byte_size <= 0
                &&& forall|k: int|
                    0 <= k < i ==> !((#[trigger] entries[k]).point_count > 0
                        && entries[k].byte_size <= 0)
                &&& selected(entries, nodes, n, levels, bounds)->Err_0 == Error::InvalidData(
                    Fault::ChunkByteSize { key: entries[i].key, byte_size: entries[i].byte_size },
                )
            },
    decreases n,
{
    let m = (n - 1) as nat;
    if selected(entries, nodes, m, levels, bounds) is Err {
        law_why_entries_are_refused(entries, nodes, m, levels, bounds);
    } else {
        law_refused_entries(entries, nodes, m, levels, bounds);
        assert(entries[n - 1].point_count > 0);
    }
}

} // verus!
