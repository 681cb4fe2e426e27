//! Points spread over the nodes of an octree.

use copc::bounds::Bounds;
use copc::cancel::{CancelCheck, NeverCancel};
use copc::error::{Error, Fault, Result};
use copc::float::F64;
use copc::hierarchy::VoxelKey;
use copc::lod::{
    build_lod_index, child_octant, LodIndex, MemoryRun, OctantPaths, OctantSource,
};
use copc::source::CopcPointFields;
use copc::writer::CopcWriterParams;

fn f(value: f64) -> F64 {
    F64::from_bits(value.to_bits())
}

fn v(value: F64) -> f64 {
    f64::from_bits(value.bits)
}

/// Points of which each lies in an octant of a node.
struct VecSource {
    points: Vec<CopcPointFields>,
    center: (f64, f64, f64),
    halfsize: f64,
}

impl VecSource {
    fn new(points: Vec<CopcPointFields>) -> Self {
        let bounds = source_bounds(&points);
        let (center, halfsize) = cube_from_bounds(&bounds);
        VecSource {
            points,
            center,
            halfsize,
        }
    }
}

impl OctantSource for VecSource {
    fn octant(&self, index: u32, key: VoxelKey) -> Result<u8> {
        let p = &self.points[index as usize];
        let mut min = (
            self.center.0 - self.halfsize,
            self.center.1 - self.halfsize,
            self.center.2 - self.halfsize,
        );
        let mut max = (
            self.center.0 + self.halfsize,
            self.center.1 + self.halfsize,
            self.center.2 + self.halfsize,
        );
        let middle = |min: (f64, f64, f64), max: (f64, f64, f64)| {
            (
                (min.0 + max.0) * 0.5,
                (min.1 + max.1) * 0.5,
                (min.2 + max.2) * 0.5,
            )
        };
        for depth in (0..key.level).rev() {
            let center = middle(min, max);
            if (key.x >> depth) & 1 == 0 {
                max.0 = center.0;
            } else {
                min.0 = center.0;
            }
            if (key.y >> depth) & 1 == 0 {
                max.1 = center.1;
            } else {
                min.1 = center.1;
            }
            if (key.z >> depth) & 1 == 0 {
                max.2 = center.2;
            } else {
                min.2 = center.2;
            }
        }
        let center = middle(min, max);
        let center = (f(center.0), f(center.1), f(center.2));
        Ok(child_octant(center, p.x, p.y, p.z))
    }
}

fn cube_from_bounds(bounds: &Bounds) -> ((f64, f64, f64), f64) {
    let dx = v(bounds.max.0) - v(bounds.min.0);
    let dy = v(bounds.max.1) - v(bounds.min.1);
    let dz = v(bounds.max.2) - v(bounds.min.2);
    let center = (
        v(bounds.min.0) + dx * 0.5,
        v(bounds.min.1) + dy * 0.5,
        v(bounds.min.2) + dz * 0.5,
    );
    let halfsize = (dx.max(dy).max(dz) * 0.5).max(1e-6);
    (center, halfsize)
}

fn source_bounds(points: &[CopcPointFields]) -> Bounds {
    points.iter().fold(
        Bounds::point(points[0].x, points[0].y, points[0].z),
        |mut bounds, point| {
            bounds.extend(point.x, point.y, point.z);
            bounds
        },
    )
}

fn build(source: &VecSource, params: &CopcWriterParams) -> Result<LodIndex<MemoryRun>> {
    build_lod_index(
        source,
        source.points.len(),
        params.max_points_per_node,
        &NeverCancel,
    )
}

fn read_lod_index(index: &LodIndex<MemoryRun>) -> Vec<(VoxelKey, Vec<u32>)> {
    index
        .nodes
        .iter()
        .map(|node| {
            (
                node.key,
                index.order.indices[node.start..node.start + node.count].to_vec(),
            )
        })
        .collect()
}

fn field(x: f64, y: f64, z: f64, i: u32) -> CopcPointFields {
    let mut fields = CopcPointFields::default();
    fields.x = f(x);
    fields.y = f(y);
    fields.z = f(z);
    fields.return_number = 1;
    fields.number_of_returns = 1;
    fields.gps_time = f(f64::from(i));
    fields
}

#[test]
fn spooled_lod_index_covers_each_point_once() {
    let points = (0..257u32)
        .map(|i| {
            field(
                f64::from((i * 37) % 101),
                f64::from((i * 53) % 103),
                f64::from((i * 71) % 107),
                i,
            )
        })
        .collect();
    let source = VecSource::new(points);
    let params = CopcWriterParams::new(7);

    let spooled = build(&source, &params).unwrap();
    let ranges = read_lod_index(&spooled);

    let mut seen = vec![false; source.points.len()];
    let mut total = 0usize;
    for (_key, indices) in ranges {
        assert!(indices.len() <= params.max_points_per_node as usize);
        for index in indices {
            let seen = &mut seen[index as usize];
            assert!(!*seen, "point index {index} was assigned more than once");
            *seen = true;
            total += 1;
        }
    }
    assert_eq!(source.points.len(), total);
    assert!(seen.into_iter().all(|value| value));
}

#[test]
fn dense_cluster_stays_bounded_below_giant_chunks() {
    // 4000 distinct points packed into a ~0.4-unit cluster ...
    let mut points: Vec<CopcPointFields> = (0..4_000u32)
        .map(|i| {
            let f = f64::from(i);
            field(
                f * 1e-4,
                (f * 1.7).fract() * 0.4,
                (f * 2.3).fract() * 0.4,
                i,
            )
        })
        .collect();
    // ... plus a few points spread wide to set large bounds around it.
    for i in 0..8u32 {
        points.push(field(
            f64::from(i) * 1000.0,
            f64::from(i) * 1000.0,
            f64::from(i) * 100.0,
            100_000 + i,
        ));
    }
    let max_points = 100usize;
    let source = VecSource::new(points);
    let params = CopcWriterParams::new(max_points as u32);

    let lod = build(&source, &params).unwrap();
    for (key, indices) in read_lod_index(&lod) {
        assert!(
            indices.len() <= max_points,
            "node {key:?} holds {} points, exceeding max_points_per_node {max_points}",
            indices.len(),
        );
    }
}

#[test]
fn identical_points_fail_instead_of_creating_an_unbounded_leaf() {
    let point = field(1.0, 1.0, 1.0, 0);
    let source = VecSource::new(vec![point; 32]);
    let error = build(&source, &CopcWriterParams::new(1))
        .err()
        .expect("identical points must exceed the depth cap");

    assert!(error.message().contains("maximum depth"));
}

/// The first points of each octant go to the node, in turns, and the others to the octant's
/// own node.
#[test]
fn nodes_take_points_of_their_octants_in_turns() {
    // Octants 0, 0, 0, 7, 7 of the root.
    let source = OctantPaths {
        paths: vec![0, 0, 0, 7, 7],
    };
    let index: LodIndex<MemoryRun> = build_lod_index(&source, 5, 3, &NeverCancel).unwrap();
    let nodes = read_lod_index(&index);
    assert_eq!(
        vec![
            (VoxelKey::root(), vec![0, 3, 1]),
            (VoxelKey::root().child(0).unwrap(), vec![2]),
            (VoxelKey::root().child(7).unwrap(), vec![4]),
        ],
        nodes
    );
}

#[test]
fn an_index_without_a_budget_is_refused() {
    let source = OctantPaths { paths: vec![0] };
    let error = build_lod_index::<OctantPaths, MemoryRun, NeverCancel>(
        &source,
        1,
        0,
        &NeverCancel,
    )
    .err()
    .unwrap();
    assert!(matches!(error, Error::InvalidInput(Fault::ZeroNodeBudget)));
}

struct AlwaysCancelled;

impl CancelCheck for AlwaysCancelled {
    fn check(&self) -> Result<()> {
        Err(Error::Cancelled)
    }
}

#[test]
fn a_cancelled_index_is_given_up() {
    let source = OctantPaths { paths: vec![0] };
    let error = build_lod_index::<OctantPaths, MemoryRun, AlwaysCancelled>(
        &source,
        1,
        1,
        &AlwaysCancelled,
    )
    .err()
    .unwrap();
    assert!(matches!(error, Error::Cancelled));
}

#[test]
fn nodes_come_behind_their_parents() {
    let points = (0..3_000)
        .map(|i| {
            let t = f64::from(i);
            field((t * 37.0) % 251.0, (t * 53.0) % 257.0, (t * 71.0) % 63.0, i)
        })
        .collect();
    let index = build(&VecSource::new(points), &CopcWriterParams::new(40)).unwrap();
    let keys: Vec<VoxelKey> = read_lod_index(&index).iter().map(|(key, _)| *key).collect();
    assert_eq!(VoxelKey::root(), keys[0]);
    assert!(keys.iter().any(|key| key.level > 1));
    for (i, key) in keys.iter().enumerate().skip(1) {
        assert!(key.level <= 30);
        assert!(keys[..i].iter().any(|parent| {
            parent.level + 1 == key.level
                && (parent.x, parent.y, parent.z) == (key.x / 2, key.y / 2, key.z / 2)
        }));
    }
}

#[test]
fn octants_are_told_by_the_middle() {
    let center = (f(1.0), f(-2.0), f(0.0));
    assert_eq!(0, child_octant(center, f(0.5), f(-2.5), f(-1.0)));
    assert_eq!(1, child_octant(center, f(1.0), f(-2.5), f(-1.0)));
    assert_eq!(2, child_octant(center, f(0.5), f(-2.0), f(-1.0)));
    assert_eq!(4, child_octant(center, f(0.5), f(-2.5), f(-0.0)));
    assert_eq!(7, child_octant(center, f(2.0), f(3.0), f(4.0)));
    assert_eq!(0, child_octant(center, f(f64::NAN), f(f64::NAN), f(f64::NAN)));
}
