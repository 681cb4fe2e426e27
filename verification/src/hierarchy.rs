//! Octree voxel keys, hierarchy entries and hierarchy pages.

use vstd::prelude::*;

use crate::bytes;
use crate::bytes::{bits_i32, push_le, put_bytes, read_i32, read_u64};
use crate::error::{Error, Fault, Result};

verus! {

/// The size of one hierarchy entry in a page.
pub const HIERARCHY_ENTRY_BYTES: usize = 32;

/// A node of the octree: its depth and its place on each axis of that depth's grid.
#[derive(Clone, Copy, Debug, PartialEq, Eq, Hash, PartialOrd, Ord, Structural)]
pub struct VoxelKey {
    pub level: i32,
    pub x: i32,
    pub y: i32,
    pub z: i32,
}

/// Two to the power `n`.
pub open spec fn pow2(n: nat) -> nat
    decreases n,
{
    if n == 0 {
        1
    } else {
        2 * pow2((n - 1) as nat)
    }
}

pub proof fn lemma_pow2_monotonic(a: nat, b: nat)
    requires
        a <= b,
    ensures
        0 < pow2(a) <= pow2(b),
    decreases b,
{
    if b > 0 {
        if a == b {
            lemma_pow2_monotonic((a - 1) as nat, (b - 1) as nat);
        } else {
            lemma_pow2_monotonic(a, (b - 1) as nat);
        }
    }
}

pub proof fn lemma_pow2_30()
    ensures
        pow2(30) == 0x4000_0000,
        pow2(31) == 0x8000_0000,
{
    reveal_with_fuel(pow2, 32);
}

fn axis_limit(level: i32) -> (r: i32)
    requires
        0 <= level < 31,
    ensures
        r == pow2(level as nat),
{
    let mut limit: i32 = 1;
    let mut i: i32 = 0;
    proof {
        lemma_pow2_30();
    }
    while i < level
        invariant
            0 <= i <= level < 31,
            limit == pow2(i as nat),
            pow2(30) == 0x4000_0000,
        decreases level - i,
    {
        proof {
            lemma_pow2_monotonic((i + 1) as nat, 30);
        }
        limit = limit * 2;
        i = i + 1;
    }
    limit
}

impl VoxelKey {
    /// Whether the key names a node: no part is negative, and on the levels whose grid
    /// is smaller than the range of an axis, each axis lies in the grid.
    pub open spec fn valid(self) -> bool {
        &&& self.level >= 0 && self.x >= 0 && self.y >= 0 && self.z >= 0
        &&& self.level < 31 ==> {
            &&& self.x < pow2(self.level as nat)
            &&& self.y < pow2(self.level as nat)
            &&& self.z < pow2(self.level as nat)
        }
    }

    /// What [`VoxelKey::validate`] answers.
    pub open spec fn validity(self) -> Result<()> {
        if self.level < 0 || self.x < 0 || self.y < 0 || self.z < 0 {
            Err(Error::InvalidData(Fault::NegativeVoxelKey { key: self }))
        } else if !self.valid() {
            Err(
                Error::InvalidData(
                    Fault::VoxelAxisOutsideLimit {
                        key: self,
                        limit: pow2(self.level as nat) as i32,
                    },
                ),
            )
        } else {
            Ok(())
        }
    }

    /// The key of the given octant of this node, without any check.
    pub open spec fn octant_key(self, octant: int) -> (int, int, int, int) {
        (
            self.level + 1,
            2 * self.x + octant % 2,
            2 * self.y + octant / 2 % 2,
            2 * self.z + octant / 4 % 2,
        )
    }

    /// What [`VoxelKey::child`] answers.
    pub open spec fn child_spec(self, octant: u8) -> Result<VoxelKey> {
        let (level, x, y, z) = self.octant_key(octant as int);
        if self.validity() is Err {
            Err(self.validity()->Err_0)
        } else if octant > 7 {
            Err(Error::InvalidInput(Fault::OctantOutOfRange { octant }))
        } else if level > i32::MAX {
            Err(Error::InvalidInput(Fault::VoxelLevelOverflow))
        } else if x > i32::MAX || y > i32::MAX || z > i32::MAX {
            Err(Error::InvalidInput(Fault::VoxelAxisOverflow))
        } else {
            Ok(VoxelKey { level: level as i32, x: x as i32, y: y as i32, z: z as i32 })
        }
    }

    /// The node that is the whole cube.
    pub fn root() -> (r: VoxelKey)
        ensures
            r == (VoxelKey { level: 0, x: 0, y: 0, z: 0 }),
            r.valid(),
    {
        VoxelKey { level: 0, x: 0, y: 0, z: 0 }
    }

    /// The node one level down in the given octant. Bit 0 of `octant` is the half on the
    /// x axis, bit 1 on y, bit 2 on z.
    pub fn child(self, octant: u8) -> (r: Result<VoxelKey>)
        ensures
            r == self.child_spec(octant),
            r is Ok ==> r->Ok_0.valid(),
    {
        match self.validate() {
            Ok(_) => {},
            Err(error) => {
                return Err(error);
            },
        }
        if octant > 7 {
            return Err(Error::InvalidInput(Fault::OctantOutOfRange { octant }));
        }
        if self.level == i32::MAX {
            return Err(Error::InvalidInput(Fault::VoxelLevelOverflow));
        }
        let x: i64 = self.x as i64 * 2 + (octant % 2) as i64;
        let y: i64 = self.y as i64 * 2 + (octant / 2 % 2) as i64;
        let z: i64 = self.z as i64 * 2 + (octant / 4 % 2) as i64;
        let limit: i64 = i32::MAX as i64;
        if x > limit || y > limit || z > limit {
            return Err(Error::InvalidInput(Fault::VoxelAxisOverflow));
        }
        Ok(VoxelKey { level: self.level + 1, x: x as i32, y: y as i32, z: z as i32 })
    }

    /// Checks the key against the coordinate rules of the octree.
    pub fn validate(self) -> (r: Result<()>)
        ensures
            r == self.validity(),
            r is Ok <==> self.valid(),
    {
        if self.level < 0 || self.x < 0 || self.y < 0 || self.z < 0 {
            return Err(Error::InvalidData(Fault::NegativeVoxelKey { key: self }));
        }
        if self.level < 31 {
            let limit: i32 = axis_limit(self.level);
            if self.x >= limit || self.y >= limit || self.z >= limit {
                return Err(
                    Error::InvalidData(Fault::VoxelAxisOutsideLimit { key: self, limit }),
                );
            }
        }
        Ok(())
    }
}

pub proof fn lemma_child_valid(key: VoxelKey, octant: u8)
    requires
        key.child_spec(octant) is Ok,
    ensures
        key.child_spec(octant)->Ok_0.valid(),
        key.child_spec(octant)->Ok_0.level == key.level + 1,
{
    if key.level + 1 < 31 {
        assert(pow2((key.level + 1) as nat) == 2 * pow2(key.level as nat));
    }
}

/// A child exists for every octant of a valid node above level 31, is itself valid, lies
/// one level down, and the octant can be told from it.
pub proof fn law_child(key: VoxelKey, octant: u8)
    requires
        key.valid(),
        key.level <= 30,
        octant <= 7,
    ensures
        key.child_spec(octant) is Ok,
        ({
            let child = key.child_spec(octant)->Ok_0;
            &&& child.valid()
            &&& child.level == key.level + 1
            &&& child.x as int / 2 == key.x && child.y as int / 2 == key.y && child.z as int / 2
                == key.z
            &&& octant == child.x as int % 2 + 2 * (child.y as int % 2) + 4 * (child.z as int % 2)
        }),
{
    lemma_pow2_30();
    lemma_pow2_monotonic(key.level as nat, 30);
    assert(pow2((key.level + 1) as nat) == 2 * pow2(key.level as nat));
}

/// Only valid nodes above the deepest level have children.
pub proof fn law_child_is_refused(key: VoxelKey, octant: u8)
    ensures
        !key.valid() || octant > 7 ==> key.child_spec(octant) is Err,
{
}

/// One entry of the hierarchy: a node with its points, an empty node, or a reference to
/// the page that holds the node's subtree.
#[derive(Clone, Copy, Debug, PartialEq, Eq, Structural)]
pub struct Entry {
    pub key: VoxelKey,
    pub offset: u64,
    pub byte_size: i32,
    pub point_count: i32,
}

/// What a hierarchy entry stands for.
#[derive(Clone, Copy, Debug, PartialEq, Eq, Structural)]
pub enum EntryAvailability {
    Empty,
    PointData { point_count: u32 },
    ChildPage,
}

impl Entry {
    /// What [`Entry::availability`] answers.
    pub open spec fn availability_spec(self) -> Result<EntryAvailability> {
        if self.point_count == -1 {
            Ok(EntryAvailability::ChildPage)
        } else if self.point_count == 0 {
            Ok(EntryAvailability::Empty)
        } else if self.point_count > 0 {
            Ok(EntryAvailability::PointData { point_count: self.point_count as u32 })
        } else {
            Err(
                Error::InvalidData(
                    Fault::EntryPointCount { key: self.key, point_count: self.point_count },
                ),
            )
        }
    }

    /// Whether the entry is well-formed whatever file it stands in.
    pub open spec fn valid(self) -> bool {
        &&& self.key.valid()
        &&& self.point_count >= -1
        &&& self.point_count == 0 ==> self.offset == 0 && self.byte_size == 0
        &&& self.point_count != 0 ==> self.byte_size > 0
    }

    /// What [`Entry::validate`] answers.
    pub open spec fn validity(self) -> Result<()> {
        if self.key.validity() is Err {
            self.key.validity()
        } else if self.availability_spec() is Err {
            Err(self.availability_spec()->Err_0)
        } else if self.point_count == 0 && (self.offset != 0 || self.byte_size != 0) {
            Err(Error::InvalidData(Fault::EmptyEntryNotZero { key: self.key }))
        } else if self.point_count > 0 && self.byte_size <= 0 {
            Err(
                Error::InvalidData(
                    Fault::PointEntryByteSize { key: self.key, byte_size: self.byte_size },
                ),
            )
        } else if self.point_count == -1 && self.byte_size <= 0 {
            Err(
                Error::InvalidData(
                    Fault::ChildPageByteSize { key: self.key, byte_size: self.byte_size },
                ),
            )
        } else {
            Ok(())
        }
    }

    /// Checks what does not depend on the file that the entry stands in.
    pub fn validate(self) -> (r: Result<()>)
        ensures
            r == self.validity(),
            r is Ok <==> self.valid(),
    {
        match self.key.validate() {
            Ok(_) => {},
            Err(error) => {
                return Err(error);
            },
        }
        match self.availability() {
            Ok(EntryAvailability::Empty) => {
                if self.offset != 0 || self.byte_size != 0 {
                    return Err(Error::InvalidData(Fault::EmptyEntryNotZero { key: self.key }));
                }
            },
            Ok(EntryAvailability::PointData { .. }) => {
                if self.byte_size <= 0 {
                    return Err(
                        Error::InvalidData(
                            Fault::PointEntryByteSize { key: self.key, byte_size: self.byte_size },
                        ),
                    );
                }
            },
            Ok(EntryAvailability::ChildPage) => {
                if self.byte_size <= 0 {
                    return Err(
                        Error::InvalidData(
                            Fault::ChildPageByteSize { key: self.key, byte_size: self.byte_size },
                        ),
                    );
                }
            },
            Err(error) => {
                return Err(error);
            },
        }
        Ok(())
    }

    pub fn availability(self) -> (r: Result<EntryAvailability>)
        ensures
            r == self.availability_spec(),
    {
        if self.point_count == -1 {
            Ok(EntryAvailability::ChildPage)
        } else if self.point_count == 0 {
            Ok(EntryAvailability::Empty)
        } else if self.point_count > 0 {
            Ok(EntryAvailability::PointData { point_count: self.point_count as u32 })
        } else {
            Err(
                Error::InvalidData(
                    Fault::EntryPointCount { key: self.key, point_count: self.point_count },
                ),
            )
        }
    }

    pub fn has_point_data(self) -> (r: bool)
        ensures
            r == (self.point_count > 0),
    {
        self.point_count > 0
    }

    pub fn is_empty(self) -> (r: bool)
        ensures
            r == (self.point_count == 0),
    {
        self.point_count == 0
    }

    pub fn is_child_page(self) -> (r: bool)
        ensures
            r == (self.point_count == -1),
    {
        self.point_count == -1
    }

    /// Writes the entry's 32 bytes over `dst`, which must have exactly that length.
    pub fn write_le(self, dst: &mut [u8]) -> (r: Result<()>)
        ensures
            r == (if self.validity() is Err {
                self.validity()
            } else if old(dst)@.len() != HIERARCHY_ENTRY_BYTES {
                Err(Error::InvalidInput(Fault::EntryDestination { len: old(dst)@.len() as usize }))
            } else {
                Ok(())
            }),
            r is Ok ==> final(dst)@ == entry_bytes(self),
            r is Err ==> final(dst)@ == old(dst)@,
    {
        match self.validate() {
            Ok(_) => {},
            Err(error) => {
                return Err(error);
            },
        }
        let len: usize = dst.len();
        if len != HIERARCHY_ENTRY_BYTES {
            return Err(Error::InvalidInput(Fault::EntryDestination { len }));
        }
        let encoded = self.to_bytes();
        proof {
            lemma_entry_bytes_len(self);
        }
        put_bytes(dst, 0, encoded.as_slice());
        proof {
            assert(dst@ =~= entry_bytes(self));
        }
        Ok(())
    }

    fn to_bytes(self) -> (r: Vec<u8>)
        ensures
            r@ == entry_bytes(self),
    {
        let mut out: Vec<u8> = Vec::new();
        push_le(&mut out, bits_i32(self.key.level) as u64, 4);
        push_le(&mut out, bits_i32(self.key.x) as u64, 4);
        push_le(&mut out, bits_i32(self.key.y) as u64, 4);
        push_le(&mut out, bits_i32(self.key.z) as u64, 4);
        push_le(&mut out, self.offset, 8);
        push_le(&mut out, bits_i32(self.byte_size) as u64, 4);
        push_le(&mut out, bits_i32(self.point_count) as u64, 4);
        proof {
            assert(out@ =~= entry_bytes(self));
        }
        out
    }

    /// Reads an entry from its 32 bytes.
    pub fn from_le(src: &[u8]) -> (r: Result<Entry>)
        ensures
            r == entry_of(src@),
    {
        let len: usize = src.len();
        if len != HIERARCHY_ENTRY_BYTES {
            return Err(Error::InvalidData(Fault::EntrySource { len }));
        }
        let entry = Entry {
            key: VoxelKey {
                level: read_i32(src, 0),
                x: read_i32(src, 4),
                y: read_i32(src, 8),
                z: read_i32(src, 12),
            },
            offset: read_u64(src, 16),
            byte_size: read_i32(src, 24),
            point_count: read_i32(src, 28),
        };
        match entry.validate() {
            Ok(_) => Ok(entry),
            Err(error) => Err(error),
        }
    }
}

/// The 32 bytes of an entry.
pub open spec fn entry_bytes(entry: Entry) -> Seq<u8> {
    bytes::le_bytes(bytes::pattern32(entry.key.level), 4) + bytes::le_bytes(
        bytes::pattern32(entry.key.x),
        4,
    ) + bytes::le_bytes(bytes::pattern32(entry.key.y), 4) + bytes::le_bytes(
        bytes::pattern32(entry.key.z),
        4,
    ) + bytes::le_bytes(entry.offset as nat, 8) + bytes::le_bytes(
        bytes::pattern32(entry.byte_size),
        4,
    ) + bytes::le_bytes(bytes::pattern32(entry.point_count), 4)
}

/// The fields at their places in the 32 bytes of an entry.
pub open spec fn raw_entry(s: Seq<u8>) -> Entry {
    Entry {
        key: VoxelKey {
            level: bytes::signed32(bytes::le_at(s, 0, 4)) as i32,
            x: bytes::signed32(bytes::le_at(s, 4, 4)) as i32,
            y: bytes::signed32(bytes::le_at(s, 8, 4)) as i32,
            z: bytes::signed32(bytes::le_at(s, 12, 4)) as i32,
        },
        offset: bytes::le_at(s, 16, 8) as u64,
        byte_size: bytes::signed32(bytes::le_at(s, 24, 4)) as i32,
        point_count: bytes::signed32(bytes::le_at(s, 28, 4)) as i32,
    }
}

/// What [`Entry::from_le`] answers.
pub open spec fn entry_of(s: Seq<u8>) -> Result<Entry> {
    if s.len() != HIERARCHY_ENTRY_BYTES {
        Err(Error::InvalidData(Fault::EntrySource { len: s.len() as usize }))
    } else if raw_entry(s).validity() is Err {
        Err(raw_entry(s).validity()->Err_0)
    } else {
        Ok(raw_entry(s))
    }
}

pub proof fn lemma_entry_bytes_len(entry: Entry)
    ensures
        entry_bytes(entry).len() == HIERARCHY_ENTRY_BYTES,
{
    broadcast use bytes::lemma_le_bytes_len;

}

/// Reading an entry's bytes gives the entry again, for every valid entry.
pub proof fn law_entry_round_trip(entry: Entry)
    requires
        entry.valid(),
    ensures
        entry_of(entry_bytes(entry)) == Ok::<Entry, Error>(entry),
{
    broadcast use bytes::lemma_le_bytes_len;

    let s = entry_bytes(entry);
    bytes::lemma_pow256_values();
    assert(s.subrange(0, 4) =~= bytes::le_bytes(
        bytes::pattern32(entry.key.level),
        4,
    ));
    assert(s.subrange(4, 8) =~= bytes::le_bytes(bytes::pattern32(entry.key.x), 4));
    assert(s.subrange(8, 12) =~= bytes::le_bytes(bytes::pattern32(entry.key.y), 4));
    assert(s.subrange(12, 16) =~= bytes::le_bytes(bytes::pattern32(entry.key.z), 4));
    assert(s.subrange(16, 24) =~= bytes::le_bytes(entry.offset as nat, 8));
    assert(s.subrange(24, 28) =~= bytes::le_bytes(
        bytes::pattern32(entry.byte_size),
        4,
    ));
    assert(s.subrange(28, 32) =~= bytes::le_bytes(
        bytes::pattern32(entry.point_count),
        4,
    ));
    bytes::law_le_of_le_bytes(bytes::pattern32(entry.key.level), 4);
    bytes::law_le_of_le_bytes(bytes::pattern32(entry.key.x), 4);
    bytes::law_le_of_le_bytes(bytes::pattern32(entry.key.y), 4);
    bytes::law_le_of_le_bytes(bytes::pattern32(entry.key.z), 4);
    bytes::law_le_of_le_bytes(entry.offset as nat, 8);
    bytes::law_le_of_le_bytes(bytes::pattern32(entry.byte_size), 4);
    bytes::law_le_of_le_bytes(bytes::pattern32(entry.point_count), 4);
    assert(raw_entry(s) == entry);
}

/// A page of the hierarchy: entries one after the other.
#[derive(Clone, Debug, Default, PartialEq, Eq)]
pub struct HierarchyPage {
    entries: Vec<Entry>,
}

impl View for HierarchyPage {
    type V = Seq<Entry>;

    closed spec fn view(&self) -> Seq<Entry> {
        self.entries@
    }
}

/// The bytes of entries one after the other.
pub open spec fn entries_bytes(entries: Seq<Entry>) -> Seq<u8>
    decreases entries.len(),
{
    if entries.len() == 0 {
        Seq::empty()
    } else {
        entries_bytes(entries.drop_last()) + entry_bytes(entries.last())
    }
}

/// The first `n` entries of a page, or the error of the first one that is not valid.
pub open spec fn entries_of(s: Seq<u8>, n: nat) -> Result<Seq<Entry>>
    decreases n,
{
    if n == 0 {
        Ok(Seq::empty())
    } else {
        match entries_of(s, (n - 1) as nat) {
            Err(error) => Err(error),
            Ok(entries) => match entry_of(s.subrange(32 * (n - 1), 32 * (n as int))) {
                Err(error) => Err(error),
                Ok(entry) => Ok(entries.push(entry)),
            },
        }
    }
}

/// What the bytes of a page hold.
pub open spec fn page_of(s: Seq<u8>) -> Result<Seq<Entry>> {
    if s.len() % 32 != 0 {
        Err(Error::InvalidData(Fault::PageNotMultiple { len: s.len() as u64 }))
    } else {
        entries_of(s, s.len() / 32)
    }
}

/// The error of the first entry that is not valid, if there is one.
pub open spec fn first_invalid(entries: Seq<Entry>) -> Result<()>
    decreases entries.len(),
{
    if entries.len() == 0 {
        Ok(())
    } else if first_invalid(entries.drop_last()) is Err {
        first_invalid(entries.drop_last())
    } else {
        entries.last().validity()
    }
}

impl HierarchyPage {
    pub fn new(entries: Vec<Entry>) -> (r: HierarchyPage)
        ensures
            r@ == entries@,
    {
        HierarchyPage { entries }
    }

    pub fn entries(&self) -> (r: &[Entry])
        ensures
            r@ == self@,
    {
        self.entries.as_slice()
    }

    pub fn into_entries(self) -> (r: Vec<Entry>)
        ensures
            r@ == self@,
    {
        self.entries
    }

    /// Reads a page. Its length must be a multiple of an entry's, and every entry valid.
    pub fn from_le_bytes(bytes: &[u8]) -> (r: Result<HierarchyPage>)
        ensures
            match r {
                Ok(page) => page_of(bytes@) == Ok::<Seq<Entry>, Error>(page@),
                Err(error) => page_of(bytes@) == Err::<Seq<Entry>, Error>(error),
            },
    {
        let len: usize = bytes.len();
        if len % HIERARCHY_ENTRY_BYTES != 0 {
            return Err(Error::InvalidData(Fault::PageNotMultiple { len: len as u64 }));
        }
        let count: usize = len / HIERARCHY_ENTRY_BYTES;
        let mut entries: Vec<Entry> = Vec::new();
        let mut i: usize = 0;
        while i < count
            invariant
                i <= count,
                count == len / 32,
                len % 32 == 0,
                len == bytes@.len(),
                entries_of(bytes@, i as nat) == Ok::<Seq<Entry>, Error>(entries@),
            decreases count - i,
        {
            let start: usize = i * HIERARCHY_ENTRY_BYTES;
            let slice = vstd::slice::slice_subrange(bytes, start, start + HIERARCHY_ENTRY_BYTES);
            proof {
                assert(32 * ((i + 1) - 1) == start);
                assert(slice@ == bytes@.subrange(32 * ((i + 1) - 1), 32 * (i + 1)));
            }
            match Entry::from_le(slice) {
                Ok(entry) => {
                    entries.push(entry);
                },
                Err(error) => {
                    proof {
                        lemma_entries_of_error(bytes@, (i + 1) as nat, count as nat);
                    }
                    return Err(error);
                },
            }
            i = i + 1;
        }
        Ok(HierarchyPage { entries })
    }

    /// The bytes of the page, or the error of the first entry that is not valid.
    pub fn write_le_bytes(&self) -> (r: Result<Vec<u8>>)
        ensures
            match r {
                Ok(bytes) => {
                    &&& self@.len() * 32 <= usize::MAX
                    &&& first_invalid(self@) is Ok
                    &&& bytes@ == entries_bytes(self@)
                },
                Err(error) => {
                    if self@.len() * 32 > usize::MAX {
                        error == Error::InvalidInput(Fault::PageSizeOverflow)
                    } else {
                        first_invalid(self@) == Err::<(), Error>(error)
                    }
                },
            },
    {
        let count: usize = self.entries.len();
        if count > usize::MAX / HIERARCHY_ENTRY_BYTES {
            return Err(Error::InvalidInput(Fault::PageSizeOverflow));
        }
        let mut out: Vec<u8> = Vec::new();
        let mut i: usize = 0;
        proof {
            assert(self@.subrange(0, 0) =~= Seq::empty());
        }
        while i < count
            invariant
                i <= count,
                count == self@.len(),
                self@ == self.entries@,
                out@ == entries_bytes(self@.subrange(0, i as int)),
                first_invalid(self@.subrange(0, i as int)) is Ok,
                count * 32 <= usize::MAX,
            decreases count - i,
        {
            let entry = self.entries[i];
            proof {
                let longer = self@.subrange(0, i + 1);
                assert(longer.drop_last() =~= self@.subrange(0, i as int));
                assert(longer.last() == entry);
            }
            match entry.validate() {
                Ok(_) => {},
                Err(error) => {
                    proof {
                        lemma_first_invalid(self@, i + 1);
                    }
                    return Err(error);
                },
            }
            let encoded = entry.to_bytes();
            bytes::push_bytes(&mut out, encoded.as_slice());
            i = i + 1;
        }
        proof {
            assert(self@.subrange(0, count as int) =~= self@);
        }
        Ok(out)
    }
}

proof fn lemma_entries_of_error(s: Seq<u8>, n: nat, m: nat)
    requires
        n <= m,
        entries_of(s, n) is Err,
    ensures
        entries_of(s, m) == entries_of(s, n),
    decreases m,
{
    if n < m {
        lemma_entries_of_error(s, n, (m - 1) as nat);
    }
}

proof fn lemma_first_invalid(entries: Seq<Entry>, n: int)
    requires
        0 <= n <= entries.len(),
        first_invalid(entries.subrange(0, n)) is Err,
    ensures
        first_invalid(entries) == first_invalid(entries.subrange(0, n)),
    decreases entries.len(),
{
    if n == entries.len() {
        assert(entries.subrange(0, n) =~= entries);
    } else {
        assert(entries.drop_last().subrange(0, n) =~= entries.subrange(0, n));
        lemma_first_invalid(entries.drop_last(), n);
    }
}

/// A page is accepted exactly where every entry is valid.
pub proof fn law_first_invalid(entries: Seq<Entry>)
    ensures
        first_invalid(entries) is Ok <==> forall|i: int|
            0 <= i < entries.len() ==> (#[trigger] entries[i]).valid(),
    decreases entries.len(),
{
    if entries.len() > 0 {
        let rest = entries.drop_last();
        law_first_invalid(rest);
        if first_invalid(entries) is Ok {
            assert forall|i: int| 0 <= i < entries.len() implies (#[trigger] entries[i]).valid() by {
                if i < rest.len() {
                    assert(rest[i] == entries[i]);
                }
            }
        } else {
            if first_invalid(rest) is Err {
                let i = choose|i: int| 0 <= i < rest.len() && !(#[trigger] rest[i]).valid();
                assert(entries[i] == rest[i]);
            } else {
                assert(entries[entries.len() - 1] == entries.last());
            }
        }
    }
}

pub proof fn lemma_entries_bytes_len(entries: Seq<Entry>)
    ensures
        entries_bytes(entries).len() == 32 * entries.len(),
    decreases entries.len(),
{
    if entries.len() > 0 {
        lemma_entries_bytes_len(entries.drop_last());
        lemma_entry_bytes_len(entries.last());
    }
}

proof fn lemma_entries_of_prefix(a: Seq<u8>, b: Seq<u8>, n: nat)
    requires
        32 * n <= a.len(),
    ensures
        entries_of(a + b, n) == entries_of(a, n),
    decreases n,
{
    if n > 0 {
        lemma_entries_of_prefix(a, b, (n - 1) as nat);
        assert((a + b).subrange(32 * (n - 1), 32 * (n as int)) =~= a.subrange(
            32 * (n - 1),
            32 * (n as int),
        ));
    }
}

/// Reading a page's bytes gives its entries again, where all of them are valid.
pub proof fn law_page_round_trip(entries: Seq<Entry>)
    requires
        forall|i: int| 0 <= i < entries.len() ==> (#[trigger] entries[i]).valid(),
    ensures
        page_of(entries_bytes(entries)) == Ok::<Seq<Entry>, Error>(entries),
    decreases entries.len(),
{
    lemma_entries_bytes_len(entries);
    let n = entries.len();
    if n > 0 {
        let rest = entries.drop_last();
        assert forall|i: int| 0 <= i < rest.len() implies (#[trigger] rest[i]).valid() by {
            assert(entries[i] == rest[i]);
        }
        law_page_round_trip(rest);
        lemma_entries_bytes_len(rest);
        lemma_entry_bytes_len(entries.last());
        lemma_entries_of_prefix(entries_bytes(rest), entry_bytes(entries.last()), rest.len());
        assert(entries_bytes(entries).subrange(32 * (n - 1), 32 * n as int) =~= entry_bytes(
            entries.last(),
        ));
        assert(entries[n - 1] == entries.last());
        law_entry_round_trip(entries.last());
        assert(rest.push(entries.last()) =~= entries);
    } else {
        assert(entries =~= Seq::empty());
    }
}

/// A node's place on each axis is below the number of nodes there, which doubles with each
/// level.
pub proof fn law_valid_key(key: VoxelKey)
    ensures
        key.valid() <==> {
            &&& 0 <= key.level
            &&& 0 <= key.x < pow2(key.level as nat)
            &&& 0 <= key.y < pow2(key.level as nat)
            &&& 0 <= key.z < pow2(key.level as nat)
        },
        key.validity() is Ok <==> key.valid(),
        pow2(0) == 1,
        forall|n: nat| #[trigger] pow2(n + 1) == 2 * pow2(n),
{
    if key.level >= 31 {
        lemma_pow2_30();
        assert(pow2(31) == 2 * pow2(30));
        lemma_pow2_monotonic(31, key.level as nat);
    }
}

/// A count of -1 leads to a page, none has no points, a positive one has so many, and no other
/// is accepted.
pub proof fn law_availability(entry: Entry)
    ensures
        entry.availability_spec() == Ok::<EntryAvailability, Error>(EntryAvailability::ChildPage)
            <==> entry.point_count == -1,
        entry.availability_spec() == Ok::<EntryAvailability, Error>(EntryAvailability::Empty)
            <==> entry.point_count == 0,
        entry.point_count > 0 <==> entry.availability_spec() == Ok::<EntryAvailability, Error>(
            EntryAvailability::PointData { point_count: entry.point_count as u32 },
        ) && entry.point_count != 0 && entry.point_count != -1,
        entry.availability_spec() is Err <==> entry.point_count < -1,
{
}

/// An entry is accepted just where its node is there and its size goes with its count: points
/// and pages have bytes, and an entry without points has neither place nor size.
pub proof fn law_valid_entry(entry: Entry)
    ensures
        entry.validity() is Ok <==> {
            &&& entry.key.valid()
            &&& {
                ||| entry.point_count > 0 && entry.byte_size > 0
                ||| entry.point_count == -1 && entry.byte_size > 0
                ||| entry.point_count == 0 && entry.byte_size == 0 && entry.offset == 0
            }
        },
        entry.validity() is Ok <==> entry.valid(),
{
}

/// An entry is read from 32 bytes: the level, three places, the offset, the size and the count,
/// one behind the other.
pub proof fn law_entry_stands(s: Seq<u8>)
    requires
        entry_of(s) is Ok,
    ensures
        s.len() == 32,
        ({
            let entry = entry_of(s)->Ok_0;
            &&& entry.valid()
            &&& bytes::pattern32(entry.key.level) == bytes::le_at(s, 0, 4)
            &&& bytes::pattern32(entry.key.x) == bytes::le_at(s, 4, 4)
            &&& bytes::pattern32(entry.key.y) == bytes::le_at(s, 8, 4)
            &&& bytes::pattern32(entry.key.z) == bytes::le_at(s, 12, 4)
            &&& entry.offset == bytes::le_at(s, 16, 8)
            &&& bytes::pattern32(entry.byte_size) == bytes::le_at(s, 24, 4)
            &&& bytes::pattern32(entry.point_count) == bytes::le_at(s, 28, 4)
        }),
{
    bytes::lemma_pow256_values();
    bytes::lemma_le_bound(s.subrange(0, 4));
    bytes::lemma_le_bound(s.subrange(4, 8));
    bytes::lemma_le_bound(s.subrange(8, 12));
    bytes::lemma_le_bound(s.subrange(12, 16));
    bytes::lemma_le_bound(s.subrange(16, 24));
    bytes::lemma_le_bound(s.subrange(24, 28));
    bytes::lemma_le_bound(s.subrange(28, 32));
}

/// A page is read entry by entry, 32 bytes for each, and refused where one is.
pub proof fn law_page_stands(s: Seq<u8>, i: int)
    ensures
        page_of(s) is Ok && 0 <= i < page_of(s)->Ok_0.len() ==> entry_of(
            s.subrange(32 * i, 32 * i + 32),
        ) == Ok::<Entry, Error>(page_of(s)->Ok_0[i]),
        page_of(s) is Ok ==> 32 * page_of(s)->Ok_0.len() == s.len(),
        page_of(s) is Err ==> s.len() % 32 != 0 || exists|k: int|
            0 <= k < s.len() / 32 && entry_of(#[trigger] s.subrange(32 * k, 32 * k + 32)) is Err,
{
    if s.len() % 32 == 0 {
        lemma_entries_stand(s, s.len() / 32, i);
    }
}

proof fn lemma_entries_stand(s: Seq<u8>, n: nat, i: int)
    requires
        32 * n <= s.len(),
    ensures
        entries_of(s, n) is Ok && 0 <= i < n ==> entry_of(s.subrange(32 * i, 32 * i + 32)) == Ok::<
            Entry,
            Error,
        >(entries_of(s, n)->Ok_0[i]),
        entries_of(s, n) is Ok ==> entries_of(s, n)->Ok_0.len() == n,
        entries_of(s, n) is Err ==> exists|k: int|
            0 <= k < n && entry_of(#[trigger] s.subrange(32 * k, 32 * k + 32)) is Err,
    decreases n,
{
    if n > 0 {
        lemma_entries_stand(s, (n - 1) as nat, i);
        assert(32 * (n - 1) + 32 == 32 * n);
        let last = s.subrange(32 * (n - 1), 32 * (n - 1) + 32);
        assert(last == s.subrange(32 * (n - 1), 32 * (n as int)));
    }
}

/// A key is refused for a negative number, or for a place beyond the nodes of its level.
pub proof fn law_why_a_key_is_refused(key: VoxelKey)
    requires
        key.validity() is Err,
    ensures
        match key.validity()->Err_0 {
            Error::InvalidData(Fault::NegativeVoxelKey { key: named }) => named == key && (key.level
                < 0 || key.x < 0 || key.y < 0 || key.z < 0),
            Error::InvalidData(Fault::VoxelAxisOutsideLimit { key: named, limit }) => {
                &&& named == key
                &&& limit == pow2(key.level as nat)
                &&& key.x >= limit || key.y >= limit || key.z >= limit
            },
            _ => false,
        },
{
    if 0 <= key.level < 31 {
        lemma_pow2_30();
        lemma_pow2_monotonic(key.level as nat, 30);
    }
}

/// An entry is refused for what is wrong with it, under its own key.
pub proof fn law_why_an_entry_is_refused(entry: Entry)
    requires
        entry.validity() is Err,
    ensures
        match entry.validity()->Err_0 {
            Error::InvalidData(Fault::EntryPointCount { key, point_count }) => key == entry.key
                && point_count == entry.point_count && point_count < -1,
            Error::InvalidData(Fault::EmptyEntryNotZero { key }) => key == entry.key
                && entry.point_count == 0 && !(entry.offset == 0 && entry.byte_size == 0),
            Error::InvalidData(Fault::PointEntryByteSize { key, byte_size }) => key == entry.key
                && entry.point_count > 0 && byte_size == entry.byte_size && byte_size <= 0,
            Error::InvalidData(Fault::ChildPageByteSize { key, byte_size }) => key == entry.key
                && entry.point_count == -1 && byte_size == entry.byte_size && byte_size <= 0,
            error => entry.key.validity() == Err::<(), Error>(error),
        },
{
}

} // verus!
