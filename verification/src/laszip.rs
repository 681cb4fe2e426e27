//! The LAZ codec: what its VLR payload holds, and the calls into the `laz` crate.

use laz::record::RecordDecompressor;
use vstd::prelude::*;

use crate::bytes;
use crate::error::{Error, Fault, LasTask, Result};
use crate::limits::MAX_INITIAL_COLUMN_RESERVE_POINTS;
use crate::point_layers;
use crate::point_layers::point_layers_fit;

verus! {

/// The error of the `laz` crate.
#[verifier::external_type_specification]
#[verifier::external_body]
pub struct ExLasZipError(laz::LasZipError);

/// The number of compressed items that a payload declares.
pub open spec fn item_count(payload: Seq<u8>) -> nat {
    bytes::le_at(payload, 32, 2)
}

/// The kind, size or version of the item at `index`: its first, second or third 16-bit field.
pub open spec fn item_field(payload: Seq<u8>, index: int, field: int) -> nat {
    bytes::le_at(payload, 34 + 6 * index + 2 * field, 2)
}

/// Whether a payload is one that the codec reads: a known compressor, and as many items of
/// known kinds as it declares.
pub open spec fn payload_readable(payload: Seq<u8>) -> bool {
    &&& payload.len() >= 34
    &&& bytes::le_at(payload, 0, 2) <= 3
    &&& payload.len() >= 34 + 6 * item_count(payload)
    &&& forall|i: int|
        0 <= i < item_count(payload) ==> {
            let kind = #[trigger] item_field(payload, i, 0);
            kind == 0 || 6 <= kind <= 14
        }
}

/// Whether an item is stored in layers, as point formats 6 and up are.
pub open spec fn item_layered(payload: Seq<u8>, index: int) -> bool {
    10 <= item_field(payload, index, 0) <= 14 && item_field(payload, index, 2) == 3
}

/// The bytes that a layered item takes in an uncompressed record.
pub open spec fn item_bytes(payload: Seq<u8>, index: int) -> nat {
    let kind = item_field(payload, index, 0);
    if kind == 10 {
        30
    } else if kind == 11 {
        6
    } else if kind == 12 {
        8
    } else if kind == 13 {
        29
    } else {
        item_field(payload, index, 1)
    }
}

/// The bytes that the first `n` items take in an uncompressed record, if all are layered.
pub open spec fn items_bytes(payload: Seq<u8>, n: nat) -> Option<nat>
    decreases n,
{
    if n == 0 {
        Some(0nat)
    } else {
        match items_bytes(payload, (n - 1) as nat) {
            Some(before) if item_layered(payload, n - 1) => Some(
                before + item_bytes(payload, n - 1),
            ),
            _ => None,
        }
    }
}

/// Reads a payload with `laz::LazVlr::read_from`.
///
/// Claimed: it succeeds exactly on the payloads that [`payload_readable`] describes. Bytes
/// behind the last item are not looked at.
#[verifier::external_body]
fn read_laz_vlr(payload: &[u8]) -> (r: std::result::Result<(), laz::LasZipError>)
    ensures
        r is Ok <==> payload_readable(payload@),
{
    laz::LazVlr::read_from(payload).map(|_| ())
}

/// The record size for a payload, from `laz::record::LayeredPointRecordDecompressor`, whose
/// `set_fields_from` takes the payload's items and whose `record_size` adds their sizes up.
///
/// Claimed: items that are not layered are refused, and else the size is the sum over the
/// items.
#[verifier::external_body]
fn layered_record_size(payload: &[u8]) -> (r: std::result::Result<usize, laz::LasZipError>)
    requires
        payload_readable(payload@),
    ensures
        match r {
            Ok(size) => items_bytes(payload@, item_count(payload@)) == Some(size as nat),
            Err(_) => items_bytes(payload@, item_count(payload@)) is None,
        },
{
    let vlr = laz::LazVlr::read_from(payload)?;
    let empty: &[u8] = &[];
    let mut probe = laz::record::LayeredPointRecordDecompressor::new(std::io::Cursor::new(empty));
    probe.set_fields_from(vlr.items())?;
    Ok(probe.record_size())
}

/// What [`check_laszip_payload`] answers.
pub open spec fn payload_check(payload: Seq<u8>) -> Result<()> {
    if payload_readable(payload) {
        Ok(())
    } else {
        Err(Error::Las(LasTask::LaszipVlr))
    }
}

/// Whether the codec reads the payload.
pub fn check_laszip_payload(payload: &[u8]) -> (r: Result<()>)
    ensures
        r == payload_check(payload@),
{
    match read_laz_vlr(payload) {
        Ok(_) => Ok(()),
        Err(_) => Err(Error::Las(LasTask::LaszipVlr)),
    }
}

/// What [`laszip_record_size`] answers.
pub open spec fn record_size_of(payload: Seq<u8>) -> Result<usize> {
    if !payload_readable(payload) {
        Err(Error::Las(LasTask::LaszipVlr))
    } else {
        match items_bytes(payload, item_count(payload)) {
            None => Err(Error::Las(LasTask::LaszipItems)),
            Some(size) => if size == 0 {
                Err(Error::Unsupported(Fault::NotLayered))
            } else {
                Ok(size as usize)
            },
        }
    }
}

/// The size of an uncompressed point record, which must consist of layered items.
pub fn laszip_record_size(payload: &[u8]) -> (r: Result<usize>)
    ensures
        r == record_size_of(payload@),
        r is Ok ==> r->Ok_0 > 0,
{
    check_laszip_payload(payload)?;
    match layered_record_size(payload) {
        Ok(size) => {
            if size == 0 {
                Err(Error::Unsupported(Fault::NotLayered))
            } else {
                Ok(size)
            }
        },
        Err(_) => Err(Error::Las(LasTask::LaszipItems)),
    }
}

/// How many layers an item has in a chunk.
pub open spec fn item_layers(payload: Seq<u8>, index: int) -> nat {
    let kind = item_field(payload, index, 0);
    if kind == 10 {
        9
    } else if kind == 12 {
        2
    } else if kind == 14 {
        item_field(payload, index, 1)
    } else {
        1
    }
}

/// How many layers the first `n` items have.
pub open spec fn layers_of(payload: Seq<u8>, n: nat) -> nat
    decreases n,
{
    if n == 0 {
        0
    } else {
        layers_of(payload, (n - 1) as nat) + item_layers(payload, n - 1)
    }
}

/// Where the layer `k` of a chunk starts. The sizes of its layers stand at `table`, and the
/// layers lie behind them, one after the other.
pub open spec fn layer_start(chunk: Seq<u8>, table: int, layers: nat, k: nat) -> int
    decreases k,
{
    if k == 0 {
        table + 4 * layers
    } else {
        layer_start(chunk, table, layers, (k - 1) as nat) + layer_size(chunk, table, k - 1)
    }
}

/// The size of the layer `k`.
pub open spec fn layer_size(chunk: Seq<u8>, table: int, k: int) -> nat {
    bytes::le_at(chunk, table + 4 * k, 4)
}

/// The bytes of the layer `k`.
pub open spec fn layer_bytes(chunk: Seq<u8>, table: int, layers: nat, k: nat) -> Seq<u8> {
    let at = layer_start(chunk, table, layers, k);
    chunk.subrange(at, at + layer_size(chunk, table, k as int))
}

/// The chunk has all its layers: behind the first record, which is stored as it is, and the
/// number of points stand the sizes of the layers, and the layers lie in the chunk.
pub open spec fn layers_inside(chunk: Seq<u8>, table: int, layers: nat) -> bool {
    &&& table + 4 * layers <= chunk.len()
    &&& layer_start(chunk, table, layers, layers) <= chunk.len()
}

/// Where the sizes of the layers stand.
pub open spec fn table_of(payload: Seq<u8>) -> int {
    record_size_of(payload)->Ok_0 + 4
}

/// How many layers a chunk has.
pub open spec fn layer_count(payload: Seq<u8>) -> nat {
    layers_of(payload, item_count(payload))
}

/// The decoders of the layers can start: none starts with four bytes of 255, the one number
/// that is not below the length of the interval that a decoder starts with.
pub open spec fn startable(payload: Seq<u8>, chunk: Seq<u8>) -> bool {
    forall|k: nat|
        k < layer_count(payload) ==> point_layers::starts_inside(
            #[trigger] layer_bytes(chunk, table_of(payload), layer_count(payload), k),
        )
}

/// The codec can read the places, heights and GPS times of the points that the item `i` is
/// about, for `n` records behind the first one.
pub open spec fn item_fits(payload: Seq<u8>, chunk: Seq<u8>, i: int, n: nat) -> bool {
    let (table, layers) = (table_of(payload), layer_count(payload));
    let first = layers_of(payload, i as nat);
    let at = items_bytes(payload, i as nat)->Some_0 as int;
    point_layers::layers_fit(
        seq![
            layer_bytes(chunk, table, layers, first),
            layer_bytes(chunk, table, layers, first + 1),
            layer_bytes(chunk, table, layers, first + 8),
        ],
        (chunk[at + 14], chunk[at + 15]),
        bytes::le_at(chunk, at + 22, 8) as u64,
        n,
    )
}

/// No item is about waveforms.
pub open spec fn without_waves(payload: Seq<u8>) -> bool {
    forall|i: int| 0 <= i < item_count(payload) ==> #[trigger] item_field(payload, i, 0) != 13
}

/// The chunk has all the layers that the payload declares.
pub open spec fn whole(payload: Seq<u8>, chunk: Seq<u8>) -> bool {
    layers_inside(chunk, table_of(payload), layer_count(payload))
}

/// The codec can read `n` records behind the first one of a chunk, or comes to the end of a
/// layer: the layers are all there, their decoders can start, and the numbers that it adds up
/// stay in their range.
#[verifier::opaque]
pub open spec fn readable(payload: Seq<u8>, chunk: Seq<u8>, n: nat) -> bool {
    &&& whole(payload, chunk)
    &&& startable(payload, chunk)
    &&& forall|i: int|
        0 <= i < item_count(payload) && #[trigger] item_field(payload, i, 0) == 10 ==> item_fits(
            payload,
            chunk,
            i,
            n,
        )
}

/// Fewer records can be read where more can.
proof fn lemma_fewer_readable(payload: Seq<u8>, chunk: Seq<u8>, n: nat, m: nat)
    requires
        n <= m,
        readable(payload, chunk, m),
    ensures
        readable(payload, chunk, n),
{
    reveal(readable);
    let (table, layers) = (table_of(payload), layer_count(payload));
    assert forall|i: int|
        0 <= i < item_count(payload) && #[trigger] item_field(payload, i, 0)
            == 10 implies item_fits(payload, chunk, i, n) by {
        assert(item_fits(payload, chunk, i, m));
        let first = layers_of(payload, i as nat);
        let at = items_bytes(payload, i as nat)->Some_0 as int;
        point_layers::lemma_fewer_fit(
            seq![
                layer_bytes(chunk, table, layers, first),
                layer_bytes(chunk, table, layers, first + 1),
                layer_bytes(chunk, table, layers, first + 8),
            ],
            (chunk[at + 14], chunk[at + 15]),
            bytes::le_at(chunk, at + 22, 8) as u64,
            n,
            m,
        );
    }
}

/// The items before another one have less layers and bytes than all of them.
proof fn lemma_items_before(payload: Seq<u8>, i: nat, n: nat)
    requires
        i < n,
        items_bytes(payload, n) is Some,
    ensures
        layers_of(payload, i) + item_layers(payload, i as int) <= layers_of(payload, n),
        items_bytes(payload, i) is Some,
        items_bytes(payload, i)->Some_0 + item_bytes(payload, i as int) <= items_bytes(
            payload,
            n,
        )->Some_0,
    decreases n,
{
    if i + 1 < n {
        lemma_items_before(payload, i, (n - 1) as nat);
    }
}

proof fn lemma_layers_grow(chunk: Seq<u8>, table: int, layers: nat, k: nat, n: nat)
    requires
        k <= n,
    ensures
        layer_start(chunk, table, layers, k) <= layer_start(chunk, table, layers, n),
    decreases n,
{
    if k < n {
        lemma_layers_grow(chunk, table, layers, k, (n - 1) as nat);
    }
}

/// A record has no more bytes than its items can tell.
proof fn lemma_items_bound(payload: Seq<u8>, n: nat)
    requires
        payload_readable(payload),
        n <= item_count(payload),
        items_bytes(payload, n) is Some,
    ensures
        items_bytes(payload, n)->Some_0 <= n * 0xFFFF,
    decreases n,
{
    if n > 0 {
        let k = (n - 1) as nat;
        lemma_items_bound(payload, k);
        bytes::lemma_pow256_values();
        let at = 34 + 6 * k as int;
        assert(payload.subrange(at + 2, at + 4).len() == 2);
        bytes::lemma_le_bound(payload.subrange(at + 2, at + 4));
        assert(n * 0xFFFF == k * 0xFFFF + 0xFFFF) by (nonlinear_arith)
            requires
                n == k + 1,
        ;
    }
}

/// How many layers a chunk has.
fn count_layers(payload: &[u8]) -> (r: u64)
    requires
        payload_readable(payload@),
    ensures
        r == layers_of(payload@, item_count(payload@)),
        r <= 0xFFFF * 0xFFFF,
{
    let items: u16 = bytes::read_u16(payload, 32);
    let mut layers: u64 = 0;
    let mut i: u16 = 0;
    while i < items
        invariant
            payload_readable(payload@),
            items == item_count(payload@),
            i <= items,
            layers == layers_of(payload@, i as nat),
            layers <= i * 0xFFFF,
        decreases items - i,
    {
        let at: usize = 34 + 6 * (i as usize);
        let kind: u16 = bytes::read_u16(payload, at);
        let more: u16 = if kind == 10 {
            9
        } else if kind == 12 {
            2
        } else if kind == 14 {
            bytes::read_u16(payload, at + 2)
        } else {
            1
        };
        layers = layers + more as u64;
        i = i + 1;
    }
    layers
}

/// How many layers a chunk has, if all of them lie in it.
fn whole_layers(payload: &[u8], record_size: usize, chunk: &[u8]) -> (r: Option<usize>)
    requires
        record_size_of(payload@) == Ok::<usize, Error>(record_size),
    ensures
        match r {
            Some(layers) => {
                &&& layers == layer_count(payload@)
                &&& whole(payload@, chunk@)
            },
            None => !whole(payload@, chunk@),
        },
{
    let layers: u64 = count_layers(payload);
    let ghost table = table_of(payload@);
    let ghost count = layer_count(payload@);
    let len: usize = chunk.len();
    if record_size > len || len - record_size < 4 {
        return None;
    }
    let at: usize = record_size + 4;
    let rest: u64 = (len - at) as u64;
    if layers > rest / 4 {
        return None;
    }
    let total: usize = layers as usize;
    let mut start: usize = at + 4 * total;
    let mut k: usize = 0;
    while k < total
        invariant
            len == chunk@.len(),
            table == at,
            at + 4 * total <= len,
            k <= total,
            total == count,
            start == layer_start(chunk@, table, count, k as nat),
            start <= len,
            table == table_of(payload@),
            count == layer_count(payload@),
        decreases total - k,
    {
        let size: u32 = bytes::read_u32(chunk, at + 4 * k);
        if size as u64 > (len - start) as u64 {
            proof {
                lemma_layers_grow(chunk@, table, count, k as nat + 1, count);
            }
            return None;
        }
        start = start + size as usize;
        k = k + 1;
    }
    Some(total)
}

/// The bytes of the layer `k` of a chunk that has all its layers.
fn find_layer<'a>(chunk: &'a [u8], table: usize, layers: usize, k: usize) -> (r: &'a [u8])
    requires
        layers_inside(chunk@, table as int, layers as nat),
        k < layers,
    ensures
        r@ == layer_bytes(chunk@, table as int, layers as nat, k as nat),
{
    let ghost count = layers as nat;
    let len: usize = chunk.len();
    proof {
        lemma_layers_grow(chunk@, table as int, count, 0, count);
    }
    let mut start: usize = table + 4 * layers;
    let mut i: usize = 0;
    while i < k
        invariant
            i <= k < layers,
            count == layers,
            len == chunk@.len(),
            layers_inside(chunk@, table as int, count),
            start == layer_start(chunk@, table as int, count, i as nat),
            start <= chunk@.len(),
        decreases k - i,
    {
        let size: u32 = bytes::read_u32(chunk, table + 4 * i);
        proof {
            lemma_layers_grow(chunk@, table as int, count, i as nat + 1, count);
        }
        start = start + size as usize;
        i = i + 1;
    }
    let size: u32 = bytes::read_u32(chunk, table + 4 * k);
    proof {
        lemma_layers_grow(chunk@, table as int, count, k as nat + 1, count);
    }
    vstd::slice::slice_subrange(chunk, start, start + size as usize)
}

/// Whether the decoders of the layers of a chunk that has all its layers can start.
fn can_start(payload: &[u8], table: usize, layers: usize, chunk: &[u8]) -> (r: bool)
    requires
        table == table_of(payload@),
        layers == layer_count(payload@),
        layers_inside(chunk@, table as int, layers as nat),
    ensures
        r == startable(payload@, chunk@),
{
    let ghost count = layers as nat;
    let len: usize = chunk.len();
    proof {
        lemma_layers_grow(chunk@, table as int, count, 0, count);
    }
    let mut start: usize = table + 4 * layers;
    let mut k: usize = 0;
    while k < layers
        invariant
            len == chunk@.len(),
            k <= layers,
            count == layers,
            table == table_of(payload@),
            count == layer_count(payload@),
            layers_inside(chunk@, table as int, count),
            start == layer_start(chunk@, table as int, count, k as nat),
            start <= len,
            forall|j: nat|
                j < k ==> point_layers::starts_inside(
                    #[trigger] layer_bytes(chunk@, table as int, count, j),
                ),
        decreases layers - k,
    {
        let size: u32 = bytes::read_u32(chunk, table + 4 * k);
        let ghost layer = layer_bytes(chunk@, table as int, count, k as nat);
        proof {
            lemma_layers_grow(chunk@, table as int, count, k as nat + 1, count);
            assert(layer.len() == size);
            if size >= 4 {
                assert(layer[0] == chunk@[start as int]);
                assert(layer[1] == chunk@[start + 1]);
                assert(layer[2] == chunk@[start + 2]);
                assert(layer[3] == chunk@[start + 3]);
            }
        }
        if size >= 4 && chunk[start] == 255 && chunk[start + 1] == 255 && chunk[start + 2] == 255
            && chunk[start + 3] == 255 {
            proof {
                assert(!point_layers::starts_inside(layer));
            }
            return false;
        }
        start = start + size as usize;
        k = k + 1;
    }
    true
}

/// Whether the codec can read `n` records behind the first one, or comes to the end of a layer.
fn can_read(payload: &[u8], record_size: usize, layers: usize, chunk: &[u8], n: usize) -> (r: bool)
    requires
        record_size_of(payload@) == Ok::<usize, Error>(record_size),
        layers == layer_count(payload@),
        whole(payload@, chunk@),
    ensures
        r == readable(payload@, chunk@, n as nat),
{
    reveal(readable);
    let len: usize = chunk.len();
    proof {
        lemma_layers_grow(
            chunk@,
            table_of(payload@),
            layer_count(payload@),
            0,
            layer_count(payload@),
        );
        lemma_items_bound(payload@, item_count(payload@));
        bytes::lemma_pow256_values();
        bytes::lemma_le_bound(payload@.subrange(32, 34));
    }
    let table: usize = record_size + 4;
    if !can_start(payload, table, layers, chunk) {
        return false;
    }
    let items: u16 = bytes::read_u16(payload, 32);
    let mut first: usize = 0;
    let mut at: usize = 0;
    let mut i: u16 = 0;
    while i < items
        invariant
            record_size_of(payload@) == Ok::<usize, Error>(record_size),
            items == item_count(payload@),
            items_bytes(payload@, items as nat) == Some(record_size as nat),
            len == chunk@.len(),
            table + 4 * layers <= len,
            i <= items,
            table == table_of(payload@),
            layers == layer_count(payload@),
            layers_inside(chunk@, table as int, layers as nat),
            startable(payload@, chunk@),
            first == layers_of(payload@, i as nat),
            items_bytes(payload@, i as nat) == Some(at as nat),
            forall|k: int|
                0 <= k < i && #[trigger] item_field(payload@, k, 0) == 10 ==> item_fits(
                    payload@,
                    chunk@,
                    k,
                    n as nat,
                ),
        decreases items - i,
    {
        let place: usize = 34 + 6 * (i as usize);
        let kind: u16 = bytes::read_u16(payload, place);
        let size: u16 = bytes::read_u16(payload, place + 2);
        proof {
            lemma_items_before(payload@, i as nat, items as nat);
            assert(item_field(payload@, i as int, 0) == kind);
            assert(item_field(payload@, i as int, 1) == size);
            lemma_layers_grow(chunk@, table as int, layers as nat, 0, layers as nat);
            assert(items_bytes(payload@, (i + 1) as nat) is Some) by {
                if i + 1 < items {
                    lemma_items_before(payload@, (i + 1) as nat, items as nat);
                }
            }
        }
        if kind == 10 {
            let places = find_layer(chunk, table, layers, first);
            let heights = find_layer(chunk, table, layers, first + 1);
            let times = find_layer(chunk, table, layers, first + 8);
            let flags = (chunk[at + 14], chunk[at + 15]);
            let time: u64 = bytes::read_u64(chunk, at + 22);
            if !point_layers_fit(places, heights, times, flags, time, n) {
                proof {
                    reveal(readable);
                    assert(!item_fits(payload@, chunk@, i as int, n as nat));
                }
                return false;
            }
        }
        first = first + if kind == 10 {
            9
        } else if kind == 12 {
            2
        } else if kind == 14 {
            size as usize
        } else {
            1
        };
        at = at + if kind == 10 {
            30
        } else if kind == 11 {
            6
        } else if kind == 12 {
            8
        } else if kind == 13 {
            29
        } else {
            size as usize
        };
        i = i + 1;
    }
    true
}

/// Whether no item is about waveforms.
fn has_no_waves(payload: &[u8]) -> (r: bool)
    requires
        payload_readable(payload@),
    ensures
        r == without_waves(payload@),
{
    let items: u16 = bytes::read_u16(payload, 32);
    let mut i: u16 = 0;
    while i < items
        invariant
            payload_readable(payload@),
            items == item_count(payload@),
            i <= items,
            forall|k: int| 0 <= k < i ==> #[trigger] item_field(payload@, k, 0) != 13,
        decreases items - i,
    {
        let kind: u16 = bytes::read_u16(payload, 34 + 6 * (i as usize));
        if kind == 13 {
            proof {
                assert(item_field(payload@, i as int, 0) == 13);
            }
            return false;
        }
        i = i + 1;
    }
    true
}

/// The uncompressed records, `len` bytes of them, of a chunk whose items the payload
/// declares, or nothing where the chunk does not hold that many.
pub uninterp spec fn laz_chunk_records(
    payload: Seq<u8>,
    chunk: Seq<u8>,
    len: nat,
) -> Option<Seq<u8>>;

/// Decompresses records with `laz::record::LayeredPointRecordDecompressor::decompress_many`.
///
/// Claimed: the records are a function of the payload, the chunk and the length; where they
/// cannot be had, neither can a longer run, for the decompressor goes record by record from
/// the start of the chunk. What the records are is not stated, nor that damaged chunks are
/// always noticed.
///
/// The first record is stored as it is; from the second on, numbers are decoded from the
/// layers. The decoder of a layer (`laz::decoders::ArithmeticDecoder`) keeps a value and the
/// length of an interval. It starts with the length `0xFFFF_FFFF` and the first four bytes of
/// the layer as value, and every step keeps the value below the length where it was so before.
/// What is looked up then lies in its table: the length is at least 2^24, so that the value,
/// divided by the length's upper 17 bits, is less than 2^15 + 64, and a table has room for one
/// place behind 2^15 in units of at least 64. So layers that start with `0xFFFF_FFFF` are left
/// out ([`startable`]). So are chunks that do not have all their layers, for which the codec
/// would make room as large as their sizes say.
///
/// Of what is decoded, the codec adds up without wrapping around the differences of 32 bits and
/// the GPS times, for which it calls itself as often as a time changes the sequence it is in;
/// and it takes numbers of 16 bits to have no more. Chunks in which one of these leaves its
/// range, or the sequence changes without end, are left out ([`point_layers`] reads the three
/// layers that they are in). So are waveforms, whose offsets are added up too. The other layers
/// hold symbols and differences of 16 bits, for which there is always room.
#[verifier::external_body]
fn decompress_records(payload: &[u8], chunk: &[u8], len: usize) -> (r: std::result::Result<
    Vec<u8>,
    std::io::Error,
>)
    requires
        record_size_of(payload@) is Ok,
        len <= isize::MAX,
        len as int % record_size_of(payload@)->Ok_0 as int == 0,
        len > 0 ==> whole(payload@, chunk@),
        len > record_size_of(payload@)->Ok_0 ==> without_waves(payload@) && readable(
            payload@,
            chunk@,
            (len / record_size_of(payload@)->Ok_0 - 1) as nat,
        ),
    ensures
        match r {
            Ok(records) => {
                &&& records@.len() == len
                &&& laz_chunk_records(payload@, chunk@, len as nat) == Some(records@)
            },
            Err(_) => forall|longer: nat|
                longer >= len && longer as int % record_size_of(payload@)->Ok_0 as int == 0
                    ==> #[trigger] laz_chunk_records(payload@, chunk@, longer) is None,
        },
{
    let vlr = laz::LazVlr::read_from(payload).map_err(std::io::Error::other)?;
    let input = std::io::Cursor::new(chunk);
    let mut decompressor = laz::record::LayeredPointRecordDecompressor::new(input);
    decompressor.set_fields_from(vlr.items()).map_err(std::io::Error::other)?;
    let mut records = vec![0u8; len];
    decompressor.decompress_many(&mut records)?;
    Ok(records)
}

/// The error for data that end too soon, from `std::io::Error::from` with the kind
/// `UnexpectedEof`.
///
/// Claimed: nothing of its content.
#[verifier::external_body]
fn end_of_data() -> (r: std::io::Error) {
    std::io::Error::from(std::io::ErrorKind::UnexpectedEof)
}

/// What decoding a chunk of `count` records of `size` bytes answers.
pub open spec fn decoded(
    payload: Seq<u8>,
    size: usize,
    chunk: Seq<u8>,
    count: usize,
    r: Result<Vec<u8>>,
) -> bool {
    let records = laz_chunk_records(payload, chunk, (count * size) as nat);
    if count * size > isize::MAX {
        r == Err::<Vec<u8>, Error>(Error::InvalidData(Fault::ChunkRecordCount { count }))
    } else if count > 1 && !without_waves(payload) {
        r == Err::<Vec<u8>, Error>(Error::Unsupported(Fault::WaveformItem))
    } else if count > 0 && !whole(payload, chunk) {
        r matches Err(Error::Io { context, .. }) && context@ == "decompress COPC point"@
    } else if count > 1 && !readable(payload, chunk, (count - 1) as nat) {
        r == Err::<Vec<u8>, Error>(Error::InvalidData(Fault::DamagedLayer))
    } else {
        match r {
            Ok(bytes) => bytes@.len() == count * size && records == Some(bytes@),
            Err(Error::Io { context, .. }) => records is None && context@
                == "decompress COPC point"@,
            Err(_) => false,
        }
    }
}

/// The uncompressed point records of a chunk of `count` points.
///
/// Room is made step by step, so that a count that the chunk does not keep costs little. Where
/// there is more than the first record to decode, chunks are refused that the codec cannot read,
/// and waveforms. A chunk that does not have all its layers ends too soon.
pub fn decode_chunk(payload: &[u8], chunk: &[u8], count: usize) -> (r: Result<Vec<u8>>)
    ensures
        match record_size_of(payload@) {
            Err(error) => r == Err::<Vec<u8>, Error>(error),
            Ok(size) => decoded(payload@, size, chunk@, count, r),
        },
{
    let size: usize = laszip_record_size(payload)?;
    let total: usize = match count.checked_mul(size) {
        Some(total) => total,
        None => {
            return Err(Error::InvalidData(Fault::ChunkRecordCount { count }));
        },
    };
    if total > isize::MAX as usize {
        return Err(Error::InvalidData(Fault::ChunkRecordCount { count }));
    }
    if count > 1 && !has_no_waves(payload) {
        return Err(Error::Unsupported(Fault::WaveformItem));
    }
    match whole_layers(payload, size, chunk) {
        Some(layers) => {
            if count > 1 && !can_read(payload, size, layers, chunk, count - 1) {
                return Err(Error::InvalidData(Fault::DamagedLayer));
            }
        },
        None => {
            if count > 0 {
                return Err(Error::io("decompress COPC point", end_of_data()));
            }
        },
    }
    let mut room: usize = if count > MAX_INITIAL_COLUMN_RESERVE_POINTS {
        MAX_INITIAL_COLUMN_RESERVE_POINTS
    } else {
        count
    };
    loop
        invariant
            record_size_of(payload@) == Ok::<usize, Error>(size),
            size > 0,
            total == count * size,
            total <= isize::MAX,
            room <= count,
            room == count || room >= MAX_INITIAL_COLUMN_RESERVE_POINTS,
            count > 0 ==> whole(payload@, chunk@),
            count > 1 ==> without_waves(payload@) && readable(
                payload@,
                chunk@,
                (count - 1) as nat,
            ),
        decreases count - room,
    {
        proof {
            assert(room * size <= count * size) by (nonlinear_arith)
                requires
                    room <= count,
            ;
            vstd::arithmetic::div_mod::lemma_div_multiples_vanish(room as int, size as int);
            vstd::arithmetic::mul::lemma_mul_is_commutative(room as int, size as int);
            if room > 1 {
                lemma_fewer_readable(payload@, chunk@, (room - 1) as nat, (count - 1) as nat);
            }
            if room <= 1 {
                assert(room * size <= size) by (nonlinear_arith)
                    requires
                        room <= 1,
                ;
            }
            vstd::arithmetic::div_mod::lemma_mod_multiples_basic(room as int, size as int);
            vstd::arithmetic::div_mod::lemma_mod_multiples_basic(count as int, size as int);
        }
        let len: usize = room * size;
        match decompress_records(payload, chunk, len) {
            Err(source) => {
                proof {
                    assert(laz_chunk_records(payload@, chunk@, total as nat) is None);
                }
                return Err(Error::io("decompress COPC point", source));
            },
            Ok(records) => {
                if room == count {
                    return Ok(records);
                }
            },
        }
        room = if room > count / 2 {
            count
        } else {
            room * 2
        };
    }
}

/// A payload is accepted just where it has a header of 34 bytes and all the items that it
/// counts, of kinds that there are.
pub proof fn law_accepted_payload(payload: Seq<u8>)
    ensures
        payload_check(payload) is Ok <==> {
            &&& payload.len() >= 34
            &&& bytes::le_at(payload, 0, 2) <= 3
            &&& payload.len() >= 34 + 6 * bytes::le_at(payload, 32, 2)
            &&& forall|i: int|
                0 <= i < bytes::le_at(payload, 32, 2) ==> {
                    let kind = #[trigger] bytes::le_at(payload, 34 + 6 * i, 2);
                    kind == 0 || 6 <= kind <= 14
                }
        },
{
    assert forall|i: int| #[trigger] item_field(payload, i, 0) == bytes::le_at(
        payload,
        34 + 6 * i,
        2,
    ) by {}
    if payload_readable(payload) {
        assert forall|i: int| 0 <= i < bytes::le_at(payload, 32, 2) implies {
            let kind = #[trigger] bytes::le_at(payload, 34 + 6 * i, 2);
            kind == 0 || 6 <= kind <= 14
        } by {
            assert(item_field(payload, i, 0) == bytes::le_at(payload, 34 + 6 * i, 2));
        }
    }
}

/// The size of a record is the sum of the sizes of its items: 30 bytes for a point, 6 for a
/// color, 8 for one with near infrared, 29 for a waveform, and for extra bytes the size that
/// the item says.
pub proof fn law_size_of_items(payload: Seq<u8>, n: nat)
    requires
        items_bytes(payload, n + 1) is Some,
    ensures
        items_bytes(payload, 0) == Some(0nat),
        items_bytes(payload, n) is Some,
        ({
            let kind = bytes::le_at(payload, 34 + 6 * (n as int), 2);
            let size = bytes::le_at(payload, 36 + 6 * (n as int), 2);
            let added = items_bytes(payload, n + 1)->Some_0 - items_bytes(payload, n)->Some_0;
            &&& bytes::le_at(payload, 38 + 6 * (n as int), 2) == 3
            &&& {
                ||| kind == 10 && added == 30
                ||| kind == 11 && added == 6
                ||| kind == 12 && added == 8
                ||| kind == 13 && added == 29
                ||| kind == 14 && added == size
            }
        }),
{
    assert(item_field(payload, n as int, 0) == bytes::le_at(payload, 34 + 6 * (n as int), 2));
    assert(item_field(payload, n as int, 1) == bytes::le_at(payload, 36 + 6 * (n as int), 2));
    assert(item_field(payload, n as int, 2) == bytes::le_at(payload, 38 + 6 * (n as int), 2));
}

/// Decoding gives the records of the chunk, all of them, wherever the codec can give them; and
/// what it gives are the records of the chunk.
pub proof fn law_decoded(
    payload: Seq<u8>,
    size: usize,
    chunk: Seq<u8>,
    count: usize,
    r: Result<Vec<u8>>,
)
    requires
        decoded(payload, size, chunk, count, r),
    ensures
        ({
            let records = laz_chunk_records(payload, chunk, (count * size) as nat);
            let possible = {
                &&& count * size <= isize::MAX
                &&& count > 0 ==> whole(payload, chunk)
                &&& count > 1 ==> without_waves(payload) && readable(
                    payload,
                    chunk,
                    (count - 1) as nat,
                )
            };
            &&& possible && records is Some ==> r is Ok
            &&& r is Ok ==> possible && records == Some(r->Ok_0@) && r->Ok_0@.len() == count * size
        }),
{
}

/// The layers of a chunk stand one behind the other, the first right behind the table of their
/// sizes, and those of a chunk that has them all end in it.
pub proof fn law_layers_stand(chunk: Seq<u8>, table: int, layers: nat, k: nat)
    requires
        k < layers,
    ensures
        layer_start(chunk, table, layers, 0) == table + 4 * layers,
        layer_start(chunk, table, layers, k + 1) == layer_start(chunk, table, layers, k)
            + bytes::le_at(chunk, table + 4 * k, 4),
        layers_inside(chunk, table, layers) ==> layer_start(chunk, table, layers, layers)
            <= chunk.len(),
{
}

/// Of a chunk of which some points can be read, fewer can be read too.
pub proof fn law_fewer_points_are_readable(payload: Seq<u8>, chunk: Seq<u8>, n: nat, m: nat)
    requires
        readable(payload, chunk, n),
        m <= n,
    ensures
        readable(payload, chunk, m),
        whole(payload, chunk),
{
    lemma_fewer_readable(payload, chunk, m, n);
    reveal(readable);
}

/// Points have waveforms just where one of the items of the payload is of that kind.
pub proof fn law_without_waves(payload: Seq<u8>)
    ensures
        !without_waves(payload) <==> exists|i: int|
            0 <= i < item_count(payload) && #[trigger] bytes::le_at(payload, 34 + 6 * i, 2) == 13,
{
    assert forall|i: int| #[trigger] item_field(payload, i, 0) == bytes::le_at(
        payload,
        34 + 6 * i,
        2,
    ) by {}
    if !without_waves(payload) {
        let i = choose|i: int|
            0 <= i < item_count(payload) && #[trigger] item_field(payload, i, 0) == 13;
        assert(bytes::le_at(payload, 34 + 6 * i, 2) == 13);
    }
    if exists|i: int|
        0 <= i < item_count(payload) && #[trigger] bytes::le_at(payload, 34 + 6 * i, 2) == 13 {
        let i = choose|i: int|
            0 <= i < item_count(payload) && #[trigger] bytes::le_at(payload, 34 + 6 * i, 2) == 13;
        assert(item_field(payload, i, 0) == 13);
    }
}

} // verus!
