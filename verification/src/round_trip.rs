//! An output file, read back.

use vstd::prelude::*;

use crate::bytes;
use crate::error::{Error, Result};
use crate::file;
use crate::hierarchy::{Entry, VoxelKey};
use crate::index;
use crate::info;
use crate::info::CopcInfo;
use crate::las_header::LasHeader;
use crate::las_out;
use crate::las_out::{OutputHeader, RecordModel};
use crate::laszip;
use crate::limits::{MAX_HIERARCHY_TOTAL_BYTES, MAX_POINT_CHUNK_BYTES};
use crate::page_read;
use crate::page_tree;
use crate::pages;
use crate::seqs;
use crate::vlr;
use crate::writer;
use crate::writer::TailModel;
use crate::vlr::{EvlrModel, VlrModel};

verus! {

/// A record's user id as it is read: cut at sixteen bytes, and at a zero byte.
pub open spec fn user_read(record: RecordModel) -> Seq<u8> {
    vlr::trimmed(las_out::padded(record.user, 16))
}

/// A record as it is read from a VLR.
pub open spec fn vlr_read(record: RecordModel, index: u32) -> VlrModel {
    VlrModel {
        index,
        user_id: user_read(record),
        record_id: record.record_id,
        data: record.data,
    }
}

/// What is read of a record's VLR, wherever it stands.
proof fn lemma_vlr_at(c: Seq<u8>, pos: int, record: RecordModel, index: u32)
    requires
        0 <= pos,
        record.data.len() <= u16::MAX,
        pos + las_out::vlr_bytes(record).len() <= c.len(),
        c.subrange(pos, pos + las_out::vlr_bytes(record).len()) == las_out::vlr_bytes(record),
    ensures
        las_out::vlr_bytes(record).len() == 54 + record.data.len(),
        bytes::le_at(c, pos, 2) == 0,
        bytes::le_at(c, pos + 20, 2) == record.data.len(),
        vlr::vlr_at(c, pos, index) == vlr_read(record, index),
{
    broadcast use bytes::lemma_le_bytes_len;

    let s = las_out::vlr_bytes(record);
    let part = c.subrange(pos, pos + s.len());
    las_out::lemma_padded_len(record.user, 16);
    las_out::lemma_padded_len(record.about, 32);
    bytes::lemma_pow256_values();
    assert(s.len() == 54 + record.data.len());
    assert(s.subrange(0, 2) =~= bytes::le_bytes(0, 2));
    assert(s.subrange(2, 18) =~= las_out::padded(record.user, 16));
    assert(s.subrange(18, 20) =~= bytes::le_bytes(record.record_id as nat, 2));
    assert(s.subrange(20, 22) =~= bytes::le_bytes(record.data.len(), 2));
    assert(s.subrange(54, s.len() as int) =~= record.data);
    bytes::law_le_of_le_bytes(0, 2);
    bytes::law_le_of_le_bytes(record.record_id as nat, 2);
    bytes::law_le_of_le_bytes(record.data.len(), 2);
    assert(c.subrange(pos, pos + 2) =~= part.subrange(0, 2));
    assert(c.subrange(pos + 2, pos + 18) =~= part.subrange(2, 18));
    assert(c.subrange(pos + 18, pos + 20) =~= part.subrange(18, 20));
    assert(c.subrange(pos + 20, pos + 22) =~= part.subrange(20, 22));
    assert(c.subrange(pos + 54, pos + 54 + record.data.len()) =~= part.subrange(
        54,
        s.len() as int,
    ));
}

/// What is read of a record's EVLR, wherever it stands.
proof fn lemma_evlr_at(c: Seq<u8>, pos: int, record: RecordModel)
    requires
        0 <= pos,
        record.data.len() <= u64::MAX,
        pos + las_out::evlr_bytes(record).len() <= c.len(),
        c.subrange(pos, pos + las_out::evlr_bytes(record).len()) == las_out::evlr_bytes(record),
    ensures
        las_out::evlr_bytes(record).len() == 60 + record.data.len(),
        bytes::le_at(c, pos, 2) == 0,
        vlr::evlr_at(c, pos) == evlr_read(record, pos),
{
    broadcast use bytes::lemma_le_bytes_len;

    let s = las_out::evlr_bytes(record);
    let part = c.subrange(pos, pos + s.len());
    las_out::lemma_padded_len(record.user, 16);
    las_out::lemma_padded_len(record.about, 32);
    bytes::lemma_pow256_values();
    assert(s.len() == 60 + record.data.len());
    assert(s.subrange(0, 2) =~= bytes::le_bytes(0, 2));
    assert(s.subrange(2, 18) =~= las_out::padded(record.user, 16));
    assert(s.subrange(18, 20) =~= bytes::le_bytes(record.record_id as nat, 2));
    assert(s.subrange(20, 28) =~= bytes::le_bytes(record.data.len(), 8));
    bytes::law_le_of_le_bytes(0, 2);
    bytes::law_le_of_le_bytes(record.record_id as nat, 2);
    bytes::law_le_of_le_bytes(record.data.len(), 8);
    assert(c.subrange(pos, pos + 2) =~= part.subrange(0, 2));
    assert(c.subrange(pos + 2, pos + 18) =~= part.subrange(2, 18));
    assert(c.subrange(pos + 18, pos + 20) =~= part.subrange(18, 20));
    assert(c.subrange(pos + 20, pos + 28) =~= part.subrange(20, 28));
}

/// A record as it is read from an EVLR at `pos`.
pub open spec fn evlr_read(record: RecordModel, pos: int) -> EvlrModel {
    EvlrModel {
        user_id: user_read(record),
        record_id: record.record_id,
        data_offset: (pos + 60) as u64,
        data_len: record.data.len() as u64,
    }
}

/// The record `k` in the bytes of `n` VLRs.
proof fn lemma_vlr_in(records: Seq<RecordModel>, n: int, k: int)
    requires
        0 <= k < n <= records.len(),
    ensures
        ({
            let all = las_out::vlrs_bytes(records, n);
            let at = las_out::vlrs_bytes(records, k).len() as int;
            let end = las_out::vlrs_bytes(records, k + 1).len() as int;
            &&& at <= end <= all.len()
            &&& end == at + las_out::vlr_bytes(records[k]).len()
            &&& all.subrange(at, end) == las_out::vlr_bytes(records[k])
        }),
    decreases n,
{
    let all = las_out::vlrs_bytes(records, n);
    let before = las_out::vlrs_bytes(records, n - 1);
    let at = las_out::vlrs_bytes(records, k).len() as int;
    let end = las_out::vlrs_bytes(records, k + 1).len() as int;
    if k < n - 1 {
        lemma_vlr_in(records, n - 1, k);
        assert(all.subrange(at, end) =~= before.subrange(at, end));
    } else {
        assert(all.subrange(at, end) =~= las_out::vlr_bytes(records[k]));
    }
}

/// The record `k` in the bytes of `n` EVLRs.
proof fn lemma_evlr_in(records: Seq<RecordModel>, n: int, k: int)
    requires
        0 <= k < n <= records.len(),
    ensures
        ({
            let all = las_out::evlrs_bytes(records, n);
            let at = las_out::evlrs_bytes(records, k).len() as int;
            let end = las_out::evlrs_bytes(records, k + 1).len() as int;
            &&& at <= end <= all.len()
            &&& end == at + las_out::evlr_bytes(records[k]).len()
            &&& all.subrange(at, end) == las_out::evlr_bytes(records[k])
        }),
    decreases n,
{
    let all = las_out::evlrs_bytes(records, n);
    let before = las_out::evlrs_bytes(records, n - 1);
    let at = las_out::evlrs_bytes(records, k).len() as int;
    let end = las_out::evlrs_bytes(records, k + 1).len() as int;
    if k < n - 1 {
        lemma_evlr_in(records, n - 1, k);
        assert(all.subrange(at, end) =~= before.subrange(at, end));
    } else {
        assert(all.subrange(at, end) =~= las_out::evlr_bytes(records[k]));
    }
}

/// The bytes of `records` as VLRs stand in `c` from `start` up to `end`.
pub open spec fn vlrs_stand(c: Seq<u8>, start: int, end: int, records: Seq<RecordModel>) -> bool {
    let n = records.len() as int;
    &&& 0 <= start <= end <= c.len()
    &&& end == start + las_out::vlrs_bytes(records, n).len()
    &&& c.subrange(start, end) == las_out::vlrs_bytes(records, n)
    &&& forall|i: int| 0 <= i < n ==> (#[trigger] records[i]).data.len() <= u16::MAX
}

/// The bytes of `records` as EVLRs stand in `c` from `start` up to `end`.
pub open spec fn evlrs_stand(c: Seq<u8>, start: int, end: int, records: Seq<RecordModel>) -> bool {
    let n = records.len() as int;
    &&& 0 <= start <= end <= c.len()
    &&& end == start + las_out::evlrs_bytes(records, n).len()
    &&& c.subrange(start, end) == las_out::evlrs_bytes(records, n)
}

/// The records from `k` on that a reader keeps.
pub open spec fn kept_from(records: Seq<RecordModel>, k: int) -> Seq<VlrModel>
    decreases records.len() - k,
{
    if k >= records.len() {
        Seq::empty()
    } else {
        let one = vlr_read(records[k], k as u32);
        if vlr::kept(one) {
            seq![one] + kept_from(records, k + 1)
        } else {
            kept_from(records, k + 1)
        }
    }
}

/// VLRs are read one by one as they were written.
proof fn lemma_vlrs_from(c: Seq<u8>, start: int, end: int, records: Seq<RecordModel>, k: int)
    requires
        vlrs_stand(c, start, end, records),
        end <= u32::MAX,
        0 <= k <= records.len() <= u32::MAX,
    ensures
        vlr::vlrs_from(
            c,
            (start + las_out::vlrs_bytes(records, k).len()) as u64,
            k as u32,
            records.len() as u32,
            end as u64,
        ) == Ok::<Seq<VlrModel>, Error>(kept_from(records, k)),
    decreases records.len() - k,
{
    let n = records.len() as int;
    if k < n {
        let all = las_out::vlrs_bytes(records, n);
        let at = las_out::vlrs_bytes(records, k).len() as int;
        let next = las_out::vlrs_bytes(records, k + 1).len() as int;
        lemma_vlr_in(records, n, k);
        let pos = start + at;
        assert(c.subrange(pos, start + next) =~= c.subrange(start, end).subrange(at, next));
        assert(records[k].data.len() <= u16::MAX);
        lemma_vlr_at(c, pos, records[k], k as u32);
        lemma_vlrs_from(c, start, end, records, k + 1);
        let found = kept_from(records, k + 1);
        assert(seq![vlr_read(records[k], k as u32)] + found =~= seq![
            vlr::vlr_at(c, pos, k as u32),
        ] + found);
    }
}

/// The EVLRs from `k` on as they are read.
pub open spec fn evlrs_read(records: Seq<RecordModel>, start: int, k: int) -> Seq<EvlrModel>
    decreases records.len() - k,
{
    if k >= records.len() {
        Seq::empty()
    } else {
        seq![evlr_read(records[k], start + las_out::evlrs_bytes(records, k).len())] + evlrs_read(
            records,
            start,
            k + 1,
        )
    }
}

/// EVLRs are read one by one as they were written.
proof fn lemma_evlrs_from(c: Seq<u8>, start: int, end: int, records: Seq<RecordModel>, k: int)
    requires
        evlrs_stand(c, start, end, records),
        c.len() <= u64::MAX,
        0 <= k <= records.len() <= u32::MAX,
    ensures
        vlr::evlrs_from(
            c,
            (start + las_out::evlrs_bytes(records, k).len()) as u64,
            k as u32,
            records.len() as u32,
            c.len() as u64,
        ) == Ok::<Seq<EvlrModel>, Error>(evlrs_read(records, start, k)),
    decreases records.len() - k,
{
    broadcast use bytes::lemma_le_bytes_len;

    let n = records.len() as int;
    if k < n {
        let at = las_out::evlrs_bytes(records, k).len() as int;
        let next = las_out::evlrs_bytes(records, k + 1).len() as int;
        lemma_evlr_in(records, n, k);
        let pos = start + at;
        assert(c.subrange(pos, start + next) =~= c.subrange(start, end).subrange(at, next));
        lemma_evlr_at(c, pos, records[k]);
        lemma_evlrs_from(c, start, end, records, k + 1);
    }
}

/// A short user id without zero bytes is read as it was written.
proof fn lemma_short_user(record: RecordModel)
    requires
        record.user.len() <= 16,
        forall|i: int| 0 <= i < record.user.len() ==> #[trigger] record.user[i] != 0,
    ensures
        user_read(record) == record.user,
{
    let s = las_out::padded(record.user, 16);
    let n = record.user.len();
    assert forall|i: int| 0 <= i < n implies #[trigger] s[i] != 0 by {
        assert(s[i] == record.user[i]);
    }
    vlr::lemma_nul_index(s, n);
    assert(vlr::trimmed(s) =~= record.user);
}

/// The user ids of the records that COPC needs.
proof fn lemma_own_users()
    ensures
        vlr::copc_user().len() == 4,
        vlr::laszip_user().len() == 14,
        forall|i: int| 0 <= i < 4 ==> #[trigger] vlr::copc_user()[i] != 0,
        forall|i: int| 0 <= i < 14 ==> #[trigger] vlr::laszip_user()[i] != 0,
{
    reveal_strlit("copc");
    reveal_strlit("laszip encoded");
    assert(vstd::utf8::is_ascii_chars("copc"@));
    assert(vstd::utf8::is_ascii_chars("laszip encoded"@));
    vstd::utf8::is_ascii_chars_encode_utf8("copc"@);
    vstd::utf8::is_ascii_chars_encode_utf8("laszip encoded"@);
    assert forall|i: int| 0 <= i < 4 implies #[trigger] vlr::copc_user()[i] != 0 by {
        assert("copc"@[i] as u8 == vlr::copc_user()[i]);
        assert("copc"@[i] != '\0');
    }
    assert forall|i: int| 0 <= i < 14 implies #[trigger] vlr::laszip_user()[i] != 0 by {
        assert("laszip encoded"@[i] as u8 == vlr::laszip_user()[i]);
        assert("laszip encoded"@[i] != '\0');
    }
}

proof fn lemma_vlrs_behind(a: RecordModel, b: RecordModel, records: Seq<RecordModel>, n: int)
    requires
        0 <= n <= records.len(),
    ensures
        las_out::vlrs_bytes(seq![a, b] + records, n + 2) == las_out::vlr_bytes(a)
            + las_out::vlr_bytes(b) + las_out::vlrs_bytes(records, n),
    decreases n,
{
    let all = seq![a, b] + records;
    if n == 0 {
        reveal_with_fuel(las_out::vlrs_bytes, 3);
        assert(las_out::vlrs_bytes(all, 2) =~= las_out::vlr_bytes(a) + las_out::vlr_bytes(b));
        assert(las_out::vlr_bytes(a) + las_out::vlr_bytes(b) + las_out::vlrs_bytes(records, 0)
            =~= las_out::vlr_bytes(a) + las_out::vlr_bytes(b));
    } else {
        lemma_vlrs_behind(a, b, records, n - 1);
        assert(all[n + 1] == records[n - 1]);
        assert(las_out::vlrs_bytes(all, n + 2) =~= las_out::vlr_bytes(a) + las_out::vlr_bytes(b)
            + las_out::vlrs_bytes(records, n));
    }
}

proof fn lemma_evlrs_behind(a: RecordModel, records: Seq<RecordModel>, n: int)
    requires
        0 <= n <= records.len(),
    ensures
        las_out::evlrs_bytes(seq![a] + records, n + 1) == las_out::evlr_bytes(a)
            + las_out::evlrs_bytes(records, n),
    decreases n,
{
    let all = seq![a] + records;
    if n == 0 {
        reveal_with_fuel(las_out::evlrs_bytes, 2);
        assert(las_out::evlrs_bytes(all, 1) =~= las_out::evlr_bytes(a)
            + las_out::evlrs_bytes(records, 0));
    } else {
        lemma_evlrs_behind(a, records, n - 1);
        assert(all[n] == records[n - 1]);
        assert(las_out::evlrs_bytes(all, n + 1) =~= las_out::evlr_bytes(a)
            + las_out::evlrs_bytes(records, n));
    }
}

/// Whether a reader would take the record for one of the two that it needs.
pub open spec fn taken(record: RecordModel) -> bool {
    vlr::kept(vlr_read(record, 0))
}

proof fn lemma_none_kept(records: Seq<RecordModel>, k: int)
    requires
        0 <= k <= records.len(),
        forall|i: int| k <= i < records.len() ==> !taken(#[trigger] records[i]),
    ensures
        kept_from(records, k) == Seq::<VlrModel>::empty(),
    decreases records.len() - k,
{
    if k < records.len() {
        lemma_none_kept(records, k + 1);
        assert(!taken(records[k]));
    }
}

/// The two records that a reader needs are found, and no other.
proof fn lemma_required(info: CopcInfo, payload: Seq<u8>, records: Seq<RecordModel>)
    requires
        laszip::payload_readable(payload),
        forall|i: int| 0 <= i < records.len() ==> !taken(#[trigger] records[i]),
    ensures
        ({
            let all = writer::output_vlrs(info::info_bytes(info), payload, records);
            vlr::required_spec(kept_from(all, 0)) == Ok::<(CopcInfo, Seq<u8>), Error>(
                (info, payload),
            )
        }),
{
    let all = writer::output_vlrs(info::info_bytes(info), payload, records);
    let first = writer::info_record(info::info_bytes(info));
    let second = writer::laszip_record(payload);
    lemma_own_users();
    lemma_short_user(first);
    lemma_short_user(second);
    let a = vlr_read(first, 0);
    let b = vlr_read(second, 1);
    assert(all[0] == first && all[1] == second);
    assert forall|i: int| 2 <= i < all.len() implies !taken(#[trigger] all[i]) by {
        assert(all[i] == records[i - 2]);
    }
    lemma_none_kept(all, 2);
    assert(kept_from(all, 1) =~= seq![b]);
    assert(kept_from(all, 0) =~= seq![a, b]);
    let found = seq![a, b];
    let f = |vlr: VlrModel| vlr::is_info(vlr.user_id, vlr.record_id);
    let g = |vlr: VlrModel| vlr::is_laszip(vlr.user_id, vlr.record_id);
    let none = Seq::<VlrModel>::empty();
    seqs::lemma_filter_empty(f);
    seqs::lemma_filter_empty(g);
    seqs::lemma_filter_push(none, a, f);
    seqs::lemma_filter_push(none, a, g);
    seqs::lemma_filter_push(none.push(a), b, f);
    seqs::lemma_filter_push(none.push(a), b, g);
    assert(found =~= none.push(a).push(b));
    assert(vlr::infos_in(found) =~= seq![a]);
    assert(vlr::laszips_in(found) =~= seq![b]);
    info::law_info_round_trip(info);
}

proof fn lemma_filter_head<T>(e: T, rest: Seq<T>, f: spec_fn(T) -> bool)
    requires
        f(e),
    ensures
        (seq![e] + rest).filter(f).len() > 0,
        (seq![e] + rest).filter(f)[0] == e,
    decreases rest.len(),
{
    if rest.len() == 0 {
        let none = Seq::<T>::empty();
        seqs::lemma_filter_empty(f);
        seqs::lemma_filter_push(none, e, f);
        assert(seq![e] + rest =~= none.push(e));
    } else {
        let before = rest.drop_last();
        lemma_filter_head(e, before, f);
        seqs::lemma_filter_push(seq![e] + before, rest.last(), f);
        assert(seq![e] + rest =~= (seq![e] + before).push(rest.last()));
    }
}

/// The points of a hierarchy that holds `entries` and, besides them, nothing with points.
proof fn lemma_point_total(map: Map<VoxelKey, Entry>, entries: Seq<Entry>)
    requires
        map.dom().finite(),
        page_tree::distinct_keys(entries),
        forall|i: int|
            0 <= i < entries.len() && index::entry_points(#[trigger] entries[i]) > 0
                ==> map.contains_key(entries[i].key) && map[entries[i].key] == entries[i],
        forall|k: VoxelKey| #[trigger]
            map.contains_key(k) ==> map[k].key == k && (index::entry_points(map[k]) == 0
                || entries.contains(map[k])),
    ensures
        index::point_total(map) == index::points_in(entries),
    decreases entries.len(), map.dom().len(),
{
    if entries.len() == 0 {
        if map.dom().len() > 0 {
            let k = map.dom().choose();
            assert(map.contains_key(k));
            index::lemma_point_total_remove(map, k);
            lemma_point_total(map.remove(k), entries);
        }
    } else {
        let rest = entries.drop_last();
        let e = entries.last();
        assert(entries[entries.len() - 1] == e);
        assert(page_tree::distinct_keys(rest)) by {
            assert forall|i: int, j: int| 0 <= i < j < rest.len() implies (
            #[trigger] rest[i]).key != (#[trigger] rest[j]).key by {
                assert(entries[i].key != entries[j].key);
            }
        }
        let left = if index::entry_points(e) > 0 {
            map.remove(e.key)
        } else {
            map
        };
        assert forall|i: int|
            0 <= i < rest.len() && index::entry_points(#[trigger] rest[i])
                > 0 implies left.contains_key(rest[i].key) && left[rest[i].key] == rest[i] by {
            assert(entries[i] == rest[i]);
            assert(entries[i].key != entries[entries.len() - 1].key);
        }
        assert forall|k: VoxelKey| #[trigger] left.contains_key(k) implies left[k].key == k && (
        index::entry_points(left[k]) == 0 || rest.contains(left[k])) by {
            assert(map.contains_key(k));
            if index::entry_points(left[k]) > 0 {
                let i = choose|i: int| 0 <= i < entries.len() && entries[i] == map[k];
                if i < rest.len() {
                    assert(rest[i] == left[k]);
                }
            }
        }
        if index::entry_points(e) > 0 {
            assert(map.contains_key(e.key));
            index::lemma_point_total_remove(map, e.key);
        }
        lemma_point_total(left, rest);
    }
}

proof fn lemma_merged_finite(
    map: Map<VoxelKey, Entry>,
    entries: Seq<Entry>,
    n: nat,
    file_len: u64,
    ranges: file::CopcDataRanges,
)
    requires
        map.dom().finite(),
        file::merged_all(map, entries, n, file_len, ranges) is Ok,
    ensures
        file::merged_all(map, entries, n, file_len, ranges)->Ok_0.dom().finite(),
    decreases n,
{
    if n > 0 {
        lemma_merged_finite(map, entries, (n - 1) as nat, file_len, ranges);
    }
}

proof fn lemma_loaded_finite(
    c: Seq<u8>,
    map: Map<VoxelKey, Entry>,
    queue: file::PageQueue,
    total: u64,
    file_len: u64,
    ranges: file::CopcDataRanges,
)
    requires
        map.dom().finite(),
        file::loaded(c, map, queue, total, file_len, ranges) is Ok,
    ensures
        file::loaded(c, map, queue, total, file_len, ranges)->Ok_0.dom().finite(),
    decreases MAX_HIERARCHY_TOTAL_BYTES - total,
{
    if queue.pending.len() > 0 {
        let (offset, byte_size) = queue.pending.last();
        let rest = file::PageQueue {
            visited: queue.visited,
            pending: queue.pending.drop_last(),
        };
        let entries = file::page_at(c, offset, byte_size, total, file_len)->Ok_0;
        lemma_merged_finite(map, entries, entries.len(), file_len, ranges);
        let next = file::merged_all(map, entries, entries.len(), file_len, ranges)->Ok_0;
        assert(file::page_check(offset, byte_size, total, file_len) is Ok);
        lemma_loaded_finite(
            c,
            next,
            file::queued(rest, entries, entries.len()),
            (total + byte_size) as u64,
            file_len,
            ranges,
        );
    }
}

/// The first `n` chunks, one behind the other.
pub open spec fn joined(chunks: Seq<Seq<u8>>, n: int) -> Seq<u8>
    decreases n,
{
    if n <= 0 {
        Seq::empty()
    } else {
        joined(chunks, n - 1) + chunks[n - 1]
    }
}

/// All that an output file is made of.
pub struct OutputModel {
    pub header: OutputHeader,
    pub info: CopcInfo,
    pub payload: Seq<u8>,
    pub records: Seq<RecordModel>,
    pub place: Seq<u8>,
    pub chunks: Seq<Seq<u8>>,
    pub table: Seq<u8>,
    pub entries: Seq<Entry>,
    pub evlrs: Seq<RecordModel>,
}

impl OutputModel {
    pub open spec fn head(self) -> Seq<u8> {
        writer::head_bytes(
            self.header,
            info::info_bytes(self.info),
            self.payload,
            self.records,
        )
    }

    /// The point data: the place of the chunk table, the chunks, and the table.
    pub open spec fn data(self) -> Seq<u8> {
        self.place + joined(self.chunks, self.chunks.len() as int) + self.table
    }

    /// Where the EVLRs start.
    pub open spec fn evlr_start(self) -> int {
        (self.head().len() + self.data().len()) as int
    }

    pub open spec fn tail(self) -> Result<TailModel> {
        writer::tail_spec(self.entries, self.evlr_start() as u64, self.evlrs)
    }

    /// The bytes of the file.
    pub open spec fn content(self) -> Seq<u8> {
        self.head() + self.data() + self.tail()->Ok_0.bytes
    }

    /// The chunks and the entries belong together: each entry says where its chunk lies.
    pub open spec fn chunks_placed(self) -> bool {
        &&& self.place.len() == 8
        &&& self.chunks.len() == self.entries.len()
        &&& forall|i: int|
            0 <= i < self.entries.len() ==> {
                let entry = #[trigger] self.entries[i];
                &&& entry.offset == self.head().len() + 8 + joined(self.chunks, i).len()
                &&& entry.byte_size == self.chunks[i].len()
                &&& 0 < entry.byte_size <= MAX_POINT_CHUNK_BYTES
                &&& entry.point_count > 0
                &&& entry.key.valid()
            }
        &&& page_tree::distinct_keys(self.entries)
        &&& self.entries.len() > 0
    }

    /// Header, info and records say what the file holds.
    pub open spec fn consistent(self) -> bool {
        &&& self.content().len() <= u64::MAX
        &&& self.tail() is Ok
        &&& las_out::readable(self.header, self.content().len() as u64)
        &&& self.header.offset_to_point_data == self.head().len()
        &&& self.header.number_of_vlrs == 2 + self.records.len()
        &&& self.header.offset_to_first_evlr == self.evlr_start()
        &&& self.header.number_of_evlrs == 1 + self.evlrs.len()
        &&& self.header.total_point_count == index::points_in(self.entries)
        &&& self.info.root_hier_offset == self.tail()->Ok_0.root_hier_offset
        &&& self.info.root_hier_size == self.tail()->Ok_0.root_hier_size
        &&& laszip::payload_readable(self.payload)
        &&& self.payload.len() <= u16::MAX
        &&& forall|i: int|
            0 <= i < self.records.len() ==> (#[trigger] self.records[i]).data.len() <= u16::MAX
                && !taken(self.records[i])
        &&& self.hierarchy_bytes() <= MAX_HIERARCHY_TOTAL_BYTES
        &&& self.pages().len() <= usize::MAX
    }

    /// The pages of the hierarchy, at their places.
    pub open spec fn pages(self) -> Seq<pages::PageModel> {
        pages::placed(
            pages::plan_of(self.entries, writer::root_key(), 0)->Ok_0,
            (self.evlr_start() + 60) as u64,
        )
    }

    /// The bytes of all pages together.
    pub open spec fn hierarchy_bytes(self) -> nat {
        pages::bytes_before(self.pages(), self.pages().len() as int)
    }
}

proof fn lemma_joined_len(chunks: Seq<Seq<u8>>, a: int, b: int)
    requires
        0 <= a <= b <= chunks.len(),
    ensures
        joined(chunks, a).len() <= joined(chunks, b).len(),
        a < b ==> joined(chunks, a).len() + chunks[a].len() <= joined(chunks, b).len(),
    decreases b - a,
{
    if a < b {
        lemma_joined_len(chunks, a, b - 1);
    }
}

proof fn lemma_joined_part(chunks: Seq<Seq<u8>>, n: int, i: int)
    requires
        0 <= i < n <= chunks.len(),
    ensures
        joined(chunks, i).len() + chunks[i].len() <= joined(chunks, n).len(),
        joined(chunks, n).subrange(
            joined(chunks, i).len() as int,
            (joined(chunks, i).len() + chunks[i].len()) as int,
        ) == chunks[i],
    decreases n,
{
    let at = joined(chunks, i).len() as int;
    let end = at + chunks[i].len();
    lemma_joined_len(chunks, i, n);
    if i < n - 1 {
        lemma_joined_part(chunks, n - 1, i);
        assert(joined(chunks, n).subrange(at, end) =~= joined(chunks, n - 1).subrange(at, end));
    } else {
        assert(joined(chunks, n).subrange(at, end) =~= chunks[i]);
    }
}

/// A node's entry leads to the node's chunk.
pub proof fn law_entries_lead_to_chunks(out: OutputModel, i: int)
    requires
        out.chunks_placed(),
        0 <= i < out.entries.len(),
    ensures
        out.entries[i].offset + out.entries[i].byte_size <= out.content().len(),
        out.content().subrange(
            out.entries[i].offset as int,
            out.entries[i].offset + out.entries[i].byte_size,
        ) == out.chunks[i],
{
    let n = out.chunks.len() as int;
    lemma_joined_part(out.chunks, n, i);
    let entry = out.entries[i];
    let at = joined(out.chunks, i).len() as int;
    let end = at + out.chunks[i].len();
    assert(out.content().subrange(entry.offset as int, entry.offset + entry.byte_size)
        =~= joined(out.chunks, n).subrange(at, end));
}

/// The header and the records in front of the point data are read as they were written.
#[verifier::rlimit(40)]
proof fn lemma_head_read(out: OutputModel)
    requires
        out.consistent(),
    ensures
        file::file_header(out.content()) == Ok::<LasHeader, Error>(out.header.as_read()),
        file::file_records(out.content(), out.header.as_read()) == Ok::<
            (CopcInfo, Seq<u8>),
            Error,
        >((out.info, out.payload)),
{
    let c = out.content();
    let len = c.len() as u64;
    let head = out.head();
    let data = info::info_bytes(out.info);
    let all = writer::output_vlrs(data, out.payload, out.records);
    let n = out.records.len() as int;
    las_out::law_header_read_back(out.header, len);
    assert(c.subrange(0, 375) =~= out.header.header_bytes());
    info::law_info_round_trip(out.info);
    lemma_vlrs_behind(
        writer::info_record(data),
        writer::laszip_record(out.payload),
        out.records,
        n,
    );
    let bytes = las_out::vlrs_bytes(all, n + 2);
    assert(head =~= out.header.header_bytes() + bytes);
    assert(c.subrange(375, head.len() as int) =~= bytes);
    assert forall|i: int| 0 <= i < all.len() implies (#[trigger] all[i]).data.len()
        <= u16::MAX by {
        if i >= 2 {
            assert(all[i] == out.records[i - 2]);
        }
    }
    assert(vlrs_stand(c, 375, head.len() as int, all));
    lemma_vlrs_from(c, 375, head.len() as int, all, 0);
    assert(las_out::vlrs_bytes(all, 0).len() == 0);
    lemma_required(out.info, out.payload, out.records);
}

/// The record of the hierarchy.
pub open spec fn hierarchy_record(tree: Seq<u8>) -> RecordModel {
    RecordModel {
        user: vlr::copc_user(),
        record_id: vlr::COPC_HIERARCHY_RECORD_ID,
        about: vstd::utf8::encode_utf8("COPC hierarchy"@),
        data: tree,
    }
}

impl OutputModel {
    /// The bytes of the hierarchy's pages.
    pub open spec fn tree(self) -> Seq<u8> {
        pages::tree_bytes(
            self.pages(),
            (self.evlr_start() + 60) as u64,
            self.pages().len() as int,
        )->Ok_0
    }

    /// Where a reader finds point data and hierarchy.
    pub open spec fn ranges(self) -> file::CopcDataRanges {
        file::CopcDataRanges {
            point_data_start: self.head().len() as u64,
            point_data_end: self.evlr_start() as u64,
            hierarchy_start: (self.evlr_start() + 60) as u64,
            hierarchy_end: (self.evlr_start() + 60 + self.tree().len()) as u64,
        }
    }
}

/// The pages of the hierarchy, and their bytes.
proof fn lemma_tail(out: OutputModel)
    requires
        out.consistent(),
    ensures
        ({
            let start = (out.evlr_start() + 60) as u64;
            let pages = out.pages();
            &&& out.evlr_start() + 60 <= u64::MAX
            &&& pages::plan_of(out.entries, writer::root_key(), 0) is Ok
            &&& pages::tree_bytes(pages, start, pages.len() as int) is Ok
            &&& out.tree().len() == out.hierarchy_bytes()
            &&& out.tail()->Ok_0.bytes == las_out::evlr_bytes(hierarchy_record(out.tree()))
                + las_out::evlrs_bytes(out.evlrs, out.evlrs.len() as int)
            &&& out.info.root_hier_offset == start
            &&& out.info.root_hier_size == pages[0].byte_size
            &&& pages[0].offset == start
            &&& pages.len() > 0
            &&& forall|i: int|
                0 <= i < pages.len() ==> (#[trigger] pages[i]).byte_size == 32
                    * pages[i].items.len()
            &&& out.evlr_start() + 60 + out.tree().len() <= out.content().len()
        }),
{
    broadcast use bytes::lemma_le_bytes_len;

    reveal(writer::tail_spec);
    let root = (out.evlr_start() + 60) as u64;
    let plan = pages::plan_of(out.entries, writer::root_key(), 0)->Ok_0;
    let pages = out.pages();
    let m = plan.len() as int;
    pages::law_end_of(plan, root, m);
    pages::lemma_plan_not_empty(out.entries, writer::root_key(), 0);
    pages::lemma_end_of_depends(pages, plan, root, m);
    page_read::lemma_tree_len(pages, root, m);
    assert(hierarchy_record(out.tree()).data == out.tree());
    assert forall|i: int| 0 <= i < pages.len() implies (#[trigger] pages[i]).byte_size == 32
        * pages[i].items.len() by {
        pages::lemma_page_fits(plan, root, m, i);
    }
    assert(out.tail()->Ok_0.bytes =~= las_out::evlr_bytes(hierarchy_record(out.tree()))
        + las_out::evlrs_bytes(out.evlrs, out.evlrs.len() as int));
    las_out::lemma_padded_len(vlr::copc_user(), 16);
    las_out::lemma_padded_len(vstd::utf8::encode_utf8("COPC hierarchy"@), 32);
}

impl OutputModel {
    /// The extended records of the file: the hierarchy, and those behind it.
    spec fn all_evlrs(self) -> Seq<RecordModel> {
        seq![hierarchy_record(self.tree())] + self.evlrs
    }
}

/// The extended records are read, and one of them at least is the hierarchy.
proof fn lemma_evlrs_found(out: OutputModel)
    requires
        out.consistent(),
    ensures
        ({
            let c = out.content();
            let start = out.evlr_start();
            let first = evlr_read(hierarchy_record(out.tree()), start);
            let rest = evlrs_read(out.all_evlrs(), start, 1);
            &&& evlrs_stand(c, start, c.len() as int, out.all_evlrs())
            &&& vlr::is_hierarchy(first.user_id, first.record_id)
            &&& evlrs_read(out.all_evlrs(), start, 0) == seq![first] + rest
        }),
{
    let c = out.content();
    let start = out.evlr_start();
    let hier = hierarchy_record(out.tree());
    let all = out.all_evlrs();
    let n = out.evlrs.len() as int;
    lemma_tail(out);
    lemma_evlrs_behind(hier, out.evlrs, n);
    let written = las_out::evlrs_bytes(all, n + 1);
    assert(out.tail()->Ok_0.bytes == written);
    assert(c.subrange(start, c.len() as int) =~= written);
    assert(las_out::evlrs_bytes(all, 0).len() == 0);
    lemma_own_users();
    lemma_short_user(hier);
    assert(all[0] == hier);
}

/// The first hierarchy among the extended records is the one that was written.
proof fn lemma_hierarchy_found(out: OutputModel)
    requires
        out.consistent(),
    ensures
        ({
            let c = out.content();
            let first = evlr_read(hierarchy_record(out.tree()), out.evlr_start());
            let evlrs = vlr::evlrs_spec(c, out.header.as_read(), c.len() as u64);
            &&& evlrs is Ok
            &&& file::hierarchies_in(evlrs->Ok_0).len() > 0
            &&& file::hierarchies_in(evlrs->Ok_0)[0] == first
        }),
{
    let c = out.content();
    let start = out.evlr_start();
    let all = out.all_evlrs();
    lemma_evlrs_found(out);
    lemma_evlrs_from(c, start, c.len() as int, all, 0);
    assert(las_out::evlrs_bytes(all, 0).len() == 0);
    let first = evlr_read(hierarchy_record(out.tree()), start);
    let rest = evlrs_read(all, start, 1);
    let f = |evlr: EvlrModel| vlr::is_hierarchy(evlr.user_id, evlr.record_id);
    lemma_filter_head(first, rest, f);
    assert(file::hierarchies_in(evlrs_read(all, start, 0)) == (seq![first] + rest).filter(f));
    las_out::law_header_read_back(out.header, c.len() as u64);
}

/// The hierarchy is found.
#[verifier::rlimit(40)]
proof fn lemma_ranges_read(out: OutputModel)
    requires
        out.consistent(),
        0 < out.pages()[0].items.len() <= pages::HIERARCHY_PAGE_MAX_ENTRIES,
    ensures
        file::root_ranges(out.content(), out.header.as_read(), out.info) == Ok::<
            file::CopcDataRanges,
            Error,
        >(out.ranges()),
{
    lemma_tail(out);
    lemma_hierarchy_found(out);
    las_out::law_header_read_back(out.header, out.content().len() as u64);
    assert(out.head().len() >= 375);
    let pages = out.pages();
    assert(pages::bytes_before(pages, 1) == 32 * pages[0].items.len()) by {
        reveal_with_fuel(pages::bytes_before, 2);
    }
    page_read::lemma_before_grows(pages, 1, pages.len() as int);
}

/// The pages of the file are stored as a reader needs them.
proof fn lemma_stored(out: OutputModel)
    requires
        out.consistent(),
        out.chunks_placed(),
    ensures
        0 < out.pages()[0].items.len() <= pages::HIERARCHY_PAGE_MAX_ENTRIES,
        page_read::stored(
            out.content(),
            out.pages(),
            (out.evlr_start() + 60) as u64,
            out.entries.to_set(),
            out.content().len() as u64,
            out.ranges(),
        ),
{
    let c = out.content();
    let len = c.len() as u64;
    let root = writer::root_key();
    let plan = pages::plan_of(out.entries, root, 0)->Ok_0;
    let pages = out.pages();
    let start = (out.evlr_start() + 60) as u64;
    let n = out.chunks.len() as int;
    lemma_tail(out);
    assert(page_tree::plannable(out.entries, root)) by {
        assert forall|i: int| 0 <= i < out.entries.len() implies page_tree::under(
            root,
            (#[trigger] out.entries[i]).key,
        ) by {
            page_tree::law_root_holds_all(out.entries[i].key);
        }
    }
    page_tree::law_plan(out.entries, root, 0);
    page_tree::lemma_sound_depends(plan, pages, 0, out.entries.to_set(), root);
    assert(page_tree::sound(pages, 0, out.entries.to_set(), root));
    assert forall|i: int| 0 <= i < pages.len() implies 0 < (#[trigger] pages[i]).items.len()
        <= pages::HIERARCHY_PAGE_MAX_ENTRIES by {
        assert(pages[i].items == plan[i].items);
    }
    let tree = out.tree();
    assert(c.subrange(start as int, start + tree.len()) =~= tree) by {
        broadcast use bytes::lemma_le_bytes_len;

        las_out::lemma_padded_len(vlr::copc_user(), 16);
        las_out::lemma_padded_len(vstd::utf8::encode_utf8("COPC hierarchy"@), 32);
        let header = writer::hierarchy_header(tree.len());
        assert(las_out::evlr_bytes(hierarchy_record(tree)) =~= header + tree);
        assert(header.len() == 60);
    }
    assert forall|entry: Entry| #[trigger] out.entries.to_set().contains(
        entry,
    ) implies entry.point_count >= 0 && file::entry_check(entry, len, out.ranges()) is Ok by {
        let i = choose|i: int| 0 <= i < out.entries.len() && out.entries[i] == entry;
        assert(out.entries[i].key.valid());
        lemma_joined_part(out.chunks, n, i);
        assert(entry.valid());
        assert(entry.validity() is Ok);
    }
}

/// No two chunks share a byte.
proof fn lemma_disjoint(out: OutputModel, map: Map<VoxelKey, Entry>)
    requires
        out.chunks_placed(),
        page_read::holds(map, out.pages(), out.entries.to_set()),
    ensures
        file::chunks_disjoint(map),
{
    assert forall|a: VoxelKey, b: VoxelKey|
        #![trigger map.contains_key(a), map.contains_key(b)]
        map.contains_key(a) && map.contains_key(b) && a != b && map[a].point_count > 0
            && map[b].point_count > 0 implies !file::overlap(map[a], map[b]) by {
        assert(out.entries.to_set().contains(map[a]));
        assert(out.entries.to_set().contains(map[b]));
        let i = choose|i: int| 0 <= i < out.entries.len() && out.entries[i] == map[a];
        let j = choose|j: int| 0 <= j < out.entries.len() && out.entries[j] == map[b];
        if i < j {
            lemma_joined_len(out.chunks, i, j);
        } else {
            lemma_joined_len(out.chunks, j, i);
        }
    }
}

/// Everything is read as it was written.
proof fn lemma_output_loads(out: OutputModel)
    requires
        out.consistent(),
        out.chunks_placed(),
    ensures
        ({
            let answer = file::file_loaded(out.content());
            &&& answer is Ok
            &&& answer->Ok_0.header == out.header.as_read()
            &&& answer->Ok_0.info == out.info
            &&& answer->Ok_0.laszip == out.payload
            &&& page_read::holds(answer->Ok_0.hierarchy, out.pages(), out.entries.to_set())
            &&& answer->Ok_0.hierarchy.dom().finite()
        }),
{
    let c = out.content();
    let len = c.len() as u64;
    let pages = out.pages();
    let start = (out.evlr_start() + 60) as u64;
    let ranges = out.ranges();
    let size = pages[0].byte_size;
    let met = set![(start, size)];
    lemma_head_read(out);
    lemma_stored(out);
    lemma_ranges_read(out);
    lemma_tail(out);
    page_read::law_pages_read_back(c, pages, start, out.entries.to_set(), len, ranges);
    let root = file::page_at(c, start, size, 0, len)->Ok_0;
    let map = file::tree_spec(c, root, Map::empty(), met, size, len, ranges)->Ok_0;
    lemma_assembled(c, out.header.as_read(), out.info, out.payload, ranges, root, map);
    lemma_tree_finite(c, root, met, size, len, ranges);
}

/// The steps of reading a file, put together.
proof fn lemma_assembled(
    c: Seq<u8>,
    header: LasHeader,
    info: CopcInfo,
    laszip: Seq<u8>,
    ranges: file::CopcDataRanges,
    root: Seq<Entry>,
    hierarchy: Map<VoxelKey, Entry>,
)
    requires
        file::file_header(c) == Ok::<LasHeader, Error>(header),
        file::file_records(c, header) == Ok::<(CopcInfo, Seq<u8>), Error>((info, laszip)),
        file::root_ranges(c, header, info) == Ok::<file::CopcDataRanges, Error>(ranges),
        file::page_at(
            c,
            info.root_hier_offset,
            info.root_hier_size,
            0,
            c.len() as u64,
        ) == Ok::<Seq<Entry>, Error>(root),
        file::tree_spec(
            c,
            root,
            Map::empty(),
            set![(info.root_hier_offset, info.root_hier_size)],
            info.root_hier_size,
            c.len() as u64,
            ranges,
        ) == Ok::<Map<VoxelKey, Entry>, Error>(hierarchy),
    ensures
        file::file_loaded(c) == Ok::<file::CopcModel, Error>(
            file::CopcModel { header, info, laszip, root, hierarchy, ranges },
        ),
{
    reveal(file::file_loaded);
    let place = (info.root_hier_offset, info.root_hier_size);
    assert(Set::<(u64, u64)>::empty().insert(place) =~= set![place]);
}

proof fn lemma_tree_finite(
    c: Seq<u8>,
    root: Seq<Entry>,
    met: Set<(u64, u64)>,
    size: u64,
    len: u64,
    ranges: file::CopcDataRanges,
)
    requires
        file::tree_spec(c, root, Map::empty(), met, size, len, ranges) is Ok,
    ensures
        file::tree_spec(c, root, Map::empty(), met, size, len, ranges)->Ok_0.dom().finite(),
{
    let next = file::merged_all(Map::empty(), root, root.len(), len, ranges)->Ok_0;
    lemma_merged_finite(Map::empty(), root, root.len(), len, ranges);
    lemma_loaded_finite(
        c,
        next,
        file::queued(
            file::PageQueue { visited: met, pending: Seq::empty() },
            root,
            root.len(),
        ),
        size,
        len,
        ranges,
    );
}

/// What is written opens: an output file whose parts belong together is a COPC file, with the
/// header, the info and the LASzip payload that were put into it, and a hierarchy that holds
/// every node. Besides the nodes the hierarchy holds references to its pages only.
pub proof fn law_output_opens(out: OutputModel)
    requires
        out.consistent(),
        out.chunks_placed(),
    ensures
        ({
            let answer = file::file_loaded(out.content());
            &&& answer is Ok
            &&& file::opens_as(out.content(), answer)
            &&& answer->Ok_0.header == out.header.as_read()
            &&& answer->Ok_0.info == out.info
            &&& answer->Ok_0.laszip == out.payload
            &&& page_read::holds(answer->Ok_0.hierarchy, out.pages(), out.entries.to_set())
        }),
{
    let c = out.content();
    lemma_output_loads(out);
    let map = file::file_loaded(c)->Ok_0.hierarchy;
    assert forall|i: int|
        0 <= i < out.entries.len() && index::entry_points(#[trigger] out.entries[i])
            > 0 implies map.contains_key(out.entries[i].key) && map[out.entries[i].key]
        == out.entries[i] by {
        assert(out.entries.to_set().contains(out.entries[i]));
    }
    lemma_point_total(map, out.entries);
    lemma_disjoint(out, map);
}

proof fn lemma_vlrs_joined(a: Seq<RecordModel>, b: Seq<RecordModel>, n: int)
    requires
        0 <= n <= b.len(),
    ensures
        las_out::vlrs_bytes(a + b, a.len() + n) == las_out::vlrs_bytes(a, a.len() as int)
            + las_out::vlrs_bytes(b, n),
    decreases n,
{
    if n == 0 {
        lemma_vlrs_prefix(a, b, a.len() as int);
        assert(las_out::vlrs_bytes(a, a.len() as int) + las_out::vlrs_bytes(b, 0)
            =~= las_out::vlrs_bytes(a, a.len() as int));
    } else {
        lemma_vlrs_joined(a, b, n - 1);
        assert((a + b)[a.len() + n - 1] == b[n - 1]);
        assert(las_out::vlrs_bytes(a + b, a.len() + n) =~= las_out::vlrs_bytes(
            a,
            a.len() as int,
        ) + las_out::vlrs_bytes(b, n));
    }
}

proof fn lemma_vlrs_prefix(a: Seq<RecordModel>, b: Seq<RecordModel>, n: int)
    requires
        0 <= n <= a.len(),
    ensures
        las_out::vlrs_bytes(a + b, n) == las_out::vlrs_bytes(a, n),
    decreases n,
{
    if n > 0 {
        lemma_vlrs_prefix(a, b, n - 1);
        assert((a + b)[n - 1] == a[n - 1]);
    }
}

proof fn lemma_none_too_large(records: Seq<RecordModel>, n: int)
    requires
        0 <= n <= records.len(),
        forall|i: int| 0 <= i < n ==> (#[trigger] records[i]).data.len() <= u16::MAX,
    ensures
        writer::first_too_large(records, n) is Ok,
    decreases n,
{
    if n > 0 {
        lemma_none_too_large(records, n - 1);
        assert(records[n - 1].data.len() <= u16::MAX);
    }
}

/// A head that is written as planned ends where the plan says that the point data start, so
/// it is always written.
pub proof fn law_plan_is_kept(
    header: OutputHeader,
    payload: Seq<u8>,
    crs: Seq<RecordModel>,
    extras: Seq<RecordModel>,
    passed: Seq<RecordModel>,
    evlrs: nat,
)
    requires
        writer::plan_spec(payload.len(), crs, extras, passed, evlrs) is Ok,
        header.offset_to_point_data == writer::plan_spec(
            payload.len(),
            crs,
            extras,
            passed,
            evlrs,
        )->Ok_0.offset_to_point_data,
    ensures
        writer::head_spec(header, payload, crs + extras + passed) is Ok,
        writer::plan_spec(payload.len(), crs, extras, passed, evlrs)->Ok_0.number_of_vlrs == 2 + (
        crs + extras + passed).len(),
        forall|i: int|
            0 <= i < (crs + extras + passed).len() ==> (#[trigger] (crs + extras
                + passed)[i]).data.len() <= u16::MAX,
{
    let records = crs + extras + passed;
    let some = crs + extras;
    crate::metadata::law_crs_size(crs, crs.len() as int);
    las_out::law_vlrs_size(extras, extras.len() as int);
    las_out::law_vlrs_size(passed, passed.len() as int);
    lemma_vlrs_joined(crs, extras, extras.len() as int);
    lemma_vlrs_joined(some, passed, passed.len() as int);
    assert forall|i: int| 0 <= i < records.len() implies (#[trigger] records[i]).data.len()
        <= u16::MAX by {
        if i < crs.len() {
            assert(records[i] == crs[i]);
        } else if i < some.len() {
            assert(records[i] == extras[i - crs.len()]);
        } else {
            assert(records[i] == passed[i - some.len()]);
        }
    }
    lemma_none_too_large(records, records.len() as int);
    las_out::law_header_read_back(header, 0);
    lemma_record_len(writer::info_record(bytes::zeros(160)));
    lemma_record_len(writer::laszip_record(payload));
}

proof fn lemma_record_len(record: RecordModel)
    ensures
        las_out::vlr_bytes(record).len() == 54 + record.data.len(),
{
    broadcast use bytes::lemma_le_bytes_len;

    las_out::lemma_padded_len(record.user, 16);
    las_out::lemma_padded_len(record.about, 32);
}

/// Putting the info and the place of the EVLRs into a head afterwards gives the head that
/// would have been written with them.
pub proof fn law_finished_head(
    header: OutputHeader,
    info: CopcInfo,
    payload: Seq<u8>,
    records: Seq<RecordModel>,
    first_evlr: u64,
)
    ensures
        writer::finished_head(
            writer::head_bytes(header, bytes::zeros(160), payload, records),
            info::info_bytes(info),
            first_evlr,
        ) == writer::head_bytes(
            OutputHeader { offset_to_first_evlr: first_evlr, ..header },
            info::info_bytes(info),
            payload,
            records,
        ),
{
    broadcast use bytes::lemma_le_bytes_len;

    let data = info::info_bytes(info);
    info::law_info_round_trip(info);
    las_out::law_header_read_back(header, 0);
    let h = header.header_bytes();
    let before = writer::head_bytes(header, bytes::zeros(160), payload, records);
    let first = las_out::vlr_header(
        vlr::copc_user(),
        vlr::COPC_INFO_RECORD_ID,
        160,
        vstd::utf8::encode_utf8("COPC info"@),
    );
    lemma_record_len(writer::info_record(bytes::zeros(160)));
    assert(first.len() == 54);
    let rest = las_out::vlr_bytes(writer::laszip_record(payload)) + las_out::vlrs_bytes(
        records,
        records.len() as int,
    );
    assert(before =~= h + first + bytes::zeros(160) + rest);
    let filled = bytes::splice(before, 429, data);
    assert(filled =~= h + first + data + rest);
    lemma_first_evlr(header, first_evlr);
    let place = bytes::le_bytes(first_evlr as nat, 8);
    let h2 = bytes::splice(h, 235, place);
    assert(bytes::splice(filled, 235, place) =~= h2 + first + data + rest);
    assert(h2 + first + data + rest =~= writer::head_bytes(
        OutputHeader { offset_to_first_evlr: first_evlr, ..header },
        data,
        payload,
        records,
    ));
}

/// The place of the EVLRs stands at byte 235 of the header.
proof fn lemma_first_evlr(header: OutputHeader, first_evlr: u64)
    ensures
        bytes::splice(header.header_bytes(), 235, bytes::le_bytes(first_evlr as nat, 8)) == (
        OutputHeader { offset_to_first_evlr: first_evlr, ..header }).header_bytes(),
{
    broadcast use bytes::lemma_le_bytes_len;

    reveal(OutputHeader::header_bytes);
    let other = OutputHeader { offset_to_first_evlr: first_evlr, ..header };
    las_out::lemma_block_lens(header);
    let a = header.origin_bytes() + header.layout_bytes() + header.space_bytes();
    let z = las_out::counts_bytes(header.extended_return_counts@);
    assert(other.origin_bytes() == header.origin_bytes());
    assert(other.layout_bytes() == header.layout_bytes());
    assert(other.space_bytes() == header.space_bytes());
    let place = bytes::le_bytes(first_evlr as nat, 8);
    let part = header.evlr_part();
    assert(bytes::splice(part, 8, place) =~= other.evlr_part());
    assert(header.header_bytes() =~= a + part + z);
    assert(bytes::splice(a + part + z, 235, place) =~= a + bytes::splice(part, 8, place) + z);
}

/// A head has room for the COPC info.
pub proof fn lemma_head_is_long(header: OutputHeader, payload: Seq<u8>, records: Seq<RecordModel>)
    ensures
        writer::head_bytes(header, bytes::zeros(160), payload, records).len() >= 589,
{
    las_out::law_header_read_back(header, 0);
    lemma_record_len(writer::info_record(bytes::zeros(160)));
}

/// One chunk more makes the chunks longer by its length.
pub proof fn lemma_joined_push(chunks: Seq<Seq<u8>>, chunk: Seq<u8>)
    ensures
        joined(chunks.push(chunk), chunks.len() as int + 1) == joined(
            chunks,
            chunks.len() as int,
        ) + chunk,
{
    lemma_joined_prefix(chunks, chunk, chunks.len() as int);
}

/// One chunk more does not change the first ones.
pub proof fn lemma_joined_prefix(chunks: Seq<Seq<u8>>, chunk: Seq<u8>, n: int)
    requires
        0 <= n <= chunks.len(),
    ensures
        joined(chunks.push(chunk), n) == joined(chunks, n),
    decreases n,
{
    if n > 0 {
        lemma_joined_prefix(chunks, chunk, n - 1);
    }
}

/// The info and the place of the EVLRs do not change the length of a head.
pub proof fn lemma_head_len(
    header: OutputHeader,
    info: CopcInfo,
    payload: Seq<u8>,
    records: Seq<RecordModel>,
    first_evlr: u64,
)
    ensures
        writer::head_bytes(
            OutputHeader { offset_to_first_evlr: first_evlr, ..header },
            info::info_bytes(info),
            payload,
            records,
        ).len() == writer::head_bytes(header, bytes::zeros(160), payload, records).len(),
{
    las_out::law_header_read_back(header, 0);
    las_out::law_header_read_back(
        OutputHeader { offset_to_first_evlr: first_evlr, ..header },
        0,
    );
    info::law_info_round_trip(info);
    lemma_record_len(writer::info_record(bytes::zeros(160)));
    lemma_record_len(writer::info_record(info::info_bytes(info)));
}

/// A node in the whole cube is valid.
proof fn lemma_under_root(key: VoxelKey)
    requires
        page_tree::under(writer::root_key(), key),
    ensures
        key.valid(),
{
    let n = key.level as nat;
    crate::hierarchy::lemma_pow2_monotonic(0, n);
    let scale = crate::hierarchy::pow2(n) as int;
    vstd::arithmetic::div_mod::lemma_fundamental_div_mod(key.x as int, scale);
    vstd::arithmetic::div_mod::lemma_fundamental_div_mod(key.y as int, scale);
    vstd::arithmetic::div_mod::lemma_fundamental_div_mod(key.z as int, scale);
    vstd::arithmetic::mul::lemma_mul_basics(scale);
    assert(key.x as int == key.x as int % scale);
    assert(key.y as int == key.y as int % scale);
    assert(key.z as int == key.z as int % scale);
}

proof fn lemma_bytes_grow(plan: Seq<pages::PageModel>, i: int, n: int)
    requires
        0 <= i <= n <= plan.len(),
    ensures
        pages::bytes_before(plan, i) <= pages::bytes_before(plan, n),
    decreases n - i,
{
    if i < n {
        lemma_bytes_grow(plan, i, n - 1);
    }
}

proof fn lemma_same_bytes_before(
    a: Seq<pages::PageModel>,
    b: Seq<pages::PageModel>,
    n: int,
)
    requires
        0 <= n <= a.len(),
        a.len() == b.len(),
        forall|i: int| 0 <= i < a.len() ==> (#[trigger] a[i]).items == b[i].items,
    ensures
        pages::bytes_before(a, n) == pages::bytes_before(b, n),
    decreases n,
{
    if n > 0 {
        lemma_same_bytes_before(a, b, n - 1);
        assert(a[n - 1].items == b[n - 1].items);
    }
}

/// Pages that are not too large end somewhere.
proof fn lemma_pages_end(plan: Seq<pages::PageModel>, offset: u64, n: int)
    requires
        0 <= n <= plan.len(),
        forall|i: int|
            0 <= i < plan.len() ==> (#[trigger] plan[i]).items.len()
                <= pages::HIERARCHY_PAGE_MAX_ENTRIES,
        offset + pages::bytes_before(plan, n) <= u64::MAX,
    ensures
        pages::end_of(plan, offset, n) == Ok::<u64, Error>(
            (offset + pages::bytes_before(plan, n)) as u64,
        ),
    decreases n,
{
    if n > 0 {
        lemma_pages_end(plan, offset, n - 1);
        assert(plan[n - 1].items.len() <= pages::HIERARCHY_PAGE_MAX_ENTRIES);
    }
}

/// Whether pages can be written: their items are valid, and lead to pages with items.
spec fn writable(all: Seq<pages::PageModel>) -> bool {
    forall|i: int, j: int|
        0 <= i < all.len() && 0 <= j < all[i].items.len() ==> match #[trigger] all[i].items[j] {
            pages::PageItem::Point(entry) => entry.valid(),
            pages::PageItem::Child(k) => {
                &&& k < all.len()
                &&& all[k as int].key.valid()
                &&& 0 < all[k as int].byte_size <= i32::MAX
            },
        }
}

proof fn lemma_items_written(all: Seq<pages::PageModel>, i: int, n: int)
    requires
        writable(all),
        0 <= i < all.len(),
        0 <= n <= all[i].items.len(),
    ensures
        pages::item_entries(all, all[i].items, n) is Ok,
    decreases n,
{
    if n > 0 {
        lemma_items_written(all, i, n - 1);
        let item = all[i].items[n - 1];
        let entry = pages::item_entry(all, item);
        assert(entry is Ok);
        crate::hierarchy::law_valid_entry(entry->Ok_0);
    }
}

proof fn lemma_tree_written(all: Seq<pages::PageModel>, position: u64, n: int)
    requires
        writable(all),
        0 <= n <= all.len(),
        forall|i: int|
            0 <= i < all.len() ==> (#[trigger] all[i]).offset == position + pages::bytes_before(
                all,
                i,
            ),
    ensures
        pages::tree_bytes(all, position, n) is Ok,
    decreases n,
{
    if n > 0 {
        lemma_tree_written(all, position, n - 1);
        page_read::lemma_tree_len(all, position, n - 1);
        assert(all[n - 1].offset == position + pages::bytes_before(all, n - 1));
        lemma_items_written(all, n - 1, all[n - 1].items.len() as int);
    }
}

/// The tail of a file is written for any nodes that are valid and no two of which are one,
/// wherever the places of its pages have room.
pub proof fn law_tail_is_written(entries: Seq<Entry>, start: u64, evlrs: Seq<RecordModel>)
    requires
        entries.len() > 0,
        page_tree::distinct_keys(entries),
        forall|i: int| 0 <= i < entries.len() ==> (#[trigger] entries[i]).valid(),
        ({
            let plan = pages::plan_of(entries, writer::root_key(), 0)->Ok_0;
            &&& plan.len() <= usize::MAX
            &&& start + 60 + pages::bytes_before(plan, plan.len() as int) <= u64::MAX
        }),
    ensures
        writer::tail_spec(entries, start, evlrs) is Ok,
{
    reveal(writer::tail_spec);
    let root = (start + 60) as u64;
    let key = writer::root_key();
    assert(key.valid()) by {
        assert(crate::hierarchy::pow2(0) == 1);
    }
    assert forall|i: int| 0 <= i < entries.len() implies page_tree::under(
        key,
        (#[trigger] entries[i]).key,
    ) by {
        assert(entries[i].valid());
        page_tree::law_root_holds_all(entries[i].key);
    }
    page_tree::law_plan_succeeds(entries, key, 0);
    page_tree::law_plan(entries, key, 0);
    let plan = pages::plan_of(entries, key, 0)->Ok_0;
    let n = plan.len() as int;
    assert forall|i: int| 0 <= i < n implies (#[trigger] plan[i]).items.len()
        <= pages::HIERARCHY_PAGE_MAX_ENTRIES && plan[i].items.len() > 0 by {}
    lemma_pages_end(plan, root, n);
    let all = pages::placed(plan, root);
    assert forall|i: int| 0 <= i < all.len() implies (#[trigger] all[i]).offset == root
        + pages::bytes_before(all, i) by {
        lemma_bytes_grow(plan, i, n);
        lemma_same_bytes_before(all, plan, i);
    }
    assert forall|i: int, j: int|
        0 <= i < all.len() && 0 <= j < all[i].items.len() implies match #[trigger] all[i].items[j] {
        pages::PageItem::Point(entry) => entry.valid(),
        pages::PageItem::Child(k) => {
            &&& k < all.len()
            &&& all[k as int].key.valid()
            &&& 0 < all[k as int].byte_size <= i32::MAX
        },
    } by {
        assert(all[i].items[j] == plan[i].items[j]);
        match plan[i].items[j] {
            pages::PageItem::Point(entry) => {
                assert(page_tree::point_at(plan, i, j) == Some(entry));
                assert(entries.to_set().contains(entry));
                assert(entries.contains(entry));
            },
            pages::PageItem::Child(k) => {
                assert(page_tree::child_at(plan, i, j) == Some(k as int));
                assert(page_tree::under(key, plan[k as int].key));
                lemma_under_root(plan[k as int].key);
                assert(plan[k as int].items.len() > 0);
                assert(all[k as int].key == plan[k as int].key);
            },
        }
    }
    lemma_tree_written(all, root, n);
}

} // verus!
