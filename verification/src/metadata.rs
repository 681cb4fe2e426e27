//! The metadata of an output file, and which records of a source file go into it.

use vstd::prelude::*;

use crate::bytes;
use crate::error::{Error, Fault, Result};
use crate::float::F64;
use crate::las_out;
use crate::las_out::{RecordModel, Vlr, LAS_VLR_HEADER_BYTES};
use crate::limits::MAX_EVLR_COUNT;
use crate::seqs;
use crate::vlr;
use crate::vlr::same_bytes;

verus! {

/// The record id of a coordinate system in WKT.
pub const WKT_CRS_RECORD_ID: u16 = 2112;

/// The record ids of a coordinate system in GeoTIFF keys.
pub const GEOTIFF_GEO_KEY_DIRECTORY_RECORD_ID: u16 = 34735;

pub const GEOTIFF_DOUBLE_PARAMS_RECORD_ID: u16 = 34736;

pub const GEOTIFF_ASCII_PARAMS_RECORD_ID: u16 = 34737;

/// The record id of the description of extra bytes.
pub const EXTRA_BYTES_RECORD_ID: u16 = 4;

/// The bit of the global encoding that says that the coordinate system is in WKT.
pub const WKT_GLOBAL_ENCODING_BIT: u16 = 16;

/// A thousandth, the scale where none is asked for.
pub const MILLIMETER_BITS: u64 = 0x3F50_624D_D2F1_A9FC;

/// Checks the number of EVLRs of a source file before they are read.
pub fn validate_source_evlr_count(count: u32) -> (r: Result<()>)
    ensures
        r == (if count > MAX_EVLR_COUNT {
            Err::<(), Error>(Error::InvalidData(Fault::SourceEvlrCount { count }))
        } else {
            Ok(())
        }),
{
    if count > MAX_EVLR_COUNT {
        Err(Error::InvalidData(Fault::SourceEvlrCount { count }))
    } else {
        Ok(())
    }
}

/// The user id of coordinate systems.
pub open spec fn projection_user() -> Seq<u8> {
    vstd::utf8::encode_utf8("LASF_Projection"@)
}

/// The user id of records that the LAS standard defines.
pub open spec fn spec_user() -> Seq<u8> {
    vstd::utf8::encode_utf8("LASF_Spec"@)
}

pub open spec fn is_wkt(record: RecordModel) -> bool {
    record.user == projection_user() && record.record_id == WKT_CRS_RECORD_ID
}

pub open spec fn is_geotiff(record: RecordModel) -> bool {
    record.user == projection_user() && (record.record_id == GEOTIFF_GEO_KEY_DIRECTORY_RECORD_ID
        || record.record_id == GEOTIFF_DOUBLE_PARAMS_RECORD_ID || record.record_id
        == GEOTIFF_ASCII_PARAMS_RECORD_ID)
}

pub open spec fn is_extra_bytes(record: RecordModel) -> bool {
    record.user == spec_user() && record.record_id == EXTRA_BYTES_RECORD_ID
}

/// Whether an extended record of the source is passed through: records that describe the
/// compression, COPC or the coordinate system are not, for the output has its own.
pub open spec fn passes_evlr(record: RecordModel) -> bool {
    &&& !vlr::is_laszip(record.user, record.record_id)
    &&& !vlr::is_info(record.user, record.record_id)
    &&& !vlr::is_hierarchy(record.user, record.record_id)
    &&& !is_wkt(record)
    &&& !is_geotiff(record)
}

/// Whether a regular record is passed through: as extended ones are, but for the description
/// of extra bytes, which the output has its own of too.
pub open spec fn passes_vlr(record: RecordModel) -> bool {
    passes_evlr(record) && !is_extra_bytes(record)
}

fn is_wkt_crs_vlr(record: &Vlr) -> (r: bool)
    ensures
        r == is_wkt(record@),
{
    record.record_id == WKT_CRS_RECORD_ID && same_bytes(
        record.user_id.as_str().as_bytes(),
        "LASF_Projection".as_bytes(),
    )
}

/// Whether the record is one of those that hold GeoTIFF keys.
pub fn is_geotiff_crs_vlr(record: &Vlr) -> (r: bool)
    ensures
        r == is_geotiff(record@),
{
    let id: u16 = record.record_id;
    (id == GEOTIFF_GEO_KEY_DIRECTORY_RECORD_ID || id == GEOTIFF_DOUBLE_PARAMS_RECORD_ID || id
        == GEOTIFF_ASCII_PARAMS_RECORD_ID) && same_bytes(
        record.user_id.as_str().as_bytes(),
        "LASF_Projection".as_bytes(),
    )
}

fn is_extra_bytes_descriptor_vlr(record: &Vlr) -> (r: bool)
    ensures
        r == is_extra_bytes(record@),
{
    record.record_id == EXTRA_BYTES_RECORD_ID && same_bytes(
        record.user_id.as_str().as_bytes(),
        "LASF_Spec".as_bytes(),
    )
}

fn passes(record: &Vlr) -> (r: bool)
    ensures
        r == passes_evlr(record@),
{
    let user = record.user_id.as_str().as_bytes();
    !vlr::is_laszip_id(user, record.record_id) && !vlr::is_copc_info_id(user, record.record_id)
        && !vlr::is_copc_hierarchy_id(user, record.record_id) && !is_wkt_crs_vlr(record)
        && !is_geotiff_crs_vlr(record)
}

/// The regular records that are passed through.
pub fn extract_pass_through_vlrs(records: &[Vlr]) -> (r: Vec<Vlr>)
    ensures
        las_out::record_models(r@) == las_out::record_models(records@).filter(
            |record: RecordModel| passes_vlr(record),
        ),
{
    let mut kept: Vec<Vlr> = Vec::new();
    let ghost all = las_out::record_models(records@);
    let ghost f = |record: RecordModel| passes_vlr(record);
    let mut i: usize = 0;
    proof {
        seqs::lemma_filter_empty(f);
        assert(all.subrange(0, 0) =~= Seq::empty());
        assert(las_out::record_models(kept@) =~= Seq::empty());
    }
    while i < records.len()
        invariant
            i <= records@.len(),
            all == las_out::record_models(records@),
            f == (|record: RecordModel| passes_vlr(record)),
            las_out::record_models(kept@) == all.subrange(0, i as int).filter(f),
        decreases records@.len() - i,
    {
        let ghost before = kept@;
        proof {
            assert(all.subrange(0, i + 1) =~= all.subrange(0, i as int).push(all[i as int]));
            seqs::lemma_filter_push(all.subrange(0, i as int), all[i as int], f);
        }
        if passes(&records[i]) && !is_extra_bytes_descriptor_vlr(&records[i]) {
            kept.push(records[i].clone());
            proof {
                assert(las_out::record_models(kept@) =~= las_out::record_models(before).push(
                    all[i as int],
                ));
            }
        }
        i = i + 1;
    }
    proof {
        assert(all.subrange(0, records@.len() as int) =~= all);
    }
    kept
}

/// Whether a record describes extra bytes.
pub open spec fn extra_bytes_chooser() -> spec_fn(RecordModel) -> bool {
    |record: RecordModel| is_extra_bytes(record)
}

/// The records that describe extra bytes.
pub fn extra_bytes_descriptors(records: &[Vlr]) -> (r: Vec<Vlr>)
    ensures
        las_out::record_models(r@) == las_out::record_models(records@).filter(
            extra_bytes_chooser(),
        ),
{
    let mut kept: Vec<Vlr> = Vec::new();
    let ghost all = las_out::record_models(records@);
    let ghost f = extra_bytes_chooser();
    let mut i: usize = 0;
    proof {
        seqs::lemma_filter_empty(f);
        assert(all.subrange(0, 0) =~= Seq::empty());
        assert(las_out::record_models(kept@) =~= Seq::empty());
    }
    while i < records.len()
        invariant
            i <= records@.len(),
            all == las_out::record_models(records@),
            f == extra_bytes_chooser(),
            las_out::record_models(kept@) == all.subrange(0, i as int).filter(f),
        decreases records@.len() - i,
    {
        let ghost before = kept@;
        proof {
            assert(all.subrange(0, i + 1) =~= all.subrange(0, i as int).push(all[i as int]));
            seqs::lemma_filter_push(all.subrange(0, i as int), all[i as int], f);
        }
        if is_extra_bytes_descriptor_vlr(&records[i]) {
            kept.push(records[i].clone());
            proof {
                assert(las_out::record_models(kept@) =~= las_out::record_models(before).push(
                    all[i as int],
                ));
            }
        }
        i = i + 1;
    }
    proof {
        assert(all.subrange(0, records@.len() as int) =~= all);
    }
    kept
}

/// The extended records that are passed through.
pub fn extract_pass_through_evlrs(records: &[Vlr]) -> (r: Vec<Vlr>)
    ensures
        las_out::record_models(r@) == las_out::record_models(records@).filter(
            |record: RecordModel| passes_evlr(record),
        ),
{
    let mut kept: Vec<Vlr> = Vec::new();
    let ghost all = las_out::record_models(records@);
    let ghost f = |record: RecordModel| passes_evlr(record);
    let mut i: usize = 0;
    proof {
        seqs::lemma_filter_empty(f);
        assert(all.subrange(0, 0) =~= Seq::empty());
        assert(las_out::record_models(kept@) =~= Seq::empty());
    }
    while i < records.len()
        invariant
            i <= records@.len(),
            all == las_out::record_models(records@),
            f == (|record: RecordModel| passes_evlr(record)),
            las_out::record_models(kept@) == all.subrange(0, i as int).filter(f),
        decreases records@.len() - i,
    {
        let ghost before = kept@;
        proof {
            assert(all.subrange(0, i + 1) =~= all.subrange(0, i as int).push(all[i as int]));
            seqs::lemma_filter_push(all.subrange(0, i as int), all[i as int], f);
        }
        if passes(&records[i]) {
            kept.push(records[i].clone());
            proof {
                assert(las_out::record_models(kept@) =~= las_out::record_models(before).push(
                    all[i as int],
                ));
            }
        }
        i = i + 1;
    }
    proof {
        assert(all.subrange(0, records@.len() as int) =~= all);
    }
    kept
}

/// A record with the coordinate system, and whether it is written as an extended one.
#[derive(Debug)]
pub struct OutputCrsRecord {
    pub vlr: Vlr,
    pub is_extended: bool,
}

/// What an [`OutputCrsRecord`] holds.
#[verifier::ext_equal]
pub struct CrsModel {
    pub record: RecordModel,
    pub is_extended: bool,
}

impl View for OutputCrsRecord {
    type V = CrsModel;

    open spec fn view(&self) -> CrsModel {
        CrsModel { record: self.vlr@, is_extended: self.is_extended }
    }
}

pub open spec fn crs_models(records: Seq<OutputCrsRecord>) -> Seq<CrsModel> {
    Seq::new(records.len(), |i: int| records[i]@)
}

/// The WKT records among `records`, regular or extended.
pub open spec fn wkt_among(records: Seq<RecordModel>, is_extended: bool) -> Seq<CrsModel> {
    let found = records.filter(|record: RecordModel| is_wkt(record));
    Seq::new(found.len(), |i: int| CrsModel { record: found[i], is_extended })
}

fn push_wkt_records(out: &mut Vec<OutputCrsRecord>, records: &[Vlr], is_extended: bool)
    ensures
        crs_models(final(out)@) == crs_models(old(out)@) + wkt_among(
            las_out::record_models(records@),
            is_extended,
        ),
{
    let ghost all = las_out::record_models(records@);
    let ghost f = |record: RecordModel| is_wkt(record);
    let ghost start = crs_models(out@);
    let mut i: usize = 0;
    proof {
        seqs::lemma_filter_empty(f);
        assert(all.subrange(0, 0) =~= Seq::empty());
        assert(crs_models(out@) =~= start + wkt_among(all.subrange(0, 0), is_extended));
    }
    while i < records.len()
        invariant
            i <= records@.len(),
            all == las_out::record_models(records@),
            f == (|record: RecordModel| is_wkt(record)),
            crs_models(out@) == start + wkt_among(all.subrange(0, i as int), is_extended),
        decreases records@.len() - i,
    {
        let ghost before = out@;
        proof {
            assert(all.subrange(0, i + 1) =~= all.subrange(0, i as int).push(all[i as int]));
            seqs::lemma_filter_push(all.subrange(0, i as int), all[i as int], f);
        }
        if is_wkt_crs_vlr(&records[i]) {
            out.push(OutputCrsRecord { vlr: records[i].clone(), is_extended });
            proof {
                assert(crs_models(out@) =~= crs_models(before).push(
                    CrsModel { record: all[i as int], is_extended },
                ));
                assert(crs_models(out@) =~= start + wkt_among(
                    all.subrange(0, i + 1),
                    is_extended,
                ));
            }
        }
        i = i + 1;
    }
    proof {
        assert(all.subrange(0, records@.len() as int) =~= all);
    }
}

/// Whether there is a record with GeoTIFF keys.
pub fn has_geotiff_crs_record(vlrs: &[Vlr], evlrs: &[Vlr]) -> (r: bool)
    ensures
        r == (any_geotiff(las_out::record_models(vlrs@)) || any_geotiff(
            las_out::record_models(evlrs@),
        )),
{
    holds_geotiff(vlrs) || holds_geotiff(evlrs)
}

pub open spec fn any_geotiff(records: Seq<RecordModel>) -> bool {
    exists|i: int| 0 <= i < records.len() && is_geotiff(#[trigger] records[i])
}

pub open spec fn any_wkt(records: Seq<RecordModel>) -> bool {
    exists|i: int| 0 <= i < records.len() && is_wkt(#[trigger] records[i])
}

fn holds_geotiff(records: &[Vlr]) -> (r: bool)
    ensures
        r == any_geotiff(las_out::record_models(records@)),
{
    let ghost all = las_out::record_models(records@);
    let mut i: usize = 0;
    while i < records.len()
        invariant
            i <= records@.len(),
            all == las_out::record_models(records@),
            forall|k: int| 0 <= k < i ==> !is_geotiff(#[trigger] all[k]),
        decreases records@.len() - i,
    {
        if is_geotiff_crs_vlr(&records[i]) {
            proof {
                assert(is_geotiff(all[i as int]));
            }
            return true;
        }
        i = i + 1;
    }
    false
}

fn holds_wkt(records: &[Vlr]) -> (r: bool)
    ensures
        r == any_wkt(las_out::record_models(records@)),
{
    let ghost all = las_out::record_models(records@);
    let mut i: usize = 0;
    while i < records.len()
        invariant
            i <= records@.len(),
            all == las_out::record_models(records@),
            forall|k: int| 0 <= k < i ==> !is_wkt(#[trigger] all[k]),
        decreases records@.len() - i,
    {
        if is_wkt_crs_vlr(&records[i]) {
            proof {
                assert(is_wkt(all[i as int]));
            }
            return true;
        }
        i = i + 1;
    }
    false
}

/// Whether there is a record with a coordinate system in WKT.
pub fn has_wkt_crs_record(vlrs: &[Vlr], evlrs: &[Vlr]) -> (r: bool)
    ensures
        r == (any_wkt(las_out::record_models(vlrs@)) || any_wkt(las_out::record_models(evlrs@))),
{
    holds_wkt(vlrs) || holds_wkt(evlrs)
}

/// Whether a character is white space.
pub open spec fn white(c: char) -> bool {
    let n = c as u32;
    ||| 0x09 <= n <= 0x0D
    ||| n == 0x20 || n == 0x85 || n == 0xA0 || n == 0x1680
    ||| 0x2000 <= n <= 0x200A
    ||| n == 0x2028 || n == 0x2029 || n == 0x202F || n == 0x205F || n == 0x3000
}

/// Whether a text is white space only.
pub open spec fn blank(text: Seq<char>) -> bool {
    forall|i: int| 0 <= i < text.len() ==> white(#[trigger] text[i])
}

fn is_white(c: char) -> (r: bool)
    ensures
        r == white(c),
{
    let n: u32 = c as u32;
    (0x09 <= n && n <= 0x0D) || n == 0x20 || n == 0x85 || n == 0xA0 || n == 0x1680 || (0x2000 <= n
        && n <= 0x200A) || n == 0x2028 || n == 0x2029 || n == 0x202F || n == 0x205F || n == 0x3000
}

fn is_blank(text: &str) -> (r: bool)
    ensures
        r == blank(text@),
{
    let count: usize = text.unicode_len();
    let mut i: usize = 0;
    while i < count
        invariant
            i <= count,
            count == text@.len(),
            forall|k: int| 0 <= k < i ==> white(#[trigger] text@[k]),
        decreases count - i,
    {
        if !is_white(text.get_char(i)) {
            return false;
        }
        i = i + 1;
    }
    true
}

/// The text, unless it is missing or blank.
pub open spec fn normalized(text: Option<Seq<char>>) -> Option<Seq<char>> {
    match text {
        Some(wkt) => if blank(wkt) {
            None
        } else {
            Some(wkt)
        },
        None => None,
    }
}

pub open spec fn text_of(text: Option<&str>) -> Option<Seq<char>> {
    match text {
        Some(wkt) => Some(wkt@),
        None => None,
    }
}

/// The coordinate system that a caller asks for; a blank text asks for none.
pub fn normalized_crs_wkt_override(crs_wkt_override: Option<&str>) -> (r: Option<&str>)
    ensures
        text_of(r) == normalized(text_of(crs_wkt_override)),
{
    match crs_wkt_override {
        Some(wkt) => {
            if is_blank(wkt) {
                None
            } else {
                Some(wkt)
            }
        },
        None => None,
    }
}

/// `s` with a zero byte at its end.
pub open spec fn terminated(s: Seq<u8>) -> Seq<u8> {
    if s.len() > 0 && s.last() == 0 {
        s
    } else {
        s.push(0)
    }
}

fn null_terminated_wkt_bytes(crs_wkt: &str) -> (r: Vec<u8>)
    ensures
        r@ == terminated(vstd::utf8::encode_utf8(crs_wkt@)),
{
    let text = crs_wkt.as_bytes();
    let len: usize = text.len();
    let mut data = bytes::copy_range(text, 0, len);
    if len == 0 || text[len - 1] != 0 {
        data.push(0);
    }
    data
}

/// The record for a coordinate system in WKT.
pub open spec fn wkt_record(wkt: Seq<char>) -> CrsModel {
    CrsModel {
        record: RecordModel {
            user: projection_user(),
            record_id: WKT_CRS_RECORD_ID,
            about: vstd::utf8::encode_utf8("OGC WKT CRS"@),
            data: terminated(vstd::utf8::encode_utf8(wkt)),
        },
        is_extended: false,
    }
}

fn wkt_crs_record(crs_wkt: &str) -> (r: OutputCrsRecord)
    ensures
        r@ == wkt_record(crs_wkt@),
{
    OutputCrsRecord {
        vlr: Vlr {
            user_id: "LASF_Projection".to_owned(),
            record_id: WKT_CRS_RECORD_ID,
            description: "OGC WKT CRS".to_owned(),
            data: null_terminated_wkt_bytes(crs_wkt),
        },
        is_extended: false,
    }
}

/// `encoding` with the WKT bit set.
pub open spec fn with_wkt_bit(encoding: u16) -> u16 {
    if encoding / 16 % 2 == 1 {
        encoding
    } else {
        (encoding + 16) as u16
    }
}

/// The records of the coordinate system, of which there is always one.
pub open spec fn conforming(records: Seq<CrsModel>) -> Seq<CrsModel> {
    if records.len() == 0 {
        seq![wkt_record(""@)]
    } else {
        records
    }
}

/// The metadata of a LAS 1.4 file that is about to be written.
#[derive(Debug)]
pub struct OutputLasMetadata {
    pub file_source_id: u16,
    pub global_encoding: u16,
    pub guid: [u8; 16],
    pub system_identifier: String,
    pub generating_software: String,
    pub creation_day_of_year: u16,
    pub creation_year: u16,
    pub scale: (F64, F64, F64),
    pub offset: Option<(F64, F64, F64)>,
    pub crs_records: Vec<OutputCrsRecord>,
    pub pass_through_vlrs: Vec<Vlr>,
    pub pass_through_evlrs: Vec<Vlr>,
}

impl Default for OutputLasMetadata {
    fn default() -> (r: OutputLasMetadata)
        ensures
            r.file_source_id == 0,
            r.global_encoding == 0,
            r.guid@ == bytes::zeros(16),
            r.system_identifier@ == "copc-rust"@,
            r.generating_software@ == "copc-writer"@,
            r.creation_day_of_year == 0,
            r.creation_year == 0,
            r.scale == (
                F64 { bits: MILLIMETER_BITS },
                F64 { bits: MILLIMETER_BITS },
                F64 { bits: MILLIMETER_BITS },
            ),
            r.offset is None,
            r.crs_records@.len() == 0,
            r.pass_through_vlrs@.len() == 0,
            r.pass_through_evlrs@.len() == 0,
    {
        let scale = F64 { bits: MILLIMETER_BITS };
        let guid: [u8; 16] = [0u8;16];
        proof {
            assert(guid@ =~= bytes::zeros(16));
        }
        OutputLasMetadata {
            file_source_id: 0,
            global_encoding: 0,
            guid,
            system_identifier: "copc-rust".to_owned(),
            generating_software: "copc-writer".to_owned(),
            creation_day_of_year: 0,
            creation_year: 0,
            scale: (scale, scale, scale),
            offset: None,
            crs_records: Vec::new(),
            pass_through_vlrs: Vec::new(),
            pass_through_evlrs: Vec::new(),
        }
    }
}

/// Those of the coordinate system's records that are regular, or extended.
pub open spec fn crs_kind(records: Seq<CrsModel>, is_extended: bool) -> Seq<RecordModel> {
    let found = records.filter(|record: CrsModel| record.is_extended == is_extended);
    Seq::new(found.len(), |i: int| found[i].record)
}

fn crs_of_kind(records: &[OutputCrsRecord], is_extended: bool) -> (r: Vec<Vlr>)
    ensures
        las_out::record_models(r@) == crs_kind(crs_models(records@), is_extended),
{
    let mut kept: Vec<Vlr> = Vec::new();
    let ghost all = crs_models(records@);
    let ghost f = |record: CrsModel| record.is_extended == is_extended;
    let mut i: usize = 0;
    proof {
        seqs::lemma_filter_empty(f);
        assert(all.subrange(0, 0) =~= Seq::empty());
        assert(las_out::record_models(kept@) =~= crs_kind(all.subrange(0, 0), is_extended));
    }
    while i < records.len()
        invariant
            i <= records@.len(),
            all == crs_models(records@),
            f == (|record: CrsModel| record.is_extended == is_extended),
            las_out::record_models(kept@) == crs_kind(all.subrange(0, i as int), is_extended),
        decreases records@.len() - i,
    {
        let ghost before = kept@;
        proof {
            assert(all.subrange(0, i + 1) =~= all.subrange(0, i as int).push(all[i as int]));
            seqs::lemma_filter_push(all.subrange(0, i as int), all[i as int], f);
        }
        if records[i].is_extended == is_extended {
            kept.push(records[i].vlr.clone());
            proof {
                assert(las_out::record_models(kept@) =~= las_out::record_models(before).push(
                    all[i as int].record,
                ));
                assert(las_out::record_models(kept@) =~= crs_kind(
                    all.subrange(0, i + 1),
                    is_extended,
                ));
            }
        }
        i = i + 1;
    }
    proof {
        assert(all.subrange(0, records@.len() as int) =~= all);
    }
    kept
}

/// The number of bytes of the first `n` records of the coordinate system as VLRs.
pub open spec fn crs_size(records: Seq<RecordModel>, n: int) -> Result<u32>
    decreases n,
{
    if n <= 0 {
        Ok(0)
    } else {
        match crs_size(records, n - 1) {
            Err(error) => Err(error),
            Ok(total) => {
                let len = records[n - 1].data.len();
                if len > u16::MAX {
                    Err(Error::InvalidInput(Fault::CrsVlrTooLarge { len: len as usize }))
                } else if total + 54 + len > u32::MAX {
                    Err(Error::InvalidInput(Fault::CrsVlrBytesOverflow))
                } else {
                    Ok((total + 54 + len) as u32)
                }
            },
        }
    }
}

proof fn lemma_crs_size_error(records: Seq<RecordModel>, n: int, m: int)
    requires
        0 <= n <= m,
        crs_size(records, n) is Err,
    ensures
        crs_size(records, m) == crs_size(records, n),
    decreases m,
{
    if n < m {
        lemma_crs_size_error(records, n, m - 1);
    }
}

/// The size that is told of the coordinate system's records is the size of their bytes.
pub proof fn law_crs_size(records: Seq<RecordModel>, n: int)
    requires
        0 <= n <= records.len(),
        crs_size(records, n) is Ok,
    ensures
        las_out::vlrs_bytes(records, n).len() == crs_size(records, n)->Ok_0,
        forall|i: int| 0 <= i < n ==> (#[trigger] records[i]).data.len() <= u16::MAX,
    decreases n,
{
    broadcast use bytes::lemma_le_bytes_len;

    if n > 0 {
        law_crs_size(records, n - 1);
    }
}

impl OutputLasMetadata {
    /// Sets the WKT bit that point formats 6 and up need, and backs it with an empty record
    /// where there is no coordinate system.
    pub fn ensure_wkt_conformance(&mut self)
        ensures
            final(self).global_encoding == with_wkt_bit(old(self).global_encoding),
            crs_models(final(self).crs_records@) == conforming(crs_models(old(self).crs_records@)),
            final(self).file_source_id == old(self).file_source_id,
            final(self).guid == old(self).guid,
            final(self).system_identifier == old(self).system_identifier,
            final(self).generating_software == old(self).generating_software,
            final(self).creation_day_of_year == old(self).creation_day_of_year,
            final(self).creation_year == old(self).creation_year,
            final(self).scale == old(self).scale,
            final(self).offset == old(self).offset,
            final(self).pass_through_vlrs == old(self).pass_through_vlrs,
            final(self).pass_through_evlrs == old(self).pass_through_evlrs,
    {
        if self.global_encoding / WKT_GLOBAL_ENCODING_BIT % 2 == 0 {
            self.global_encoding = self.global_encoding + WKT_GLOBAL_ENCODING_BIT;
        }
        if self.crs_records.len() == 0 {
            self.crs_records.push(wkt_crs_record(""));
            proof {
                assert(crs_models(self.crs_records@) =~= seq![wkt_record(""@)]);
            }
        }
    }

    /// The coordinate system's regular records.
    pub open spec fn regular_crs(&self) -> Seq<RecordModel> {
        crs_kind(crs_models(self.crs_records@), false)
    }

    /// The extended records behind the hierarchy: those of the coordinate system, then those
    /// that are passed through.
    pub open spec fn evlrs(&self) -> Seq<RecordModel> {
        crs_kind(crs_models(self.crs_records@), true) + las_out::record_models(
            self.pass_through_evlrs@,
        )
    }

    pub fn regular_crs_vlrs(&self) -> (r: Vec<Vlr>)
        ensures
            las_out::record_models(r@) == self.regular_crs(),
    {
        crs_of_kind(self.crs_records.as_slice(), false)
    }

    pub fn extended_crs_evlrs(&self) -> (r: Vec<Vlr>)
        ensures
            las_out::record_models(r@) == crs_kind(crs_models(self.crs_records@), true),
    {
        crs_of_kind(self.crs_records.as_slice(), true)
    }

    pub fn regular_crs_vlr_count(&self) -> (r: usize)
        ensures
            r == self.regular_crs().len(),
    {
        let records = self.regular_crs_vlrs();
        let count: usize = records.len();
        proof {
            assert(las_out::record_models(records@).len() == count);
        }
        count
    }

    /// The number of bytes of the coordinate system's regular records.
    pub fn regular_crs_vlr_bytes(&self) -> (r: Result<u32>)
        ensures
            r == crs_size(self.regular_crs(), self.regular_crs().len() as int),
    {
        let vlrs = self.regular_crs_vlrs();
        let ghost records = self.regular_crs();
        let count: usize = vlrs.len();
        let mut total: u32 = 0;
        let mut i: usize = 0;
        proof {
            assert(las_out::record_models(vlrs@).len() == count);
        }
        while i < count
            invariant
                i <= count,
                count == vlrs@.len(),
                count == records.len(),
                records == self.regular_crs(),
                records == las_out::record_models(vlrs@),
                crs_size(records, i as int) == Ok::<u32, Error>(total),
            decreases count - i,
        {
            proof {
                assert(records[i as int] == vlrs@[i as int]@);
                if crs_size(records, i + 1) is Err {
                    lemma_crs_size_error(records, i + 1, count as int);
                }
            }
            let len: usize = vlrs[i].data.len();
            if len > u16::MAX as usize {
                return Err(Error::InvalidInput(Fault::CrsVlrTooLarge { len }));
            }
            match total.checked_add(LAS_VLR_HEADER_BYTES + len as u32) {
                None => {
                    return Err(Error::InvalidInput(Fault::CrsVlrBytesOverflow));
                },
                Some(sum) => {
                    total = sum;
                },
            }
            i = i + 1;
        }
        Ok(total)
    }

    /// The extended records behind the hierarchy.
    pub fn source_evlrs_after_hierarchy(&self) -> (r: Vec<Vlr>)
        ensures
            las_out::record_models(r@) == self.evlrs(),
    {
        let mut out = self.extended_crs_evlrs();
        let ghost first = las_out::record_models(out@);
        let ghost rest = las_out::record_models(self.pass_through_evlrs@);
        let mut i: usize = 0;
        proof {
            assert(first + rest.subrange(0, 0) =~= first);
        }
        while i < self.pass_through_evlrs.len()
            invariant
                i <= self.pass_through_evlrs@.len(),
                rest == las_out::record_models(self.pass_through_evlrs@),
                las_out::record_models(out@) == first + rest.subrange(0, i as int),
            decreases self.pass_through_evlrs@.len() - i,
        {
            let ghost before = out@;
            out.push(self.pass_through_evlrs[i].clone());
            proof {
                assert(las_out::record_models(out@) =~= las_out::record_models(before).push(
                    rest[i as int],
                ));
                assert(las_out::record_models(out@) =~= first + rest.subrange(0, i + 1));
            }
            i = i + 1;
        }
        proof {
            assert(rest.subrange(0, rest.len() as int) =~= rest);
        }
        out
    }
}

/// What a caller says of the file to be written.
///
/// Where nothing is said, the file gets the current date, the library's own identifiers,
/// millimeters as scale, the low corner of the bounds as offset, and an empty coordinate
/// system.
#[derive(Debug)]
#[non_exhaustive]
pub struct CopcWriteMetadata {
    /// The coordinate system in WKT.
    pub wkt_crs: Option<String>,
    pub file_source_id: u16,
    pub guid: [u8; 16],
    pub system_identifier: Option<String>,
    pub generating_software: Option<String>,
    /// The day of the year, and the year.
    pub creation_date: Option<(u16, u16)>,
    /// Whether GPS times are standard times rather than times of the week.
    pub gps_standard_time: bool,
    pub scale: Option<(F64, F64, F64)>,
    pub offset: Option<(F64, F64, F64)>,
}

impl Default for CopcWriteMetadata {
    fn default() -> (r: CopcWriteMetadata)
        ensures
            r.wkt_crs is None,
            r.file_source_id == 0,
            r.guid@ == bytes::zeros(16),
            r.system_identifier is None,
            r.generating_software is None,
            r.creation_date is None,
            !r.gps_standard_time,
            r.scale is None,
            r.offset is None,
    {
        let guid: [u8; 16] = [0u8;16];
        proof {
            assert(guid@ =~= bytes::zeros(16));
        }
        CopcWriteMetadata {
            wkt_crs: None,
            file_source_id: 0,
            guid,
            system_identifier: None,
            generating_software: None,
            creation_date: None,
            gps_standard_time: false,
            scale: None,
            offset: None,
        }
    }
}

/// The text, or the default.
pub open spec fn text_or(text: Option<String>, other: Seq<char>) -> Seq<char> {
    match text {
        Some(text) => text@,
        None => other,
    }
}

pub open spec fn string_text(text: Option<String>) -> Option<Seq<char>> {
    match text {
        Some(text) => Some(text@),
        None => None,
    }
}

/// The coordinate system's records for a text that may be missing.
pub open spec fn crs_for(wkt: Option<Seq<char>>) -> Seq<CrsModel> {
    match normalized(wkt) {
        Some(wkt) => seq![wkt_record(wkt)],
        None => Seq::empty(),
    }
}

impl CopcWriteMetadata {
    /// The output's metadata, where `today` is the day of the year and the year.
    pub fn to_output(&self, today: (u16, u16)) -> (r: OutputLasMetadata)
        ensures
            r.file_source_id == self.file_source_id,
            r.guid == self.guid,
            r.global_encoding == (if self.gps_standard_time {
                17u16
            } else {
                16u16
            }),
            r.system_identifier@ == text_or(self.system_identifier, "copc-rust"@),
            r.generating_software@ == text_or(self.generating_software, "copc-writer"@),
            (r.creation_day_of_year, r.creation_year) == (match self.creation_date {
                Some(date) => date,
                None => today,
            }),
            r.scale == (match self.scale {
                Some(scale) => scale,
                None => (
                    F64 { bits: MILLIMETER_BITS },
                    F64 { bits: MILLIMETER_BITS },
                    F64 { bits: MILLIMETER_BITS },
                ),
            }),
            r.offset == self.offset,
            crs_models(r.crs_records@) == conforming(crs_for(string_text(self.wkt_crs))),
            r.pass_through_vlrs@.len() == 0,
            r.pass_through_evlrs@.len() == 0,
    {
        let mut out = OutputLasMetadata::default();
        out.file_source_id = self.file_source_id;
        out.guid = self.guid;
        if self.gps_standard_time {
            out.global_encoding = 1;
        }
        match &self.system_identifier {
            Some(text) => {
                out.system_identifier = text.clone();
            },
            None => {},
        }
        match &self.generating_software {
            Some(text) => {
                out.generating_software = text.clone();
            },
            None => {},
        }
        let date = match self.creation_date {
            Some(date) => date,
            None => today,
        };
        out.creation_day_of_year = date.0;
        out.creation_year = date.1;
        match self.scale {
            Some(scale) => {
                out.scale = scale;
            },
            None => {},
        }
        out.offset = self.offset;
        let asked = match &self.wkt_crs {
            Some(text) => normalized_crs_wkt_override(Some(text.as_str())),
            None => None,
        };
        match asked {
            Some(wkt) => {
                out.crs_records.push(wkt_crs_record(wkt));
            },
            None => {},
        }
        proof {
            assert(crs_models(out.crs_records@) =~= crs_for(string_text(self.wkt_crs)));
        }
        out.ensure_wkt_conformance();
        out
    }
}

/// What is taken over of the header of a source file.
#[derive(Debug)]
pub struct SourceHeader {
    pub gps_standard_time: bool,
    pub synthetic_return_numbers: bool,
    pub file_source_id: u16,
    pub guid: [u8; 16],
    pub system_identifier: String,
    pub generating_software: String,
    /// The day of the year, and the year.
    pub date: Option<(u16, u16)>,
    pub scale: (F64, F64, F64),
    pub offset: (F64, F64, F64),
    pub vlrs: Vec<Vlr>,
}

/// The coordinate system's records that are taken from a source: its own WKT records, else,
/// where it has GeoTIFF keys, the one that the caller gives in their place.
pub open spec fn source_crs(
    vlrs: Seq<RecordModel>,
    evlrs: Seq<RecordModel>,
    wkt: Option<Seq<char>>,
) -> Seq<CrsModel> {
    let found = wkt_among(vlrs, false) + wkt_among(evlrs, true);
    if found.len() > 0 {
        found
    } else if any_geotiff(vlrs) || any_geotiff(evlrs) {
        crs_for(wkt)
    } else {
        Seq::empty()
    }
}

/// The global encoding for a source.
pub open spec fn source_encoding(gps_standard_time: bool, synthetic: bool) -> u16 {
    let time: int = if gps_standard_time {
        1
    } else {
        0
    };
    let returned: int = if synthetic {
        8
    } else {
        0
    };
    (16 + time + returned) as u16
}

impl OutputLasMetadata {
    /// The metadata of a source file, for its points in COPC form. `today` is for sources
    /// that have no date.
    pub fn from_las_header(
        header: &SourceHeader,
        source_evlrs: &[Vlr],
        crs_wkt_override: Option<&str>,
        today: (u16, u16),
    ) -> (r: OutputLasMetadata)
        ensures
            r.file_source_id == header.file_source_id,
            r.global_encoding == source_encoding(
                header.gps_standard_time,
                header.synthetic_return_numbers,
            ),
            r.guid == header.guid,
            r.system_identifier@ == header.system_identifier@,
            r.generating_software@ == header.generating_software@,
            (r.creation_day_of_year, r.creation_year) == (match header.date {
                Some(date) => date,
                None => today,
            }),
            r.scale == header.scale,
            r.offset == Some(header.offset),
            crs_models(r.crs_records@) == conforming(
                source_crs(
                    las_out::record_models(header.vlrs@),
                    las_out::record_models(source_evlrs@),
                    text_of(crs_wkt_override),
                ),
            ),
            las_out::record_models(r.pass_through_vlrs@) == las_out::record_models(
                header.vlrs@,
            ).filter(|record: RecordModel| passes_vlr(record)),
            las_out::record_models(r.pass_through_evlrs@) == las_out::record_models(
                source_evlrs@,
            ).filter(|record: RecordModel| passes_evlr(record)),
    {
        let mut global_encoding: u16 = 0;
        if header.gps_standard_time {
            global_encoding = 1;
        }
        if header.synthetic_return_numbers {
            global_encoding = global_encoding + 8;
        }
        let vlrs = header.vlrs.as_slice();
        let mut crs_records: Vec<OutputCrsRecord> = Vec::new();
        let ghost none = crs_models(crs_records@);
        push_wkt_records(&mut crs_records, vlrs, false);
        push_wkt_records(&mut crs_records, source_evlrs, true);
        let ghost found = wkt_among(las_out::record_models(header.vlrs@), false) + wkt_among(
            las_out::record_models(source_evlrs@),
            true,
        );
        proof {
            assert(none =~= Seq::empty());
            assert(crs_models(crs_records@) =~= found);
            assert(crs_records@.len() == crs_models(crs_records@).len());
        }
        if crs_records.len() == 0 && has_geotiff_crs_record(vlrs, source_evlrs) {
            match normalized_crs_wkt_override(crs_wkt_override) {
                Some(wkt) => {
                    crs_records.push(wkt_crs_record(wkt));
                },
                None => {},
            }
        }
        proof {
            assert(crs_models(crs_records@) =~= source_crs(
                las_out::record_models(header.vlrs@),
                las_out::record_models(source_evlrs@),
                text_of(crs_wkt_override),
            ));
        }
        let date = match header.date {
            Some(date) => date,
            None => today,
        };
        let mut metadata = OutputLasMetadata {
            file_source_id: header.file_source_id,
            global_encoding,
            guid: header.guid,
            system_identifier: header.system_identifier.clone(),
            generating_software: header.generating_software.clone(),
            creation_day_of_year: date.0,
            creation_year: date.1,
            scale: header.scale,
            offset: Some(header.offset),
            crs_records,
            pass_through_vlrs: extract_pass_through_vlrs(vlrs),
            pass_through_evlrs: extract_pass_through_evlrs(source_evlrs),
        };
        metadata.ensure_wkt_conformance();
        metadata
    }
}

/// Output that is made of a source always says that its coordinate system is in WKT, has a
/// record of it, and sets no bit that is reserved.
pub proof fn law_output_conforms(
    vlrs: Seq<RecordModel>,
    evlrs: Seq<RecordModel>,
    wkt: Option<Seq<char>>,
    gps_standard_time: bool,
    synthetic: bool,
)
    ensures
        conforming(source_crs(vlrs, evlrs, wkt)).len() > 0,
        source_encoding(gps_standard_time, synthetic) as int / 16 % 2 == 1,
        source_encoding(gps_standard_time, synthetic) < 32,
{
}

/// The records of coordinate systems and of extra bytes have the users and numbers of LAS.
pub proof fn law_record_kinds(record: RecordModel)
    ensures
        is_wkt(record) <==> record.user == vstd::utf8::encode_utf8("LASF_Projection"@)
            && record.record_id == 2112,
        is_geotiff(record) <==> record.user == vstd::utf8::encode_utf8("LASF_Projection"@)
            && 34735 <= record.record_id <= 34737,
        is_extra_bytes(record) <==> record.user == vstd::utf8::encode_utf8("LASF_Spec"@)
            && record.record_id == 4,
{
}

/// A record is passed through just where the output has none of its own in its place.
pub proof fn law_passed_records(record: RecordModel)
    ensures
        !passes_evlr(record) <==> {
            ||| vlr::is_laszip(record.user, record.record_id)
            ||| vlr::is_info(record.user, record.record_id)
            ||| vlr::is_hierarchy(record.user, record.record_id)
            ||| is_wkt(record)
            ||| is_geotiff(record)
        },
        !passes_vlr(record) <==> !passes_evlr(record) || is_extra_bytes(record),
{
}

/// The records of coordinate systems among records are those with WKT, each as it is.
pub proof fn law_wkt_among(records: Seq<RecordModel>, is_extended: bool, found: CrsModel)
    ensures
        wkt_among(records, is_extended).contains(found) <==> found.is_extended == is_extended
            && is_wkt(found.record) && records.contains(found.record),
{
    let f = |record: RecordModel| is_wkt(record);
    let kept = records.filter(f);
    let all = wkt_among(records, is_extended);
    seqs::lemma_filter_contains(records, f);
    assert(all.len() == kept.len());
    if all.contains(found) {
        let i = choose|i: int| 0 <= i < all.len() && all[i] == found;
        assert(kept[i] == found.record);
        assert(kept.contains(found.record));
    }
    if found.is_extended == is_extended && kept.contains(found.record) {
        let i = choose|i: int| 0 <= i < kept.len() && kept[i] == found.record;
        assert(all[i] == found);
    }
}

/// The coordinate system of a source is taken over where it is one in WKT; one in GeoTIFF keys
/// gives way to the text of the caller, where that is not blank; and without either there is
/// none.
pub proof fn law_source_crs(
    vlrs: Seq<RecordModel>,
    evlrs: Seq<RecordModel>,
    wkt: Option<Seq<char>>,
    found: CrsModel,
)
    ensures
        any_wkt(vlrs) || any_wkt(evlrs) ==> (source_crs(vlrs, evlrs, wkt).contains(found)
            <==> is_wkt(found.record) && if found.is_extended {
            evlrs.contains(found.record)
        } else {
            vlrs.contains(found.record)
        }),
        !any_wkt(vlrs) && !any_wkt(evlrs) ==> (source_crs(vlrs, evlrs, wkt).contains(found) <==> {
            &&& any_geotiff(vlrs) || any_geotiff(evlrs)
            &&& wkt is Some && !blank(wkt->Some_0)
            &&& found == wkt_record(wkt->Some_0)
        }),
{
    let all = source_crs(vlrs, evlrs, wkt);
    let a = wkt_among(vlrs, false);
    let b = wkt_among(evlrs, true);
    law_wkt_among(vlrs, false, found);
    law_wkt_among(evlrs, true, found);
    if any_wkt(vlrs) {
        let i = choose|i: int| 0 <= i < vlrs.len() && is_wkt(#[trigger] vlrs[i]);
        let first = CrsModel { record: vlrs[i], is_extended: false };
        law_wkt_among(vlrs, false, first);
        assert(vlrs.contains(vlrs[i]));
        assert(a.len() > 0);
    } else if any_wkt(evlrs) {
        let i = choose|i: int| 0 <= i < evlrs.len() && is_wkt(#[trigger] evlrs[i]);
        let first = CrsModel { record: evlrs[i], is_extended: true };
        law_wkt_among(evlrs, true, first);
        assert(evlrs.contains(evlrs[i]));
        assert(b.len() > 0);
    }
    if any_wkt(vlrs) || any_wkt(evlrs) {
        assert(all == a + b);
        if all.contains(found) {
            let i = choose|i: int| 0 <= i < all.len() && all[i] == found;
            if i < a.len() {
                assert(a[i] == found);
                assert(a.contains(found));
            } else {
                assert(b[i - a.len()] == found);
                assert(b.contains(found));
            }
        }
        if a.contains(found) {
            let i = choose|i: int| 0 <= i < a.len() && a[i] == found;
            assert(all[i] == found);
        }
        if b.contains(found) {
            let i = choose|i: int| 0 <= i < b.len() && b[i] == found;
            assert(all[a.len() + i] == found);
        }
    } else {
        if a.len() > 0 {
            law_wkt_among(vlrs, false, a[0]);
            assert(a.contains(a[0]));
            let i = choose|i: int| 0 <= i < vlrs.len() && vlrs[i] == a[0].record;
            assert(is_wkt(vlrs[i]));
        }
        if b.len() > 0 {
            law_wkt_among(evlrs, true, b[0]);
            assert(b.contains(b[0]));
            let i = choose|i: int| 0 <= i < evlrs.len() && evlrs[i] == b[0].record;
            assert(is_wkt(evlrs[i]));
        }
        if (any_geotiff(vlrs) || any_geotiff(evlrs)) && wkt is Some && !blank(wkt->Some_0) {
            assert(all == seq![wkt_record(wkt->Some_0)]);
            assert(all[0] == wkt_record(wkt->Some_0));
        } else {
            assert(all.len() == 0);
        }
    }
}

/// The data of a WKT record are the text in UTF-8, with one zero behind it: none is added where
/// it ends with one.
pub proof fn law_wkt_record(wkt: Seq<char>)
    ensures
        ({
            let text = vstd::utf8::encode_utf8(wkt);
            let data = wkt_record(wkt).record.data;
            &&& is_wkt(wkt_record(wkt).record)
            &&& !wkt_record(wkt).is_extended
            &&& text.is_prefix_of(data)
            &&& data.last() == 0
            &&& data.len() == text.len() || data.len() == text.len() + 1
            &&& text.len() > 0 && text.last() == 0 ==> data == text
        }),
{
}

/// Setting the WKT bit changes no other bit, and setting it twice does no more than once.
pub proof fn law_wkt_bit(encoding: u16)
    ensures
        with_wkt_bit(encoding) / 16 % 2 == 1,
        with_wkt_bit(encoding) % 16 == encoding % 16,
        with_wkt_bit(encoding) / 32 == encoding / 32,
        with_wkt_bit(with_wkt_bit(encoding)) == with_wkt_bit(encoding),
{
}

/// The output has the coordinate system that it is given; only where there is none, an empty one
/// takes its place.
pub proof fn law_conforming(records: Seq<CrsModel>)
    ensures
        records.len() > 0 ==> conforming(records) == records,
        records.len() == 0 ==> conforming(records).len() == 1 && is_wkt(
            conforming(records)[0].record,
        ) && !conforming(records)[0].is_extended,
{
}

/// The bits of the encoding tell of the times, of synthetic returns, and of WKT; no other is set.
pub proof fn law_source_encoding(gps_standard_time: bool, synthetic: bool)
    ensures
        source_encoding(gps_standard_time, synthetic) as int == 16 + (if gps_standard_time {
            1int
        } else {
            0
        }) + (if synthetic {
            8int
        } else {
            0
        }),
{
}

/// The records of one kind are all those of the kind.
pub proof fn law_crs_kind(records: Seq<CrsModel>, is_extended: bool, record: RecordModel)
    ensures
        crs_kind(records, is_extended).contains(record) <==> records.contains(
            CrsModel { record, is_extended },
        ),
{
    let f = |record: CrsModel| record.is_extended == is_extended;
    let kept = records.filter(f);
    let all = crs_kind(records, is_extended);
    let own = CrsModel { record, is_extended };
    seqs::lemma_filter_contains(records, f);
    assert(all.len() == kept.len());
    if all.contains(record) {
        let i = choose|i: int| 0 <= i < all.len() && all[i] == record;
        assert(kept.contains(kept[i]));
        assert(kept[i] == own);
    }
    if kept.contains(own) {
        let i = choose|i: int| 0 <= i < kept.len() && kept[i] == own;
        assert(all[i] == record);
    }
}

/// Of the characters of ASCII, the space and those from the tab to the carriage return are
/// white, and a text is blank just where all its characters are.
pub proof fn law_blank(text: Seq<char>, c: char)
    ensures
        (c as u32) < 0x80 ==> (white(c) <==> c as u32 == 0x20 || 0x09 <= c as u32 <= 0x0D),
        blank(Seq::empty()),
        blank(text.push(c)) <==> blank(text) && white(c),
        normalized(Some(text)) == if blank(text) {
            None
        } else {
            Some(text)
        },
        normalized(None) is None,
{
    if blank(text.push(c)) {
        assert forall|i: int| 0 <= i < text.len() implies white(#[trigger] text[i]) by {
            assert(text.push(c)[i] == text[i]);
        }
        assert(white(text.push(c)[text.len() as int]));
    }
}

/// The bytes of the records of a coordinate system are refused just where one of them is too
/// long for its header, or all together are too long.
pub proof fn law_refused_crs(records: Seq<RecordModel>, n: int)
    requires
        0 <= n <= records.len(),
    ensures
        crs_size(records, n) is Ok <==> las_out::vlrs_size(records, n) is Ok,
        crs_size(records, n) is Ok ==> crs_size(records, n)->Ok_0 == las_out::vlrs_size(
            records,
            n,
        )->Ok_0,
    decreases n,
{
    if n > 0 {
        law_refused_crs(records, n - 1);
    }
}

/// A text that is given is taken as it is; the default stands in only for one that is missing.
pub proof fn law_given_texts(text: String, other: Seq<char>)
    ensures
        text_or(Some(text), other) == text@,
        text_or(None, other) == other,
        string_text(Some(text)) == Some(text@),
        string_text(None) is None,
{
}

/// A coordinate system is written for a text just where it is there and not blank.
pub proof fn law_crs_for(wkt: Option<Seq<char>>)
    ensures
        wkt is Some && !blank(wkt->Some_0) ==> crs_for(wkt) == seq![wkt_record(wkt->Some_0)],
        wkt is None || blank(wkt->Some_0) ==> crs_for(wkt).len() == 0,
{
}

/// The coordinate systems of two lists are those of the one and then those of the other, each as
/// often as it is there.
pub proof fn law_wkt_joined(a: Seq<RecordModel>, b: Seq<RecordModel>, is_extended: bool)
    ensures
        wkt_among(a + b, is_extended) == wkt_among(a, is_extended) + wkt_among(b, is_extended),
        a.len() == 1 && is_wkt(a[0]) ==> wkt_among(a, is_extended) == seq![
            CrsModel { record: a[0], is_extended },
        ],
{
    let f = |record: RecordModel| is_wkt(record);
    Seq::filter_distributes_over_add(a, b, f);
    assert(wkt_among(a + b, is_extended) =~= wkt_among(a, is_extended) + wkt_among(
        b,
        is_extended,
    ));
    if a.len() == 1 {
        seqs::lemma_filter_empty(f);
        seqs::lemma_filter_push(Seq::empty(), a[0], f);
        assert(a =~= Seq::empty().push(a[0]));
        if is_wkt(a[0]) {
            assert(a.filter(f) =~= seq![a[0]]);
            assert(wkt_among(a, is_extended) =~= seq![CrsModel { record: a[0], is_extended }]);
        }
    }
}

/// The records of one kind of two lists are those of the one and then those of the other.
pub proof fn law_crs_kind_joined(a: Seq<CrsModel>, b: Seq<CrsModel>, is_extended: bool)
    ensures
        crs_kind(a + b, is_extended) == crs_kind(a, is_extended) + crs_kind(b, is_extended),
        a.len() == 1 && a[0].is_extended == is_extended ==> crs_kind(a, is_extended) == seq![
            a[0].record,
        ],
{
    let f = |record: CrsModel| record.is_extended == is_extended;
    Seq::filter_distributes_over_add(a, b, f);
    assert(crs_kind(a + b, is_extended) =~= crs_kind(a, is_extended) + crs_kind(b, is_extended));
    if a.len() == 1 {
        seqs::lemma_filter_empty(f);
        seqs::lemma_filter_push(Seq::empty(), a[0], f);
        assert(a =~= Seq::empty().push(a[0]));
        if a[0].is_extended == is_extended {
            assert(a.filter(f) =~= seq![a[0]]);
            assert(crs_kind(a, is_extended) =~= seq![a[0].record]);
        }
    }
}

/// The records that describe extra bytes are all those of their kind.
pub proof fn law_descriptors(records: Seq<RecordModel>, record: RecordModel)
    ensures
        records.filter(extra_bytes_chooser()).contains(record) <==> records.contains(record)
            && record.user == vstd::utf8::encode_utf8("LASF_Spec"@) && record.record_id == 4,
{
    seqs::lemma_filter_contains(records, extra_bytes_chooser());
}

/// Behind ASCII, white are the next line, the spaces of all widths, and the separators of lines
/// and paragraphs.
pub proof fn law_white(c: char)
    requires
        c as u32 >= 0x80,
    ensures
        white(c) <==> {
            let n = c as u32;
            ||| n == 0x85
            ||| n == 0xA0 || n == 0x1680 || n == 0x202F || n == 0x205F || n == 0x3000
            ||| 0x2000 <= n < 0x200B
            ||| 0x2028 <= n < 0x202A
        },
{
}

/// A WKT record is told as one.
pub proof fn law_wkt_record_text(wkt: Seq<char>)
    ensures
        wkt_record(wkt).record.about == vstd::utf8::encode_utf8("OGC WKT CRS"@),
        wkt_record(wkt).record.user == vstd::utf8::encode_utf8("LASF_Projection"@),
{
}

/// The model of a coordinate system's record has the record and its kind; records keep their
/// places.
pub proof fn law_model_of_a_crs(records: Seq<OutputCrsRecord>, i: int)
    requires
        0 <= i < records.len(),
    ensures
        crs_models(records).len() == records.len(),
        crs_models(records)[i].record == records[i].vlr@,
        crs_models(records)[i].is_extended == records[i].is_extended,
{
}

} // verus!
