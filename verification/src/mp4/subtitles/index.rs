//! The index of a file's subtitle tracks.

use std::collections::HashSet;

use vstd::prelude::*;

use crate::bytes::{bytes_equal, fourcc, read_u32_be};
use crate::errors::{other_error, MediaParserError};
use crate::mp4::bounded_tables::{
    parse_chunk_offsets_bounded, parse_sample_sizes_bounded, parse_stsc_bounded,
    parse_stsd_entries_bounded, retained_code, SampleDescriptionEntry, SampleTimingTable,
};
use crate::mp4::boxes::{find_box, iter_boxes, nav};
use crate::mp4::chunks::validate_sample_tables;
use crate::mp4::headers::{
    parse_hdlr, parse_mdhd, parse_moov_payload, track_presentation_offset, MediaHeader,
};
use crate::mp4::retained::{RetainedBudget, TableParseError};
use crate::mp4::samples::{listed_size_count, SampleSizes, StscEntry};
use crate::mp4::subtitles::budget::{IndexBudget, IndexSampleChargeError};
use crate::mp4::subtitles::chapters::{disabled_chapter_track_ids, read_track_header};
use crate::mp4::subtitles::output::is_subtitle;
use crate::mp4::subtitles::text::supported_codec;
use crate::mp4::timing::stts_sample_count;
use crate::strings::text_equal;

verus! {

broadcast use vstd::std_specs::hash::group_hash_axioms;

/// The most tracks that a file may have.
pub const MAX_TRAKS: usize = 1000;

/// The most samples that all subtitle tracks together may have.
pub const MAX_INDEXED_SUBTITLE_SAMPLES: usize = 200_000;

/// The most bytes that an index may take up.
pub const MAX_RETAINED_INDEX_BYTES: usize = 33_554_432;

/// A subtitle track with its sample tables.
#[derive(Debug)]
pub struct IndexedTrack {
    pub id: u32,
    pub descriptions: Vec<SampleDescriptionEntry>,
    /// The description that names the coding of all samples.
    pub codec_description_index: usize,
    pub language: Option<String>,
    pub timescale: u32,
    pub duration: u64,
    pub handler: [u8; 4],
    pub presentation_offset: i64,
    pub timing: SampleTimingTable,
    pub sizes: SampleSizes,
    pub stsc: Vec<StscEntry>,
    pub chunk_offsets: Vec<u64>,
}

/// A subtitle track, or why it is unusable.
#[derive(Debug)]
pub enum IndexedTrackState {
    Ready(IndexedTrack),
    Rejected { id: u32, reason: &'static str },
}

/// The subtitle tracks of a file, in its order.
#[derive(Debug)]
pub struct SubtitleIndex {
    pub tracks: Vec<IndexedTrackState>,
}

/// What an index took of its limits.
#[derive(Debug, Clone, Copy)]
pub struct IndexUsage {
    pub samples: usize,
    pub retained_bytes: usize,
}

/// Why a track is not in the index as a subtitle track.
#[derive(Debug)]
pub enum TrackReject {
    /// It is no subtitle track, and nothing is wrong with it.
    Skip,
    /// It is a subtitle track that cannot be used.
    Reason(&'static str),
    /// No track can be indexed.
    Fatal(MediaParserError),
}

// ---------------------------------------------------------------------------
// Model
// ---------------------------------------------------------------------------

/// A subtitle track as its boxes describe it.
pub struct TrackView {
    pub id: u32,
    pub codecs: Seq<Seq<char>>,
    pub codec_index: int,
    pub language: Option<Seq<char>>,
    pub timescale: u32,
    pub duration: u64,
    pub handler: Seq<u8>,
    pub presentation_offset: int,
    pub runs: Seq<(u32, int)>,
    pub sizes: (u32, Seq<u32>, u32),
    pub stsc: Seq<StscEntry>,
    pub chunk_offsets: Seq<u64>,
}

/// What becomes of a track.
pub enum TrackClass {
    Skip,
    Rejected(Seq<char>),
    Ready(TrackView),
}

pub enum StateView {
    Ready(TrackView),
    Rejected(u32, Seq<char>),
}

impl View for IndexedTrack {
    type V = TrackView;

    open spec fn view(&self) -> TrackView {
        TrackView {
            id: self.id,
            codecs: crate::mp4::bounded_tables::codec_views(self.descriptions@),
            codec_index: self.codec_description_index as int,
            language: match self.language {
                Some(language) => Some(language@),
                None => None,
            },
            timescale: self.timescale,
            duration: self.duration,
            handler: self.handler@,
            presentation_offset: self.presentation_offset as int,
            runs: self.timing@,
            sizes: (self.sizes.fixed_size, self.sizes.sizes@, self.sizes.sample_count),
            stsc: self.stsc@,
            chunk_offsets: self.chunk_offsets@,
        }
    }
}

impl View for IndexedTrackState {
    type V = StateView;

    open spec fn view(&self) -> StateView {
        match *self {
            IndexedTrackState::Ready(track) => StateView::Ready(track@),
            IndexedTrackState::Rejected { id, reason } => StateView::Rejected(id, reason@),
        }
    }
}

pub open spec fn state_views(states: Seq<IndexedTrackState>) -> Seq<StateView> {
    Seq::new(states.len(), |i: int| states[i]@)
}

impl TrackView {
    /// Whether the samples have one coding, and it can be decoded.
    pub open spec fn usable(self) -> bool {
        &&& self.usable_tables()
        &&& crate::mp4::subtitles::output::is_subtitle_handler(self.handler)
    }

    pub open spec fn usable_tables(self) -> bool {
        &&& 0 <= self.codec_index < self.codecs.len()
        &&& crate::mp4::subtitles::text::is_supported(self.codecs[self.codec_index])
        &&& crate::mp4::sample_reads::chunks_filled(self.stsc)
    }
}

impl IndexedTrack {
    /// The coding of the samples.
    pub fn codec(&self) -> (result: &str)
        requires
            self@.usable(),
        ensures
            result@ == self@.codecs[self@.codec_index],
    {
        self.descriptions[self.codec_description_index].codec.as_str()
    }
}

impl SubtitleIndex {
    /// Whether every ready track can be used.
    pub open spec fn usable(self) -> bool {
        forall|i: int|
            0 <= i < self.tracks@.len() ==> (#[trigger] self.tracks@[i]@ matches StateView::Ready(
                track,
            ) ==> track.usable())
    }
}

/// The headers of a subtitle track: its handler, its media and its tables.
pub struct HeaderFacts {
    pub handler: Seq<u8>,
    pub media: crate::mp4::headers::MediaHeaderView,
    pub stbl: Seq<u8>,
}

/// The headers of a subtitle track, or what becomes of it without them.
pub open spec fn headers_of(trak: Seq<u8>) -> Result<HeaderFacts, TrackClass> {
    match crate::mp4::boxes::child(trak, crate::bytes::code('m', 'd', 'i', 'a')) {
        None => Err(TrackClass::Rejected("subtitle track missing mdia"@)),
        Some(mdia) => match crate::mp4::thumbnails::handler_of(mdia) {
            None => Err(TrackClass::Rejected("subtitle track has invalid handler"@)),
            Some(handler) => if !crate::mp4::subtitles::output::is_subtitle_handler(handler) {
                Err(TrackClass::Skip)
            } else {
                match crate::mp4::thumbnails::mdhd_of(mdia) {
                    None => Err(TrackClass::Rejected("subtitle track has invalid media header"@)),
                    Some(media) => if media.timescale == 0 {
                        Err(TrackClass::Rejected("subtitle track has zero timescale"@))
                    } else {
                        match crate::mp4::boxes::descend(
                            mdia,
                            crate::mp4::thumbnails::stbl_path(),
                        ) {
                            None => Err(
                                TrackClass::Rejected("subtitle track missing sample table"@),
                            ),
                            Some(stbl) => Ok(HeaderFacts { handler, media, stbl }),
                        }
                    },
                }
            },
        },
    }
}

pub open spec fn stsz_of(stbl: Seq<u8>) -> Option<Seq<u8>> {
    crate::mp4::boxes::child(stbl, crate::bytes::code('s', 't', 's', 'z'))
}

pub open spec fn stts_of(stbl: Seq<u8>) -> Option<Seq<u8>> {
    crate::mp4::boxes::child(stbl, crate::bytes::code('s', 't', 't', 's'))
}

/// The number of samples that a sample table claims to have, or why it makes
/// no claim.
pub open spec fn claim_of(stbl: Seq<u8>) -> Result<u32, TrackClass> {
    match stsz_of(stbl) {
        None => Err(TrackClass::Rejected("subtitle track missing stsz"@)),
        Some(stsz) => match crate::bytes::u32_at(stsz, 8) {
            None => Err(TrackClass::Rejected("subtitle track has malformed stsz"@)),
            Some(count) => Ok(count),
        },
    }
}

/// Whether the sizes and the times of a sample table bear out its claim.
pub open spec fn claim_backed(stbl: Seq<u8>) -> bool {
    match (stsz_of(stbl), stts_of(stbl)) {
        (Some(stsz), Some(stts)) => {
            &&& crate::mp4::samples::sample_size_table(stsz) is Some
            &&& crate::mp4::timing::stts_count(stts) == Some(
                crate::mp4::samples::sample_size_table(stsz).unwrap().2 as int,
            )
        },
        _ => false,
    }
}

/// Whether every run of chunks refers to a description of this coding.
pub open spec fn one_codec(stsc: Seq<StscEntry>, codecs: Seq<Seq<char>>, codec: Seq<char>) -> bool {
    forall|i: int|
        0 <= i < stsc.len() ==> codecs[(#[trigger] stsc[i]).sample_description_index - 1] == codec
}

/// What becomes of a track whose sample tables were parsed.
pub open spec fn class_of_tables(
    id: u32,
    headers: HeaderFacts,
    offset: int,
    codecs: Seq<Seq<char>>,
    stts: Seq<u8>,
    sizes: (u32, Seq<u32>, u32),
    stsc: Seq<StscEntry>,
    chunk_offsets: Seq<u64>,
) -> TrackClass {
    let first = stsc[0].sample_description_index - 1;
    if !crate::mp4::chunks::tables_agree(
        stts,
        None,
        sizes.2 as int,
        stsc,
        chunk_offsets,
        None,
        codecs.len() as int,
    ) {
        TrackClass::Rejected("invalid subtitle sample tables"@)
    } else if !crate::mp4::subtitles::text::is_supported(codecs[first]) {
        TrackClass::Rejected("unsupported referenced subtitle codec"@)
    } else if !one_codec(stsc, codecs, codecs[first]) {
        TrackClass::Rejected("mixed or unsupported referenced subtitle codecs"@)
    } else {
        TrackClass::Ready(
            TrackView {
                id,
                codecs,
                codec_index: first,
                language: match headers.media.language {
                    Some(language) => Some(crate::mp4::bounded_tables::code_text(language)),
                    None => None,
                },
                timescale: headers.media.timescale,
                duration: headers.media.duration,
                handler: headers.handler,
                presentation_offset: offset,
                runs: crate::mp4::timing::stts_runs(stts),
                sizes,
                stsc,
                chunk_offsets,
            },
        )
    }
}

/// What becomes of a track with sound headers, from its sample tables.
pub open spec fn class_of_stbl(id: u32, headers: HeaderFacts, offset: int) -> TrackClass {
    let stbl = headers.stbl;
    match crate::mp4::boxes::child(stbl, crate::bytes::code('s', 't', 's', 'd')) {
        None => TrackClass::Rejected("subtitle track missing stsd"@),
        Some(stsd) => match crate::mp4::bounded_tables::stsd_codecs(stsd) {
            None => TrackClass::Rejected("invalid stsd table"@),
            Some(codecs) => match stts_of(stbl) {
                None => TrackClass::Rejected("subtitle track missing stts"@),
                Some(stts) => if crate::mp4::bounded_tables::timing_runs(stts) is None {
                    TrackClass::Rejected("invalid stts table"@)
                } else {
                    match crate::mp4::samples::sample_size_table(stsz_of(stbl).unwrap()) {
                        None => TrackClass::Rejected("invalid stsz table"@),
                        Some(sizes) => match crate::mp4::boxes::child(
                            stbl,
                            crate::bytes::code('s', 't', 's', 'c'),
                        ) {
                            None => TrackClass::Rejected("subtitle track missing stsc"@),
                            Some(stsc) => match crate::mp4::samples::stsc_table(stsc) {
                                None => TrackClass::Rejected("invalid stsc table"@),
                                Some(entries) => match crate::mp4::samples::chunk_offset_table(
                                    stbl,
                                ) {
                                    None => TrackClass::Rejected("invalid chunk offset table"@),
                                    Some(offsets) => class_of_tables(
                                        id,
                                        headers,
                                        offset,
                                        codecs,
                                        stts,
                                        sizes,
                                        entries,
                                        offsets,
                                    ),
                                },
                            },
                        },
                    }
                },
            },
        },
    }
}

/// What becomes of a track, with the samples it is charged for, behind tracks
/// with `samples` of them; `None` where there are too many.
///
/// A track that claims more samples than all tracks may have, without sizes
/// and times to match, is only unusable itself.
#[verifier::opaque]
pub open spec fn class_of_trak(trak: Seq<u8>, id: u32, samples: int, max_samples: int) -> Option<
    (TrackClass, int),
> {
    match headers_of(trak) {
        Err(class) => Some((class, 0)),
        Ok(headers) => match claim_of(headers.stbl) {
            Err(class) => Some((class, 0)),
            Ok(count) => if count > max_samples && !claim_backed(headers.stbl) {
                Some((TrackClass::Rejected("invalid subtitle sample tables"@), 0))
            } else if samples + count > max_samples {
                None
            } else {
                Some(
                    (
                        class_of_stbl(id, headers, crate::mp4::headers::presentation_offset(trak)),
                        count as int,
                    ),
                )
            },
        },
    }
}

/// The tracks indexed from the first `k` boxes, and the samples they are
/// charged for; `None` where there are too many.
pub open spec fn indexed(
    boxes: Seq<(Seq<u8>, Seq<u8>)>,
    k: int,
    chapters: Set<u32>,
    max_samples: int,
) -> Option<(Seq<StateView>, int)>
    decreases k,
{
    if k <= 0 {
        Some((seq![], 0))
    } else {
        match indexed(boxes, k - 1, chapters, max_samples) {
            None => None,
            Some((tracks, samples)) => match (
                crate::mp4::subtitles::chapters::is_trak(boxes[k - 1]),
                crate::mp4::thumbnails::tkhd_of(boxes[k - 1].1),
            ) {
                (true, Some(header)) => if !header.track_enabled && chapters.contains(header.id) {
                    Some((tracks, samples))
                } else {
                    match class_of_trak(boxes[k - 1].1, header.id, samples, max_samples) {
                        None => None,
                        Some((class, charged)) => Some(
                            (with_class(tracks, header.id, class), samples + charged),
                        ),
                    }
                },
                _ => Some((tracks, samples)),
            },
        }
    }
}

/// The index with one more track.
pub open spec fn with_class(tracks: Seq<StateView>, id: u32, class: TrackClass) -> Seq<StateView> {
    match class {
        TrackClass::Skip => tracks,
        TrackClass::Rejected(reason) => tracks.push(StateView::Rejected(id, reason)),
        TrackClass::Ready(track) => tracks.push(StateView::Ready(track)),
    }
}

/// The least bytes that the tables, the descriptions and the language of a track
/// take up.
pub open spec fn table_bytes(track: TrackView) -> int {
    track.codecs.len() * vstd::layout::size_of::<SampleDescriptionEntry>() + 4
        * track.codecs.len() + track.runs.len() * vstd::layout::size_of::<
        crate::mp4::bounded_tables::SampleTimingEntry,
    >() + track.sizes.1.len() * vstd::layout::size_of::<u32>() + track.stsc.len()
        * vstd::layout::size_of::<StscEntry>() + track.chunk_offsets.len()
        * vstd::layout::size_of::<u64>() + match track.language {
        Some(language) => language.len() as int,
        None => 0,
    }
}

/// The least bytes that the ready tracks among these keep in their tables.
pub open spec fn kept_bytes(tracks: Seq<StateView>) -> int
    decreases tracks.len(),
{
    if tracks.len() == 0 {
        0
    } else {
        kept_bytes(tracks.drop_last()) + match tracks.last() {
            StateView::Ready(track) => table_bytes(track),
            StateView::Rejected(_, _) => 0,
        }
    }
}

/// Whether reading the tables of a track asks for memory: one of them lists
/// something, and none before it is missing or malformed.
pub open spec fn asks_for_tables(stbl: Seq<u8>) -> bool {
    let stsz = crate::mp4::samples::sample_size_table(stsz_of(stbl).unwrap());
    let stsc = crate::mp4::boxes::child(stbl, crate::bytes::code('s', 't', 's', 'c'));
    let offsets = crate::mp4::samples::chunk_offset_table(stbl);
    match crate::mp4::boxes::child(stbl, crate::bytes::code('s', 't', 's', 'd')) {
        None => false,
        Some(stsd) => {
            ||| crate::mp4::bounded_tables::listed(stsd, 8) > 0
            ||| stts_of(stbl) is Some && {
                ||| crate::mp4::bounded_tables::listed(stts_of(stbl).unwrap(), 8) > 0
                ||| stsz is Some && {
                    ||| stsz.unwrap().1.len() > 0
                    ||| stsc is Some && {
                        ||| crate::mp4::bounded_tables::listed(stsc.unwrap(), 12) > 0
                        ||| offsets is Some && offsets.unwrap().len() > 0
                    }
                }
            }
        },
    }
}

/// Whether indexing a track asks for memory for its tables.
pub open spec fn asks_for_room(trak: Seq<u8>) -> bool {
    headers_of(trak) matches Ok(headers) && asks_for_tables(headers.stbl)
}

/// Whether an error says that the budget or the allocator has no more room.
pub open spec fn reports_no_room(error: MediaParserError) -> bool {
    ||| error@ == crate::errors::ErrorView::Other("MP4 subtitle index retained budget exceeded"@)
    ||| error@ == crate::errors::ErrorView::Other("MP4 subtitle index allocation failed"@)
}

// ---------------------------------------------------------------------------
// Building
// ---------------------------------------------------------------------------

/// The error for a table that cannot be retained.
pub fn table_fatal(error: TableParseError) -> (result: MediaParserError)
    ensures
        match error {
            TableParseError::Invalid(reason) => result@ == crate::errors::ErrorView::InvalidFormat(
                reason@,
            ),
            TableParseError::BudgetExceeded => result@ == crate::errors::ErrorView::Other(
                "MP4 subtitle index retained budget exceeded"@,
            ),
            TableParseError::AllocationFailed => result@ == crate::errors::ErrorView::Other(
                "MP4 subtitle index allocation failed"@,
            ),
        },
{
    match error {
        TableParseError::Invalid(reason) => crate::errors::invalid_format(reason),
        TableParseError::BudgetExceeded => other_error(
            "MP4 subtitle index retained budget exceeded",
        ),
        TableParseError::AllocationFailed => other_error("MP4 subtitle index allocation failed"),
    }
}

/// Whether a track is rejected as its class says, or nothing can be indexed.
pub open spec fn rejects(reject: TrackReject, class: TrackClass) -> bool {
    match reject {
        TrackReject::Skip => class is Skip,
        TrackReject::Reason(reason) => class == TrackClass::Rejected(reason@),
        TrackReject::Fatal(error) => reports_no_room(error),
    }
}

/// Rejects the track for a malformed table, and all tracks for want of room.
fn reject_table(error: TableParseError) -> (result: TrackReject)
    ensures
        match error {
            TableParseError::Invalid(reason) => result == TrackReject::Reason(reason),
            _ => result matches TrackReject::Fatal(error) && reports_no_room(error),
        },
{
    match error {
        TableParseError::Invalid(reason) => TrackReject::Reason(reason),
        fatal => TrackReject::Fatal(table_fatal(fatal)),
    }
}

/// A language as a text in memory charged to a budget.
fn retained_language(language: [u8; 3], retained: &mut RetainedBudget) -> (result: Result<
    String,
    MediaParserError,
>)
    ensures
        crate::mp4::bounded_tables::only_charged(*old(retained), *final(retained)),
        match result {
            Ok(text) => {
                &&& text@ == crate::mp4::bounded_tables::code_text(language@)
                &&& final(retained).used() >= old(retained).used() + 3
            },
            Err(error) => reports_no_room(error),
        },
{
    match retained_code(language.as_slice(), retained) {
        Ok(text) => Ok(text),
        Err(error) => Err(table_fatal(error)),
    }
}

/// The handler, the media header and the sample table of a subtitle track.
struct SubtitleHeaders<'a> {
    handler: [u8; 4],
    media: MediaHeader,
    stbl: &'a [u8],
}

impl<'a> SubtitleHeaders<'a> {
    spec fn facts(self) -> HeaderFacts {
        HeaderFacts { handler: self.handler@, media: self.media@, stbl: self.stbl@ }
    }
}

fn read_headers<'a>(trak: &'a [u8]) -> (result: Result<SubtitleHeaders<'a>, TrackReject>)
    ensures
        match result {
            Ok(headers) => headers_of(trak@) == Ok::<HeaderFacts, TrackClass>(headers.facts()),
            Err(reject) => headers_of(trak@) matches Err(class) && rejects(reject, class)
                && !(reject is Fatal),
        },
{
    let mdia = match find_box(trak, &fourcc('m', 'd', 'i', 'a')) {
        Some(mdia) => mdia,
        None => {
            return Err(TrackReject::Reason("subtitle track missing mdia"));
        },
    };
    let found_handler = match find_box(mdia, &fourcc('h', 'd', 'l', 'r')) {
        Some(hdlr) => parse_hdlr(hdlr),
        None => None,
    };
    let handler = match found_handler {
        Some(handler) => handler,
        None => {
            return Err(TrackReject::Reason("subtitle track has invalid handler"));
        },
    };
    if !is_subtitle(handler) {
        return Err(TrackReject::Skip);
    }
    let found_media = match find_box(mdia, &fourcc('m', 'd', 'h', 'd')) {
        Some(mdhd) => parse_mdhd(mdhd),
        None => None,
    };
    let media = match found_media {
        Some(media) => media,
        None => {
            return Err(TrackReject::Reason("subtitle track has invalid media header"));
        },
    };
    if media.timescale == 0 {
        return Err(TrackReject::Reason("subtitle track has zero timescale"));
    }
    let path = [fourcc('m', 'i', 'n', 'f'), fourcc('s', 't', 'b', 'l')];
    assert(crate::mp4::boxes::codes(path@) =~= crate::mp4::thumbnails::stbl_path());
    match nav(mdia, &path) {
        Some(stbl) => Ok(SubtitleHeaders { handler, media, stbl }),
        None => Err(TrackReject::Reason("subtitle track missing sample table")),
    }
}

/// Whether the sizes and the times of a sample table bear out its claim.
fn is_claim_backed(stbl: &[u8]) -> (result: bool)
    ensures
        result == claim_backed(stbl@),
{
    let claimed: u32 = match find_box(stbl, &fourcc('s', 't', 's', 'z')) {
        Some(stsz) => match (listed_size_count(stsz), read_u32_be(stsz, 8)) {
            (Some(_), Some(claimed)) => claimed,
            _ => {
                return false;
            },
        },
        None => {
            return false;
        },
    };
    match find_box(stbl, &fourcc('s', 't', 't', 's')) {
        Some(stts) => match stts_sample_count(stts) {
            Some(count) => count == claimed,
            None => false,
        },
        None => false,
    }
}

/// Whether every run of chunks refers to a description of the coding `codec`.
fn refers_to_one_codec(
    stsc: &Vec<StscEntry>,
    descriptions: &Vec<SampleDescriptionEntry>,
    codec: &str,
) -> (result: bool)
    requires
        forall|i: int|
            0 <= i < stsc@.len() ==> 1 <= (#[trigger] stsc@[i]).sample_description_index
                <= descriptions@.len(),
    ensures
        result == one_codec(
            stsc@,
            crate::mp4::bounded_tables::codec_views(descriptions@),
            codec@,
        ),
{
    let mut index: usize = 0;
    while index < stsc.len()
        invariant
            index <= stsc@.len(),
            forall|i: int|
                0 <= i < stsc@.len() ==> 1 <= (#[trigger] stsc@[i]).sample_description_index
                    <= descriptions@.len(),
            forall|i: int|
                0 <= i < index ==> crate::mp4::bounded_tables::codec_views(
                    descriptions@,
                )[(#[trigger] stsc@[i]).sample_description_index - 1] == codec@,
        decreases stsc@.len() - index,
    {
        let place: usize = stsc[index].sample_description_index as usize - 1;
        if !text_equal(descriptions[place].codec.as_str(), codec) {
            return false;
        }
        index += 1;
    }
    true
}

/// Checks parsed sample tables against each other and finds the coding.
fn check_tables(
    descriptions: &Vec<SampleDescriptionEntry>,
    stts: &[u8],
    sizes: &SampleSizes,
    stsc: &Vec<StscEntry>,
    chunk_offsets: &Vec<u64>,
) -> (result: Result<usize, TrackReject>)
    requires
        crate::mp4::samples::stsc_sound(stsc@),
    ensures
        forall|id: u32, headers: HeaderFacts, offset: int|
            ({
                let class = #[trigger] class_of_tables(
                    id,
                    headers,
                    offset,
                    crate::mp4::bounded_tables::codec_views(descriptions@),
                    stts@,
                    (sizes.fixed_size, sizes.sizes@, sizes.sample_count),
                    stsc@,
                    chunk_offsets@,
                );
                match result {
                    Ok(first) => class matches TrackClass::Ready(track) && track.codec_index
                        == first && track.usable_tables(),
                    Err(reject) => rejects(reject, class) && !(reject is Fatal),
                }
            }),
{
    let ghost codecs = crate::mp4::bounded_tables::codec_views(descriptions@);
    if validate_sample_tables(
        stts,
        None,
        sizes,
        stsc.as_slice(),
        chunk_offsets.as_slice(),
        None,
        descriptions.len(),
    ).is_none() {
        return Err(TrackReject::Reason("invalid subtitle sample tables"));
    }
    assert forall|i: int| 0 <= i < stsc@.len() implies 1 <= (
    #[trigger] stsc@[i]).sample_description_index <= descriptions@.len() by {
        assert(crate::mp4::samples::stsc_fields_present(stsc@[i]));
    }
    let first: usize = stsc[0].sample_description_index as usize - 1;
    let codec = descriptions[first].codec.as_str();
    assert(codecs[first as int] == codec@);
    if !supported_codec(codec) {
        return Err(TrackReject::Reason("unsupported referenced subtitle codec"));
    }
    if !refers_to_one_codec(stsc, descriptions, codec) {
        return Err(TrackReject::Reason("mixed or unsupported referenced subtitle codecs"));
    }
    assert forall|i: int| 0 <= i < stsc@.len() implies (
    #[trigger] stsc@[i]).samples_per_chunk > 0 by {
        assert(crate::mp4::samples::stsc_fields_present(stsc@[i]));
    }
    Ok(first)
}

/// Parses the sample tables of a subtitle track into charged memory.
fn index_tables(
    trak: &[u8],
    id: u32,
    headers: &SubtitleHeaders<'_>,
    retained: &mut RetainedBudget,
) -> (result: Result<IndexedTrack, TrackReject>)
    requires
        claim_of(headers.stbl@) is Ok,
    ensures
        crate::mp4::bounded_tables::only_charged(*old(retained), *final(retained)),
        ({
            let class = class_of_stbl(
                id,
                headers.facts(),
                crate::mp4::headers::presentation_offset(trak@),
            );
            match result {
                Ok(track) => {
                    &&& class == TrackClass::Ready(track@)
                    &&& track@.usable_tables()
                    &&& final(retained).used() >= old(retained).used() + table_bytes(track@)
                },
                Err(reject) => rejects(reject, class) && (reject is Fatal ==> asks_for_tables(
                    headers.stbl@,
                )),
            }
        }),
{
    let used: usize = retained.used_bytes();
    assert(used <= retained.limit());
    let stbl = headers.stbl;
    let stsd = match find_box(stbl, &fourcc('s', 't', 's', 'd')) {
        Some(stsd) => stsd,
        None => {
            return Err(TrackReject::Reason("subtitle track missing stsd"));
        },
    };
    let descriptions = match parse_stsd_entries_bounded(stsd, retained) {
        Ok(descriptions) => descriptions,
        Err(error) => {
            return Err(reject_table(error));
        },
    };
    let stts = match find_box(stbl, &fourcc('s', 't', 't', 's')) {
        Some(stts) => stts,
        None => {
            return Err(TrackReject::Reason("subtitle track missing stts"));
        },
    };
    let ghost before_timing = *retained;
    let timing = match SampleTimingTable::parse(stts, retained) {
        Ok(timing) => timing,
        Err(error) => {
            return Err(reject_table(error));
        },
    };
    let stsz = match find_box(stbl, &fourcc('s', 't', 's', 'z')) {
        Some(stsz) => stsz,
        None => {
            return Err(TrackReject::Reason("subtitle track missing stsz"));
        },
    };
    let ghost before_sizes = *retained;
    let sizes = match parse_sample_sizes_bounded(stsz, retained) {
        Ok(sizes) => sizes,
        Err(error) => {
            return Err(reject_table(error));
        },
    };
    let stsc_bytes = match find_box(stbl, &fourcc('s', 't', 's', 'c')) {
        Some(stsc) => stsc,
        None => {
            return Err(TrackReject::Reason("subtitle track missing stsc"));
        },
    };
    let ghost before_stsc = *retained;
    let stsc = match parse_stsc_bounded(stsc_bytes, retained) {
        Ok(stsc) => stsc,
        Err(error) => {
            return Err(reject_table(error));
        },
    };
    let ghost before_offsets = *retained;
    let chunk_offsets = match parse_chunk_offsets_bounded(stbl, retained) {
        Ok(chunk_offsets) => chunk_offsets,
        Err(error) => {
            return Err(reject_table(error));
        },
    };
    proof {
        crate::mp4::retained::lemma_granted_room_is_charged(
            before_timing,
            before_sizes,
            crate::mp4::bounded_tables::listed(stts@, 8),
            vstd::layout::size_of::<crate::mp4::bounded_tables::SampleTimingEntry>() as int,
        );
        crate::mp4::retained::lemma_granted_room_is_charged(
            before_sizes,
            before_stsc,
            sizes.sizes@.len() as int,
            vstd::layout::size_of::<u32>() as int,
        );
        crate::mp4::retained::lemma_granted_room_is_charged(
            before_stsc,
            before_offsets,
            stsc@.len() as int,
            vstd::layout::size_of::<StscEntry>() as int,
        );
        crate::mp4::retained::lemma_granted_room_is_charged(
            before_offsets,
            *retained,
            chunk_offsets@.len() as int,
            vstd::layout::size_of::<u64>() as int,
        );
    }
    let ghost class = class_of_tables(
        id,
        headers.facts(),
        crate::mp4::headers::presentation_offset(trak@),
        crate::mp4::bounded_tables::codec_views(descriptions@),
        stts@,
        (sizes.fixed_size, sizes.sizes@, sizes.sample_count),
        stsc@,
        chunk_offsets@,
    );
    assert(class == class_of_stbl(
        id,
        headers.facts(),
        crate::mp4::headers::presentation_offset(trak@),
    ));
    let first: usize = match check_tables(&descriptions, stts, &sizes, &stsc, &chunk_offsets) {
        Ok(first) => first,
        Err(reject) => {
            return Err(reject);
        },
    };
    let language = match headers.media.language {
        Some(language) => match retained_language(language, retained) {
            Ok(language) => Some(language),
            Err(error) => {
                return Err(TrackReject::Fatal(error));
            },
        },
        None => None,
    };
    let track = IndexedTrack {
        id,
        descriptions,
        codec_description_index: first,
        language,
        timescale: headers.media.timescale,
        duration: headers.media.duration,
        handler: headers.handler,
        presentation_offset: track_presentation_offset(trak),
        timing,
        sizes,
        stsc,
        chunk_offsets,
    };
    Ok(track)
}

/// Whether a budget for an index was only charged.
pub open spec fn budget_kept(before: IndexBudget, after: IndexBudget) -> bool {
    &&& after.max_samples == before.max_samples
    &&& crate::mp4::bounded_tables::only_charged(before.retained, after.retained)
}

/// Whether an error is the one for too many samples in the index.
pub open spec fn reports_too_many(error: MediaParserError) -> bool {
    error@ == crate::errors::ErrorView::Other(
        crate::mp4::subtitles::budget::too_many_indexed(),
    )
}

/// Parses a track of a file as a subtitle track.
fn indexed_track(trak: &[u8], id: u32, budget: &mut IndexBudget) -> (result: Result<
    IndexedTrack,
    TrackReject,
>)
    requires
        old(budget).in_limit(),
    ensures
        budget_kept(*old(budget), *final(budget)),
        final(budget).in_limit(),
        ({
            let outcome = class_of_trak(
                trak@,
                id,
                old(budget).samples as int,
                old(budget).max_samples as int,
            );
            match result {
                Ok(track) => {
                    &&& outcome matches Some((class, charged)) && class == TrackClass::Ready(track@)
                        && final(budget).samples == old(budget).samples + charged
                    &&& track@.usable()
                    &&& final(budget).retained.used() >= old(budget).retained.used() + table_bytes(
                        track@,
                    )
                },
                Err(TrackReject::Fatal(error)) => {
                    ||| outcome is None && reports_too_many(error)
                    ||| outcome matches Some((class, _)) && !(class is Skip) && asks_for_room(trak@)
                        && reports_no_room(error)
                },
                Err(reject) => outcome matches Some((class, charged)) && rejects(reject, class)
                    && final(budget).samples == old(budget).samples + charged,
            }
        }),
{
    reveal(class_of_trak);
    let used: usize = budget.retained.used_bytes();
    assert(used <= budget.retained.limit());
    let headers = match read_headers(trak) {
        Ok(headers) => headers,
        Err(reject) => {
            return Err(reject);
        },
    };
    let count: u32 = match find_box(headers.stbl, &fourcc('s', 't', 's', 'z')) {
        Some(stsz) => match read_u32_be(stsz, 8) {
            Some(count) => count,
            None => {
                return Err(TrackReject::Reason("subtitle track has malformed stsz"));
            },
        },
        None => {
            return Err(TrackReject::Reason("subtitle track missing stsz"));
        },
    };
    match budget.charge_samples(count as usize) {
        Ok(_) => {},
        Err(IndexSampleChargeError::TrackTooLarge) => {
            if is_claim_backed(headers.stbl) {
                return Err(TrackReject::Fatal(other_error("too many indexed subtitle samples")));
            }
            return Err(TrackReject::Reason("invalid subtitle sample tables"));
        },
        Err(IndexSampleChargeError::BudgetExhausted(error)) => {
            return Err(TrackReject::Fatal(error));
        },
    }
    match index_tables(trak, id, &headers, &mut budget.retained) {
        Ok(track) => {
            assert(track@.handler == headers.facts().handler);
            Ok(track)
        },
        Err(reject) => Err(reject),
    }
}

/// Puts a track behind the others in charged memory. `slots` is the room for
/// tracks that is charged.
fn push_track(
    tracks: &mut Vec<IndexedTrackState>,
    slots: &mut usize,
    track: IndexedTrackState,
    retained: &mut RetainedBudget,
) -> (result: Result<(), MediaParserError>)
    requires
        *old(slots) >= old(tracks)@.len(),
    ensures
        crate::mp4::bounded_tables::only_charged(*old(retained), *final(retained)),
        match result {
            Ok(_) => {
                &&& final(tracks)@ == old(tracks)@.push(track)
                &&& *final(slots) >= final(tracks)@.len()
                &&& final(retained).used() == old(retained).used() + (*final(slots) - *old(slots))
                    * vstd::layout::size_of::<IndexedTrackState>()
            },
            Err(error) => reports_no_room(error),
        },
{
    let used: usize = retained.used_bytes();
    assert(used <= retained.limit());
    let ghost size = vstd::layout::size_of::<IndexedTrackState>() as int;
    assert(0 * size == 0) by (nonlinear_arith);
    if tracks.len() >= *slots {
        match retained.reserve_from(tracks, 1, *slots) {
            Ok(charged) => {
                *slots = charged;
            },
            Err(error) => {
                return Err(table_fatal(error));
            },
        }
    }
    tracks.push(track);
    Ok(())
}

/// Whether the tracks are the same, or one more that can be used if it is ready.
pub open spec fn grows_usably(
    before: Seq<IndexedTrackState>,
    after: Seq<IndexedTrackState>,
) -> bool {
    ||| after == before
    ||| {
        &&& after.len() == before.len() + 1
        &&& after.drop_last() == before
        &&& after.last()@ matches StateView::Ready(track) ==> track.usable()
    }
}

/// Puts what becomes of a track behind the others.
fn parse_track(
    trak: &[u8],
    chapter_track_ids: &HashSet<u32>,
    tracks: &mut Vec<IndexedTrackState>,
    slots: &mut usize,
    budget: &mut IndexBudget,
) -> (result: Result<(), MediaParserError>)
    requires
        old(budget).in_limit(),
        *old(slots) >= old(tracks)@.len(),
    ensures
        budget_kept(*old(budget), *final(budget)),
        final(budget).in_limit(),
        ({
            let header = crate::mp4::thumbnails::tkhd_of(trak@);
            let skipped = header is None || !header.unwrap().track_enabled
                && chapter_track_ids@.contains(header.unwrap().id);
            let outcome = class_of_trak(
                trak@,
                header.unwrap().id,
                old(budget).samples as int,
                old(budget).max_samples as int,
            );
            match result {
                Ok(_) => if skipped {
                    *final(tracks) == *old(tracks) && final(budget).samples == old(budget).samples
                } else {
                    &&& outcome matches Some((class, charged)) && state_views(final(tracks)@)
                        == with_class(state_views(old(tracks)@), header.unwrap().id, class)
                        && final(budget).samples == old(budget).samples + charged
                    &&& grows_usably(old(tracks)@, final(tracks)@)
                },
                Err(error) => {
                    ||| !skipped && outcome is None && reports_too_many(error)
                    ||| !skipped && (outcome matches Some((class, _)) && !(class is Skip))
                        && reports_no_room(error)
                },
            }
        }),
        result is Ok ==> {
            &&& *final(slots) >= final(tracks)@.len()
            &&& final(budget).retained.used() >= old(budget).retained.used() + (*final(slots)
                - *old(slots)) * vstd::layout::size_of::<IndexedTrackState>() + kept_bytes(
                state_views(final(tracks)@),
            ) - kept_bytes(state_views(old(tracks)@))
        },
{
    let ghost size = vstd::layout::size_of::<IndexedTrackState>() as int;
    assert(0 * size == 0) by (nonlinear_arith);
    let header = match read_track_header(trak) {
        Some(header) => header,
        None => {
            let used: usize = budget.retained.used_bytes();
            assert(used <= budget.retained.limit());
            return Ok(());
        },
    };
    if !header.track_enabled && chapter_track_ids.contains(&header.id) {
        let used: usize = budget.retained.used_bytes();
        assert(used <= budget.retained.limit());
        return Ok(());
    }
    let ghost before = tracks@;
    let state = match indexed_track(trak, header.id, budget) {
        Ok(track) => IndexedTrackState::Ready(track),
        Err(TrackReject::Skip) => {
            return Ok(());
        },
        Err(TrackReject::Reason(reason)) => IndexedTrackState::Rejected { id: header.id, reason },
        Err(TrackReject::Fatal(error)) => {
            return Err(error);
        },
    };
    let ghost pushed = state@;
    match push_track(tracks, slots, state, &mut budget.retained) {
        Ok(_) => {
            assert(state_views(tracks@) =~= state_views(before).push(pushed));
            assert(state_views(tracks@).drop_last() =~= state_views(before));
            assert(tracks@.drop_last() =~= before);
            Ok(())
        },
        Err(error) => Err(error),
    }
}

/// Whether a track is put into the index, be it ready or not, before there are
/// too many samples.
pub open spec fn keeps_a_track(
    boxes: Seq<(Seq<u8>, Seq<u8>)>,
    chapters: Set<u32>,
    max_samples: int,
) -> bool {
    exists|k: int|
        0 < k <= boxes.len() && (#[trigger] indexed(boxes, k, chapters, max_samples) matches Some(
            (tracks, _),
        ) && tracks.len() > 0)
}

impl SubtitleIndex {
    /// Indexes the subtitle tracks of a `moov` box within these limits.
    pub fn from_moov(
        moov: &[u8],
        max_traks: usize,
        max_samples: usize,
        max_retained_bytes: usize,
    ) -> (result: Result<(Self, IndexUsage), MediaParserError>)
        ensures
            ({
                let payload = crate::mp4::headers::moov_payload(moov@);
                let boxes = crate::mp4::boxes::boxes_from(payload.unwrap(), 0);
                let traks = crate::mp4::subtitles::chapters::trak_count(boxes, boxes.len() as int);
                let tracks = indexed(
                    boxes,
                    boxes.len() as int,
                    crate::mp4::subtitles::chapters::chapter_ids(payload.unwrap()),
                    max_samples as int,
                );
                match result {
                    Ok((index, usage)) => {
                        &&& payload is Some
                        &&& traks <= max_traks
                        &&& tracks == Some((state_views(index.tracks@), usage.samples as int))
                        &&& usage.samples <= max_samples
                        &&& usage.retained_bytes <= max_retained_bytes
                        &&& usage.retained_bytes >= index.tracks@.len() * vstd::layout::size_of::<
                            IndexedTrackState,
                        >() + kept_bytes(state_views(index.tracks@))
                        &&& index.usable()
                    },
                    Err(error) => {
                        ||| payload is Some && crate::mp4::subtitles::chapters::disabled_within(
                            boxes,
                            max_traks as int,
                        ) && crate::mp4::subtitles::chapters::reports_no_room(error)
                        ||| payload is Some && traks <= max_traks && keeps_a_track(
                            boxes,
                            crate::mp4::subtitles::chapters::chapter_ids(payload.unwrap()),
                            max_samples as int,
                        ) && reports_no_room(error)
                        ||| payload is None && error@ == crate::errors::ErrorView::InvalidFormat(
                            "invalid moov box"@,
                        )
                        ||| payload is Some && traks > max_traks && error@
                            == crate::errors::ErrorView::InvalidFormat(
                            crate::mp4::subtitles::chapters::too_many_traks(max_traks),
                        )
                        ||| payload is Some && traks <= max_traks && tracks is None
                            && reports_too_many(error)
                    },
                }
            }),
    {
        let payload = match parse_moov_payload(moov) {
            Ok(payload) => payload,
            Err(error) => {
                return Err(error);
            },
        };
        let chapter_track_ids = match disabled_chapter_track_ids(payload, max_traks) {
            Ok(ids) => ids,
            Err(error) => {
                return Err(error);
            },
        };
        let mut budget = IndexBudget::new(max_samples, max_retained_bytes);
        let mut tracks: Vec<IndexedTrackState> = Vec::new();
        let mut slots: usize = 0;
        let ghost size = vstd::layout::size_of::<IndexedTrackState>() as int;
        assert(0 * size == 0) by (nonlinear_arith);
        let boxes = iter_boxes(payload);
        let ghost views = crate::mp4::boxes::boxes_from(payload@, 0);
        let ghost chapters = crate::mp4::subtitles::chapters::chapter_ids(payload@);
        let trak = fourcc('t', 'r', 'a', 'k');
        let mut position: usize = 0;
        assert(state_views(tracks@) =~= Seq::empty());
        while position < boxes.len()
            invariant
                position <= boxes@.len(),
                views == crate::mp4::boxes::box_views(boxes@),
                trak@ == crate::bytes::code('t', 'r', 'a', 'k'),
                views == crate::mp4::boxes::boxes_from(payload@, 0),
                chapters == crate::mp4::subtitles::chapters::chapter_ids(payload@),
                chapter_track_ids@ == chapters,
                crate::mp4::headers::moov_payload(moov@) == Some(payload@),
                crate::mp4::subtitles::chapters::trak_count(views, views.len() as int)
                    <= max_traks,
                budget.in_limit(),
                budget.max_samples == max_samples,
                budget.retained.limit() == max_retained_bytes,
                indexed(views, position as int, chapters, max_samples as int) == Some(
                    (state_views(tracks@), budget.samples as int),
                ),
                (SubtitleIndex { tracks }).usable(),
                slots >= tracks@.len(),
                size == vstd::layout::size_of::<IndexedTrackState>(),
                budget.retained.used() >= slots * size + kept_bytes(state_views(tracks@)),
            decreases boxes@.len() - position,
        {
            let found = boxes[position];
            assert(views[position as int] == (found.0@, found.1@));
            let ghost before = tracks@;
            let ghost before_slots = slots as int;
            if bytes_equal(&found.0, &trak) {
                match parse_track(
                    found.1,
                    &chapter_track_ids,
                    &mut tracks,
                    &mut slots,
                    &mut budget,
                ) {
                    Ok(_) => {
                        assert((slots - before_slots) * size + before_slots * size == slots * size)
                            by (nonlinear_arith);
                    },
                    Err(error) => {
                        proof {
                            let next = indexed(
                                views,
                                position + 1,
                                chapters,
                                max_samples as int,
                            );
                            if next is None {
                                lemma_indexed_stays_none(
                                    views,
                                    position + 1,
                                    views.len() as int,
                                    chapters,
                                    max_samples as int,
                                );
                            } else {
                                assert(next.unwrap().0.len() > 0);
                                assert(keeps_a_track(views, chapters, max_samples as int));
                            }
                        }
                        return Err(error);
                    },
                }
                assert(forall|i: int|
                    0 <= i < before.len() ==> #[trigger] tracks@[i] == before[i]);
            }
            position += 1;
        }
        assert(tracks@.len() * size <= slots * size) by (nonlinear_arith)
            requires
                tracks@.len() <= slots,
                size >= 0,
        ;
        let usage = IndexUsage {
            samples: budget.samples(),
            retained_bytes: budget.retained.used_bytes(),
        };
        Ok((SubtitleIndex { tracks }, usage))
    }
}

/// Tracks without a readable header are not kept, so that indexing them asks for
/// no memory and succeeds.
pub proof fn lemma_tracks_without_headers_are_not_kept(
    boxes: Seq<(Seq<u8>, Seq<u8>)>,
    k: int,
    chapters: Set<u32>,
    max_traks: int,
    max_samples: int,
)
    requires
        0 <= k <= boxes.len(),
        forall|i: int|
            0 <= i < boxes.len() && crate::mp4::subtitles::chapters::is_trak(boxes[i])
                ==> crate::mp4::thumbnails::tkhd_of((#[trigger] boxes[i]).1) is None,
    ensures
        indexed(boxes, k, chapters, max_samples) == Some((Seq::<StateView>::empty(), 0int)),
        !keeps_a_track(boxes, chapters, max_samples),
        !crate::mp4::subtitles::chapters::disabled_within(boxes, max_traks),
{
    assert forall|j: int| 0 <= j <= boxes.len() implies #[trigger] indexed(
        boxes,
        j,
        chapters,
        max_samples,
    ) == Some((Seq::<StateView>::empty(), 0int)) by {
        lemma_nothing_indexed(boxes, j, chapters, max_samples);
    }
}

proof fn lemma_nothing_indexed(
    boxes: Seq<(Seq<u8>, Seq<u8>)>,
    k: int,
    chapters: Set<u32>,
    max_samples: int,
)
    requires
        0 <= k <= boxes.len(),
        forall|i: int|
            0 <= i < boxes.len() && crate::mp4::subtitles::chapters::is_trak(boxes[i])
                ==> crate::mp4::thumbnails::tkhd_of((#[trigger] boxes[i]).1) is None,
    ensures
        indexed(boxes, k, chapters, max_samples) == Some((Seq::<StateView>::empty(), 0int)),
    decreases k,
{
    if k > 0 {
        lemma_nothing_indexed(boxes, k - 1, chapters, max_samples);
        assert(boxes[k - 1] == boxes[k - 1]);
    }
}

proof fn lemma_indexed_stays_none(
    boxes: Seq<(Seq<u8>, Seq<u8>)>,
    i: int,
    j: int,
    chapters: Set<u32>,
    max_samples: int,
)
    requires
        0 <= i <= j,
        indexed(boxes, i, chapters, max_samples) is None,
    ensures
        indexed(boxes, j, chapters, max_samples) is None,
    decreases j - i,
{
    if i < j {
        lemma_indexed_stays_none(boxes, i, j - 1, chapters, max_samples);
    }
}

/// A track that can be used is indexed with what its boxes say: its number, the
/// clock, the duration and the language of its media header, where its
/// presentation starts, and its own tables. All its samples have one coding, which
/// can be decoded.
pub proof fn lemma_indexed_track_describes_its_boxes(
    trak: Seq<u8>,
    id: u32,
    samples: int,
    max_samples: int,
)
    ensures
        class_of_trak(trak, id, samples, max_samples) matches Some((class, charged)) ==> {
            &&& samples + charged <= max_samples || charged == 0
            &&& class matches TrackClass::Ready(track) ==> {
                &&& track.id == id
                &&& track.presentation_offset == crate::mp4::headers::presentation_offset(trak)
                &&& headers_of(trak) matches Ok(headers)
                &&& headers.media.timescale > 0
                &&& track.timescale == headers.media.timescale
                &&& track.duration == headers.media.duration
                &&& track.handler == headers.handler
                &&& track.language is Some <==> headers.media.language is Some
                &&& track.language matches Some(language) ==> language.len()
                    == headers.media.language.unwrap().len() && forall|i: int|
                    0 <= i < language.len() ==> #[trigger] language[i]
                        == headers.media.language.unwrap()[i] as char
                &&& stts_of(headers.stbl) matches Some(stts) && track.runs
                    == crate::mp4::timing::stts_runs(stts)
                &&& stsz_of(headers.stbl) matches Some(stsz)
                    && crate::mp4::samples::sample_size_table(stsz) == Some(track.sizes)
                &&& crate::mp4::samples::chunk_offset_table(headers.stbl) == Some(
                    track.chunk_offsets,
                )
                &&& charged == track.sizes.2
                &&& 0 <= track.codec_index < track.codecs.len()
                &&& crate::mp4::subtitles::text::is_supported(track.codecs[track.codec_index])
                &&& forall|i: int|
                    0 <= i < track.stsc.len() ==> track.codecs[(
                    #[trigger] track.stsc[i]).sample_description_index - 1]
                        == track.codecs[track.codec_index]
            }
        },
{
    reveal(class_of_trak);
    if let Some((TrackClass::Ready(track), _)) = class_of_trak(trak, id, samples, max_samples) {
        assert(crate::mp4::samples::stsc_fields_present(track.stsc[0]));
        let headers = headers_of(trak)->Ok_0;
        if let Some(own) = headers.media.language {
            assert(track.language.unwrap().len() == own.len());
        }
    }
}

/// The headers of a subtitle track are read from its own boxes.
pub proof fn lemma_subtitle_headers_read_back(
    mdhd: Seq<u8>,
    hdlr: Seq<u8>,
    stbl: Seq<u8>,
)
    requires
        mdhd.len() + hdlr.len() + stbl.len() + 100 <= u32::MAX,
        crate::mp4::headers::media_header(mdhd) is Some,
        crate::mp4::headers::media_header(mdhd).unwrap().timescale > 0,
        crate::mp4::headers::handler_type(hdlr) is Some,
    ensures
        ({
            let mdia = crate::mp4::boxes::written_boxes(
                seq![
                    (crate::bytes::code('m', 'd', 'h', 'd'), mdhd),
                    (crate::bytes::code('h', 'd', 'l', 'r'), hdlr),
                    (
                        crate::bytes::code('m', 'i', 'n', 'f'),
                        crate::mp4::boxes::written_box(
                            crate::bytes::code('s', 't', 'b', 'l'),
                            stbl,
                        ),
                    ),
                ],
            );
            let trak = crate::mp4::boxes::written_box(
                crate::bytes::code('m', 'd', 'i', 'a'),
                mdia,
            );
            let handler = crate::mp4::headers::handler_type(hdlr).unwrap();
            headers_of(trak) == if crate::mp4::subtitles::output::is_subtitle_handler(handler) {
                Ok::<HeaderFacts, TrackClass>(
                    HeaderFacts {
                        handler,
                        media: crate::mp4::headers::media_header(mdhd).unwrap(),
                        stbl,
                    },
                )
            } else {
                Err::<HeaderFacts, TrackClass>(TrackClass::Skip)
            }
        }),
{
    let code_mdia = crate::bytes::code('m', 'd', 'i', 'a');
    let code_mdhd = crate::bytes::code('m', 'd', 'h', 'd');
    let code_hdlr = crate::bytes::code('h', 'd', 'l', 'r');
    let code_minf = crate::bytes::code('m', 'i', 'n', 'f');
    let code_stbl = crate::bytes::code('s', 't', 'b', 'l');
    let inner = crate::mp4::boxes::written_box(code_stbl, stbl);
    let media = seq![(code_mdhd, mdhd), (code_hdlr, hdlr), (code_minf, inner)];
    let mdia = crate::mp4::boxes::written_boxes(media);
    assert(code_mdhd[0] != code_hdlr[0]);
    assert(code_hdlr[0] != code_minf[0]);
    assert(code_mdhd[1] != code_minf[1]);
    assert(mdia.len() == mdhd.len() + hdlr.len() + inner.len() + 24) by {
        assert(media.drop_first() =~= seq![(code_hdlr, hdlr), (code_minf, inner)]);
        assert(media.drop_first().drop_first() =~= seq![(code_minf, inner)]);
        assert(media.drop_first().drop_first().drop_first() =~= seq![]);
        reveal_with_fuel(crate::mp4::boxes::written_boxes, 4);
    }
    crate::mp4::boxes::lemma_only_box_is_found(code_mdia, mdia);
    crate::mp4::boxes::lemma_child_is_the_first(media, code_mdhd, 0);
    crate::mp4::boxes::lemma_child_is_the_first(media, code_hdlr, 1);
    crate::mp4::boxes::lemma_child_is_the_first(media, code_minf, 2);
    crate::mp4::boxes::lemma_only_box_is_found(code_stbl, stbl);
    assert(crate::mp4::thumbnails::stbl_path().drop_first() =~= seq![code_stbl]);
}

/// A subtitle track whose tables can be read and agree, and whose samples are all
/// in one coding that is known, is ready.
pub proof fn lemma_sound_tracks_are_ready(id: u32, headers: HeaderFacts, offset: int)
    requires
        ({
            let stbl = headers.stbl;
            let stsd = crate::mp4::boxes::child(stbl, crate::bytes::code('s', 't', 's', 'd'));
            let stts = crate::mp4::boxes::child(stbl, crate::bytes::code('s', 't', 't', 's'));
            let stsz = crate::mp4::boxes::child(stbl, crate::bytes::code('s', 't', 's', 'z'));
            let stsc = crate::mp4::boxes::child(stbl, crate::bytes::code('s', 't', 's', 'c'));
            &&& stsd is Some && stts is Some && stsz is Some && stsc is Some
            &&& crate::mp4::bounded_tables::stsd_codecs(stsd.unwrap()) is Some
            &&& crate::mp4::bounded_tables::timing_runs(stts.unwrap()) is Some
            &&& crate::mp4::samples::sample_size_table(stsz.unwrap()) is Some
            &&& crate::mp4::samples::stsc_table(stsc.unwrap()) is Some
            &&& crate::mp4::samples::chunk_offset_table(stbl) is Some
            &&& {
                let codecs = crate::mp4::bounded_tables::stsd_codecs(stsd.unwrap()).unwrap();
                let entries = crate::mp4::samples::stsc_table(stsc.unwrap()).unwrap();
                let codec = codecs[entries[0].sample_description_index - 1];
                &&& crate::mp4::chunks::tables_agree(
                    stts.unwrap(),
                    None,
                    crate::mp4::samples::sample_size_table(stsz.unwrap()).unwrap().2 as int,
                    entries,
                    crate::mp4::samples::chunk_offset_table(stbl).unwrap(),
                    None,
                    codecs.len() as int,
                )
                &&& codec == "tx3g"@ || codec == "wvtt"@ || codec == "stpp"@ || codec == "text"@
                &&& forall|i: int|
                    0 <= i < entries.len() ==> codecs[(
                    #[trigger] entries[i]).sample_description_index - 1] == codec
            }
        }),
    ensures
        class_of_stbl(id, headers, offset) is Ready,
{
}

/// Tracks are kept in the order in which they come, and one that is no subtitle
/// track is not kept.
pub proof fn lemma_tracks_are_kept_in_order(
    tracks: Seq<StateView>,
    id: u32,
    track: TrackView,
    reason: Seq<char>,
    i: int,
)
    requires
        0 <= i < tracks.len(),
    ensures
        with_class(tracks, id, TrackClass::Skip) == tracks,
        with_class(tracks, id, TrackClass::Ready(track)).len() == tracks.len() + 1,
        with_class(tracks, id, TrackClass::Ready(track))[i] == tracks[i],
        with_class(tracks, id, TrackClass::Ready(track)).last() == StateView::Ready(track),
        with_class(tracks, id, TrackClass::Rejected(reason)).len() == tracks.len() + 1,
        with_class(tracks, id, TrackClass::Rejected(reason))[i] == tracks[i],
        with_class(tracks, id, TrackClass::Rejected(reason)).last() == StateView::Rejected(
            id,
            reason,
        ),
{
}

} // verus!
