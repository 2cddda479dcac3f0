//! Track and media headers, edit lists and the way to the `moov` box.

use vstd::prelude::*;

use crate::bytes::{bytes_equal, fourcc, read_u16_be, read_u32_be, read_u64_be};
use crate::errors::{invalid_format, MediaParserError};
use crate::mp4::boxes::{nav, read_box, read_box_header};

verus! {

/// What a `tkhd` box says of a track.
#[derive(Debug, Clone, Copy, PartialEq, Eq, Structural)]
pub struct TrackHeader {
    pub id: u32,
    pub track_enabled: bool,
    pub duration: u64,
}

/// The header in a `tkhd` payload of version 0 (32-bit times) or 1 (64-bit).
pub open spec fn track_header(tkhd: Seq<u8>) -> Option<TrackHeader> {
    if tkhd.len() >= 24 && tkhd[0] == 0 {
        Some(
            TrackHeader {
                id: crate::bytes::be32(tkhd, 12) as u32,
                track_enabled: tkhd[3] % 2 == 1,
                duration: crate::bytes::be32(tkhd, 20) as u64,
            },
        )
    } else if tkhd.len() >= 36 && tkhd[0] == 1 {
        Some(
            TrackHeader {
                id: crate::bytes::be32(tkhd, 20) as u32,
                track_enabled: tkhd[3] % 2 == 1,
                duration: crate::bytes::be64(tkhd, 28) as u64,
            },
        )
    } else {
        None
    }
}

/// Parses a `tkhd` payload.
pub fn parse_tkhd(tkhd: &[u8]) -> (result: Option<TrackHeader>)
    ensures
        result == track_header(tkhd@),
{
    if tkhd.len() < 24 {
        return None;
    }
    let track_enabled: bool = tkhd[3] % 2 == 1;
    if tkhd[0] == 0 {
        match (read_u32_be(tkhd, 12), read_u32_be(tkhd, 20)) {
            (Some(id), Some(duration)) => Some(
                TrackHeader { id, track_enabled, duration: duration as u64 },
            ),
            _ => None,
        }
    } else if tkhd[0] == 1 {
        match (read_u32_be(tkhd, 20), read_u64_be(tkhd, 28)) {
            (Some(id), Some(duration)) => Some(TrackHeader { id, track_enabled, duration }),
            _ => None,
        }
    } else {
        None
    }
}

/// The handler type in an `hdlr` payload.
pub open spec fn handler_type(hdlr: Seq<u8>) -> Option<Seq<u8>> {
    if hdlr.len() >= 12 {
        Some(hdlr.subrange(8, 12))
    } else {
        None
    }
}

/// Parses an `hdlr` payload.
pub fn parse_hdlr(hdlr: &[u8]) -> (result: Option<[u8; 4]>)
    ensures
        match result {
            Some(handler) => handler_type(hdlr@) == Some(handler@),
            None => handler_type(hdlr@) is None,
        },
{
    if hdlr.len() < 12 {
        return None;
    }
    let handler = [hdlr[8], hdlr[9], hdlr[10], hdlr[11]];
    assert(handler@ =~= hdlr@.subrange(8, 12));
    Some(handler)
}

/// What an `mdhd` box says of a track's media.
#[derive(Debug, Clone, Copy, PartialEq, Eq)]
pub struct MediaHeader {
    pub timescale: u32,
    pub duration: u64,
    /// The ISO 639-2 code, in lower case.
    pub language: Option<[u8; 3]>,
}

pub struct MediaHeaderView {
    pub timescale: u32,
    pub duration: u64,
    pub language: Option<Seq<u8>>,
}

impl View for MediaHeader {
    type V = MediaHeaderView;

    open spec fn view(&self) -> MediaHeaderView {
        MediaHeaderView {
            timescale: self.timescale,
            duration: self.duration,
            language: match self.language {
                Some(code) => Some(code@),
                None => None,
            },
        }
    }
}

/// A letter packed into five bits, `a` being 1.
pub open spec fn packed_letter(packed: int, place: int) -> int {
    if place == 0 {
        packed / 0x400 % 0x20
    } else if place == 1 {
        packed / 0x20 % 0x20
    } else {
        packed % 0x20
    }
}

/// The language in a packed 16-bit code, if all three letters are letters.
pub open spec fn packed_language(packed: int) -> Option<Seq<u8>> {
    if (forall|i: int| 0 <= i < 3 ==> 1 <= #[trigger] packed_letter(packed, i) <= 26) {
        Some(Seq::new(3, |i: int| (0x60 + packed_letter(packed, i)) as u8))
    } else {
        None
    }
}

/// The header in an `mdhd` payload of version 0 (32-bit times) or 1 (64-bit).
pub open spec fn media_header(mdhd: Seq<u8>) -> Option<MediaHeaderView> {
    if mdhd.len() >= 22 && mdhd[0] == 0 {
        Some(
            MediaHeaderView {
                timescale: crate::bytes::be32(mdhd, 12) as u32,
                duration: crate::bytes::be32(mdhd, 16) as u64,
                language: packed_language(crate::bytes::be16(mdhd, 20)),
            },
        )
    } else if mdhd.len() >= 34 && mdhd[0] == 1 {
        Some(
            MediaHeaderView {
                timescale: crate::bytes::be32(mdhd, 20) as u32,
                duration: crate::bytes::be64(mdhd, 24) as u64,
                language: packed_language(crate::bytes::be16(mdhd, 32)),
            },
        )
    } else {
        None
    }
}

fn unpack_language(packed: u16) -> (result: Option<[u8; 3]>)
    ensures
        match result {
            Some(code) => packed_language(packed as int) == Some(code@),
            None => packed_language(packed as int) is None,
        },
{
    let first: u16 = packed / 0x400 % 0x20;
    let second: u16 = packed / 0x20 % 0x20;
    let third: u16 = packed % 0x20;
    assert(packed_letter(packed as int, 0) == first);
    assert(packed_letter(packed as int, 1) == second);
    assert(packed_letter(packed as int, 2) == third);
    if first < 1 || first > 26 || second < 1 || second > 26 || third < 1 || third > 26 {
        return None;
    }
    let code = [0x60 + first as u8, 0x60 + second as u8, 0x60 + third as u8];
    assert(code@ =~= packed_language(packed as int).unwrap());
    Some(code)
}

/// Parses an `mdhd` payload.
pub fn parse_mdhd(mdhd: &[u8]) -> (result: Option<MediaHeader>)
    ensures
        match result {
            Some(header) => media_header(mdhd@) == Some(header@),
            None => media_header(mdhd@) is None,
        },
{
    if mdhd.len() < 22 {
        return None;
    }
    if mdhd[0] == 0 {
        match (read_u32_be(mdhd, 12), read_u32_be(mdhd, 16), read_u16_be(mdhd, 20)) {
            (Some(timescale), Some(duration), Some(packed)) => Some(
                MediaHeader {
                    timescale,
                    duration: duration as u64,
                    language: unpack_language(packed),
                },
            ),
            _ => None,
        }
    } else if mdhd[0] == 1 {
        match (read_u32_be(mdhd, 20), read_u64_be(mdhd, 24), read_u16_be(mdhd, 32)) {
            (Some(timescale), Some(duration), Some(packed)) => Some(
                MediaHeader { timescale, duration, language: unpack_language(packed) },
            ),
            _ => None,
        }
    } else {
        None
    }
}

// ---------------------------------------------------------------------------
// Edit lists
// ---------------------------------------------------------------------------

/// The number that the 64-bit two's complement `raw` stands for.
pub open spec fn as_signed64(raw: int) -> int {
    if raw < 0x8000_0000_0000_0000 {
        raw
    } else {
        raw - 0x1_0000_0000_0000_0000
    }
}

/// The media time at which the one edit of an `elst` payload starts: there is
/// exactly one edit, it is not empty, starts at a media time and plays at
/// normal rate.
pub open spec fn edit_media_time(elst: Seq<u8>) -> Option<int> {
    if elst.len() < 8 || crate::bytes::be32(elst, 4) != 1 {
        None
    } else if elst[0] == 0 && elst.len() >= 20 {
        let start = crate::mp4::timing::as_signed(crate::bytes::be32(elst, 12) as u32);
        if crate::bytes::be32(elst, 8) != 0 && start >= 0 && crate::bytes::be32(elst, 16)
            == 0x1_0000 {
            Some(start)
        } else {
            None
        }
    } else if elst[0] == 1 && elst.len() >= 28 {
        let start = as_signed64(crate::bytes::be64(elst, 16));
        if crate::bytes::be64(elst, 8) != 0 && start >= 0 && crate::bytes::be32(elst, 24)
            == 0x1_0000 {
            Some(start)
        } else {
            None
        }
    } else {
        None
    }
}

/// The media time at which a single, non-empty, normal-rate edit starts.
pub fn parse_elst_media_time(elst: &[u8]) -> (result: Option<i64>)
    ensures
        match result {
            Some(time) => edit_media_time(elst@) == Some(time as int),
            None => edit_media_time(elst@) is None,
        },
{
    match read_u32_be(elst, 4) {
        Some(count) => {
            if count != 1 {
                return None;
            }
        },
        None => {
            return None;
        },
    }
    if elst[0] == 0 {
        match (read_u32_be(elst, 8), read_u32_be(elst, 12), read_u32_be(elst, 16)) {
            (Some(duration), Some(start), Some(rate)) => {
                if duration != 0 && start < 0x8000_0000 && rate == 0x1_0000 {
                    Some(start as i64)
                } else {
                    None
                }
            },
            _ => None,
        }
    } else if elst[0] == 1 {
        match (read_u64_be(elst, 8), read_u64_be(elst, 16), read_u32_be(elst, 24)) {
            (Some(duration), Some(start), Some(rate)) => {
                if duration != 0 && start < 0x8000_0000_0000_0000 && rate == 0x1_0000 {
                    Some(start as i64)
                } else {
                    None
                }
            },
            _ => None,
        }
    } else {
        None
    }
}

/// The path from a `trak` to its edit list.
pub open spec fn edit_list_path() -> Seq<Seq<u8>> {
    seq![crate::bytes::code('e', 'd', 't', 's'), crate::bytes::code('e', 'l', 's', 't')]
}

/// The edit list of a `trak`, if it has one.
pub fn find_edit_list(trak: &[u8]) -> (result: Option<&[u8]>)
    ensures
        match result {
            Some(elst) => crate::mp4::boxes::descend(trak@, edit_list_path()) == Some(elst@),
            None => crate::mp4::boxes::descend(trak@, edit_list_path()) is None,
        },
{
    let path = [fourcc('e', 'd', 't', 's'), fourcc('e', 'l', 's', 't')];
    assert(crate::mp4::boxes::codes(path@) =~= edit_list_path());
    nav(trak, &path)
}

/// The media time at which a track's presentation starts. An edit list other
/// than a single, non-empty, normal-rate edit counts as none.
pub open spec fn presentation_offset(trak: Seq<u8>) -> int {
    match crate::mp4::boxes::descend(trak, edit_list_path()) {
        Some(elst) => match edit_media_time(elst) {
            Some(time) => time,
            None => 0,
        },
        None => 0,
    }
}

/// The media time at which a track's presentation starts.
pub fn track_presentation_offset(trak: &[u8]) -> (result: i64)
    ensures
        result == presentation_offset(trak@),
{
    match find_edit_list(trak) {
        Some(elst) => match parse_elst_media_time(elst) {
            Some(time) => time,
            None => 0,
        },
        None => 0,
    }
}

// ---------------------------------------------------------------------------
// moov
// ---------------------------------------------------------------------------

/// The content of a `moov` box.
pub open spec fn moov_payload(moov: Seq<u8>) -> Option<Seq<u8>> {
    match crate::mp4::boxes::box_at(moov, 0) {
        Some(header) => if header.fourcc == crate::bytes::code('m', 'o', 'o', 'v') {
            Some(crate::mp4::boxes::payload_at(moov, 0))
        } else {
            None
        },
        None => None,
    }
}

/// Takes the content out of a `moov` box.
pub fn parse_moov_payload(moov: &[u8]) -> (result: Result<&[u8], MediaParserError>)
    ensures
        match moov_payload(moov@) {
            Some(payload) => result matches Ok(found) && found@ == payload,
            None => result matches Err(error) && error@
                == crate::errors::ErrorView::InvalidFormat("invalid moov box"@),
        },
{
    if let Some(found) = read_box(moov, 0) {
        if bytes_equal(&found.fourcc, &fourcc('m', 'o', 'o', 'v')) {
            return Ok(found.payload);
        }
    }
    Err(invalid_format("invalid moov box"))
}

/// What to do next on the way to the `moov` box.
#[derive(Debug, Clone, Copy, PartialEq, Eq, Structural)]
pub enum MoovSearch {
    /// Read this many bytes from here: they are the box.
    Found { offset: u64, size: usize },
    /// Look at the header of the box that stands here.
    Continue { offset: u64 },
    /// There is no `moov` box to be found.
    Missing,
}

/// The next step, given the bytes that stand at the start of the top-level box
/// at `offset` (16 of them, or as many as the file still has).
pub open spec fn moov_search(header: Seq<u8>, offset: int, file_size: int) -> MoovSearch {
    match crate::mp4::boxes::header_at(header, 0) {
        None => MoovSearch::Missing,
        Some(facts) => if offset + facts.total_size > file_size {
            MoovSearch::Missing
        } else if facts.fourcc == crate::bytes::code('m', 'o', 'o', 'v') {
            MoovSearch::Found { offset: offset as u64, size: facts.total_size as usize }
        } else {
            MoovSearch::Continue { offset: (offset + facts.total_size) as u64 }
        },
    }
}

/// Decides the next step on the way to the `moov` box.
pub fn moov_search_step(header: &[u8], offset: u64, file_size: u64) -> (result: MoovSearch)
    ensures
        result == moov_search(header@, offset as int, file_size as int),
{
    match read_box_header(header, 0) {
        None => MoovSearch::Missing,
        Some(facts) => {
            let size: u64 = facts.total_size as u64;
            if size > file_size || offset > file_size - size {
                MoovSearch::Missing
            } else if bytes_equal(&facts.fourcc, &fourcc('m', 'o', 'o', 'v')) {
                MoovSearch::Found { offset, size: facts.total_size }
            } else {
                MoovSearch::Continue { offset: offset + size }
            }
        },
    }
}

/// The search goes forward and stays inside the file.
pub proof fn lemma_moov_search_progresses(header: Seq<u8>, offset: int, file_size: int)
    requires
        0 <= offset <= file_size <= u64::MAX,
    ensures
        match moov_search(header, offset, file_size) {
            MoovSearch::Found { offset: at, size } => at == offset && offset + size <= file_size,
            MoovSearch::Continue { offset: next } => offset < next <= file_size,
            MoovSearch::Missing => true,
        },
{
}

/// The number, the duration and the first flag of a track are read from where the
/// two versions of its header have them, four bytes or eight for the duration.
pub proof fn lemma_track_header_reads_back(tkhd: Seq<u8>, id: u32, duration: u64)
    ensures
        tkhd.len() >= 24 && tkhd[0] == 0 && duration <= u32::MAX && tkhd.subrange(12, 16)
            == crate::bytes::written32(id as int) && tkhd.subrange(20, 24)
            == crate::bytes::written32(duration as int) ==> (track_header(tkhd) matches Some(header)
            && header.id == id && header.duration == duration && (header.track_enabled <==> tkhd[3]
            % 2 == 1)),
        tkhd.len() >= 36 && tkhd[0] == 1 && tkhd.subrange(20, 24) == crate::bytes::written32(
            id as int,
        ) && tkhd.subrange(28, 36) == crate::bytes::written64(duration as int) ==> (track_header(
            tkhd,
        ) matches Some(header) && header.id == id && header.duration == duration && (
        header.track_enabled <==> tkhd[3] % 2 == 1)),
        tkhd.len() < 24 || tkhd[0] > 1 || tkhd[0] == 1 && tkhd.len() < 36 ==> track_header(tkhd)
            is None,
{
    crate::bytes::lemma_written_numbers_read_back(tkhd, 12, id as int);
    crate::bytes::lemma_written_numbers_read_back(tkhd, 20, id as int);
    crate::bytes::lemma_written_numbers_read_back(tkhd, 20, duration as int);
    crate::bytes::lemma_written_numbers_read_back(tkhd, 28, duration as int);
}

/// The timescale, the duration and the language of a track are read from where
/// the two versions of its media header have them.
pub proof fn lemma_media_header_reads_back(
    mdhd: Seq<u8>,
    timescale: u32,
    duration: u64,
    language: int,
)
    requires
        0 <= language < 0x1_0000,
    ensures
        mdhd.len() >= 22 && mdhd[0] == 0 && duration <= u32::MAX && mdhd.subrange(12, 16)
            == crate::bytes::written32(timescale as int) && mdhd.subrange(16, 20)
            == crate::bytes::written32(duration as int) && mdhd.subrange(20, 22)
            == crate::bytes::written16(language) ==> (media_header(mdhd) matches Some(header)
            && header.timescale == timescale && header.duration == duration && header.language
            == packed_language(language)),
        mdhd.len() >= 34 && mdhd[0] == 1 && mdhd.subrange(20, 24) == crate::bytes::written32(
            timescale as int,
        ) && mdhd.subrange(24, 32) == crate::bytes::written64(duration as int) && mdhd.subrange(
            32,
            34,
        ) == crate::bytes::written16(language) ==> (media_header(mdhd) matches Some(header)
            && header.timescale == timescale && header.duration == duration && header.language
            == packed_language(language)),
        mdhd.len() < 22 || mdhd[0] > 1 ==> media_header(mdhd) is None,
{
    crate::bytes::lemma_written_numbers_read_back(mdhd, 12, timescale as int);
    crate::bytes::lemma_written_numbers_read_back(mdhd, 16, duration as int);
    crate::bytes::lemma_written_numbers_read_back(mdhd, 20, language);
    crate::bytes::lemma_written_numbers_read_back(mdhd, 20, timescale as int);
    crate::bytes::lemma_written_numbers_read_back(mdhd, 24, duration as int);
    crate::bytes::lemma_written_numbers_read_back(mdhd, 32, language);
}

/// Three lower-case letters, packed into five bits each with `a` as one, are read
/// back in their order; a code with anything else in a place has no language.
pub proof fn lemma_language_reads_back(first: u8, second: u8, third: u8, packed: int)
    requires
        0 <= packed < 0x8000,
    ensures
        'a' as u8 <= first <= 'z' as u8 && 'a' as u8 <= second <= 'z' as u8 && 'a' as u8 <= third
            <= 'z' as u8 && packed == (first - 0x60) * 1024 + (second - 0x60) * 32 + (third - 0x60)
            ==> packed_language(packed) == Some(seq![first, second, third]),
        packed / 1024 == 0 || packed / 1024 > 26 || packed / 32 % 32 == 0 || packed / 32 % 32 > 26
            || packed % 32 == 0 || packed % 32 > 26 ==> packed_language(packed) is None,
{
    let letters = Seq::new(3, |i: int| (0x60 + packed_letter(packed, i)) as u8);
    if 'a' as u8 <= first <= 'z' as u8 && 'a' as u8 <= second <= 'z' as u8 && 'a' as u8 <= third
        <= 'z' as u8 && packed == (first - 0x60) * 1024 + (second - 0x60) * 32 + (third - 0x60) {
        assert(packed_letter(packed, 0) == first - 0x60);
        assert(packed_letter(packed, 1) == second - 0x60);
        assert(packed_letter(packed, 2) == third - 0x60);
        assert(letters =~= seq![first, second, third]);
    }
    if packed / 1024 == 0 || packed / 1024 > 26 {
        assert(!(1 <= packed_letter(packed, 0) <= 26));
    }
    if packed / 32 % 32 == 0 || packed / 32 % 32 > 26 {
        assert(!(1 <= packed_letter(packed, 1) <= 26));
    }
    if packed % 32 == 0 || packed % 32 > 26 {
        assert(!(1 <= packed_letter(packed, 2) <= 26));
    }
}

/// The handler of a track is the four bytes behind the first eight.
pub proof fn lemma_handler_reads_back(hdlr: Seq<u8>)
    ensures
        hdlr.len() >= 12 ==> (handler_type(hdlr) matches Some(handler) && handler.len() == 4
            && forall|i: int| 0 <= i < 4 ==> #[trigger] handler[i] == hdlr[i + 8]),
        hdlr.len() < 12 ==> handler_type(hdlr) is None,
{
}

/// The start of the one edit of a track is read from an edit list of either
/// version. A list of none or several edits has no start, nor has an empty edit,
/// one without a media time or one at another than the normal rate.
pub proof fn lemma_edit_reads_back(elst: Seq<u8>, edits: u32, segment: u64, start: u64, rate: u32)
    requires
        elst.len() >= 28,
        elst.subrange(4, 8) == crate::bytes::written32(edits as int),
    ensures
        elst[0] == 0 && segment <= u32::MAX && start <= u32::MAX && elst.subrange(8, 12)
            == crate::bytes::written32(segment as int) && elst.subrange(12, 16)
            == crate::bytes::written32(start as int) && elst.subrange(16, 20)
            == crate::bytes::written32(rate as int) ==> edit_media_time(elst) == if edits == 1
            && segment > 0 && start < 0x8000_0000 && rate == 0x0001_0000 {
            Some(start as int)
        } else {
            None
        },
        elst[0] == 1 && elst.subrange(8, 16) == crate::bytes::written64(segment as int)
            && elst.subrange(16, 24) == crate::bytes::written64(start as int) && elst.subrange(
            24,
            28,
        ) == crate::bytes::written32(rate as int) ==> edit_media_time(elst) == if edits == 1
            && segment > 0 && start < 0x8000_0000_0000_0000 && rate == 0x0001_0000 {
            Some(start as int)
        } else {
            None
        },
        elst[0] > 1 ==> edit_media_time(elst) is None,
{
    crate::bytes::lemma_written_numbers_read_back(elst, 4, edits as int);
    crate::bytes::lemma_written_numbers_read_back(elst, 8, segment as int);
    crate::bytes::lemma_written_numbers_read_back(elst, 12, start as int);
    crate::bytes::lemma_written_numbers_read_back(elst, 16, rate as int);
    crate::bytes::lemma_written_numbers_read_back(elst, 16, start as int);
    crate::bytes::lemma_written_numbers_read_back(elst, 24, rate as int);
}

/// A track is presented from the start of its edit on, and one without an edit
/// list from its own start on.
pub proof fn lemma_presentation_starts_at_the_edit(elst: Seq<u8>)
    requires
        elst.len() + 16 <= u32::MAX,
    ensures
        ({
            let edts = crate::bytes::code('e', 'd', 't', 's');
            let trak = crate::mp4::boxes::written_box(
                edts,
                crate::mp4::boxes::written_box(crate::bytes::code('e', 'l', 's', 't'), elst),
            );
            &&& presentation_offset(trak) == match edit_media_time(elst) {
                Some(start) => start,
                None => 0,
            }
            &&& presentation_offset(seq![]) == 0
        }),
{
    let edts = crate::bytes::code('e', 'd', 't', 's');
    let list = crate::bytes::code('e', 'l', 's', 't');
    crate::mp4::boxes::lemma_nested_box_is_found(edts, list, elst);
    assert(edit_list_path() =~= seq![edts, list]);
    assert(crate::mp4::boxes::boxes_from(Seq::<u8>::empty(), 0) =~= Seq::empty());
}

/// A `moov` box that was written is taken apart again, and no other box is taken
/// for one.
pub proof fn lemma_moov_reads_back(fourcc: Seq<u8>, payload: Seq<u8>)
    requires
        fourcc.len() == 4,
        payload.len() + 8 <= u32::MAX,
    ensures
        moov_payload(crate::mp4::boxes::written_box(fourcc, payload)) == if fourcc
            == crate::bytes::code('m', 'o', 'o', 'v') {
            Some(payload)
        } else {
            None
        },
{
    let moov = crate::mp4::boxes::written_box(fourcc, payload);
    crate::mp4::boxes::lemma_written_box_reads_back(seq![], fourcc, payload, seq![]);
    assert(Seq::<u8>::empty() + moov + Seq::<u8>::empty() =~= moov);
}

/// The search stops at a `moov` box that the file holds whole, and goes on behind
/// any other. A box that reaches beyond the file ends it.
pub proof fn lemma_moov_is_found_behind_other_boxes(
    header: Seq<u8>,
    fourcc: Seq<u8>,
    size: int,
    offset: int,
    file_size: int,
)
    requires
        header.len() >= 8,
        fourcc.len() == 4,
        8 <= size <= u32::MAX,
        0 <= offset <= file_size <= u64::MAX,
        header.subrange(0, 4) == crate::bytes::written32(size),
        header.subrange(4, 8) == fourcc,
    ensures
        moov_search(header, offset, file_size) == if offset + size > file_size {
            MoovSearch::Missing
        } else if fourcc == crate::bytes::code('m', 'o', 'o', 'v') {
            MoovSearch::Found { offset: offset as u64, size: size as usize }
        } else {
            MoovSearch::Continue { offset: (offset + size) as u64 }
        },
{
    crate::bytes::lemma_written_numbers_read_back(header, 0, size);
}

} // verus!
