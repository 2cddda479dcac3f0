//! Decoding the text of subtitle samples.

use vstd::prelude::*;
use vstd::slice::slice_subrange;

use crate::bytes::{bytes_equal, fourcc, read_u16_be};
use crate::errors::{other_error, subtitle_error, MediaParserError};
use crate::memory::{text_capacity, try_reserve_text};
use crate::mp4::boxes::read_box;
use crate::strings::text_equal;
use crate::unicode::{
    chars_len, chars_of, decode_utf16, text_len, trimmed_range, utf8_text, utf8_width,
};

verus! {

/// Why a sample gives no text.
#[derive(Debug)]
pub enum DecodeSampleError {
    /// The track cannot be decoded; others can.
    Track(MediaParserError),
    /// The request as a whole cannot go on.
    Fatal(MediaParserError),
}

/// What stands in the way of a sample's text.
pub enum TextFault {
    /// The sample breaks the rules of its coding.
    Invalid,
    /// The text may take up more than there is room for.
    Capacity,
    /// The coding is not known by this name.
    Unsupported(Seq<char>),
}

/// The longest name of an unknown coding that is repeated, in bytes.
pub const MAX_CODEC_IDENTIFIER_BYTES: usize = 16;

/// The least room that a growing text is given, in bytes.
pub const MIN_GROWTH: usize = 8;

/// The codings whose text can be decoded.
pub open spec fn is_supported(codec: Seq<char>) -> bool {
    codec == "tx3g"@ || codec == "wvtt"@ || codec == "stpp"@ || codec == "text"@
}

/// The trimmed text of UTF-16 bytes, behind a text of `used` bytes. Three
/// bytes are set aside for each code unit before any is decoded.
pub open spec fn utf16_segment(
    used: int,
    data: Seq<u8>,
    big_endian: bool,
    max: int,
) -> Result<Seq<char>, TextFault> {
    if data.len() % 2 != 0 {
        Err(TextFault::Invalid)
    } else if used + 3 * (data.len() / 2) > max {
        Err(TextFault::Capacity)
    } else {
        match crate::unicode::utf16_text(crate::unicode::code_units(data, big_endian)) {
            Some(text) => Ok(crate::unicode::trimmed(text)),
            None => Err(TextFault::Invalid),
        }
    }
}

/// The trimmed text of some bytes, behind a text of `used` bytes: UTF-16 where
/// a byte order mark says so, else UTF-8, else UTF-16 with the most
/// significant byte first.
pub open spec fn segment(used: int, data: Seq<u8>, max: int) -> Result<Seq<char>, TextFault> {
    if data.len() >= 2 && data[0] == 0xfe && data[1] == 0xff {
        utf16_segment(used, data.skip(2), true, max)
    } else if data.len() >= 2 && data[0] == 0xff && data[1] == 0xfe {
        utf16_segment(used, data.skip(2), false, max)
    } else if vstd::utf8::valid_utf8(data) {
        let text = crate::unicode::trimmed(vstd::utf8::decode_utf8(data));
        if text.len() > 0 && used + crate::unicode::byte_len(text) > max {
            Err(TextFault::Capacity)
        } else {
            Ok(text)
        }
    } else {
        utf16_segment(used, data, true, max)
    }
}

/// A text with the piece in some bytes behind it, on a line of its own where
/// `joined`.
pub open spec fn with_segment(
    text: Seq<char>,
    data: Seq<u8>,
    joined: bool,
    max: int,
) -> Result<Seq<char>, TextFault> {
    with_piece(text, segment(crate::unicode::byte_len(text), data, max), joined, max)
}

/// A text with another piece, if there is one, behind it.
pub open spec fn with_piece(
    text: Seq<char>,
    piece: Result<Seq<char>, TextFault>,
    joined: bool,
    max: int,
) -> Result<Seq<char>, TextFault> {
    match piece {
        Err(fault) => Err(fault),
        Ok(piece) => if piece.len() == 0 {
            Ok(text)
        } else if joined && text.len() > 0 {
            if crate::unicode::byte_len(text) + crate::unicode::byte_len(piece) + 1 > max {
                Err(TextFault::Capacity)
            } else {
                Ok(text.push('\n') + piece)
            }
        } else {
            Ok(text + piece)
        },
    }
}

/// The text with the payloads of all boxes `payl` from `at` on, where nothing
/// but whole boxes stands.
pub open spec fn with_payloads(data: Seq<u8>, at: int, text: Seq<char>, max: int) -> Result<
    Seq<char>,
    TextFault,
>
    decreases data.len() - at,
{
    if at >= data.len() {
        Ok(text)
    } else {
        match crate::mp4::boxes::box_at(data, at) {
            None => Err(TextFault::Invalid),
            Some(header) => {
                let longer = if header.fourcc == crate::bytes::code('p', 'a', 'y', 'l') {
                    with_segment(text, crate::mp4::boxes::payload_at(data, at), true, max)
                } else {
                    Ok(text)
                };
                match longer {
                    Ok(longer) => with_payloads(data, at + header.total_size, longer, max),
                    Err(fault) => Err(fault),
                }
            },
        }
    }
}

/// The text with the payloads of all boxes `payl` from `at` on, both of those
/// that stand there and of those inside boxes `vttc`.
pub open spec fn with_cues(data: Seq<u8>, at: int, text: Seq<char>, max: int) -> Result<
    Seq<char>,
    TextFault,
>
    decreases data.len() - at,
{
    if at >= data.len() {
        Ok(text)
    } else {
        match crate::mp4::boxes::box_at(data, at) {
            None => Err(TextFault::Invalid),
            Some(header) => {
                let payload = crate::mp4::boxes::payload_at(data, at);
                let longer = if header.fourcc == crate::bytes::code('p', 'a', 'y', 'l') {
                    with_segment(text, payload, true, max)
                } else if header.fourcc == crate::bytes::code('v', 't', 't', 'c') {
                    with_payloads(payload, 0, text, max)
                } else {
                    Ok(text)
                };
                match longer {
                    Ok(longer) => with_cues(data, at + header.total_size, longer, max),
                    Err(fault) => Err(fault),
                }
            },
        }
    }
}

/// The text of a sample in one of the supported codings.
pub open spec fn sample_text(codec: Seq<char>, data: Seq<u8>, max: int) -> Result<
    Seq<char>,
    TextFault,
> {
    if codec == "wvtt"@ {
        with_cues(data, 0, seq![], max)
    } else if codec == "stpp"@ {
        with_segment(seq![], data, false, max)
    } else if data.len() >= 2 && 2 + crate::bytes::be16(data, 0) <= data.len() {
        with_segment(seq![], data.subrange(2, 2 + crate::bytes::be16(data, 0)), false, max)
    } else {
        Err(TextFault::Invalid)
    }
}

/// What memory some bytes ask for when their text is decoded.
pub enum TextNeed {
    /// None: they hold no text.
    Nothing,
    /// Room for a text.
    Room,
    /// None: they break the rules before any text.
    Broken,
}

/// What memory UTF-16 bytes ask for. Room is set aside before they are decoded.
pub open spec fn utf16_need(data: Seq<u8>) -> TextNeed {
    if data.len() % 2 != 0 {
        TextNeed::Broken
    } else if data.len() == 0 {
        TextNeed::Nothing
    } else {
        TextNeed::Room
    }
}

/// What memory a piece of text asks for.
pub open spec fn segment_need(data: Seq<u8>) -> TextNeed {
    if data.len() >= 2 && (data[0] == 0xfe && data[1] == 0xff || data[0] == 0xff && data[1]
        == 0xfe) {
        utf16_need(data.skip(2))
    } else if vstd::utf8::valid_utf8(data) {
        if crate::unicode::trimmed(vstd::utf8::decode_utf8(data)).len() == 0 {
            TextNeed::Nothing
        } else {
            TextNeed::Room
        }
    } else {
        utf16_need(data)
    }
}

/// What memory the boxes `payl` from `at` on ask for.
pub open spec fn payloads_need(data: Seq<u8>, at: int) -> TextNeed
    decreases data.len() - at,
{
    if at >= data.len() {
        TextNeed::Nothing
    } else {
        match crate::mp4::boxes::box_at(data, at) {
            None => TextNeed::Broken,
            Some(header) => {
                let need = if header.fourcc == crate::bytes::code('p', 'a', 'y', 'l') {
                    segment_need(crate::mp4::boxes::payload_at(data, at))
                } else {
                    TextNeed::Nothing
                };
                match need {
                    TextNeed::Nothing => payloads_need(data, at + header.total_size),
                    _ => need,
                }
            },
        }
    }
}

/// What memory the boxes of a WebVTT sample from `at` on ask for.
pub open spec fn cues_need(data: Seq<u8>, at: int) -> TextNeed
    decreases data.len() - at,
{
    if at >= data.len() {
        TextNeed::Nothing
    } else {
        match crate::mp4::boxes::box_at(data, at) {
            None => TextNeed::Broken,
            Some(header) => {
                let payload = crate::mp4::boxes::payload_at(data, at);
                let need = if header.fourcc == crate::bytes::code('p', 'a', 'y', 'l') {
                    segment_need(payload)
                } else if header.fourcc == crate::bytes::code('v', 't', 't', 'c') {
                    payloads_need(payload, 0)
                } else {
                    TextNeed::Nothing
                };
                match need {
                    TextNeed::Nothing => cues_need(data, at + header.total_size),
                    _ => need,
                }
            },
        }
    }
}

/// What memory the text of a sample in one of the supported codings asks for.
pub open spec fn sample_need(codec: Seq<char>, data: Seq<u8>) -> TextNeed {
    if codec == "wvtt"@ {
        cues_need(data, 0)
    } else if codec == "stpp"@ {
        segment_need(data)
    } else if data.len() >= 2 && 2 + crate::bytes::be16(data, 0) <= data.len() {
        segment_need(data.subrange(2, 2 + crate::bytes::be16(data, 0)))
    } else {
        TextNeed::Broken
    }
}

/// Whether decoding a sample asks for memory: for its text, or for the name of
/// a coding that is not supported.
pub open spec fn needs_room(codec: Seq<char>, data: Seq<u8>) -> bool {
    if is_supported(codec) {
        sample_need(codec, data) is Room
    } else {
        codec.len() > 0
    }
}

proof fn lemma_broken_payloads(data: Seq<u8>, at: int, text: Seq<char>, max: int)
    requires
        payloads_need(data, at) is Broken,
    ensures
        with_payloads(data, at, text, max) is Err,
    decreases data.len() - at,
{
    if at < data.len() {
        if let Some(header) = crate::mp4::boxes::box_at(data, at) {
            let payload = crate::mp4::boxes::payload_at(data, at);
            let longer = if header.fourcc == crate::bytes::code('p', 'a', 'y', 'l') {
                with_segment(text, payload, true, max)
            } else {
                Ok(text)
            };
            if let Ok(longer) = longer {
                lemma_broken_payloads(data, at + header.total_size, longer, max);
            }
        }
    }
}

/// The most bytes of text that a sample may need.
pub open spec fn natural_ceiling(data: Seq<u8>) -> int {
    3 * data.len() as int
}

/// The longest beginning of a text that takes up `limit` bytes at most.
pub open spec fn fitting_prefix(text: Seq<char>, limit: int) -> Seq<char>
    decreases text.len(),
{
    if text.len() == 0 || crate::unicode::char_width(text[0]) > limit {
        seq![]
    } else {
        seq![text[0]] + fitting_prefix(
            text.drop_first(),
            limit - crate::unicode::char_width(text[0]),
        )
    }
}

/// What decoding a sample gives: a text, or nothing where it is empty.
pub open spec fn decoded(codec: Seq<char>, data: Seq<u8>, limit: Option<usize>) -> Result<
    Option<Seq<char>>,
    TextFault,
> {
    if !is_supported(codec) {
        let identifier = fitting_prefix(codec, MAX_CODEC_IDENTIFIER_BYTES as int);
        if limit is Some && crate::unicode::byte_len(identifier) > limit->Some_0 {
            Err(TextFault::Capacity)
        } else {
            Err(TextFault::Unsupported(identifier))
        }
    } else if natural_ceiling(data) > usize::MAX {
        Err(TextFault::Capacity)
    } else {
        let max = if limit is Some && limit->Some_0 < natural_ceiling(data) {
            limit->Some_0 as int
        } else {
            natural_ceiling(data)
        };
        match sample_text(codec, data, max) {
            Ok(text) => Ok(
                if text.len() == 0 {
                    None
                } else {
                    Some(text)
                },
            ),
            Err(fault) => Err(fault),
        }
    }
}

/// Whether an error is the one for a sample that breaks its rules.
pub open spec fn reports_invalid(error: DecodeSampleError) -> bool {
    match error {
        DecodeSampleError::Track(error) => error@ == crate::errors::ErrorView::SubtitleError(
            "invalid MP4 subtitle sample"@,
        ),
        DecodeSampleError::Fatal(_) => false,
    }
}

/// Whether an error is the one for a text without room.
pub open spec fn reports_capacity(error: DecodeSampleError) -> bool {
    match error {
        DecodeSampleError::Track(_) => false,
        DecodeSampleError::Fatal(error) => error@ == crate::errors::ErrorView::Other(
            "MP4 subtitle text capacity exceeded"@,
        ),
    }
}

/// Whether an error may be reported for a fault. Where the room for the text is
/// not `granted` yet, the allocator may refuse it, which is reported like a text
/// beyond its limit, whatever the sample holds.
pub open spec fn reports(
    error: DecodeSampleError,
    fault: Option<TextFault>,
    granted: bool,
) -> bool {
    ||| (fault == Some(TextFault::Capacity) || !granted) && reports_capacity(error)
    ||| fault == Some(TextFault::Invalid) && reports_invalid(error)
    ||| match (fault, error) {
        (
            Some(TextFault::Unsupported(identifier)),
            DecodeSampleError::Track(error),
        ) => error@ == crate::errors::ErrorView::UnsupportedCodec(identifier),
        _ => false,
    }
}

pub open spec fn fault_of<T>(expected: Result<T, TextFault>) -> Option<TextFault> {
    match expected {
        Ok(_) => None,
        Err(fault) => Some(fault),
    }
}

pub open spec fn text_view(text: Option<String>) -> Option<Seq<char>> {
    match text {
        Some(text) => Some(text@),
        None => None,
    }
}

fn invalid_subtitle() -> (result: DecodeSampleError)
    ensures
        reports_invalid(result),
{
    DecodeSampleError::Track(subtitle_error("invalid MP4 subtitle sample"))
}

fn capacity_error() -> (result: DecodeSampleError)
    ensures
        reports_capacity(result),
{
    DecodeSampleError::Fatal(other_error("MP4 subtitle text capacity exceeded"))
}

/// Whether the text of a coding can be decoded.
pub fn supported_codec(codec: &str) -> (result: bool)
    ensures
        result == is_supported(codec@),
{
    text_equal(codec, "tx3g") || text_equal(codec, "wvtt") || text_equal(codec, "stpp")
        || text_equal(codec, "text")
}

/// Whether the allocator was asked for room no more often than a text needs
/// whose room doubles from `MIN_GROWTH` bytes on and stays below `limit` before
/// the last time.
pub open spec fn few_reservations(reservations: int, limit: int) -> bool {
    reservations <= 1 || vstd::arithmetic::power2::pow2((reservations + 1) as nat) < limit
}

/// A text that grows up to a limit, in steps that double its room. It asks the
/// allocator for nothing while the room it was granted suffices.
pub struct TextBuilder {
    text: String,
    max_capacity: usize,
    room: usize,
    reservations: usize,
}

impl TextBuilder {
    pub closed spec fn content(self) -> Seq<char> {
        self.text@
    }

    pub closed spec fn limit(self) -> int {
        self.max_capacity as int
    }

    /// Whether the text has room up to its limit.
    pub closed spec fn is_granted(self) -> bool {
        self.room >= self.max_capacity
    }

    /// How often the allocator was asked for room.
    pub closed spec fn reservations(self) -> int {
        self.reservations as int
    }

    /// Whether the room has at least doubled with each time that the allocator
    /// was asked for it, up to the limit.
    pub closed spec fn grows_by_doubling(self) -> bool {
        self.reservations > 0 ==> {
            &&& self.is_granted() || self.room >= vstd::arithmetic::power2::pow2(
                (self.reservations + 2) as nat,
            )
            &&& few_reservations(self.reservations as int, self.max_capacity as int)
        }
    }

    pub fn new(max_capacity: usize) -> (result: Self)
        ensures
            result.content() == Seq::<char>::empty(),
            result.limit() == max_capacity,
            max_capacity == 0 ==> result.is_granted(),
            result.reservations() == 0,
            result.grows_by_doubling(),
    {
        TextBuilder { text: String::new(), max_capacity, room: 0, reservations: 0 }
    }

    /// An empty text that has room up to its limit, if the allocator grants it.
    pub fn with_room(max_capacity: usize) -> (result: Option<Self>)
        ensures
            result matches Some(builder) ==> builder.content() == Seq::<char>::empty()
                && builder.limit() == max_capacity && builder.is_granted()
                && builder.reservations() == 1 && builder.grows_by_doubling(),
            max_capacity == 0 ==> result is Some,
    {
        let mut text = String::new();
        if try_reserve_text(&mut text, max_capacity) {
            assert(text@ =~= Seq::<char>::empty());
            Some(TextBuilder { text, max_capacity, room: max_capacity, reservations: 1 })
        } else {
            None
        }
    }

    /// The bytes that the text takes up.
    pub fn len(&self) -> (result: usize)
        ensures
            result == crate::unicode::byte_len(self.content()),
    {
        text_len(self.text.as_str())
    }

    /// How often the allocator was asked for room.
    pub fn reservation_count(&self) -> (result: usize)
        ensures
            result == self.reservations(),
            self.grows_by_doubling() ==> few_reservations(result as int, self.limit()),
    {
        self.reservations
    }

    /// The text, unless it is empty.
    pub fn finish(self) -> (result: Option<String>)
        ensures
            text_view(result) == if self.content().len() == 0 {
                None
            } else {
                Some(self.content())
            },
    {
        proof {
            lemma_nonempty_has_bytes(self.content());
        }
        if self.len() == 0 {
            None
        } else {
            Some(self.text)
        }
    }

    /// Makes room for `additional` bytes behind the text.
    fn reserve(&mut self, additional: usize) -> (result: Result<(), DecodeSampleError>)
        ensures
            final(self).content() == old(self).content(),
            final(self).limit() == old(self).limit(),
            old(self).is_granted() ==> final(self).is_granted() && final(self).reservations()
                == old(self).reservations(),
            old(self).grows_by_doubling() && result is Ok ==> final(self).grows_by_doubling(),
            additional == 0 ==> final(self).reservations() == old(self).reservations(),
            match result {
                Ok(_) => crate::unicode::byte_len(old(self).content()) + additional <= old(
                    self,
                ).limit(),
                Err(error) => reports_capacity(error) && (old(self).is_granted() || additional == 0
                    ==> crate::unicode::byte_len(old(self).content()) + additional > old(
                    self,
                ).limit()),
            },
    {
        let length: usize = text_len(self.text.as_str());
        let target: usize = match length.checked_add(additional) {
            Some(target) => target,
            None => {
                return Err(capacity_error());
            },
        };
        if target > self.max_capacity {
            return Err(capacity_error());
        }
        if self.room >= target {
            return Ok(());
        }
        let capacity: usize = text_capacity(&self.text);
        if capacity >= target {
            self.room = capacity;
            return Ok(());
        }
        let capacity: usize = if capacity > self.room { capacity } else { self.room };
        let doubled: usize = match capacity.checked_mul(2) {
            Some(doubled) => doubled,
            None => self.max_capacity,
        };
        let mut desired: usize = if doubled > MIN_GROWTH { doubled } else { MIN_GROWTH };
        if target > desired {
            desired = target;
        }
        if desired > self.max_capacity {
            desired = self.max_capacity;
        }
        proof {
            lemma_doubled(self.reservations as int, self.max_capacity as int);
        }
        self.reservations = self.reservations.saturating_add(1);
        if try_reserve_text(&mut self.text, desired - length) {
            self.room = desired;
            Ok(())
        } else {
            Err(capacity_error())
        }
    }

    /// Puts the text of some bytes behind the text that is there, on a line of
    /// its own where `joined`, and says whether there was any.
    pub fn append_decoded(&mut self, data: &[u8], joined: bool) -> (result: Result<
        bool,
        DecodeSampleError,
    >)
        ensures
            final(self).limit() == old(self).limit(),
            old(self).is_granted() ==> final(self).is_granted() && final(self).reservations()
                == old(self).reservations(),
            old(self).grows_by_doubling() && result is Ok ==> final(self).grows_by_doubling(),
            !(segment_need(data@) is Room) ==> final(self).reservations() == old(self).reservations(),
            ({
                let expected = with_segment(old(self).content(), data@, joined, old(self).limit());
                match result {
                    Ok(_) => expected == Ok::<Seq<char>, TextFault>(final(self).content()),
                    Err(error) => reports(
                        error,
                        fault_of(expected),
                        old(self).is_granted() || !(segment_need(data@) is Room),
                    ),
                }
            }),
            result matches Ok(appended) ==> appended == (final(self).content() != old(
                self,
            ).content()),
    {
        if data.len() >= 2 && data[0] == 0xfe && data[1] == 0xff {
            let rest = slice_subrange(data, 2, data.len());
            assert(rest@ =~= data@.skip(2));
            return self.append_utf16(rest, true, joined);
        }
        if data.len() >= 2 && data[0] == 0xff && data[1] == 0xfe {
            let rest = slice_subrange(data, 2, data.len());
            assert(rest@ =~= data@.skip(2));
            return self.append_utf16(rest, false, joined);
        }
        match utf8_text(data) {
            Some(text) => {
                let chars = chars_of(text);
                let (start, end) = trimmed_range(chars.as_slice());
                let piece = slice_subrange(chars.as_slice(), start, end);
                if piece.len() == 0 {
                    return Ok(false);
                }
                let length: u128 = chars_len(piece);
                if length > usize::MAX as u128 {
                    return Err(capacity_error());
                }
                self.reserve(length as usize)?;
                self.append_piece(piece, joined)
            },
            None => self.append_utf16(data, true, joined),
        }
    }

    fn append_utf16(&mut self, data: &[u8], big_endian: bool, joined: bool) -> (result: Result<
        bool,
        DecodeSampleError,
    >)
        ensures
            final(self).limit() == old(self).limit(),
            old(self).is_granted() ==> final(self).is_granted() && final(self).reservations()
                == old(self).reservations(),
            old(self).grows_by_doubling() && result is Ok ==> final(self).grows_by_doubling(),
            !(utf16_need(data@) is Room) ==> final(self).reservations() == old(self).reservations(),
            ({
                let expected = with_piece(
                    old(self).content(),
                    utf16_segment(
                        crate::unicode::byte_len(old(self).content()),
                        data@,
                        big_endian,
                        old(self).limit(),
                    ),
                    joined,
                    old(self).limit(),
                );
                match result {
                    Ok(_) => expected == Ok::<Seq<char>, TextFault>(final(self).content()),
                    Err(error) => reports(
                        error,
                        fault_of(expected),
                        old(self).is_granted() || !(utf16_need(data@) is Room),
                    ),
                }
            }),
            result matches Ok(appended) ==> appended == (final(self).content() != old(
                self,
            ).content()),
    {
        if data.len() % 2 != 0 {
            return Err(invalid_subtitle());
        }
        let conservative: usize = match (data.len() / 2).checked_mul(3) {
            Some(conservative) => conservative,
            None => {
                return Err(capacity_error());
            },
        };
        self.reserve(conservative)?;
        match decode_utf16(data, big_endian) {
            Some(chars) => {
                let (start, end) = trimmed_range(chars.as_slice());
                let piece = slice_subrange(chars.as_slice(), start, end);
                if piece.len() == 0 {
                    return Ok(false);
                }
                proof {
                    crate::unicode::lemma_utf16_text_fits(
                        crate::unicode::code_units(data@, big_endian),
                    );
                    crate::unicode::lemma_trimmed_fits(chars@);
                }
                self.append_piece(piece, joined)
            },
            None => Err(invalid_subtitle()),
        }
    }

    /// Puts a piece that there is room for behind the text.
    fn append_piece(&mut self, piece: &[char], joined: bool) -> (result: Result<
        bool,
        DecodeSampleError,
    >)
        requires
            piece@.len() > 0,
            crate::unicode::byte_len(old(self).content()) + crate::unicode::byte_len(piece@)
                <= old(self).limit(),
        ensures
            final(self).limit() == old(self).limit(),
            old(self).is_granted() ==> final(self).is_granted() && final(self).reservations()
                == old(self).reservations(),
            old(self).grows_by_doubling() && result is Ok ==> final(self).grows_by_doubling(),
            ({
                let expected = with_piece(
                    old(self).content(),
                    Ok(piece@),
                    joined,
                    old(self).limit(),
                );
                match result {
                    Ok(appended) => {
                        &&& appended
                        &&& expected == Ok::<Seq<char>, TextFault>(final(self).content())
                        &&& final(self).content() != old(self).content()
                    },
                    Err(error) => reports(error, fault_of(expected), old(self).is_granted()),
                }
            }),
    {
        let ghost before = self.text@;
        let ghost limit = self.limit();
        if joined && self.len() > 0 {
            let length: u128 = chars_len(piece);
            assert(length < usize::MAX);
            self.reserve(length as usize + 1)?;
            self.text.push('\n');
        }
        let ghost head = self.text@;
        let mut index: usize = 0;
        assert(head + piece@.take(0) =~= head);
        while index < piece.len()
            invariant
                index <= piece.len(),
                self.text@ == head + piece@.take(index as int),
                self.limit() == limit,
                old(self).is_granted() ==> self.is_granted() && self.reservations() == old(
                    self,
                ).reservations(),
                old(self).grows_by_doubling() ==> self.grows_by_doubling(),
            decreases piece.len() - index,
        {
            self.text.push(piece[index]);
            assert(head + piece@.take(index + 1) =~= (head + piece@.take(index as int)).push(
                piece@[index as int],
            ));
            index += 1;
        }
        assert(piece@.take(piece@.len() as int) =~= piece@);
        assert(self.text@.len() > before.len());
        proof {
            lemma_nonempty_has_bytes(before);
        }
        Ok(true)
    }
}

/// Doubling the room keeps up with the count, and the count stays far below the
/// largest number.
proof fn lemma_doubled(reservations: int, limit: int)
    requires
        0 <= reservations,
        limit <= usize::MAX,
    ensures
        vstd::arithmetic::power2::pow2((reservations + 3) as nat)
            == 2 * vstd::arithmetic::power2::pow2((reservations + 2) as nat),
        vstd::arithmetic::power2::pow2(3) == MIN_GROWTH,
        few_reservations(reservations, limit) ==> reservations < usize::MAX,
{
    vstd::arithmetic::power2::lemma_pow2_unfold((reservations + 3) as nat);
    vstd::arithmetic::power2::lemma2_to64();
    if 64 < reservations + 1 {
        vstd::arithmetic::power2::lemma_pow2_strictly_increases(64, (reservations + 1) as nat);
    }
}

proof fn lemma_nonempty_has_bytes(text: Seq<char>)
    ensures
        crate::unicode::byte_len(text) == 0 <==> text.len() == 0,
{
    if text.len() > 0 {
        crate::unicode::lemma_char_width(text[0]);
    }
}

/// Puts the payloads of all boxes `payl` behind the text.
fn append_payloads(data: &[u8], output: &mut TextBuilder) -> (result: Result<
    (),
    DecodeSampleError,
>)
    ensures
        final(output).limit() == old(output).limit(),
        old(output).is_granted() ==> final(output).is_granted() && final(output).reservations()
            == old(output).reservations(),
        old(output).grows_by_doubling() && result is Ok ==> final(output).grows_by_doubling(),
        !(payloads_need(data@, 0) is Room) ==> final(output).reservations() == old(output).reservations(),
        ({
            let expected = with_payloads(data@, 0, old(output).content(), old(output).limit());
            match result {
                Ok(_) => expected == Ok::<Seq<char>, TextFault>(final(output).content()),
                Err(error) => reports(
                    error,
                    fault_of(expected),
                    old(output).is_granted() || !(payloads_need(data@, 0) is Room),
                ),
            }
        }),
{
    let payl = fourcc('p', 'a', 'y', 'l');
    let ghost max = output.limit();
    let ghost expected = with_payloads(data@, 0, output.content(), max);
    let mut offset: usize = 0;
    while offset < data.len()
        invariant
            offset <= data.len(),
            payl@ == crate::bytes::code('p', 'a', 'y', 'l'),
            max == old(output).limit(),
            output.limit() == max,
            old(output).is_granted() ==> output.is_granted() && output.reservations() == old(
                output,
            ).reservations(),
            old(output).grows_by_doubling() ==> output.grows_by_doubling(),
            expected == with_payloads(data@, 0, old(output).content(), max),
            expected == with_payloads(data@, offset as int, output.content(), max),
            payloads_need(data@, offset as int) is Room ==> payloads_need(data@, 0) is Room,
            !(payloads_need(data@, 0) is Room) ==> output.reservations() == old(
                output,
            ).reservations(),
        decreases data.len() - offset,
    {
        let found = match read_box(data, offset) {
            Some(found) => found,
            None => {
                return Err(invalid_subtitle());
            },
        };
        if bytes_equal(found.fourcc.as_slice(), payl.as_slice()) {
            output.append_decoded(found.payload, true)?;
        }
        offset += found.total_size;
    }
    Ok(())
}

/// Puts the payloads of a WebVTT sample behind the text.
fn decode_wvtt(data: &[u8], output: &mut TextBuilder) -> (result: Result<(), DecodeSampleError>)
    ensures
        final(output).limit() == old(output).limit(),
        old(output).is_granted() ==> final(output).is_granted() && final(output).reservations()
            == old(output).reservations(),
        old(output).grows_by_doubling() && result is Ok ==> final(output).grows_by_doubling(),
        !(cues_need(data@, 0) is Room) ==> final(output).reservations() == old(output).reservations(),
        ({
            let expected = with_cues(data@, 0, old(output).content(), old(output).limit());
            match result {
                Ok(_) => expected == Ok::<Seq<char>, TextFault>(final(output).content()),
                Err(error) => reports(
                    error,
                    fault_of(expected),
                    old(output).is_granted() || !(cues_need(data@, 0) is Room),
                ),
            }
        }),
{
    let payl = fourcc('p', 'a', 'y', 'l');
    let vttc = fourcc('v', 't', 't', 'c');
    let ghost max = output.limit();
    let ghost expected = with_cues(data@, 0, output.content(), max);
    let mut offset: usize = 0;
    while offset < data.len()
        invariant
            offset <= data.len(),
            payl@ == crate::bytes::code('p', 'a', 'y', 'l'),
            vttc@ == crate::bytes::code('v', 't', 't', 'c'),
            max == old(output).limit(),
            output.limit() == max,
            old(output).is_granted() ==> output.is_granted() && output.reservations() == old(
                output,
            ).reservations(),
            old(output).grows_by_doubling() ==> output.grows_by_doubling(),
            expected == with_cues(data@, 0, old(output).content(), max),
            expected == with_cues(data@, offset as int, output.content(), max),
            cues_need(data@, offset as int) is Room ==> cues_need(data@, 0) is Room,
            !(cues_need(data@, 0) is Room) ==> output.reservations() == old(
                output,
            ).reservations(),
        decreases data.len() - offset,
    {
        let found = match read_box(data, offset) {
            Some(found) => found,
            None => {
                return Err(invalid_subtitle());
            },
        };
        if bytes_equal(found.fourcc.as_slice(), payl.as_slice()) {
            output.append_decoded(found.payload, true)?;
        } else if bytes_equal(found.fourcc.as_slice(), vttc.as_slice()) {
            proof {
                if payloads_need(found.payload@, 0) is Broken {
                    lemma_broken_payloads(found.payload@, 0, output.content(), max);
                }
            }
            append_payloads(found.payload, output)?;
        }
        offset += found.total_size;
    }
    Ok(())
}

/// Puts the text of a sample in a supported coding into an empty text.
pub fn decode_supported_sample(codec: &str, data: &[u8], output: &mut TextBuilder) -> (result:
    Result<(), DecodeSampleError>)
    requires
        is_supported(codec@),
        old(output).content() == Seq::<char>::empty(),
    ensures
        final(output).limit() == old(output).limit(),
        old(output).is_granted() ==> final(output).is_granted() && final(output).reservations()
            == old(output).reservations(),
        old(output).grows_by_doubling() && result is Ok ==> final(output).grows_by_doubling(),
        !(sample_need(codec@, data@) is Room) ==> final(output).reservations() == old(output).reservations(),
        ({
            let expected = sample_text(codec@, data@, old(output).limit());
            match result {
                Ok(_) => expected == Ok::<Seq<char>, TextFault>(final(output).content()),
                Err(error) => reports(
                    error,
                    fault_of(expected),
                    old(output).is_granted() || !(sample_need(codec@, data@) is Room),
                ),
            }
        }),
{
    if text_equal(codec, "wvtt") {
        return decode_wvtt(data, output);
    }
    if text_equal(codec, "stpp") {
        output.append_decoded(data, false)?;
        return Ok(());
    }
    let declared_length: usize = match read_u16_be(data, 0) {
        Some(length) => length as usize,
        None => {
            return Err(invalid_subtitle());
        },
    };
    if declared_length > data.len() - 2 {
        return Err(invalid_subtitle());
    }
    output.append_decoded(slice_subrange(data, 2, 2 + declared_length), false)?;
    Ok(())
}

/// An empty text with the room that a sample may need, within a limit.
fn sample_text_builder(data: &[u8], capacity_limit: Option<usize>) -> (result: Result<
    TextBuilder,
    DecodeSampleError,
>)
    ensures
        match result {
            Ok(output) => {
                &&& natural_ceiling(data@) <= usize::MAX
                &&& output.content() == Seq::<char>::empty()
                &&& output.reservations() == 0
                &&& output.grows_by_doubling()
                &&& output.limit() == if capacity_limit is Some && capacity_limit->Some_0
                    < natural_ceiling(data@) {
                    capacity_limit->Some_0 as int
                } else {
                    natural_ceiling(data@)
                }
            },
            Err(error) => natural_ceiling(data@) > usize::MAX && reports_capacity(error),
        },
{
    let ceiling: usize = match data.len().checked_mul(3) {
        Some(ceiling) => ceiling,
        None => {
            return Err(capacity_error());
        },
    };
    let max_capacity: usize = match capacity_limit {
        Some(limit) if limit < ceiling => limit,
        _ => ceiling,
    };
    Ok(TextBuilder::new(max_capacity))
}

/// The error that names a coding which is not supported.
fn unsupported_codec(codec: &str, capacity_limit: Option<usize>) -> (result: DecodeSampleError)
    requires
        !is_supported(codec@),
    ensures
        reports(
            result,
            fault_of(decoded(codec@, Seq::<u8>::empty(), capacity_limit)),
            codec@.len() == 0,
        ),
{
    let chars = chars_of(codec);
    let mut end: usize = 0;
    let mut count: usize = 0;
    let ghost whole = fitting_prefix(codec@, MAX_CODEC_IDENTIFIER_BYTES as int);
    assert(codec@.skip(0) =~= codec@);
    assert(codec@.take(0) + whole =~= whole);
    while count < chars.len() && end + utf8_width(chars[count]) <= MAX_CODEC_IDENTIFIER_BYTES
        invariant
            chars@ == codec@,
            count <= chars.len(),
            end <= MAX_CODEC_IDENTIFIER_BYTES,
            end == crate::unicode::byte_len(codec@.take(count as int)),
            whole == codec@.take(count as int) + fitting_prefix(
                codec@.skip(count as int),
                MAX_CODEC_IDENTIFIER_BYTES - end,
            ),
        decreases chars.len() - count,
    {
        proof {
            let here = codec@.skip(count as int);
            assert(here.drop_first() =~= codec@.skip(count + 1));
            assert(codec@.take(count + 1) =~= codec@.take(count as int).push(
                codec@[count as int],
            ));
            crate::unicode::lemma_byte_len_pushed(codec@.take(count as int), codec@[count as int]);
            let rest = fitting_prefix(
                codec@.skip(count + 1),
                MAX_CODEC_IDENTIFIER_BYTES - end - crate::unicode::char_width(codec@[count as int]),
            );
            assert(codec@.take(count as int) + (seq![codec@[count as int]] + rest)
                =~= codec@.take(count + 1) + rest);
        }
        end += utf8_width(chars[count]);
        count += 1;
    }
    assert(whole =~= codec@.take(count as int));
    match capacity_limit {
        Some(limit) if end > limit => {
            return capacity_error();
        },
        _ => {},
    }
    let mut identifier = String::new();
    if !try_reserve_text(&mut identifier, end) {
        return capacity_error();
    }
    let mut index: usize = 0;
    assert(identifier@ =~= codec@.take(0));
    while index < count
        invariant
            chars@ == codec@,
            index <= count <= chars.len(),
            identifier@ == codec@.take(index as int),
        decreases count - index,
    {
        assert(codec@.take(index + 1) =~= codec@.take(index as int).push(codec@[index as int]));
        identifier.push(chars[index]);
        index += 1;
    }
    DecodeSampleError::Track(MediaParserError::UnsupportedCodec(identifier))
}

fn decode_sample_bounded(codec: &str, data: &[u8], capacity_limit: Option<usize>) -> (result:
    Result<Option<String>, DecodeSampleError>)
    ensures
        ({
            let expected = decoded(codec@, data@, capacity_limit);
            match result {
                Ok(text) => expected == Ok::<Option<Seq<char>>, TextFault>(text_view(text)),
                Err(error) => reports(
                    error,
                    fault_of(expected),
                    !needs_room(codec@, data@),
                ),
            }
        }),
{
    if !supported_codec(codec) {
        return Err(unsupported_codec(codec, capacity_limit));
    }
    let mut output = sample_text_builder(data, capacity_limit)?;
    decode_supported_sample(codec, data, &mut output)?;
    Ok(output.finish())
}

/// Decodes the text of a sample; an empty text is a gap between cues.
pub fn decode_sample(codec: &str, data: &[u8]) -> (result: Result<
    Option<String>,
    DecodeSampleError,
>)
    ensures
        ({
            let expected = decoded(codec@, data@, None);
            match result {
                Ok(text) => expected == Ok::<Option<Seq<char>>, TextFault>(text_view(text)),
                Err(error) => reports(
                    error,
                    fault_of(expected),
                    !needs_room(codec@, data@),
                ),
            }
        }),
{
    decode_sample_bounded(codec, data, None)
}

/// Decodes the text of a sample into `max_capacity` bytes at most.
pub fn decode_sample_with_limit(codec: &str, data: &[u8], max_capacity: usize) -> (result: Result<
    Option<String>,
    DecodeSampleError,
>)
    ensures
        ({
            let expected = decoded(codec@, data@, Some(max_capacity));
            match result {
                Ok(text) => expected == Ok::<Option<Seq<char>>, TextFault>(text_view(text)),
                Err(error) => reports(
                    error,
                    fault_of(expected),
                    !needs_room(codec@, data@),
                ),
            }
        }),
{
    decode_sample_bounded(codec, data, Some(max_capacity))
}

/// Decodes the text of a sample in a supported coding, and says how often the
/// allocator was asked for room. How often depends on what it grants, but the
/// room doubles from one time to the next, whatever pieces the text comes in.
pub fn decode_sample_with_reservation_count(codec: &str, data: &[u8]) -> (result: Result<
    (Option<String>, usize),
    DecodeSampleError,
>)
    requires
        is_supported(codec@),
    ensures
        ({
            let expected = decoded(codec@, data@, None);
            match result {
                Ok((text, reservations)) => {
                    &&& expected == Ok::<Option<Seq<char>>, TextFault>(text_view(text))
                    &&& few_reservations(reservations as int, natural_ceiling(data@))
                    &&& !needs_room(codec@, data@) ==> reservations == 0
                },
                Err(error) => reports(
                    error,
                    fault_of(expected),
                    !needs_room(codec@, data@),
                ),
            }
        }),
{
    let mut output = sample_text_builder(data, None)?;
    decode_supported_sample(codec, data, &mut output)?;
    let reservation_count: usize = output.reservation_count();
    Ok((output.finish(), reservation_count))
}

proof fn lemma_segment_fits(used: int, data: Seq<u8>, max: int)
    requires
        used + 2 * data.len() <= max,
    ensures
        match segment(used, data, max) {
            Ok(piece) => crate::unicode::byte_len(piece) <= 2 * data.len(),
            Err(fault) => fault != TextFault::Capacity,
        },
{
    let rest = data.skip(2);
    crate::unicode::lemma_utf16_text_fits(crate::unicode::code_units(rest, true));
    crate::unicode::lemma_utf16_text_fits(crate::unicode::code_units(rest, false));
    crate::unicode::lemma_utf16_text_fits(crate::unicode::code_units(data, true));
    assert forall|text: Seq<char>|
        crate::unicode::byte_len(#[trigger] crate::unicode::trimmed(text))
            <= crate::unicode::byte_len(text) by {
        crate::unicode::lemma_trimmed_fits(text);
    }
    if vstd::utf8::valid_utf8(data) {
        vstd::utf8::decode_utf8_encode_utf8(data);
    }
}

proof fn lemma_with_segment_fits(text: Seq<char>, data: Seq<u8>, joined: bool, max: int)
    requires
        crate::unicode::byte_len(text) + 2 * data.len() + 1 <= max,
    ensures
        match with_segment(text, data, joined, max) {
            Ok(longer) => crate::unicode::byte_len(longer) <= crate::unicode::byte_len(text) + 2
                * data.len() + 1,
            Err(fault) => fault != TextFault::Capacity,
        },
{
    lemma_segment_fits(crate::unicode::byte_len(text), data, max);
    if let Ok(piece) = segment(crate::unicode::byte_len(text), data, max) {
        crate::unicode::lemma_byte_len_joined(text, piece);
        crate::unicode::lemma_byte_len_pushed(text, '\n');
        crate::unicode::lemma_byte_len_joined(text.push('\n'), piece);
    }
}

proof fn lemma_with_payloads_fits(data: Seq<u8>, at: int, text: Seq<char>, max: int)
    requires
        0 <= at <= data.len(),
        crate::unicode::byte_len(text) + 2 * (data.len() - at) <= max,
    ensures
        match with_payloads(data, at, text, max) {
            Ok(longer) => crate::unicode::byte_len(longer) <= crate::unicode::byte_len(text) + 2 * (
            data.len() - at),
            Err(fault) => fault != TextFault::Capacity,
        },
    decreases data.len() - at,
{
    if at < data.len() {
        if let Some(header) = crate::mp4::boxes::box_at(data, at) {
            crate::mp4::boxes::lemma_box_lies_inside(data, at);
            let payload = crate::mp4::boxes::payload_at(data, at);
            lemma_with_segment_fits(text, payload, true, max);
            let longer = if header.fourcc == crate::bytes::code('p', 'a', 'y', 'l') {
                with_segment(text, payload, true, max)
            } else {
                Ok(text)
            };
            if let Ok(longer) = longer {
                lemma_with_payloads_fits(data, at + header.total_size, longer, max);
            }
        }
    }
}

proof fn lemma_with_cues_fits(data: Seq<u8>, at: int, text: Seq<char>, max: int)
    requires
        0 <= at <= data.len(),
        crate::unicode::byte_len(text) + 2 * (data.len() - at) <= max,
    ensures
        match with_cues(data, at, text, max) {
            Ok(longer) => crate::unicode::byte_len(longer) <= crate::unicode::byte_len(text) + 2 * (
            data.len() - at),
            Err(fault) => fault != TextFault::Capacity,
        },
    decreases data.len() - at,
{
    if at < data.len() {
        if let Some(header) = crate::mp4::boxes::box_at(data, at) {
            crate::mp4::boxes::lemma_box_lies_inside(data, at);
            let payload = crate::mp4::boxes::payload_at(data, at);
            lemma_with_segment_fits(text, payload, true, max);
            lemma_with_payloads_fits(payload, 0, text, max);
            let longer = if header.fourcc == crate::bytes::code('p', 'a', 'y', 'l') {
                with_segment(text, payload, true, max)
            } else if header.fourcc == crate::bytes::code('v', 't', 't', 'c') {
                with_payloads(payload, 0, text, max)
            } else {
                Ok(text)
            };
            if let Ok(longer) = longer {
                lemma_with_cues_fits(data, at + header.total_size, longer, max);
            }
        }
    }
}

/// The room that a sample is given without a limit of its own always suffices:
/// no sample's text is refused for its length.
pub proof fn lemma_natural_ceiling_suffices(codec: Seq<char>, data: Seq<u8>)
    requires
        natural_ceiling(data) <= usize::MAX,
    ensures
        fault_of(decoded(codec, data, None)) != Some(TextFault::Capacity),
{
    let max = natural_ceiling(data);
    assert(vstd::utf8::encode_utf8(Seq::<char>::empty()).len() == 0);
    lemma_with_cues_fits(data, 0, seq![], max);
    if data.len() > 0 {
        lemma_with_segment_fits(seq![], data, false, max);
        if data.len() >= 2 && 2 + crate::bytes::be16(data, 0) <= data.len() {
            lemma_with_segment_fits(
                seq![],
                data.subrange(2, 2 + crate::bytes::be16(data, 0)),
                false,
                max,
            );
        }
    }
}

/// The bytes of a text in UTF-16 behind its byte order mark.
pub open spec fn marked_utf16(text: Seq<char>, big_endian: bool) -> Seq<u8> {
    (if big_endian {
        seq![0xfeu8, 0xffu8]
    } else {
        seq![0xffu8, 0xfeu8]
    }) + crate::unicode::unit_bytes(crate::unicode::utf16_units(text), big_endian)
}

/// A text is read back from its UTF-16 bytes behind a byte order mark, in either
/// order, but for what is trimmed at its ends.
pub proof fn lemma_marked_utf16_reads_back(
    used: int,
    text: Seq<char>,
    big_endian: bool,
    max: int,
)
    requires
        used + 3 * crate::unicode::utf16_units(text).len() <= max,
    ensures
        segment(used, marked_utf16(text, big_endian), max) == Ok::<Seq<char>, TextFault>(
            crate::unicode::trimmed(text),
        ),
{
    let units = crate::unicode::utf16_units(text);
    let data = marked_utf16(text, big_endian);
    let bytes = crate::unicode::unit_bytes(units, big_endian);
    crate::unicode::lemma_utf16_reads_back(text);
    crate::unicode::lemma_code_units_read_back(units, big_endian);
    assert(data.skip(2) =~= bytes);
    assert(bytes.len() / 2 == units.len());
}

/// A text is read back from its UTF-8 bytes, but for what is trimmed at its ends.
pub proof fn lemma_utf8_reads_back(used: int, text: Seq<char>, max: int)
    requires
        used + crate::unicode::byte_len(text) <= max,
    ensures
        segment(used, vstd::utf8::encode_utf8(text), max) == Ok::<Seq<char>, TextFault>(
            crate::unicode::trimmed(text),
        ),
{
    let data = vstd::utf8::encode_utf8(text);
    vstd::utf8::encode_utf8_valid_utf8(text);
    vstd::utf8::encode_utf8_decode_utf8(text);
    crate::unicode::lemma_trimmed_fits(text);
    if data.len() > 0 {
        assert(vstd::utf8::valid_first_scalar(data));
        assert(data[0] != 0xfe && data[0] != 0xff);
    }
}

/// A sample of timed text is its text behind the length of that in two bytes.
/// What stands behind the text is not part of it.
pub proof fn lemma_timed_text_reads_back(codec: Seq<char>, text: Seq<u8>, behind: Seq<u8>, max: int)
    requires
        codec == "tx3g"@ || codec == "text"@,
        text.len() < 0x1_0000,
    ensures
        sample_text(codec, crate::bytes::written16(text.len() as int) + text + behind, max)
            == with_segment(seq![], text, false, max),
        is_supported(codec),
{
    reveal_strlit("tx3g");
    reveal_strlit("text");
    reveal_strlit("wvtt");
    reveal_strlit("stpp");
    assert("tx3g"@[0] == 't' && "text"@[0] == 't' && "wvtt"@[0] == 'w' && "stpp"@[0] == 's');
    let data = crate::bytes::written16(text.len() as int) + text + behind;
    assert(data.subrange(0, 2) =~= crate::bytes::written16(text.len() as int));
    crate::bytes::lemma_written_numbers_read_back(data, 0, text.len() as int);
    assert(data.subrange(2, 2 + text.len() as int) =~= text);
}

/// The text of a timed text sample that holds a text in UTF-8 is that text,
/// trimmed.
pub proof fn lemma_timed_text_has_its_text(codec: Seq<char>, text: Seq<char>, behind: Seq<u8>, max: int)
    requires
        codec == "tx3g"@ || codec == "text"@,
        crate::unicode::byte_len(text) < 0x1_0000,
        crate::unicode::byte_len(text) <= max,
    ensures
        sample_text(
            codec,
            crate::bytes::written16(crate::unicode::byte_len(text)) + vstd::utf8::encode_utf8(text)
                + behind,
            max,
        ) == Ok::<Seq<char>, TextFault>(crate::unicode::trimmed(text)),
{
    let data = vstd::utf8::encode_utf8(text);
    lemma_timed_text_reads_back(codec, data, behind, max);
    assert(crate::unicode::byte_len(Seq::<char>::empty()) == 0);
    lemma_utf8_reads_back(0, text, max);
    let kept = crate::unicode::trimmed(text);
    assert(Seq::<char>::empty() + kept =~= kept);
    if kept.len() == 0 {
        assert(kept =~= seq![]);
    }
}

/// The text of an XML subtitle sample is all of it.
pub proof fn lemma_xml_sample_is_all_text(text: Seq<char>, max: int)
    requires
        crate::unicode::byte_len(text) <= max,
    ensures
        is_supported("stpp"@),
        sample_text("stpp"@, vstd::utf8::encode_utf8(text), max) == Ok::<Seq<char>, TextFault>(
            crate::unicode::trimmed(text),
        ),
{
    reveal_strlit("wvtt");
    reveal_strlit("stpp");
    assert("wvtt"@[0] == 'w' && "stpp"@[0] == 's');
    assert(crate::unicode::byte_len(Seq::<char>::empty()) == 0);
    lemma_utf8_reads_back(0, text, max);
    let kept = crate::unicode::trimmed(text);
    assert(Seq::<char>::empty() + kept =~= kept);
    if kept.len() == 0 {
        assert(kept =~= seq![]);
    }
}

/// A WebVTT cue with one text, as it stands in a sample.
pub open spec fn written_cue(text: Seq<char>) -> Seq<u8> {
    crate::mp4::boxes::written_box(
        crate::bytes::code('v', 't', 't', 'c'),
        crate::mp4::boxes::written_box(
            crate::bytes::code('p', 'a', 'y', 'l'),
            vstd::utf8::encode_utf8(text),
        ),
    )
}

/// A text with a line behind it, if the line is not empty.
pub open spec fn with_line(text: Seq<char>, line: Seq<char>) -> Seq<char> {
    if line.len() == 0 {
        text
    } else if text.len() == 0 {
        line
    } else {
        text + seq!['\n'] + line
    }
}

proof fn lemma_segment_adds_a_line(text: Seq<char>, line: Seq<char>, max: int)
    requires
        crate::unicode::byte_len(text) + crate::unicode::byte_len(line) + 1 <= max,
    ensures
        with_segment(text, vstd::utf8::encode_utf8(line), true, max) == Ok::<Seq<char>, TextFault>(
            with_line(text, crate::unicode::trimmed(line)),
        ),
{
    let kept = crate::unicode::trimmed(line);
    lemma_utf8_reads_back(crate::unicode::byte_len(text), line, max);
    crate::unicode::lemma_trimmed_fits(line);
    assert(text.push('\n') + kept =~= text + seq!['\n'] + kept);
    assert(text.len() == 0 ==> text + kept =~= kept);
}

proof fn lemma_payload_adds_a_line(text: Seq<char>, line: Seq<char>, max: int)
    requires
        crate::unicode::byte_len(line) + 16 <= u32::MAX,
        crate::unicode::byte_len(text) + crate::unicode::byte_len(line) + 1 <= max,
    ensures
        with_payloads(
            crate::mp4::boxes::written_box(
                crate::bytes::code('p', 'a', 'y', 'l'),
                vstd::utf8::encode_utf8(line),
            ),
            0,
            text,
            max,
        ) == Ok::<Seq<char>, TextFault>(with_line(text, crate::unicode::trimmed(line))),
{
    let payl = crate::bytes::code('p', 'a', 'y', 'l');
    let bytes = vstd::utf8::encode_utf8(line);
    let inner = crate::mp4::boxes::written_box(payl, bytes);
    let longer = with_line(text, crate::unicode::trimmed(line));
    crate::mp4::boxes::lemma_written_box_reads_back(seq![], payl, bytes, seq![]);
    assert(Seq::<u8>::empty() + inner + Seq::<u8>::empty() =~= inner);
    lemma_segment_adds_a_line(text, line, max);
    assert(with_payloads(inner, inner.len() as int, longer, max) == Ok::<Seq<char>, TextFault>(
        longer,
    ));
}

/// A cue adds its text, trimmed, to the text before it, on a line of its own; a
/// cue without a text adds nothing.
pub proof fn lemma_cue_adds_its_text(
    before: Seq<u8>,
    cue: Seq<char>,
    behind: Seq<u8>,
    text: Seq<char>,
    max: int,
)
    requires
        crate::unicode::byte_len(cue) + 16 <= u32::MAX,
        crate::unicode::byte_len(text) + crate::unicode::byte_len(cue) + 1 <= max,
    ensures
        with_cues(before + written_cue(cue) + behind, before.len() as int, text, max) == with_cues(
            before + written_cue(cue) + behind,
            (before + written_cue(cue)).len() as int,
            with_line(text, crate::unicode::trimmed(cue)),
            max,
        ),
{
    let payl = crate::bytes::code('p', 'a', 'y', 'l');
    let vttc = crate::bytes::code('v', 't', 't', 'c');
    let inner = crate::mp4::boxes::written_box(payl, vstd::utf8::encode_utf8(cue));
    assert(payl[0] != vttc[0]);
    crate::mp4::boxes::lemma_written_box_reads_back(before, vttc, inner, behind);
    lemma_payload_adds_a_line(text, cue, max);
}

/// The text of a WebVTT sample is that of its cues, one line for each.
pub proof fn lemma_webvtt_sample_has_a_line_for_each_cue(
    first: Seq<char>,
    second: Seq<char>,
    max: int,
)
    requires
        crate::unicode::byte_len(first) + 16 <= u32::MAX,
        crate::unicode::byte_len(second) + 16 <= u32::MAX,
        crate::unicode::byte_len(first) + crate::unicode::byte_len(second) + 1 <= max,
        crate::unicode::trimmed(first).len() > 0,
        crate::unicode::trimmed(second).len() > 0,
    ensures
        is_supported("wvtt"@),
        sample_text("wvtt"@, written_cue(first) + written_cue(second), max) == Ok::<
            Seq<char>,
            TextFault,
        >(crate::unicode::trimmed(first) + seq!['\n'] + crate::unicode::trimmed(second)),
        sample_text("wvtt"@, written_cue(first), max) == Ok::<Seq<char>, TextFault>(
            crate::unicode::trimmed(first),
        ),
        sample_text("wvtt"@, seq![], max) == Ok::<Seq<char>, TextFault>(seq![]),
{
    let data = written_cue(first) + written_cue(second);
    assert(crate::unicode::byte_len(Seq::<char>::empty()) == 0);
    crate::unicode::lemma_trimmed_fits(first);
    lemma_cue_adds_its_text(seq![], first, written_cue(second), seq![], max);
    assert(Seq::<u8>::empty() + written_cue(first) + written_cue(second) =~= data);
    lemma_cue_adds_its_text(
        written_cue(first),
        second,
        seq![],
        crate::unicode::trimmed(first),
        max,
    );
    assert(written_cue(first) + written_cue(second) + Seq::<u8>::empty() =~= data);
    lemma_cue_adds_its_text(seq![], first, seq![], seq![], max);
    assert(Seq::<u8>::empty() + written_cue(first) + Seq::<u8>::empty() =~= written_cue(first));
    assert(Seq::<u8>::empty() + written_cue(first) =~= written_cue(first));
}

/// A name that is cut to a number of bytes keeps as many characters as fit: what
/// stays is the beginning of it, and one character more would not fit.
pub proof fn lemma_fitting_prefix_is_the_longest(text: Seq<char>, limit: int)
    requires
        limit >= 0,
    ensures
        ({
            let kept = fitting_prefix(text, limit);
            &&& kept.len() <= text.len()
            &&& kept == text.take(kept.len() as int)
            &&& crate::unicode::byte_len(kept) <= limit
            &&& kept.len() < text.len() ==> crate::unicode::byte_len(
                text.take(kept.len() as int + 1),
            ) > limit
        }),
    decreases text.len(),
{
    let kept = fitting_prefix(text, limit);
    assert(crate::unicode::byte_len(Seq::<char>::empty()) == 0);
    if text.len() == 0 || crate::unicode::char_width(text[0]) > limit {
        assert(kept =~= text.take(0));
        if text.len() > 0 {
            assert(text.take(1) =~= Seq::<char>::empty().push(text[0]));
            crate::unicode::lemma_byte_len_pushed(seq![], text[0]);
        }
    } else {
        let rest = text.drop_first();
        let width = crate::unicode::char_width(text[0]);
        let inner = fitting_prefix(rest, limit - width);
        lemma_fitting_prefix_is_the_longest(rest, limit - width);
        crate::unicode::lemma_byte_len_pushed(seq![], text[0]);
        assert(Seq::<char>::empty().push(text[0]) =~= seq![text[0]]);
        crate::unicode::lemma_byte_len_joined(seq![text[0]], inner);
        assert(kept =~= text.take(kept.len() as int));
        if kept.len() < text.len() {
            let more = rest.take(inner.len() as int + 1);
            crate::unicode::lemma_byte_len_joined(seq![text[0]], more);
            assert(text.take(kept.len() as int + 1) =~= seq![text[0]] + more);
        }
    }
}

/// A sample in a coding that is not supported is told by the name of the coding;
/// one without a text gives nothing.
pub proof fn lemma_samples_without_text(codec: Seq<char>, data: Seq<u8>)
    requires
        3 * data.len() <= usize::MAX,
    ensures
        codec != "tx3g"@ && codec != "wvtt"@ && codec != "stpp"@ && codec != "text"@ ==> (decoded(
            codec,
            data,
            None,
        ) matches Err(TextFault::Unsupported(name)) && name.is_prefix_of(codec)),
        decoded(codec, data, None) matches Ok(Some(text)) ==> text.len() > 0,
{
    lemma_fitting_prefix_is_the_longest(codec, MAX_CODEC_IDENTIFIER_BYTES as int);
}

} // verus!
