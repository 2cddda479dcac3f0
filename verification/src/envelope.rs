//! Binary envelopes that carry media to the frontend.
//!
//! An envelope starts with the length of its header, in four bytes with the
//! least significant first. The header is a JSON array with an entry for each
//! item. Behind it stand the payloads. The `offset` of an entry counts from the
//! end of the header.

use vstd::prelude::*;
use vstd::string::*;

use crate::error::{custom_error, Error};
use crate::memory::try_reserve_exact;
use crate::strings::join2;
use crate::types::{CoverArt, Frame};

verus! {

// ---------------------------------------------------------------------------
// Entries
// ---------------------------------------------------------------------------

/// A JSON object, whose content is spoken of by `meta_contents`.
#[verifier::external_type_specification]
#[verifier::external_body]
#[verifier::reject_recursive_types(K)]
#[verifier::reject_recursive_types(V)]
pub struct ExJsonMap<K, V>(serde_json::Map<K, V>);

/// A JSON value, which is only carried inside a JSON object.
#[verifier::external_type_specification]
#[verifier::external_body]
pub struct ExJsonValue(serde_json::Value);

/// What a field of an entry holds.
pub enum MetaValue {
    Number(u64),
    Text(Seq<char>),
    /// A floating-point number, by its bits.
    Float(u64),
}

/// The bits of the floating-point number that a span of time is in seconds.
pub uninterp spec fn seconds_bits(seconds: u64, nanos: u32) -> u64;

/// The fields of a JSON object, in their order.
pub uninterp spec fn meta_contents(
    meta: serde_json::Map<String, serde_json::Value>,
) -> Seq<(Seq<char>, MetaValue)>;

/// The bytes that JSON objects with these fields are written as in a JSON
/// array, or the words for why they cannot be written.
pub uninterp spec fn json_array(entries: Seq<Seq<(Seq<char>, MetaValue)>>) -> Result<
    Seq<u8>,
    Seq<char>,
>;

pub open spec fn no_fields() -> Seq<(Seq<char>, MetaValue)> {
    Seq::empty()
}

/// The place of the first field from `i` on that has this name.
pub open spec fn field_place(
    fields: Seq<(Seq<char>, MetaValue)>,
    name: Seq<char>,
    i: int,
) -> Option<int>
    decreases fields.len() - i,
{
    if i >= fields.len() {
        None
    } else if fields[i].0 == name {
        Some(i)
    } else {
        field_place(fields, name, i + 1)
    }
}

/// The fields with one set: its value replaced where it stands, or the field
/// added behind the others.
pub open spec fn with_field(
    fields: Seq<(Seq<char>, MetaValue)>,
    name: Seq<char>,
    value: MetaValue,
) -> Seq<(Seq<char>, MetaValue)> {
    match field_place(fields, name, 0) {
        Some(place) => fields.update(place, (name, value)),
        None => fields.push((name, value)),
    }
}

/// A JSON object without fields, from `serde_json::Map::new`.
#[verifier::external_body]
fn new_meta() -> (result: serde_json::Map<String, serde_json::Value>)
    ensures
        meta_contents(result) == no_fields(),
{
    serde_json::Map::new()
}

/// Sets a field to a number with `serde_json::Map::insert`: a field of that
/// name keeps its place, another one comes last.
#[verifier::external_body]
fn insert_number(meta: &mut serde_json::Map<String, serde_json::Value>, name: &str, value: u64)
    ensures
        meta_contents(*final(meta)) == with_field(
            meta_contents(*old(meta)),
            name@,
            MetaValue::Number(value),
        ),
{
    meta.insert(name.to_string(), value.into());
}

/// Sets a field to a text with `serde_json::Map::insert`: a field of that name
/// keeps its place, another one comes last.
#[verifier::external_body]
fn insert_text(meta: &mut serde_json::Map<String, serde_json::Value>, name: &str, value: &str)
    ensures
        meta_contents(*final(meta)) == with_field(
            meta_contents(*old(meta)),
            name@,
            MetaValue::Text(value@),
        ),
{
    meta.insert(name.to_string(), value.into());
}

/// Sets a field to a number of seconds with `serde_json::Map::insert`: a field
/// of that name keeps its place, another one comes last. The number is that of the standard library's
/// `Duration::as_secs_f64`, which is determined by the seconds and the
/// nanoseconds. How it is rounded is not stated.
#[verifier::external_body]
fn insert_seconds(
    meta: &mut serde_json::Map<String, serde_json::Value>,
    name: &str,
    seconds: u64,
    nanos: u32,
)
    requires
        nanos < 1_000_000_000,
    ensures
        meta_contents(*final(meta)) == with_field(
            meta_contents(*old(meta)),
            name@,
            MetaValue::Float(seconds_bits(seconds, nanos)),
        ),
{
    let span = std::time::Duration::new(seconds, nanos);
    meta.insert(name.to_string(), span.as_secs_f64().into());
}

/// Entries by their fields.
pub open spec fn entry_views(
    entries: Seq<serde_json::Map<String, serde_json::Value>>,
) -> Seq<Seq<(Seq<char>, MetaValue)>> {
    Seq::new(entries.len(), |i: int| meta_contents(entries[i]))
}

pub open spec fn bytes_view(bytes: Result<Vec<u8>, String>) -> Result<Seq<u8>, Seq<char>> {
    match bytes {
        Ok(bytes) => Ok(bytes@),
        Err(text) => Err(text@),
    }
}

/// Writes JSON objects as a JSON array with `serde_json::to_vec`. The bytes are
/// determined by the fields and their order. How JSON is written is not stated.
#[verifier::external_body]
fn write_entries(entries: &Vec<serde_json::Map<String, serde_json::Value>>) -> (result: Result<
    Vec<u8>,
    String,
>)
    ensures
        bytes_view(result) == json_array(entry_views(entries@)),
{
    serde_json::to_vec(entries).map_err(|error| error.to_string())
}

// ---------------------------------------------------------------------------
// Faults
// ---------------------------------------------------------------------------

/// Why there is no envelope.
#[derive(Debug)]
pub enum EnvelopeFault {
    /// There is no memory for so many entries.
    Entries,
    /// The pictures are larger than they may be.
    FramePayload,
    /// An entry is for a picture that is not there.
    FrameIndex,
    /// The payloads are larger than memory.
    Payload,
    /// The header cannot be written, in these words.
    Header(String),
    /// The header is longer than can be said in front of it.
    HeaderLength,
    /// The envelope is larger than memory.
    Length,
}

pub enum FaultView {
    Entries,
    FramePayload,
    FrameIndex,
    Payload,
    Header(Seq<char>),
    HeaderLength,
    Length,
}

impl View for EnvelopeFault {
    type V = FaultView;

    open spec fn view(&self) -> FaultView {
        match *self {
            EnvelopeFault::Entries => FaultView::Entries,
            EnvelopeFault::FramePayload => FaultView::FramePayload,
            EnvelopeFault::FrameIndex => FaultView::FrameIndex,
            EnvelopeFault::Payload => FaultView::Payload,
            EnvelopeFault::Header(text) => FaultView::Header(text@),
            EnvelopeFault::HeaderLength => FaultView::HeaderLength,
            EnvelopeFault::Length => FaultView::Length,
        }
    }
}

/// The words for a fault.
pub open spec fn fault_text(fault: FaultView) -> Seq<char> {
    match fault {
        FaultView::Entries => "too many thumbnail entries"@,
        FaultView::FramePayload => "thumbnail payload is too large"@,
        FaultView::FrameIndex => "thumbnail frame index out of range"@,
        FaultView::Payload => "envelope payload is too large"@,
        FaultView::Header(text) => "could not encode envelope: "@ + text,
        FaultView::HeaderLength => "envelope header is too large"@,
        FaultView::Length => "envelope is too large"@,
    }
}

impl EnvelopeFault {
    /// The fault as an error.
    pub fn to_error(&self) -> (result: Error)
        ensures
            result@ == crate::error::PluginErrorView::Custom(fault_text(self@)),
    {
        match self {
            EnvelopeFault::Entries => custom_error("too many thumbnail entries"),
            EnvelopeFault::FramePayload => custom_error("thumbnail payload is too large"),
            EnvelopeFault::FrameIndex => custom_error("thumbnail frame index out of range"),
            EnvelopeFault::Payload => custom_error("envelope payload is too large"),
            EnvelopeFault::Header(text) => Error::Custom(
                join2("could not encode envelope: ", text.as_str()),
            ),
            EnvelopeFault::HeaderLength => custom_error("envelope header is too large"),
            EnvelopeFault::Length => custom_error("envelope is too large"),
        }
    }
}

// ---------------------------------------------------------------------------
// Layout
// ---------------------------------------------------------------------------

/// A number in four bytes, the least significant first.
pub open spec fn le32(value: int) -> Seq<u8> {
    seq![
        (value % 0x100) as u8,
        (value / 0x100 % 0x100) as u8,
        (value / 0x1_0000 % 0x100) as u8,
        (value / 0x100_0000 % 0x100) as u8,
    ]
}

/// The number in the first four bytes, the least significant first.
pub open spec fn le32_value(bytes: Seq<u8>) -> int {
    bytes[0] + bytes[1] * 0x100 + bytes[2] * 0x1_0000 + bytes[3] * 0x100_0000
}

/// The first `k` payloads behind one another.
pub open spec fn joined(payloads: Seq<Seq<u8>>, k: int) -> Seq<u8>
    decreases k,
{
    if k <= 0 {
        seq![]
    } else {
        joined(payloads, k - 1) + payloads[k - 1]
    }
}

/// An envelope: the length of the header, the header, the payloads.
pub open spec fn envelope_of(header: Seq<u8>, payloads: Seq<Seq<u8>>) -> Seq<u8> {
    le32(header.len() as int) + header + joined(payloads, payloads.len() as int)
}

/// Where the payload `i` starts, counted from the end of the header.
pub open spec fn payload_offset(payloads: Seq<Seq<u8>>, i: int) -> int {
    joined(payloads, i).len() as int
}

/// What stands against an envelope.
pub open spec fn envelope_fault(header: Seq<u8>, payloads: Seq<Seq<u8>>) -> Option<FaultView> {
    let length = joined(payloads, payloads.len() as int).len();
    if header.len() > u32::MAX {
        Some(FaultView::HeaderLength)
    } else if 4 + header.len() + length > usize::MAX {
        Some(FaultView::Length)
    } else {
        None
    }
}

pub open spec fn payload_views(payloads: Seq<&[u8]>) -> Seq<Seq<u8>> {
    Seq::new(payloads.len(), |i: int| payloads[i]@)
}

proof fn lemma_joined_prefix(payloads: Seq<Seq<u8>>, i: int, j: int)
    requires
        0 <= i <= j <= payloads.len(),
    ensures
        joined(payloads, i).is_prefix_of(joined(payloads, j)),
    decreases j - i,
{
    if i < j {
        lemma_joined_prefix(payloads, i, j - 1);
    }
}

/// The header and each payload can be cut out of an envelope: the header by
/// the length in front of it, a payload by its offset and its length.
pub proof fn lemma_envelope_gives_back_its_parts(
    header: Seq<u8>,
    payloads: Seq<Seq<u8>>,
    i: int,
)
    requires
        header.len() <= u32::MAX,
        0 <= i < payloads.len(),
    ensures
        ({
            let envelope = envelope_of(header, payloads);
            let start = 4 + header.len() + payload_offset(payloads, i);
            &&& le32_value(envelope) == header.len()
            &&& envelope.subrange(4, 4 + header.len() as int) == header
            &&& envelope.subrange(start, start + payloads[i].len()) == payloads[i]
        }),
{
    let envelope = envelope_of(header, payloads);
    let all = joined(payloads, payloads.len() as int);
    let length = header.len() as int;
    assert(envelope.subrange(4, 4 + header.len() as int) =~= header);
    assert(length == length % 0x100 + length / 0x100 % 0x100 * 0x100 + length / 0x1_0000 % 0x100
        * 0x1_0000 + length / 0x100_0000 % 0x100 * 0x100_0000) by (nonlinear_arith)
        requires
            0 <= length <= 0xffff_ffff,
    ;
    lemma_joined_prefix(payloads, i + 1, payloads.len() as int);
    let start = 4 + header.len() + payload_offset(payloads, i);
    let before = joined(payloads, i);
    assert(joined(payloads, i + 1) == before + payloads[i]);
    assert forall|k: int| 0 <= k < payloads[i].len() implies envelope[start + k]
        == payloads[i][k] by {
        assert(envelope[start + k] == all[before.len() + k]);
        assert(joined(payloads, i + 1)[before.len() + k] == payloads[i][k]);
    }
    assert(envelope.subrange(start, start + payloads[i].len()) =~= payloads[i]);
}

/// The bytes of all payloads together, if they can be counted.
fn payloads_len(payloads: &Vec<&[u8]>) -> (result: Option<usize>)
    ensures
        ({
            let views = payload_views(payloads@);
            match result {
                Some(length) => length == joined(views, views.len() as int).len(),
                None => joined(views, views.len() as int).len() > usize::MAX,
            }
        }),
{
    let ghost views = payload_views(payloads@);
    let mut length: usize = 0;
    let mut index: usize = 0;
    while index < payloads.len()
        invariant
            index <= payloads@.len(),
            views == payload_views(payloads@),
            length == joined(views, index as int).len(),
        decreases payloads@.len() - index,
    {
        proof {
            lemma_joined_prefix(views, index + 1, views.len() as int);
            assert(views[index as int] == payloads@[index as int]@);
        }
        match length.checked_add(payloads[index].len()) {
            Some(longer) => {
                length = longer;
            },
            None => {
                return None;
            },
        }
        index += 1;
    }
    Some(length)
}

/// Puts a header and payloads into an envelope.
pub fn frame_envelope(header: &Vec<u8>, payloads: &Vec<&[u8]>) -> (result: Result<
    Vec<u8>,
    EnvelopeFault,
>)
    ensures
        ({
            let views = payload_views(payloads@);
            match result {
                Ok(envelope) => envelope_fault(header@, views) is None && envelope@ == envelope_of(
                    header@,
                    views,
                ),
                Err(fault) => match envelope_fault(header@, views) {
                    Some(expected) => fault@ == expected,
                    None => fault is Length,
                },
            }
        }),
{
    let ghost views = payload_views(payloads@);
    let header_len: usize = header.len();
    if header_len as u64 > u32::MAX as u64 {
        return Err(EnvelopeFault::HeaderLength);
    }
    let payload_len: usize = match payloads_len(payloads) {
        Some(length) => length,
        None => {
            return Err(EnvelopeFault::Length);
        },
    };
    let head_len: usize = match header_len.checked_add(4) {
        Some(length) => length,
        None => {
            return Err(EnvelopeFault::Length);
        },
    };
    let envelope_len: usize = match head_len.checked_add(payload_len) {
        Some(length) => length,
        None => {
            return Err(EnvelopeFault::Length);
        },
    };
    let mut envelope: Vec<u8> = Vec::new();
    if !try_reserve_exact(&mut envelope, envelope_len) {
        return Err(EnvelopeFault::Length);
    }
    let number: u64 = header_len as u64;
    envelope.push((number % 0x100) as u8);
    envelope.push((number / 0x100 % 0x100) as u8);
    envelope.push((number / 0x1_0000 % 0x100) as u8);
    envelope.push((number / 0x100_0000 % 0x100) as u8);
    assert(envelope@ =~= le32(header@.len() as int));
    envelope.extend_from_slice(header.as_slice());
    let ghost head = le32(header@.len() as int) + header@;
    assert(envelope@ =~= head);
    let mut index: usize = 0;
    assert(head + joined(views, 0) =~= head);
    while index < payloads.len()
        invariant
            index <= payloads@.len(),
            views == payload_views(payloads@),
            envelope@ == head + joined(views, index as int),
        decreases payloads@.len() - index,
    {
        assert(views[index as int] == payloads@[index as int]@);
        envelope.extend_from_slice(payloads[index]);
        index += 1;
        assert(envelope@ =~= head + joined(views, index as int));
    }
    Ok(envelope)
}

/// The envelope with these entries and payloads, or what stands against it.
pub open spec fn binary_envelope(
    entries: Seq<Seq<(Seq<char>, MetaValue)>>,
    payloads: Seq<Seq<u8>>,
) -> Result<Seq<u8>, FaultView> {
    if joined(payloads, payloads.len() as int).len() > usize::MAX {
        Err(FaultView::Payload)
    } else {
        match json_array(entries) {
            Err(text) => Err(FaultView::Header(text)),
            Ok(header) => match envelope_fault(header, payloads) {
                Some(fault) => Err(fault),
                None => Ok(envelope_of(header, payloads)),
            },
        }
    }
}

/// Whether an envelope, or a fault, is the one expected. That the allocator has
/// no room is a fault of the entries, where any are kept, or of the length,
/// where nothing else stands against the envelope.
pub open spec fn is_envelope(
    result: Result<Vec<u8>, EnvelopeFault>,
    expected: Result<Seq<u8>, FaultView>,
    keeps_entries: bool,
) -> bool {
    match result {
        Ok(envelope) => expected == Ok::<Seq<u8>, FaultView>(envelope@),
        Err(fault) => {
            ||| expected == Err::<Seq<u8>, FaultView>(fault@)
            ||| keeps_entries && fault is Entries
            ||| expected is Ok && fault is Length
        },
    }
}

/// Whether an envelope, or an error in words, is the one expected.
pub open spec fn is_worded_envelope(
    result: Result<Vec<u8>, Error>,
    expected: Result<Seq<u8>, FaultView>,
    keeps_entries: bool,
) -> bool {
    match result {
        Ok(envelope) => expected == Ok::<Seq<u8>, FaultView>(envelope@),
        Err(error) => exists|fault: EnvelopeFault|
            is_envelope(Err(fault), expected, keeps_entries) && error@ == crate::error::PluginErrorView::Custom(
                #[trigger] fault_text(fault@),
            ),
    }
}

/// An envelope, or its fault in words.
fn worded(encoded: Result<Vec<u8>, EnvelopeFault>) -> (result: Result<Vec<u8>, Error>)
    ensures
        match (encoded, result) {
            (Ok(envelope), Ok(same)) => same == envelope,
            (Err(fault), Err(error)) => error@ == crate::error::PluginErrorView::Custom(
                fault_text(fault@),
            ),
            _ => false,
        },
{
    match encoded {
        Ok(envelope) => Ok(envelope),
        Err(fault) => Err(fault.to_error()),
    }
}

/// Puts entries and payloads into an envelope.
fn encode_binary_envelope(
    entries: &Vec<serde_json::Map<String, serde_json::Value>>,
    payloads: &Vec<&[u8]>,
) -> (result: Result<Vec<u8>, EnvelopeFault>)
    ensures
        is_envelope(
            result,
            binary_envelope(entry_views(entries@), payload_views(payloads@)),
            false,
        ),
{
    match payloads_len(payloads) {
        Some(_) => {},
        None => {
            return Err(EnvelopeFault::Payload);
        },
    }
    match write_entries(entries) {
        Ok(header) => frame_envelope(&header, payloads),
        Err(text) => Err(EnvelopeFault::Header(text)),
    }
}

// ---------------------------------------------------------------------------
// Covers
// ---------------------------------------------------------------------------

/// The fields of the entry for a cover, by name.
pub open spec fn cover_entry(cover: CoverArt) -> Seq<(Seq<char>, MetaValue)> {
    let fields = with_field(no_fields(), "format"@, MetaValue::Text(cover.format.label_text()));
    let fields = with_field(fields, "length"@, MetaValue::Number(cover.data@.len() as u64));
    let fields = with_field(fields, "mimeType"@, MetaValue::Text(cover.mime_type@));
    with_field(fields, "offset"@, MetaValue::Number(0))
}

/// An envelope without payloads ends with its header.
proof fn lemma_nothing_behind(entries: Seq<Seq<(Seq<char>, MetaValue)>>)
    ensures
        json_array(entries) matches Ok(header) ==> envelope_of(header, seq![]) == le32(
            header.len() as int,
        ) + header,
{
    let none: Seq<Seq<u8>> = seq![];
    assert(joined(none, 0) =~= seq![]);
    if let Ok(header) = json_array(entries) {
        assert(envelope_of(header, none) =~= le32(header.len() as int) + header);
    }
}

/// The envelope for a cover: an entry and its picture, or nothing.
pub fn cover_envelope(cover: Option<CoverArt>) -> (result: Result<Vec<u8>, Error>)
    ensures
        is_worded_envelope(
            result,
            match cover {
                Some(cover) => binary_envelope(seq![cover_entry(cover)], seq![cover.data@]),
                None => binary_envelope(seq![], seq![]),
            },
            false,
        ),
        result matches Ok(envelope) ==> match cover {
            Some(cover) => json_array(seq![cover_entry(cover)]) matches Ok(header) && envelope@
                == le32(header.len() as int) + header + cover.data@,
            None => json_array(seq![]) matches Ok(header) && envelope@ == le32(header.len() as int)
                + header,
        },
{
    let mut entries: Vec<serde_json::Map<String, serde_json::Value>> = Vec::new();
    let mut payloads: Vec<&[u8]> = Vec::new();
    match &cover {
        Some(cover) => {
            let mut meta = new_meta();
            insert_text(&mut meta, "format", cover.format.label());
            insert_number(&mut meta, "length", cover.data.len() as u64);
            insert_text(&mut meta, "mimeType", cover.mime_type.as_str());
            insert_number(&mut meta, "offset", 0);
            entries.push(meta);
            payloads.push(cover.data.as_slice());
            assert(entry_views(entries@) =~= seq![cover_entry(*cover)]);
            assert(payload_views(payloads@) =~= seq![cover.data@]);
            proof {
                reveal_with_fuel(joined, 2);
                assert(joined(seq![cover.data@], 1) =~= cover.data@);
            }
        },
        None => {
            assert(entry_views(entries@) =~= seq![]);
            assert(payload_views(payloads@) =~= seq![]);
        },
    }
    proof {
        lemma_nothing_behind(entry_views(entries@));
    }
    worded(encode_binary_envelope(&entries, &payloads))
}

// ---------------------------------------------------------------------------
// Thumbnails
// ---------------------------------------------------------------------------

/// The order in which the fields of an entry are written.
#[derive(Debug, Clone, Copy, PartialEq, Eq, Structural)]
pub enum FieldOrder {
    /// Track, size, time, format, place.
    Declared,
    /// By their names.
    ByName,
}

/// A time in seconds.
pub open spec fn seconds_value(timestamp: crate::time::Duration) -> MetaValue {
    MetaValue::Float(
        seconds_bits(
            (timestamp@ / 1_000_000_000) as u64,
            (timestamp@ % 1_000_000_000) as u32,
        ),
    )
}

/// The fields of the entry for a picture whose bytes start at `offset`.
pub open spec fn frame_entry(frame: Frame, offset: int, fields: FieldOrder) -> Seq<
    (Seq<char>, MetaValue),
> {
    let track_id = MetaValue::Number(frame.track_id as u64);
    let width = MetaValue::Number(frame.width as u64);
    let height = MetaValue::Number(frame.height as u64);
    let seconds = seconds_value(frame.timestamp);
    let format = MetaValue::Text(frame.format.label_text());
    let mime_type = MetaValue::Text(frame.format.mime_text());
    let start = MetaValue::Number(offset as u64);
    let length = MetaValue::Number(frame.data@.len() as u64);
    match fields {
        FieldOrder::Declared => {
            let entry = with_field(no_fields(), "trackId"@, track_id);
            let entry = with_field(entry, "width"@, width);
            let entry = with_field(entry, "height"@, height);
            let entry = with_field(entry, "timestampSec"@, seconds);
            let entry = with_field(entry, "format"@, format);
            let entry = with_field(entry, "mimeType"@, mime_type);
            let entry = with_field(entry, "offset"@, start);
            with_field(entry, "length"@, length)
        },
        FieldOrder::ByName => {
            let entry = with_field(no_fields(), "format"@, format);
            let entry = with_field(entry, "height"@, height);
            let entry = with_field(entry, "length"@, length);
            let entry = with_field(entry, "mimeType"@, mime_type);
            let entry = with_field(entry, "offset"@, start);
            let entry = with_field(entry, "timestampSec"@, seconds);
            let entry = with_field(entry, "trackId"@, track_id);
            with_field(entry, "width"@, width)
        },
    }
}

/// The bytes of pictures.
pub open spec fn frame_bytes(frames: Seq<Frame>) -> Seq<Seq<u8>> {
    Seq::new(frames.len(), |i: int| frames[i].data@)
}

/// The entries for the pictures that `order` lists.
pub open spec fn frame_entries(
    frames: Seq<Frame>,
    order: Seq<usize>,
    fields: FieldOrder,
) -> Seq<Seq<(Seq<char>, MetaValue)>> {
    Seq::new(
        order.len(),
        |i: int|
            frame_entry(
                frames[order[i] as int],
                payload_offset(frame_bytes(frames), order[i] as int),
                fields,
            ),
    )
}

/// The envelope for the pictures that `order` lists: an entry for each, and
/// the bytes of each picture once.
pub open spec fn thumbnail_envelope(
    frames: Seq<Frame>,
    order: Seq<usize>,
    max_output_bytes: usize,
    fields: FieldOrder,
) -> Result<Seq<u8>, FaultView> {
    let payloads = frame_bytes(frames);
    if joined(payloads, payloads.len() as int).len() > max_output_bytes {
        Err(FaultView::FramePayload)
    } else if exists|i: int| 0 <= i < order.len() && #[trigger] order[i] >= frames.len() {
        Err(FaultView::FrameIndex)
    } else {
        binary_envelope(frame_entries(frames, order, fields), payloads)
    }
}

/// The entry for a picture.
fn thumbnail_envelope_entry(frame: &Frame, offset: usize, fields: FieldOrder) -> (result:
    serde_json::Map<String, serde_json::Value>)
    ensures
        meta_contents(result) == frame_entry(*frame, offset as int, fields),
{
    let mut meta = new_meta();
    let seconds: u64 = frame.timestamp.as_secs();
    let nanos: u32 = frame.timestamp.subsec_nanos();
    match fields {
        FieldOrder::Declared => {
            insert_number(&mut meta, "trackId", frame.track_id as u64);
            insert_number(&mut meta, "width", frame.width as u64);
            insert_number(&mut meta, "height", frame.height as u64);
            insert_seconds(&mut meta, "timestampSec", seconds, nanos);
            insert_text(&mut meta, "format", frame.format.label());
            insert_text(&mut meta, "mimeType", frame.format.mime_type());
            insert_number(&mut meta, "offset", offset as u64);
            insert_number(&mut meta, "length", frame.data.len() as u64);
        },
        FieldOrder::ByName => {
            insert_text(&mut meta, "format", frame.format.label());
            insert_number(&mut meta, "height", frame.height as u64);
            insert_number(&mut meta, "length", frame.data.len() as u64);
            insert_text(&mut meta, "mimeType", frame.format.mime_type());
            insert_number(&mut meta, "offset", offset as u64);
            insert_seconds(&mut meta, "timestampSec", seconds, nanos);
            insert_number(&mut meta, "trackId", frame.track_id as u64);
            insert_number(&mut meta, "width", frame.width as u64);
        },
    }
    meta
}

/// Where the bytes of each picture start, unless they are too many.
fn frame_offsets(frames: &[Frame], max_output_bytes: usize) -> (result: Result<
    Vec<usize>,
    EnvelopeFault,
>)
    ensures
        ({
            let payloads = frame_bytes(frames@);
            let length = joined(payloads, payloads.len() as int).len();
            match result {
                Ok(offsets) => {
                    &&& length <= max_output_bytes
                    &&& offsets@.len() == frames@.len()
                    &&& forall|i: int|
                        0 <= i < frames@.len() ==> #[trigger] offsets@[i] == payload_offset(
                            payloads,
                            i,
                        )
                },
                Err(fault) => frames@.len() > 0 && fault is Entries || length > max_output_bytes
                    && fault is FramePayload,
            }
        }),
{
    let ghost payloads = frame_bytes(frames@);
    let mut offsets: Vec<usize> = Vec::new();
    if !try_reserve_exact(&mut offsets, frames.len()) {
        return Err(EnvelopeFault::Entries);
    }
    let mut length: usize = 0;
    let mut index: usize = 0;
    while index < frames.len()
        invariant
            index <= frames@.len(),
            payloads == frame_bytes(frames@),
            offsets@.len() == index,
            length == joined(payloads, index as int).len(),
            length <= max_output_bytes || index == 0,
            forall|i: int|
                0 <= i < index ==> #[trigger] offsets@[i] == payload_offset(payloads, i),
        decreases frames@.len() - index,
    {
        proof {
            lemma_joined_prefix(payloads, index + 1, payloads.len() as int);
            assert(payloads[index as int] == frames@[index as int].data@);
        }
        offsets.push(length);
        match length.checked_add(frames[index].data.len()) {
            Some(longer) if longer <= max_output_bytes => {
                length = longer;
            },
            _ => {
                return Err(EnvelopeFault::FramePayload);
            },
        }
        index += 1;
    }
    Ok(offsets)
}

/// Puts pictures into an envelope. `order` lists the picture of each entry, so
/// that entries for one picture share its bytes.
pub fn encode_thumbnail_envelope(
    frames: &[Frame],
    order: &[usize],
    max_output_bytes: usize,
) -> (result: Result<Vec<u8>, Error>)
    ensures
        is_worded_envelope(
            result,
            thumbnail_envelope(frames@, order@, max_output_bytes, FieldOrder::ByName),
            frames@.len() > 0 || order@.len() > 0,
        ),
        result matches Ok(envelope) ==> thumbnail_envelope(
            frames@,
            order@,
            max_output_bytes,
            FieldOrder::ByName,
        ) == Ok::<Seq<u8>, FaultView>(envelope@),
{
    worded(encode_frames(frames, order, max_output_bytes, FieldOrder::ByName))
}

/// Puts pictures into an envelope.
pub(crate) fn encode_frames(
    frames: &[Frame],
    order: &[usize],
    max_output_bytes: usize,
    fields: FieldOrder,
) -> (result: Result<Vec<u8>, EnvelopeFault>)
    ensures
        is_envelope(
            result,
            thumbnail_envelope(frames@, order@, max_output_bytes, fields),
            frames@.len() > 0 || order@.len() > 0,
        ),
{
    let ghost bytes = frame_bytes(frames@);
    let offsets = match frame_offsets(frames, max_output_bytes) {
        Ok(offsets) => offsets,
        Err(error) => {
            return Err(error);
        },
    };
    let mut entries: Vec<serde_json::Map<String, serde_json::Value>> = Vec::new();
    if !try_reserve_exact(&mut entries, order.len()) {
        return Err(EnvelopeFault::Entries);
    }
    let ghost all = frame_entries(frames@, order@, fields);
    let mut index: usize = 0;
    assert(entry_views(entries@) =~= all.take(0));
    while index < order.len()
        invariant
            index <= order@.len(),
            bytes == frame_bytes(frames@),
            all == frame_entries(frames@, order@, fields),
            joined(bytes, bytes.len() as int).len() <= max_output_bytes,
            offsets@.len() == frames@.len(),
            forall|i: int|
                0 <= i < frames@.len() ==> #[trigger] offsets@[i] == payload_offset(bytes, i),
            forall|i: int| 0 <= i < index ==> #[trigger] order@[i] < frames@.len(),
            entry_views(entries@) == all.take(index as int),
        decreases order@.len() - index,
    {
        let place: usize = order[index];
        if place >= frames.len() {
            assert(order@[index as int] >= frames@.len());
            return Err(EnvelopeFault::FrameIndex);
        }
        let ghost before = entry_views(entries@);
        let meta = thumbnail_envelope_entry(&frames[place], offsets[place], fields);
        let ghost pushed = meta_contents(meta);
        entries.push(meta);
        assert(entry_views(entries@) =~= before.push(pushed));
        assert(all.take(index + 1) =~= all.take(index as int).push(all[index as int]));
        index += 1;
    }
    assert(all.take(index as int) =~= all);
    let mut payloads: Vec<&[u8]> = Vec::new();
    let mut next: usize = 0;
    assert(payload_views(payloads@) =~= bytes.take(0));
    while next < frames.len()
        invariant
            next <= frames@.len(),
            bytes == frame_bytes(frames@),
            payload_views(payloads@) == bytes.take(next as int),
        decreases frames@.len() - next,
    {
        let ghost before = payload_views(payloads@);
        payloads.push(frames[next].data.as_slice());
        assert(payload_views(payloads@) =~= before.push(bytes[next as int]));
        next += 1;
        assert(payload_views(payloads@) =~= bytes.take(next as int));
    }
    assert(bytes.take(next as int) =~= bytes);
    encode_binary_envelope(&entries, &payloads)
}

/// Entries for one picture share its bytes: wherever the same picture is
/// listed twice, the entries are the same.
pub proof fn lemma_repeated_frames_share_an_entry(
    frames: Seq<Frame>,
    order: Seq<usize>,
    fields: FieldOrder,
    i: int,
    j: int,
)
    requires
        0 <= i < order.len(),
        0 <= j < order.len(),
        order[i] == order[j],
    ensures
        frame_entries(frames, order, fields)[i] == frame_entries(frames, order, fields)[j],
{
}

/// A field of a new name comes behind the others.
proof fn lemma_new_field_comes_last(
    fields: Seq<(Seq<char>, MetaValue)>,
    name: Seq<char>,
    value: MetaValue,
    i: int,
)
    requires
        0 <= i <= fields.len(),
        forall|j: int| i <= j < fields.len() ==> (#[trigger] fields[j]).0 != name,
    ensures
        field_place(fields, name, i) is None,
        i == 0 ==> with_field(fields, name, value) == fields.push((name, value)),
    decreases fields.len() - i,
{
    if i < fields.len() {
        assert(fields[i].0 != name);
        lemma_new_field_comes_last(fields, name, value, i + 1);
    }
}

/// The fields that are added in turn, where all their names differ.
pub open spec fn added(fields: Seq<(Seq<char>, MetaValue)>, k: int) -> Seq<(Seq<char>, MetaValue)>
    decreases k,
{
    if k <= 0 {
        no_fields()
    } else {
        with_field(added(fields, k - 1), fields[k - 1].0, fields[k - 1].1)
    }
}

/// Fields of different names stand in an entry as they were added, all of them
/// and in their order.
pub proof fn lemma_fields_stand_as_added(fields: Seq<(Seq<char>, MetaValue)>, k: int)
    requires
        0 <= k <= fields.len(),
        forall|i: int, j: int|
            0 <= i < j < fields.len() ==> (#[trigger] fields[i]).0 != (#[trigger] fields[j]).0,
    ensures
        added(fields, k) == fields.take(k),
    decreases k,
{
    if k > 0 {
        lemma_fields_stand_as_added(fields, k - 1);
        let before = fields.take(k - 1);
        assert forall|j: int| 0 <= j < before.len() implies (#[trigger] before[j]).0 != fields[k
            - 1].0 by {
            assert(before[j] == fields[j]);
        }
        lemma_new_field_comes_last(before, fields[k - 1].0, fields[k - 1].1, 0);
        assert(fields.take(k) =~= before.push(fields[k - 1]));
    } else {
        assert(fields.take(0) =~= no_fields());
    }
}

proof fn lemma_field_names()
    ensures
        "trackId"@.len() == 7,
        "width"@.len() == 5,
        "height"@.len() == 6 && "height"@[0] == 'h',
        "timestampSec"@.len() == 12,
        "format"@.len() == 6 && "format"@[0] == 'f',
        "mimeType"@.len() == 8,
        "offset"@.len() == 6 && "offset"@[0] == 'o',
        "length"@.len() == 6 && "length"@[0] == 'l',
{
    reveal_strlit("trackId");
    reveal_strlit("width");
    reveal_strlit("height");
    reveal_strlit("timestampSec");
    reveal_strlit("format");
    reveal_strlit("mimeType");
    reveal_strlit("offset");
    reveal_strlit("length");
}

/// The entry of a picture says its track, its size, the whole seconds and the
/// nanoseconds of its time, its format, and where its bytes stand and how many
/// they are; in the one order or by name.
pub proof fn lemma_frame_entry_describes_its_frame(frame: Frame, offset: int, fields: FieldOrder)
    requires
        0 <= offset <= u64::MAX,
        0 <= frame.timestamp@ < 0x1_0000_0000_0000_0000 * 1_000_000_000,
    ensures
        ({
            let entry = frame_entry(frame, offset, fields);
            let seconds = frame.timestamp@ / 1_000_000_000;
            let nanos = frame.timestamp@ - seconds * 1_000_000_000;
            let time = MetaValue::Float(seconds_bits(seconds as u64, nanos as u32));
            let format = if frame.format is Jpeg {
                "jpeg"@
            } else {
                "png"@
            };
            match fields {
                FieldOrder::Declared => entry == seq![
                    ("trackId"@, MetaValue::Number(frame.track_id as u64)),
                    ("width"@, MetaValue::Number(frame.width as u64)),
                    ("height"@, MetaValue::Number(frame.height as u64)),
                    ("timestampSec"@, time),
                    ("format"@, MetaValue::Text(format)),
                    ("mimeType"@, MetaValue::Text("image/"@ + format)),
                    ("offset"@, MetaValue::Number(offset as u64)),
                    ("length"@, MetaValue::Number(frame.data@.len() as u64)),
                ],
                FieldOrder::ByName => entry == seq![
                    ("format"@, MetaValue::Text(format)),
                    ("height"@, MetaValue::Number(frame.height as u64)),
                    ("length"@, MetaValue::Number(frame.data@.len() as u64)),
                    ("mimeType"@, MetaValue::Text("image/"@ + format)),
                    ("offset"@, MetaValue::Number(offset as u64)),
                    ("timestampSec"@, time),
                    ("trackId"@, MetaValue::Number(frame.track_id as u64)),
                    ("width"@, MetaValue::Number(frame.width as u64)),
                ],
            }
        }),
{
    crate::types::lemma_formats_have_their_names(frame.format);
    lemma_field_names();
    let seconds = frame.timestamp@ / 1_000_000_000;
    let nanos = frame.timestamp@ - seconds * 1_000_000_000;
    let time = MetaValue::Float(seconds_bits(seconds as u64, nanos as u32));
    let format = if frame.format is Jpeg {
        "jpeg"@
    } else {
        "png"@
    };
    assert(time == seconds_value(frame.timestamp));
    let listed = match fields {
        FieldOrder::Declared => seq![
            ("trackId"@, MetaValue::Number(frame.track_id as u64)),
            ("width"@, MetaValue::Number(frame.width as u64)),
            ("height"@, MetaValue::Number(frame.height as u64)),
            ("timestampSec"@, time),
            ("format"@, MetaValue::Text(format)),
            ("mimeType"@, MetaValue::Text("image/"@ + format)),
            ("offset"@, MetaValue::Number(offset as u64)),
            ("length"@, MetaValue::Number(frame.data@.len() as u64)),
        ],
        FieldOrder::ByName => seq![
            ("format"@, MetaValue::Text(format)),
            ("height"@, MetaValue::Number(frame.height as u64)),
            ("length"@, MetaValue::Number(frame.data@.len() as u64)),
            ("mimeType"@, MetaValue::Text("image/"@ + format)),
            ("offset"@, MetaValue::Number(offset as u64)),
            ("timestampSec"@, time),
            ("trackId"@, MetaValue::Number(frame.track_id as u64)),
            ("width"@, MetaValue::Number(frame.width as u64)),
        ],
    };
    assert forall|i: int, j: int| 0 <= i < j < listed.len() implies (#[trigger] listed[i]).0 != (
    #[trigger] listed[j]).0 by {
        assert(listed[i].0.len() != listed[j].0.len() || listed[i].0[0] != listed[j].0[0]);
    }
    lemma_fields_stand_as_added(listed, 8);
    assert(listed.take(8) =~= listed);
    reveal_with_fuel(added, 9);
}

/// The entry of a cover says its format, how many bytes it has, its MIME type and
/// that they stand first.
pub proof fn lemma_cover_entry_describes_the_cover(cover: CoverArt)
    ensures
        cover_entry(cover) == seq![
            (
                "format"@,
                MetaValue::Text(
                    if cover.format is Jpeg {
                        "jpeg"@
                    } else {
                        "png"@
                    },
                ),
            ),
            ("length"@, MetaValue::Number(cover.data@.len() as u64)),
            ("mimeType"@, MetaValue::Text(cover.mime_type@)),
            ("offset"@, MetaValue::Number(0)),
        ],
{
    lemma_field_names();
    let listed = seq![
        ("format"@, MetaValue::Text(cover.format.label_text())),
        ("length"@, MetaValue::Number(cover.data@.len() as u64)),
        ("mimeType"@, MetaValue::Text(cover.mime_type@)),
        ("offset"@, MetaValue::Number(0)),
    ];
    assert forall|i: int, j: int| 0 <= i < j < listed.len() implies (#[trigger] listed[i]).0 != (
    #[trigger] listed[j]).0 by {
        assert(listed[i].0.len() != listed[j].0.len() || listed[i].0[0] != listed[j].0[0]);
    }
    lemma_fields_stand_as_added(listed, 4);
    assert(listed.take(4) =~= listed);
    reveal_with_fuel(added, 5);
}

/// The bytes of a picture can be cut out of an envelope by what its entry says,
/// and the entries are those that the header was written from.
pub proof fn lemma_thumbnail_envelope_gives_back_its_frames(
    frames: Seq<Frame>,
    order: Seq<usize>,
    max_output_bytes: usize,
    fields: FieldOrder,
    i: int,
)
    requires
        0 <= i < order.len(),
    ensures
        thumbnail_envelope(frames, order, max_output_bytes, fields) matches Ok(envelope) ==> {
            &&& json_array(frame_entries(frames, order, fields)) matches Ok(header)
            &&& header.len() == le32_value(envelope)
            &&& envelope.subrange(4, 4 + header.len() as int) == header
            &&& order[i] < frames.len()
            &&& exists|offset: int|
                #![trigger frame_entry(frames[order[i] as int], offset, fields)]
                {
                    let start = 4 + header.len() + offset;
                    &&& frame_entries(frames, order, fields)[i] == frame_entry(
                        frames[order[i] as int],
                        offset,
                        fields,
                    )
                    &&& envelope.subrange(start, start + frames[order[i] as int].data@.len())
                        == frames[order[i] as int].data@
                }
            &&& joined(frame_bytes(frames), frames.len() as int).len() <= max_output_bytes
        },
{
    let payloads = frame_bytes(frames);
    if let Ok(envelope) = thumbnail_envelope(frames, order, max_output_bytes, fields) {
        let header = json_array(frame_entries(frames, order, fields))->Ok_0;
        let place = order[i] as int;
        assert(order[i] < frames.len());
        lemma_envelope_gives_back_its_parts(header, payloads, place);
        let offset = payload_offset(payloads, place);
        assert(payloads[place] == frames[place].data@);
        assert(frame_entries(frames, order, fields)[i] == frame_entry(
            frames[place],
            offset,
            fields,
        ));
    }
}

/// Each picture stands in an envelope once, behind those before it.
pub proof fn lemma_payloads_stand_one_behind_another(payloads: Seq<Seq<u8>>, i: int)
    requires
        0 <= i < payloads.len(),
    ensures
        payload_offset(payloads, 0) == 0,
        payload_offset(payloads, i + 1) == payload_offset(payloads, i) + payloads[i].len(),
{
}

} // verus!
