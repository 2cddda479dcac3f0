//! Telling chapter lists from subtitle tracks.
//!
//! A disabled track that an enabled track names in a `chap` reference is its
//! list of chapters, and no subtitle track.

use std::collections::HashSet;

use vstd::prelude::*;

use crate::bytes::{bytes_equal, fourcc, read_u32_be};
use crate::errors::{other_error, MediaParserError};
use crate::memory::try_reserve_numbers;
use crate::mp4::boxes::{find_box, iter_boxes};
use crate::mp4::headers::{parse_tkhd, TrackHeader};
use crate::strings::{decimal_text, join2};

verus! {

broadcast use vstd::std_specs::hash::group_hash_axioms;

/// How many of the first `k` boxes are tracks.
pub open spec fn trak_count(boxes: Seq<(Seq<u8>, Seq<u8>)>, k: int) -> int
    decreases k,
{
    if k <= 0 {
        0
    } else if is_trak(boxes[k - 1]) {
        trak_count(boxes, k - 1) + 1
    } else {
        trak_count(boxes, k - 1)
    }
}

pub open spec fn is_trak(found: (Seq<u8>, Seq<u8>)) -> bool {
    found.0 == crate::bytes::code('t', 'r', 'a', 'k')
}

/// Whether a box is a track with this number that is not enabled.
pub open spec fn is_disabled_trak(found: (Seq<u8>, Seq<u8>), id: u32) -> bool {
    &&& is_trak(found)
    &&& crate::mp4::thumbnails::tkhd_of(found.1) matches Some(header) && !header.track_enabled
        && header.id == id
}

/// Whether a box is an enabled track that names a track as its chapters.
pub open spec fn is_chapter_source(found: (Seq<u8>, Seq<u8>), id: u32) -> bool {
    &&& is_trak(found)
    &&& crate::mp4::thumbnails::tkhd_of(found.1) matches Some(header) && header.track_enabled
    &&& names_chapters(crate::mp4::boxes::boxes_from(found.1, 0), id)
}

/// Whether one of a track's boxes is a `tref` that names a track as chapters.
pub open spec fn names_chapters(boxes: Seq<(Seq<u8>, Seq<u8>)>, id: u32) -> bool {
    any_tref(boxes, boxes.len() as int, id)
}

pub open spec fn any_tref(boxes: Seq<(Seq<u8>, Seq<u8>)>, k: int, id: u32) -> bool {
    exists|i: int| 0 <= i < k && #[trigger] tref_names(boxes[i], id)
}

pub open spec fn tref_names(found: (Seq<u8>, Seq<u8>), id: u32) -> bool {
    &&& found.0 == crate::bytes::code('t', 'r', 'e', 'f')
    &&& lists_chapters(crate::mp4::boxes::boxes_from(found.1, 0), id)
}

/// Whether one of the references of a track is a `chap` that lists a track.
pub open spec fn lists_chapters(references: Seq<(Seq<u8>, Seq<u8>)>, id: u32) -> bool {
    any_chap(references, references.len() as int, id)
}

pub open spec fn any_chap(references: Seq<(Seq<u8>, Seq<u8>)>, k: int, id: u32) -> bool {
    exists|i: int| 0 <= i < k && #[trigger] chap_lists(references[i], id)
}

/// Whether a reference is a well-formed `chap` that lists a track.
pub open spec fn chap_lists(found: (Seq<u8>, Seq<u8>), id: u32) -> bool {
    &&& found.0 == crate::bytes::code('c', 'h', 'a', 'p')
    &&& found.1.len() % 4 == 0
    &&& exists|n: int| 0 <= n < found.1.len() / 4 && #[trigger] listed_id(found.1, n) == id
}

/// The track number at the place `n` of a list.
pub open spec fn listed_id(list: Seq<u8>, n: int) -> u32 {
    crate::bytes::be32(list, 4 * n) as u32
}

pub open spec fn any_disabled(boxes: Seq<(Seq<u8>, Seq<u8>)>, k: int, id: u32) -> bool {
    exists|i: int| 0 <= i < k && #[trigger] is_disabled_trak(boxes[i], id)
}

pub open spec fn any_source(boxes: Seq<(Seq<u8>, Seq<u8>)>, k: int, id: u32) -> bool {
    exists|i: int| 0 <= i < k && #[trigger] is_chapter_source(boxes[i], id)
}

/// The disabled tracks that are the chapters of an enabled one.
pub open spec fn chapter_ids(payload: Seq<u8>) -> Set<u32> {
    let boxes = crate::mp4::boxes::boxes_from(payload, 0);
    Set::new(
        |id: u32|
            id != 0 && any_disabled(boxes, boxes.len() as int, id) && any_source(
                boxes,
                boxes.len() as int,
                id,
            ),
    )
}

proof fn lemma_any_chap_step(boxes: Seq<(Seq<u8>, Seq<u8>)>, k: int, id: u32)
    requires
        0 <= k,
    ensures
        any_chap(boxes, k + 1, id) <==> any_chap(boxes, k, id) || chap_lists(boxes[k], id),
{
    if any_chap(boxes, k + 1, id) {
        let i = choose|i: int| 0 <= i < k + 1 && #[trigger] chap_lists(boxes[i], id);
        assert(i < k || chap_lists(boxes[k], id));
    }
    if any_chap(boxes, k, id) {
        let i = choose|i: int| 0 <= i < k && #[trigger] chap_lists(boxes[i], id);
        assert(chap_lists(boxes[i], id));
    }
}

proof fn lemma_any_tref_step(boxes: Seq<(Seq<u8>, Seq<u8>)>, k: int, id: u32)
    requires
        0 <= k,
    ensures
        any_tref(boxes, k + 1, id) <==> any_tref(boxes, k, id) || tref_names(boxes[k], id),
{
    if any_tref(boxes, k + 1, id) {
        let i = choose|i: int| 0 <= i < k + 1 && #[trigger] tref_names(boxes[i], id);
        assert(i < k || tref_names(boxes[k], id));
    }
    if any_tref(boxes, k, id) {
        let i = choose|i: int| 0 <= i < k && #[trigger] tref_names(boxes[i], id);
        assert(tref_names(boxes[i], id));
    }
}

proof fn lemma_any_disabled_step(boxes: Seq<(Seq<u8>, Seq<u8>)>, k: int, id: u32)
    requires
        0 <= k,
    ensures
        any_disabled(boxes, k + 1, id) <==> any_disabled(boxes, k, id) || is_disabled_trak(boxes[k], id),
{
    if any_disabled(boxes, k + 1, id) {
        let i = choose|i: int| 0 <= i < k + 1 && #[trigger] is_disabled_trak(boxes[i], id);
        assert(i < k || is_disabled_trak(boxes[k], id));
    }
    if any_disabled(boxes, k, id) {
        let i = choose|i: int| 0 <= i < k && #[trigger] is_disabled_trak(boxes[i], id);
        assert(is_disabled_trak(boxes[i], id));
    }
}

proof fn lemma_any_source_step(boxes: Seq<(Seq<u8>, Seq<u8>)>, k: int, id: u32)
    requires
        0 <= k,
    ensures
        any_source(boxes, k + 1, id) <==> any_source(boxes, k, id) || is_chapter_source(boxes[k], id),
{
    if any_source(boxes, k + 1, id) {
        let i = choose|i: int| 0 <= i < k + 1 && #[trigger] is_chapter_source(boxes[i], id);
        assert(i < k || is_chapter_source(boxes[k], id));
    }
    if any_source(boxes, k, id) {
        let i = choose|i: int| 0 <= i < k && #[trigger] is_chapter_source(boxes[i], id);
        assert(is_chapter_source(boxes[i], id));
    }
}

/// The words for too many tracks.
pub open spec fn too_many_traks(max_traks: usize) -> Seq<char> {
    "track count exceeds limit of "@ + crate::strings::decimal(max_traks as int)
}

/// Whether an error is the one for numbers that the allocator refused.
pub open spec fn reports_no_room(error: MediaParserError) -> bool {
    error@ == crate::errors::ErrorView::Other(
        "MP4 chapter track classification allocation failed"@,
    )
}

/// Whether one of the first `max_traks` tracks is not enabled, and its number is
/// kept for that.
pub open spec fn disabled_within(boxes: Seq<(Seq<u8>, Seq<u8>)>, max_traks: int) -> bool {
    exists|i: int, id: u32|
        0 <= i < boxes.len() && trak_count(boxes, i) < max_traks && #[trigger] is_disabled_trak(
            boxes[i],
            id,
        )
}

/// Where all tracks are within the limit, so is one that is not enabled.
proof fn lemma_disabled_within(boxes: Seq<(Seq<u8>, Seq<u8>)>, max_traks: int, id: u32)
    requires
        trak_count(boxes, boxes.len() as int) <= max_traks,
        any_disabled(boxes, boxes.len() as int, id),
    ensures
        disabled_within(boxes, max_traks),
{
    let i = choose|i: int| 0 <= i < boxes.len() && #[trigger] is_disabled_trak(boxes[i], id);
    lemma_trak_count_monotone(boxes, i + 1, boxes.len() as int);
}

/// Puts a number into a set.
fn try_push_unique_track_id(ids: &mut HashSet<u32>, id: u32) -> (result: Result<
    (),
    MediaParserError,
>)
    ensures
        match result {
            Ok(_) => final(ids)@ == old(ids)@.insert(id),
            Err(error) => reports_no_room(error),
        },
{
    if ids.contains(&id) {
        assert(ids@ =~= ids@.insert(id));
        return Ok(());
    }
    if !try_reserve_numbers(ids, 1) {
        return Err(other_error("MP4 chapter track classification allocation failed"));
    }
    ids.insert(id);
    Ok(())
}

/// The header of a track.
pub(crate) fn read_track_header(trak: &[u8]) -> (result: Option<TrackHeader>)
    ensures
        result == crate::mp4::thumbnails::tkhd_of(trak@),
{
    match find_box(trak, &fourcc('t', 'k', 'h', 'd')) {
        Some(tkhd) => parse_tkhd(tkhd),
        None => None,
    }
}

/// Puts those of a list's numbers that are wanted into a set.
fn collect_listed_ids(list: &[u8], wanted: &HashSet<u32>, found: &mut HashSet<u32>) -> (result:
    Result<(), MediaParserError>)
    requires
        list@.len() % 4 == 0,
    ensures
        match result {
            Ok(_) => forall|id: u32| #[trigger]
                final(found)@.contains(id) <==> old(found)@.contains(id) || id != 0
                    && wanted@.contains(id) && exists|n: int|
                    0 <= n < list@.len() / 4 && #[trigger] listed_id(list@, n) == id,
            Err(error) => reports_no_room(error) && exists|id: u32| #[trigger]
                wanted@.contains(id),
        },
{
    let count: usize = list.len() / 4;
    let mut index: usize = 0;
    while index < count
        invariant
            index <= count,
            count == list.len() / 4,
            forall|id: u32| #[trigger]
                found@.contains(id) <==> old(found)@.contains(id) || id != 0 && wanted@.contains(id)
                    && exists|n: int| 0 <= n < index && #[trigger] listed_id(list@, n) == id,
        decreases count - index,
    {
        let ghost before = found@;
        let id: u32 = match read_u32_be(list, 4 * index) {
            Some(id) => id,
            None => 0,
        };
        assert(id == listed_id(list@, index as int));
        if id != 0 && wanted.contains(&id) {
            match try_push_unique_track_id(found, id) {
                Ok(_) => {},
                Err(error) => {
                    return Err(error);
                },
            }
        }
        index += 1;
        assert forall|other: u32| #[trigger]
            found@.contains(other) <==> old(found)@.contains(other) || other != 0
                && wanted@.contains(other) && exists|n: int|
                0 <= n < index && #[trigger] listed_id(list@, n) == other by {
            if exists|n: int| 0 <= n < index && #[trigger] listed_id(list@, n) == other {
                let n = choose|n: int| 0 <= n < index && #[trigger] listed_id(list@, n) == other;
                if n < index - 1 {
                    assert(before.contains(other) || other == 0 || !wanted@.contains(other));
                }
            }
        }
    }
    Ok(())
}

/// Puts those of a reference box's chapters that are wanted into a set.
fn collect_tref_chapter_ids(tref: &[u8], wanted: &HashSet<u32>, found: &mut HashSet<u32>) -> (result:
    Result<(), MediaParserError>)
    ensures
        match result {
            Ok(_) => forall|id: u32| #[trigger]
                final(found)@.contains(id) <==> old(found)@.contains(id) || id != 0
                    && wanted@.contains(id) && lists_chapters(
                    crate::mp4::boxes::boxes_from(tref@, 0),
                    id,
                ),
            Err(error) => reports_no_room(error) && exists|id: u32| #[trigger]
                wanted@.contains(id),
        },
{
    let references = iter_boxes(tref);
    let ghost views = crate::mp4::boxes::box_views(references@);
    let chap = fourcc('c', 'h', 'a', 'p');
    let mut index: usize = 0;
    while index < references.len()
        invariant
            index <= references@.len(),
            views == crate::mp4::boxes::box_views(references@),
            chap@ == crate::bytes::code('c', 'h', 'a', 'p'),
            forall|id: u32| #[trigger]
                found@.contains(id) <==> old(found)@.contains(id) || id != 0 && wanted@.contains(id)
                    && any_chap(views, index as int, id),
        decreases references@.len() - index,
    {
        let ghost before = found@;
        let reference = references[index];
        assert(views[index as int] == (reference.0@, reference.1@));
        if bytes_equal(&reference.0, &chap) && reference.1.len() % 4 == 0 {
            match collect_listed_ids(reference.1, wanted, found) {
                Ok(_) => {},
                Err(error) => {
                    return Err(error);
                },
            }
        }
        index += 1;
        assert forall|id: u32| #[trigger]
            found@.contains(id) <==> old(found)@.contains(id) || id != 0 && wanted@.contains(id)
                && any_chap(views, index as int, id) by {
            lemma_any_chap_step(views, index - 1, id);
            assert(before.contains(id) || !before.contains(id));
        }
    }
    Ok(())
}

/// Puts those chapters of a track that are wanted into a set.
fn collect_enabled_chapter_references(
    trak: &[u8],
    wanted: &HashSet<u32>,
    found: &mut HashSet<u32>,
) -> (result: Result<(), MediaParserError>)
    ensures
        match result {
            Ok(_) => forall|id: u32| #[trigger]
                final(found)@.contains(id) <==> old(found)@.contains(id) || id != 0
                    && wanted@.contains(id) && names_chapters(
                    crate::mp4::boxes::boxes_from(trak@, 0),
                    id,
                ),
            Err(error) => reports_no_room(error) && exists|id: u32| #[trigger]
                wanted@.contains(id),
        },
{
    let children = iter_boxes(trak);
    let ghost views = crate::mp4::boxes::box_views(children@);
    let tref = fourcc('t', 'r', 'e', 'f');
    let mut index: usize = 0;
    while index < children.len()
        invariant
            index <= children@.len(),
            views == crate::mp4::boxes::box_views(children@),
            tref@ == crate::bytes::code('t', 'r', 'e', 'f'),
            forall|id: u32| #[trigger]
                found@.contains(id) <==> old(found)@.contains(id) || id != 0 && wanted@.contains(id)
                    && any_tref(views, index as int, id),
        decreases children@.len() - index,
    {
        let ghost before = found@;
        let child = children[index];
        assert(views[index as int] == (child.0@, child.1@));
        if bytes_equal(&child.0, &tref) {
            match collect_tref_chapter_ids(child.1, wanted, found) {
                Ok(_) => {},
                Err(error) => {
                    return Err(error);
                },
            }
        }
        index += 1;
        assert forall|id: u32| #[trigger]
            found@.contains(id) <==> old(found)@.contains(id) || id != 0 && wanted@.contains(id)
                && any_tref(views, index as int, id) by {
            lemma_any_tref_step(views, index - 1, id);
            assert(before.contains(id) || !before.contains(id));
        }
    }
    Ok(())
}

/// The numbers of all disabled tracks, unless there are too many tracks.
fn disabled_track_ids(payload: &[u8], max_traks: usize) -> (result: Result<
    HashSet<u32>,
    MediaParserError,
>)
    ensures
        ({
            let boxes = crate::mp4::boxes::boxes_from(payload@, 0);
            match result {
                Ok(ids) => {
                    &&& trak_count(boxes, boxes.len() as int) <= max_traks
                    &&& forall|id: u32| #[trigger]
                        ids@.contains(id) <==> any_disabled(boxes, boxes.len() as int, id)
                },
                Err(error) => {
                    ||| disabled_within(boxes, max_traks as int) && reports_no_room(error)
                    ||| trak_count(boxes, boxes.len() as int) > max_traks && error@
                        == crate::errors::ErrorView::InvalidFormat(too_many_traks(max_traks))
                },
            }
        }),
{
    let boxes = iter_boxes(payload);
    let ghost views = crate::mp4::boxes::box_views(boxes@);
    let trak = fourcc('t', 'r', 'a', 'k');
    let mut ids: HashSet<u32> = HashSet::new();
    let mut count: usize = 0;
    let mut index: usize = 0;
    while index < boxes.len()
        invariant
            index <= boxes@.len(),
            views == crate::mp4::boxes::box_views(boxes@),
            views == crate::mp4::boxes::boxes_from(payload@, 0),
            trak@ == crate::bytes::code('t', 'r', 'a', 'k'),
            count == trak_count(views, index as int),
            count <= index,
            count <= max_traks,
            forall|id: u32| #[trigger]
                ids@.contains(id) <==> any_disabled(views, index as int, id),
        decreases boxes@.len() - index,
    {
        let ghost before = ids@;
        let found = boxes[index];
        assert(views[index as int] == (found.0@, found.1@));
        if bytes_equal(&found.0, &trak) {
            count += 1;
            if count > max_traks {
                proof {
                    lemma_trak_count_monotone(views, index + 1, views.len() as int);
                }
                return Err(
                    MediaParserError::InvalidFormat(
                        join2(
                            "track count exceeds limit of ",
                            decimal_text(max_traks as u64).as_str(),
                        ),
                    ),
                );
            }
            match read_track_header(found.1) {
                Some(header) => {
                    if !header.track_enabled {
                        match try_push_unique_track_id(&mut ids, header.id) {
                            Ok(_) => {},
                            Err(error) => {
                                assert(is_disabled_trak(views[index as int], header.id));
                                return Err(error);
                            },
                        }
                    }
                },
                None => {},
            }
        }
        index += 1;
        assert forall|id: u32| #[trigger]
            ids@.contains(id) <==> any_disabled(views, index as int, id) by {
            lemma_any_disabled_step(views, index - 1, id);
            assert(before.contains(id) <==> any_disabled(views, index - 1, id));
        }
    }
    Ok(ids)
}

proof fn lemma_trak_count_monotone(boxes: Seq<(Seq<u8>, Seq<u8>)>, i: int, j: int)
    requires
        i <= j,
    ensures
        trak_count(boxes, i) <= trak_count(boxes, j),
    decreases j - i,
{
    if i < j {
        lemma_trak_count_monotone(boxes, i, j - 1);
    }
}

/// The numbers of the disabled tracks that are the chapters of an enabled one.
///
/// A reference whose framing or payload is malformed counts for nothing; those
/// before it still do.
pub fn disabled_chapter_track_ids(payload: &[u8], max_traks: usize) -> (result: Result<
    HashSet<u32>,
    MediaParserError,
>)
    ensures
        ({
            let boxes = crate::mp4::boxes::boxes_from(payload@, 0);
            match result {
                Ok(ids) => trak_count(boxes, boxes.len() as int) <= max_traks && ids@
                    == chapter_ids(payload@),
                Err(error) => {
                    ||| disabled_within(boxes, max_traks as int) && reports_no_room(error)
                    ||| trak_count(boxes, boxes.len() as int) > max_traks && error@
                        == crate::errors::ErrorView::InvalidFormat(too_many_traks(max_traks))
                },
            }
        }),
{
    let disabled = match disabled_track_ids(payload, max_traks) {
        Ok(disabled) => disabled,
        Err(error) => {
            return Err(error);
        },
    };
    let boxes = iter_boxes(payload);
    let ghost views = crate::mp4::boxes::box_views(boxes@);
    let trak = fourcc('t', 'r', 'a', 'k');
    let mut ids: HashSet<u32> = HashSet::new();
    let mut index: usize = 0;
    while index < boxes.len()
        invariant
            index <= boxes@.len(),
            views == crate::mp4::boxes::box_views(boxes@),
            views == crate::mp4::boxes::boxes_from(payload@, 0),
            trak@ == crate::bytes::code('t', 'r', 'a', 'k'),
            trak_count(views, views.len() as int) <= max_traks,
            forall|id: u32| #[trigger]
                disabled@.contains(id) <==> any_disabled(views, views.len() as int, id),
            forall|id: u32| #[trigger]
                ids@.contains(id) <==> id != 0 && disabled@.contains(id) && any_source(
                    views,
                    index as int,
                    id,
                ),
        decreases boxes@.len() - index,
    {
        let ghost before = ids@;
        let found = boxes[index];
        assert(views[index as int] == (found.0@, found.1@));
        if bytes_equal(&found.0, &trak) {
            match read_track_header(found.1) {
                Some(header) => {
                    if header.track_enabled {
                        match collect_enabled_chapter_references(found.1, &disabled, &mut ids) {
                            Ok(_) => {},
                            Err(error) => {
                                proof {
                                    let id = choose|id: u32| #[trigger] disabled@.contains(id);
                                    lemma_disabled_within(views, max_traks as int, id);
                                }
                                return Err(error);
                            },
                        }
                    }
                },
                None => {},
            }
        }
        index += 1;
        assert forall|id: u32| #[trigger]
            ids@.contains(id) <==> id != 0 && disabled@.contains(id) && any_source(
                views,
                index as int,
                id,
            ) by {
            lemma_any_source_step(views, index - 1, id);
            assert(before.contains(id) <==> id != 0 && disabled@.contains(id) && any_source(
                views,
                index - 1,
                id,
            ));
        }
    }
    assert(ids@ =~= chapter_ids(payload@));
    Ok(ids)
}

/// The chapter tracks are those that are not enabled and that an enabled track
/// names as its chapters, in a list of track numbers of four bytes each.
pub proof fn lemma_chapter_tracks_are_disabled_and_named(
    boxes: Seq<(Seq<u8>, Seq<u8>)>,
    disabled: int,
    source: int,
    id: u32,
)
    requires
        crate::mp4::boxes::writable(boxes),
        0 <= disabled < boxes.len(),
        0 <= source < boxes.len(),
        boxes[disabled].0 == crate::bytes::code('t', 'r', 'a', 'k'),
        boxes[source].0 == crate::bytes::code('t', 'r', 'a', 'k'),
        crate::mp4::thumbnails::tkhd_of(boxes[disabled].1) matches Some(header)
            && !header.track_enabled && header.id == id,
        crate::mp4::thumbnails::tkhd_of(boxes[source].1) matches Some(header)
            && header.track_enabled,
        names_chapters(crate::mp4::boxes::boxes_from(boxes[source].1, 0), id),
        id != 0,
    ensures
        chapter_ids(crate::mp4::boxes::written_boxes(boxes)).contains(id),
{
    crate::mp4::boxes::lemma_written_boxes_read_back(boxes);
    assert(is_disabled_trak(boxes[disabled], id));
    assert(is_chapter_source(boxes[source], id));
}

/// A track that no track header marks as not enabled is no chapter track.
pub proof fn lemma_enabled_tracks_are_no_chapters(boxes: Seq<(Seq<u8>, Seq<u8>)>, id: u32)
    requires
        crate::mp4::boxes::writable(boxes),
        forall|i: int|
            0 <= i < boxes.len() && (#[trigger] boxes[i]).0 == crate::bytes::code(
                't',
                'r',
                'a',
                'k',
            ) ==> (crate::mp4::thumbnails::tkhd_of(boxes[i].1) matches Some(header) ==> header.id
                == id ==> header.track_enabled),
    ensures
        !chapter_ids(crate::mp4::boxes::written_boxes(boxes)).contains(id),
{
    crate::mp4::boxes::lemma_written_boxes_read_back(boxes);
    if chapter_ids(crate::mp4::boxes::written_boxes(boxes)).contains(id) {
        let i = choose|i: int| 0 <= i < boxes.len() && #[trigger] is_disabled_trak(boxes[i], id);
        assert(boxes[i] == boxes[i]);
    }
}

/// A track is named as chapters by its number in a `chap` list inside a `tref`
/// box.
pub proof fn lemma_listed_tracks_are_named(list: Seq<u8>, n: int, id: u32)
    requires
        list.len() % 4 == 0,
        list.len() + 16 <= u32::MAX,
        0 <= n,
        4 * n + 4 <= list.len(),
        list.subrange(4 * n, 4 * n + 4) == crate::bytes::written32(id as int),
    ensures
        names_chapters(
            crate::mp4::boxes::boxes_from(
                crate::mp4::boxes::written_boxes(
                    seq![
                        (
                            crate::bytes::code('t', 'r', 'e', 'f'),
                            crate::mp4::boxes::written_boxes(
                                seq![(crate::bytes::code('c', 'h', 'a', 'p'), list)],
                            ),
                        ),
                    ],
                ),
                0,
            ),
            id,
        ),
{
    let code_tref = crate::bytes::code('t', 'r', 'e', 'f');
    let code_chap = crate::bytes::code('c', 'h', 'a', 'p');
    let references = seq![(code_chap, list)];
    let inner = crate::mp4::boxes::written_boxes(references);
    assert(references.drop_first() =~= seq![]);
    assert(inner =~= crate::mp4::boxes::written_box(code_chap, list)) by {
        reveal_with_fuel(crate::mp4::boxes::written_boxes, 2);
    }
    let boxes = seq![(code_tref, inner)];
    crate::mp4::boxes::lemma_written_boxes_read_back(references);
    crate::mp4::boxes::lemma_written_boxes_read_back(boxes);
    crate::bytes::lemma_written_numbers_read_back(list, 4 * n, id as int);
    assert(listed_id(list, n) == id);
    assert(chap_lists(references[0], id));
    assert(tref_names(boxes[0], id));
}

} // verus!
