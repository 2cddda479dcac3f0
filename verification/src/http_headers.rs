//! Lists of HTTP headers, each a pair of name and value.

use vstd::prelude::*;

use crate::strings::{equal_ignoring_case, is_text_up_to, lowercase, text_equal};

verus! {

/// Header pairs by their characters.
pub open spec fn views(headers: Seq<(String, String)>) -> Seq<(Seq<char>, Seq<char>)> {
    crate::types::pair_views(headers)
}

/// Whether no two pairs have the same name.
pub open spec fn names_distinct(pairs: Seq<(Seq<char>, Seq<char>)>) -> bool {
    forall|i: int, j: int|
        0 <= i < j < pairs.len() ==> (#[trigger] pairs[i]).0 != (#[trigger] pairs[j]).0
}

// ---------------------------------------------------------------------------
// Setting headers
// ---------------------------------------------------------------------------

/// The place of the first header from `i` on that has exactly this name.
pub open spec fn header_place(
    headers: Seq<(Seq<char>, Seq<char>)>,
    name: Seq<char>,
    i: int,
) -> Option<int>
    decreases headers.len() - i,
{
    if i >= headers.len() {
        None
    } else if headers[i].0 == name {
        Some(i)
    } else {
        header_place(headers, name, i + 1)
    }
}

/// The headers with one set: its value replaced, or the header added.
pub open spec fn with_header(
    headers: Seq<(Seq<char>, Seq<char>)>,
    name: Seq<char>,
    value: Seq<char>,
) -> Seq<(Seq<char>, Seq<char>)> {
    match header_place(headers, name, 0) {
        Some(place) => headers.update(place, (name, value)),
        None => headers.push((name, value)),
    }
}

/// The value that the first header with this name has.
pub open spec fn header_value(
    headers: Seq<(Seq<char>, Seq<char>)>,
    name: Seq<char>,
) -> Option<Seq<char>> {
    match header_place(headers, name, 0) {
        Some(place) => Some(headers[place].1),
        None => None,
    }
}

/// The headers with the first `k` of others set, their names in lower case.
pub open spec fn with_lowercase_headers(
    headers: Seq<(Seq<char>, Seq<char>)>,
    added: Seq<(Seq<char>, Seq<char>)>,
    k: int,
) -> Seq<(Seq<char>, Seq<char>)>
    decreases k,
{
    if k <= 0 {
        headers
    } else {
        with_header(
            with_lowercase_headers(headers, added, k - 1),
            crate::strings::lower_text(added[k - 1].0),
            added[k - 1].1,
        )
    }
}

proof fn lemma_header_place(headers: Seq<(Seq<char>, Seq<char>)>, name: Seq<char>, i: int)
    requires
        0 <= i <= headers.len(),
    ensures
        match header_place(headers, name, i) {
            Some(place) => i <= place < headers.len() && headers[place].0 == name && forall|j: int|
                i <= j < place ==> (#[trigger] headers[j]).0 != name,
            None => forall|j: int| i <= j < headers.len() ==> (#[trigger] headers[j]).0 != name,
        },
    decreases headers.len() - i,
{
    if i < headers.len() && headers[i].0 != name {
        lemma_header_place(headers, name, i + 1);
    }
}

proof fn lemma_header_place_is(
    headers: Seq<(Seq<char>, Seq<char>)>,
    name: Seq<char>,
    i: int,
    place: int,
)
    requires
        0 <= i <= place < headers.len(),
        headers[place].0 == name,
        forall|j: int| i <= j < place ==> (#[trigger] headers[j]).0 != name,
    ensures
        header_place(headers, name, i) == Some(place),
    decreases place - i,
{
    if i < place {
        lemma_header_place_is(headers, name, i + 1, place);
    }
}

/// A header that was set has the value it was set to.
pub proof fn lemma_set_header_is_read(
    headers: Seq<(Seq<char>, Seq<char>)>,
    name: Seq<char>,
    value: Seq<char>,
)
    ensures
        header_value(with_header(headers, name, value), name) == Some(value),
{
    lemma_header_place(headers, name, 0);
    let after = with_header(headers, name, value);
    match header_place(headers, name, 0) {
        Some(place) => {
            lemma_header_place_is(after, name, 0, place);
        },
        None => {
            assert forall|j: int| 0 <= j < headers.len() implies (#[trigger] after[j]).0
                != name by {
                assert(headers[j].0 != name);
            }
            lemma_header_place_is(after, name, 0, headers.len() as int);
        },
    }
}

/// Setting a header names none twice.
pub proof fn lemma_set_header_keeps_names_distinct(
    headers: Seq<(Seq<char>, Seq<char>)>,
    name: Seq<char>,
    value: Seq<char>,
)
    requires
        names_distinct(headers),
    ensures
        names_distinct(with_header(headers, name, value)),
{
    lemma_header_place(headers, name, 0);
    let set = with_header(headers, name, value);
    assert forall|i: int, j: int| 0 <= i < j < set.len() implies (#[trigger] set[i]).0 != (
    #[trigger] set[j]).0 by {
        if j < headers.len() {
            assert(headers[i].0 != headers[j].0);
        } else {
            assert(headers[i].0 != name);
        }
    }
}

/// Setting headers in lower case names none twice.
pub proof fn lemma_set_headers_keep_names_distinct(
    headers: Seq<(Seq<char>, Seq<char>)>,
    added: Seq<(Seq<char>, Seq<char>)>,
    k: int,
)
    requires
        names_distinct(headers),
    ensures
        names_distinct(with_lowercase_headers(headers, added, k)),
    decreases k,
{
    if k > 0 {
        lemma_set_headers_keep_names_distinct(headers, added, k - 1);
        lemma_set_header_keeps_names_distinct(
            with_lowercase_headers(headers, added, k - 1),
            crate::strings::lower_text(added[k - 1].0),
            added[k - 1].1,
        );
    }
}

/// Sets a header: replaces its value, or adds it.
pub fn set_header(headers: &mut Vec<(String, String)>, name: String, value: String)
    ensures
        views(final(headers)@) == with_header(views(old(headers)@), name@, value@),
{
    let ghost before = views(headers@);
    let mut index: usize = 0;
    while index < headers.len()
        invariant
            index <= headers@.len(),
            headers@ == old(headers)@,
            before == views(headers@),
            header_place(before, name@, 0) == header_place(before, name@, index as int),
        decreases headers@.len() - index,
    {
        assert(before[index as int] == crate::types::pair_view(headers@[index as int]));
        if text_equal(headers[index].0.as_str(), name.as_str()) {
            let ghost pair = (name@, value@);
            headers.set(index, (name, value));
            assert(views(headers@) =~= before.update(index as int, pair));
            return;
        }
        index += 1;
    }
    let ghost pair = (name@, value@);
    headers.push((name, value));
    assert(views(headers@) =~= before.push(pair));
}

/// Sets headers, their names in lower case; later ones replace earlier ones.
pub fn set_lowercase_headers(headers: &mut Vec<(String, String)>, added: Vec<(String, String)>)
    ensures
        views(final(headers)@) == with_lowercase_headers(
            views(old(headers)@),
            views(added@),
            added@.len() as int,
        ),
{
    let ghost all = added@;
    let ghost before = views(headers@);
    for pair in iter: added
        invariant
            iter.seq() == all,
            before == views(old(headers)@),
            views(headers@) == with_lowercase_headers(before, views(all), iter.index() as int),
    {
        assert(views(all)[iter.index() as int] == crate::types::pair_view(pair));
        set_header(headers, lowercase(pair.0.as_str()), pair.1);
    }
}

// ---------------------------------------------------------------------------
// Merging
// ---------------------------------------------------------------------------

/// Whether one of the headers has this name, in upper or lower case.
pub open spec fn has_header(headers: Seq<(Seq<char>, Seq<char>)>, name: Seq<char>) -> bool {
    exists|i: int|
        0 <= i < headers.len() && crate::strings::lower_text((#[trigger] headers[i]).0)
            == crate::strings::lower_text(name)
}

/// The headers with those of the first `k` defaults added that they lack.
pub open spec fn with_defaults(
    headers: Seq<(Seq<char>, Seq<char>)>,
    defaults: Seq<(Seq<char>, Seq<char>)>,
    k: int,
) -> Seq<(Seq<char>, Seq<char>)>
    decreases k,
{
    if k <= 0 {
        headers
    } else {
        let merged = with_defaults(headers, defaults, k - 1);
        if has_header(merged, defaults[k - 1].0) {
            merged
        } else {
            merged.push(defaults[k - 1])
        }
    }
}

/// Adding defaults names no header twice.
pub proof fn lemma_defaults_keep_names_distinct(
    headers: Seq<(Seq<char>, Seq<char>)>,
    defaults: Seq<(Seq<char>, Seq<char>)>,
    k: int,
)
    requires
        names_distinct(headers),
    ensures
        names_distinct(with_defaults(headers, defaults, k)),
    decreases k,
{
    if k > 0 {
        lemma_defaults_keep_names_distinct(headers, defaults, k - 1);
        let merged = with_defaults(headers, defaults, k - 1);
        let longer = with_defaults(headers, defaults, k);
        assert forall|i: int, j: int| 0 <= i < j < longer.len() implies (
        #[trigger] longer[i]).0 != (#[trigger] longer[j]).0 by {
            if j < merged.len() {
                assert(merged[i].0 != merged[j].0);
            } else {
                assert(merged[i].0 != defaults[k - 1].0);
            }
        }
    }
}

/// Headers override defaults: all headers of a request stay as they are, in
/// front, and no default is added under a name that one of them has.
pub proof fn lemma_headers_override_defaults(
    headers: Seq<(Seq<char>, Seq<char>)>,
    defaults: Seq<(Seq<char>, Seq<char>)>,
    k: int,
)
    requires
        0 <= k <= defaults.len(),
    ensures
        ({
            let merged = with_defaults(headers, defaults, k);
            &&& headers.is_prefix_of(merged)
            &&& forall|i: int|
                headers.len() <= i < merged.len() ==> !has_header(
                    headers,
                    (#[trigger] merged[i]).0,
                ) && defaults.contains(merged[i])
            &&& forall|i: int| 0 <= i < k ==> has_header(merged, (#[trigger] defaults[i]).0)
        }),
    decreases k,
{
    if k > 0 {
        lemma_headers_override_defaults(headers, defaults, k - 1);
        let before = with_defaults(headers, defaults, k - 1);
        let merged = with_defaults(headers, defaults, k);
        let default = defaults[k - 1];
        assert forall|i: int| headers.len() <= i < merged.len() implies !has_header(
            headers,
            (#[trigger] merged[i]).0,
        ) && defaults.contains(merged[i]) by {
            if i < before.len() {
                assert(merged[i] == before[i]);
            } else {
                assert(merged[i] == defaults[k - 1]);
                if has_header(headers, default.0) {
                    let j = choose|j: int|
                        0 <= j < headers.len() && crate::strings::lower_text(
                            (#[trigger] headers[j]).0,
                        ) == crate::strings::lower_text(default.0);
                    assert(before[j] == headers[j]);
                    assert(has_header(before, default.0));
                }
            }
        }
        assert forall|i: int| 0 <= i < k implies has_header(
            merged,
            (#[trigger] defaults[i]).0,
        ) by {
            if i < k - 1 || has_header(before, default.0) {
                let name = defaults[i].0;
                assert(has_header(before, name));
                let j = choose|j: int|
                    0 <= j < before.len() && crate::strings::lower_text((#[trigger] before[j]).0)
                        == crate::strings::lower_text(name);
                assert(merged[j] == before[j]);
            } else {
                assert(merged[before.len() as int] == default);
            }
        }
    }
}

/// Whether one of the headers has this name, in upper or lower case.
fn contains_header(headers: &Vec<(String, String)>, name: &str) -> (result: bool)
    ensures
        result == has_header(views(headers@), name@),
{
    let ghost all = views(headers@);
    let mut index: usize = 0;
    while index < headers.len()
        invariant
            index <= headers@.len(),
            all == views(headers@),
            forall|i: int|
                0 <= i < index ==> crate::strings::lower_text((#[trigger] all[i]).0)
                    != crate::strings::lower_text(name@),
        decreases headers@.len() - index,
    {
        assert(all[index as int] == crate::types::pair_view(headers@[index as int]));
        if equal_ignoring_case(headers[index].0.as_str(), name) {
            return true;
        }
        index += 1;
    }
    false
}

/// Adds those defaults to the headers that they lack.
pub fn add_missing(headers: &mut Vec<(String, String)>, defaults: &Vec<(String, String)>)
    ensures
        views(final(headers)@) == with_defaults(
            views(old(headers)@),
            views(defaults@),
            defaults@.len() as int,
        ),
{
    let ghost given = views(headers@);
    let ghost all = views(defaults@);
    let mut index: usize = 0;
    while index < defaults.len()
        invariant
            index <= defaults@.len(),
            given == views(old(headers)@),
            all == views(defaults@),
            views(headers@) == with_defaults(given, all, index as int),
        decreases defaults@.len() - index,
    {
        let ghost before = views(headers@);
        assert(all[index as int] == crate::types::pair_view(defaults@[index as int]));
        if !contains_header(headers, defaults[index].0.as_str()) {
            let name = defaults[index].0.clone();
            let value = defaults[index].1.clone();
            headers.push((name, value));
            assert(views(headers@) =~= before.push(all[index as int]));
        }
        index += 1;
    }
}

// ---------------------------------------------------------------------------
// Normalising
// ---------------------------------------------------------------------------

/// Headers with their names in lower case.
pub open spec fn lowercase_names(headers: Seq<(Seq<char>, Seq<char>)>) -> Seq<
    (Seq<char>, Seq<char>),
> {
    Seq::new(
        headers.len(),
        |i: int| (crate::strings::lower_text(headers[i].0), headers[i].1),
    )
}

/// Whether a header comes no later than another, by name and then by value.
pub open spec fn header_up_to(
    left: (Seq<char>, Seq<char>),
    right: (Seq<char>, Seq<char>),
) -> bool {
    if left.0 == right.0 {
        crate::strings::text_up_to(left.1, right.1)
    } else {
        crate::strings::text_up_to(left.0, right.0)
    }
}

/// Whether headers are in order.
pub open spec fn in_order(headers: Seq<(Seq<char>, Seq<char>)>) -> bool {
    forall|i: int, j: int|
        0 <= i <= j < headers.len() ==> header_up_to(#[trigger] headers[i], #[trigger] headers[j])
}

/// Whether `sorted` are the headers in lower case and in order.
pub open spec fn normalises(
    sorted: Seq<(Seq<char>, Seq<char>)>,
    headers: Seq<(Seq<char>, Seq<char>)>,
) -> bool {
    &&& in_order(sorted)
    &&& sorted.to_multiset() == lowercase_names(headers).to_multiset()
}

proof fn lemma_header_order()
    ensures
        vstd::relations::total_ordering(
            |left: (Seq<char>, Seq<char>), right: (Seq<char>, Seq<char>)|
                header_up_to(left, right),
        ),
{
    let leq = |left: (Seq<char>, Seq<char>), right: (Seq<char>, Seq<char>)|
        header_up_to(left, right);
    assert forall|x: (Seq<char>, Seq<char>)| #[trigger] leq(x, x) by {
        crate::strings::lemma_text_order_total(x.1, x.1);
    }
    assert forall|x: (Seq<char>, Seq<char>), y: (Seq<char>, Seq<char>)| #[trigger]
        leq(x, y) && #[trigger] leq(y, x) implies x == y by {
        crate::strings::lemma_text_order_total(x.0, y.0);
        crate::strings::lemma_text_order_total(x.1, y.1);
    }
    assert forall|
        x: (Seq<char>, Seq<char>),
        y: (Seq<char>, Seq<char>),
        z: (Seq<char>, Seq<char>),
    | #[trigger]
        leq(x, y) && #[trigger] leq(y, z) implies leq(x, z) by {
        lemma_header_order_transitive(x, y, z);
    }
    assert forall|x: (Seq<char>, Seq<char>), y: (Seq<char>, Seq<char>)| #[trigger]
        leq(x, y) || #[trigger] leq(y, x) by {
        crate::strings::lemma_text_order_total(x.0, y.0);
        crate::strings::lemma_text_order_total(x.1, y.1);
    }
}

proof fn lemma_header_order_transitive(
    x: (Seq<char>, Seq<char>),
    y: (Seq<char>, Seq<char>),
    z: (Seq<char>, Seq<char>),
)
    requires
        header_up_to(x, y),
        header_up_to(y, z),
    ensures
        header_up_to(x, z),
{
    if x.0 == y.0 && y.0 == z.0 {
        crate::strings::lemma_text_order_transitive(x.1, y.1, z.1);
    } else if x.0 == y.0 {
    } else if y.0 == z.0 {
    } else {
        crate::strings::lemma_text_order_transitive(x.0, y.0, z.0);
        if x.0 == z.0 {
            crate::strings::lemma_text_order_total(x.0, y.0);
        }
    }
}

/// Normalised headers do not depend on the order in which the headers are
/// given, nor on the case of their names.
pub proof fn lemma_normalised_headers_agree(
    first: Seq<(Seq<char>, Seq<char>)>,
    second: Seq<(Seq<char>, Seq<char>)>,
    first_sorted: Seq<(Seq<char>, Seq<char>)>,
    second_sorted: Seq<(Seq<char>, Seq<char>)>,
)
    requires
        lowercase_names(first).to_multiset() == lowercase_names(second).to_multiset(),
        normalises(first_sorted, first),
        normalises(second_sorted, second),
    ensures
        first_sorted == second_sorted,
{
    let leq = |left: (Seq<char>, Seq<char>), right: (Seq<char>, Seq<char>)|
        header_up_to(left, right);
    lemma_header_order();
    assert forall|i: int, j: int| 0 <= i < j < first_sorted.len() implies #[trigger] leq(
        first_sorted[i],
        first_sorted[j],
    ) by {}
    assert forall|i: int, j: int| 0 <= i < j < second_sorted.len() implies #[trigger] leq(
        second_sorted[i],
        second_sorted[j],
    ) by {}
    vstd::seq_lib::lemma_sorted_unique(first_sorted, second_sorted, leq);
}

fn is_header_up_to(left: &(String, String), right: &(String, String)) -> (result: bool)
    ensures
        result == header_up_to(crate::types::pair_view(*left), crate::types::pair_view(*right)),
{
    if text_equal(left.0.as_str(), right.0.as_str()) {
        is_text_up_to(left.1.as_str(), right.1.as_str())
    } else {
        is_text_up_to(left.0.as_str(), right.0.as_str())
    }
}

/// Puts a header into its place among headers in order.
fn insert_in_order(headers: &mut Vec<(String, String)>, header: (String, String))
    requires
        in_order(views(old(headers)@)),
    ensures
        in_order(views(final(headers)@)),
        views(final(headers)@).to_multiset() == views(old(headers)@).to_multiset().insert(
            crate::types::pair_view(header),
        ),
{
    let ghost before = views(headers@);
    let ghost pair = crate::types::pair_view(header);
    let mut place: usize = 0;
    while place < headers.len() && is_header_up_to(&headers[place], &header)
        invariant
            place <= headers@.len(),
            headers@ == old(headers)@,
            before == views(headers@),
            pair == crate::types::pair_view(header),
            forall|i: int| 0 <= i < place ==> header_up_to(#[trigger] before[i], pair),
        decreases headers@.len() - place,
    {
        assert(before[place as int] == crate::types::pair_view(headers@[place as int]));
        place += 1;
    }
    proof {
        if place < headers@.len() {
            assert(before[place as int] == crate::types::pair_view(headers@[place as int]));
        }
    }
    headers.insert(place, header);
    proof {
        let after = views(headers@);
        assert(after =~= before.insert(place as int, pair));
        vstd::seq_lib::to_multiset_insert(before, place as int, pair);
        assert forall|i: int, j: int| 0 <= i <= j < after.len() implies header_up_to(
            #[trigger] after[i],
            #[trigger] after[j],
        ) by {
            let a = if i < place { i } else { i - 1 };
            let b = if j < place { j } else { j - 1 };
            if i != place && j != place {
                assert(after[i] == before[a] && after[j] == before[b]);
            } else if i == place && j == place {
                crate::strings::lemma_text_order_total(pair.1, pair.1);
            } else if j == place {
                assert(after[i] == before[a]);
            } else {
                assert(after[j] == before[b]);
                let next = before[place as int];
                crate::strings::lemma_text_order_total(next.0, pair.0);
                crate::strings::lemma_text_order_total(next.1, pair.1);
                assert(header_up_to(pair, next));
                assert(header_up_to(next, before[b]));
                lemma_header_order_transitive(pair, next, before[b]);
            }
        }
    }
}

/// The headers with their names in lower case and in order.
pub fn normalised(headers: &Vec<(String, String)>) -> (result: Vec<(String, String)>)
    ensures
        normalises(views(result@), views(headers@)),
{
    let ghost all = lowercase_names(views(headers@));
    let mut sorted: Vec<(String, String)> = Vec::new();
    let mut index: usize = 0;
    assert(views(sorted@) =~= Seq::empty());
    assert(all.take(0) =~= Seq::empty());
    while index < headers.len()
        invariant
            index <= headers@.len(),
            all == lowercase_names(views(headers@)),
            in_order(views(sorted@)),
            views(sorted@).to_multiset() == all.take(index as int).to_multiset(),
        decreases headers@.len() - index,
    {
        let name = lowercase(headers[index].0.as_str());
        let value = headers[index].1.clone();
        assert(all[index as int] == (name@, value@));
        assert(all.take(index + 1) =~= all.take(index as int).push(all[index as int]));
        proof {
            vstd::seq_lib::to_multiset_build(all.take(index as int), all[index as int]);
        }
        insert_in_order(&mut sorted, (name, value));
        index += 1;
    }
    assert(all.take(all.len() as int) =~= all);
    sorted
}

/// Whether two lists of headers are equal.
pub fn headers_equal(left: &Vec<(String, String)>, right: &Vec<(String, String)>) -> (result: bool)
    ensures
        result == (views(left@) == views(right@)),
{
    if left.len() != right.len() {
        assert(views(left@).len() != views(right@).len());
        return false;
    }
    let mut index: usize = 0;
    while index < left.len()
        invariant
            index <= left@.len(),
            left@.len() == right@.len(),
            forall|i: int| 0 <= i < index ==> views(left@)[i] == views(right@)[i],
        decreases left@.len() - index,
    {
        assert(views(left@)[index as int] == crate::types::pair_view(left@[index as int]));
        assert(views(right@)[index as int] == crate::types::pair_view(right@[index as int]));
        if !text_equal(left[index].0.as_str(), right[index].0.as_str()) || !text_equal(
            left[index].1.as_str(),
            right[index].1.as_str(),
        ) {
            return false;
        }
        index += 1;
    }
    assert(views(left@) =~= views(right@));
    true
}

/// Setting a header leaves all others as they are.
pub proof fn lemma_set_header_keeps_the_others(
    headers: Seq<(Seq<char>, Seq<char>)>,
    name: Seq<char>,
    value: Seq<char>,
    other: Seq<char>,
)
    requires
        other != name,
    ensures
        header_value(with_header(headers, name, value), other) == header_value(headers, other),
{
    lemma_header_place(headers, name, 0);
    lemma_header_place(headers, other, 0);
    let after = with_header(headers, name, value);
    match header_place(headers, other, 0) {
        Some(place) => {
            assert forall|j: int| 0 <= j < place implies (#[trigger] after[j]).0 != other by {
                assert(headers[j].0 != other);
            }
            lemma_header_place_is(after, other, 0, place);
        },
        None => {
            lemma_header_place(after, other, 0);
            assert forall|j: int| 0 <= j < after.len() implies (#[trigger] after[j]).0 != other by {
                if j < headers.len() {
                    assert(headers[j].0 != other);
                }
            }
        },
    }
}

/// Of several headers that are set under one name, in upper or lower case, the
/// last one counts.
pub proof fn lemma_last_header_set_counts(
    headers: Seq<(Seq<char>, Seq<char>)>,
    added: Seq<(Seq<char>, Seq<char>)>,
    i: int,
    k: int,
)
    requires
        0 <= i < k <= added.len(),
        forall|j: int|
            i < j < k ==> crate::strings::lower_text((#[trigger] added[j]).0)
                != crate::strings::lower_text(added[i].0),
    ensures
        header_value(
            with_lowercase_headers(headers, added, k),
            crate::strings::lower_text(added[i].0),
        ) == Some(added[i].1),
    decreases k,
{
    let before = with_lowercase_headers(headers, added, k - 1);
    let name = crate::strings::lower_text(added[k - 1].0);
    if i == k - 1 {
        lemma_set_header_is_read(before, name, added[k - 1].1);
    } else {
        lemma_last_header_set_counts(headers, added, i, k - 1);
        lemma_set_header_keeps_the_others(
            before,
            name,
            added[k - 1].1,
            crate::strings::lower_text(added[i].0),
        );
    }
}

/// A default header that a request lacks is sent with it as it is, unless an
/// earlier default has its name, in upper or lower case.
pub proof fn lemma_missing_defaults_are_added(
    headers: Seq<(Seq<char>, Seq<char>)>,
    defaults: Seq<(Seq<char>, Seq<char>)>,
    i: int,
    k: int,
)
    requires
        0 <= i < k <= defaults.len(),
        forall|j: int|
            0 <= j < headers.len() ==> crate::strings::lower_text((#[trigger] headers[j]).0)
                != crate::strings::lower_text(defaults[i].0),
        forall|j: int|
            0 <= j < i ==> crate::strings::lower_text((#[trigger] defaults[j]).0)
                != crate::strings::lower_text(defaults[i].0),
    ensures
        with_defaults(headers, defaults, k).contains(defaults[i]),
    decreases k,
{
    let before = with_defaults(headers, defaults, k - 1);
    let merged = with_defaults(headers, defaults, k);
    if i < k - 1 {
        lemma_missing_defaults_are_added(headers, defaults, i, k - 1);
        let at = before.index_of(defaults[i]);
        assert(merged[at] == defaults[i]);
    } else {
        lemma_merged_names(headers, defaults, k - 1);
        if has_header(before, defaults[i].0) {
            let at = choose|j: int|
                0 <= j < before.len() && crate::strings::lower_text((#[trigger] before[j]).0)
                    == crate::strings::lower_text(defaults[i].0);
            assert(before[at] == before[at]);
            if at < headers.len() {
                assert(headers[at] == before[at]);
            } else {
                let j = choose|j: int| 0 <= j < k - 1 && #[trigger] defaults[j] == before[at];
                assert(crate::strings::lower_text(defaults[j].0) != crate::strings::lower_text(
                    defaults[i].0,
                ));
            }
        }
        assert(merged[merged.len() - 1] == defaults[i]);
    }
}

/// What is added to headers are defaults, in front of which the headers stay.
proof fn lemma_merged_names(
    headers: Seq<(Seq<char>, Seq<char>)>,
    defaults: Seq<(Seq<char>, Seq<char>)>,
    k: int,
)
    requires
        0 <= k <= defaults.len(),
    ensures
        ({
            let merged = with_defaults(headers, defaults, k);
            &&& headers.len() <= merged.len()
            &&& forall|i: int| 0 <= i < headers.len() ==> #[trigger] merged[i] == headers[i]
            &&& forall|i: int|
                headers.len() <= i < merged.len() ==> exists|j: int|
                    0 <= j < k && #[trigger] defaults[j] == #[trigger] merged[i]
        }),
    decreases k,
{
    if k > 0 {
        lemma_merged_names(headers, defaults, k - 1);
        let before = with_defaults(headers, defaults, k - 1);
        let merged = with_defaults(headers, defaults, k);
        assert forall|i: int| headers.len() <= i < merged.len() implies exists|j: int|
            0 <= j < k && #[trigger] defaults[j] == #[trigger] merged[i] by {
            if i < before.len() {
                assert(merged[i] == before[i]);
                let j = choose|j: int| 0 <= j < k - 1 && #[trigger] defaults[j] == before[i];
                assert(defaults[j] == merged[i]);
            } else {
                assert(defaults[k - 1] == merged[i]);
            }
        }
    }
}

} // verus!
