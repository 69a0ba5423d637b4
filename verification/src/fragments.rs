//! The fragments of a line.
//!
//! The matches found in a line are ranges of byte offsets, in the order in
//! which they were found. They cut the line into fragments: each match is a
//! highlighted fragment, and the text before, between and after the matches
//! makes the plain fragments. An empty stretch between two matches makes no
//! fragment.

use vstd::prelude::*;
use vstd::utf8::*;
use crate::slices::{
    byte_len, byte_slice, is_boundary, lemma_boundary_in_range, lemma_ends_are_boundaries,
    lemma_slice_bytes, lemma_slices_join, lemma_whole_slice,
};

verus! {

/// A stretch of a line with its marking: highlighted where it is a match,
/// plain where it is not.
pub struct Fragment {
    pub text: Seq<char>,
    pub highlighted: bool,
}

/// Whether `ranges` can be cut out of `text` one after the other: each range
/// starts no later than it ends, both ends are boundaries of `text`, and a
/// later range starts no earlier than an earlier one ends.
pub open spec fn ranges_fit(text: Seq<char>, ranges: Seq<(usize, usize)>) -> bool {
    &&& forall|k: int|
        0 <= k < ranges.len() ==> {
            &&& (#[trigger] ranges[k]).0 <= ranges[k].1
            &&& is_boundary(text, ranges[k].0 as int)
            &&& is_boundary(text, ranges[k].1 as int)
        }
    &&& forall|j: int, k: int|
        0 <= j < k < ranges.len() ==> (#[trigger] ranges[j]).1 <= (#[trigger] ranges[k]).0
}

/// The offset at which the last of `ranges` ends; 0 where there is none.
pub open spec fn end_of(ranges: Seq<(usize, usize)>) -> int {
    if ranges.len() == 0 {
        0
    } else {
        ranges.last().1 as int
    }
}

/// The fragment of the match between `from` and `to`.
pub open spec fn match_fragment(text: Seq<char>, from: int, to: int) -> Fragment {
    Fragment { text: byte_slice(text, from, to), highlighted: true }
}

/// The fragment of the plain stretch between `from` and `to`.
pub open spec fn plain_fragment(text: Seq<char>, from: int, to: int) -> Fragment {
    Fragment { text: byte_slice(text, from, to), highlighted: false }
}

/// `fragments` followed by the plain stretch between `from` and `to`, if
/// there is such a stretch.
pub open spec fn with_plain(
    fragments: Seq<Fragment>,
    text: Seq<char>,
    from: int,
    to: int,
) -> Seq<Fragment> {
    if from < to {
        fragments.push(plain_fragment(text, from, to))
    } else {
        fragments
    }
}

/// The fragments of `text` up to the end of the last of `ranges`.
pub open spec fn matched_fragments(text: Seq<char>, ranges: Seq<(usize, usize)>) -> Seq<Fragment>
    decreases ranges.len(),
{
    if ranges.len() == 0 {
        Seq::empty()
    } else {
        let earlier = ranges.drop_last();
        let last = ranges.last();
        with_plain(matched_fragments(text, earlier), text, end_of(earlier), last.0 as int).push(
            match_fragment(text, last.0 as int, last.1 as int),
        )
    }
}

/// The fragments of `text` when `ranges` are its matches.
pub open spec fn line_fragments(text: Seq<char>, ranges: Seq<(usize, usize)>) -> Seq<Fragment> {
    with_plain(matched_fragments(text, ranges), text, end_of(ranges), byte_len(text))
}

/// The texts of `fragments`, one after the other.
pub open spec fn joined(fragments: Seq<Fragment>) -> Seq<char>
    decreases fragments.len(),
{
    if fragments.len() == 0 {
        Seq::empty()
    } else {
        joined(fragments.drop_last()) + fragments.last().text
    }
}

/// The texts of the highlighted ones among `fragments`, in order.
pub open spec fn highlighted_texts(fragments: Seq<Fragment>) -> Seq<Seq<char>>
    decreases fragments.len(),
{
    if fragments.len() == 0 {
        Seq::empty()
    } else if fragments.last().highlighted {
        highlighted_texts(fragments.drop_last()).push(fragments.last().text)
    } else {
        highlighted_texts(fragments.drop_last())
    }
}

/// The texts that `ranges` cut out of `text`, in order.
pub open spec fn match_texts(text: Seq<char>, ranges: Seq<(usize, usize)>) -> Seq<Seq<char>> {
    Seq::new(ranges.len(), |k: int| byte_slice(text, ranges[k].0 as int, ranges[k].1 as int))
}

/// Where the plain stretch before range `k` starts: at the end of the range
/// before it, or at the start of the text. With `k` the number of ranges, the
/// stretch is the one after the last range.
pub open spec fn gap_start(ranges: Seq<(usize, usize)>, k: int) -> int {
    if k == 0 {
        0
    } else {
        ranges[k - 1].1 as int
    }
}

/// Where the plain stretch before range `k` ends: at the start of that range,
/// or at the end of the text where `k` is the number of ranges.
pub open spec fn gap_end(text: Seq<char>, ranges: Seq<(usize, usize)>, k: int) -> int {
    if k == ranges.len() {
        byte_len(text)
    } else {
        ranges[k].0 as int
    }
}

/// Whether `fragment` is the plain stretch before one of `ranges` or after the
/// last of them, and that stretch is not empty.
pub open spec fn is_gap(text: Seq<char>, ranges: Seq<(usize, usize)>, fragment: Fragment) -> bool {
    exists|k: int|
        0 <= k <= ranges.len() && gap_start(ranges, k) < gap_end(text, ranges, k) && fragment
            == #[trigger] plain_fragment(text, gap_start(ranges, k), gap_end(text, ranges, k))
}

/// Whether `fragment` is one of `ranges`, highlighted.
pub open spec fn is_match(text: Seq<char>, ranges: Seq<(usize, usize)>, fragment: Fragment) -> bool {
    exists|k: int|
        0 <= k < ranges.len() && fragment == #[trigger] match_fragment(
            text,
            ranges[k].0 as int,
            ranges[k].1 as int,
        )
}

/// Whether `fragment` is a match or a plain stretch that is not empty.
pub open spec fn is_match_or_gap(
    text: Seq<char>,
    ranges: Seq<(usize, usize)>,
    fragment: Fragment,
) -> bool {
    is_match(text, ranges, fragment) || is_gap(text, ranges, fragment)
}

/// The place among the fragments of `text` of its match number `k`.
pub open spec fn match_position(text: Seq<char>, ranges: Seq<(usize, usize)>, k: int) -> int {
    matched_fragments(text, ranges.take(k + 1)).len() - 1
}

/// A further match adds the plain stretch before it, if there is one, and
/// then the match itself.
pub proof fn lemma_matched_push(text: Seq<char>, ranges: Seq<(usize, usize)>, next: (usize, usize))
    ensures
        matched_fragments(text, ranges.push(next)) == with_plain(
            matched_fragments(text, ranges),
            text,
            end_of(ranges),
            next.0 as int,
        ).push(match_fragment(text, next.0 as int, next.1 as int)),
        end_of(ranges.push(next)) == next.1,
{
    assert(ranges.push(next).drop_last() =~= ranges);
}

/// The first `n` of ranges that fit, fit; they end at a boundary, and no
/// later than the next range starts.
pub proof fn lemma_fit_earlier(text: Seq<char>, ranges: Seq<(usize, usize)>, n: int)
    requires
        ranges_fit(text, ranges),
        0 <= n <= ranges.len(),
    ensures
        ranges_fit(text, ranges.take(n)),
        0 <= end_of(ranges.take(n)) <= byte_len(text),
        is_boundary(text, end_of(ranges.take(n))),
        n < ranges.len() ==> end_of(ranges.take(n)) <= ranges[n].0,
        n == ranges.len() ==> ranges.take(n) == ranges,
{
    lemma_ends_are_boundaries(text);
    if n > 0 {
        lemma_boundary_in_range(text, ranges[n - 1].1 as int);
    }
}

/// A further fragment adds its text at the end.
proof fn lemma_joined_push(fragments: Seq<Fragment>, fragment: Fragment)
    ensures
        joined(fragments.push(fragment)) == joined(fragments) + fragment.text,
{
    assert(fragments.push(fragment).drop_last() =~= fragments);
}

/// The fragments up to the end of the last match spell the line up to there.
proof fn lemma_joined_matched(text: Seq<char>, ranges: Seq<(usize, usize)>)
    requires
        ranges_fit(text, ranges),
    ensures
        joined(matched_fragments(text, ranges)) == byte_slice(text, 0, end_of(ranges)),
    decreases ranges.len(),
{
    broadcast use encode_utf8_valid_utf8;
    if ranges.len() > 0 {
        let earlier = ranges.drop_last();
        let last = ranges.last();
        lemma_fit_earlier(text, ranges, ranges.len() - 1);
        lemma_joined_matched(text, earlier);
        lemma_ends_are_boundaries(text);
        let before = matched_fragments(text, earlier);
        let gapped = with_plain(before, text, end_of(earlier), last.0 as int);
        assert(joined(gapped) == byte_slice(text, 0, last.0 as int)) by {
            if end_of(earlier) < last.0 {
                lemma_joined_push(before, plain_fragment(text, end_of(earlier), last.0 as int));
                lemma_slices_join(text, 0, end_of(earlier), last.0 as int);
            }
        }
        lemma_joined_push(gapped, match_fragment(text, last.0 as int, last.1 as int));
        lemma_slices_join(text, 0, last.0 as int, last.1 as int);
    }
}

/// The fragments of a line, one after the other, spell the line: nothing of
/// it is left out, repeated or moved.
pub proof fn lemma_fragments_cover(text: Seq<char>, ranges: Seq<(usize, usize)>)
    requires
        ranges_fit(text, ranges),
    ensures
        joined(line_fragments(text, ranges)) == text,
{
    lemma_joined_matched(text, ranges);
    lemma_fit_earlier(text, ranges, ranges.len() as int);
    lemma_ends_are_boundaries(text);
    lemma_whole_slice(text);
    if end_of(ranges) < byte_len(text) {
        lemma_joined_push(
            matched_fragments(text, ranges),
            plain_fragment(text, end_of(ranges), byte_len(text)),
        );
        lemma_slices_join(text, 0, end_of(ranges), byte_len(text));
    }
}

/// The highlighted fragments up to the end of the last match are the matches.
proof fn lemma_highlighted_matched(text: Seq<char>, ranges: Seq<(usize, usize)>)
    ensures
        highlighted_texts(matched_fragments(text, ranges)) == match_texts(text, ranges),
    decreases ranges.len(),
{
    if ranges.len() > 0 {
        let earlier = ranges.drop_last();
        let last = ranges.last();
        lemma_highlighted_matched(text, earlier);
        let before = matched_fragments(text, earlier);
        let gapped = with_plain(before, text, end_of(earlier), last.0 as int);
        assert(highlighted_texts(gapped) == highlighted_texts(before)) by {
            if end_of(earlier) < last.0 {
                assert(gapped.drop_last() =~= before);
            }
        }
        let all = gapped.push(match_fragment(text, last.0 as int, last.1 as int));
        assert(all.drop_last() =~= gapped);
    }
}

/// The highlighted fragments of a line are its matches, each once and in the
/// order in which they were found.
pub proof fn lemma_highlighted_are_matches(text: Seq<char>, ranges: Seq<(usize, usize)>)
    ensures
        highlighted_texts(line_fragments(text, ranges)) == match_texts(text, ranges),
{
    lemma_highlighted_matched(text, ranges);
    if end_of(ranges) < byte_len(text) {
        assert(line_fragments(text, ranges).drop_last() =~= matched_fragments(text, ranges));
    }
}

/// Each fragment up to the end of match `n` is a match or a plain stretch.
proof fn lemma_kinds_matched(text: Seq<char>, ranges: Seq<(usize, usize)>, n: int)
    requires
        0 <= n <= ranges.len(),
    ensures
        forall|i: int|
            0 <= i < matched_fragments(text, ranges.take(n)).len() ==> is_match_or_gap(
                text,
                ranges,
                #[trigger] matched_fragments(text, ranges.take(n))[i],
            ),
    decreases n,
{
    if n > 0 {
        let upto = ranges.take(n);
        let earlier = upto.drop_last();
        let last = upto.last();
        assert(earlier =~= ranges.take(n - 1));
        lemma_kinds_matched(text, ranges, n - 1);
        let before = matched_fragments(text, earlier);
        let gapped = with_plain(before, text, end_of(earlier), last.0 as int);
        let found = match_fragment(text, last.0 as int, last.1 as int);
        assert(end_of(earlier) == gap_start(ranges, n - 1));
        assert forall|i: int| 0 <= i < gapped.push(found).len() implies is_match_or_gap(
            text,
            ranges,
            #[trigger] gapped.push(found)[i],
        ) by {
            if before.len() <= i < gapped.len() {
                assert(gapped[i] == plain_fragment(
                    text,
                    gap_start(ranges, n - 1),
                    gap_end(text, ranges, n - 1),
                ));
            }
        }
    }
}

/// Each fragment of a line is one of its matches, highlighted, or the stretch
/// between two neighbouring matches (or before the first, or after the last),
/// plain and not empty.
pub proof fn lemma_fragment_kinds(text: Seq<char>, ranges: Seq<(usize, usize)>)
    ensures
        forall|i: int|
            0 <= i < line_fragments(text, ranges).len() ==> is_match_or_gap(
                text,
                ranges,
                #[trigger] line_fragments(text, ranges)[i],
            ),
{
    let n = ranges.len() as int;
    lemma_kinds_matched(text, ranges, n);
    assert(ranges.take(n) =~= ranges);
    let fragments = line_fragments(text, ranges);
    assert forall|i: int| 0 <= i < fragments.len() implies is_match_or_gap(
        text,
        ranges,
        #[trigger] fragments[i],
    ) by {
        if i >= matched_fragments(text, ranges).len() {
            assert(fragments[i] == plain_fragment(
                text,
                gap_start(ranges, n),
                gap_end(text, ranges, n),
            ));
        }
    }
}

/// Whether no plain stretch of `text` reads like one of its matches.
pub open spec fn plain_differs_from_matches(text: Seq<char>, ranges: Seq<(usize, usize)>) -> bool {
    forall|g: int, k: int|
        0 <= g <= ranges.len() && 0 <= k < ranges.len() && gap_start(ranges, g) < gap_end(
            text,
            ranges,
            g,
        ) ==> (#[trigger] plain_fragment(text, gap_start(ranges, g), gap_end(text, ranges, g))).text
            != (#[trigger] match_fragment(text, ranges[k].0 as int, ranges[k].1 as int)).text
}

/// Where no plain stretch reads like a match, the marking of a fragment can
/// be told from its text: the fragments that read like a match are the
/// highlighted ones, and all others are plain.
pub proof fn lemma_style_by_text(text: Seq<char>, ranges: Seq<(usize, usize)>)
    requires
        plain_differs_from_matches(text, ranges),
    ensures
        forall|i: int|
            0 <= i < line_fragments(text, ranges).len() ==> ((#[trigger] line_fragments(
                text,
                ranges,
            )[i]).highlighted <==> exists|k: int|
                0 <= k < ranges.len() && line_fragments(text, ranges)[i].text == (
                #[trigger] match_fragment(text, ranges[k].0 as int, ranges[k].1 as int)).text),
{
    lemma_fragment_kinds(text, ranges);
}

/// No plain fragment is empty.
pub proof fn lemma_no_empty_plain(text: Seq<char>, ranges: Seq<(usize, usize)>)
    requires
        ranges_fit(text, ranges),
    ensures
        forall|i: int|
            0 <= i < line_fragments(text, ranges).len() && !(#[trigger] line_fragments(
                text,
                ranges,
            )[i]).highlighted ==> line_fragments(text, ranges)[i].text.len() > 0,
{
    lemma_fragment_kinds(text, ranges);
    let fragments = line_fragments(text, ranges);
    assert forall|i: int| 0 <= i < fragments.len() && !(#[trigger] fragments[i]).highlighted implies
        fragments[i].text.len() > 0 by {
        let fragment = fragments[i];
        let k = choose|k: int|
            0 <= k <= ranges.len() && gap_start(ranges, k) < gap_end(text, ranges, k) && fragment
                == #[trigger] plain_fragment(text, gap_start(ranges, k), gap_end(text, ranges, k));
        lemma_fit_earlier(text, ranges, k);
        assert(gap_start(ranges, k) == end_of(ranges.take(k)));
        lemma_ends_are_boundaries(text);
        lemma_slice_bytes(text, gap_start(ranges, k), gap_end(text, ranges, k));
    }
}

/// A line without a match is one plain fragment, the line itself; an empty
/// line without a match has no fragment.
pub proof fn lemma_no_match(text: Seq<char>)
    ensures
        text.len() == 0 ==> line_fragments(text, Seq::empty()) == Seq::<Fragment>::empty(),
        text.len() > 0 ==> line_fragments(text, Seq::empty()) == seq![
            (Fragment { text: text, highlighted: false }),
        ],
{
    lemma_whole_slice(text);
    lemma_ends_are_boundaries(text);
    lemma_slice_bytes(text, 0, byte_len(text));
}

/// The fragments up to the end of an earlier match stay where they are when
/// later matches are taken in.
proof fn lemma_matched_grows(text: Seq<char>, ranges: Seq<(usize, usize)>, m: int, n: int)
    requires
        0 <= m <= n <= ranges.len(),
    ensures
        matched_fragments(text, ranges.take(m)).len() <= matched_fragments(text, ranges.take(n)).len(),
        forall|i: int|
            0 <= i < matched_fragments(text, ranges.take(m)).len() ==> matched_fragments(
                text,
                ranges.take(n),
            )[i] == #[trigger] matched_fragments(text, ranges.take(m))[i],
    decreases n - m,
{
    if m < n {
        lemma_matched_grows(text, ranges, m, n - 1);
        assert(ranges.take(n).drop_last() =~= ranges.take(n - 1));
    }
}

/// The fragment at the place of match `k` is that match, highlighted.
pub proof fn lemma_match_position(text: Seq<char>, ranges: Seq<(usize, usize)>, k: int)
    requires
        0 <= k < ranges.len(),
    ensures
        0 <= match_position(text, ranges, k) < line_fragments(text, ranges).len(),
        line_fragments(text, ranges)[match_position(text, ranges, k)] == match_fragment(
            text,
            ranges[k].0 as int,
            ranges[k].1 as int,
        ),
{
    let n = ranges.len() as int;
    lemma_matched_grows(text, ranges, k + 1, n);
    assert(ranges.take(n) =~= ranges);
    let upto = matched_fragments(text, ranges.take(k + 1));
    assert(upto[upto.len() - 1] == match_fragment(text, ranges[k].0 as int, ranges[k].1 as int));
}

/// Where one match ends at the offset at which the next starts, the two are
/// neighbours among the fragments: no fragment stands between them.
pub proof fn lemma_adjacent_matches(text: Seq<char>, ranges: Seq<(usize, usize)>, k: int)
    requires
        0 <= k,
        k + 1 < ranges.len(),
        ranges[k].1 == ranges[k + 1].0,
    ensures
        match_position(text, ranges, k + 1) == match_position(text, ranges, k) + 1,
{
    assert(ranges.take(k + 2).drop_last() =~= ranges.take(k + 1));
}

/// Whether `ranges` can be cut out of `line` one after the other.
pub fn ranges_fit_in(line: &str, ranges: &[(usize, usize)]) -> (fit: bool)
    ensures
        fit == ranges_fit(line@, ranges@),
{
    let mut cursor: usize = 0;
    let mut done: usize = 0;
    while done < ranges.len()
        invariant
            done <= ranges@.len(),
            ranges_fit(line@, ranges@.take(done as int)),
            forall|j: int| 0 <= j < done ==> (#[trigger] ranges@[j]).1 <= cursor,
            done == 0 ==> cursor == 0,
            done > 0 ==> cursor == ranges@[done - 1].1,
        decreases ranges@.len() - done,
    {
        let start: usize = ranges[done].0;
        let end: usize = ranges[done].1;
        let in_order: bool = cursor <= start && start <= end;
        if !in_order || !line.is_char_boundary(start) || !line.is_char_boundary(end) {
            return false;
        }
        cursor = end;
        done = done + 1;
    }
    proof {
        assert(ranges@.take(done as int) =~= ranges@);
    }
    true
}

} // verus!
