//! When the best path covers the whole input.
use crate::alternatives::{
    all_paths, alternatives, from_grid, lemma_sort_members, lemma_trim_keeps, paths_via, trim,
};
use crate::candidate::{
    candidate, grid, grid_row, grid_rows, lemma_grid_rows_members, lemma_grid_segments,
};
use crate::dictionary::Dictionary;
use crate::engine::conversion;
use crate::laws::{lemma_publish_covers, segmentation_covers};
use crate::path::{
    distances_to, largest_sum, lemma_freqsum_nonnegative, score, spread, PossibleIntervalView,
};
use crate::search::{best_at, best_upto, contiguous, covers, segments_of};
use crate::sequence::SequenceView;
use vstd::prelude::*;

verus! {

/// Every interval of `p` is an interval of `list`.
pub open spec fn drawn_from(list: Seq<PossibleIntervalView>, p: Seq<PossibleIntervalView>) -> bool {
    forall|k: int| 0 <= k < p.len() ==> list.contains(#[trigger] p[k])
}

/// Some path through the intervals of `list` covers `[0, e)`.
pub open spec fn coverable(list: Seq<PossibleIntervalView>, e: int) -> bool {
    exists|p: Seq<PossibleIntervalView>| #[trigger] covers(p, 0, e) && drawn_from(list, p)
}

/// Every interval of `list` starts where some path from 0 through `list` ends.
pub open spec fn starts_are_coverable(list: Seq<PossibleIntervalView>) -> bool {
    forall|i: int| 0 <= i < list.len() ==> coverable(list, (#[trigger] list[i]).start)
}

/// Every contiguous path from 0 through the intervals of `list` scores above 0.
pub open spec fn covers_score_above_zero(list: Seq<PossibleIntervalView>) -> bool {
    forall|p: Seq<PossibleIntervalView>|
        p.len() > 0 && drawn_from(list, p) && covers(p, 0, p.last().end) ==> #[trigger] score(p)
            > 0
}

/// A path that covers `[0, s)` with intervals of `list`, extended by an
/// interval of `list` from `s` to `e`, covers `[0, e)`.
proof fn lemma_extend_cover(
    list: Seq<PossibleIntervalView>,
    before: Seq<PossibleIntervalView>,
    interval: PossibleIntervalView,
)
    requires
        covers(before, 0, interval.start),
        drawn_from(list, before),
        list.contains(interval),
    ensures
        covers(before.push(interval), 0, interval.end),
        drawn_from(list, before.push(interval)),
{
    let longer = before.push(interval);
    assert forall|k: int| 0 <= k < longer.len() implies list.contains(#[trigger] longer[k]) by {
        if k < before.len() {
            assert(longer[k] == before[k]);
        }
    }
    assert forall|k: int| 0 <= k < longer.len() - 1 implies (#[trigger] longer[k]).end == longer[k
        + 1].start by {
        if k < before.len() - 1 {
            assert(longer[k] == before[k]);
            assert(longer[k + 1] == before[k + 1]);
        } else {
            assert(longer[k] == before.last());
        }
    }
    if before.len() > 0 {
        assert(longer.first() == before.first());
    }
}

/// A path that covers `[0, e)` with `e > 0` ends with an interval of the list
/// that ends at `e`.
proof fn lemma_cover_ends(list: Seq<PossibleIntervalView>, e: int) -> (j: int)
    requires
        coverable(list, e),
        e > 0,
    ensures
        0 <= j < list.len(),
        list[j].end == e,
{
    let witness = choose|p: Seq<PossibleIntervalView>| #[trigger]
        covers(p, 0, e) && drawn_from(list, p);
    assert(list.contains(witness[witness.len() - 1]));
    choose|j: int| 0 <= j < list.len() && list[j] == witness.last()
}

/// What is held for the end `e` is empty or covers `[0, e)`, and is not empty
/// once an interval that ends at `e` has been looked at.
spec fn settled(list: Seq<PossibleIntervalView>, e: int, idx: int) -> bool {
    let held = best_upto(list, e, idx);
    &&& held.len() > 0 ==> covers(held, 0, e) && drawn_from(list, held)
    &&& score(held) >= 0
    &&& (exists|j: int| 0 <= j < idx && (#[trigger] list[j]).end == e) ==> held.len() > 0
}

proof fn lemma_best_covers(list: Seq<PossibleIntervalView>, len: int, e: int, idx: int)
    requires
        segments_of(list, len),
        0 <= e <= len,
        0 <= idx <= list.len(),
        starts_are_coverable(list),
        covers_score_above_zero(list),
    ensures
        settled(list, e, idx),
    decreases e, idx,
{
    assert(score(Seq::<PossibleIntervalView>::empty()) == 0);
    if e <= 0 || idx <= 0 {
        assert(best_upto(list, e, idx) =~= Seq::<PossibleIntervalView>::empty());
        if e <= 0 {
            assert forall|j: int| 0 <= j < idx implies (#[trigger] list[j]).end != e by {}
        }
    } else {
        lemma_best_covers(list, len, e, idx - 1);
        let held = best_upto(list, e, idx - 1);
        let interval = list[idx - 1];
        assert(settled(list, e, idx - 1));
        if interval.end == e {
            let s = interval.start;
            assert(0 <= s < e);
            lemma_best_covers(list, len, s, list.len() as int);
            let before = best_at(list, s);
            assert(settled(list, s, list.len() as int));
            assert(covers(before, 0, s) && drawn_from(list, before)) by {
                assert(coverable(list, s));
                if s > 0 {
                    let j = lemma_cover_ends(list, s);
                    assert(before.len() > 0);
                } else {
                    assert(before =~= Seq::<PossibleIntervalView>::empty());
                }
            }
            let proposal = before.push(interval);
            lemma_extend_cover(list, before, interval);
            assert(proposal.last().end == e);
            assert(score(proposal) > 0);
            let now = best_upto(list, e, idx);
            assert(now == if score(held) < score(proposal) {
                proposal
            } else {
                held
            });
            assert(score(now) > 0);
            assert(now.len() > 0);
            assert(settled(list, e, idx));
        } else {
            assert(best_upto(list, e, idx) == held);
            assert forall|j: int| 0 <= j < idx && (#[trigger] list[j]).end == e implies 0 <= j < idx
                - 1 by {}
            assert(settled(list, e, idx));
        }
    }
}

/// The best path covers `[0, e)` wherever some path does, provided that no
/// interval of the list starts at a position that no path from 0 reaches, and
/// that every path from 0 scores above 0.
pub proof fn law_best_path_covers(list: Seq<PossibleIntervalView>, len: int, e: int)
    requires
        segments_of(list, len),
        0 <= e <= len,
        starts_are_coverable(list),
        covers_score_above_zero(list),
        coverable(list, e),
    ensures
        covers(best_at(list, e), 0, e),
        drawn_from(list, best_at(list, e)),
{
    lemma_best_covers(list, len, e, list.len() as int);
    assert(settled(list, e, list.len() as int));
    if e > 0 {
        let j = lemma_cover_ends(list, e);
    } else {
        assert(best_at(list, e) =~= Seq::<PossibleIntervalView>::empty());
    }
}

/// The best segmentation covers the input without gap or overlap wherever
/// some path through the candidate intervals does, provided that no
/// candidate starts at a position that no path from 0 reaches, and that every
/// path from 0 scores above 0.
pub proof fn law_conversion_covers<D: Dictionary>(dict: D, seq: SequenceView)
    requires
        starts_are_coverable(grid(dict, seq)),
        covers_score_above_zero(grid(dict, seq)),
        coverable(grid(dict, seq), seq.syllables.len() as int),
    ensures
        segmentation_covers(conversion(dict, seq), seq.syllables.len() as int),
{
    let n = seq.syllables.len() as int;
    let list = grid(dict, seq);
    lemma_grid_segments(dict, seq);
    law_best_path_covers(list, n, n);
    let best = best_at(list, n);
    lemma_grid_rows_members(dict, seq, n);
    assert(from_grid(dict, seq, best)) by {
        assert forall|k: int| 0 <= k < best.len() implies {
            &&& 0 <= (#[trigger] best[k]).start < best[k].end <= seq.syllables.len()
            &&& candidate(dict, seq, best[k].start, best[k].end) == Some(best[k].phrase)
        } by {
            assert(list.contains(best[k]));
            let at = choose|at: int| 0 <= at < list.len() && list[at] == best[k];
            assert(list[at] == best[k]);
        }
    }
    lemma_publish_covers(dict, seq, best, n);
}

/// Every single syllable of the input has a candidate phrase.
pub open spec fn singles_have_candidates<D: Dictionary>(dict: D, seq: SequenceView) -> bool {
    forall|i: int|
        0 <= i < seq.syllables.len() ==> (#[trigger] candidate(dict, seq, i, i + 1)) is Some
}

proof fn lemma_grid_row_holds<D: Dictionary>(
    dict: D,
    seq: SequenceView,
    begin: int,
    end: int,
    upto: int,
)
    requires
        0 <= begin < end <= upto,
        candidate(dict, seq, begin, end) is Some,
    ensures
        grid_row(dict, seq, begin, upto).contains(
            PossibleIntervalView { start: begin, end, phrase: candidate(dict, seq, begin, end)->0 },
        ),
    decreases upto - begin,
{
    let wanted = PossibleIntervalView {
        start: begin,
        end,
        phrase: candidate(dict, seq, begin, end)->0,
    };
    let row = grid_row(dict, seq, begin, upto);
    let shorter = grid_row(dict, seq, begin, upto - 1);
    if end == upto {
        assert(row[shorter.len() as int] == wanted);
    } else {
        lemma_grid_row_holds(dict, seq, begin, end, upto - 1);
        let at = choose|at: int| 0 <= at < shorter.len() && shorter[at] == wanted;
        assert(row[at] == wanted);
    }
}

/// The grid holds the candidate interval of every segment that has one.
pub proof fn lemma_grid_holds<D: Dictionary>(
    dict: D,
    seq: SequenceView,
    begin: int,
    end: int,
    begins: int,
)
    requires
        0 <= begin < end <= seq.syllables.len(),
        begin < begins,
        candidate(dict, seq, begin, end) is Some,
    ensures
        grid_rows(dict, seq, begins).contains(
            PossibleIntervalView { start: begin, end, phrase: candidate(dict, seq, begin, end)->0 },
        ),
    decreases begins,
{
    let wanted = PossibleIntervalView {
        start: begin,
        end,
        phrase: candidate(dict, seq, begin, end)->0,
    };
    let rows = grid_rows(dict, seq, begins);
    let earlier = grid_rows(dict, seq, begins - 1);
    let row = grid_row(dict, seq, begins - 1, seq.syllables.len() as int);
    if begin == begins - 1 {
        lemma_grid_row_holds(dict, seq, begin, end, seq.syllables.len() as int);
        let at = choose|at: int| 0 <= at < row.len() && row[at] == wanted;
        assert(rows[earlier.len() + at] == wanted);
    } else {
        lemma_grid_holds(dict, seq, begin, end, begins - 1);
        let at = choose|at: int| 0 <= at < earlier.len() && earlier[at] == wanted;
        assert(rows[at] == wanted);
    }
}

/// The path of one-syllable candidates from 0 to `e`.
pub open spec fn singles<D: Dictionary>(dict: D, seq: SequenceView, e: int) -> Seq<
    PossibleIntervalView,
>
    decreases e,
{
    if e <= 0 {
        Seq::empty()
    } else {
        singles(dict, seq, e - 1).push(
            PossibleIntervalView {
                start: e - 1,
                end: e,
                phrase: candidate(dict, seq, e - 1, e)->0,
            },
        )
    }
}

proof fn lemma_singles_cover<D: Dictionary>(dict: D, seq: SequenceView, e: int)
    requires
        singles_have_candidates(dict, seq),
        0 <= e <= seq.syllables.len(),
    ensures
        singles(dict, seq, e).len() == e,
        covers(singles(dict, seq, e), 0, e),
        drawn_from(grid(dict, seq), singles(dict, seq, e)),
        forall|k: int| 0 <= k < e ==> (#[trigger] singles(dict, seq, e)[k]).start == k,
    decreases e,
{
    if e > 0 {
        lemma_singles_cover(dict, seq, e - 1);
        let before = singles(dict, seq, e - 1);
        let path = singles(dict, seq, e);
        assert(candidate(dict, seq, e - 1, e) is Some);
        lemma_grid_holds(dict, seq, e - 1, e, seq.syllables.len() as int);
        assert forall|k: int| 0 <= k < path.len() implies grid(dict, seq).contains(
            #[trigger] path[k],
        ) by {
            if k < before.len() {
                assert(path[k] == before[k]);
            }
        }
        assert forall|k: int| 0 <= k < e implies (#[trigger] path[k]).start == k by {
            if k < before.len() {
                assert(path[k] == before[k]);
            }
        }
        assert forall|k: int| 0 <= k < path.len() - 1 implies (#[trigger] path[k]).end == path[k
            + 1].start by {
            assert(path[k + 1].start == k + 1);
            if k < before.len() - 1 {
                assert(path[k] == before[k]);
                assert(before[k].end == before[k + 1].start);
                assert(before[k + 1].start == k + 1);
            } else {
                assert(path[k] == before.last());
            }
        }
        if before.len() > 0 {
            assert(path.first() == before.first());
        }
    }
}

/// Where every single syllable has a candidate phrase, every position of the
/// input is reached by a path from 0, so that every candidate starts at such
/// a position and some path covers the whole input.
pub proof fn law_singles_reach_every_position<D: Dictionary>(dict: D, seq: SequenceView)
    requires
        singles_have_candidates(dict, seq),
    ensures
        starts_are_coverable(grid(dict, seq)),
        coverable(grid(dict, seq), seq.syllables.len() as int),
{
    let list = grid(dict, seq);
    let n = seq.syllables.len() as int;
    lemma_grid_rows_members(dict, seq, n);
    assert forall|i: int| 0 <= i < list.len() implies coverable(
        list,
        (#[trigger] list[i]).start,
    ) by {
        lemma_singles_cover(dict, seq, list[i].start);
        assert(covers(singles(dict, seq, list[i].start), 0, list[i].start));
    }
    lemma_singles_cover(dict, seq, n);
    assert(covers(singles(dict, seq, n), 0, n));
}

proof fn lemma_paths_grow<D: Dictionary>(
    dict: D,
    seq: SequenceView,
    start: int,
    target: int,
    prefix: Seq<PossibleIntervalView>,
    upto: int,
)
    requires
        singles_have_candidates(dict, seq),
        0 <= start <= target <= seq.syllables.len(),
        start < target ==> start < upto <= target,
    ensures
        paths_via(dict, seq, start, target, prefix, upto).len() > 0,
    decreases target - start, upto - start,
{
    if start >= target {
    } else if upto == start + 1 {
        assert(candidate(dict, seq, start, start + 1) is Some);
        let phrase = candidate(dict, seq, start, upto)->0;
        lemma_paths_grow(
            dict,
            seq,
            upto,
            target,
            prefix.push(PossibleIntervalView { start, end: upto, phrase }),
            target,
        );
    } else {
        lemma_paths_grow(dict, seq, start, target, prefix, upto - 1);
    }
}

/// Where every single syllable has a candidate phrase, there is an
/// alternative segmentation.
pub proof fn law_singles_give_alternatives<D: Dictionary>(dict: D, seq: SequenceView)
    requires
        singles_have_candidates(dict, seq),
    ensures
        alternatives(dict, seq).len() > 0,
{
    let n = seq.syllables.len() as int;
    let listed = all_paths(dict, seq, 0, n, Seq::empty());
    lemma_paths_grow(dict, seq, 0, n, Seq::empty(), n);
    lemma_trim_keeps(listed);
    lemma_sort_members(trim(listed));
}

/// The spans of a contiguous path add up to the distance from its start to
/// its end.
pub proof fn lemma_sum_of_contiguous(p: Seq<PossibleIntervalView>)
    requires
        p.len() > 0,
        contiguous(p),
    ensures
        largest_sum(p) == p.last().end - p.first().start,
    decreases p.len(),
{
    let front = p.drop_last();
    if front.len() > 0 {
        assert forall|k: int| 0 <= k < front.len() - 1 implies (#[trigger] front[k]).end
            == front[k + 1].start by {
            assert(front[k] == p[k] && front[k + 1] == p[k + 1]);
        }
        lemma_sum_of_contiguous(front);
        assert(front.last() == p[p.len() - 2]);
        assert(front.first() == p.first());
    } else {
        assert(largest_sum(front) == 0);
    }
}

/// A path of intervals of one syllable or more spans at least as many
/// syllables as it has intervals.
pub proof fn lemma_sum_at_least_count(p: Seq<PossibleIntervalView>)
    requires
        forall|i: int| 0 <= i < p.len() ==> (#[trigger] p[i]).span() >= 1,
    ensures
        largest_sum(p) >= p.len(),
    decreases p.len(),
{
    if p.len() > 0 {
        lemma_sum_at_least_count(p.drop_last());
    }
}

/// The distance between two spans is at most what the two exceed 1 by.
proof fn lemma_distances_within(p: Seq<PossibleIntervalView>, a: int)
    requires
        forall|i: int| 0 <= i < p.len() ==> (#[trigger] p[i]).span() >= 1,
        a >= 1,
    ensures
        distances_to(p, a) <= (largest_sum(p) - p.len()) + p.len() * (a - 1),
    decreases p.len(),
{
    if p.len() > 0 {
        let front = p.drop_last();
        lemma_distances_within(front, a);
        let count = front.len() as int;
        assert((count + 1) * (a - 1) == count * (a - 1) + (a - 1)) by (nonlinear_arith);
    }
}

/// In a path of `k` intervals of one syllable or more that spans `l`
/// syllables, the distances between the spans add up to at most
/// `(k - 1) * (l - k)`.
proof fn lemma_spread_within(p: Seq<PossibleIntervalView>)
    requires
        p.len() > 0,
        forall|i: int| 0 <= i < p.len() ==> (#[trigger] p[i]).span() >= 1,
    ensures
        spread(p) <= (p.len() - 1) * (largest_sum(p) - p.len()),
    decreases p.len(),
{
    let front = p.drop_last();
    let a = p.last().span();
    let count = front.len() as int;
    let excess = largest_sum(front) - count;
    lemma_distances_within(front, a);
    if count > 0 {
        lemma_spread_within(front);
        assert((count - 1) * excess + excess + count * (a - 1) == count * (excess + (a - 1)))
            by (nonlinear_arith);
    } else {
        assert(spread(front) == 0);
        assert(distances_to(front, a) == 0);
        assert(count * (a - 1) == 0) by (nonlinear_arith)
            requires
                count == 0,
        ;
    }
}

/// A contiguous path from 0 that spans at most 40 syllables scores above 0.
proof fn lemma_short_path_scores(p: Seq<PossibleIntervalView>)
    requires
        p.len() > 0,
        contiguous(p),
        p.first().start == 0,
        p.last().end <= 40,
        forall|i: int| 0 <= i < p.len() ==> (#[trigger] p[i]).span() >= 1,
    ensures
        score(p) > 0,
{
    let count = p.len() as int;
    let sum = largest_sum(p);
    lemma_sum_of_contiguous(p);
    lemma_sum_at_least_count(p);
    lemma_spread_within(p);
    lemma_freqsum_nonnegative(p);
    let x = count - 1;
    let y = sum - count;
    let product = x * y;
    assert(4 * product <= (x + y) * (x + y)) by (nonlinear_arith)
        requires
            product == x * y,
    ;
    assert((x + y) * (x + y) <= 39 * (x + y)) by (nonlinear_arith)
        requires
            0 <= x + y <= 39,
    ;
    assert(0 <= (6 * sum) / count) by (nonlinear_arith)
        requires
            0 <= sum,
            count >= 1,
    ;
}

/// On an input of at most 40 syllables every path from 0 scores above 0.
pub proof fn law_short_paths_score_above_zero(list: Seq<PossibleIntervalView>, len: int)
    requires
        segments_of(list, len),
        len <= 40,
    ensures
        covers_score_above_zero(list),
{
    assert forall|p: Seq<PossibleIntervalView>|
        p.len() > 0 && drawn_from(list, p) && covers(p, 0, p.last().end) implies #[trigger] score(
        p,
    ) > 0 by {
        assert forall|i: int| 0 <= i < p.len() implies (#[trigger] p[i]).span() >= 1 by {
            assert(list.contains(p[i]));
            let at = choose|at: int| 0 <= at < list.len() && list[at] == p[i];
            assert(list[at].start < list[at].end);
        }
        assert(list.contains(p[p.len() - 1]));
        let at = choose|at: int| 0 <= at < list.len() && list[at] == p.last();
        assert(list[at].end <= len);
        lemma_short_path_scores(p);
    }
}

/// On an input of at most 40 syllables of which each has a candidate phrase
/// by itself, the best segmentation covers the input without gap or overlap.
pub proof fn law_conversion_covers_short_input<D: Dictionary>(dict: D, seq: SequenceView)
    requires
        seq.syllables.len() <= 40,
        singles_have_candidates(dict, seq),
    ensures
        segmentation_covers(conversion(dict, seq), seq.syllables.len() as int),
{
    lemma_grid_segments(dict, seq);
    law_short_paths_score_above_zero(grid(dict, seq), seq.syllables.len() as int);
    law_singles_reach_every_position(dict, seq);
    law_conversion_covers(dict, seq);
}

} // verus!
