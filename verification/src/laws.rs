//! What holds of every conversion.
use crate::alternatives::{
    all_paths, alternatives, from_grid, insert_by_score, lemma_paths_cover, lemma_sort_members,
    lemma_trim_keeps, sort_by_score, trim,
};
use crate::candidate::{
    admissible, best_of, candidate, cut, grid, honours, lemma_grid_rows_members, window,
};
use crate::dictionary::{one_character_per_syllable, Dictionary, PhraseView};
use crate::engine::{conversion, next_conversion};
use crate::path::{score, PossibleIntervalView};
use crate::search::{best_at, covers, lemma_best_shape, publish};
use crate::sequence::{IntervalView, SequenceView};
use vstd::prelude::*;

verus! {

/// The best admissible phrase is one of the listed phrases, is admissible, and
/// no admissible listed phrase is heavier.
pub proof fn law_best_of_is_heaviest(
    phrases: Seq<PhraseView>,
    start: int,
    end: int,
    selections: Seq<IntervalView>,
)
    ensures
        match best_of(phrases, start, end, selections) {
            Some(best) => {
                &&& phrases.contains(best)
                &&& admissible(best.text, start, end, selections)
                &&& forall|i: int|
                    0 <= i < phrases.len() && admissible(
                        (#[trigger] phrases[i]).text,
                        start,
                        end,
                        selections,
                    ) ==> phrases[i].freq <= best.freq
            },
            None => forall|i: int|
                0 <= i < phrases.len() ==> !admissible(
                    (#[trigger] phrases[i]).text,
                    start,
                    end,
                    selections,
                ),
        },
    decreases phrases.len(),
{
    if phrases.len() > 0 {
        let front = phrases.drop_last();
        law_best_of_is_heaviest(front, start, end, selections);
        let phrase = phrases.last();
        assert(phrases[phrases.len() - 1] == phrase);
        assert forall|i: int| 0 <= i < front.len() implies front[i] == phrases[i] by {}
        match best_of(phrases, start, end, selections) {
            Some(best) => {
                if best != phrase || !admissible(phrase.text, start, end, selections) {
                    assert(front.contains(best));
                    let at = choose|at: int| 0 <= at < front.len() && front[at] == best;
                    assert(phrases[at] == best);
                }
                assert forall|i: int|
                    0 <= i < phrases.len() && admissible(
                        (#[trigger] phrases[i]).text,
                        start,
                        end,
                        selections,
                    ) implies phrases[i].freq <= best.freq by {
                    if i < front.len() {
                        assert(front[i] == phrases[i]);
                    }
                }
            },
            None => {
                assert forall|i: int| 0 <= i < phrases.len() implies !admissible(
                    (#[trigger] phrases[i]).text,
                    start,
                    end,
                    selections,
                ) by {
                    if i < front.len() {
                        assert(front[i] == phrases[i]);
                    }
                }
            },
        }
    }
}

/// Of several admissible phrases of the highest weight the one listed first
/// is chosen: every admissible phrase listed before the best one is lighter.
pub proof fn law_best_of_is_first_of_heaviest(
    phrases: Seq<PhraseView>,
    start: int,
    end: int,
    selections: Seq<IntervalView>,
) -> (at: int)
    requires
        best_of(phrases, start, end, selections) is Some,
    ensures
        0 <= at < phrases.len(),
        Some(phrases[at]) == best_of(phrases, start, end, selections),
        forall|i: int|
            0 <= i < at && admissible((#[trigger] phrases[i]).text, start, end, selections)
                ==> phrases[i].freq < phrases[at].freq,
    decreases phrases.len(),
{
    let front = phrases.drop_last();
    let phrase = phrases.last();
    let earlier = best_of(front, start, end, selections);
    law_best_of_is_heaviest(front, start, end, selections);
    assert forall|i: int| 0 <= i < front.len() implies front[i] == phrases[i] by {}
    if admissible(phrase.text, start, end, selections) && (earlier is None || phrase.freq
        > earlier->0.freq) {
        phrases.len() - 1
    } else {
        law_best_of_is_first_of_heaviest(front, start, end, selections)
    }
}

/// A candidate phrase is listed by the dictionary for the syllables of its
/// segment, honours every selection, and its segment is cut by no break.
pub proof fn law_candidate_is_admissible<D: Dictionary>(
    dict: D,
    seq: SequenceView,
    start: int,
    end: int,
)
    requires
        0 <= start <= end <= seq.syllables.len(),
    ensures
        candidate(dict, seq, start, end) matches Some(phrase) ==> {
            &&& !cut(start, end, seq.breaks)
            &&& admissible(phrase.text, start, end, seq.selections)
            &&& dict.entries(seq.syllables.subrange(start, end)).contains(phrase)
        },
{
    let syllables = seq.syllables.subrange(start, end);
    law_best_of_is_heaviest(
        dict.entries(syllables),
        start,
        start + syllables.len(),
        seq.selections,
    );
}

/// A segmentation in which every interval is the candidate of its segment.
pub open spec fn made_of_candidates<D: Dictionary>(
    dict: D,
    seq: SequenceView,
    intervals: Seq<IntervalView>,
) -> bool {
    forall|i: int|
        0 <= i < intervals.len() ==> {
            &&& 0 <= (#[trigger] intervals[i]).start < intervals[i].end <= seq.syllables.len()
            &&& candidate(dict, seq, intervals[i].start, intervals[i].end) matches Some(phrase)
            &&& phrase.text == intervals[i].phrase
        }
}

/// A segmentation that covers `[0, n)`: its intervals are not empty, the first
/// starts at 0, each starts where the one before it ends, the last ends at `n`.
pub open spec fn segmentation_covers(intervals: Seq<IntervalView>, n: int) -> bool {
    &&& intervals.len() == 0 ==> n == 0
    &&& intervals.len() > 0 ==> intervals[0].start == 0 && intervals.last().end == n
    &&& forall|i: int|
        0 <= i < intervals.len() ==> (#[trigger] intervals[i]).start < intervals[i].end
    &&& forall|i: int|
        0 <= i < intervals.len() - 1 ==> (#[trigger] intervals[i]).end == intervals[i + 1].start
}

/// Every phrase has as many characters as its interval has syllables.
pub open spec fn sized_by_span(intervals: Seq<IntervalView>) -> bool {
    forall|i: int|
        0 <= i < intervals.len() ==> (#[trigger] intervals[i]).phrase.len() == intervals[i].end
            - intervals[i].start
}

/// No break of `seq` lies strictly inside an interval.
pub open spec fn clear_of_breaks(seq: SequenceView, intervals: Seq<IntervalView>) -> bool {
    forall|i: int, b: int|
        0 <= i < intervals.len() && 0 <= b < seq.breaks.len() ==> !((
        #[trigger] intervals[i]).start < (#[trigger] seq.breaks[b]).0 < intervals[i].end)
}

/// An interval that reaches over a selection of `seq` shows the selected
/// characters at the selection's place.
pub open spec fn honours_selections(seq: SequenceView, intervals: Seq<IntervalView>) -> bool {
    forall|i: int, s: int|
        0 <= i < intervals.len() && 0 <= s < seq.selections.len() && (
        #[trigger] intervals[i]).start <= (#[trigger] seq.selections[s]).start
            && seq.selections[s].end <= intervals[i].end ==> window(
            intervals[i].phrase,
            seq.selections[s].start - intervals[i].start,
            seq.selections[s].end - seq.selections[s].start,
        ) == seq.selections[s].phrase
}

/// The intervals of a path of candidates, handed out, are made of candidates.
pub proof fn lemma_publish_candidates<D: Dictionary>(
    dict: D,
    seq: SequenceView,
    p: Seq<PossibleIntervalView>,
)
    requires
        from_grid(dict, seq, p),
    ensures
        made_of_candidates(dict, seq, publish(p)),
{
    assert forall|i: int| 0 <= i < publish(p).len() implies {
        &&& 0 <= (#[trigger] publish(p)[i]).start < publish(p)[i].end <= seq.syllables.len()
        &&& candidate(dict, seq, publish(p)[i].start, publish(p)[i].end) matches Some(phrase)
        &&& phrase.text == publish(p)[i].phrase
    } by {
        assert(publish(p)[i] == p[i].published());
    }
}

/// The intervals of a path that covers `[0, n)` with candidates, handed out,
/// cover `[0, n)`.
pub proof fn lemma_publish_covers<D: Dictionary>(
    dict: D,
    seq: SequenceView,
    p: Seq<PossibleIntervalView>,
    n: int,
)
    requires
        from_grid(dict, seq, p),
        covers(p, 0, n),
    ensures
        segmentation_covers(publish(p), n),
{
    let s = publish(p);
    assert forall|i: int| 0 <= i < s.len() implies (#[trigger] s[i]).start < s[i].end by {
        assert(s[i] == p[i].published());
    }
    assert forall|i: int| 0 <= i < s.len() - 1 implies (#[trigger] s[i]).end == s[i + 1].start by {
        assert(s[i] == p[i].published());
        assert(s[i + 1] == p[i + 1].published());
    }
}

/// Every interval of the best segmentation is the candidate of its segment.
pub proof fn law_conversion_made_of_candidates<D: Dictionary>(dict: D, seq: SequenceView)
    ensures
        made_of_candidates(dict, seq, conversion(dict, seq)),
{
    let n = seq.syllables.len() as int;
    let list = grid(dict, seq);
    let best = best_at(list, n);
    lemma_grid_rows_members(dict, seq, n);
    lemma_best_shape(list, n, n, list.len() as int);
    assert forall|k: int| 0 <= k < best.len() implies {
        &&& 0 <= (#[trigger] best[k]).start < best[k].end <= seq.syllables.len()
        &&& candidate(dict, seq, best[k].start, best[k].end) == Some(best[k].phrase)
    } by {
        assert(list.contains(best[k]));
        let at = choose|at: int| 0 <= at < list.len() && list[at] == best[k];
        assert(list[at] == best[k]);
    }
    lemma_publish_candidates(dict, seq, best);
}

/// Every alternative covers the input with candidate intervals.
pub proof fn law_alternatives_cover<D: Dictionary>(dict: D, seq: SequenceView)
    ensures
        forall|i: int|
            0 <= i < alternatives(dict, seq).len() ==> {
                &&& covers(#[trigger] alternatives(dict, seq)[i], 0, seq.syllables.len() as int)
                &&& from_grid(dict, seq, alternatives(dict, seq)[i])
                &&& alternatives(dict, seq)[i].len() <= seq.syllables.len()
            },
{
    let n = seq.syllables.len() as int;
    let listed = all_paths(dict, seq, 0, n, Seq::empty());
    let found = alternatives(dict, seq);
    lemma_paths_cover(dict, seq, 0, n, Seq::empty(), n);
    lemma_trim_keeps(listed);
    lemma_sort_members(trim(listed));
    assert forall|i: int| 0 <= i < found.len() implies {
        &&& covers(#[trigger] found[i], 0, n)
        &&& from_grid(dict, seq, found[i])
        &&& found[i].len() <= n
    } by {
        let sorted = sort_by_score(trim(listed));
        let q = found[i];
        assert(q == sorted[sorted.len() - 1 - i]);
        assert(sorted.contains(q));
        assert(trim(listed).contains(q));
        let at = choose|at: int| 0 <= at < trim(listed).len() && trim(listed)[at] == q;
        assert(listed.contains(trim(listed)[at]));
        let back = choose|back: int| 0 <= back < listed.len() && listed[back] == q;
        assert(listed[back] == q);
    }
}

/// Every alternative segmentation covers the input without gap or overlap,
/// and each of its intervals is the candidate of its segment.
pub proof fn law_next_conversion_covers<D: Dictionary>(dict: D, seq: SequenceView, next: nat)
    requires
        seq.syllables.len() == 0 || alternatives(dict, seq).len() > 0,
    ensures
        segmentation_covers(next_conversion(dict, seq, next), seq.syllables.len() as int),
        made_of_candidates(dict, seq, next_conversion(dict, seq, next)),
{
    if seq.syllables.len() > 0 {
        let found = alternatives(dict, seq);
        let at = (next % found.len()) as int;
        law_alternatives_cover(dict, seq);
        assert(covers(found[at], 0, seq.syllables.len() as int));
        lemma_publish_candidates(dict, seq, found[at]);
        lemma_publish_covers(dict, seq, found[at], seq.syllables.len() as int);
    }
}

/// In a segmentation made of candidates, every phrase has as many characters
/// as its interval has syllables, provided that the dictionary lists under
/// every key only phrases of the key's length.
pub proof fn law_phrase_length_is_span<D: Dictionary>(
    dict: D,
    seq: SequenceView,
    intervals: Seq<IntervalView>,
)
    requires
        one_character_per_syllable(dict),
        made_of_candidates(dict, seq, intervals),
    ensures
        sized_by_span(intervals),
{
    assert forall|i: int| 0 <= i < intervals.len() implies (#[trigger] intervals[i]).phrase.len()
        == intervals[i].end - intervals[i].start by {
        let it = intervals[i];
        law_candidate_is_admissible(dict, seq, it.start, it.end);
        let key = seq.syllables.subrange(it.start, it.end);
        let phrase = candidate(dict, seq, it.start, it.end)->0;
        assert(dict.entries(key).contains(phrase));
        let listed = dict.entries(key);
        let at = choose|at: int| 0 <= at < listed.len() && listed[at] == phrase;
        assert(dict.entries(key)[at].text.len() == key.len());
    }
}

/// In a segmentation made of candidates, no break lies strictly inside an
/// interval.
pub proof fn law_breaks_are_respected<D: Dictionary>(
    dict: D,
    seq: SequenceView,
    intervals: Seq<IntervalView>,
)
    requires
        made_of_candidates(dict, seq, intervals),
    ensures
        clear_of_breaks(seq, intervals),
{
    assert forall|i: int, b: int|
        0 <= i < intervals.len() && 0 <= b < seq.breaks.len() implies !((
        #[trigger] intervals[i]).start < (#[trigger] seq.breaks[b]).0 < intervals[i].end) by {
        law_candidate_is_admissible(dict, seq, intervals[i].start, intervals[i].end);
    }
}

/// In a segmentation made of candidates, an interval that reaches over a
/// selection shows the selected characters at the selection's place. Where
/// the interval is the selection's own segment and phrases have one character
/// per syllable, the interval's phrase is the selected phrase.
pub proof fn law_selections_are_honoured<D: Dictionary>(
    dict: D,
    seq: SequenceView,
    intervals: Seq<IntervalView>,
)
    requires
        made_of_candidates(dict, seq, intervals),
    ensures
        honours_selections(seq, intervals),
        forall|i: int, s: int|
            0 <= i < intervals.len() && 0 <= s < seq.selections.len() && (
            #[trigger] intervals[i]).start == (#[trigger] seq.selections[s]).start
                && seq.selections[s].end == intervals[i].end && intervals[i].phrase.len()
                == intervals[i].end - intervals[i].start ==> intervals[i].phrase
                == seq.selections[s].phrase,
{
    assert forall|i: int, s: int|
        0 <= i < intervals.len() && 0 <= s < seq.selections.len() && (
        #[trigger] intervals[i]).start <= (#[trigger] seq.selections[s]).start
            && seq.selections[s].end <= intervals[i].end implies window(
        intervals[i].phrase,
        seq.selections[s].start - intervals[i].start,
        seq.selections[s].end - seq.selections[s].start,
    ) == seq.selections[s].phrase by {
        law_candidate_is_admissible(dict, seq, intervals[i].start, intervals[i].end);
        assert(honours(
            intervals[i].phrase,
            intervals[i].start,
            intervals[i].end,
            seq.selections[s],
        ));
    }
    assert forall|i: int, s: int|
        0 <= i < intervals.len() && 0 <= s < seq.selections.len() && (
        #[trigger] intervals[i]).start == (#[trigger] seq.selections[s]).start
            && seq.selections[s].end == intervals[i].end && intervals[i].phrase.len()
            == intervals[i].end - intervals[i].start implies intervals[i].phrase
        == seq.selections[s].phrase by {
        let text = intervals[i].phrase;
        assert(window(text, 0, text.len() as int) =~= text);
    }
}

/// Cycling through the alternatives comes back after as many steps as there
/// are alternatives.
pub proof fn law_cycle_repeats<D: Dictionary>(dict: D, seq: SequenceView, next: nat)
    ensures
        next_conversion(dict, seq, next) == next_conversion(
            dict,
            seq,
            next + alternatives(dict, seq).len(),
        ),
{
    let count = alternatives(dict, seq).len();
    if count > 0 {
        vstd::arithmetic::div_mod::lemma_mod_add_multiples_vanish(next as int, count as int);
        assert((next + count) as int == count as int + next as int);
    }
}

/// Two dictionaries that list the same phrases under every key propose the
/// same candidate for every segment.
pub proof fn lemma_same_candidates<D1: Dictionary, D2: Dictionary>(
    first: D1,
    second: D2,
    seq: SequenceView,
    start: int,
    end: int,
)
    requires
        forall|syllables: Seq<crate::sequence::Syllable>| #[trigger]
            first.entries(syllables) == second.entries(syllables),
    ensures
        candidate(first, seq, start, end) == candidate(second, seq, start, end),
{
    assert(first.entries(seq.syllables.subrange(start, end)) == second.entries(
        seq.syllables.subrange(start, end),
    ));
}

proof fn lemma_same_grid_row<D1: Dictionary, D2: Dictionary>(
    first: D1,
    second: D2,
    seq: SequenceView,
    begin: int,
    upto: int,
)
    requires
        forall|syllables: Seq<crate::sequence::Syllable>| #[trigger]
            first.entries(syllables) == second.entries(syllables),
    ensures
        crate::candidate::grid_row(first, seq, begin, upto) == crate::candidate::grid_row(
            second,
            seq,
            begin,
            upto,
        ),
    decreases upto - begin,
{
    if upto > begin {
        lemma_same_grid_row(first, second, seq, begin, upto - 1);
        lemma_same_candidates(first, second, seq, begin, upto);
    }
}

proof fn lemma_same_grid_rows<D1: Dictionary, D2: Dictionary>(
    first: D1,
    second: D2,
    seq: SequenceView,
    begins: int,
)
    requires
        forall|syllables: Seq<crate::sequence::Syllable>| #[trigger]
            first.entries(syllables) == second.entries(syllables),
    ensures
        crate::candidate::grid_rows(first, seq, begins) == crate::candidate::grid_rows(
            second,
            seq,
            begins,
        ),
    decreases begins,
{
    if begins > 0 {
        lemma_same_grid_rows(first, second, seq, begins - 1);
        lemma_same_grid_row(first, second, seq, begins - 1, seq.syllables.len() as int);
    }
}

proof fn lemma_same_paths<D1: Dictionary, D2: Dictionary>(
    first: D1,
    second: D2,
    seq: SequenceView,
    start: int,
    target: int,
    prefix: Seq<PossibleIntervalView>,
    upto: int,
)
    requires
        forall|syllables: Seq<crate::sequence::Syllable>| #[trigger]
            first.entries(syllables) == second.entries(syllables),
    ensures
        crate::alternatives::paths_via(first, seq, start, target, prefix, upto)
            == crate::alternatives::paths_via(second, seq, start, target, prefix, upto),
    decreases target - start, upto - start,
{
    if start >= target {
    } else if upto <= start || upto > target {
    } else {
        lemma_same_paths(first, second, seq, start, target, prefix, upto - 1);
        lemma_same_candidates(first, second, seq, start, upto);
        match candidate(first, seq, start, upto) {
            Some(phrase) => {
                lemma_same_paths(
                    first,
                    second,
                    seq,
                    upto,
                    target,
                    prefix.push(PossibleIntervalView { start, end: upto, phrase }),
                    target,
                );
            },
            None => {},
        }
    }
}

/// A conversion is a function of the sequence and of what the dictionary
/// lists: two dictionaries that list the same phrases under every key give
/// the same best segmentation and the same alternatives, in the same order.
pub proof fn law_conversion_is_determined<D1: Dictionary, D2: Dictionary>(
    first: D1,
    second: D2,
    seq: SequenceView,
    next: nat,
)
    requires
        forall|syllables: Seq<crate::sequence::Syllable>| #[trigger]
            first.entries(syllables) == second.entries(syllables),
    ensures
        conversion(first, seq) == conversion(second, seq),
        alternatives(first, seq) == alternatives(second, seq),
        next_conversion(first, seq, next) == next_conversion(second, seq, next),
{
    let n = seq.syllables.len() as int;
    lemma_same_grid_rows(first, second, seq, n);
    lemma_same_paths(first, second, seq, 0, n, Seq::empty(), n);
}

/// Inserting by score into an ascending list gives an ascending list.
pub proof fn lemma_insert_ascending(
    sorted: Seq<Seq<PossibleIntervalView>>,
    p: Seq<PossibleIntervalView>,
)
    requires
        forall|i: int, j: int|
            0 <= i <= j < sorted.len() ==> score(#[trigger] sorted[i]) <= score(
                #[trigger] sorted[j],
            ),
    ensures
        insert_by_score(sorted, p).len() == sorted.len() + 1,
        forall|i: int, j: int|
            0 <= i <= j < sorted.len() + 1 ==> score(#[trigger] insert_by_score(sorted, p)[i])
                <= score(#[trigger] insert_by_score(sorted, p)[j]),
        forall|i: int|
            0 <= i < sorted.len() + 1 ==> score(#[trigger] insert_by_score(sorted, p)[i]) <= score(
                p,
            ) || (sorted.len() > 0 && score(insert_by_score(sorted, p)[i]) <= score(
                sorted.last(),
            )),
    decreases sorted.len(),
{
    let after = insert_by_score(sorted, p);
    if sorted.len() == 0 {
    } else if score(sorted.last()) <= score(p) {
        assert forall|i: int, j: int| 0 <= i <= j < sorted.len() + 1 implies score(
            #[trigger] after[i],
        ) <= score(#[trigger] after[j]) by {
            if j == sorted.len() && i < sorted.len() {
                assert(score(sorted[i]) <= score(sorted[sorted.len() - 1]));
            }
        }
    } else {
        let front = sorted.drop_last();
        let inner = insert_by_score(front, p);
        assert forall|i: int, j: int| 0 <= i <= j < front.len() implies score(
            #[trigger] front[i],
        ) <= score(#[trigger] front[j]) by {
            assert(front[i] == sorted[i] && front[j] == sorted[j]);
        }
        lemma_insert_ascending(front, p);
        assert forall|i: int, j: int| 0 <= i <= j < sorted.len() + 1 implies score(
            #[trigger] after[i],
        ) <= score(#[trigger] after[j]) by {
            if j == sorted.len() && i < sorted.len() {
                assert(after[i] == inner[i]);
                if front.len() > 0 {
                    assert(score(front.last()) <= score(sorted.last())) by {
                        assert(front.last() == sorted[sorted.len() - 2]);
                        assert(sorted.last() == sorted[sorted.len() - 1]);
                    }
                }
            } else if j < sorted.len() {
                assert(after[i] == inner[i] && after[j] == inner[j]);
            }
        }
    }
}

/// Sorting by score gives an ascending list.
pub proof fn lemma_sort_ascending(paths: Seq<Seq<PossibleIntervalView>>)
    ensures
        forall|i: int, j: int|
            0 <= i <= j < sort_by_score(paths).len() ==> score(#[trigger] sort_by_score(paths)[i])
                <= score(#[trigger] sort_by_score(paths)[j]),
    decreases paths.len(),
{
    if paths.len() > 0 {
        lemma_sort_ascending(paths.drop_last());
        lemma_insert_ascending(sort_by_score(paths.drop_last()), paths.last());
    }
}

/// The alternatives stand in descending order of score.
pub proof fn law_alternatives_descend<D: Dictionary>(dict: D, seq: SequenceView)
    ensures
        forall|i: int, j: int|
            0 <= i <= j < alternatives(dict, seq).len() ==> score(
                #[trigger] alternatives(dict, seq)[i],
            ) >= score(#[trigger] alternatives(dict, seq)[j]),
{
    let n = seq.syllables.len() as int;
    let sorted = sort_by_score(trim(all_paths(dict, seq, 0, n, Seq::empty())));
    lemma_sort_ascending(trim(all_paths(dict, seq, 0, n, Seq::empty())));
    let found = alternatives(dict, seq);
    assert forall|i: int, j: int| 0 <= i <= j < found.len() implies score(#[trigger] found[i])
        >= score(#[trigger] found[j]) by {
        assert(found[i] == sorted[sorted.len() - 1 - i]);
        assert(found[j] == sorted[sorted.len() - 1 - j]);
    }
}

/// The first alternative is the best segmentation wherever the best path is
/// among the alternatives and scores higher than every other alternative.
pub proof fn law_first_alternative_is_conversion<D: Dictionary>(dict: D, seq: SequenceView)
    requires
        seq.syllables.len() > 0,
        alternatives(dict, seq).contains(
            best_at(grid(dict, seq), seq.syllables.len() as int),
        ),
        forall|i: int|
            0 <= i < alternatives(dict, seq).len() && (#[trigger] alternatives(dict, seq)[i])
                != best_at(grid(dict, seq), seq.syllables.len() as int) ==> score(
                alternatives(dict, seq)[i],
            ) < score(best_at(grid(dict, seq), seq.syllables.len() as int)),
    ensures
        next_conversion(dict, seq, 0) == conversion(dict, seq),
{
    let found = alternatives(dict, seq);
    let best = best_at(grid(dict, seq), seq.syllables.len() as int);
    law_alternatives_descend(dict, seq);
    let at = choose|at: int| 0 <= at < found.len() && found[at] == best;
    vstd::arithmetic::div_mod::lemma_small_mod(0, found.len());
    if found[0] != best {
        assert(score(found[0]) >= score(found[at]));
    }
}

} // verus!
