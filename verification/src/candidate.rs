//! Which phrase, if any, may stand for a segment of the input.
use crate::dictionary::{Dictionary, PhraseView};
use crate::path::PossibleIntervalView;
use crate::sequence::{Break, Interval, IntervalView, SequenceView, Syllable};
use vstd::prelude::*;

verus! {

/// The characters of `text` from `offset` on, at most `len` of them. Where
/// `text` is too short the window is shorter too.
pub open spec fn window(text: Seq<char>, offset: int, len: int) -> Seq<char>
    recommends
        0 <= offset,
        0 <= len,
{
    let from = if offset < text.len() {
        offset
    } else {
        text.len() as int
    };
    let to = if offset + len < text.len() {
        offset + len
    } else {
        text.len() as int
    };
    text.subrange(from, to)
}

/// A phrase for `[start, end)` honours a selection that lies inside the
/// segment when it shows the selected characters at the selection's place.
/// A selection that reaches outside the segment asks nothing of the phrase.
pub open spec fn honours(text: Seq<char>, start: int, end: int, selection: IntervalView) -> bool {
    start <= selection.start && end >= selection.end ==> window(
        text,
        selection.start - start,
        selection.end - selection.start,
    ) == selection.phrase
}

/// A phrase is admissible for `[start, end)` when it honours every selection.
pub open spec fn admissible(
    text: Seq<char>,
    start: int,
    end: int,
    selections: Seq<IntervalView>,
) -> bool {
    forall|i: int| 0 <= i < selections.len() ==> honours(text, start, end, #[trigger] selections[i])
}

/// Whether one of `breaks` lies strictly inside `[start, end)`.
pub open spec fn cut(start: int, end: int, breaks: Seq<Break>) -> bool {
    exists|i: int| 0 <= i < breaks.len() && start < (#[trigger] breaks[i]).0 < end
}

/// No selection ends before it starts.
pub open spec fn proper(selections: Seq<IntervalView>) -> bool {
    forall|i: int|
        0 <= i < selections.len() ==> 0 <= (#[trigger] selections[i]).start <= selections[i].end
}

/// Among the admissible phrases of `phrases`, the one with the highest weight;
/// of several with that weight, the one listed first.
pub open spec fn best_of(
    phrases: Seq<PhraseView>,
    start: int,
    end: int,
    selections: Seq<IntervalView>,
) -> Option<PhraseView>
    decreases phrases.len(),
{
    if phrases.len() == 0 {
        None
    } else {
        let earlier = best_of(phrases.drop_last(), start, end, selections);
        let phrase = phrases.last();
        if !admissible(phrase.text, start, end, selections) {
            earlier
        } else {
            match earlier {
                None => Some(phrase),
                Some(best) => if phrase.freq > best.freq {
                    Some(phrase)
                } else {
                    earlier
                },
            }
        }
    }
}

/// The phrase proposed for the segment that starts at `start` and holds
/// `syllables`: none where a break cuts the segment, else the best admissible
/// phrase that the dictionary lists for the syllables.
pub open spec fn best_phrase<D: Dictionary>(
    dict: D,
    start: int,
    syllables: Seq<Syllable>,
    selections: Seq<IntervalView>,
    breaks: Seq<Break>,
) -> Option<PhraseView> {
    let end = start + syllables.len();
    if cut(start, end, breaks) {
        None
    } else {
        best_of(dict.entries(syllables), start, end, selections)
    }
}

/// The phrase proposed for `[start, end)` of `seq`.
pub open spec fn candidate<D: Dictionary>(
    dict: D,
    seq: SequenceView,
    start: int,
    end: int,
) -> Option<PhraseView> {
    best_phrase(dict, start, seq.syllables.subrange(start, end), seq.selections, seq.breaks)
}

/// The candidate interval for `[start, end)`, as a list of one or none.
pub open spec fn cell<D: Dictionary>(dict: D, seq: SequenceView, start: int, end: int) -> Seq<
    PossibleIntervalView,
> {
    match candidate(dict, seq, start, end) {
        Some(phrase) => seq![PossibleIntervalView { start, end, phrase }],
        None => Seq::empty(),
    }
}

/// The candidate intervals that start at `begin` and end at or before `upto`,
/// shortest first.
pub open spec fn grid_row<D: Dictionary>(dict: D, seq: SequenceView, begin: int, upto: int) -> Seq<
    PossibleIntervalView,
>
    decreases upto - begin,
{
    if upto <= begin {
        Seq::empty()
    } else {
        grid_row(dict, seq, begin, upto - 1) + cell(dict, seq, begin, upto)
    }
}

/// The candidate intervals that start before `begins`, ordered by start and
/// then by end.
pub open spec fn grid_rows<D: Dictionary>(dict: D, seq: SequenceView, begins: int) -> Seq<
    PossibleIntervalView,
>
    decreases begins,
{
    if begins <= 0 {
        Seq::empty()
    } else {
        grid_rows(dict, seq, begins - 1) + grid_row(
            dict,
            seq,
            begins - 1,
            seq.syllables.len() as int,
        )
    }
}

/// Every candidate interval of `seq`: one for each `[i, j)` with
/// `0 <= i < j <= n` that has a candidate phrase, ordered by `i`, then by `j`.
pub open spec fn grid<D: Dictionary>(dict: D, seq: SequenceView) -> Seq<PossibleIntervalView> {
    grid_rows(dict, seq, seq.syllables.len() as int)
}

/// Every interval of a grid row is a non-empty segment that starts at `begin`
/// and carries the candidate phrase of its segment.
pub proof fn lemma_grid_row_members<D: Dictionary>(
    dict: D,
    seq: SequenceView,
    begin: int,
    upto: int,
)
    requires
        0 <= begin,
    ensures
        forall|i: int|
            0 <= i < grid_row(dict, seq, begin, upto).len() ==> {
                let interval = #[trigger] grid_row(dict, seq, begin, upto)[i];
                &&& interval.start == begin
                &&& begin < interval.end <= upto
                &&& candidate(dict, seq, begin, interval.end) == Some(interval.phrase)
            },
    decreases upto - begin,
{
    if upto > begin {
        lemma_grid_row_members(dict, seq, begin, upto - 1);
    }
}

/// Every interval of the grid is a non-empty segment of the input and
/// carries the candidate phrase of its segment.
pub proof fn lemma_grid_rows_members<D: Dictionary>(dict: D, seq: SequenceView, begins: int)
    requires
        begins <= seq.syllables.len(),
    ensures
        forall|i: int|
            0 <= i < grid_rows(dict, seq, begins).len() ==> {
                let interval = #[trigger] grid_rows(dict, seq, begins)[i];
                &&& 0 <= interval.start < interval.end <= seq.syllables.len()
                &&& interval.start < begins
                &&& candidate(dict, seq, interval.start, interval.end) == Some(interval.phrase)
            },
    decreases begins,
{
    if begins > 0 {
        lemma_grid_rows_members(dict, seq, begins - 1);
        lemma_grid_row_members(dict, seq, begins - 1, seq.syllables.len() as int);
    }
}

/// A grid row holds at most one interval for each end.
proof fn lemma_grid_row_size<D: Dictionary>(dict: D, seq: SequenceView, begin: int, upto: int)
    requires
        begin <= upto,
    ensures
        grid_row(dict, seq, begin, upto).len() <= upto - begin,
    decreases upto - begin,
{
    if upto > begin {
        lemma_grid_row_size(dict, seq, begin, upto - 1);
    }
}

proof fn lemma_grid_rows_size<D: Dictionary>(dict: D, seq: SequenceView, begins: int)
    requires
        0 <= begins <= seq.syllables.len(),
    ensures
        2 * grid_rows(dict, seq, begins).len() <= begins * (2 * seq.syllables.len() - begins + 1),
    decreases begins,
{
    let n = seq.syllables.len() as int;
    if begins > 0 {
        lemma_grid_rows_size(dict, seq, begins - 1);
        lemma_grid_row_size(dict, seq, begins - 1, n);
        assert((begins - 1) * (2 * n - (begins - 1) + 1) + 2 * (n - (begins - 1)) == begins * (2 * n
            - begins + 1)) by (nonlinear_arith);
    } else {
        assert(begins * (2 * n - begins + 1) == 0) by (nonlinear_arith)
            requires
                begins == 0,
        ;
    }
}

/// The grid of an input of `n` syllables holds at most `n * (n + 1) / 2`
/// intervals.
pub proof fn law_grid_size<D: Dictionary>(dict: D, seq: SequenceView)
    ensures
        2 * grid(dict, seq).len() <= seq.syllables.len() * (seq.syllables.len() + 1),
{
    let n = seq.syllables.len() as int;
    lemma_grid_rows_size(dict, seq, n);
    assert(n * (2 * n - n + 1) == n * (n + 1)) by (nonlinear_arith);
}

/// Every interval of the grid is a non-empty segment of the input.
pub proof fn lemma_grid_segments<D: Dictionary>(dict: D, seq: SequenceView)
    ensures
        crate::search::segments_of(grid(dict, seq), seq.syllables.len() as int),
{
    lemma_grid_rows_members(dict, seq, seq.syllables.len() as int);
}

/// Tests whether the window of `text` at `offset` of length `len` reads `wanted`.
pub fn window_matches(text: &str, offset: usize, len: usize, wanted: &String) -> (same: bool)
    ensures
        same == (window(text@, offset as int, len as int) == wanted@),
{
    let count: usize = text.unicode_len();
    let from: usize = if offset < count {
        offset
    } else {
        count
    };
    let to: usize = if len < count - from {
        from + len
    } else {
        count
    };
    let part = text.substring_char(from, to);
    let owned: String = part.to_owned();
    owned == *wanted
}

/// Tests whether `text`, proposed for `[start, end)`, honours every selection.
pub fn honours_all(text: &str, start: usize, end: usize, selections: &[Interval]) -> (ok: bool)
    requires
        proper(selections.deep_view()),
    ensures
        ok == admissible(text@, start as int, end as int, selections.deep_view()),
{
    let mut i: usize = 0;
    while i < selections.len()
        invariant
            i <= selections.len(),
            proper(selections.deep_view()),
            forall|k: int|
                0 <= k < i ==> honours(
                    text@,
                    start as int,
                    end as int,
                    #[trigger] selections.deep_view()[k],
                ),
        decreases selections.len() - i,
    {
        let selection = &selections[i];
        assert(selections.deep_view()[i as int] == selection@);
        if start <= selection.start && end >= selection.end {
            let offset: usize = selection.start - start;
            let len: usize = selection.end - selection.start;
            if !window_matches(text, offset, len, &selection.phrase) {
                return false;
            }
        }
        i += 1;
    }
    true
}

/// Tests whether one of `breaks` lies strictly inside `[start, end)`.
pub fn is_cut(start: usize, end: usize, breaks: &[Break]) -> (found: bool)
    ensures
        found == cut(start as int, end as int, breaks@),
{
    let mut i: usize = 0;
    while i < breaks.len()
        invariant
            i <= breaks.len(),
            forall|k: int| 0 <= k < i ==> !(start < (#[trigger] breaks@[k]).0 < end),
        decreases breaks.len() - i,
    {
        if breaks[i].0 > start && breaks[i].0 < end {
            return true;
        }
        i += 1;
    }
    false
}

} // verus!
