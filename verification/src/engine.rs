//! The conversion engine.
use crate::alternatives::{
    all_paths, alternatives, cell_key, lemma_grid_path_measurable, lemma_insert_agrees,
    lemma_insert_place, lemma_paths_cover, lemma_trim_keeps, paths_via, sift, sort_by_score,
    trim, Graph,
};
use crate::candidate::{
    best_of, best_phrase, candidate, cell, grid, grid_row, grid_rows, honours_all, is_cut,
    lemma_grid_segments, proper,
};
use crate::cover::{
    coverable, covers_score_above_zero, law_conversion_covers,
    law_conversion_covers_short_input, singles_have_candidates, starts_are_coverable,
};
use crate::dictionary::{one_character_per_syllable, Dictionary, Phrase};
use crate::laws::{
    clear_of_breaks, honours_selections, law_breaks_are_respected,
    law_conversion_made_of_candidates, law_next_conversion_covers, law_phrase_length_is_span,
    law_selections_are_honoured, segmentation_covers, sized_by_span,
};
use crate::path::{measurable, score, PossibleInterval, PossibleIntervalView, PossiblePath};
use crate::search::{
    best_at, best_upto, lemma_best_measurable, lemma_best_shape, publish, segments_of,
};
use crate::sequence::{
    Break, ChineseSequence, Interval, IntervalView, SequenceView, Syllable, MAX_SYLLABLES,
};
use vstd::prelude::*;

verus! {

/// Converts syllables to phrases by scoring the ways to segment them.
#[derive(Debug)]
pub struct ChewingConversionEngine<D: Dictionary> {
    dict: D,
}

impl<D: Dictionary> ChewingConversionEngine<D> {
    /// The dictionary that the engine consults.
    pub closed spec fn dictionary(&self) -> D {
        self.dict
    }

    /// An engine that consults `dict`.
    pub fn new(dict: D) -> (engine: ChewingConversionEngine<D>)
        ensures
            engine.dictionary() == dict,
    {
        ChewingConversionEngine { dict }
    }

    /// Proposes a phrase for the segment that starts at `start` and holds
    /// `syllables`.
    pub fn find_best_phrase(
        &self,
        start: usize,
        syllables: &[Syllable],
        selections: &[Interval],
        breaks: &[Break],
    ) -> (best: Option<Phrase>)
        requires
            start + syllables@.len() <= usize::MAX,
            proper(selections.deep_view()),
        ensures
            best.deep_view() == best_phrase(
                self.dictionary(),
                start as int,
                syllables@,
                selections.deep_view(),
                breaks@,
            ),
    {
        let end: usize = start + syllables.len();
        if is_cut(start, end, breaks) {
            // A break point forbids connecting these syllables.
            return None;
        }
        let found = self.dict.lookup_phrase(syllables);
        let ghost listed = found.deep_view();
        let ghost chosen = selections.deep_view();
        let mut max_freq: u32 = 0;
        let mut best_index: Option<usize> = None;
        let mut i: usize = 0;
        while i < found.len()
            invariant
                i <= found.len(),
                listed == found.deep_view(),
                chosen == selections.deep_view(),
                proper(chosen),
                match best_index {
                    Some(at) => at < i && max_freq == found@[at as int].freq() && best_of(
                        listed.subrange(0, i as int),
                        start as int,
                        end as int,
                        chosen,
                    ) == Some(listed[at as int]),
                    None => best_of(listed.subrange(0, i as int), start as int, end as int, chosen)
                        is None,
                },
            decreases found.len() - i,
        {
            let phrase = &found[i];
            assert(listed.subrange(0, i + 1).drop_last() =~= listed.subrange(0, i as int));
            assert(listed.subrange(0, i + 1).last() == phrase@);
            // A phrase that contradicts a selection inside its segment is
            // passed over; of the others the heaviest is kept.
            if honours_all(phrase.as_str(), start, end, selections) {
                if best_index.is_none() || phrase.freq() > max_freq {
                    max_freq = phrase.freq();
                    best_index = Some(i);
                }
            }
            i += 1;
        }
        assert(listed.subrange(0, i as int) =~= listed);
        match best_index {
            Some(at) => Some(found[at].clone()),
            None => None,
        }
    }

    /// Collects the candidate interval of every segment of the input.
    pub fn find_intervals(&self, seq: &ChineseSequence) -> (intervals: Vec<PossibleInterval>)
        requires
            seq@.accepted(),
        ensures
            intervals.deep_view() == grid(self.dictionary(), seq@),
    {
        let ghost dict = self.dictionary();
        let len: usize = seq.syllables.len();
        let mut intervals: Vec<PossibleInterval> = Vec::new();
        assert(intervals.deep_view() =~= grid_rows(dict, seq@, 0));
        let mut begin: usize = 0;
        while begin < len
            invariant
                begin <= len,
                len == seq.syllables.len(),
                seq@.accepted(),
                dict == self.dictionary(),
                intervals.deep_view() == grid_rows(dict, seq@, begin as int),
            decreases len - begin,
        {
            let ghost before = intervals.deep_view();
            let mut end: usize = begin + 1;
            assert(intervals.deep_view() =~= before + grid_row(
                dict,
                seq@,
                begin as int,
                begin as int,
            ));
            while end <= len
                invariant
                    begin < end <= len + 1,
                    len == seq.syllables.len(),
                    seq@.accepted(),
                    dict == self.dictionary(),
                    before == grid_rows(dict, seq@, begin as int),
                    intervals.deep_view() == before + grid_row(
                        dict,
                        seq@,
                        begin as int,
                        end - 1,
                    ),
                decreases len + 1 - end,
            {
                let ghost so_far = intervals.deep_view();
                let part = slice_of(&seq.syllables, begin, end);
                let selections = seq.selections.as_slice();
                assert(selections.deep_view() =~= seq@.selections);
                let found = self.find_best_phrase(begin, part, selections, seq.breaks.as_slice());
                assert(found.deep_view() == candidate(dict, seq@, begin as int, end as int));
                if let Some(phrase) = found {
                    intervals.push(PossibleInterval { start: begin, end, phrase });
                    assert(intervals.deep_view() =~= so_far + cell(
                        dict,
                        seq@,
                        begin as int,
                        end as int,
                    ));
                } else {
                    assert(intervals.deep_view() =~= so_far + cell(
                        dict,
                        seq@,
                        begin as int,
                        end as int,
                    ));
                }
                assert(intervals.deep_view() =~= before + grid_row(
                    dict,
                    seq@,
                    begin as int,
                    end as int,
                ));
                end += 1;
            }
            begin += 1;
        }
        intervals
    }

    /// Finds the best path from 0 to `len` through `intervals` by dynamic
    /// programming over the positions, and hands out its intervals.
    ///
    /// With P(y) the best path from 0 to y, P(y) is the best of P(x) extended
    /// by an interval `[x, y)`. The ends are visited in increasing order, and
    /// the intervals of one end in the order of the list, so that P(x) is
    /// settled before an interval that starts at x is looked at.
    pub fn find_best_path(&self, len: usize, intervals: Vec<PossibleInterval>) -> (best: Vec<
        Interval,
    >)
        requires
            len <= MAX_SYLLABLES,
            segments_of(intervals.deep_view(), len as int),
        ensures
            best.deep_view() == publish(best_at(intervals.deep_view(), len as int)),
            len == 0 ==> best@.len() == 0,
    {
        let ghost list = intervals.deep_view();
        let mut highest_score: Vec<PossiblePath> = Vec::new();
        let mut end: usize = 0;
        while end <= len
            invariant
                end <= len + 1,
                len <= MAX_SYLLABLES,
                list == intervals.deep_view(),
                segments_of(list, len as int),
                highest_score.len() == end,
                forall|k: int| 0 <= k < end ==> (#[trigger] highest_score@[k])@ == best_at(list, k),
            decreases len + 1 - end,
        {
            let mut held = PossiblePath::default();
            let mut held_score: i64 = 0;
            assert(score(held@) == 0);
            let mut idx: usize = 0;
            while idx < intervals.len()
                invariant
                    idx <= intervals.len(),
                    end <= len <= MAX_SYLLABLES,
                    list == intervals.deep_view(),
                    segments_of(list, len as int),
                    highest_score.len() == end,
                    forall|k: int|
                        0 <= k < end ==> (#[trigger] highest_score@[k])@ == best_at(list, k),
                    held@ == best_upto(list, end as int, idx as int),
                    held_score == score(held@),
                decreases intervals.len() - idx,
            {
                let interval = &intervals[idx];
                assert(list[idx as int] == interval@);
                if interval.end == end {
                    let mut proposal = highest_score[interval.start].clone();
                    let ghost before = proposal@;
                    proposal.intervals.push(interval.clone());
                    proof {
                        assert(proposal@ =~= before.push(interval@));
                        lemma_best_measurable(list, len as int, interval.start as int);
                        assert forall|i: int| 0 <= i < proposal@.len() implies 0 <= (
                        #[trigger] proposal@[i]).span() <= MAX_SYLLABLES by {
                            if i < before.len() {
                                assert(proposal@[i] == before[i]);
                            }
                        }
                    }
                    let proposed: i64 = proposal.score();
                    if held_score < proposed {
                        held = proposal;
                        held_score = proposed;
                    }
                }
                idx += 1;
            }
            highest_score.push(held);
            end += 1;
        }
        let last = highest_score.pop();
        let path = last.unwrap();
        assert(path@ == best_at(list, len as int));
        let best = publish_path(path);
        assert(best@.len() == best.deep_view().len());
        best
    }

    /// Enumerates, depth first, every path that extends `prefix` from `start`
    /// to `target` through the candidate intervals of `sequence`. Candidates
    /// are looked up in `graph` and recorded there when first computed.
    pub fn find_all_paths(
        &self,
        graph: &mut Graph,
        sequence: &ChineseSequence,
        start: usize,
        target: usize,
        prefix: Option<PossiblePath>,
    ) -> (paths: Vec<PossiblePath>)
        requires
            sequence@.accepted(),
            start <= target <= sequence.syllables.len(),
            start < target || prefix is Some,
            old(graph).agrees(self.dictionary(), sequence@),
        ensures
            final(graph).agrees(self.dictionary(), sequence@),
            final(graph).extends(*old(graph)),
            forall|end: int|
                start < end <= target ==> final(graph).cells().contains_key(
                    #[trigger] cell_key(start as int, end),
                ),
            paths.deep_view() == all_paths(
                self.dictionary(),
                sequence@,
                start as int,
                target as int,
                prefix_view(prefix),
            ),
        decreases target - start,
    {
        let ghost dict = self.dictionary();
        let ghost stem = prefix_view(prefix);
        if start == target {
            let only = prefix.unwrap();
            let paths = vec![only];
            assert(paths.deep_view() =~= seq![stem]);
            return paths;
        }
        let mut result: Vec<PossiblePath> = Vec::new();
        assert(result.deep_view() =~= paths_via(
            dict,
            sequence@,
            start as int,
            target as int,
            stem,
            start as int,
        ));
        let mut end: usize = start + 1;
        while end <= target
            invariant
                start < end <= target + 1,
                target <= sequence.syllables.len(),
                sequence@.accepted(),
                dict == self.dictionary(),
                stem == prefix_view(prefix),
                graph.agrees(dict, sequence@),
                graph.extends(*old(graph)),
                forall|e: int|
                    start < e < end ==> graph.cells().contains_key(
                        #[trigger] cell_key(start as int, e),
                    ),
                result.deep_view() == paths_via(
                    dict,
                    sequence@,
                    start as int,
                    target as int,
                    stem,
                    end - 1,
                ),
            decreases target + 1 - end,
        {
            let ghost found_before = result.deep_view();
            let held = graph.get(start, end);
            let entry: Option<Phrase> = match held {
                Some(value) => value,
                None => {
                    let part = slice_of(&sequence.syllables, start, end);
                    let selections = sequence.selections.as_slice();
                    assert(selections.deep_view() =~= sequence@.selections);
                    let found = self.find_best_phrase(
                        start,
                        part,
                        selections,
                        sequence.breaks.as_slice(),
                    );
                    let kept = match &found {
                        Some(phrase) => Some(phrase.clone()),
                        None => None,
                    };
                    let ghost graph_before = *graph;
                    graph.insert(start, end, kept);
                    proof {
                        lemma_insert_agrees(
                            graph_before,
                            *graph,
                            dict,
                            sequence@,
                            start as int,
                            end as int,
                            kept,
                        );
                    }
                    found
                },
            };
            assert(entry.deep_view() == candidate(dict, sequence@, start as int, end as int));
            if let Some(phrase) = entry {
                let mut extended = match &prefix {
                    Some(path) => path.clone(),
                    None => PossiblePath::default(),
                };
                let ghost step = PossibleIntervalView {
                    start: start as int,
                    end: end as int,
                    phrase: phrase@,
                };
                extended.intervals.push(PossibleInterval { start, end, phrase });
                assert(extended@ =~= stem.push(step));
                let ghost memo = *graph;
                let mut more = self.find_all_paths(graph, sequence, end, target, Some(extended));
                assert(graph.extends(*old(graph))) by {
                    assert(graph.extends(memo) && memo.extends(*old(graph)));
                }
                let ghost deeper = more.deep_view();
                result.append(&mut more);
                assert(result.deep_view() =~= found_before + deeper);
            }
            end += 1;
        }
        result
    }

    /// Drops the paths that refine another path: going through `paths` in
    /// order, a newcomer that a kept path contains is dropped, and otherwise
    /// the kept paths that the newcomer contains are discarded.
    pub fn trim_paths(&self, paths: Vec<PossiblePath>) -> (trimmed: Vec<PossiblePath>)
        ensures
            trimmed.deep_view() == trim(paths.deep_view()),
    {
        let ghost listed = paths.deep_view();
        let mut trimmed_paths: Vec<PossiblePath> = Vec::new();
        assert(trimmed_paths.deep_view() =~= trim(listed.subrange(0, 0)));
        let mut n: usize = 0;
        while n < paths.len()
            invariant
                n <= paths.len(),
                listed == paths.deep_view(),
                trimmed_paths.deep_view() == trim(listed.subrange(0, n as int)),
            decreases paths.len() - n,
        {
            let candidate = &paths[n];
            let ghost kept = trimmed_paths.deep_view();
            let mut drop_candidate = false;
            let mut keeper: Vec<PossiblePath> = Vec::new();
            let mut i: usize = 0;
            assert(kept.skip(0) =~= kept);
            assert(keeper.deep_view() + sift(kept.skip(0), candidate@).0 =~= sift(
                kept,
                candidate@,
            ).0);
            while i < trimmed_paths.len()
                invariant
                    i <= trimmed_paths.len(),
                    kept == trimmed_paths.deep_view(),
                    drop_candidate ==> sift(kept, candidate@) == (
                        keeper.deep_view() + kept.skip(i as int),
                        true,
                    ),
                    !drop_candidate ==> sift(kept, candidate@).0 == keeper.deep_view() + sift(
                        kept.skip(i as int),
                        candidate@,
                    ).0,
                    !drop_candidate ==> sift(kept, candidate@).1 == sift(
                        kept.skip(i as int),
                        candidate@,
                    ).1,
                decreases trimmed_paths.len() - i,
            {
                let p = &trimmed_paths[i];
                let ghost held = keeper.deep_view();
                let ghost rest = kept.skip(i as int);
                assert(rest[0] == p@);
                assert(rest.skip(1) =~= kept.skip(i + 1));
                if drop_candidate || p.contains(candidate) {
                    drop_candidate = true;
                    keeper.push(p.clone());
                    assert(keeper.deep_view() + kept.skip(i + 1) =~= held + rest);
                } else if candidate.contains(p) {
                } else {
                    keeper.push(p.clone());
                    assert(keeper.deep_view() + sift(kept.skip(i + 1), candidate@).0 =~= held + (
                    seq![p@] + sift(kept.skip(i + 1), candidate@).0));
                }
                i += 1;
            }
            assert(kept.skip(i as int) =~= Seq::<Seq<PossibleIntervalView>>::empty());
            assert(keeper.deep_view() =~= sift(kept, candidate@).0);
            if !drop_candidate {
                let ghost retained = keeper.deep_view();
                keeper.push(candidate.clone());
                assert(keeper.deep_view() =~= retained.push(candidate@));
            }
            assert(listed.subrange(0, n + 1).drop_last() =~= listed.subrange(0, n as int));
            assert(listed.subrange(0, n + 1).last() == candidate@);
            trimmed_paths = keeper;
            n += 1;
        }
        assert(listed.subrange(0, n as int) =~= listed);
        trimmed_paths
    }

    /// The alternative segmentations of `seq`, best first.
    pub fn find_alternatives(&self, seq: &ChineseSequence) -> (found: Vec<PossiblePath>)
        requires
            seq@.accepted(),
        ensures
            found.deep_view() == alternatives(self.dictionary(), seq@),
    {
        let ghost dict = self.dictionary();
        let len: usize = seq.syllables.len();
        let mut graph = Graph::default();
        let start = PossiblePath::default();
        let paths = self.find_all_paths(&mut graph, seq, 0, len, Some(start));
        let trimmed_paths = self.trim_paths(paths);
        proof {
            let listed = all_paths(dict, seq@, 0, len as int, Seq::empty());
            lemma_paths_cover(dict, seq@, 0, len as int, Seq::empty(), len as int);
            lemma_trim_keeps(listed);
            assert forall|i: int| 0 <= i < trim(listed).len() implies measurable(
                #[trigger] trim(listed)[i],
            ) by {
                let q = trim(listed)[i];
                assert(listed.contains(q));
                let at = choose|at: int| 0 <= at < listed.len() && listed[at] == q;
                lemma_grid_path_measurable(dict, seq@, listed[at]);
            }
        }
        let mut sorted = sort_paths(trimmed_paths);
        reverse_paths(&mut sorted);
        sorted
    }

    /// The alternative segmentation at position `next` of the cycle through
    /// the alternatives, best first; `None` where the input is not empty and
    /// no path covers it.
    pub fn try_convert_next(&self, seq: &ChineseSequence, next: usize) -> (chosen: Option<
        Vec<Interval>,
    >)
        requires
            seq@.accepted(),
        ensures
            chosen is Some <==> (seq@.syllables.len() == 0 || alternatives(
                self.dictionary(),
                seq@,
            ).len() > 0),
            chosen matches Some(intervals) ==> intervals.deep_view() == next_conversion(
                self.dictionary(),
                seq@,
                next as nat,
            ),
            chosen matches Some(intervals) ==> {
                &&& segmentation_covers(intervals.deep_view(), seq@.syllables.len() as int)
                &&& clear_of_breaks(seq@, intervals.deep_view())
                &&& honours_selections(seq@, intervals.deep_view())
                &&& one_character_per_syllable(self.dictionary()) ==> sized_by_span(
                    intervals.deep_view(),
                )
            },
    {
        proof {
            let dict = self.dictionary();
            if seq@.syllables.len() == 0 || alternatives(dict, seq@).len() > 0 {
                let chosen = next_conversion(dict, seq@, next as nat);
                law_next_conversion_covers(dict, seq@, next as nat);
                law_breaks_are_respected(dict, seq@, chosen);
                law_selections_are_honoured(dict, seq@, chosen);
                if one_character_per_syllable(dict) {
                    law_phrase_length_is_span(dict, seq@, chosen);
                }
            }
        }
        if seq.syllables.len() == 0 {
            let empty: Vec<Interval> = Vec::new();
            assert(empty.deep_view() =~= Seq::<IntervalView>::empty());
            return Some(empty);
        }
        let mut found = self.find_alternatives(seq);
        if found.len() == 0 {
            return None;
        }
        let at: usize = next % found.len();
        let path = found.swap_remove(at);
        Some(publish_path(path))
    }

    /// The alternative segmentation at position `next` of the cycle through
    /// the alternatives, best first.
    pub fn convert_next(&self, seq: &ChineseSequence, next: usize) -> (chosen: Vec<Interval>)
        requires
            seq@.accepted(),
            seq@.syllables.len() == 0 || alternatives(self.dictionary(), seq@).len() > 0,
        ensures
            chosen.deep_view() == next_conversion(self.dictionary(), seq@, next as nat),
            seq@.syllables.len() == 0 ==> chosen@.len() == 0,
            segmentation_covers(chosen.deep_view(), seq@.syllables.len() as int),
            clear_of_breaks(seq@, chosen.deep_view()),
            honours_selections(seq@, chosen.deep_view()),
            one_character_per_syllable(self.dictionary()) ==> sized_by_span(chosen.deep_view()),
    {
        let chosen = self.try_convert_next(seq, next).unwrap();
        assert(chosen@.len() == chosen.deep_view().len());
        chosen
    }

    /// The best segmentation of `seq`: the best path from 0 to the end of the
    /// input through its candidate intervals.
    pub fn convert(&self, seq: &ChineseSequence) -> (best: Vec<Interval>)
        requires
            seq@.accepted(),
        ensures
            best.deep_view() == conversion(self.dictionary(), seq@),
            seq@.syllables.len() == 0 ==> best@.len() == 0,
            clear_of_breaks(seq@, best.deep_view()),
            honours_selections(seq@, best.deep_view()),
            one_character_per_syllable(self.dictionary()) ==> sized_by_span(best.deep_view()),
            starts_are_coverable(grid(self.dictionary(), seq@)) && covers_score_above_zero(
                grid(self.dictionary(), seq@),
            ) && coverable(grid(self.dictionary(), seq@), seq@.syllables.len() as int)
                ==> segmentation_covers(best.deep_view(), seq@.syllables.len() as int),
            seq@.syllables.len() <= 40 && singles_have_candidates(self.dictionary(), seq@)
                ==> segmentation_covers(best.deep_view(), seq@.syllables.len() as int),
    {
        proof {
            let dict = self.dictionary();
            let best = conversion(dict, seq@);
            law_conversion_made_of_candidates(dict, seq@);
            law_breaks_are_respected(dict, seq@, best);
            law_selections_are_honoured(dict, seq@, best);
            if one_character_per_syllable(dict) {
                law_phrase_length_is_span(dict, seq@, best);
            }
            if starts_are_coverable(grid(dict, seq@)) && covers_score_above_zero(grid(dict, seq@))
                && coverable(grid(dict, seq@), seq@.syllables.len() as int) {
                law_conversion_covers(dict, seq@);
            }
            if seq@.syllables.len() <= 40 && singles_have_candidates(dict, seq@) {
                law_conversion_covers_short_input(dict, seq@);
            }
        }
        if seq.syllables.len() == 0 {
            let best: Vec<Interval> = Vec::new();
            assert(best.deep_view() =~= conversion(self.dictionary(), seq@)) by {
                lemma_grid_segments(self.dictionary(), seq@);
                lemma_best_shape(
                    grid(self.dictionary(), seq@),
                    0,
                    0,
                    grid(self.dictionary(), seq@).len() as int,
                );
            }
            return best;
        }
        let intervals = self.find_intervals(seq);
        proof {
            lemma_grid_segments(self.dictionary(), seq@);
        }
        self.find_best_path(seq.syllables.len(), intervals)
    }
}

/// The best segmentation of `seq` with the phrases of `dict`.
pub open spec fn conversion<D: Dictionary>(dict: D, seq: SequenceView) -> Seq<
    IntervalView,
> {
    publish(best_at(grid(dict, seq), seq.syllables.len() as int))
}

/// The segmentation at position `next` of the cycle through the alternatives
/// of `seq`; the empty segmentation for the empty input.
pub open spec fn next_conversion<D: Dictionary>(
    dict: D,
    seq: SequenceView,
    next: nat,
) -> Seq<IntervalView> {
    if seq.syllables.len() == 0 {
        Seq::empty()
    } else {
        let found = alternatives(dict, seq);
        publish(found[(next % found.len()) as int])
    }
}

/// The path that an optional prefix stands for: no prefix is the empty path.
pub open spec fn prefix_view(prefix: Option<PossiblePath>) -> Seq<PossibleIntervalView> {
    match prefix {
        Some(path) => path@,
        None => Seq::empty(),
    }
}

/// Sorts `paths` by ascending score; paths of equal score keep their order.
pub fn sort_paths(paths: Vec<PossiblePath>) -> (sorted: Vec<PossiblePath>)
    requires
        forall|i: int| 0 <= i < paths@.len() ==> measurable(#[trigger] paths.deep_view()[i]),
    ensures
        sorted.deep_view() == sort_by_score(paths.deep_view()),
{
    let ghost listed = paths.deep_view();
    let mut sorted: Vec<PossiblePath> = Vec::new();
    let mut scores: Vec<i64> = Vec::new();
    assert(sorted.deep_view() =~= sort_by_score(listed.subrange(0, 0)));
    let mut n: usize = 0;
    while n < paths.len()
        invariant
            n <= paths.len(),
            listed == paths.deep_view(),
            forall|i: int| 0 <= i < listed.len() ==> measurable(#[trigger] listed[i]),
            sorted.deep_view() == sort_by_score(listed.subrange(0, n as int)),
            scores.len() == sorted.len(),
            forall|k: int| 0 <= k < sorted.len() ==> #[trigger] scores@[k] == score(sorted@[k]@),
        decreases paths.len() - n,
    {
        let path = &paths[n];
        assert(listed[n as int] == path@);
        let own: i64 = path.score();
        let ghost before = sorted.deep_view();
        let mut at: usize = sorted.len();
        while at > 0 && scores[at - 1] > own
            invariant
                at <= sorted.len(),
                scores.len() == sorted.len(),
                before == sorted.deep_view(),
                own == score(path@),
                forall|k: int|
                    0 <= k < sorted.len() ==> #[trigger] scores@[k] == score(sorted@[k]@),
                forall|k: int| at <= k < before.len() ==> score(#[trigger] before[k]) > own,
            decreases at,
        {
            at -= 1;
        }
        proof {
            let place = lemma_insert_place(before, path@);
            if place < at {
                assert(score(before[at - 1]) > own);
            }
            if at < place {
                assert(score(before[place - 1]) > own);
            }
        }
        sorted.insert(at, path.clone());
        scores.insert(at, own);
        assert(sorted.deep_view() =~= before.insert(at as int, path@));
        assert(listed.subrange(0, n + 1).drop_last() =~= listed.subrange(0, n as int));
        assert(listed.subrange(0, n + 1).last() == path@);
        n += 1;
    }
    assert(listed.subrange(0, n as int) =~= listed);
    sorted
}

/// Reverses the order of `paths`.
pub fn reverse_paths(paths: &mut Vec<PossiblePath>)
    ensures
        final(paths).deep_view() == old(paths).deep_view().reverse(),
{
    let ghost before = paths.deep_view();
    let len: usize = paths.len();
    let mut turned: Vec<PossiblePath> = Vec::new();
    let mut i: usize = len;
    while i > 0
        invariant
            i <= len,
            len == paths.len(),
            before == paths.deep_view(),
            turned.len() == len - i,
            forall|k: int|
                0 <= k < turned.len() ==> (#[trigger] turned@[k])@ == before[len - 1 - k],
        decreases i,
    {
        i -= 1;
        turned.push(paths[i].clone());
    }
    assert(turned.deep_view() =~= before.reverse());
    *paths = turned;
}

/// Hands out the intervals of a path.
pub fn publish_path(path: PossiblePath) -> (intervals: Vec<Interval>)
    ensures
        intervals.deep_view() == publish(path@),
{
    let mut intervals: Vec<Interval> = Vec::new();
    let mut i: usize = 0;
    while i < path.intervals.len()
        invariant
            i <= path.intervals.len(),
            intervals.len() == i,
            forall|k: int| 0 <= k < i ==> (#[trigger] intervals@[k])@ == path@[k].published(),
        decreases path.intervals.len() - i,
    {
        let interval = path.intervals[i].clone();
        let handed = Interval::from(interval);
        assert(handed@ == path@[i as int].published());
        intervals.push(handed);
        i += 1;
    }
    assert(intervals.deep_view() =~= publish(path@));
    intervals
}

/// The part of `items` from `from` up to `to`.
pub fn slice_of(items: &Vec<Syllable>, from: usize, to: usize) -> (part: &[Syllable])
    requires
        from <= to <= items.len(),
    ensures
        part@ == items@.subrange(from as int, to as int),
{
    let all = items.as_slice();
    &all[from..to]
}

} // verus!
