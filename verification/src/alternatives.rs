//! Every path through the candidate grid, trimmed and ordered for cycling.
use crate::candidate::candidate;
use crate::dictionary::{Dictionary, Phrase};
use crate::path::{measurable, path_contains, score, PossibleIntervalView};
use crate::search::covers;
use crate::sequence::{SequenceView, MAX_SYLLABLES};
use std::collections::HashMap;
use vstd::prelude::*;

verus! {

broadcast use vstd::std_specs::hash::group_hash_axioms;

/// The paths that extend `prefix` from `start` to `target` and whose first
/// step ends at or before `upto`, ordered by the end of that step and then,
/// step by step, in the same way. With `start == target` the only path is
/// `prefix` itself.
pub open spec fn paths_via<D: Dictionary>(
    dict: D,
    seq: SequenceView,
    start: int,
    target: int,
    prefix: Seq<PossibleIntervalView>,
    upto: int,
) -> Seq<Seq<PossibleIntervalView>>
    decreases target - start, upto - start,
{
    if start >= target {
        seq![prefix]
    } else if upto <= start || upto > target {
        Seq::empty()
    } else {
        let shorter = paths_via(dict, seq, start, target, prefix, upto - 1);
        match candidate(dict, seq, start, upto) {
            Some(phrase) => shorter + paths_via(
                dict,
                seq,
                upto,
                target,
                prefix.push(PossibleIntervalView { start, end: upto, phrase }),
                target,
            ),
            None => shorter,
        }
    }
}

/// Every path that extends `prefix` from `start` to `target` through the
/// candidate intervals of `seq`, in depth-first order.
pub open spec fn all_paths<D: Dictionary>(
    dict: D,
    seq: SequenceView,
    start: int,
    target: int,
    prefix: Seq<PossibleIntervalView>,
) -> Seq<Seq<PossibleIntervalView>> {
    paths_via(dict, seq, start, target, prefix, target)
}

/// What is left of `kept` when `c` comes in, and whether `c` is dropped.
/// The first kept path that contains `c` drops it and ends the scan: that
/// path and all after it stay. Before that, a kept path that `c` contains is
/// discarded.
pub open spec fn sift(kept: Seq<Seq<PossibleIntervalView>>, c: Seq<PossibleIntervalView>) -> (
    Seq<Seq<PossibleIntervalView>>,
    bool,
)
    decreases kept.len(),
{
    if kept.len() == 0 {
        (Seq::empty(), false)
    } else if path_contains(kept[0], c) {
        (kept, true)
    } else {
        let (rest, dropped) = sift(kept.skip(1), c);
        if path_contains(c, kept[0]) {
            (rest, dropped)
        } else {
            (seq![kept[0]] + rest, dropped)
        }
    }
}

/// The kept paths after `c` has come in.
pub open spec fn trim_step(
    kept: Seq<Seq<PossibleIntervalView>>,
    c: Seq<PossibleIntervalView>,
) -> Seq<Seq<PossibleIntervalView>> {
    let (retained, dropped) = sift(kept, c);
    if dropped {
        retained
    } else {
        retained.push(c)
    }
}

/// The paths kept of `paths`, taken in order.
pub open spec fn trim(paths: Seq<Seq<PossibleIntervalView>>) -> Seq<Seq<PossibleIntervalView>>
    decreases paths.len(),
{
    if paths.len() == 0 {
        Seq::empty()
    } else {
        trim_step(trim(paths.drop_last()), paths.last())
    }
}

/// `sorted` with `p` put behind the last path that does not score higher.
pub open spec fn insert_by_score(
    sorted: Seq<Seq<PossibleIntervalView>>,
    p: Seq<PossibleIntervalView>,
) -> Seq<Seq<PossibleIntervalView>>
    decreases sorted.len(),
{
    if sorted.len() == 0 {
        seq![p]
    } else if score(sorted.last()) <= score(p) {
        sorted.push(p)
    } else {
        insert_by_score(sorted.drop_last(), p).push(sorted.last())
    }
}

/// `paths` in ascending order of score; paths of equal score keep their order.
pub open spec fn sort_by_score(paths: Seq<Seq<PossibleIntervalView>>) -> Seq<
    Seq<PossibleIntervalView>,
>
    decreases paths.len(),
{
    if paths.len() == 0 {
        Seq::empty()
    } else {
        insert_by_score(sort_by_score(paths.drop_last()), paths.last())
    }
}

/// The alternative segmentations of `seq`, best first: every path from 0 to
/// the end of the input, trimmed, in descending order of score. Of paths with
/// equal score the one found later comes first.
pub open spec fn alternatives<D: Dictionary>(dict: D, seq: SequenceView) -> Seq<
    Seq<PossibleIntervalView>,
> {
    sort_by_score(
        trim(all_paths(dict, seq, 0, seq.syllables.len() as int, Seq::empty())),
    ).reverse()
}

/// Every interval of `p` is the candidate interval of its segment of `seq`.
pub open spec fn from_grid<D: Dictionary>(
    dict: D,
    seq: SequenceView,
    p: Seq<PossibleIntervalView>,
) -> bool {
    forall|k: int|
        0 <= k < p.len() ==> {
            &&& 0 <= (#[trigger] p[k]).start < p[k].end <= seq.syllables.len()
            &&& candidate(dict, seq, p[k].start, p[k].end) == Some(p[k].phrase)
        }
}

/// Every enumerated path covers the input from 0 to `target` with candidate
/// intervals, one syllable or more each.
pub proof fn lemma_paths_cover<D: Dictionary>(
    dict: D,
    seq: SequenceView,
    start: int,
    target: int,
    prefix: Seq<PossibleIntervalView>,
    upto: int,
)
    requires
        0 <= start <= target <= seq.syllables.len(),
        covers(prefix, 0, start),
        prefix.len() <= start,
        from_grid(dict, seq, prefix),
    ensures
        forall|i: int|
            0 <= i < paths_via(dict, seq, start, target, prefix, upto).len() ==> {
                let p = #[trigger] paths_via(dict, seq, start, target, prefix, upto)[i];
                &&& covers(p, 0, target)
                &&& p.len() <= target
                &&& from_grid(dict, seq, p)
            },
    decreases target - start, upto - start,
{
    if start >= target {
    } else if upto <= start || upto > target {
    } else {
        lemma_paths_cover(dict, seq, start, target, prefix, upto - 1);
        match candidate(dict, seq, start, upto) {
            Some(phrase) => {
                let step = PossibleIntervalView { start, end: upto, phrase };
                let longer = prefix.push(step);
                assert(covers(longer, 0, upto)) by {
                    assert forall|k: int| 0 <= k < longer.len() - 1 implies (
                    #[trigger] longer[k]).end == longer[k + 1].start by {
                        if k < prefix.len() - 1 {
                            assert(longer[k] == prefix[k]);
                            assert(longer[k + 1] == prefix[k + 1]);
                        } else {
                            assert(longer[k] == prefix.last());
                        }
                    }
                    if prefix.len() > 0 {
                        assert(longer.first() == prefix.first());
                    }
                }
                assert(from_grid(dict, seq, longer)) by {
                    assert forall|k: int| 0 <= k < longer.len() implies {
                        &&& 0 <= (#[trigger] longer[k]).start < longer[k].end
                            <= seq.syllables.len()
                        &&& candidate(dict, seq, longer[k].start, longer[k].end) == Some(
                            longer[k].phrase,
                        )
                    } by {
                        if k < prefix.len() {
                            assert(longer[k] == prefix[k]);
                        }
                    }
                }
                lemma_paths_cover(dict, seq, upto, target, longer, target);
                let shorter = paths_via(dict, seq, start, target, prefix, upto - 1);
                let deeper = paths_via(dict, seq, upto, target, longer, target);
                let all = paths_via(dict, seq, start, target, prefix, upto);
                assert(all == shorter + deeper);
                assert forall|i: int| 0 <= i < all.len() implies {
                    let p = #[trigger] all[i];
                    &&& covers(p, 0, target)
                    &&& p.len() <= target
                    &&& from_grid(dict, seq, p)
                } by {
                    if i < shorter.len() {
                        assert(all[i] == shorter[i]);
                    } else {
                        assert(all[i] == deeper[i - shorter.len()]);
                    }
                }
            },
            None => {},
        }
    }
}

/// A path of at most `MAX_SYLLABLES` candidate intervals can be scored.
pub proof fn lemma_grid_path_measurable<D: Dictionary>(
    dict: D,
    seq: SequenceView,
    p: Seq<PossibleIntervalView>,
)
    requires
        from_grid(dict, seq, p),
        p.len() <= seq.syllables.len() <= MAX_SYLLABLES,
    ensures
        measurable(p),
{
}

/// Sifting keeps only paths that were kept before.
pub proof fn lemma_sift_keeps(kept: Seq<Seq<PossibleIntervalView>>, c: Seq<PossibleIntervalView>)
    ensures
        forall|i: int|
            0 <= i < sift(kept, c).0.len() ==> kept.contains(#[trigger] sift(kept, c).0[i]),
    decreases kept.len(),
{
    if kept.len() == 0 {
    } else if path_contains(kept[0], c) {
    } else {
        lemma_sift_keeps(kept.skip(1), c);
        let rest = sift(kept.skip(1), c).0;
        assert forall|i: int| 0 <= i < sift(kept, c).0.len() implies kept.contains(
            #[trigger] sift(kept, c).0[i],
        ) by {
            let q = sift(kept, c).0[i];
            if !path_contains(c, kept[0]) && i == 0 {
                assert(q == kept[0]);
            } else {
                let j = if path_contains(c, kept[0]) {
                    i
                } else {
                    i - 1
                };
                assert(q == rest[j]);
                assert(kept.skip(1).contains(rest[j]));
                let at = choose|at: int| 0 <= at < kept.skip(1).len() && kept.skip(1)[at] == q;
                assert(kept[at + 1] == q);
            }
        }
    }
}

/// Trimming keeps only paths that were listed.
pub proof fn lemma_trim_keeps(paths: Seq<Seq<PossibleIntervalView>>)
    ensures
        forall|i: int| 0 <= i < trim(paths).len() ==> paths.contains(#[trigger] trim(paths)[i]),
        paths.len() > 0 ==> trim(paths).len() > 0,
    decreases paths.len(),
{
    if paths.len() > 0 {
        let earlier = paths.drop_last();
        let c = paths.last();
        lemma_trim_keeps(earlier);
        lemma_sift_keeps(trim(earlier), c);
        lemma_sift_nonempty(trim(earlier), c);
        assert forall|i: int| 0 <= i < trim(paths).len() implies paths.contains(
            #[trigger] trim(paths)[i],
        ) by {
            let q = trim(paths)[i];
            let (retained, dropped) = sift(trim(earlier), c);
            if i < retained.len() {
                assert(q == retained[i]);
                assert(trim(earlier).contains(q));
                let at = choose|at: int| 0 <= at < trim(earlier).len() && trim(earlier)[at] == q;
                assert(earlier.contains(trim(earlier)[at]));
                let back = choose|back: int| 0 <= back < earlier.len() && earlier[back] == q;
                assert(paths[back] == q);
            } else {
                assert(q == c);
                assert(paths[paths.len() - 1] == q);
            }
        }
    }
}

/// A path that drops the newcomer stays itself.
pub proof fn lemma_sift_nonempty(kept: Seq<Seq<PossibleIntervalView>>, c: Seq<PossibleIntervalView>)
    ensures
        sift(kept, c).1 ==> sift(kept, c).0.len() > 0,
    decreases kept.len(),
{
    if kept.len() == 0 {
    } else if path_contains(kept[0], c) {
    } else {
        lemma_sift_nonempty(kept.skip(1), c);
    }
}

/// Inserting by score adds the newcomer and keeps all that was there.
pub proof fn lemma_insert_members(
    sorted: Seq<Seq<PossibleIntervalView>>,
    p: Seq<PossibleIntervalView>,
)
    ensures
        insert_by_score(sorted, p).len() == sorted.len() + 1,
        forall|q: Seq<PossibleIntervalView>| #[trigger]
            insert_by_score(sorted, p).contains(q) <==> (q == p || sorted.contains(q)),
    decreases sorted.len(),
{
    let after = insert_by_score(sorted, p);
    if sorted.len() == 0 {
        assert(after[0] == p);
    } else if score(sorted.last()) <= score(p) {
        assert forall|q: Seq<PossibleIntervalView>| #[trigger]
            after.contains(q) <==> (q == p || sorted.contains(q)) by {
            if q == p {
                assert(after[sorted.len() as int] == q);
            }
            if sorted.contains(q) {
                let at = choose|at: int| 0 <= at < sorted.len() && sorted[at] == q;
                assert(after[at] == q);
            }
        }
    } else {
        let front = sorted.drop_last();
        let inner = insert_by_score(front, p);
        lemma_insert_members(front, p);
        assert forall|q: Seq<PossibleIntervalView>| #[trigger]
            after.contains(q) <==> (q == p || sorted.contains(q)) by {
            if after.contains(q) {
                let at = choose|at: int| 0 <= at < after.len() && after[at] == q;
                if at < inner.len() {
                    assert(inner.contains(inner[at]));
                    if q != p {
                        assert(front.contains(q));
                        let back = choose|back: int| 0 <= back < front.len() && front[back] == q;
                        assert(sorted[back] == q);
                    }
                } else {
                    assert(sorted[sorted.len() - 1] == q);
                }
            }
            if q == p {
                assert(inner.contains(p));
                let at = choose|at: int| 0 <= at < inner.len() && inner[at] == p;
                assert(after[at] == p);
            }
            if sorted.contains(q) {
                let at = choose|at: int| 0 <= at < sorted.len() && sorted[at] == q;
                if at == sorted.len() - 1 {
                    assert(after[inner.len() as int] == q);
                } else {
                    assert(front[at] == q);
                    assert(inner.contains(q));
                    let to = choose|to: int| 0 <= to < inner.len() && inner[to] == q;
                    assert(after[to] == q);
                }
            }
        }
    }
}

/// Sorting lists the same paths.
pub proof fn lemma_sort_members(paths: Seq<Seq<PossibleIntervalView>>)
    ensures
        sort_by_score(paths).len() == paths.len(),
        forall|q: Seq<PossibleIntervalView>| #[trigger]
            sort_by_score(paths).contains(q) <==> paths.contains(q),
    decreases paths.len(),
{
    if paths.len() > 0 {
        let earlier = paths.drop_last();
        lemma_sort_members(earlier);
        lemma_insert_members(sort_by_score(earlier), paths.last());
        assert forall|q: Seq<PossibleIntervalView>| #[trigger]
            sort_by_score(paths).contains(q) <==> paths.contains(q) by {
            if paths.contains(q) {
                let at = choose|at: int| 0 <= at < paths.len() && paths[at] == q;
                if at < earlier.len() {
                    assert(earlier[at] == q);
                }
            }
            if earlier.contains(q) {
                let at = choose|at: int| 0 <= at < earlier.len() && earlier[at] == q;
                assert(paths[at] == q);
            }
            if q == paths.last() {
                assert(paths[paths.len() - 1] == q);
            }
        }
    }
}

/// Inserting by score puts the newcomer behind everything that does not score
/// higher and before everything that does.
pub proof fn lemma_insert_place(
    sorted: Seq<Seq<PossibleIntervalView>>,
    p: Seq<PossibleIntervalView>,
) -> (at: int)
    ensures
        0 <= at <= sorted.len(),
        insert_by_score(sorted, p) == sorted.insert(at, p),
        forall|k: int| at <= k < sorted.len() ==> score(#[trigger] sorted[k]) > score(p),
        at > 0 ==> score(sorted[at - 1]) <= score(p),
    decreases sorted.len(),
{
    if sorted.len() == 0 {
        assert(sorted.insert(0, p) =~= seq![p]);
        0
    } else if score(sorted.last()) <= score(p) {
        assert(sorted.insert(sorted.len() as int, p) =~= sorted.push(p));
        sorted.len() as int
    } else {
        let at = lemma_insert_place(sorted.drop_last(), p);
        assert(sorted.insert(at, p) =~= sorted.drop_last().insert(at, p).push(sorted.last()));
        assert forall|k: int| at <= k < sorted.len() implies score(#[trigger] sorted[k]) > score(
            p,
        ) by {
            if k < sorted.len() - 1 {
                assert(sorted.drop_last()[k] == sorted[k]);
            }
        }
        if at > 0 {
            assert(sorted.drop_last()[at - 1] == sorted[at - 1]);
        }
        at
    }
}

/// The memo of candidate phrases kept during one enumeration, keyed by the
/// two ends of a segment.
pub struct Graph {
    cells: HashMap<u64, Option<Phrase>>,
}

/// The key under which the candidate of `[start, end)` is kept.
pub open spec fn cell_key(start: int, end: int) -> u64 {
    (start * 65536 + end) as u64
}

impl Graph {
    /// What the memo holds under each key.
    pub closed spec fn cells(&self) -> Map<u64, Option<Phrase>> {
        self.cells@
    }

    /// Whatever the memo holds for a segment is the candidate of that segment.
    pub open spec fn agrees<D: Dictionary>(&self, dict: D, seq: SequenceView) -> bool {
        forall|start: int, end: int|
            0 <= start <= MAX_SYLLABLES && 0 <= end <= MAX_SYLLABLES && self.cells().contains_key(
                #[trigger] cell_key(start, end),
            ) ==> self.cells()[cell_key(start, end)].deep_view() == candidate(
                dict,
                seq,
                start,
                end,
            )
    }

    /// The memo holds all that `earlier` held, unchanged.
    pub open spec fn extends(&self, earlier: Graph) -> bool {
        forall|key: u64| #[trigger]
            earlier.cells().contains_key(key) ==> self.cells().contains_key(key)
                && self.cells()[key] == earlier.cells()[key]
    }

    /// What the memo holds for `[start, end)`, if anything.
    pub fn get(&self, start: usize, end: usize) -> (held: Option<Option<Phrase>>)
        requires
            start <= MAX_SYLLABLES,
            end <= MAX_SYLLABLES,
        ensures
            match held {
                Some(value) => self.cells().contains_key(cell_key(start as int, end as int))
                    && self.cells()[cell_key(start as int, end as int)] == value,
                None => !self.cells().contains_key(cell_key(start as int, end as int)),
            },
    {
        let key: u64 = (start as u64) * 65536 + (end as u64);
        match self.cells.get(&key) {
            Some(value) => match value {
                Some(phrase) => Some(Some(phrase.clone())),
                None => Some(None),
            },
            None => None,
        }
    }

    /// Records `value` as the candidate of `[start, end)`.
    pub fn insert(&mut self, start: usize, end: usize, value: Option<Phrase>)
        requires
            start <= MAX_SYLLABLES,
            end <= MAX_SYLLABLES,
        ensures
            final(self).cells() == old(self).cells().insert(
                cell_key(start as int, end as int),
                value,
            ),
    {
        let key: u64 = (start as u64) * 65536 + (end as u64);
        self.cells.insert(key, value);
    }
}

impl Default for Graph {
    fn default() -> (graph: Self)
        ensures
            graph.cells() == Map::<u64, Option<Phrase>>::empty(),
    {
        Graph { cells: HashMap::new() }
    }
}

/// Recording the candidate of a segment keeps the memo in agreement.
pub proof fn lemma_insert_agrees<D: Dictionary>(
    before: Graph,
    after: Graph,
    dict: D,
    seq: SequenceView,
    start: int,
    end: int,
    value: Option<Phrase>,
)
    requires
        before.agrees(dict, seq),
        0 <= start <= MAX_SYLLABLES,
        0 <= end <= MAX_SYLLABLES,
        after.cells() == before.cells().insert(cell_key(start, end), value),
        value.deep_view() == candidate(dict, seq, start, end),
    ensures
        after.agrees(dict, seq),
{
    assert forall|s: int, e: int|
        0 <= s <= MAX_SYLLABLES && 0 <= e <= MAX_SYLLABLES && after.cells().contains_key(
            #[trigger] cell_key(s, e),
        ) implies after.cells()[cell_key(s, e)].deep_view() == candidate(dict, seq, s, e) by {
        if cell_key(s, e) == cell_key(start, end) {
            assert(s == start && e == end);
        }
    }
}

} // verus!
