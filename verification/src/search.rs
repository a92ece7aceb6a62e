//! The best path through a list of candidate intervals.
use crate::path::{measurable, score, PossibleIntervalView};
use crate::sequence::{IntervalView, MAX_SYLLABLES};
use vstd::prelude::*;

verus! {

/// Every interval of `list` is a non-empty segment of `[0, len)`.
pub open spec fn segments_of(list: Seq<PossibleIntervalView>, len: int) -> bool {
    forall|i: int| 0 <= i < list.len() ==> 0 <= (#[trigger] list[i]).start < list[i].end <= len
}

/// Each interval of `p` starts where the one before it ends.
pub open spec fn contiguous(p: Seq<PossibleIntervalView>) -> bool {
    forall|k: int| 0 <= k < p.len() - 1 ==> (#[trigger] p[k]).end == p[k + 1].start
}

/// `p` covers `[from, to)`: it is contiguous, starts at `from` and ends at
/// `to`. The empty path covers the empty range only.
pub open spec fn covers(p: Seq<PossibleIntervalView>, from: int, to: int) -> bool {
    if p.len() == 0 {
        from == to
    } else {
        contiguous(p) && p.first().start == from && p.last().end == to
    }
}

/// The best path that ends at `e`, judged among the first `idx` intervals of
/// `list`. Each interval `[s, e)` proposes the best path that ends at `s`,
/// extended by itself. A proposal replaces what was held only if it scores
/// strictly higher, so of equal proposals the earliest stays; nothing is
/// held at first, which scores 0.
pub open spec fn best_upto(list: Seq<PossibleIntervalView>, e: int, idx: int) -> Seq<
    PossibleIntervalView,
>
    decreases e, idx,
{
    if e <= 0 || idx <= 0 || idx > list.len() {
        Seq::empty()
    } else {
        let held = best_upto(list, e, idx - 1);
        let interval = list[idx - 1];
        if interval.end == e && 0 <= interval.start < e {
            let proposal = best_upto(list, interval.start, list.len() as int).push(interval);
            if score(held) < score(proposal) {
                proposal
            } else {
                held
            }
        } else {
            held
        }
    }
}

/// The best path that ends at `e` through the intervals of `list`.
pub open spec fn best_at(list: Seq<PossibleIntervalView>, e: int) -> Seq<PossibleIntervalView> {
    best_upto(list, e, list.len() as int)
}

/// The intervals of a path as handed to a caller.
pub open spec fn publish(p: Seq<PossibleIntervalView>) -> Seq<IntervalView> {
    Seq::new(p.len(), |i: int| p[i].published())
}

/// The best path that ends at `e` is a contiguous run of at most `e`
/// intervals of `list`; where it is not empty it ends at `e`.
pub proof fn lemma_best_shape(list: Seq<PossibleIntervalView>, len: int, e: int, idx: int)
    requires
        segments_of(list, len),
        0 <= idx <= list.len(),
    ensures
        contiguous(best_upto(list, e, idx)),
        best_upto(list, e, idx).len() <= e || best_upto(list, e, idx).len() == 0,
        best_upto(list, e, idx).len() > 0 ==> best_upto(list, e, idx).last().end == e,
        forall|k: int|
            0 <= k < best_upto(list, e, idx).len() ==> list.contains(
                #[trigger] best_upto(list, e, idx)[k],
            ),
    decreases e, idx,
{
    if e <= 0 || idx <= 0 {
    } else {
        lemma_best_shape(list, len, e, idx - 1);
        let interval = list[idx - 1];
        if interval.end == e && 0 <= interval.start < e {
            lemma_best_shape(list, len, interval.start, list.len() as int);
            let before = best_upto(list, interval.start, list.len() as int);
            let proposal = before.push(interval);
            assert forall|k: int| 0 <= k < proposal.len() implies list.contains(
                #[trigger] proposal[k],
            ) by {
                if k < before.len() {
                    assert(proposal[k] == before[k]);
                } else {
                    assert(proposal[k] == list[idx - 1]);
                }
            }
            assert forall|k: int| 0 <= k < proposal.len() - 1 implies (#[trigger] proposal[k]).end
                == proposal[k + 1].start by {
                if k < before.len() - 1 {
                    assert(proposal[k] == before[k]);
                    assert(proposal[k + 1] == before[k + 1]);
                } else {
                    assert(proposal[k] == before.last());
                }
            }
        }
    }
}

/// The best path that ends at `e <= MAX_SYLLABLES` can be scored.
pub proof fn lemma_best_measurable(list: Seq<PossibleIntervalView>, len: int, e: int)
    requires
        segments_of(list, len),
        0 <= e <= len <= MAX_SYLLABLES,
    ensures
        measurable(best_at(list, e)),
        best_at(list, e).len() <= e,
{
    lemma_best_shape(list, len, e, list.len() as int);
    let p = best_at(list, e);
    assert forall|i: int| 0 <= i < p.len() implies 0 <= (#[trigger] p[i]).span()
        <= MAX_SYLLABLES by {
        assert(list.contains(p[i]));
        let at = choose|at: int| 0 <= at < list.len() && list[at] == p[i];
        assert(list[at].start < list[at].end);
    }
}

/// What interval `j` of `list` proposes: the best path that ends where the
/// interval starts, extended by the interval.
pub open spec fn proposal(list: Seq<PossibleIntervalView>, j: int) -> Seq<PossibleIntervalView> {
    best_at(list, list[j].start).push(list[j])
}

/// What is held for the end `e` scores at least 0 and at least as high as
/// every proposal looked at; it is empty or the first of the proposals looked
/// at that score highest.
pub proof fn law_best_is_first_of_highest(
    list: Seq<PossibleIntervalView>,
    len: int,
    e: int,
    idx: int,
)
    requires
        segments_of(list, len),
        0 <= idx <= list.len(),
    ensures
        score(best_upto(list, e, idx)) >= 0,
        forall|j: int|
            0 <= j < idx && (#[trigger] list[j]).end == e ==> score(proposal(list, j)) <= score(
                best_upto(list, e, idx),
            ),
        best_upto(list, e, idx).len() == 0 || exists|j: int|
            0 <= j < idx && (#[trigger] list[j]).end == e && best_upto(list, e, idx) == proposal(
                list,
                j,
            ) && forall|i: int|
                0 <= i < j && (#[trigger] list[i]).end == e ==> score(proposal(list, i)) < score(
                    proposal(list, j),
                ),
    decreases idx,
{
    assert(score(Seq::<PossibleIntervalView>::empty()) == 0);
    if e <= 0 || idx <= 0 {
        assert forall|j: int| 0 <= j < idx implies (#[trigger] list[j]).end != e by {}
    } else {
        law_best_is_first_of_highest(list, len, e, idx - 1);
        let held = best_upto(list, e, idx - 1);
        let now = best_upto(list, e, idx);
        let interval = list[idx - 1];
        if interval.end == e && score(held) < score(proposal(list, idx - 1)) {
            assert(now == proposal(list, idx - 1));
            assert(now.len() > 0);
        } else {
            assert(now == held);
            if held.len() > 0 {
                let j = choose|j: int|
                    0 <= j < idx - 1 && (#[trigger] list[j]).end == e && held == proposal(list, j)
                        && forall|i: int|
                        0 <= i < j && (#[trigger] list[i]).end == e ==> score(proposal(list, i))
                            < score(proposal(list, j));
                assert(0 <= j < idx && list[j].end == e && now == proposal(list, j));
            }
        }
    }
}

} // verus!
