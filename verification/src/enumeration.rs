//! The enumerated paths are the covers of the input, each once.
use crate::alternatives::{all_paths, from_grid, lemma_paths_cover, paths_via};
use crate::candidate::candidate;
use crate::cover::{lemma_sum_at_least_count, lemma_sum_of_contiguous};
use crate::dictionary::Dictionary;
use crate::order::{comes_before, lemma_paths_ascend};
use crate::path::PossibleIntervalView;
use crate::search::{contiguous, covers};
use crate::sequence::SequenceView;
use vstd::prelude::*;

verus! {

/// `p` begins with `prefix`.
pub open spec fn begins_with(
    p: Seq<PossibleIntervalView>,
    prefix: Seq<PossibleIntervalView>,
) -> bool {
    p.len() >= prefix.len() && p.subrange(0, prefix.len() as int) == prefix
}

/// A contiguous path of intervals of one syllable or more that starts and
/// ends at the same position is empty.
proof fn lemma_no_cover_of_nothing(p: Seq<PossibleIntervalView>, at: int)
    requires
        covers(p, at, at),
        forall|i: int| 0 <= i < p.len() ==> (#[trigger] p[i]).span() >= 1,
    ensures
        p.len() == 0,
{
    if p.len() > 0 {
        lemma_sum_of_contiguous(p);
        lemma_sum_at_least_count(p);
    }
}

/// In a contiguous path of intervals of one syllable or more, the first
/// interval ends no later than the path.
proof fn lemma_first_end_within(p: Seq<PossibleIntervalView>)
    requires
        p.len() > 0,
        contiguous(p),
        forall|i: int| 0 <= i < p.len() ==> (#[trigger] p[i]).span() >= 1,
    ensures
        p.first().end <= p.last().end,
{
    if p.len() > 1 {
        let rest = p.skip(1);
        assert forall|k: int| 0 <= k < rest.len() - 1 implies (#[trigger] rest[k]).end == rest[k
            + 1].start by {
            assert(rest[k] == p[k + 1] && rest[k + 1] == p[k + 2]);
        }
        assert forall|i: int| 0 <= i < rest.len() implies (#[trigger] rest[i]).span() >= 1 by {
            assert(rest[i] == p[i + 1]);
        }
        lemma_sum_of_contiguous(rest);
        lemma_sum_at_least_count(rest);
        assert(rest.first() == p[1]);
        assert(rest.last() == p.last());
        assert(p[0].end == p[1].start);
    }
}

/// A path that begins with the prefix and goes on from `start` to `target`
/// through candidate intervals, the first of which ends at or before `upto`,
/// is among the enumerated paths.
proof fn lemma_paths_complete<D: Dictionary>(
    dict: D,
    seq: SequenceView,
    start: int,
    target: int,
    prefix: Seq<PossibleIntervalView>,
    upto: int,
    p: Seq<PossibleIntervalView>,
)
    requires
        0 <= start <= target <= seq.syllables.len(),
        begins_with(p, prefix),
        covers(p.skip(prefix.len() as int), start, target),
        from_grid(dict, seq, p.skip(prefix.len() as int)),
        start < target ==> p[prefix.len() as int].end <= upto <= target,
    ensures
        paths_via(dict, seq, start, target, prefix, upto).contains(p),
    decreases target - start, upto - start,
{
    let rest = p.skip(prefix.len() as int);
    let all = paths_via(dict, seq, start, target, prefix, upto);
    assert forall|i: int| 0 <= i < rest.len() implies (#[trigger] rest[i]).span() >= 1 by {}
    if start >= target {
        lemma_no_cover_of_nothing(rest, start);
        assert(p =~= prefix);
        assert(all[0] == p);
    } else {
        let first = rest.first();
        assert(first == p[prefix.len() as int]);
        assert(first.start == start);
        if first.end < upto {
            lemma_paths_complete(dict, seq, start, target, prefix, upto - 1, p);
            let shorter = paths_via(dict, seq, start, target, prefix, upto - 1);
            let at = choose|at: int| 0 <= at < shorter.len() && shorter[at] == p;
            match candidate(dict, seq, start, upto) {
                Some(phrase) => {
                    assert(all[at] == p);
                },
                None => {},
            }
        } else {
            assert(candidate(dict, seq, start, upto) == Some(first.phrase));
            let step = PossibleIntervalView { start, end: upto, phrase: first.phrase };
            assert(step == first);
            let longer = prefix.push(step);
            let tail = p.skip(longer.len() as int);
            assert(tail =~= rest.skip(1));
            assert(p.subrange(0, longer.len() as int) =~= longer);
            assert(from_grid(dict, seq, tail)) by {
                assert forall|k: int| 0 <= k < tail.len() implies {
                    &&& 0 <= (#[trigger] tail[k]).start < tail[k].end <= seq.syllables.len()
                    &&& candidate(dict, seq, tail[k].start, tail[k].end) == Some(tail[k].phrase)
                } by {
                    assert(tail[k] == rest[k + 1]);
                }
            }
            assert(covers(tail, upto, target)) by {
                if tail.len() > 0 {
                    assert forall|k: int| 0 <= k < tail.len() - 1 implies (
                    #[trigger] tail[k]).end == tail[k + 1].start by {
                        assert(tail[k] == rest[k + 1] && tail[k + 1] == rest[k + 2]);
                    }
                    assert(tail.first() == rest[1]);
                    assert(rest[0].end == rest[1].start);
                    assert(tail.last() == rest.last());
                } else {
                    assert(rest.last() == first);
                }
            }
            if upto < target {
                assert(tail.len() > 0);
                assert forall|i: int| 0 <= i < tail.len() implies (#[trigger] tail[i]).span()
                    >= 1 by {}
                lemma_first_end_within(tail);
                assert(tail.first() == p[longer.len() as int]);
            }
            lemma_paths_complete(dict, seq, upto, target, longer, target, p);
            let shorter = paths_via(dict, seq, start, target, prefix, upto - 1);
            let deeper = paths_via(dict, seq, upto, target, longer, target);
            let at = choose|at: int| 0 <= at < deeper.len() && deeper[at] == p;
            assert(all == shorter + deeper);
            assert(all[shorter.len() + at] == p);
        }
    }
}

/// The enumerated paths are the covers of the input: a path is enumerated if
/// and only if it covers the input from 0 to its end with candidate
/// intervals.
pub proof fn law_all_paths_are_the_covers<D: Dictionary>(
    dict: D,
    seq: SequenceView,
    p: Seq<PossibleIntervalView>,
)
    ensures
        all_paths(dict, seq, 0, seq.syllables.len() as int, Seq::empty()).contains(p) <==> covers(
            p,
            0,
            seq.syllables.len() as int,
        ) && from_grid(dict, seq, p),
{
    let n = seq.syllables.len() as int;
    let none = Seq::<PossibleIntervalView>::empty();
    let all = all_paths(dict, seq, 0, n, none);
    lemma_paths_cover(dict, seq, 0, n, none, n);
    if all.contains(p) {
        let at = choose|at: int| 0 <= at < all.len() && all[at] == p;
        assert(covers(all[at], 0, n));
    }
    if covers(p, 0, n) && from_grid(dict, seq, p) {
        assert(p.skip(0) =~= p);
        assert(p.subrange(0, 0) =~= none);
        if 0 < n {
            assert forall|i: int| 0 <= i < p.len() implies (#[trigger] p[i]).span() >= 1 by {}
            lemma_first_end_within(p);
        }
        lemma_paths_complete(dict, seq, 0, n, none, n, p);
    }
}

/// No path is enumerated twice.
pub proof fn law_all_paths_differ<D: Dictionary>(dict: D, seq: SequenceView)
    ensures
        forall|i: int, j: int|
            0 <= i < j < all_paths(
                dict,
                seq,
                0,
                seq.syllables.len() as int,
                Seq::empty(),
            ).len() ==> (#[trigger] all_paths(
                dict,
                seq,
                0,
                seq.syllables.len() as int,
                Seq::empty(),
            )[i]) != (#[trigger] all_paths(
                dict,
                seq,
                0,
                seq.syllables.len() as int,
                Seq::empty(),
            )[j]),
{
    let n = seq.syllables.len() as int;
    let all = all_paths(dict, seq, 0, n, Seq::empty());
    lemma_paths_ascend(dict, seq, 0, n, Seq::empty(), n);
    assert forall|i: int, j: int| 0 <= i < j < all.len() implies (#[trigger] all[i]) != (
    #[trigger] all[j]) by {
        assert(comes_before(all[i], all[j]));
    }
}

} // verus!
