//! The order of alternatives that score alike.
use crate::alternatives::{
    all_paths, alternatives, lemma_insert_place, lemma_sift_keeps, lemma_sort_members,
    lemma_trim_keeps, paths_via, sift, sort_by_score, trim, trim_step,
};
use crate::candidate::candidate;
use crate::dictionary::Dictionary;
use crate::path::{path_contains, score, PossibleIntervalView};
use crate::sequence::SequenceView;
use vstd::prelude::*;

verus! {

/// `p` comes before `q` in path order: the two agree up to some place, and
/// there the interval of `p` starts earlier than that of `q`, or starts with
/// it and ends earlier.
pub open spec fn comes_before(p: Seq<PossibleIntervalView>, q: Seq<PossibleIntervalView>) -> bool {
    exists|m: int|
        0 <= m < p.len() && m < q.len() && (forall|k: int| 0 <= k < m ==> p[k] == q[k]) && ((
        #[trigger] p[m]).start < q[m].start || (p[m].start == q[m].start && p[m].end < q[m].end))
}

/// `x` stands in `whole` at some place and `y` at a later one.
pub open spec fn stands_before(
    whole: Seq<Seq<PossibleIntervalView>>,
    x: Seq<PossibleIntervalView>,
    y: Seq<PossibleIntervalView>,
) -> bool {
    exists|a: int, b: int|
        #![trigger whole[a], whole[b]]
        0 <= a < b < whole.len() && whole[a] == x && whole[b] == y
}

/// Any two paths of `part` stand in `whole` too, in the same order.
pub open spec fn in_order_of(
    part: Seq<Seq<PossibleIntervalView>>,
    whole: Seq<Seq<PossibleIntervalView>>,
) -> bool {
    forall|i: int, j: int|
        0 <= i < j < part.len() ==> stands_before(whole, #[trigger] part[i], #[trigger] part[j])
}

/// Every enumerated path begins with the prefix and goes on with an interval
/// from `start`; the paths come in path order.
pub proof fn lemma_paths_ascend<D: Dictionary>(
    dict: D,
    seq: SequenceView,
    start: int,
    target: int,
    prefix: Seq<PossibleIntervalView>,
    upto: int,
)
    ensures
        forall|i: int|
            0 <= i < paths_via(dict, seq, start, target, prefix, upto).len() ==> {
                let p = #[trigger] paths_via(dict, seq, start, target, prefix, upto)[i];
                &&& p.len() >= prefix.len()
                &&& forall|k: int| 0 <= k < prefix.len() ==> p[k] == prefix[k]
                &&& start < target ==> p.len() > prefix.len() && p[prefix.len() as int].start
                    == start && p[prefix.len() as int].end <= upto
            },
        forall|i: int, j: int|
            0 <= i < j < paths_via(dict, seq, start, target, prefix, upto).len() ==> comes_before(
                #[trigger] paths_via(dict, seq, start, target, prefix, upto)[i],
                #[trigger] paths_via(dict, seq, start, target, prefix, upto)[j],
            ),
    decreases target - start, upto - start,
{
    let all = paths_via(dict, seq, start, target, prefix, upto);
    if start >= target {
    } else if upto <= start || upto > target {
    } else {
        let shorter = paths_via(dict, seq, start, target, prefix, upto - 1);
        lemma_paths_ascend(dict, seq, start, target, prefix, upto - 1);
        match candidate(dict, seq, start, upto) {
            Some(phrase) => {
                let step = PossibleIntervalView { start, end: upto, phrase };
                let longer = prefix.push(step);
                let deeper = paths_via(dict, seq, upto, target, longer, target);
                lemma_paths_ascend(dict, seq, upto, target, longer, target);
                assert(all == shorter + deeper);
                assert forall|i: int| 0 <= i < all.len() implies {
                    let p = #[trigger] all[i];
                    &&& p.len() >= prefix.len()
                    &&& forall|k: int| 0 <= k < prefix.len() ==> p[k] == prefix[k]
                    &&& p.len() > prefix.len() && p[prefix.len() as int].start == start
                        && p[prefix.len() as int].end <= upto
                    &&& i >= shorter.len() ==> p[prefix.len() as int].end == upto
                    &&& i < shorter.len() ==> p[prefix.len() as int].end < upto
                } by {
                    if i < shorter.len() {
                        assert(all[i] == shorter[i]);
                    } else {
                        let p = deeper[i - shorter.len()];
                        assert(all[i] == p);
                        assert(p[prefix.len() as int] == longer[prefix.len() as int]);
                        assert forall|k: int| 0 <= k < prefix.len() implies p[k] == prefix[k] by {
                            assert(p[k] == longer[k]);
                        }
                    }
                }
                assert forall|i: int, j: int| 0 <= i < j < all.len() implies comes_before(
                    #[trigger] all[i],
                    #[trigger] all[j],
                ) by {
                    if j < shorter.len() {
                        assert(all[i] == shorter[i] && all[j] == shorter[j]);
                    } else if i >= shorter.len() {
                        assert(all[i] == deeper[i - shorter.len()]);
                        assert(all[j] == deeper[j - shorter.len()]);
                    } else {
                        let p = all[i];
                        let q = all[j];
                        let m = prefix.len() as int;
                        assert(p[m].end < q[m].end);
                        assert forall|k: int| 0 <= k < m implies p[k] == q[k] by {
                            assert(p[k] == prefix[k]);
                            assert(q[k] == prefix[k]);
                        }
                    }
                }
            },
            None => {},
        }
    }
}

/// Sifting keeps the kept paths in their order.
pub proof fn lemma_sift_in_order(
    kept: Seq<Seq<PossibleIntervalView>>,
    c: Seq<PossibleIntervalView>,
)
    ensures
        in_order_of(sift(kept, c).0, kept),
    decreases kept.len(),
{
    let out = sift(kept, c).0;
    if kept.len() == 0 {
    } else if path_contains(kept[0], c) {
        assert forall|i: int, j: int| 0 <= i < j < out.len() implies stands_before(
            kept,
            #[trigger] out[i],
            #[trigger] out[j],
        ) by {
            assert(kept[i] == out[i] && kept[j] == out[j]);
        }
    } else {
        let tail = kept.skip(1);
        let rest = sift(tail, c).0;
        lemma_sift_in_order(tail, c);
        lemma_sift_keeps(tail, c);
        let shift: int = if path_contains(c, kept[0]) {
            0
        } else {
            1
        };
        assert forall|i: int, j: int| 0 <= i < j < out.len() implies stands_before(
            kept,
            #[trigger] out[i],
            #[trigger] out[j],
        ) by {
            assert(out[j] == rest[j - shift]);
            if i < shift {
                assert(tail.contains(rest[j - shift]));
                let b = choose|b: int| 0 <= b < tail.len() && tail[b] == rest[j - shift];
                assert(kept[0] == out[i] && kept[b + 1] == out[j]);
            } else {
                assert(out[i] == rest[i - shift]);
                let (a, b) = choose|a: int, b: int|
                    #![trigger tail[a], tail[b]]
                    0 <= a < b < tail.len() && tail[a] == rest[i - shift] && tail[b] == rest[j
                        - shift];
                assert(kept[a + 1] == out[i] && kept[b + 1] == out[j]);
            }
        }
    }
}

/// Trimming keeps the listed paths in their order.
pub proof fn lemma_trim_in_order(paths: Seq<Seq<PossibleIntervalView>>)
    ensures
        in_order_of(trim(paths), paths),
    decreases paths.len(),
{
    if paths.len() > 0 {
        let earlier = paths.drop_last();
        let c = paths.last();
        let kept = trim(earlier);
        let retained = sift(kept, c).0;
        let out = trim(paths);
        lemma_trim_in_order(earlier);
        lemma_trim_keeps(earlier);
        lemma_sift_in_order(kept, c);
        lemma_sift_keeps(kept, c);
        assert(out == trim_step(kept, c));
        assert forall|i: int, j: int| 0 <= i < j < out.len() implies stands_before(
            paths,
            #[trigger] out[i],
            #[trigger] out[j],
        ) by {
            assert(out[i] == retained[i]);
            if j < retained.len() {
                assert(out[j] == retained[j]);
                let (x, y) = choose|x: int, y: int|
                    #![trigger kept[x], kept[y]]
                    0 <= x < y < kept.len() && kept[x] == retained[i] && kept[y] == retained[j];
                let (a, b) = choose|a: int, b: int|
                    #![trigger earlier[a], earlier[b]]
                    0 <= a < b < earlier.len() && earlier[a] == kept[x] && earlier[b] == kept[y];
                assert(paths[a] == out[i] && paths[b] == out[j]);
            } else {
                assert(kept.contains(retained[i]));
                let mid = choose|mid: int| 0 <= mid < kept.len() && kept[mid] == retained[i];
                assert(earlier.contains(kept[mid]));
                let a = choose|a: int| 0 <= a < earlier.len() && earlier[a] == kept[mid];
                assert(paths[a] == out[i] && paths[paths.len() - 1] == out[j]);
            }
        }
    }
}

/// Sorting by score keeps paths of equal score in their order.
pub proof fn lemma_sort_is_stable(paths: Seq<Seq<PossibleIntervalView>>)
    ensures
        sort_by_score(paths).len() == paths.len(),
        forall|i: int, j: int|
            0 <= i < j < paths.len() && score(sort_by_score(paths)[i]) == score(
                sort_by_score(paths)[j],
            ) ==> stands_before(
                paths,
                #[trigger] sort_by_score(paths)[i],
                #[trigger] sort_by_score(paths)[j],
            ),
    decreases paths.len(),
{
    if paths.len() > 0 {
        let earlier = paths.drop_last();
        let p = paths.last();
        let sorted = sort_by_score(earlier);
        let out = sort_by_score(paths);
        lemma_sort_is_stable(earlier);
        lemma_sort_members(earlier);
        let at = lemma_insert_place(sorted, p);
        assert(out == sorted.insert(at, p));
        assert forall|i: int, j: int|
            0 <= i < j < paths.len() && score(out[i]) == score(out[j]) implies stands_before(
            paths,
            #[trigger] out[i],
            #[trigger] out[j],
        ) by {
            if i == at {
                assert(out[j] == sorted[j - 1]);
                assert(score(sorted[j - 1]) > score(p));
            } else if j == at {
                assert(out[i] == sorted[i]);
                assert(sorted.contains(sorted[i]));
                let a = choose|a: int| 0 <= a < earlier.len() && earlier[a] == sorted[i];
                assert(paths[a] == out[i] && paths[paths.len() - 1] == out[j]);
            } else {
                let x = if i < at {
                    i
                } else {
                    i - 1
                };
                let y = if j < at {
                    j
                } else {
                    j - 1
                };
                assert(out[i] == sorted[x] && out[j] == sorted[y]);
                let (a, b) = choose|a: int, b: int|
                    #![trigger earlier[a], earlier[b]]
                    0 <= a < b < earlier.len() && earlier[a] == sorted[x] && earlier[b]
                        == sorted[y];
                assert(paths[a] == out[i] && paths[b] == out[j]);
            }
        }
    }
}

/// Of two alternatives that score alike, the one that comes later in path
/// order stands first.
pub proof fn law_ties_stand_in_reverse_path_order<D: Dictionary>(dict: D, seq: SequenceView)
    ensures
        forall|i: int, j: int|
            0 <= i < j < alternatives(dict, seq).len() && score(alternatives(dict, seq)[i])
                == score(alternatives(dict, seq)[j]) ==> comes_before(
                #[trigger] alternatives(dict, seq)[j],
                #[trigger] alternatives(dict, seq)[i],
            ),
{
    let n = seq.syllables.len() as int;
    let listed = all_paths(dict, seq, 0, n, Seq::empty());
    let trimmed = trim(listed);
    let sorted = sort_by_score(trimmed);
    let found = alternatives(dict, seq);
    lemma_paths_ascend(dict, seq, 0, n, Seq::empty(), n);
    lemma_trim_in_order(listed);
    lemma_sort_is_stable(trimmed);
    assert forall|i: int, j: int|
        0 <= i < j < found.len() && score(found[i]) == score(found[j]) implies comes_before(
        #[trigger] found[j],
        #[trigger] found[i],
    ) by {
        let low = sorted.len() - 1 - j;
        let high = sorted.len() - 1 - i;
        assert(found[j] == sorted[low] && found[i] == sorted[high]);
        let (x, y) = choose|x: int, y: int|
            #![trigger trimmed[x], trimmed[y]]
            0 <= x < y < trimmed.len() && trimmed[x] == sorted[low] && trimmed[y] == sorted[high];
        let (a, b) = choose|a: int, b: int|
            #![trigger listed[a], listed[b]]
            0 <= a < b < listed.len() && listed[a] == trimmed[x] && listed[b] == trimmed[y];
        assert(comes_before(listed[a], listed[b]));
    }
}

} // verus!
