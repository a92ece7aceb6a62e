//! Candidate intervals, the paths made of them, and the score of a path.
use crate::dictionary::{Phrase, PhraseView};
use crate::sequence::{Interval, IntervalView, MAX_SYLLABLES};
use vstd::prelude::*;

verus! {

/// A segment `[start, end)` of the input with the dictionary phrase proposed for it.
#[derive(Debug, PartialEq, Eq)]
pub struct PossibleInterval {
    pub start: usize,
    pub end: usize,
    pub phrase: Phrase,
}

/// The mathematical content of a [`PossibleInterval`].
pub struct PossibleIntervalView {
    pub start: int,
    pub end: int,
    pub phrase: PhraseView,
}

impl PossibleIntervalView {
    /// The number of syllables the interval spans.
    pub open spec fn span(self) -> int {
        self.end - self.start
    }

    /// `self` reaches at least as far as `other` on both sides.
    pub open spec fn contains(self, other: PossibleIntervalView) -> bool {
        self.start <= other.start && self.end >= other.end
    }

    /// What the interval adds to the frequency rule: the phrase's weight, cut
    /// down to a 512th for an interval of one syllable.
    pub open spec fn weight(self) -> int {
        if self.span() == 1 {
            self.phrase.freq as int / 512
        } else {
            self.phrase.freq as int
        }
    }

    /// The interval as handed to a caller: its bounds and its characters.
    pub open spec fn published(self) -> IntervalView {
        IntervalView { start: self.start, end: self.end, phrase: self.phrase.text }
    }
}

impl View for PossibleInterval {
    type V = PossibleIntervalView;

    open spec fn view(&self) -> PossibleIntervalView {
        PossibleIntervalView {
            start: self.start as int,
            end: self.end as int,
            phrase: self.phrase@,
        }
    }
}

impl DeepView for PossibleInterval {
    type V = PossibleIntervalView;

    open spec fn deep_view(&self) -> PossibleIntervalView {
        self@
    }
}

impl Clone for PossibleInterval {
    fn clone(&self) -> (copy: Self)
        ensures
            copy == *self,
    {
        PossibleInterval { start: self.start, end: self.end, phrase: self.phrase.clone() }
    }
}

impl PossibleInterval {
    /// Whether `self` reaches at least as far as `other` on both sides.
    pub fn contains(&self, other: &PossibleInterval) -> (inside: bool)
        ensures
            inside == self@.contains(other@),
    {
        self.start <= other.start && self.end >= other.end
    }

    /// The number of syllables the interval spans.
    pub fn len(&self) -> (span: usize)
        requires
            self.start <= self.end,
        ensures
            span == self@.span(),
    {
        self.end - self.start
    }
}

impl From<PossibleInterval> for Interval {
    /// The interval as handed to a caller: its bounds and its characters.
    fn from(value: PossibleInterval) -> (interval: Interval) {
        Interval { start: value.start, end: value.end, phrase: value.phrase.to_string() }
    }
}

impl vstd::std_specs::convert::FromSpecImpl<PossibleInterval> for Interval {
    open spec fn obeys_from_spec() -> bool {
        true
    }

    open spec fn from_spec(value: PossibleInterval) -> Interval {
        Interval { start: value.start, end: value.end, phrase: value.phrase.spec_string() }
    }
}

/// The absolute difference of two lengths.
pub open spec fn distance(a: int, b: int) -> int {
    if a <= b {
        b - a
    } else {
        a - b
    }
}

/// The sum of the spans of the intervals of `p`.
pub open spec fn largest_sum(p: Seq<PossibleIntervalView>) -> int
    decreases p.len(),
{
    if p.len() == 0 {
        0
    } else {
        largest_sum(p.drop_last()) + p.last().span()
    }
}

/// Six times the average span of `p`, rounded down; 0 for the empty path.
pub open spec fn largest_avgwordlen(p: Seq<PossibleIntervalView>) -> int {
    if p.len() == 0 {
        0
    } else {
        6 * largest_sum(p) / (p.len() as int)
    }
}

/// The sum of the distances between `a` and the span of each interval of `p`.
pub open spec fn distances_to(p: Seq<PossibleIntervalView>, a: int) -> int
    decreases p.len(),
{
    if p.len() == 0 {
        0
    } else {
        distances_to(p.drop_last(), a) + distance(p.last().span(), a)
    }
}

/// The sum of the distances between the spans of every two intervals of `p`.
pub open spec fn spread(p: Seq<PossibleIntervalView>) -> int
    decreases p.len(),
{
    if p.len() == 0 {
        0
    } else {
        spread(p.drop_last()) + distances_to(p.drop_last(), p.last().span())
    }
}

/// Minus the sum of the distances between the spans of every two intervals of `p`.
pub open spec fn smallest_lenvariance(p: Seq<PossibleIntervalView>) -> int {
    -spread(p)
}

/// The sum of the weights of the intervals of `p`.
pub open spec fn largest_freqsum(p: Seq<PossibleIntervalView>) -> int
    decreases p.len(),
{
    if p.len() == 0 {
        0
    } else {
        largest_freqsum(p.drop_last()) + p.last().weight()
    }
}

/// The score of a path: the four rules, weighted so that each one decides
/// only where the ones before it tie on inputs of ordinary size.
pub open spec fn score(p: Seq<PossibleIntervalView>) -> int {
    1000 * largest_sum(p) + 1000 * largest_avgwordlen(p) + 100 * smallest_lenvariance(p)
        + largest_freqsum(p)
}

/// Whether the path is short enough, and its intervals are short enough, for
/// its score to be computed: at most [`MAX_SYLLABLES`] intervals, none of them
/// reversed or longer than [`MAX_SYLLABLES`].
pub open spec fn measurable(p: Seq<PossibleIntervalView>) -> bool {
    &&& p.len() <= MAX_SYLLABLES
    &&& forall|i: int| 0 <= i < p.len() ==> 0 <= (#[trigger] p[i]).span() <= MAX_SYLLABLES
}

/// `phi` assigns to every interval of `small` an interval of `big` that
/// contains it, and never steps back.
pub open spec fn is_assignment(
    big: Seq<PossibleIntervalView>,
    small: Seq<PossibleIntervalView>,
    phi: Seq<int>,
) -> bool {
    &&& phi.len() == small.len()
    &&& forall|k: int|
        0 <= k < small.len() ==> 0 <= #[trigger] phi[k] < big.len() && big[phi[k]].contains(
            small[k],
        )
    &&& forall|j: int, k: int| 0 <= j <= k < small.len() ==> phi[j] <= phi[k]
}

/// `big` is a coarser segmentation than `small`: the intervals of `small` can
/// be assigned, in order, to intervals of `big` that contain them.
pub open spec fn path_contains(
    big: Seq<PossibleIntervalView>,
    small: Seq<PossibleIntervalView>,
) -> bool {
    exists|phi: Seq<int>| is_assignment(big, small, phi)
}

/// An ordered list of candidate intervals.
#[derive(Debug)]
pub struct PossiblePath {
    pub intervals: Vec<PossibleInterval>,
}

impl View for PossiblePath {
    type V = Seq<PossibleIntervalView>;

    open spec fn view(&self) -> Seq<PossibleIntervalView> {
        self.intervals.deep_view()
    }
}

impl DeepView for PossiblePath {
    type V = Seq<PossibleIntervalView>;

    open spec fn deep_view(&self) -> Seq<PossibleIntervalView> {
        self@
    }
}

impl Default for PossiblePath {
    fn default() -> (path: Self)
        ensures
            path.intervals@ == Seq::<PossibleInterval>::empty(),
            path@ == Seq::<PossibleIntervalView>::empty(),
    {
        let path = PossiblePath { intervals: Vec::new() };
        assert(path@ =~= Seq::<PossibleIntervalView>::empty());
        path
    }
}

impl Clone for PossiblePath {
    fn clone(&self) -> (copy: Self)
        ensures
            copy.intervals@ == self.intervals@,
            copy@ == self@,
    {
        let mut intervals: Vec<PossibleInterval> = Vec::new();
        let mut i: usize = 0;
        while i < self.intervals.len()
            invariant
                i <= self.intervals.len(),
                intervals@ == self.intervals@.subrange(0, i as int),
            decreases self.intervals.len() - i,
        {
            intervals.push(self.intervals[i].clone());
            assert(intervals@ =~= self.intervals@.subrange(0, i + 1));
            i += 1;
        }
        assert(intervals@ =~= self.intervals@);
        PossiblePath { intervals }
    }
}

/// The bound on a sum of up to `MAX_SYLLABLES` spans.
pub const MAX_TOTAL: i64 = 4294836225;

impl PossiblePath {
    /// Tests whether the path can be scored.
    pub fn is_measurable(&self) -> (ok: bool)
        ensures
            ok == measurable(self@),
    {
        if self.intervals.len() > MAX_SYLLABLES {
            return false;
        }
        let mut i: usize = 0;
        while i < self.intervals.len()
            invariant
                i <= self.intervals.len(),
                self.intervals.len() <= MAX_SYLLABLES,
                forall|k: int| 0 <= k < i ==> 0 <= (#[trigger] self@[k]).span() <= MAX_SYLLABLES,
            decreases self.intervals.len() - i,
        {
            let interval = &self.intervals[i];
            assert(self@[i as int] == interval@);
            if interval.start > interval.end || interval.end - interval.start > MAX_SYLLABLES {
                return false;
            }
            i += 1;
        }
        true
    }

    /// The score of the path.
    pub fn score(&self) -> (total: i64)
        requires
            measurable(self@),
        ensures
            total == score(self@),
    {
        let sum: i64 = self.rule_largest_sum();
        let avg: i64 = self.rule_largest_avgwordlen();
        let variance: i64 = self.rule_smallest_lenvariance();
        let freq: i64 = self.rule_largest_freqsum();
        proof {
            lemma_rule_bounds(self@);
        }
        let mut total: i64 = 0;
        total += 1000 * sum;
        total += 1000 * avg;
        total += 100 * variance;
        total += freq;
        total
    }

    /// Whether `self` is a coarser segmentation than `other`.
    pub fn contains(&self, other: &Self) -> (coarser: bool)
        ensures
            coarser == path_contains(self@, other@),
    {
        let mut big: usize = 0;
        let mut sml: usize = 0;
        let ghost mut phi: Seq<int> = Seq::empty();
        while sml < other.intervals.len()
            invariant
                sml <= other.intervals.len(),
                big <= self.intervals.len(),
                phi.len() == sml,
                forall|k: int|
                    0 <= k < sml ==> 0 <= #[trigger] phi[k] < self@.len() && self@[phi[k]].contains(
                        other@[k],
                    ),
                forall|j: int, k: int| 0 <= j <= k < sml ==> phi[j] <= phi[k],
                sml > 0 ==> phi[sml - 1] == big,
                sml > 0 ==> big < self.intervals.len(),
                forall|psi: Seq<int>| #[trigger]
                    is_assignment(self@, other@, psi) && sml < other@.len() ==> psi[sml as int]
                        >= big,
            decreases other.intervals.len() - sml,
        {
            let ghost reached = big;
            loop
                invariant_except_break
                    sml < other.intervals.len(),
                    big <= self.intervals.len(),
                    forall|psi: Seq<int>| #[trigger]
                        is_assignment(self@, other@, psi) ==> psi[sml as int] >= big,
                invariant
                    sml < other.intervals.len(),
                    reached <= big,
                ensures
                    big < self.intervals.len(),
                    self@[big as int].contains(other@[sml as int]),
                    forall|psi: Seq<int>| #[trigger]
                        is_assignment(self@, other@, psi) ==> psi[sml as int] >= big,
                decreases self.intervals.len() - big,
            {
                if big < self.intervals.len() {
                    if self.intervals[big].contains(&other.intervals[sml]) {
                        break ;
                    }
                } else {
                    proof {
                        assert forall|psi: Seq<int>| !is_assignment(self@, other@, psi) by {
                            if is_assignment(self@, other@, psi) {
                                assert(psi[sml as int] >= big);
                                assert(psi[sml as int] < self@.len());
                            }
                        }
                    }
                    return false;
                }
                proof {
                    assert forall|psi: Seq<int>| #[trigger]
                        is_assignment(self@, other@, psi) implies psi[sml as int] >= big + 1 by {
                        assert(psi[sml as int] >= big);
                        assert(self@[psi[sml as int]].contains(other@[sml as int]));
                    }
                }
                big += 1;
            }
            proof {
                let ghost extended = phi.push(big as int);
                assert forall|j: int, k: int| 0 <= j <= k < sml + 1 implies extended[j]
                    <= extended[k] by {
                    if k == sml && j < sml {
                        assert(phi[j] <= phi[sml - 1]);
                        assert(phi[sml - 1] == reached);
                    }
                }
                assert forall|psi: Seq<int>| #[trigger]
                    is_assignment(self@, other@, psi) && sml + 1 < other@.len() implies psi[sml
                    + 1] >= big by {
                    assert(psi[sml as int] <= psi[sml + 1]);
                }
                phi = extended;
            }
            sml += 1;
        }
        proof {
            assert(is_assignment(self@, other@, phi));
        }
        true
    }

    /// The number of syllables the path spans.
    pub fn rule_largest_sum(&self) -> (sum: i64)
        requires
            measurable(self@),
        ensures
            sum == largest_sum(self@),
            0 <= sum <= MAX_TOTAL,
    {
        let mut sum: i64 = 0;
        let mut i: usize = 0;
        while i < self.intervals.len()
            invariant
                i <= self.intervals.len(),
                measurable(self@),
                sum == largest_sum(self@.subrange(0, i as int)),
                0 <= sum <= i * 65535,
            decreases self.intervals.len() - i,
        {
            let interval = &self.intervals[i];
            assert(self@[i as int] == interval@);
            assert(self@.subrange(0, i + 1).drop_last() =~= self@.subrange(0, i as int));
            let span: usize = interval.end - interval.start;
            sum += span as i64;
            i += 1;
        }
        assert(self@.subrange(0, i as int) =~= self@);
        sum
    }

    /// Six times the average span of the path, rounded down.
    pub fn rule_largest_avgwordlen(&self) -> (avg: i64)
        requires
            measurable(self@),
        ensures
            avg == largest_avgwordlen(self@),
            0 <= avg <= 6 * MAX_TOTAL,
    {
        if self.intervals.len() == 0 {
            return 0;
        }
        let sum: i64 = self.rule_largest_sum();
        let count: i64 = self.intervals.len() as i64;
        // The factor 6 = 1 * 2 * 3 keeps the averages of short paths apart.
        let avg: i64 = 6 * sum / count;
        assert(0 <= (6 * sum) / (count as int) <= 6 * sum) by (nonlinear_arith)
            requires
                0 <= sum,
                count >= 1,
        ;
        avg
    }

    /// Minus the sum of the distances between the spans of every two intervals.
    pub fn rule_smallest_lenvariance(&self) -> (variance: i64)
        requires
            measurable(self@),
        ensures
            variance == smallest_lenvariance(self@),
            -65535 * MAX_TOTAL <= variance <= 0,
    {
        let len: usize = self.intervals.len();
        let mut total: i64 = 0;
        let mut j: usize = 0;
        while j < len
            invariant
                j <= len,
                len == self.intervals.len(),
                measurable(self@),
                total == spread(self@.subrange(0, j as int)),
                0 <= total <= j * MAX_TOTAL,
            decreases len - j,
        {
            let second = &self.intervals[j];
            assert(self@[j as int] == second@);
            let b: usize = second.len();
            let ghost base = total;
            let mut i: usize = 0;
            while i < j
                invariant
                    i <= j < len,
                    len == self.intervals.len(),
                    measurable(self@),
                    b == self@[j as int].span(),
                    total == base + distances_to(self@.subrange(0, i as int), b as int),
                    0 <= base <= j * MAX_TOTAL,
                    base <= total <= base + i * 65535,
                decreases j - i,
            {
                let first = &self.intervals[i];
                assert(self@[i as int] == first@);
                assert(self@.subrange(0, i + 1).drop_last() =~= self@.subrange(0, i as int));
                assert(self@.subrange(0, i + 1).last() == first@);
                let a: usize = first.len();
                let d: usize = if a <= b {
                    b - a
                } else {
                    a - b
                };
                total += d as i64;
                i += 1;
            }
            assert(self@.subrange(0, j + 1).drop_last() =~= self@.subrange(0, j as int));
            assert(self@.subrange(0, j + 1).last() == second@);
            j += 1;
        }
        assert(self@.subrange(0, j as int) =~= self@);
        -total
    }

    /// The sum of the weights of the phrases of the path.
    pub fn rule_largest_freqsum(&self) -> (sum: i64)
        requires
            measurable(self@),
        ensures
            sum == largest_freqsum(self@),
            0 <= sum <= 65535 * 0xffff_ffff,
    {
        let mut sum: i64 = 0;
        let mut i: usize = 0;
        while i < self.intervals.len()
            invariant
                i <= self.intervals.len(),
                measurable(self@),
                sum == largest_freqsum(self@.subrange(0, i as int)),
                0 <= sum <= i * 0xffff_ffff,
            decreases self.intervals.len() - i,
        {
            let interval = &self.intervals[i];
            assert(self@[i as int] == interval@);
            assert(self@.subrange(0, i + 1).drop_last() =~= self@.subrange(0, i as int));
            let reduction_factor: u32 = if interval.len() == 1 {
                512
            } else {
                1
            };
            let weight: u32 = interval.phrase.freq() / reduction_factor;
            sum += weight as i64;
            i += 1;
        }
        assert(self@.subrange(0, i as int) =~= self@);
        sum
    }
}

/// The ranges of the four rules on a measurable path.
pub proof fn lemma_rule_bounds(p: Seq<PossibleIntervalView>)
    requires
        measurable(p),
    ensures
        0 <= largest_sum(p) <= MAX_TOTAL,
        0 <= largest_avgwordlen(p) <= 6 * MAX_TOTAL,
        -65535 * MAX_TOTAL <= smallest_lenvariance(p) <= 0,
        0 <= largest_freqsum(p),
{
    lemma_sum_bounds(p);
    lemma_spread_bounds(p);
    lemma_freqsum_nonnegative(p);
    if p.len() > 0 {
        let sum = largest_sum(p);
        let count = p.len() as int;
        assert(0 <= (6 * sum) / count <= 6 * sum) by (nonlinear_arith)
            requires
                0 <= sum,
                count >= 1,
        ;
    }
}

proof fn lemma_sum_bounds(p: Seq<PossibleIntervalView>)
    requires
        forall|i: int| 0 <= i < p.len() ==> 0 <= (#[trigger] p[i]).span() <= MAX_SYLLABLES,
    ensures
        0 <= largest_sum(p) <= p.len() * 65535,
    decreases p.len(),
{
    if p.len() > 0 {
        lemma_sum_bounds(p.drop_last());
    }
}

/// The weights of a path add up to 0 or more.
pub proof fn lemma_freqsum_nonnegative(p: Seq<PossibleIntervalView>)
    ensures
        0 <= largest_freqsum(p),
    decreases p.len(),
{
    if p.len() > 0 {
        lemma_freqsum_nonnegative(p.drop_last());
    }
}

proof fn lemma_distances_bounds(p: Seq<PossibleIntervalView>, a: int)
    requires
        forall|i: int| 0 <= i < p.len() ==> 0 <= (#[trigger] p[i]).span() <= MAX_SYLLABLES,
        0 <= a <= MAX_SYLLABLES,
    ensures
        0 <= distances_to(p, a) <= p.len() * 65535,
    decreases p.len(),
{
    if p.len() > 0 {
        lemma_distances_bounds(p.drop_last(), a);
    }
}

proof fn lemma_spread_bounds(p: Seq<PossibleIntervalView>)
    requires
        measurable(p),
    ensures
        0 <= spread(p) <= p.len() * MAX_TOTAL,
    decreases p.len(),
{
    if p.len() > 0 {
        lemma_spread_bounds(p.drop_last());
        lemma_distances_bounds(p.drop_last(), p.last().span());
    }
}

/// Every path is as coarse as itself.
pub proof fn law_path_contains_itself(p: Seq<PossibleIntervalView>)
    ensures
        path_contains(p, p),
{
    let phi = Seq::new(p.len(), |k: int| k);
    assert(is_assignment(p, p, phi));
}

/// A path that is coarser than a second one, which is coarser than a third,
/// is coarser than the third.
pub proof fn law_path_contains_is_transitive(
    a: Seq<PossibleIntervalView>,
    b: Seq<PossibleIntervalView>,
    c: Seq<PossibleIntervalView>,
)
    requires
        path_contains(a, b),
        path_contains(b, c),
    ensures
        path_contains(a, c),
{
    let outer = choose|phi: Seq<int>| is_assignment(a, b, phi);
    let inner = choose|phi: Seq<int>| is_assignment(b, c, phi);
    let both = Seq::new(c.len(), |k: int| outer[inner[k]]);
    assert forall|k: int| 0 <= k < c.len() implies 0 <= #[trigger] both[k] < a.len()
        && a[both[k]].contains(c[k]) by {
        assert(0 <= inner[k] < b.len() && b[inner[k]].contains(c[k]));
        assert(0 <= outer[inner[k]] < a.len() && a[outer[inner[k]]].contains(b[inner[k]]));
    }
    assert forall|j: int, k: int| 0 <= j <= k < c.len() implies both[j] <= both[k] by {
        assert(0 <= inner[j] < b.len() && 0 <= inner[k] < b.len());
        assert(inner[j] <= inner[k]);
    }
    assert(is_assignment(a, c, both));
}

} // verus!
