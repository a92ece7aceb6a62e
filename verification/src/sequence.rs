//! The input of a conversion: syllables, committed selections and break points.
use vstd::prelude::*;

verus! {

/// The longest input the engine accepts. Positions up to this bound keep every
/// path score inside an `i64` and let a pair of positions share one table key.
pub const MAX_SYLLABLES: usize = 65535;

/// One phonetic token of the input. The engine only compares tokens for equality.
#[derive(Clone, Copy, Debug, PartialEq, Eq, Hash, Structural)]
pub struct Syllable {
    pub value: u16,
}

/// A position that no phrase may span: a break at `p` forbids `[i, j)` with `i < p < j`.
#[derive(Clone, Copy, Debug, PartialEq, Eq, Hash, Structural)]
pub struct Break(pub usize);

/// A segment `[start, end)` of the input together with the characters chosen for it.
#[derive(Clone, Debug, PartialEq, Eq)]
pub struct Interval {
    pub start: usize,
    pub end: usize,
    pub phrase: String,
}

/// The mathematical content of an [`Interval`].
pub struct IntervalView {
    pub start: int,
    pub end: int,
    pub phrase: Seq<char>,
}

impl View for Interval {
    type V = IntervalView;

    open spec fn view(&self) -> IntervalView {
        IntervalView { start: self.start as int, end: self.end as int, phrase: self.phrase@ }
    }
}

impl DeepView for Interval {
    type V = IntervalView;

    open spec fn deep_view(&self) -> IntervalView {
        self@
    }
}

/// What the user has typed and committed so far.
#[derive(Clone, Debug)]
pub struct ChineseSequence {
    pub syllables: Vec<Syllable>,
    pub selections: Vec<Interval>,
    pub breaks: Vec<Break>,
}

/// The mathematical content of a [`ChineseSequence`].
pub struct SequenceView {
    pub syllables: Seq<Syllable>,
    pub selections: Seq<IntervalView>,
    pub breaks: Seq<Break>,
}

impl View for ChineseSequence {
    type V = SequenceView;

    open spec fn view(&self) -> SequenceView {
        SequenceView {
            syllables: self.syllables@,
            selections: self.selections.deep_view(),
            breaks: self.breaks@,
        }
    }
}

impl SequenceView {
    /// Whether the engine accepts the sequence: the input is at most
    /// [`MAX_SYLLABLES`] long and every selection is a proper segment of it.
    pub open spec fn accepted(self) -> bool {
        &&& self.syllables.len() <= MAX_SYLLABLES
        &&& forall|i: int|
            0 <= i < self.selections.len() ==> {
                &&& 0 <= (#[trigger] self.selections[i]).start < self.selections[i].end
                &&& self.selections[i].end <= self.syllables.len()
            }
    }
}

impl ChineseSequence {
    /// Tests the condition under which the engine accepts the sequence.
    pub fn is_accepted(&self) -> (ok: bool)
        ensures
            ok == self@.accepted(),
    {
        if self.syllables.len() > MAX_SYLLABLES {
            return false;
        }
        let mut i: usize = 0;
        while i < self.selections.len()
            invariant
                i <= self.selections.len(),
                self.syllables.len() <= MAX_SYLLABLES,
                forall|k: int|
                    0 <= k < i ==> {
                        &&& 0 <= (#[trigger] self@.selections[k]).start < self@.selections[k].end
                        &&& self@.selections[k].end <= self@.syllables.len()
                    },
            decreases self.selections.len() - i,
        {
            let s = &self.selections[i];
            if !(s.start < s.end && s.end <= self.syllables.len()) {
                assert(self@.selections[i as int] == s@);
                return false;
            }
            assert(self@.selections[i as int] == s@);
            i += 1;
        }
        true
    }
}

} // verus!
