//! Paths written out as text.
use crate::path::{measurable, score, PossibleIntervalView, PossiblePath};
use vstd::prelude::*;
use vstd::string::StringExecFns;

verus! {

/// The numeral of a digit.
pub open spec fn digit_text(d: int) -> Seq<char> {
    if d == 0 {
        "0"@
    } else if d == 1 {
        "1"@
    } else if d == 2 {
        "2"@
    } else if d == 3 {
        "3"@
    } else if d == 4 {
        "4"@
    } else if d == 5 {
        "5"@
    } else if d == 6 {
        "6"@
    } else if d == 7 {
        "7"@
    } else if d == 8 {
        "8"@
    } else {
        "9"@
    }
}

/// The decimal numeral of a number that is not negative.
pub open spec fn numeral(n: int) -> Seq<char>
    decreases n,
{
    if n < 10 {
        digit_text(n)
    } else {
        numeral(n / 10) + digit_text(n % 10)
    }
}

/// The decimal numeral of an integer, with a minus sign where it is negative.
pub open spec fn decimal(n: int) -> Seq<char> {
    if n < 0 {
        "-"@ + numeral(-n)
    } else {
        numeral(n)
    }
}

/// One interval as text: its bounds and its phrase.
pub open spec fn interval_text(interval: PossibleIntervalView) -> Seq<char> {
    " ("@ + decimal(interval.start) + " "@ + decimal(interval.end) + " '"@
        + interval.phrase.text + ")"@
}

/// The intervals of a path as text, one after the other.
pub open spec fn intervals_text(p: Seq<PossibleIntervalView>) -> Seq<char>
    decreases p.len(),
{
    if p.len() == 0 {
        Seq::empty()
    } else {
        intervals_text(p.drop_last()) + interval_text(p.last())
    }
}

/// A path as text: its score, then its intervals.
pub open spec fn path_text(p: Seq<PossibleIntervalView>) -> Seq<char> {
    "#PossiblePath("@ + decimal(score(p)) + intervals_text(p) + ")"@
}

fn digit_str(d: u64) -> (text: &'static str)
    requires
        d < 10,
    ensures
        text@ == digit_text(d as int),
{
    if d == 0 {
        "0"
    } else if d == 1 {
        "1"
    } else if d == 2 {
        "2"
    } else if d == 3 {
        "3"
    } else if d == 4 {
        "4"
    } else if d == 5 {
        "5"
    } else if d == 6 {
        "6"
    } else if d == 7 {
        "7"
    } else if d == 8 {
        "8"
    } else {
        "9"
    }
}

/// Writes the decimal numeral of `n` at the end of `text`.
pub fn append_numeral(text: &mut String, n: u64)
    ensures
        final(text)@ == old(text)@ + numeral(n as int),
    decreases n,
{
    if n >= 10 {
        append_numeral(text, n / 10);
    }
    text.append(digit_str(n % 10));
    proof {
        if n >= 10 {
            assert(old(text)@ + numeral(n as int / 10) + digit_text(n as int % 10) =~= old(text)@
                + numeral(n as int));
        }
    }
}

/// Writes the decimal numeral of `n` at the end of `text`.
pub fn append_decimal(text: &mut String, n: i64)
    ensures
        final(text)@ == old(text)@ + decimal(n as int),
{
    if n < 0 {
        text.append("-");
        let magnitude: u64 = (-(n + 1)) as u64 + 1;
        append_numeral(text, magnitude);
        assert(old(text)@ + "-"@ + numeral(-n) =~= old(text)@ + decimal(n as int));
    } else {
        append_numeral(text, n as u64);
    }
}

impl PossiblePath {
    /// The path as text: `#PossiblePath(`, the score, for each interval a
    /// space and, in round brackets, its start, its end and its phrase after
    /// an apostrophe, and `)`.
    pub fn to_string(&self) -> (text: String)
        requires
            measurable(self@),
        ensures
            text@ == path_text(self@),
    {
        let mut text: String = "#PossiblePath(".to_owned();
        append_decimal(&mut text, self.score());
        let ghost head = text@;
        assert(head + intervals_text(self@.subrange(0, 0)) =~= head);
        let mut i: usize = 0;
        while i < self.intervals.len()
            invariant
                i <= self.intervals.len(),
                text@ == head + intervals_text(self@.subrange(0, i as int)),
            decreases self.intervals.len() - i,
        {
            let interval = &self.intervals[i];
            let ghost before = text@;
            text.append(" (");
            append_numeral(&mut text, interval.start as u64);
            text.append(" ");
            append_numeral(&mut text, interval.end as u64);
            text.append(" '");
            text.append(interval.phrase.as_str());
            text.append(")");
            proof {
                assert(self@[i as int] == interval@);
                assert(self@.subrange(0, i + 1).drop_last() =~= self@.subrange(0, i as int));
                assert(self@.subrange(0, i + 1).last() == interval@);
                assert(text@ =~= before + interval_text(interval@));
                assert(text@ =~= head + intervals_text(self@.subrange(0, i + 1)));
            }
            i += 1;
        }
        assert(self@.subrange(0, i as int) =~= self@);
        text.append(")");
        assert(text@ =~= path_text(self@));
        text
    }
}

} // verus!
