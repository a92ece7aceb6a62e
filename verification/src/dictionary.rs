//! Phrases and the dictionary that supplies them.
use crate::sequence::Syllable;
use vstd::prelude::*;

verus! {

/// A dictionary entry: the characters of a phrase and its relative weight.
#[derive(Debug, PartialEq, Eq)]
pub struct Phrase {
    text: String,
    freq: u32,
}

/// The mathematical content of a [`Phrase`].
pub struct PhraseView {
    pub text: Seq<char>,
    pub freq: nat,
}

impl View for Phrase {
    type V = PhraseView;

    open spec fn view(&self) -> PhraseView {
        PhraseView { text: self.spec_text(), freq: self.spec_freq() as nat }
    }
}

impl DeepView for Phrase {
    type V = PhraseView;

    open spec fn deep_view(&self) -> PhraseView {
        self@
    }
}

impl Clone for Phrase {
    fn clone(&self) -> (copy: Self)
        ensures
            copy == *self,
    {
        Phrase { text: self.text.clone(), freq: self.freq }
    }
}

impl Phrase {
    /// The characters of the phrase as a string.
    pub closed spec fn spec_string(&self) -> String {
        self.text
    }

    /// The characters of the phrase.
    pub open spec fn spec_text(&self) -> Seq<char> {
        self.spec_string()@
    }

    /// The weight of the phrase.
    pub closed spec fn spec_freq(&self) -> u32 {
        self.freq
    }

    /// A phrase of the characters `text` with the weight `freq`.
    pub fn new(text: &str, freq: u32) -> (phrase: Phrase)
        ensures
            phrase@ == (PhraseView { text: text@, freq: freq as nat }),
    {
        Phrase { text: text.to_owned(), freq }
    }

    /// The weight of the phrase.
    #[verifier::when_used_as_spec(spec_freq)]
    pub fn freq(&self) -> (freq: u32)
        ensures
            freq == self.spec_freq(),
    {
        self.freq
    }

    /// The characters of the phrase.
    pub fn as_str(&self) -> (text: &str)
        ensures
            text@ == self@.text,
    {
        self.text.as_str()
    }

    /// The characters of the phrase as an owned string.
    pub fn to_string(&self) -> (text: String)
        ensures
            text == self.spec_string(),
            text@ == self@.text,
    {
        self.text.clone()
    }
}

/// The source of candidate phrases. A dictionary answers every query from a
/// fixed snapshot: the phrases listed for a syllable sequence, in a fixed order,
/// are a function of that sequence alone.
pub trait Dictionary {
    /// The phrases that the snapshot lists for `syllables`, in lookup order.
    spec fn entries(&self, syllables: Seq<Syllable>) -> Seq<PhraseView>;

    /// Looks up the phrases listed for `syllables`.
    fn lookup_phrase(&self, syllables: &[Syllable]) -> (found: Vec<Phrase>)
        ensures
            found.deep_view() == self.entries(syllables@),
    ;
}

/// Whether every phrase the dictionary lists has one character per syllable
/// of its key.
pub open spec fn one_character_per_syllable<D: Dictionary>(dict: D) -> bool {
    forall|syllables: Seq<Syllable>, i: int|
        0 <= i < dict.entries(syllables).len() ==> (#[trigger] dict.entries(
            syllables,
        )[i]).text.len() == syllables.len()
}

/// Compares two syllable sequences.
pub fn same_syllables(a: &[Syllable], b: &[Syllable]) -> (same: bool)
    ensures
        same == (a@ == b@),
{
    if a.len() != b.len() {
        return false;
    }
    let mut i: usize = 0;
    while i < a.len()
        invariant
            i <= a.len(),
            a.len() == b.len(),
            forall|k: int| 0 <= k < i ==> a@[k] == b@[k],
        decreases a.len() - i,
    {
        if a[i].value != b[i].value {
            return false;
        }
        i += 1;
    }
    assert(a@ =~= b@);
    true
}

/// Copies a list of phrases.
pub fn copy_phrases(phrases: &Vec<Phrase>) -> (copy: Vec<Phrase>)
    ensures
        copy@ == phrases@,
{
    let mut copy: Vec<Phrase> = Vec::new();
    let mut i: usize = 0;
    while i < phrases.len()
        invariant
            i <= phrases.len(),
            copy@ == phrases@.subrange(0, i as int),
        decreases phrases.len() - i,
    {
        copy.push(phrases[i].clone());
        assert(copy@ =~= phrases@.subrange(0, i + 1));
        i += 1;
    }
    assert(copy@ =~= phrases@);
    copy
}

/// One row of a [`PhraseTable`]: a key and the phrases listed under it.
pub struct TableRow {
    pub syllables: Vec<Syllable>,
    pub phrases: Vec<Phrase>,
}

/// A dictionary held in memory as a list of rows. A key inserted twice keeps
/// the phrases of the later insertion.
pub struct PhraseTable {
    rows: Vec<TableRow>,
}

/// The phrases of the first row of `rows` whose key is `syllables`, if any.
pub open spec fn first_match(rows: Seq<TableRow>, syllables: Seq<Syllable>) -> Seq<PhraseView>
    decreases rows.len(),
{
    if rows.len() == 0 {
        Seq::empty()
    } else if rows[0].syllables@ == syllables {
        rows[0].phrases.deep_view()
    } else {
        first_match(rows.skip(1), syllables)
    }
}

impl PhraseTable {
    /// The rows of the table, in insertion order of their keys.
    pub closed spec fn rows(&self) -> Seq<TableRow> {
        self.rows@
    }

    /// A table without rows.
    pub fn new() -> (table: PhraseTable)
        ensures
            table.rows() == Seq::<TableRow>::empty(),
            forall|syllables: Seq<Syllable>| #[trigger]
                table.entries(syllables) == Seq::<PhraseView>::empty(),
    {
        PhraseTable { rows: Vec::new() }
    }

    /// Lists `phrases` under `syllables`, in place of what was listed there before.
    pub fn insert(&mut self, syllables: Vec<Syllable>, phrases: Vec<Phrase>)
        ensures
            final(self).entries(syllables@) == phrases.deep_view(),
            forall|other: Seq<Syllable>|
                other != syllables@ ==> #[trigger] final(self).entries(other) == old(self).entries(
                    other,
                ),
    {
        let ghost before = self.rows@;
        let ghost key = syllables@;
        let ghost listed = phrases.deep_view();
        let mut i: usize = 0;
        while i < self.rows.len()
            invariant
                i <= self.rows.len(),
                self.rows@ == before,
                old(self).rows@ == before,
                syllables@ == key,
                phrases.deep_view() == listed,
                forall|k: int| 0 <= k < i ==> before[k].syllables@ != key,
            decreases self.rows.len() - i,
        {
            if same_syllables(self.rows[i].syllables.as_slice(), syllables.as_slice()) {
                let row = TableRow { syllables, phrases };
                assert(row.phrases.deep_view() == listed && row.syllables@ == key);
                self.rows.set(i, row);
                proof {
                    lemma_replace_row(before, self.rows@, i as int, key, listed);
                }
                return ;
            }
            i += 1;
        }
        let row = TableRow { syllables, phrases };
        assert(row.phrases.deep_view() == listed && row.syllables@ == key);
        self.rows.push(row);
        proof {
            lemma_append_row(before, self.rows@, key, listed);
        }
    }
}

/// Replacing the first row that holds `key` changes the answer for `key` only.
proof fn lemma_replace_row(
    before: Seq<TableRow>,
    after: Seq<TableRow>,
    i: int,
    key: Seq<Syllable>,
    listed: Seq<PhraseView>,
)
    requires
        0 <= i < before.len(),
        after.len() == before.len(),
        forall|k: int| 0 <= k < before.len() && k != i ==> after[k] == before[k],
        forall|k: int| 0 <= k < i ==> before[k].syllables@ != key,
        before[i].syllables@ == key,
        after[i].syllables@ == key,
        after[i].phrases.deep_view() == listed,
    ensures
        first_match(after, key) == listed,
        forall|other: Seq<Syllable>|
            other != key ==> #[trigger] first_match(after, other) == first_match(before, other),
    decreases before.len(),
{
    if i == 0 {
        assert(after.skip(1) =~= before.skip(1));
    } else {
        lemma_replace_row(before.skip(1), after.skip(1), i - 1, key, listed);
        assert(after[0] == before[0]);
    }
    assert forall|other: Seq<Syllable>| other != key implies #[trigger] first_match(after, other)
        == first_match(before, other) by {
        if i > 0 {
            assert(first_match(after.skip(1), other) == first_match(before.skip(1), other));
        }
    }
}

/// Appending a row for a key that no row holds changes the answer for that key only.
proof fn lemma_append_row(
    before: Seq<TableRow>,
    after: Seq<TableRow>,
    key: Seq<Syllable>,
    listed: Seq<PhraseView>,
)
    requires
        after.len() == before.len() + 1,
        forall|k: int| 0 <= k < before.len() ==> after[k] == before[k],
        forall|k: int| 0 <= k < before.len() ==> before[k].syllables@ != key,
        after[before.len() as int].syllables@ == key,
        after[before.len() as int].phrases.deep_view() == listed,
    ensures
        first_match(after, key) == listed,
        forall|other: Seq<Syllable>|
            other != key ==> #[trigger] first_match(after, other) == first_match(before, other),
    decreases before.len(),
{
    if before.len() == 0 {
        assert(after.skip(1).len() == 0);
    } else {
        lemma_append_row(before.skip(1), after.skip(1), key, listed);
        assert(after[0] == before[0]);
    }
    assert forall|other: Seq<Syllable>| other != key implies #[trigger] first_match(after, other)
        == first_match(before, other) by {
        if before.len() > 0 {
            assert(first_match(after.skip(1), other) == first_match(before.skip(1), other));
        } else {
            assert(first_match(after.skip(1), other) == Seq::<PhraseView>::empty());
        }
    }
}

impl Dictionary for PhraseTable {
    open spec fn entries(&self, syllables: Seq<Syllable>) -> Seq<PhraseView> {
        first_match(self.rows(), syllables)
    }

    fn lookup_phrase(&self, syllables: &[Syllable]) -> (found: Vec<Phrase>) {
        let mut i: usize = 0;
        assert(self.rows@.skip(0) =~= self.rows@);
        while i < self.rows.len()
            invariant
                i <= self.rows.len(),
                first_match(self.rows@, syllables@) == first_match(
                    self.rows@.skip(i as int),
                    syllables@,
                ),
            decreases self.rows.len() - i,
        {
            assert(self.rows@.skip(i as int)[0] == self.rows@[i as int]);
            if same_syllables(self.rows[i].syllables.as_slice(), syllables) {
                let found = copy_phrases(&self.rows[i].phrases);
                assert(found.deep_view() =~= self.rows@[i as int].phrases.deep_view());
                return found;
            }
            assert(self.rows@.skip(i as int).skip(1) =~= self.rows@.skip(i + 1));
            i += 1;
        }
        let found: Vec<Phrase> = Vec::new();
        assert(found.deep_view() =~= Seq::<PhraseView>::empty());
        found
    }
}

} // verus!
