use chewing::dictionary::{Phrase, PhraseTable};
use chewing::engine::ChewingConversionEngine;
use chewing::path::{PossibleInterval, PossiblePath};
use chewing::sequence::{Break, ChineseSequence, Interval, Syllable};

const B: u16 = 1 << 9;
const M: u16 = 3 << 9;
const D: u16 = 5 << 9;
const G: u16 = 9 << 9;
const K: u16 = 10 << 9;
const H: u16 = 11 << 9;
const X: u16 = 14 << 9;
const SH: u16 = 17 << 9;
const C: u16 = 20 << 9;
const I: u16 = 1 << 7;
const U: u16 = 2 << 7;
const A: u16 = 1 << 3;
const O: u16 = 2 << 3;
const E: u16 = 3 << 3;
const AI: u16 = 5 << 3;
const EI: u16 = 6 << 3;
const AU: u16 = 7 << 3;
const EN: u16 = 10 << 3;
const TONE2: u16 = 2;
const TONE3: u16 = 3;
const TONE4: u16 = 4;

/// Packs the parts of a syllable into one value: initial, medial, rime, tone.
fn syl(parts: &[u16]) -> Syllable {
    Syllable {
        value: parts.iter().sum(),
    }
}

fn entry(table: &mut PhraseTable, syllables: Vec<Syllable>, phrases: &[(&str, u32)]) {
    table.insert(
        syllables,
        phrases.iter().map(|(text, freq)| Phrase::new(text, *freq)).collect(),
    );
}

fn test_dictionary() -> PhraseTable {
    let mut table = PhraseTable::new();
    entry(&mut table, vec![syl(&[G, U, O, TONE2])], &[("國", 1)]);
    entry(&mut table, vec![syl(&[M, I, EN, TONE2])], &[("民", 1)]);
    entry(&mut table, vec![syl(&[D, A, TONE4])], &[("大", 1)]);
    entry(&mut table, vec![syl(&[H, U, EI, TONE4])], &[("會", 1)]);
    entry(&mut table, vec![syl(&[D, AI, TONE4])], &[("代", 1)]);
    entry(&mut table, vec![syl(&[B, I, AU, TONE3])], &[("表", 1)]);
    entry(
        &mut table,
        vec![syl(&[G, U, O, TONE2]), syl(&[M, I, EN, TONE2])],
        &[("國民", 200)],
    );
    entry(
        &mut table,
        vec![syl(&[D, A, TONE4]), syl(&[H, U, EI, TONE4])],
        &[("大會", 200)],
    );
    entry(
        &mut table,
        vec![syl(&[D, AI, TONE4]), syl(&[B, I, AU, TONE3])],
        &[("代表", 200), ("戴錶", 100)],
    );
    entry(&mut table, vec![syl(&[X, I, EN])], &[("心", 1)]);
    entry(
        &mut table,
        vec![syl(&[K, U, TONE4]), syl(&[I, EN])],
        &[("庫音", 300)],
    );
    entry(
        &mut table,
        vec![syl(&[X, I, EN]), syl(&[K, U, TONE4]), syl(&[I, EN])],
        &[("新酷音", 200)],
    );
    entry(
        &mut table,
        vec![syl(&[C, E, TONE4]), syl(&[SH, TONE4]), syl(&[I, TONE2])],
        &[("測試儀", 42)],
    );
    entry(
        &mut table,
        vec![syl(&[C, E, TONE4]), syl(&[SH, TONE4])],
        &[("測試", 9318)],
    );
    entry(
        &mut table,
        vec![syl(&[I, TONE2]), syl(&[X, I, A, TONE4])],
        &[("一下", 10576)],
    );
    entry(&mut table, vec![syl(&[X, I, A, TONE4])], &[("下", 10576)]);
    table
}

fn interval(start: usize, end: usize, phrase: &str) -> Interval {
    Interval {
        start,
        end,
        phrase: phrase.to_string(),
    }
}

fn national_assembly() -> Vec<Syllable> {
    vec![
        syl(&[G, U, O, TONE2]),
        syl(&[M, I, EN, TONE2]),
        syl(&[D, A, TONE4]),
        syl(&[H, U, EI, TONE4]),
        syl(&[D, AI, TONE4]),
        syl(&[B, I, AU, TONE3]),
    ]
}

#[test]
fn convert_empty_sequence() {
    let dict = test_dictionary();
    let engine = ChewingConversionEngine::new(dict);
    let sequence = ChineseSequence {
        syllables: vec![],
        selections: vec![],
        breaks: vec![],
    };
    assert_eq!(Vec::<Interval>::new(), engine.convert(&sequence));
}

#[test]
fn convert_simple_chinese_sequence() {
    let dict = test_dictionary();
    let engine = ChewingConversionEngine::new(dict);
    let sequence = ChineseSequence {
        syllables: vec![
            syl(&[G, U, O, TONE2]),
            syl(&[M, I, EN, TONE2]),
            syl(&[D, A, TONE4]),
            syl(&[H, U, EI, TONE4]),
            syl(&[D, AI, TONE4]),
            syl(&[B, I, AU, TONE3]),
        ],
        selections: vec![],
        breaks: vec![],
    };
    assert_eq!(
        vec![
            Interval {
                start: 0,
                end: 2,
                phrase: "國民".to_string()
            },
            Interval {
                start: 2,
                end: 4,
                phrase: "大會".to_string()
            },
            Interval {
                start: 4,
                end: 6,
                phrase: "代表".to_string()
            },
        ],
        engine.convert(&sequence)
    );
}

#[test]
fn convert_chinese_sequence_with_breaks() {
    let dict = test_dictionary();
    let engine = ChewingConversionEngine::new(dict);
    let sequence = ChineseSequence {
        syllables: vec![
            syl(&[G, U, O, TONE2]),
            syl(&[M, I, EN, TONE2]),
            syl(&[D, A, TONE4]),
            syl(&[H, U, EI, TONE4]),
            syl(&[D, AI, TONE4]),
            syl(&[B, I, AU, TONE3]),
        ],
        selections: vec![],
        breaks: vec![Break(1), Break(5)],
    };
    assert_eq!(
        vec![
            Interval {
                start: 0,
                end: 1,
                phrase: "國".to_string()
            },
            Interval {
                start: 1,
                end: 2,
                phrase: "民".to_string()
            },
            Interval {
                start: 2,
                end: 4,
                phrase: "大會".to_string()
            },
            Interval {
                start: 4,
                end: 5,
                phrase: "代".to_string()
            },
            Interval {
                start: 5,
                end: 6,
                phrase: "表".to_string()
            },
        ],
        engine.convert(&sequence)
    );
}

#[test]
fn convert_chinese_sequence_with_good_selection() {
    let dict = test_dictionary();
    let engine = ChewingConversionEngine::new(dict);
    let sequence = ChineseSequence {
        syllables: vec![
            syl(&[G, U, O, TONE2]),
            syl(&[M, I, EN, TONE2]),
            syl(&[D, A, TONE4]),
            syl(&[H, U, EI, TONE4]),
            syl(&[D, AI, TONE4]),
            syl(&[B, I, AU, TONE3]),
        ],
        selections: vec![Interval {
            start: 4,
            end: 6,
            phrase: "戴錶".to_string(),
        }],
        breaks: vec![],
    };
    assert_eq!(
        vec![
            Interval {
                start: 0,
                end: 2,
                phrase: "國民".to_string()
            },
            Interval {
                start: 2,
                end: 4,
                phrase: "大會".to_string()
            },
            Interval {
                start: 4,
                end: 6,
                phrase: "戴錶".to_string()
            },
        ],
        engine.convert(&sequence)
    );
}

#[test]
fn convert_chinese_sequence_with_substring_selection() {
    let dict = test_dictionary();
    let engine = ChewingConversionEngine::new(dict);
    let sequence = ChineseSequence {
        syllables: vec![syl(&[X, I, EN]), syl(&[K, U, TONE4]), syl(&[I, EN])],
        selections: vec![Interval {
            start: 1,
            end: 3,
            phrase: "酷音".to_string(),
        }],
        breaks: vec![],
    };
    assert_eq!(
        vec![Interval {
            start: 0,
            end: 3,
            phrase: "新酷音".to_string()
        },],
        engine.convert(&sequence)
    );
}

#[test]
fn convert_cycle_alternatives() {
    let dict = test_dictionary();
    let engine = ChewingConversionEngine::new(dict);
    let sequence = ChineseSequence {
        syllables: vec![
            syl(&[C, E, TONE4]),
            syl(&[SH, TONE4]),
            syl(&[I, TONE2]),
            syl(&[X, I, A, TONE4]),
        ],
        selections: vec![],
        breaks: vec![],
    };
    assert_eq!(
        vec![
            Interval {
                start: 0,
                end: 2,
                phrase: "測試".to_string()
            },
            Interval {
                start: 2,
                end: 4,
                phrase: "一下".to_string()
            }
        ],
        engine.convert_next(&sequence, 0)
    );
    assert_eq!(
        vec![
            Interval {
                start: 0,
                end: 3,
                phrase: "測試儀".to_string()
            },
            Interval {
                start: 3,
                end: 4,
                phrase: "下".to_string()
            }
        ],
        engine.convert_next(&sequence, 1)
    );
    assert_eq!(
        vec![
            Interval {
                start: 0,
                end: 2,
                phrase: "測試".to_string()
            },
            Interval {
                start: 2,
                end: 4,
                phrase: "一下".to_string()
            }
        ],
        engine.convert_next(&sequence, 2)
    );
}

#[test]
fn possible_path_contains() {
    let path_1 = PossiblePath {
        intervals: vec![
            PossibleInterval {
                start: 0,
                end: 2,
                phrase: Phrase::new("測試", 0),
            },
            PossibleInterval {
                start: 2,
                end: 4,
                phrase: Phrase::new("一下", 0),
            },
        ],
    };
    let path_2 = PossiblePath {
        intervals: vec![
            PossibleInterval {
                start: 0,
                end: 2,
                phrase: Phrase::new("測試", 0),
            },
            PossibleInterval {
                start: 2,
                end: 3,
                phrase: Phrase::new("遺", 0),
            },
            PossibleInterval {
                start: 3,
                end: 4,
                phrase: Phrase::new("下", 0),
            },
        ],
    };
    assert!(path_1.contains(&path_2));
}

#[test]
fn convert_next_of_empty_sequence_is_empty() {
    let engine = ChewingConversionEngine::new(test_dictionary());
    let sequence = ChineseSequence {
        syllables: vec![],
        selections: vec![],
        breaks: vec![],
    };
    assert_eq!(Vec::<Interval>::new(), engine.convert_next(&sequence, 0));
    assert_eq!(Some(vec![]), engine.try_convert_next(&sequence, 5));
}

#[test]
fn conversion_covers_the_input_contiguously() {
    let engine = ChewingConversionEngine::new(test_dictionary());
    let sequence = ChineseSequence {
        syllables: national_assembly(),
        selections: vec![],
        breaks: vec![Break(3)],
    };
    let best = engine.convert(&sequence);
    assert_eq!(
        vec![
            interval(0, 2, "國民"),
            interval(2, 3, "大"),
            interval(3, 4, "會"),
            interval(4, 6, "代表"),
        ],
        best
    );
    let mut position = 0;
    for it in &best {
        assert_eq!(position, it.start);
        assert!(it.start < it.end);
        assert_eq!(it.end - it.start, it.phrase.chars().count());
        assert!(!(it.start < 3 && 3 < it.end));
        position = it.end;
    }
    assert_eq!(6, position);
}

#[test]
fn selection_inside_a_longer_phrase_is_honoured() {
    let engine = ChewingConversionEngine::new(test_dictionary());
    let sequence = ChineseSequence {
        syllables: vec![syl(&[X, I, EN]), syl(&[K, U, TONE4]), syl(&[I, EN])],
        selections: vec![interval(1, 3, "庫音")],
        breaks: vec![],
    };
    // "新酷音" shows other characters at the selection's place, so it is out.
    assert_eq!(
        vec![interval(0, 1, "心"), interval(1, 3, "庫音")],
        engine.convert(&sequence)
    );
}

#[test]
fn cycling_wraps_after_the_last_alternative() {
    let engine = ChewingConversionEngine::new(test_dictionary());
    let sequence = ChineseSequence {
        syllables: vec![
            syl(&[C, E, TONE4]),
            syl(&[SH, TONE4]),
            syl(&[I, TONE2]),
            syl(&[X, I, A, TONE4]),
        ],
        selections: vec![],
        breaks: vec![],
    };
    let alternatives = engine.find_alternatives(&sequence);
    assert_eq!(2, alternatives.len());
    for k in 0..5 {
        assert_eq!(
            engine.convert_next(&sequence, k),
            engine.convert_next(&sequence, k + 2)
        );
    }
    assert_eq!(engine.convert(&sequence), engine.convert_next(&sequence, 0));
    assert_eq!(engine.convert(&sequence), engine.convert(&sequence));
}

#[test]
fn no_alternative_where_nothing_covers_the_input() {
    let engine = ChewingConversionEngine::new(test_dictionary());
    let sequence = ChineseSequence {
        syllables: vec![syl(&[K, U, TONE4])],
        selections: vec![],
        breaks: vec![],
    };
    assert_eq!(None, engine.try_convert_next(&sequence, 0));
    assert_eq!(Vec::<Interval>::new(), engine.convert(&sequence));
}

#[test]
fn best_path_may_start_after_an_uncovered_prefix() {
    let x = Syllable { value: 1 };
    let y = Syllable { value: 2 };
    let z = Syllable { value: 3 };
    let mut table = PhraseTable::new();
    table.insert(vec![x, y, z], vec![Phrase::new("甲乙丙", 1)]);
    table.insert(vec![y, z], vec![Phrase::new("乙丙", 10000)]);
    let engine = ChewingConversionEngine::new(table);
    let sequence = ChineseSequence {
        syllables: vec![x, y, z],
        selections: vec![],
        breaks: vec![],
    };
    assert_eq!(vec![interval(1, 3, "乙丙")], engine.convert(&sequence));
    assert_eq!(
        Some(vec![interval(0, 3, "甲乙丙")]),
        engine.try_convert_next(&sequence, 0)
    );
}

#[test]
fn selection_may_be_split_where_no_phrase_reaches_over_it() {
    let engine = ChewingConversionEngine::new(test_dictionary());
    let sequence = ChineseSequence {
        syllables: vec![syl(&[D, A, TONE4]), syl(&[G, U, O, TONE2])],
        selections: vec![interval(0, 2, "大國")],
        breaks: vec![],
    };
    // No phrase is listed for the two syllables together, and a phrase of
    // one syllable does not reach over the selection.
    assert_eq!(
        vec![interval(0, 1, "大"), interval(1, 2, "國")],
        engine.convert(&sequence)
    );
}

#[test]
fn first_alternative_may_outscore_the_best_path() {
    let keys: Vec<Syllable> = (1..=6).map(|value| Syllable { value }).collect();
    let mut table = PhraseTable::new();
    table.insert(keys[0..1].to_vec(), vec![Phrase::new("甲", 0)]);
    table.insert(keys[0..2].to_vec(), vec![Phrase::new("甲乙", 0)]);
    table.insert(keys[2..4].to_vec(), vec![Phrase::new("丙丁", 0)]);
    table.insert(keys[1..4].to_vec(), vec![Phrase::new("乙丙丁", 300)]);
    table.insert(keys[4..6].to_vec(), vec![Phrase::new("戊己", 0)]);
    let engine = ChewingConversionEngine::new(table);
    let sequence = ChineseSequence {
        syllables: keys,
        selections: vec![],
        breaks: vec![],
    };
    // At position 4 the path 甲|乙丙丁 (16100) beats 甲乙|丙丁 (16000), so the
    // best path goes on from it; with 戊己 added the order is the other way.
    assert_eq!(
        vec![
            interval(0, 1, "甲"),
            interval(1, 4, "乙丙丁"),
            interval(4, 6, "戊己"),
        ],
        engine.convert(&sequence)
    );
    assert_eq!(
        vec![
            interval(0, 2, "甲乙"),
            interval(2, 4, "丙丁"),
            interval(4, 6, "戊己"),
        ],
        engine.convert_next(&sequence, 0)
    );
    assert_eq!(engine.convert(&sequence), engine.convert_next(&sequence, 1));
    let found = engine.find_alternatives(&sequence);
    assert_eq!(
        vec![18000, 17900],
        found.iter().map(|p| p.score()).collect::<Vec<i64>>()
    );
}

#[test]
fn alternatives_of_equal_score_come_in_reverse_path_order() {
    let keys: Vec<Syllable> = (1..=3).map(|value| Syllable { value }).collect();
    let mut table = PhraseTable::new();
    table.insert(keys[0..1].to_vec(), vec![Phrase::new("甲", 0)]);
    table.insert(keys[1..3].to_vec(), vec![Phrase::new("乙丙", 5)]);
    table.insert(keys[0..2].to_vec(), vec![Phrase::new("甲乙", 5)]);
    table.insert(keys[2..3].to_vec(), vec![Phrase::new("丙", 0)]);
    let engine = ChewingConversionEngine::new(table);
    let sequence = ChineseSequence {
        syllables: keys,
        selections: vec![],
        breaks: vec![],
    };
    let found = engine.find_alternatives(&sequence);
    assert_eq!(
        vec![11905, 11905],
        found.iter().map(|p| p.score()).collect::<Vec<i64>>()
    );
    assert_eq!(
        vec![interval(0, 2, "甲乙"), interval(2, 3, "丙")],
        engine.convert_next(&sequence, 0)
    );
    assert_eq!(
        vec![interval(0, 1, "甲"), interval(1, 3, "乙丙")],
        engine.convert_next(&sequence, 1)
    );
    // The best path keeps the first of two proposals that score alike.
    assert_eq!(
        vec![interval(0, 1, "甲"), interval(1, 3, "乙丙")],
        engine.convert(&sequence)
    );
}
