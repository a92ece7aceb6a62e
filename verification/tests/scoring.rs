use chewing::alternatives::Graph;
use chewing::candidate::{honours_all, is_cut, window_matches};
use chewing::dictionary::{same_syllables, Dictionary, Phrase, PhraseTable};
use chewing::engine::{reverse_paths, sort_paths, ChewingConversionEngine};
use chewing::path::{PossibleInterval, PossiblePath};
use chewing::sequence::{Break, ChineseSequence, Interval, Syllable, MAX_SYLLABLES};

fn step(start: usize, end: usize, text: &str, freq: u32) -> PossibleInterval {
    PossibleInterval {
        start,
        end,
        phrase: Phrase::new(text, freq),
    }
}

fn path(steps: Vec<PossibleInterval>) -> PossiblePath {
    PossiblePath { intervals: steps }
}

fn bounds(path: &PossiblePath) -> Vec<(usize, usize)> {
    path.intervals.iter().map(|it| (it.start, it.end)).collect()
}

fn s(value: u16) -> Syllable {
    Syllable { value }
}

fn small_dictionary() -> PhraseTable {
    let mut table = PhraseTable::new();
    table.insert(vec![s(1)], vec![Phrase::new("一", 5)]);
    table.insert(vec![s(2)], vec![Phrase::new("二", 5)]);
    table.insert(vec![s(3)], vec![Phrase::new("三", 5)]);
    table.insert(
        vec![s(1), s(2)],
        vec![
            Phrase::new("甲乙", 7),
            Phrase::new("丙丁", 9),
            Phrase::new("戊己", 9),
        ],
    );
    table.insert(vec![s(2), s(3)], vec![Phrase::new("庚辛", 3)]);
    table
}

#[test]
fn score_of_three_even_phrases() {
    let p = path(vec![
        step(0, 2, "國民", 200),
        step(2, 4, "大會", 200),
        step(4, 6, "代表", 200),
    ]);
    assert_eq!(6, p.rule_largest_sum());
    assert_eq!(12, p.rule_largest_avgwordlen());
    assert_eq!(0, p.rule_smallest_lenvariance());
    assert_eq!(600, p.rule_largest_freqsum());
    assert_eq!(18600, p.score());
}

#[test]
fn score_of_uneven_phrases() {
    let p = path(vec![step(0, 3, "測試儀", 42), step(3, 4, "下", 10576)]);
    assert_eq!(4, p.rule_largest_sum());
    assert_eq!(12, p.rule_largest_avgwordlen());
    assert_eq!(-2, p.rule_smallest_lenvariance());
    // A phrase of one syllable counts a 512th of its weight.
    assert_eq!(42 + 20, p.rule_largest_freqsum());
    assert_eq!(4000 + 12000 - 200 + 62, p.score());
}

#[test]
fn average_word_length_rounds_down() {
    let p = path(vec![
        step(0, 1, "一", 0),
        step(1, 2, "二", 0),
        step(2, 5, "三四五", 0),
        step(5, 7, "六七", 0),
    ]);
    assert_eq!(7, p.rule_largest_sum());
    assert_eq!(10, p.rule_largest_avgwordlen());
    // |1-1| + |1-3| + |1-2| + |1-3| + |1-2| + |3-2|
    assert_eq!(-7, p.rule_smallest_lenvariance());
    assert_eq!(7000 + 10000 - 700, p.score());
}

#[test]
fn score_of_the_empty_path_is_zero() {
    let p = PossiblePath::default();
    assert_eq!(0, p.rule_largest_avgwordlen());
    assert_eq!(0, p.score());
}

#[test]
fn score_does_not_overflow_on_heavy_phrases() {
    let p = path(vec![
        step(0, 2, "甲乙", u32::MAX),
        step(2, 4, "丙丁", u32::MAX),
    ]);
    assert_eq!(4000 + 12000 + 2 * 4294967295i64, p.score());
}

#[test]
fn interval_contains_and_len() {
    let outer = step(1, 5, "甲乙丙丁", 0);
    let inner = step(2, 5, "乙丙丁", 0);
    assert!(outer.contains(&inner));
    assert!(!inner.contains(&outer));
    assert!(outer.contains(&outer));
    assert_eq!(4, outer.len());
    assert_eq!(
        Interval {
            start: 2,
            end: 5,
            phrase: "乙丙丁".to_string()
        },
        Interval::from(inner)
    );
}

#[test]
fn path_contains_needs_every_interval_inside() {
    let coarse = path(vec![step(0, 2, "甲乙", 0), step(2, 4, "丙丁", 0)]);
    let crossing = path(vec![step(0, 1, "甲", 0), step(1, 3, "乙丙", 0), step(3, 4, "丁", 0)]);
    assert!(!coarse.contains(&crossing));
    assert!(!crossing.contains(&coarse));
    assert!(coarse.contains(&coarse));
    assert!(coarse.contains(&PossiblePath::default()));
    assert!(!PossiblePath::default().contains(&coarse));
}

#[test]
fn path_contains_never_steps_back() {
    let big = path(vec![step(2, 4, "丙丁", 0), step(0, 2, "甲乙", 0)]);
    let forward = path(vec![step(2, 3, "丙", 0), step(0, 1, "甲", 0)]);
    let backward = path(vec![step(0, 1, "甲", 0), step(2, 3, "丙", 0)]);
    assert!(big.contains(&forward));
    assert!(!big.contains(&backward));
}

#[test]
fn best_phrase_is_the_first_of_the_heaviest() {
    let engine = ChewingConversionEngine::new(small_dictionary());
    let best = engine.find_best_phrase(0, &[s(1), s(2)], &[], &[]);
    assert_eq!(Some(Phrase::new("丙丁", 9)), best);
}

#[test]
fn best_phrase_respects_breaks_and_selections() {
    let engine = ChewingConversionEngine::new(small_dictionary());
    assert_eq!(None, engine.find_best_phrase(0, &[s(1), s(2)], &[], &[Break(1)]));
    // A break at either end of the segment does not cut it.
    assert_eq!(
        Some(Phrase::new("丙丁", 9)),
        engine.find_best_phrase(0, &[s(1), s(2)], &[], &[Break(0), Break(2)])
    );
    let chosen = [Interval {
        start: 4,
        end: 5,
        phrase: "乙".to_string(),
    }];
    assert_eq!(
        Some(Phrase::new("甲乙", 7)),
        engine.find_best_phrase(3, &[s(1), s(2)], &chosen, &[])
    );
    let elsewhere = [Interval {
        start: 4,
        end: 6,
        phrase: "乙".to_string(),
    }];
    assert_eq!(
        Some(Phrase::new("丙丁", 9)),
        engine.find_best_phrase(3, &[s(1), s(2)], &elsewhere, &[])
    );
    let unknown = [Interval {
        start: 3,
        end: 5,
        phrase: "子丑".to_string(),
    }];
    assert_eq!(None, engine.find_best_phrase(3, &[s(1), s(2)], &unknown, &[]));
    assert_eq!(None, engine.find_best_phrase(0, &[s(9)], &[], &[]));
}

#[test]
fn window_is_cut_short_by_the_end_of_the_text() {
    assert!(window_matches("新酷音", 1, 2, &"酷音".to_string()));
    assert!(!window_matches("新酷音", 1, 2, &"庫音".to_string()));
    assert!(window_matches("新酷音", 2, 5, &"音".to_string()));
    assert!(window_matches("新酷音", 7, 1, &String::new()));
    assert!(window_matches("新酷音", 0, 0, &String::new()));
    assert!(honours_all("新酷音", 0, 3, &[]));
    assert!(is_cut(0, 2, &[Break(1)]));
    assert!(!is_cut(0, 2, &[Break(0), Break(2), Break(3)]));
}

#[test]
fn grid_lists_candidates_by_start_then_end() {
    let engine = ChewingConversionEngine::new(small_dictionary());
    let sequence = ChineseSequence {
        syllables: vec![s(1), s(2), s(3)],
        selections: vec![],
        breaks: vec![],
    };
    let grid = engine.find_intervals(&sequence);
    let found: Vec<(usize, usize, String)> = grid
        .iter()
        .map(|it| (it.start, it.end, it.phrase.to_string()))
        .collect();
    assert_eq!(
        vec![
            (0, 1, "一".to_string()),
            (0, 2, "丙丁".to_string()),
            (1, 2, "二".to_string()),
            (1, 3, "庚辛".to_string()),
            (2, 3, "三".to_string()),
        ],
        found
    );
    // Three syllables have six segments at most.
    assert!(2 * grid.len() <= 3 * 4);
}

#[test]
fn best_path_keeps_the_first_of_equal_scores() {
    let engine = ChewingConversionEngine::new(PhraseTable::new());
    let intervals = vec![
        step(0, 2, "甲乙", 4),
        step(0, 1, "甲", 0),
        step(1, 2, "乙", 0),
        step(0, 2, "丙丁", 4),
    ];
    assert_eq!(
        vec![Interval {
            start: 0,
            end: 2,
            phrase: "甲乙".to_string()
        }],
        engine.find_best_path(2, intervals)
    );
    assert_eq!(Vec::<Interval>::new(), engine.find_best_path(2, vec![]));
    assert_eq!(Vec::<Interval>::new(), engine.find_best_path(0, vec![]));
}

#[test]
fn all_paths_come_depth_first() {
    let engine = ChewingConversionEngine::new(small_dictionary());
    let sequence = ChineseSequence {
        syllables: vec![s(1), s(2), s(3)],
        selections: vec![],
        breaks: vec![],
    };
    let mut graph = Graph::default();
    let paths = engine.find_all_paths(&mut graph, &sequence, 0, 3, None);
    let found: Vec<Vec<(usize, usize)>> = paths.iter().map(bounds).collect();
    assert_eq!(
        vec![
            vec![(0, 1), (1, 2), (2, 3)],
            vec![(0, 1), (1, 3)],
            vec![(0, 2), (2, 3)],
        ],
        found
    );
    assert_eq!(Some(Some(Phrase::new("庚辛", 3))), graph.get(1, 3));
    assert_eq!(Some(None), graph.get(0, 3));
    assert_eq!(None, graph.get(2, 2));
    let rest = engine.find_all_paths(
        &mut graph,
        &sequence,
        3,
        3,
        Some(path(vec![step(0, 3, "甲乙丙", 1)])),
    );
    assert_eq!(vec![vec![(0, 3)]], rest.iter().map(bounds).collect::<Vec<_>>());
}

#[test]
fn trimming_drops_refinements() {
    let engine = ChewingConversionEngine::new(PhraseTable::new());
    let fine = path(vec![step(0, 1, "一", 0), step(1, 2, "二", 0), step(2, 3, "三", 0)]);
    let left = path(vec![step(0, 1, "一", 0), step(1, 3, "庚辛", 0)]);
    let right = path(vec![step(0, 2, "丙丁", 0), step(2, 3, "三", 0)]);
    let trimmed = engine.trim_paths(vec![fine.clone(), left.clone(), right.clone()]);
    assert_eq!(
        vec![vec![(0, 1), (1, 3)], vec![(0, 2), (2, 3)]],
        trimmed.iter().map(bounds).collect::<Vec<_>>()
    );
    // A refinement that comes after its coarser path is dropped on arrival.
    let trimmed = engine.trim_paths(vec![left.clone(), right.clone(), fine.clone()]);
    assert_eq!(
        vec![vec![(0, 1), (1, 3)], vec![(0, 2), (2, 3)]],
        trimmed.iter().map(bounds).collect::<Vec<_>>()
    );
    assert!(engine.trim_paths(vec![]).is_empty());
}

#[test]
fn trimming_stops_scanning_at_the_first_container() {
    let engine = ChewingConversionEngine::new(PhraseTable::new());
    let whole = path(vec![step(0, 4, "甲乙丙丁", 0)]);
    let halves = path(vec![step(0, 2, "甲乙", 0), step(2, 4, "丙丁", 0)]);
    let quarters = path(vec![
        step(0, 1, "甲", 0),
        step(1, 2, "乙", 0),
        step(2, 3, "丙", 0),
        step(3, 4, "丁", 0),
    ]);
    let mixed = path(vec![step(0, 2, "甲乙", 0), step(2, 3, "丙", 0), step(3, 4, "丁", 0)]);
    // `mixed` is dropped by `halves`; `quarters`, which it contains and which
    // stands before `halves`, is discarded all the same.
    let trimmed = engine.trim_paths(vec![quarters.clone(), halves.clone(), mixed.clone()]);
    assert_eq!(
        vec![vec![(0, 2), (2, 4)]],
        trimmed.iter().map(bounds).collect::<Vec<_>>()
    );
    let trimmed = engine.trim_paths(vec![halves.clone(), quarters.clone(), whole.clone()]);
    assert_eq!(vec![vec![(0, 4)]], trimmed.iter().map(bounds).collect::<Vec<_>>());
}

#[test]
fn sorting_by_score_is_stable() {
    let low = path(vec![step(0, 1, "一", 0), step(1, 2, "二", 0)]);
    let first = path(vec![step(0, 2, "甲乙", 3)]);
    let second = path(vec![step(0, 2, "丙丁", 3)]);
    let high = path(vec![step(0, 2, "戊己", 8)]);
    let mut sorted = sort_paths(vec![first.clone(), high.clone(), second.clone(), low.clone()]);
    let texts = |paths: &Vec<PossiblePath>| -> Vec<String> {
        paths
            .iter()
            .map(|p| p.intervals[0].phrase.to_string())
            .collect()
    };
    assert_eq!(vec!["一", "甲乙", "丙丁", "戊己"], texts(&sorted));
    reverse_paths(&mut sorted);
    assert_eq!(vec!["戊己", "丙丁", "甲乙", "一"], texts(&sorted));
}

#[test]
fn table_answers_from_the_latest_insertion() {
    let mut table = small_dictionary();
    assert_eq!(
        vec![Phrase::new("庚辛", 3)],
        table.lookup_phrase(&[s(2), s(3)])
    );
    table.insert(vec![s(2), s(3)], vec![Phrase::new("壬癸", 1)]);
    assert_eq!(
        vec![Phrase::new("壬癸", 1)],
        table.lookup_phrase(&[s(2), s(3)])
    );
    assert_eq!(vec![Phrase::new("一", 5)], table.lookup_phrase(&[s(1)]));
    assert!(table.lookup_phrase(&[]).is_empty());
    assert!(same_syllables(&[s(1), s(2)], &[s(1), s(2)]));
    assert!(!same_syllables(&[s(1), s(2)], &[s(1)]));
    assert!(!same_syllables(&[s(1), s(2)], &[s(1), s(3)]));
    let phrase = Phrase::new("壬癸", 1);
    assert_eq!("壬癸", phrase.as_str());
    assert_eq!(1, phrase.freq());
    assert_eq!(phrase, phrase.clone());
}

#[test]
fn sequences_are_accepted_within_the_limits() {
    let mut sequence = ChineseSequence {
        syllables: vec![s(1), s(2), s(3)],
        selections: vec![Interval {
            start: 1,
            end: 3,
            phrase: "庚辛".to_string(),
        }],
        breaks: vec![Break(1)],
    };
    assert!(sequence.is_accepted());
    sequence.selections[0].end = 4;
    assert!(!sequence.is_accepted());
    sequence.selections[0].end = 1;
    assert!(!sequence.is_accepted());
    sequence.selections.clear();
    sequence.syllables = vec![s(1); MAX_SYLLABLES + 1];
    assert!(!sequence.is_accepted());
}

#[test]
fn path_is_written_with_its_score_and_intervals() {
    let p = path(vec![step(0, 3, "測試儀", 42), step(3, 14, "下", 10576)]);
    assert_eq!(14000 + 42000 - 800 + 42 + 10576, p.score());
    assert_eq!("#PossiblePath(65818 (0 3 '測試儀) (3 14 '下))", p.to_string());
    assert_eq!("#PossiblePath(0)", PossiblePath::default().to_string());
}

#[test]
fn score_falls_below_zero_on_very_uneven_paths() {
    let mut steps: Vec<PossibleInterval> = (0..20).map(|i| step(i, i + 1, "甲", 0)).collect();
    steps.push(step(20, 120, "乙", 0));
    let uneven = path(steps);
    assert_eq!(120, uneven.rule_largest_sum());
    assert_eq!(34, uneven.rule_largest_avgwordlen());
    assert_eq!(-1980, uneven.rule_smallest_lenvariance());
    assert_eq!(-44000, uneven.score());
    assert!(uneven.to_string().starts_with("#PossiblePath(-44000 (0 1 '甲)"));
    assert!(uneven.to_string().ends_with(" (20 120 '乙))"));
}
