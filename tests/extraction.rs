use dashmap::DashMap;
use std::collections::HashSet;
use wordfreq::classify::Classifier;
use wordfreq::pipeline::extract;
use wordfreq::report::{render_entries, sort_by_count};
use wordfreq::run;
use wordfreq::scan::windows_of;
use wordfreq::select::select_winner;

fn chars(s: &str) -> Vec<char> {
    s.chars().collect()
}

fn corpus(lines: &[&str]) -> Vec<Vec<char>> {
    lines.iter().map(|l| chars(l)).collect()
}

fn pairs(lines: &[&str], word_len: usize, threshold: usize, extra: &str) -> HashSet<(String, usize)> {
    extract(&corpus(lines), word_len, threshold, &chars(extra))
        .into_iter()
        .map(|(w, c)| (w.into_iter().collect::<String>(), c))
        .collect()
}

#[test]
fn end_to_end_example() {
    let out = run(&corpus(&["一二三一二三一二三"]), 2, 0, &vec![]);
    assert_eq!(out, "一二\t5\n二三\t2");
}

#[test]
fn boundary_reset_between_valid_runs() {
    let classifier = Classifier::new(&vec![]);
    let got = windows_of(&classifier, &chars("A一二三B一二三"), 2);
    let got: Vec<String> = got.into_iter().map(|w| w.into_iter().collect()).collect();
    assert_eq!(got, vec!["一二", "二三", "一二", "二三"]);
    assert!(got.iter().all(|w| !w.contains('A') && !w.contains('B')));
}

#[test]
fn window_count_of_a_valid_run() {
    let classifier = Classifier::new(&vec![]);
    let line = chars("一二三四五六七");
    assert_eq!(windows_of(&classifier, &line, 3).len(), 7 - 3 + 1);
    assert_eq!(windows_of(&classifier, &line, 7).len(), 1);
    assert_eq!(windows_of(&classifier, &line, 8).len(), 0);
}

#[test]
fn short_run_yields_no_window() {
    let classifier = Classifier::new(&vec![]);
    assert_eq!(windows_of(&classifier, &chars("一二x三"), 3).len(), 0);
}

#[test]
fn tie_goes_to_leftmost_candidate() {
    let base: DashMap<Vec<char>, usize> = DashMap::new();
    base.insert(chars("一二"), 3);
    base.insert(chars("二三"), 3);
    let (word, count) = select_winner(&base, &chars("一二三"), 2);
    assert_eq!(word, chars("一二"));
    assert_eq!(count, 3);
}

#[test]
fn strictly_greater_candidate_wins() {
    let base: DashMap<Vec<char>, usize> = DashMap::new();
    base.insert(chars("一二"), 2);
    base.insert(chars("二三"), 4);
    let (word, count) = select_winner(&base, &chars("一二三"), 2);
    assert_eq!(word, chars("二三"));
    assert_eq!(count, 4);
}

#[test]
fn absent_candidates_count_zero() {
    let base: DashMap<Vec<char>, usize> = DashMap::new();
    let (_, count) = select_winner(&base, &chars("一二三"), 2);
    assert_eq!(count, 0);
}

#[test]
fn single_character_words() {
    assert_eq!(run(&corpus(&["一一二"]), 1, 0, &vec![]), "一\t2\n二\t1");
    assert_eq!(run(&corpus(&["一一二"]), 1, 1, &vec![]), "一\t2");
}

#[test]
fn threshold_drops_low_counts() {
    let out = run(&corpus(&["一二三一二三一二三"]), 2, 2, &vec![]);
    assert_eq!(out, "一二\t5");
}

#[test]
fn raising_threshold_keeps_a_subset_with_equal_counts() {
    let lines = ["中文分词中文分词", "分词中文分词", "中文中文中文", "词语分词词语"];
    for t1 in 0..4 {
        for t2 in (t1 + 1)..5 {
            let low = pairs(&lines, 2, t1, "");
            let high = pairs(&lines, 2, t2, "");
            assert!(high.is_subset(&low), "t1={t1} t2={t2}");
        }
    }
}

#[test]
fn result_pairs_do_not_depend_on_line_order() {
    let lines = ["中文分词中文分词", "分词中文分词", "中文中文中文"];
    let reversed = ["中文中文中文", "分词中文分词", "中文分词中文分词"];
    let first = pairs(&lines, 2, 0, "");
    assert_eq!(first, pairs(&lines, 2, 0, ""));
    assert_eq!(first, pairs(&reversed, 2, 0, ""));
}

#[test]
fn output_is_descending_by_count() {
    let lines = ["中文分词中文分词", "分词中文分词", "中文中文中文", "词语分词词语"];
    let entries = extract(&corpus(&lines), 2, 0, &vec![]);
    assert!(!entries.is_empty());
    assert!(entries.windows(2).all(|p| p[0].1 >= p[1].1));
    let keys: HashSet<Vec<char>> = entries.iter().map(|e| e.0.clone()).collect();
    assert_eq!(keys.len(), entries.len());
}

#[test]
fn extra_characters_join_words() {
    assert_eq!(run(&corpus(&["A一A一"]), 2, 0, &vec![]), "");
    let out = run(&corpus(&["A一A一"]), 2, 0, &vec!['A']);
    assert_eq!(out, "A一\t2");
}

#[test]
fn classifier_accepts_block_bounds_and_extras() {
    let classifier = Classifier::new(&vec!['x']);
    assert!(classifier.valid('\u{4e00}'));
    assert!(classifier.valid('\u{9fff}'));
    assert!(!classifier.valid('\u{4dff}'));
    assert!(!classifier.valid('\u{a000}'));
    assert!(classifier.valid('x'));
    assert!(!classifier.valid('y'));
}

#[test]
fn empty_corpus_gives_empty_output() {
    assert_eq!(run(&vec![], 2, 0, &vec![]), "");
    assert_eq!(run(&corpus(&["", "abc"]), 2, 0, &vec![]), "");
}

#[test]
fn counts_are_written_in_decimal() {
    let line = "一".repeat(12);
    assert_eq!(run(&corpus(&[&line]), 1, 0, &vec![]), "一\t12");
}

#[test]
fn equal_counts_keep_their_input_order() {
    let given = vec![(chars("一二"), 2), (chars("二三"), 5), (chars("三一"), 2)];
    let sorted = sort_by_count(&given);
    assert_eq!(render_entries(&sorted), "二三\t5\n一二\t2\n三一\t2");
    let flipped = vec![(chars("三一"), 2), (chars("二三"), 5), (chars("一二"), 2)];
    assert_eq!(render_entries(&sort_by_count(&flipped)), "二三\t5\n三一\t2\n一二\t2");
}

#[test]
fn counts_span_chunks_of_lines() {
    let lines: Vec<&str> = std::iter::repeat("一二三一二三一二三").take(5000).collect();
    let out = run(&corpus(&lines), 2, 0, &vec![]);
    assert_eq!(out, "一二\t25000\n二三\t10000");
}
