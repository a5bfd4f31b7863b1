use nutrimatic_zh::chinese::ChineseData;
use nutrimatic_zh::index::{IndexMode, IndexReader, TrieWriter};
use nutrimatic_zh::query::Program;
use nutrimatic_zh::search::{
    report_due, search, search_with_progress, SearchError, SearchHit, SearchOptions,
    SearchStopReason,
};
use std::time::Duration;

fn sample_index(mode: IndexMode) -> IndexReader {
    let mut writer = TrieWriter::new(Vec::new(), mode).unwrap();
    writer.push_str_sorted("中华", 5).unwrap();
    writer.push_str_sorted("中国", 8).unwrap();
    writer.push_str_sorted("中国人", 3).unwrap();
    writer.push_str_sorted("人民", 7).unwrap();
    let (bytes, _) = writer.finish().unwrap();
    IndexReader::from_bytes(bytes).unwrap()
}

fn hit(text: &str, score: u64) -> SearchHit {
    SearchHit { text: text.to_owned(), score }
}

#[test]
fn record_results_use_terminal_frequency() {
    let index = sample_index(IndexMode::Records);
    let program = Program::parse("中.*", &ChineseData::default()).unwrap();
    let report = search(&index, &program, &SearchOptions::default()).unwrap();
    assert_eq!(
        report.results,
        vec![hit("中国", 8), hit("中华", 5), hit("中国人", 3)]
    );
}

#[test]
fn capture_constraints_are_checked_before_returning() {
    let index = sample_index(IndexMode::Records);
    let program = Program::parse("@t(A)@t(A)", &ChineseData::default()).unwrap();
    let report = search(&index, &program, &SearchOptions::default()).unwrap();
    assert!(report.results.is_empty());
}

#[test]
fn computation_limit_marks_report_truncated() {
    let index = sample_index(IndexMode::Records);
    let program = Program::parse(".*", &ChineseData::default()).unwrap();
    let options = SearchOptions { max_nodes: 1, ..SearchOptions::default() };
    let report = search(&index, &program, &options).unwrap();
    assert!(report.truncated);
    assert_eq!(report.stop_reason, Some(SearchStopReason::NodeLimit));
}

#[test]
fn state_limit_returns_partial_report_instead_of_an_error() {
    let index = sample_index(IndexMode::Records);
    let program = Program::parse("中.*", &ChineseData::default()).unwrap();
    let options = SearchOptions { max_states: 1, ..SearchOptions::default() };
    let report = search(&index, &program, &options).unwrap();
    assert!(report.truncated);
    assert_eq!(report.stop_reason, Some(SearchStopReason::StateLimit));
}

#[test]
fn progress_search_reports_provisional_results() {
    let index = sample_index(IndexMode::Records);
    let program = Program::parse("中.*", &ChineseData::default()).unwrap();
    let mut reports = Vec::new();
    let final_report = search_with_progress(
        &index,
        &program,
        &SearchOptions::default(),
        Duration::ZERO,
        |report| {
            reports.push(report.clone());
            true
        },
    )
    .unwrap();
    assert!(!reports.is_empty());
    assert_eq!(reports.last().unwrap().results, final_report.results);
}

#[test]
fn ngram_results_use_prefix_frequency() {
    let index = sample_index(IndexMode::Ngrams { window_codepoints: 3 });
    let program = Program::parse("中.?", &ChineseData::default()).unwrap();
    let report = search(&index, &program, &SearchOptions::default()).unwrap();
    assert_eq!(
        report.results,
        vec![hit("中", 16), hit("中国", 11), hit("中华", 5)]
    );
}

#[test]
fn the_best_results_come_first_and_no_others() {
    let index = sample_index(IndexMode::Records);
    let program = Program::parse(".*", &ChineseData::default()).unwrap();
    let options = SearchOptions { limit: 2, ..SearchOptions::default() };
    let report = search(&index, &program, &options).unwrap();
    assert_eq!(report.results, vec![hit("中国", 8), hit("人民", 7)]);
    assert!(!report.truncated);
}

#[test]
fn options_out_of_range_are_refused() {
    let index = sample_index(IndexMode::Records);
    let program = Program::parse("中", &ChineseData::default()).unwrap();
    for options in [
        SearchOptions { limit: 0, ..SearchOptions::default() },
        SearchOptions { max_nodes: 0, ..SearchOptions::default() },
        SearchOptions { max_states: 0, ..SearchOptions::default() },
    ] {
        match search(&index, &program, &options) {
            Err(SearchError::InvalidOptions(message)) => assert!(!message.is_empty()),
            other => panic!("{other:?}"),
        }
    }
}

#[test]
fn a_caller_can_end_a_search() {
    let index = sample_index(IndexMode::Records);
    let program = Program::parse(".*", &ChineseData::default()).unwrap();
    let mut calls: u32 = 0;
    let report = search_with_progress(
        &index,
        &program,
        &SearchOptions::default(),
        Duration::ZERO,
        |_| {
            calls += 1;
            false
        },
    )
    .unwrap();
    assert_eq!(calls, 1);
    assert!(report.results.len() <= 1);
}

#[test]
fn a_long_interval_gives_no_provisional_reports() {
    let index = sample_index(IndexMode::Records);
    let program = Program::parse(".*", &ChineseData::default()).unwrap();
    let mut calls: u32 = 0;
    let report = search_with_progress(
        &index,
        &program,
        &SearchOptions::default(),
        Duration::from_secs(3600),
        |_| {
            calls += 1;
            true
        },
    )
    .unwrap();
    assert_eq!(calls, 0);
    assert_eq!(report.results.len(), 4);
}

#[test]
fn stop_reasons_and_errors_have_words() {
    assert_eq!(SearchStopReason::NodeLimit.code(), "node_limit");
    assert_eq!(SearchStopReason::StateLimit.code(), "state_limit");
    assert_eq!(SearchStopReason::NodeLimit.message(), "达到节点检查上限");
    assert_eq!(SearchStopReason::StateLimit.message(), "达到查询状态上限");
    assert_eq!(
        SearchError::InvalidOptions("x".to_owned()).to_text(),
        "搜索参数无效：x"
    );
    assert!(SearchError::StateLimit { limit: 7 }.to_text().contains(" 7 "));
}

#[test]
fn the_numbers_of_a_complete_search_are_exact() {
    let index = sample_index(IndexMode::Records);
    let report = |query: &str, limit: usize| {
        let program = Program::parse(query, &ChineseData::default()).unwrap();
        let options = SearchOptions { limit, ..SearchOptions::default() };
        search(&index, &program, &options).unwrap()
    };
    // The root and 中, 中华, 中国, 中国人, 人, 人民; one state goes on for ever.
    let all = report(".*", 100);
    assert_eq!((all.visited, all.derivative_states), (7, 1));
    // 人 is not on the way.
    let some = report("中.*", 100);
    assert_eq!((some.visited, some.derivative_states), (5, 2));
    // Nothing below the frequency of 中国 counts: the root, 中 and 中国.
    let best = report(".*", 1);
    assert_eq!(best.results, vec![hit("中国", 8)]);
    assert_eq!(best.visited, 3);
}

#[test]
fn a_small_index_is_searched_to_the_end() {
    let index = sample_index(IndexMode::Records);
    let program = Program::parse(".*", &ChineseData::default()).unwrap();
    // Nine labels were pushed.
    let options = SearchOptions { max_nodes: 10, max_states: 10, ..SearchOptions::default() };
    let report = search(&index, &program, &options).unwrap();
    assert_eq!(report.stop_reason, None);
    assert_eq!(report.results.len(), 4);
}

#[test]
fn nodes_are_visited_by_frequency() {
    let index = sample_index(IndexMode::Records);
    let program = Program::parse(".*", &ChineseData::default()).unwrap();
    for (max_nodes, found) in [
        (1, vec![]),
        (2, vec![]),
        (3, vec![hit("中国", 8)]),
        (4, vec![hit("中国", 8)]),
        (5, vec![hit("中国", 8), hit("人民", 7)]),
        (6, vec![hit("中国", 8), hit("人民", 7), hit("中华", 5)]),
    ] {
        let options = SearchOptions { max_nodes, ..SearchOptions::default() };
        let report = search(&index, &program, &options).unwrap();
        assert_eq!(report.results, found);
        assert_eq!(report.visited, max_nodes);
        assert_eq!(report.stop_reason, Some(SearchStopReason::NodeLimit));
        let again = search(&index, &program, &options).unwrap();
        assert_eq!(again, report);
    }
}

#[test]
fn equally_frequent_nodes_are_visited_as_they_came() {
    let mut writer = TrieWriter::new(Vec::new(), IndexMode::Records).unwrap();
    writer.push_str_sorted("一", 2).unwrap();
    writer.push_str_sorted("二", 2).unwrap();
    writer.push_str_sorted("人", 2).unwrap();
    let (bytes, _) = writer.finish().unwrap();
    let index = IndexReader::from_bytes(bytes).unwrap();
    let program = Program::parse(".", &ChineseData::default()).unwrap();
    let options = SearchOptions { max_nodes: 3, ..SearchOptions::default() };
    let report = search(&index, &program, &options).unwrap();
    assert_eq!(report.results, vec![hit("一", 2), hit("二", 2)]);
}

#[test]
fn with_no_interval_every_node_is_reported() {
    let index = sample_index(IndexMode::Records);
    let program = Program::parse(".*", &ChineseData::default()).unwrap();
    let mut counts: Vec<u64> = Vec::new();
    let report = search_with_progress(
        &index,
        &program,
        &SearchOptions::default(),
        Duration::ZERO,
        |given| {
            counts.push(given.visited);
            true
        },
    )
    .unwrap();
    assert_eq!(report.visited, 7);
    assert_eq!(counts, vec![1, 2, 3, 4, 5, 6, 7]);
}

#[test]
fn reports_are_due_by_nodes_and_time() {
    assert!(report_due(0, 1, 0));
    assert!(report_due(0, 3, 9));
    assert!(!report_due(5, 255, 9));
    assert!(report_due(5, 256, 5));
    assert!(!report_due(5, 256, 4));
}

#[test]
fn a_refused_report_is_the_last() {
    let index = sample_index(IndexMode::Records);
    let program = Program::parse(".*", &ChineseData::default()).unwrap();
    for last in 1..=7 {
        let mut counts: Vec<u64> = Vec::new();
        let report = search_with_progress(
            &index,
            &program,
            &SearchOptions::default(),
            Duration::ZERO,
            |given| {
                counts.push(given.visited);
                given.visited < last
            },
        )
        .unwrap();
        assert_eq!(report.visited, last);
        assert_eq!(counts, (1..=last).collect::<Vec<u64>>());
        assert_eq!(report.stop_reason, None);
    }
}

#[test]
fn reports_do_not_change_the_results() {
    let index = sample_index(IndexMode::Records);
    let program = Program::parse("中.*", &ChineseData::default()).unwrap();
    for max_nodes in [2, 4, 1000] {
        let options = SearchOptions { max_nodes, ..SearchOptions::default() };
        let quiet = search(&index, &program, &options).unwrap();
        let told =
            search_with_progress(&index, &program, &options, Duration::ZERO, |_| true).unwrap();
        assert_eq!(told, quiet);
    }
}

#[test]
fn results_are_the_walk_filtered_and_ranked() {
    for mode in [IndexMode::Records, IndexMode::Ngrams { window_codepoints: 3 }] {
        let index = sample_index(mode);
        index.validate_full().unwrap();
        for query in [".*", "中.*", "..", "[中人]."] {
            let program = Program::parse(query, &ChineseData::default()).unwrap();
            let mut expected = Vec::new();
            let mut walker = index.walk().ok().unwrap();
            while let Some(entry) = walker.next() {
                let entry = entry.unwrap();
                if program.matches(&entry.key) {
                    let score = match mode {
                        IndexMode::Records => entry.terminal,
                        IndexMode::Ngrams { .. } => entry.subtree,
                    };
                    expected.push(hit(&entry.key, score));
                }
            }
            expected.sort_by(|a, b| b.score.cmp(&a.score).then_with(|| a.text.cmp(&b.text)));
            let report = search(&index, &program, &SearchOptions::default()).unwrap();
            assert_eq!(report.results, expected, "{query}");
        }
    }
}
