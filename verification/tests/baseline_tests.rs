use ahc_local_tools::baseline::BaselineError;
use ahc_local_tools::baseline::apply_relative_scores;
use ahc_local_tools::baseline::load_baseline;
use ahc_local_tools::baseline::relative_score;
use ahc_local_tools::baseline::render_baseline;
use ahc_local_tools::cases::CaseScore;
use ahc_local_tools::cases::sort_by_path;

fn case(path: &[u8], score: u64) -> CaseScore {
    CaseScore { path: path.to_vec(), score }
}

#[test]
fn relative_score_of_improvement() {
    // prior best 100, current 50: round(1e9 * 100 / 50)
    assert_eq!(relative_score(100, 50), 2_000_000_000);
}

#[test]
fn relative_score_of_best_is_one_billion() {
    assert_eq!(relative_score(70, 70), 1_000_000_000);
    assert_eq!(relative_score(1, 1), 1_000_000_000);
    assert_eq!(relative_score(u64::MAX, u64::MAX), 1_000_000_000);
}

#[test]
fn relative_score_rounds_to_nearest() {
    // 1e9 * 2 / 3 = 666666666.67, rounds up
    assert_eq!(relative_score(2, 3), 666_666_667);
    // 1e9 * 1 / 3 = 333333333.33, rounds down
    assert_eq!(relative_score(1, 3), 333_333_333);
    // 1e9 * 3 / 2 = exactly 1500000000.0
    assert_eq!(relative_score(3, 2), 1_500_000_000);
}

#[test]
fn relative_score_saturates() {
    assert_eq!(relative_score(u64::MAX, 1), u64::MAX);
}

#[test]
fn baseline_round_trip_improving_run() {
    let baseline = load_baseline("{\"a.txt\": 100}").expect("valid baseline");
    assert_eq!(baseline.len(), 1);
    assert_eq!(baseline[0].path, b"a.txt".to_vec());
    assert_eq!(baseline[0].score, 100);

    let results = vec![case(b"a.txt", 50)];
    let out = apply_relative_scores(&results, &baseline).expect("no zero score");
    assert_eq!(out.relative.len(), 1);
    assert_eq!(out.relative[0].path, b"a.txt".to_vec());
    assert_eq!(out.relative[0].score, 2_000_000_000);

    let rendered = render_baseline(&out.updated);
    assert_eq!(rendered, "{\n  \"a.txt\": 50\n}");
}

#[test]
fn first_run_scores_one_billion_and_persists_raw_scores() {
    let baseline: Vec<CaseScore> = Vec::new();
    let results = vec![case(b"a.txt", 70), case(b"b.txt", 30)];
    let out = apply_relative_scores(&results, &baseline).expect("no zero score");
    assert_eq!(out.relative.len(), 2);
    assert_eq!(out.relative[0].score, 1_000_000_000);
    assert_eq!(out.relative[1].score, 1_000_000_000);

    let rendered = render_baseline(&out.updated);
    assert_eq!(rendered, "{\n  \"a.txt\": 70,\n  \"b.txt\": 30\n}");
}

#[test]
fn worse_run_scores_below_one_billion_and_keeps_the_best() {
    let baseline = vec![case(b"a.txt", 50)];
    let results = vec![case(b"a.txt", 100)];
    let out = apply_relative_scores(&results, &baseline).expect("no zero score");
    assert_eq!(out.relative[0].score, 500_000_000);
    assert_eq!(out.updated.len(), 1);
    assert_eq!(out.updated[0].score, 50);
}

#[test]
fn absent_cases_are_preserved_in_the_baseline() {
    let baseline = vec![case(b"old.txt", 10)];
    let results = vec![case(b"new.txt", 5)];
    let out = apply_relative_scores(&results, &baseline).expect("no zero score");
    let rendered = render_baseline(&out.updated);
    assert_eq!(rendered, "{\n  \"new.txt\": 5,\n  \"old.txt\": 10\n}");
}

#[test]
fn zero_score_is_a_reported_error() {
    let baseline = vec![case(b"a.txt", 100)];
    let results = vec![case(b"a.txt", 0)];
    assert!(matches!(
        apply_relative_scores(&results, &baseline),
        Err(BaselineError::ZeroScore)
    ));
}

#[test]
fn corrupt_baseline_is_fatal_not_empty() {
    assert!(matches!(load_baseline("not json at all"), Err(BaselineError::Corrupt)));
    assert!(matches!(load_baseline("[1, 2]"), Err(BaselineError::Corrupt)));
    assert!(matches!(load_baseline("{\"a\": -5}"), Err(BaselineError::Corrupt)));
}

#[test]
fn rendered_baseline_loads_back() {
    let entries = vec![case(b"x.txt", 3), case(b"y.txt", 4)];
    let rendered = render_baseline(&entries);
    let reloaded = load_baseline(&rendered).expect("own output must parse");
    assert_eq!(reloaded.len(), 2);
    assert_eq!(reloaded[0].path, b"x.txt".to_vec());
    assert_eq!(reloaded[0].score, 3);
    assert_eq!(reloaded[1].path, b"y.txt".to_vec());
    assert_eq!(reloaded[1].score, 4);
}

#[test]
fn persisted_file_is_independent_of_completion_order() {
    let baseline = vec![case(b"a.txt", 10)];
    let mut first = vec![case(b"c.txt", 3), case(b"a.txt", 7), case(b"b.txt", 5)];
    let mut second = vec![case(b"b.txt", 5), case(b"c.txt", 3), case(b"a.txt", 7)];
    sort_by_path(&mut first);
    sort_by_path(&mut second);
    let out_first = apply_relative_scores(&first, &baseline).expect("no zero score");
    let out_second = apply_relative_scores(&second, &baseline).expect("no zero score");
    assert_eq!(render_baseline(&out_first.updated), render_baseline(&out_second.updated));
    let lines_first: Vec<(Vec<u8>, u64)> =
        out_first.relative.iter().map(|c| (c.path.clone(), c.score)).collect();
    let lines_second: Vec<(Vec<u8>, u64)> =
        out_second.relative.iter().map(|c| (c.path.clone(), c.score)).collect();
    assert_eq!(lines_first, lines_second);
}

#[test]
fn empty_baseline_text_loads_as_empty_map() {
    let entries = load_baseline("{}").expect("empty object is a valid baseline");
    assert!(entries.is_empty());
}
