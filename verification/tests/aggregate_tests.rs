use ahc_local_tools::aggregate::aggregate;
use ahc_local_tools::cases::CaseScore;
use ahc_local_tools::cases::case_output_path;
use ahc_local_tools::cases::sort_by_path;

fn case(path: &[u8], score: u64) -> CaseScore {
    CaseScore { path: path.to_vec(), score }
}

fn paths(v: &[CaseScore]) -> Vec<Vec<u8>> {
    v.iter().map(|c| c.path.clone()).collect()
}

#[test]
fn sorts_into_ascending_path_order() {
    let mut v = vec![case(b"in/c.txt", 3), case(b"in/a.txt", 1), case(b"in/b.txt", 2)];
    sort_by_path(&mut v);
    assert_eq!(
        paths(&v),
        vec![b"in/a.txt".to_vec(), b"in/b.txt".to_vec(), b"in/c.txt".to_vec()]
    );
    assert_eq!(v[0].score, 1);
    assert_eq!(v[1].score, 2);
    assert_eq!(v[2].score, 3);
}

#[test]
fn sorted_order_is_independent_of_completion_order() {
    // two runs whose workers finished in different orders
    let mut first = vec![case(b"b", 2), case(b"a", 1), case(b"c", 3)];
    let mut second = vec![case(b"c", 3), case(b"b", 2), case(b"a", 1)];
    sort_by_path(&mut first);
    sort_by_path(&mut second);
    assert_eq!(paths(&first), paths(&second));
    let firsts: Vec<u64> = first.iter().map(|c| c.score).collect();
    let seconds: Vec<u64> = second.iter().map(|c| c.score).collect();
    assert_eq!(firsts, seconds);
}

#[test]
fn aggregate_sums_and_bounds() {
    let mut v = vec![case(b"c", 3), case(b"a", 1), case(b"b", 2)];
    let rep = aggregate(&mut v).expect("non-empty run must aggregate");
    assert_eq!(rep.sum, 6);
    assert_eq!(rep.count, 3);
    // sorted order is a(1), b(2), c(3)
    assert_eq!(v[rep.max_index].path, b"c".to_vec());
    assert_eq!(v[rep.max_index].score, 3);
    assert_eq!(v[rep.min_index].path, b"a".to_vec());
    assert_eq!(v[rep.min_index].score, 1);
    let mean = rep.sum as f64 / rep.count as f64;
    assert_eq!(mean, 2.0);
    for c in &v {
        assert!(c.score <= v[rep.max_index].score);
        assert!(c.score >= v[rep.min_index].score);
    }
}

#[test]
fn extrema_ties_go_to_first_in_path_order() {
    let mut v = vec![case(b"b", 5), case(b"a", 5), case(b"c", 5)];
    let rep = aggregate(&mut v).expect("non-empty run must aggregate");
    assert_eq!(v[rep.max_index].path, b"a".to_vec());
    assert_eq!(v[rep.min_index].path, b"a".to_vec());
}

#[test]
fn zero_cases_is_an_explicit_outcome() {
    let mut v: Vec<CaseScore> = Vec::new();
    assert!(aggregate(&mut v).is_none());
}

#[test]
fn single_case_aggregate() {
    let mut v = vec![case(b"only", 9)];
    let rep = aggregate(&mut v).expect("non-empty run must aggregate");
    assert_eq!(rep.sum, 9);
    assert_eq!(rep.count, 1);
    assert_eq!(rep.max_index, 0);
    assert_eq!(rep.min_index, 0);
}

#[test]
fn output_path_joins_base_name() {
    assert_eq!(
        case_output_path(&b"out".to_vec(), &b"in/a.txt".to_vec()),
        b"out/a.txt".to_vec()
    );
}

#[test]
fn output_path_keeps_existing_separator() {
    assert_eq!(
        case_output_path(&b"out/".to_vec(), &b"in/sub/b.txt".to_vec()),
        b"out/b.txt".to_vec()
    );
}

#[test]
fn output_path_of_bare_file_name() {
    assert_eq!(
        case_output_path(&b"out".to_vec(), &b"c.txt".to_vec()),
        b"out/c.txt".to_vec()
    );
}

#[test]
fn output_path_with_empty_folder() {
    assert_eq!(case_output_path(&b"".to_vec(), &b"in/d.txt".to_vec()), b"d.txt".to_vec());
}
