use kmer_sim::compare::PairTask;
use kmer_sim::pipeline::{dedup_tasks, make_pairs, tasks_from_rows};
use kmer_sim::queue::{build_pair_queue, build_read_queue};
use kmer_sim::record::SampleTask;

fn manifest_rows(pairs: &[(&str, &str)]) -> Vec<Vec<String>> {
    pairs.iter().map(|(a, b)| vec![a.to_string(), b.to_string()]).collect()
}

#[test]
fn tasks_from_rows_takes_first_two_fields() {
    let rows = vec![vec!["s1".to_string(), "f1".to_string(), "extra".to_string()]];
    let ts = tasks_from_rows(&rows).unwrap();
    assert_eq!(ts.len(), 1);
    assert_eq!(ts[0].sample_id, "s1".to_string());
    assert_eq!(ts[0].source_path, "f1".to_string());
}

#[test]
fn tasks_from_rows_rejects_short_row() {
    let rows = vec![vec!["s1".to_string(), "f1".to_string()], vec!["lonely".to_string()]];
    let err = tasks_from_rows(&rows).unwrap_err();
    assert!(err.is_data_error());
}

#[test]
fn dedup_drops_repeated_pairs_keeps_first_order() {
    let rows = manifest_rows(&[("s1", "f1"), ("s2", "f2"), ("s1", "f1"), ("s3", "f3"), ("s2", "f2")]);
    let ts = tasks_from_rows(&rows).unwrap();
    let d = dedup_tasks(&ts);
    assert_eq!(d.len(), 3);
    assert_eq!(d[0].sample_id, "s1".to_string());
    assert_eq!(d[1].sample_id, "s2".to_string());
    assert_eq!(d[2].sample_id, "s3".to_string());
}

#[test]
fn dedup_keeps_same_id_with_different_path() {
    let rows = manifest_rows(&[("s1", "f1"), ("s1", "f2")]);
    let ts = tasks_from_rows(&rows).unwrap();
    let d = dedup_tasks(&ts);
    assert_eq!(d.len(), 2);
    assert_eq!(d[0].source_path, "f1".to_string());
    assert_eq!(d[1].source_path, "f2".to_string());
}

#[test]
fn pairs_of_three_samples() {
    let ids = vec!["s1".to_string(), "s2".to_string(), "s3".to_string()];
    let ps = make_pairs(&ids);
    assert_eq!(ps.len(), 3);
    let got: Vec<(String, String)> =
        ps.iter().map(|p| (p.sample_id_a.clone(), p.sample_id_b.clone())).collect();
    assert_eq!(
        got,
        vec![
            ("s1".to_string(), "s2".to_string()),
            ("s1".to_string(), "s3".to_string()),
            ("s2".to_string(), "s3".to_string()),
        ]
    );
}

#[test]
fn pairs_count_matches_formula() {
    for n in 0..6usize {
        let ids: Vec<String> = (0..n).map(|k| format!("s{}", k)).collect();
        let ps = make_pairs(&ids);
        assert_eq!(ps.len(), n * n.saturating_sub(1) / 2);
    }
}

#[test]
fn pairs_of_fewer_than_two_samples_are_empty() {
    assert_eq!(make_pairs(&vec![]).len(), 0);
    assert_eq!(make_pairs(&vec!["only".to_string()]).len(), 0);
}

#[test]
fn read_queue_holds_what_was_filled() {
    let tasks = vec![
        SampleTask::new("s1".to_string(), "f1".to_string()),
        SampleTask::new("s2".to_string(), "f2".to_string()),
    ];
    let q = build_read_queue(&tasks);
    assert_eq!(q.len(), 2);
    assert_eq!(q.capacity(), 2);
    let a = q.try_pop().unwrap();
    let b = q.try_pop().unwrap();
    assert_eq!(a.sample_id, "s1".to_string());
    assert_eq!(a.source_path, "f1".to_string());
    assert_eq!(b.sample_id, "s2".to_string());
    assert!(q.try_pop().is_none());
}

#[test]
fn read_queue_is_sized_exactly_to_the_task_count() {
    let tasks = vec![
        SampleTask::new("s1".to_string(), "f1".to_string()),
        SampleTask::new("s2".to_string(), "f2".to_string()),
    ];
    let q = build_read_queue(&tasks);
    // The queue is full: one more push is refused and hands the task back.
    let extra = SampleTask::new("s3".to_string(), "f3".to_string());
    let back = q.try_push(extra).unwrap_err();
    assert_eq!(back.sample_id, "s3".to_string());
    assert_eq!(q.len(), 2);
}

#[test]
fn pair_queue_holds_what_was_filled() {
    let pairs = vec![PairTask::new("s1".to_string(), "s2".to_string())];
    let q = build_pair_queue(&pairs);
    assert_eq!(q.capacity(), 1);
    let p = q.try_pop().unwrap();
    assert_eq!(p.sample_id_a, "s1".to_string());
    assert_eq!(p.sample_id_b, "s2".to_string());
    assert!(q.try_pop().is_none());
}
