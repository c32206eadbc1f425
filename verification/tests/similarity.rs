use kmer_sim::compare::{compare_pair, PairTask, SimilarityResult};
use kmer_sim::parse::record_from_dump;
use kmer_sim::pipeline::make_pairs;
use kmer_sim::results::{compute_results, process_pair};
use kmer_sim::store::{ResultStore, SharedStore};

fn load(store: &mut ResultStore, id: &str, path: &str, dump: &str) {
    let rec = record_from_dump(path.to_string(), dump).unwrap();
    store.insert(id.to_string(), rec);
}

fn row_tuple(r: &SimilarityResult) -> (String, String, usize, usize, usize, usize) {
    (
        r.sample_id_a.clone(),
        r.sample_id_b.clone(),
        r.total_weight_a,
        r.shared_weight_from_a,
        r.total_weight_b,
        r.shared_weight_from_b,
    )
}

#[test]
fn two_sample_scenario() {
    // f1 -> {a:2, b:3} (total 5), f2 -> {b:3, c:4} (total 7):
    // the single row is  s1 s2 5 3 7 3.
    let mut store = ResultStore::new();
    load(&mut store, "s1", "f1", "a\t2\nb\t3\n");
    load(&mut store, "s2", "f2", "b\t3\nc\t4\n");
    let task = PairTask::new("s1".to_string(), "s2".to_string());
    let row = process_pair(&store, &task).unwrap();
    assert_eq!(
        row_tuple(&row),
        ("s1".to_string(), "s2".to_string(), 5, 3, 7, 3)
    );
}

#[test]
fn disjoint_samples_share_nothing() {
    let mut store = ResultStore::new();
    load(&mut store, "s1", "f1", "a\t1\nb\t2\n");
    load(&mut store, "s2", "f2", "c\t3\nd\t4\n");
    load(&mut store, "s3", "f3", "e\t5\nf\t6\n");
    let ids = store.sample_ids();
    let pairs = make_pairs(&ids);
    assert_eq!(pairs.len(), 3);
    let rows = compute_results(&store, &pairs).unwrap();
    for row in rows.iter() {
        assert_eq!(row.shared_weight_from_a, 0);
        assert_eq!(row.shared_weight_from_b, 0);
    }
}

#[test]
fn empty_sample_has_zero_total_and_shares_nothing() {
    let mut store = ResultStore::new();
    load(&mut store, "s1", "f1", "");
    load(&mut store, "s2", "f2", "a\t2\nb\t3\n");
    let task = PairTask::new("s1".to_string(), "s2".to_string());
    let row = process_pair(&store, &task).unwrap();
    assert_eq!(row.total_weight_a, 0);
    assert_eq!(row.shared_weight_from_a, 0);
    assert_eq!(row.shared_weight_from_b, 0);
    assert_eq!(row.total_weight_b, 5);
}

#[test]
fn directional_sums_take_the_other_sides_weights() {
    // shared keys {b, c}: from s1's side the sum of s2's weights (30 + 40),
    // from s2's side the sum of s1's weights (2 + 3).
    let a = record_from_dump("f1".to_string(), "a\t1\nb\t2\nc\t3\n").unwrap();
    let b = record_from_dump("f2".to_string(), "b\t30\nc\t40\nd\t50\n").unwrap();
    let id_a = "s1".to_string();
    let id_b = "s2".to_string();
    let row = compare_pair(&id_a, &a, &id_b, &b);
    assert_eq!(row.shared_weight_from_a, 70);
    assert_eq!(row.shared_weight_from_b, 5);
    // The symmetric run swaps the two directional sums.
    let swapped = compare_pair(&id_b, &b, &id_a, &a);
    assert_eq!(swapped.shared_weight_from_a, row.shared_weight_from_b);
    assert_eq!(swapped.shared_weight_from_b, row.shared_weight_from_a);
}

#[test]
fn results_do_not_depend_on_pair_order() {
    let mut store = ResultStore::new();
    load(&mut store, "s1", "f1", "a\t2\nb\t3\n");
    load(&mut store, "s2", "f2", "b\t3\nc\t4\n");
    load(&mut store, "s3", "f3", "a\t1\nc\t2\n");
    let ids = store.sample_ids();
    let pairs = make_pairs(&ids);
    let mut reversed: Vec<PairTask> = Vec::new();
    for p in pairs.iter().rev() {
        reversed.push(p.duplicate());
    }
    let rows1 = compute_results(&store, &pairs).unwrap();
    let rows2 = compute_results(&store, &reversed).unwrap();
    let mut t1: Vec<_> = rows1.iter().map(row_tuple).collect();
    let mut t2: Vec<_> = rows2.iter().map(row_tuple).collect();
    t1.sort();
    t2.sort();
    assert_eq!(t1, t2);
}

#[test]
fn rows_agree_across_snapshot_orders() {
    // Two runs materialize the loaded identifiers in different orders, so
    // some pairs come out with flipped orientation; once each row's
    // orientation is set aside, the emitted collections agree.
    let mut store = ResultStore::new();
    load(&mut store, "s1", "f1", "a\t2\nb\t3\n");
    load(&mut store, "s2", "f2", "b\t3\nc\t4\n");
    load(&mut store, "s3", "f3", "a\t1\nc\t2\n");
    let ids1 = vec!["s1".to_string(), "s2".to_string(), "s3".to_string()];
    let ids2 = vec!["s3".to_string(), "s1".to_string(), "s2".to_string()];
    let rows1 = compute_results(&store, &make_pairs(&ids1)).unwrap();
    let rows2 = compute_results(&store, &make_pairs(&ids2)).unwrap();
    let norm = |r: &SimilarityResult| {
        let mut sides = vec![
            (r.sample_id_a.clone(), r.total_weight_a, r.shared_weight_from_a),
            (r.sample_id_b.clone(), r.total_weight_b, r.shared_weight_from_b),
        ];
        sides.sort();
        sides
    };
    let mut n1: Vec<_> = rows1.iter().map(norm).collect();
    let mut n2: Vec<_> = rows2.iter().map(norm).collect();
    n1.sort();
    n2.sort();
    assert_eq!(n1, n2);
}

#[test]
fn process_pair_fails_on_missing_sample() {
    let mut store = ResultStore::new();
    load(&mut store, "s1", "f1", "a\t2\n");
    let task = PairTask::new("s1".to_string(), "ghost".to_string());
    assert!(process_pair(&store, &task).is_none());
    let pairs = vec![PairTask::new("s1".to_string(), "ghost".to_string())];
    let err = compute_results(&store, &pairs).unwrap_err();
    assert!(err.is_application_error());
}

#[test]
fn result_store_basic_operations() {
    let mut store = ResultStore::new();
    assert_eq!(store.len(), 0);
    load(&mut store, "s1", "f1", "a\t2\n");
    load(&mut store, "s2", "f2", "b\t3\n");
    assert_eq!(store.len(), 2);
    assert!(store.contains_id(&"s1".to_string()));
    assert!(!store.contains_id(&"s9".to_string()));
    let rec = store.get(&"s2".to_string()).unwrap();
    assert_eq!(rec.total_weight, 3);
    assert_eq!(rec.source_path, "f2".to_string());
    let ids = store.sample_ids();
    assert_eq!(ids, vec!["s1".to_string(), "s2".to_string()]);
}

#[test]
fn shared_store_gating_and_reads() {
    let shared = SharedStore::new();
    assert_eq!(shared.len(), 0);
    let r1 = record_from_dump("f1".to_string(), "a\t2\nb\t3\n").unwrap();
    let r2 = record_from_dump("f2".to_string(), "b\t3\nc\t4\n").unwrap();
    assert!(shared.insert("s1".to_string(), r1));
    assert!(shared.insert("s2".to_string(), r2));
    let dup = record_from_dump("f1".to_string(), "a\t2\nb\t3\n").unwrap();
    assert!(!shared.insert("s1".to_string(), dup));
    assert_eq!(shared.len(), 2);
    let ids = shared.sample_ids();
    assert_eq!(ids.len(), 2);
    let got = shared.get_record(&"s1".to_string()).unwrap();
    assert_eq!(got.total_weight, 5);
    assert!(shared.get_record(&"s9".to_string()).is_none());
    let (ra, rb) = shared.fetch_pair(&"s1".to_string(), &"s2".to_string()).unwrap();
    let row = compare_pair(&"s1".to_string(), &ra, &"s2".to_string(), &rb);
    assert_eq!(row_tuple(&row), ("s1".to_string(), "s2".to_string(), 5, 3, 7, 3));
}

#[test]
fn shared_store_concurrent_inserts_and_reads() {
    let shared = std::sync::Arc::new(SharedStore::new());
    let mut handles = Vec::new();
    let rt = tokio::runtime::Builder::new_multi_thread().worker_threads(4).build().unwrap();
    for k in 0..8usize {
        let s = shared.clone();
        handles.push(rt.spawn(async move {
            let dump = format!("k{}\t{}\n", k, k + 1);
            let rec = record_from_dump(format!("f{}", k), &dump).unwrap();
            s.insert(format!("s{}", k), rec)
        }));
    }
    rt.block_on(async {
        for h in handles {
            assert!(h.await.unwrap());
        }
    });
    assert_eq!(shared.len(), 8);
    let ids = shared.sample_ids();
    assert_eq!(ids.len(), 8);
}
