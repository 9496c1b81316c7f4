use webpool::pool::ThreadPool;

#[test]
fn ids_unique_and_increasing() {
    let mut p = ThreadPool::new(3);
    let (id1, _) = p.submit();
    let (id2, _) = p.submit();
    let (id3, _) = p.submit();
    assert_eq!(id1, 1);
    assert_eq!(id2, 2);
    assert_eq!(id3, 3);
    assert_eq!(p.last_issued(), 3);
}

#[test]
fn every_worker_loaded_once_before_any_twice() {
    let mut p = ThreadPool::new(4);
    let mut i = 0;
    while i < 4 {
        p.submit();
        i += 1;
    }
    let mut w = 0;
    while w < 4 {
        assert_eq!(p.load_of(w), 1);
        w += 1;
    }
}

#[test]
fn loads_stay_within_one_of_each_other() {
    let mut p = ThreadPool::new(3);
    let mut i = 0;
    while i < 8 {
        p.submit();
        i += 1;
    }
    // 8 jobs over 3 workers: two workers carry 3, one carries 2.
    let loads = vec![p.load_of(0), p.load_of(1), p.load_of(2)];
    assert_eq!(loads, vec![3, 3, 2]);
}

#[test]
fn poll_with_nothing_ready_returns_empty() {
    let mut p = ThreadPool::new(2);
    p.submit();
    p.submit();
    let out = p.poll(&vec![0, 0]);
    assert!(out.is_empty());
    assert_eq!(p.load_of(0), 1);
    assert_eq!(p.load_of(1), 1);
}

#[test]
fn single_worker_results_in_submission_order() {
    let mut p = ThreadPool::new(1);
    p.submit();
    p.submit();
    p.submit();
    let first = p.poll(&vec![1]);
    assert_eq!(first, vec![1]);
    let rest = p.poll(&vec![2]);
    assert_eq!(rest, vec![2, 3]);
    assert_eq!(p.load_of(0), 0);
}

#[test]
fn two_workers_doubling_scenario() {
    let mut p = ThreadPool::new(2);
    let inputs = [5i64, 7, 9];
    let mut queue0: Vec<(u32, i64)> = Vec::new();
    let mut queue1: Vec<(u32, i64)> = Vec::new();
    for &x in inputs.iter() {
        let (id, w) = p.submit();
        if w == 0 {
            queue0.push((id, x));
        } else {
            queue1.push((id, x));
        }
    }
    // Least-loaded assignment: no worker received a second job while the
    // other was still idle.
    assert!(queue0.len() >= 1 && queue1.len() >= 1);
    // Each worker answers its own jobs in FIFO order; polling yields the
    // drained ids per worker, in order.
    let ids = p.poll(&vec![queue0.len(), queue1.len()]);
    let mut expected_ids: Vec<u32> = queue0.iter().map(|&(id, _)| id).collect();
    expected_ids.extend(queue1.iter().map(|&(id, _)| id));
    assert_eq!(ids, expected_ids);
    // The completed set is exactly {(1,10), (2,14), (3,18)}.
    let mut results: Vec<(u32, i64)> = queue0
        .iter()
        .chain(queue1.iter())
        .map(|&(id, x)| (id, 2 * x))
        .collect();
    results.sort();
    assert_eq!(results, vec![(1, 10), (2, 14), (3, 18)]);
}

#[test]
fn join_hands_back_everything_outstanding() {
    let mut p = ThreadPool::new(2);
    p.submit();
    p.submit();
    p.submit();
    let drained = p.poll(&vec![1, 0]);
    assert_eq!(drained, vec![1]);
    let mut rest = p.join();
    rest.sort();
    assert_eq!(rest, vec![2, 3]);
}

#[test]
fn join_of_idle_pool_hands_back_nothing() {
    let p = ThreadPool::new(3);
    assert!(p.join().is_empty());
}
