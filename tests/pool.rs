use tcp_proxy::pool::{PoolError, TcpConnCollection};

fn all_live(n: usize) -> TcpConnCollection {
    TcpConnCollection::from_outcomes(vec![true; n]).unwrap()
}

#[test]
fn empty_target_list_is_rejected() {
    assert_eq!(TcpConnCollection::from_outcomes(vec![]).err(), Some(PoolError::NoTargets));
}

#[test]
fn pool_with_no_reachable_target_is_unavailable() {
    assert_eq!(
        TcpConnCollection::from_outcomes(vec![false, false, false]).err(),
        Some(PoolError::PoolUnavailable)
    );
}

#[test]
fn rotation_wraps_to_first_target() {
    // two targets, cursor starting at 0: first, second, then first again
    let mut pool = all_live(2);
    assert_eq!(pool.cursor(), 0);
    assert_eq!(pool.acquire(), Some(0));
    assert_eq!(pool.cursor(), 1);
    assert_eq!(pool.acquire(), Some(1));
    assert_eq!(pool.cursor(), 0);
    assert_eq!(pool.acquire(), Some(0));
}

#[test]
fn round_robin_is_balanced() {
    let mut pool = all_live(3);
    let mut counts = [0usize; 3];
    let mut order = Vec::new();
    for _ in 0..8 {
        let t = pool.acquire().unwrap();
        counts[t] += 1;
        order.push(t);
    }
    assert_eq!(order, vec![0, 1, 2, 0, 1, 2, 0, 1]);
    assert_eq!(counts, [3, 3, 2]);
}

#[test]
fn unreachable_target_is_skipped() {
    let mut pool = TcpConnCollection::from_outcomes(vec![true, false, true]).unwrap();
    let picked: Vec<usize> = (0..6).map(|_| pool.acquire().unwrap()).collect();
    assert_eq!(picked, vec![0, 2, 0, 2, 0, 2]);
}

#[test]
fn failed_target_avoided_until_reconnect() {
    let mut pool = all_live(2);
    assert_eq!(pool.acquire(), Some(0));
    assert_eq!(pool.acquire(), Some(1));
    // target 0 fails and its one reconnect fails as well
    pool.report_failure(0, false);
    assert!(!pool.is_live(0));
    for _ in 0..4 {
        assert_eq!(pool.acquire(), Some(1));
    }
    // a reconnect sweep brings it back
    assert_eq!(pool.dead_targets(), vec![0]);
    pool.record_sweep(&vec![true, false]);
    assert!(pool.is_live(0));
    let next: Vec<usize> = (0..2).map(|_| pool.acquire().unwrap()).collect();
    assert!(next.contains(&0) && next.contains(&1));
}

#[test]
fn failure_with_successful_reconnect_keeps_target_live() {
    let mut pool = all_live(3);
    pool.report_failure(1, true);
    assert!(pool.is_live(1));
    assert_eq!(pool.cursor(), 0);
}

#[test]
fn sweep_after_total_outage() {
    let mut pool = TcpConnCollection::from_outcomes(vec![true, true]).unwrap();
    pool.report_failure(0, false);
    pool.report_failure(1, false);
    assert!(!pool.has_live_target());
    assert_eq!(pool.acquire(), None);
    assert_eq!(pool.dead_targets(), vec![0, 1]);
    assert_eq!(pool.finish_sweep(&vec![false, false]), Err(PoolError::PoolUnavailable));
    assert_eq!(pool.finish_sweep(&vec![false, true]), Ok(1));
    assert_eq!(pool.len(), 2);
}
