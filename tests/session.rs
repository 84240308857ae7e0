use tcp_proxy::config::App;
use tcp_proxy::pool::TcpConnCollection;
use tcp_proxy::relay::{handle_conn, PumpAction, Relay, Side, StopReason};

fn relay_once(bytes: &[u8]) -> Vec<u8> {
    match handle_conn(Ok(vec![bytes.to_vec()])) {
        PumpAction::Forward(b) => b,
        PumpAction::Stop(r) => panic!("pump stopped: {:?}", r),
    }
}

#[test]
fn two_clients_two_targets_scenario() {
    let app = App {
        name: "web".to_string(),
        ports: vec![9001, 9002],
        targets: vec!["127.0.0.1:9101".to_string(), "127.0.0.1:9102".to_string()],
    };
    assert_eq!(app.validate(), Ok(()));
    // one pool for the application, shared by both listen ports
    let mut pool = TcpConnCollection::from_outcomes(vec![true, true]).unwrap();

    // client A on the first port
    let a = pool.acquire().unwrap();
    assert_eq!(app.targets[a], "127.0.0.1:9101");
    assert_eq!(relay_once(b"GET /"), b"GET /".to_vec());
    assert_eq!(relay_once(b"HELLO-1"), b"HELLO-1".to_vec());
    let mut session_a = Relay::new(a);
    assert!(session_a.pump_stopped(Side::Client, StopReason::EndOfStream).close_both);

    // client B on the second port continues the same rotation
    let b = pool.acquire().unwrap();
    assert_eq!(app.targets[b], "127.0.0.1:9102");
    assert_eq!(relay_once(b"HELLO-2"), b"HELLO-2".to_vec());

    // a third client wraps around
    let c = pool.acquire().unwrap();
    assert_eq!(app.targets[c], "127.0.0.1:9101");
}

#[test]
fn unreachable_backend_scenario() {
    let mut pool = TcpConnCollection::from_outcomes(vec![true, true]).unwrap();
    let first = pool.acquire().unwrap();
    assert_eq!(first, 0);
    // the write to the first backend fails; the relay reports it
    let mut session = Relay::new(first);
    let action = session.pump_stopped(Side::Client, StopReason::WriteFailed);
    assert_eq!(action.report_target, Some(0));
    // the one reconnect attempted fails as well
    pool.report_failure(0, false);
    for _ in 0..5 {
        assert_eq!(pool.acquire(), Some(1));
    }
}
