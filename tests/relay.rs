use tcp_proxy::relay::{handle_conn, PumpAction, Relay, RelayAction, SessionEnd, Side, StopReason, TransportError};

#[test]
fn read_chunks_are_forwarded_in_order() {
    let read = Ok(vec![b"GET".to_vec(), Vec::new(), b" /".to_vec()]);
    assert_eq!(handle_conn(read), PumpAction::Forward(b"GET /".to_vec()));
}

#[test]
fn empty_read_is_end_of_stream() {
    assert_eq!(handle_conn(Ok(vec![Vec::new()])), PumpAction::Stop(StopReason::EndOfStream));
    assert_eq!(handle_conn(Ok(vec![])), PumpAction::Stop(StopReason::EndOfStream));
}

#[test]
fn failed_read_stops_pump() {
    assert_eq!(handle_conn(Err(TransportError::Read)), PumpAction::Stop(StopReason::ReadFailed));
}

#[test]
fn pump_run_delivers_stream_unchanged() {
    let reads = vec![
        Ok(vec![b"HELLO".to_vec()]),
        Ok(vec![b"-".to_vec(), b"1".to_vec()]),
        Ok(vec![]),
        Ok(vec![b"late".to_vec()]),
    ];
    let mut out = Vec::new();
    for r in reads {
        match handle_conn(r) {
            PumpAction::Forward(b) => out.extend_from_slice(&b),
            PumpAction::Stop(_) => break,
        }
    }
    assert_eq!(out, b"HELLO-1".to_vec());
}

#[test]
fn client_close_closes_target() {
    let mut relay = Relay::new(0);
    assert_eq!(relay.target(), 0);
    let a = relay.pump_stopped(Side::Client, StopReason::EndOfStream);
    assert_eq!(a, RelayAction { close_both: true, report_target: None });
    assert!(!relay.is_finished());
    let b = relay.pump_stopped(Side::Target, StopReason::ReadFailed);
    assert_eq!(b, RelayAction { close_both: false, report_target: None });
    assert!(relay.is_finished());
    assert_eq!(relay.end(), Some(SessionEnd::ClientClosed));
}

#[test]
fn target_failure_is_reported() {
    let mut relay = Relay::new(1);
    let a = relay.pump_stopped(Side::Client, StopReason::WriteFailed);
    assert_eq!(a, RelayAction { close_both: true, report_target: Some(1) });
    assert_eq!(relay.end(), Some(SessionEnd::TargetFailed));
    let mut relay = Relay::new(2);
    let a = relay.pump_stopped(Side::Target, StopReason::ReadFailed);
    assert_eq!(a.report_target, Some(2));
}

#[test]
fn target_close_is_not_a_failure() {
    let mut relay = Relay::new(1);
    let a = relay.pump_stopped(Side::Target, StopReason::EndOfStream);
    assert_eq!(a, RelayAction { close_both: true, report_target: None });
    assert_eq!(relay.end(), Some(SessionEnd::TargetClosed));
    let mut relay = Relay::new(1);
    let a = relay.pump_stopped(Side::Target, StopReason::WriteFailed);
    assert_eq!(a.report_target, None);
    assert_eq!(relay.end(), Some(SessionEnd::ClientFailed));
}
