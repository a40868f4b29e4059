use tailscale::netstack::error::{Error as NetstackError, SocketOpFailure};
use tailscale::netstack::listener::{AcceptOutcome, PumpAction, TcpListeners, TcpState};

type Endpoint = ([u8; 4], u16);

fn listeners() -> TcpListeners<u32, Endpoint> {
    TcpListeners::new()
}

#[test]
fn listener_new_is_empty() {
    let l = listeners();
    assert_eq!(l.len(), 0);
    assert!(l.current_sockets().is_empty());
    assert!(l.can_listen());
}

#[test]
fn listener_handles_are_distinct() {
    let mut l = listeners();
    let a = l.listen(([100, 64, 0, 1], 80), 10);
    let b = l.listen(([100, 64, 0, 1], 443), 11);
    assert_ne!(a, b);
    assert!(a < b);
    assert_eq!(l.len(), 2);
    assert_eq!(l.local_endpoint(1), &([100, 64, 0, 1], 443));
    assert_eq!(l.current_sockets(), vec![10, 11]);
}

#[test]
fn listener_accept_would_block_until_established() {
    let mut l = listeners();
    let h = l.listen(([0, 0, 0, 0], 80), 1);
    assert_eq!(l.accept(h), AcceptOutcome::WouldBlock);
    let plan = l.pump_plan(&vec![TcpState::Established]);
    assert_eq!(plan, vec![PumpAction::Enqueue]);
    l.pump_commit(&plan, &vec![2]);
    assert_eq!(l.current_sockets(), vec![2]);
    assert_eq!(l.accept(h), AcceptOutcome::Accepted(1));
    assert_eq!(l.accept(h), AcceptOutcome::WouldBlock);
}

#[test]
fn listener_pump_plan_covers_every_listener() {
    let l = listeners();
    let states = vec![
        TcpState::Established,
        TcpState::Closed,
        TcpState::TimeWait,
        TcpState::SynReceived,
        TcpState::Established,
    ];
    assert_eq!(
        l.pump_plan(&states),
        vec![PumpAction::Enqueue, PumpAction::Discard, PumpAction::Discard, PumpAction::Keep, PumpAction::Enqueue]
    );
    assert_eq!(
        l.pump_plan(&vec![TcpState::Listen, TcpState::Established]),
        vec![PumpAction::Keep, PumpAction::Enqueue]
    );
    assert_eq!(l.pump_plan(&vec![TcpState::SynSent]), vec![PumpAction::Keep]);
    assert!(l.pump_plan(&vec![]).is_empty());
}

#[test]
fn listener_pump_keeps_pending_and_serves_later_listeners() {
    let mut l = listeners();
    let first = l.listen(([0, 0, 0, 0], 80), 1);
    let second = l.listen(([0, 0, 0, 0], 81), 2);
    let plan = l.pump_plan(&vec![TcpState::Listen, TcpState::Established]);
    l.pump_commit(&plan, &vec![1, 3]);
    assert_eq!(l.current_sockets(), vec![1, 3]);
    assert_eq!(l.accept(first), AcceptOutcome::WouldBlock);
    assert_eq!(l.accept(second), AcceptOutcome::Accepted(2));
    assert!(l.take_pending_closes().is_empty());
}

#[test]
fn listener_process_listen_outcomes() {
    let mut l = listeners();
    assert_eq!(
        l.process_listen(([0, 0, 0, 0], 0), Err(SocketOpFailure::Unaddressable)),
        Err(NetstackError::BadRequest)
    );
    assert_eq!(
        l.process_listen(([0, 0, 0, 0], 80), Err(SocketOpFailure::InvalidState)),
        Err(NetstackError::InvariantViolated)
    );
    assert_eq!(l.len(), 0);
    let h = l.process_listen(([0, 0, 0, 0], 80), Ok(7)).unwrap();
    assert_eq!(l.len(), 1);
    assert_eq!(l.current_sockets(), vec![7]);
    assert_eq!(l.accept(h), AcceptOutcome::WouldBlock);
    let h2 = l.process_listen(([0, 0, 0, 0], 81), Ok(8)).unwrap();
    assert!(h < h2);
}

#[test]
fn listener_discarded_socket_is_closed() {
    let mut l = listeners();
    let h = l.listen(([0, 0, 0, 0], 22), 5);
    let plan = l.pump_plan(&vec![TcpState::CloseWait]);
    assert_eq!(plan, vec![PumpAction::Discard]);
    l.pump_commit(&plan, &vec![6]);
    assert_eq!(l.take_pending_closes(), vec![5]);
    assert!(l.take_pending_closes().is_empty());
    assert_eq!(l.accept(h), AcceptOutcome::WouldBlock);
}

#[test]
fn listener_close_releases_all_sockets() {
    let mut l = listeners();
    let h = l.listen(([0, 0, 0, 0], 80), 1);
    let other = l.listen(([0, 0, 0, 0], 81), 50);
    l.pump_commit(&vec![PumpAction::Enqueue], &vec![2]);
    l.pump_commit(&vec![PumpAction::Enqueue], &vec![3]);
    assert_eq!(l.close(h), Ok(vec![3, 1, 2]));
    assert_eq!(l.take_pending_closes(), vec![3, 1, 2]);
    assert_eq!(l.len(), 1);
    assert_eq!(l.accept(h), AcceptOutcome::Error(NetstackError::BadRequest));
    assert_eq!(l.close(h), Err(NetstackError::BadRequest));
    assert_eq!(l.accept(other), AcceptOutcome::WouldBlock);
}
