use tailscale::config::{next_load_action, Config, LoadAction, ReadOutcome, DEFAULT_CONTROL_SERVER};
use tailscale::netstack::error::{
    ChannelDisconnected, Error as NetstackError, SocketOpFailure, StreamError, TcpSendFailure, UdpSendFailure,
};
use tailscale::runtime::assoc::AssocList;
use tailscale::runtime::error::{Error as RuntimeError, SendFailure};
use tailscale::runtime::peer_tracker::{PeerEntry, PeerTracker, PeerUpdate};
use tailscale::http::error::Error as HttpError;
use tailscale::Error;

fn key(b: u8) -> [u8; 32] {
    [b; 32]
}

fn entry(id: i64, k: u8, name: &str) -> PeerEntry<String> {
    PeerEntry { id, node_key: key(k), node: name.to_string() }
}

fn sorted(mut v: Vec<[u8; 32]>) -> Vec<[u8; 32]> {
    v.sort();
    v
}

#[test]
fn tracker_holds_requests_until_first_update() {
    let mut t: PeerTracker<String, u32> = PeerTracker::new();
    assert_eq!(t.peer_by_name(1), None);
    assert_eq!(t.peer_by_name(2), None);
    assert!(t.handle_update(None).is_none());
    assert_eq!(t.peer_by_name(3), None);
    let out = t.handle_update(Some(PeerUpdate::Full(vec![entry(1, 1, "a")]))).unwrap();
    assert_eq!(out.answer_now, vec![1, 2, 3]);
    assert_eq!(t.peer_by_name(4), Some(4));
    let out = t.handle_update(Some(PeerUpdate::Full(vec![]))).unwrap();
    assert!(out.answer_now.is_empty());
}

#[test]
fn tracker_full_update_replaces_peers() {
    let mut t: PeerTracker<String, u32> = PeerTracker::new();
    let out = t
        .handle_update(Some(PeerUpdate::Full(vec![entry(1, 1, "a"), entry(2, 2, "b")])))
        .unwrap();
    assert_eq!(sorted(out.changes.upserts), vec![key(1), key(2)]);
    assert!(out.changes.deletions.is_empty());
    assert_eq!(t.len(), 2);

    let out = t
        .handle_update(Some(PeerUpdate::Full(vec![entry(2, 2, "b2"), entry(3, 3, "c")])))
        .unwrap();
    assert_eq!(sorted(out.changes.upserts), vec![key(2), key(3)]);
    assert_eq!(out.changes.deletions, vec![key(1)]);
    assert_eq!(t.len(), 2);
    assert_eq!(t.peer(&key(1)), None);
    assert_eq!(t.peer(&key(2)).map(|s| s.as_str()), Some("b2"));
    assert_eq!(t.peer(&key(3)).map(|s| s.as_str()), Some("c"));
}

#[test]
fn tracker_full_update_repeated_key_keeps_last() {
    let mut t: PeerTracker<String, u32> = PeerTracker::new();
    let out = t
        .handle_update(Some(PeerUpdate::Full(vec![entry(1, 1, "first"), entry(1, 1, "second")])))
        .unwrap();
    assert_eq!(out.changes.upserts, vec![key(1)]);
    assert_eq!(t.len(), 1);
    assert_eq!(t.peer(&key(1)).map(|s| s.as_str()), Some("second"));
}

#[test]
fn tracker_delta_update() {
    let mut t: PeerTracker<String, u32> = PeerTracker::new();
    t.handle_update(Some(PeerUpdate::Full(vec![entry(1, 1, "a"), entry(2, 2, "b")])));
    let out = t
        .handle_update(Some(PeerUpdate::Delta { remove: vec![1, 99], upsert: vec![entry(3, 3, "c"), entry(2, 2, "b2")] }))
        .unwrap();
    assert_eq!(sorted(out.changes.upserts), vec![key(2), key(3)]);
    assert_eq!(out.changes.deletions, vec![key(1)]);
    assert_eq!(t.len(), 2);
    assert_eq!(t.peer(&key(1)), None);
    assert_eq!(t.peer(&key(2)).map(|s| s.as_str()), Some("b2"));
    // Removing an id that was just upserted removes the peer again.
    let out = t
        .handle_update(Some(PeerUpdate::Delta { remove: vec![4], upsert: vec![entry(4, 4, "d")] }))
        .unwrap();
    assert_eq!(out.changes.upserts, vec![key(4)]);
    assert_eq!(out.changes.deletions, vec![key(4)]);
    assert_eq!(t.peer(&key(4)), None);
    assert_eq!(t.len(), 2);
}

#[test]
fn tracker_find_peer_first_match() {
    let mut t: PeerTracker<String, u32> = PeerTracker::new();
    t.handle_update(Some(PeerUpdate::Full(vec![entry(1, 1, "alpha"), entry(2, 2, "beta"), entry(3, 3, "bravo")])));
    assert_eq!(t.find_peer(|n: &String| n.starts_with('b')).map(|s| s.as_str()), Some("beta"));
    assert_eq!(t.find_peer(|n: &String| n == "gamma"), None);
}

#[test]
fn assoc_list_map_semantics() {
    let mut m: AssocList<i64, &str> = AssocList::new();
    m.insert(5, "five");
    m.insert(7, "seven");
    m.insert(5, "FIVE");
    assert_eq!(m.len(), 2);
    assert_eq!(m.get(&5), Some(&"FIVE"));
    assert_eq!(m.keys(), vec![7, 5]);
    assert_eq!(m.remove(&7), Some("seven"));
    assert_eq!(m.remove(&7), None);
    assert_eq!(m.get(&7), None);
    m.clear();
    assert_eq!(m.len(), 0);
}

#[test]
fn device_error_from_runtime_error() {
    assert_eq!(Error::from(RuntimeError::Timeout), Error::Timeout);
    assert_eq!(Error::from(RuntimeError::RuntimeState), Error::InternalFailure);
}

#[test]
fn device_error_from_netstack_error() {
    assert_eq!(Error::from(NetstackError::TcpStream(StreamError::Reset)), Error::ConnectionReset);
    assert_eq!(Error::from(NetstackError::ChannelClosed), Error::InternalFailure);
    assert_eq!(Error::from(NetstackError::BadRequest), Error::InternalFailure);
    assert_eq!(Error::from(NetstackError::InvariantViolated), Error::InternalFailure);
    assert_eq!(Error::from(NetstackError::WrongType), Error::InternalFailure);
}

#[test]
fn runtime_error_from_send_failure() {
    assert_eq!(RuntimeError::from(SendFailure::Timeout), RuntimeError::Timeout);
    assert_eq!(RuntimeError::from(SendFailure::ActorNotRunning), RuntimeError::RuntimeState);
    assert_eq!(RuntimeError::from(SendFailure::ActorStopped), RuntimeError::RuntimeState);
    assert_eq!(RuntimeError::from(SendFailure::HandlerError), RuntimeError::RuntimeState);
    assert_eq!(RuntimeError::from(SendFailure::MailboxFull), RuntimeError::RuntimeState);
}

#[test]
fn netstack_error_from_failures() {
    assert_eq!(NetstackError::from(StreamError::Reset), NetstackError::TcpStream(StreamError::Reset));
    assert_eq!(NetstackError::from(ChannelDisconnected), NetstackError::ChannelClosed);
    assert_eq!(NetstackError::from(SocketOpFailure::InvalidState), NetstackError::InvariantViolated);
    assert_eq!(NetstackError::from(SocketOpFailure::Unaddressable), NetstackError::BadRequest);
    assert_eq!(NetstackError::from(TcpSendFailure::InvalidState), NetstackError::TcpStream(StreamError::Reset));
    assert_eq!(NetstackError::from(UdpSendFailure::Unaddressable), NetstackError::BadRequest);
    assert_eq!(NetstackError::from(UdpSendFailure::BufferFull), NetstackError::BadRequest);
}

#[test]
fn http_error_classify() {
    assert_eq!(HttpError::classify(true, true, false), HttpError::Timeout);
    assert_eq!(HttpError::classify(false, true, false), HttpError::InvalidParam);
    assert_eq!(HttpError::classify(false, false, true), HttpError::InvalidParam);
    assert_eq!(HttpError::classify(false, false, false), HttpError::Io);
}

#[test]
fn config_load_steps() {
    assert!(matches!(next_load_action::<u8, &str>(ReadOutcome::NotFound), LoadAction::SaveDefaultAndRetry));
    assert!(matches!(next_load_action::<u8, &str>(ReadOutcome::Invalid), LoadAction::SaveDefaultAndRetry));
    assert!(matches!(next_load_action::<u8, &str>(ReadOutcome::Failed("denied")), LoadAction::Fail("denied")));
    assert!(matches!(next_load_action::<u8, &str>(ReadOutcome::Parsed(7)), LoadAction::Done(7)));
}

#[test]
fn config_control_config() {
    let mut c = Config::default();
    assert!(c.control_server_url.is_none());
    assert!(c.hostname.is_none());
    let cc = c.control_config_with(Some("machine".to_string()));
    assert_eq!(cc.server_url, DEFAULT_CONTROL_SERVER);
    assert_eq!(cc.server_url, "https://controlplane.tailscale.com/");
    assert_eq!(cc.hostname.as_deref(), Some("machine"));
    assert_eq!(c.control_config_with(None).hostname, None);
    c.control_server_url = Some("https://example.com/".to_string());
    c.hostname = Some("node1".to_string());
    let cc = c.control_config_with(Some("machine".to_string()));
    assert_eq!(cc.server_url, "https://example.com/");
    assert_eq!(cc.hostname.as_deref(), Some("node1"));
    let cc = c.control_config();
    assert_eq!(cc.server_url, "https://example.com/");
    assert_eq!(cc.hostname.as_deref(), Some("node1"));
}

fn name_is(n: &String, q: &(u32, &str)) -> bool {
    n == q.1
}

#[test]
fn tracker_answers_held_requests_on_first_update() {
    let mut t: PeerTracker<String, (u32, &str)> = PeerTracker::new();
    assert!(t.peer_by_name_and_answer((1, "b"), name_is).is_none());
    assert!(t.peer_by_name_and_answer((2, "zz"), name_is).is_none());
    assert!(t.handle_update_and_answer(None, name_is).is_none());
    let (changes, answers) = t
        .handle_update_and_answer(Some(PeerUpdate::Full(vec![entry(1, 1, "a"), entry(2, 2, "b")])), name_is)
        .unwrap();
    assert_eq!(sorted(changes.upserts), vec![key(1), key(2)]);
    assert_eq!(answers, vec![((1, "b"), Some(key(2))), ((2, "zz"), None)]);
    assert_eq!(t.peer_by_name_and_answer((3, "a"), name_is), Some(((3, "a"), Some(key(1)))));
    let (_, answers) = t.handle_update_and_answer(Some(PeerUpdate::Full(vec![])), name_is).unwrap();
    assert!(answers.is_empty());
}

#[test]
fn tracker_peer_list_snapshot() {
    let mut t: PeerTracker<String, u32> = PeerTracker::new();
    t.handle_update(Some(PeerUpdate::Full(vec![entry(1, 1, "a"), entry(2, 2, "b")])));
    let list: Vec<([u8; 32], String)> = t.peer_list().into_iter().map(|(k, n)| (k, n.clone())).collect();
    assert_eq!(list, vec![(key(1), "a".to_string()), (key(2), "b".to_string())]);
    let answers = t.answer_requests(vec![5, 6], |n: &String, q: &u32| (*q == 6) == (n == "b"));
    assert_eq!(answers, vec![(5, Some(key(1))), (6, Some(key(2)))]);
}
