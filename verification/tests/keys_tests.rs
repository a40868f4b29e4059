use noise_protocol::{U8Array, DH};
use noise_rust_crypto::sensitive::Sensitive;
use noise_rust_crypto::X25519;
use tailscale::keys::{describe_public_keys, KeyPair, Keystate, NodeState};

fn public_of(private: &[u8; 32]) -> [u8; 32] {
    X25519::pubkey(&Sensitive::<[u8; 32]>::from_slice(private))
}

fn hex(bytes: &[u8]) -> String {
    bytes.iter().map(|b| format!("{b:02x}")).collect()
}

#[test]
fn key_pair_public_matches_private() {
    let pair = KeyPair::from_private([9u8; 32]);
    assert_eq!(pair.private, [9u8; 32]);
    assert_eq!(pair.public, public_of(&[9u8; 32]));
    assert_ne!(pair.public, pair.private);
}

#[test]
fn generated_state_is_consistent_and_random() {
    let a = NodeState::generate();
    let b = NodeState::generate();
    for pair in [a.machine_keys, a.node_keys, a.disco_keys, a.network_lock_keys] {
        assert_eq!(pair.public, public_of(&pair.private));
    }
    assert_ne!(a.machine_keys.private, b.machine_keys.private);
    assert_ne!(a.machine_keys.private, a.node_keys.private);
}

#[test]
fn keystate_round_trip() {
    let state = NodeState::generate();
    let ks = Keystate::from_node_state(state);
    assert_eq!(ks.machine, state.machine_keys.private.to_vec());
    assert_eq!(ks.network_lock, state.network_lock_keys.private.to_vec());
    let back = NodeState::try_from_keystate(&ks).unwrap();
    assert_eq!(back.machine_keys.private, state.machine_keys.private);
    assert_eq!(back.node_keys.public, state.node_keys.public);
    assert_eq!(back.disco_keys.public, state.disco_keys.public);
    assert_eq!(back.network_lock_keys.public, state.network_lock_keys.public);
}

#[test]
fn keystate_rejects_wrong_lengths() {
    let mut ks = Keystate::new(None, None, None, None);
    assert!(NodeState::try_from_keystate(&ks).is_ok());
    ks.disco = vec![1, 2, 3];
    assert_eq!(NodeState::try_from_keystate(&ks).err(), Some(()));
    ks.disco = vec![0; 33];
    assert_eq!(NodeState::try_from_keystate(&ks).err(), Some(()));
}

#[test]
fn keystate_new_keeps_given_keys() {
    let ks = Keystate::new(Some(vec![1; 32]), None, Some(vec![5, 6]), None);
    assert_eq!(ks.machine, vec![1; 32]);
    assert_eq!(ks.node.len(), 32);
    assert_eq!(ks.disco, vec![5, 6]);
    assert_eq!(ks.network_lock.len(), 32);
}

#[test]
fn keystate_repr_shows_public_keys() {
    let ks = Keystate::new(Some(vec![1; 32]), Some(vec![2; 32]), Some(vec![3; 32]), Some(vec![4; 32]));
    let expected = format!(
        "tailscale.Keystate(machine={}, node={}, disco={}, network_lock={})",
        hex(&public_of(&[1; 32])),
        hex(&public_of(&[2; 32])),
        hex(&public_of(&[3; 32])),
        hex(&public_of(&[4; 32])),
    );
    assert_eq!(ks.repr(), expected);
}

#[test]
fn keystate_repr_invalid() {
    let ks = Keystate::new(Some(vec![1; 31]), None, None, None);
    assert_eq!(ks.repr(), "tailscale.Keystate(<invalid>)");
}

#[test]
fn describe_public_keys_hex() {
    let mut m = [0u8; 32];
    m[0] = 0xab;
    m[31] = 0x0f;
    let s = describe_public_keys(&m, &[0xff; 32], &[0x10; 32], &[0; 32]);
    assert_eq!(
        s,
        format!(
            "tailscale.Keystate(machine=ab{}0f, node={}, disco={}, network_lock={})",
            "00".repeat(30),
            "ff".repeat(32),
            "10".repeat(32),
            "00".repeat(32)
        )
    );
}
