//! The keys that make up a node's identity, and their byte form for language bindings.
use noise_protocol::{U8Array, DH};
use noise_rust_crypto::sensitive::Sensitive;
use noise_rust_crypto::X25519;
use vstd::prelude::*;
use vstd::string::StringExecFns;

verus! {

/// The X25519 public key that belongs to a private key.
pub uninterp spec fn x25519_public_key(private: Seq<u8>) -> Seq<u8>;

/// Draws a fresh private key with `noise_rust_crypto::X25519::genkey`, which takes its bytes
/// from the operating system's random source. Nothing is promised of the bytes.
#[verifier::external_body]
fn random_private_key() -> (r: [u8; 32]) {
    let k = <X25519 as DH>::genkey();
    *k
}

/// The public key of `private`, from `noise_rust_crypto::X25519::pubkey`; it depends on the
/// private key's bytes alone.
#[verifier::external_body]
fn public_key_of(private: &[u8; 32]) -> (r: [u8; 32])
    ensures
        r@ == x25519_public_key(private@),
{
    let k = <Sensitive<[u8; 32]> as U8Array>::from_slice(private);
    <X25519 as DH>::pubkey(&k)
}

/// A private key and the public key that belongs to it.
#[derive(Clone, Copy)]
pub struct KeyPair {
    pub private: [u8; 32],
    pub public: [u8; 32],
}

impl KeyPair {
    /// The public key is the one that belongs to the private key.
    pub open spec fn wf(&self) -> bool {
        self.public@ == x25519_public_key(self.private@)
    }

    /// The pair that `private` starts.
    pub fn from_private(private: [u8; 32]) -> (r: KeyPair)
        ensures
            r.private == private,
            r.wf(),
    {
        let public = public_key_of(&private);
        KeyPair { private, public }
    }

    /// A pair with a fresh random private key.
    pub fn generate() -> (r: KeyPair)
        ensures
            r.wf(),
    {
        KeyPair::from_private(random_private_key())
    }
}

/// The complete key state for a Tailscale node.
#[derive(Clone, Copy)]
pub struct NodeState {
    /// The pair this peer uses for the Disco protocol.
    pub disco_keys: KeyPair,
    /// The pair for the hardware this peer runs on.
    pub machine_keys: KeyPair,
    /// The pair for this peer's use of Tailnet Lock.
    pub network_lock_keys: KeyPair,
    /// The pair for this peer.
    pub node_keys: KeyPair,
}

impl NodeState {
    /// Each of the four pairs is well formed.
    pub open spec fn wf(&self) -> bool {
        &&& self.disco_keys.wf()
        &&& self.machine_keys.wf()
        &&& self.network_lock_keys.wf()
        &&& self.node_keys.wf()
    }

    /// Generate a new [`NodeState`]. All keys get random values.
    pub fn generate() -> (r: NodeState)
        ensures
            r.wf(),
    {
        NodeState {
            disco_keys: KeyPair::generate(),
            machine_keys: KeyPair::generate(),
            network_lock_keys: KeyPair::generate(),
            node_keys: KeyPair::generate(),
        }
    }

    /// The key state whose private keys `value` holds; `Err` unless each of them is 32 bytes.
    pub fn try_from_keystate(value: &Keystate) -> (r: Result<NodeState, ()>)
        ensures
            r is Ok <==> value.is_valid(),
            r is Ok ==> ({
                let s = r.unwrap();
                &&& s.wf()
                &&& s.machine_keys.private@ == value.machine@
                &&& s.node_keys.private@ == value.node@
                &&& s.disco_keys.private@ == value.disco@
                &&& s.network_lock_keys.private@ == value.network_lock@
            }),
    {
        let machine = match key_bytes(&value.machine) {
            Some(k) => k,
            None => return Err(()),
        };
        let node = match key_bytes(&value.node) {
            Some(k) => k,
            None => return Err(()),
        };
        let disco = match key_bytes(&value.disco) {
            Some(k) => k,
            None => return Err(()),
        };
        let network_lock = match key_bytes(&value.network_lock) {
            Some(k) => k,
            None => return Err(()),
        };
        Ok(NodeState {
            machine_keys: KeyPair::from_private(machine),
            node_keys: KeyPair::from_private(node),
            disco_keys: KeyPair::from_private(disco),
            network_lock_keys: KeyPair::from_private(network_lock),
        })
    }
}

/// The 32 bytes of `v`, if it holds exactly that many.
fn key_bytes(v: &Vec<u8>) -> (r: Option<[u8; 32]>)
    ensures
        r is Some <==> v@.len() == 32,
        r is Some ==> r.unwrap()@ == v@,
{
    if v.len() != 32 {
        return None;
    }
    let mut k = [0u8; 32];
    let mut i: usize = 0;
    while i < 32
        invariant
            v@.len() == 32,
            i <= 32,
            forall|j: int| 0 <= j < i ==> k@[j] == v@[j],
        decreases 32 - i,
    {
        k[i] = v[i];
        i = i + 1;
    }
    assert(k@ =~= v@);
    Some(k)
}

/// The bytes of `k`, as a vector.
fn key_vec(k: &[u8; 32]) -> (r: Vec<u8>)
    ensures
        r@ == k@,
{
    let mut v: Vec<u8> = Vec::new();
    let mut i: usize = 0;
    while i < 32
        invariant
            i <= 32,
            v@ == k@.take(i as int),
        decreases 32 - i,
    {
        v.push(k[i]);
        proof {
            assert(k@.take(i + 1) =~= k@.take(i as int).push(k@[i as int]));
        }
        i = i + 1;
    }
    assert(k@.take(32) =~= k@);
    v
}

/// A node's private keys as plain bytes, the form in which bindings to other languages hold them.
#[derive(Debug, Clone, PartialEq, Eq)]
pub struct Keystate {
    /// Machine key.
    pub machine: Vec<u8>,
    /// Node (device) key.
    pub node: Vec<u8>,
    /// Disco key.
    pub disco: Vec<u8>,
    /// Network lock key.
    pub network_lock: Vec<u8>,
}

impl Keystate {
    /// Each of the four keys is 32 bytes long.
    pub open spec fn is_valid(&self) -> bool {
        &&& self.machine@.len() == 32
        &&& self.node@.len() == 32
        &&& self.disco@.len() == 32
        &&& self.network_lock@.len() == 32
    }

    /// The private keys of `value`.
    pub fn from_node_state(value: NodeState) -> (r: Keystate)
        ensures
            r.machine@ == value.machine_keys.private@,
            r.node@ == value.node_keys.private@,
            r.disco@ == value.disco_keys.private@,
            r.network_lock@ == value.network_lock_keys.private@,
    {
        Keystate {
            machine: key_vec(&value.machine_keys.private),
            node: key_vec(&value.node_keys.private),
            disco: key_vec(&value.disco_keys.private),
            network_lock: key_vec(&value.network_lock_keys.private),
        }
    }

    /// A key state with the keys given, and a fresh random private key for each one that is
    /// not given.
    pub fn new(
        machine: Option<Vec<u8>>,
        node: Option<Vec<u8>>,
        disco: Option<Vec<u8>>,
        network_lock: Option<Vec<u8>>,
    ) -> (r: Keystate)
        ensures
            machine is Some ==> r.machine@ == machine.unwrap()@,
            machine is None ==> r.machine@.len() == 32,
            node is Some ==> r.node@ == node.unwrap()@,
            node is None ==> r.node@.len() == 32,
            disco is Some ==> r.disco@ == disco.unwrap()@,
            disco is None ==> r.disco@.len() == 32,
            network_lock is Some ==> r.network_lock@ == network_lock.unwrap()@,
            network_lock is None ==> r.network_lock@.len() == 32,
    {
        let mut out = Keystate::from_node_state(NodeState::generate());
        if let Some(machine) = machine {
            out.machine = machine;
        }
        if let Some(node) = node {
            out.node = node;
        }
        if let Some(disco) = disco {
            out.disco = disco;
        }
        if let Some(network_lock) = network_lock {
            out.network_lock = network_lock;
        }
        out
    }

    /// How the key state shows itself: its four public keys in hex, or a mark that it is
    /// not valid.
    pub fn repr(&self) -> (r: String)
        ensures
            r@ == keystate_repr(*self),
    {
        match NodeState::try_from_keystate(self) {
            Ok(state) => describe_public_keys(
                &state.machine_keys.public,
                &state.node_keys.public,
                &state.disco_keys.public,
                &state.network_lock_keys.public,
            ),
            Err(_) => {
                proof {
                    reveal_strlit("tailscale.Keystate(<invalid>)");
                }
                String::from_str("tailscale.Keystate(<invalid>)")
            },
        }
    }
}

/// A key state turned into bytes (`Keystate::from_node_state`) and back
/// (`NodeState::try_from_keystate`) is the key state it was: the bytes are valid, and any
/// well-formed state with those private keys is the one it started from.
pub proof fn lemma_keystate_round_trip(s: NodeState, k: Keystate, t: NodeState)
    requires
        s.wf(),
        t.wf(),
        k.machine@ == s.machine_keys.private@,
        k.node@ == s.node_keys.private@,
        k.disco@ == s.disco_keys.private@,
        k.network_lock@ == s.network_lock_keys.private@,
        t.machine_keys.private@ == k.machine@,
        t.node_keys.private@ == k.node@,
        t.disco_keys.private@ == k.disco@,
        t.network_lock_keys.private@ == k.network_lock@,
    ensures
        k.is_valid(),
        t == s,
{
    broadcast use vstd::array::group_array_axioms;

    assert(t.machine_keys.private =~= s.machine_keys.private);
    assert(t.machine_keys.public =~= s.machine_keys.public);
    assert(t.node_keys.private =~= s.node_keys.private);
    assert(t.node_keys.public =~= s.node_keys.public);
    assert(t.disco_keys.private =~= s.disco_keys.private);
    assert(t.disco_keys.public =~= s.disco_keys.public);
    assert(t.network_lock_keys.private =~= s.network_lock_keys.private);
    assert(t.network_lock_keys.public =~= s.network_lock_keys.public);
}

/// The lowercase hexadecimal digit for `d`, below 16.
pub open spec fn hex_char(d: int) -> char {
    if d == 0 { '0' }
    else if d == 1 { '1' }
    else if d == 2 { '2' }
    else if d == 3 { '3' }
    else if d == 4 { '4' }
    else if d == 5 { '5' }
    else if d == 6 { '6' }
    else if d == 7 { '7' }
    else if d == 8 { '8' }
    else if d == 9 { '9' }
    else if d == 10 { 'a' }
    else if d == 11 { 'b' }
    else if d == 12 { 'c' }
    else if d == 13 { 'd' }
    else if d == 14 { 'e' }
    else { 'f' }
}

/// `bytes` in lowercase hexadecimal, two digits a byte, most significant digit first.
pub open spec fn hex_encode(bytes: Seq<u8>) -> Seq<char>
    decreases bytes.len(),
{
    if bytes.len() == 0 {
        Seq::empty()
    } else {
        hex_encode(bytes.drop_last()) + seq![hex_char(bytes.last() as int / 16), hex_char(bytes.last() as int % 16)]
    }
}

/// The text that shows the four public keys.
pub open spec fn public_keys_repr(machine: Seq<u8>, node: Seq<u8>, disco: Seq<u8>, network_lock: Seq<u8>) -> Seq<char> {
    "tailscale.Keystate(machine="@ + hex_encode(machine) + ", node="@ + hex_encode(node) + ", disco="@
        + hex_encode(disco) + ", network_lock="@ + hex_encode(network_lock) + ")"@
}

/// The text that shows a key state.
pub open spec fn keystate_repr(k: Keystate) -> Seq<char> {
    if k.is_valid() {
        public_keys_repr(
            x25519_public_key(k.machine@),
            x25519_public_key(k.node@),
            x25519_public_key(k.disco@),
            x25519_public_key(k.network_lock@),
        )
    } else {
        "tailscale.Keystate(<invalid>)"@
    }
}

/// The digit `d`, below 16, as text.
fn hex_digit(d: u8) -> (r: &'static str)
    requires
        d < 16,
    ensures
        r@ == seq![hex_char(d as int)],
{
    if d == 0 { proof { reveal_strlit("0"); } "0" }
    else if d == 1 { proof { reveal_strlit("1"); } "1" }
    else if d == 2 { proof { reveal_strlit("2"); } "2" }
    else if d == 3 { proof { reveal_strlit("3"); } "3" }
    else if d == 4 { proof { reveal_strlit("4"); } "4" }
    else if d == 5 { proof { reveal_strlit("5"); } "5" }
    else if d == 6 { proof { reveal_strlit("6"); } "6" }
    else if d == 7 { proof { reveal_strlit("7"); } "7" }
    else if d == 8 { proof { reveal_strlit("8"); } "8" }
    else if d == 9 { proof { reveal_strlit("9"); } "9" }
    else if d == 10 { proof { reveal_strlit("a"); } "a" }
    else if d == 11 { proof { reveal_strlit("b"); } "b" }
    else if d == 12 { proof { reveal_strlit("c"); } "c" }
    else if d == 13 { proof { reveal_strlit("d"); } "d" }
    else if d == 14 { proof { reveal_strlit("e"); } "e" }
    else { proof { reveal_strlit("f"); } "f" }
}

/// Append `bytes` in hexadecimal to `s`.
fn append_hex(s: &mut String, bytes: &[u8; 32])
    ensures
        final(s)@ == old(s)@ + hex_encode(bytes@),
{
    let ghost start = s@;
    let mut i: usize = 0;
    proof {
        assert(bytes@.take(0) =~= Seq::<u8>::empty());
        assert(start + hex_encode(Seq::<u8>::empty()) =~= start);
    }
    while i < 32
        invariant
            i <= 32,
            s@ == start + hex_encode(bytes@.take(i as int)),
        decreases 32 - i,
    {
        let b = bytes[i];
        s.append(hex_digit(b / 16));
        s.append(hex_digit(b % 16));
        proof {
            let t = bytes@.take(i + 1);
            assert(t.drop_last() =~= bytes@.take(i as int));
            assert(t.last() == b);
            assert(s@ =~= start + hex_encode(t));
        }
        i = i + 1;
    }
    assert(bytes@.take(32) =~= bytes@);
}

/// The text that shows a key state with these four public keys.
pub fn describe_public_keys(machine: &[u8; 32], node: &[u8; 32], disco: &[u8; 32], network_lock: &[u8; 32]) -> (r: String)
    ensures
        r@ == public_keys_repr(machine@, node@, disco@, network_lock@),
{
    let mut s = String::new();
    s.append("tailscale.Keystate(machine=");
    append_hex(&mut s, machine);
    s.append(", node=");
    append_hex(&mut s, node);
    s.append(", disco=");
    append_hex(&mut s, disco);
    s.append(", network_lock=");
    append_hex(&mut s, network_lock);
    s.append(")");
    proof {
        assert(s@ =~= public_keys_repr(machine@, node@, disco@, network_lock@));
    }
    s
}

} // verus!
