//! Nodes of a tailnet, as the rest of the node sees them.
use vstd::prelude::*;

verus! {

/// The unique id of a node.
pub type Id = i64;

/// The stable ID of a node.
#[derive(Debug, Clone, PartialEq, Eq, Hash)]
pub struct StableId(pub String);

/// An IPv4 network: an address and a prefix length.
#[derive(Debug, Clone, Copy, PartialEq, Eq, Hash)]
pub struct Ipv4Prefix {
    pub addr: [u8; 4],
    pub prefix_len: u8,
}

/// An IPv6 network: an address and a prefix length.
#[derive(Debug, Clone, Copy, PartialEq, Eq, Hash)]
pub struct Ipv6Prefix {
    pub addr: [u8; 16],
    pub prefix_len: u8,
}

/// An IP network of either family.
#[derive(Debug, Clone, Copy, PartialEq, Eq, Hash)]
pub enum IpPrefix {
    V4(Ipv4Prefix),
    V6(Ipv6Prefix),
}

/// An IP address of either family.
#[derive(Debug, Clone, Copy, PartialEq, Eq, Hash)]
pub enum IpAddress {
    V4([u8; 4]),
    V6([u8; 16]),
}

/// A socket address: an IP address and a port (and, for IPv6, the flow info and scope id).
#[derive(Debug, Clone, Copy, PartialEq, Eq, Hash)]
pub enum SocketAddress {
    V4 { addr: [u8; 4], port: u16 },
    V6 { addr: [u8; 16], port: u16, flowinfo: u32, scope_id: u32 },
}

/// A point in time, as seconds and nanoseconds since the Unix epoch (UTC).
#[derive(Debug, Clone, Copy, PartialEq, Eq, Hash)]
pub struct Timestamp {
    pub secs: i64,
    pub nanos: u32,
}

/// Addresses for a node within a tailnet.
#[derive(Debug, Clone, Copy, PartialEq, Eq, Hash)]
pub struct TailnetAddress {
    /// The IPv4 address of the node in the tailnet.
    pub ipv4: Ipv4Prefix,
    /// The IPv6 address of the node in the tailnet.
    pub ipv6: Ipv6Prefix,
}

/// Whether two byte arrays hold the same bytes.
fn same_bytes<const N: usize>(a: &[u8; N], b: &[u8; N]) -> (r: bool)
    ensures
        r == (a@ == b@),
{
    let mut i: usize = 0;
    while i < N
        invariant
            i <= N,
            a@.len() == N,
            b@.len() == N,
            forall|j: int| 0 <= j < i ==> a@[j] == b@[j],
        decreases N - i,
    {
        if a[i] != b[i] {
            return false;
        }
        i = i + 1;
    }
    assert(a@ =~= b@);
    true
}

impl TailnetAddress {
    /// Whether `addr` is the address of one of the two networks.
    pub open spec fn spec_contains(&self, addr: IpAddress) -> bool {
        match addr {
            IpAddress::V4(a) => self.ipv4.addr@ == a@,
            IpAddress::V6(a) => self.ipv6.addr@ == a@,
        }
    }

    /// Report whether `addr` matches either address in this [`TailnetAddress`].
    pub fn contains(&self, addr: IpAddress) -> (r: bool)
        ensures
            r == self.spec_contains(addr),
            r <==> (addr == IpAddress::V4(self.ipv4.addr) || addr == IpAddress::V6(self.ipv6.addr)),
    {
        proof {
            lemma_contains_is_equality(*self, addr);
        }
        match addr {
            IpAddress::V4(a) => same_bytes(&self.ipv4.addr, &a),
            IpAddress::V6(a) => same_bytes(&self.ipv6.addr, &a),
        }
    }
}

/// An address matches a node's tailnet addresses exactly when it is one of them, all its
/// bytes equal: its IPv4 address for an IPv4 address, its IPv6 address for an IPv6 one.
pub proof fn lemma_contains_is_equality(t: TailnetAddress, addr: IpAddress)
    ensures
        t.spec_contains(addr) <==> (addr == IpAddress::V4(t.ipv4.addr) || addr == IpAddress::V6(t.ipv6.addr)),
        forall|i: int| #![trigger t.ipv6.addr@[i]]
            addr is V6 && 0 <= i < 16 && t.ipv6.addr@[i] != addr->V6_0@[i] ==> !t.spec_contains(addr),
        forall|i: int| #![trigger t.ipv4.addr@[i]]
            addr is V4 && 0 <= i < 4 && t.ipv4.addr@[i] != addr->V4_0@[i] ==> !t.spec_contains(addr),
{
    broadcast use vstd::array::group_array_axioms;

    match addr {
        IpAddress::V4(a) => {
            if t.ipv4.addr@ == a@ {
                assert(t.ipv4.addr =~= a);
            }
        },
        IpAddress::V6(a) => {
            if t.ipv6.addr@ == a@ {
                assert(t.ipv6.addr =~= a);
            }
        },
    }
}

/// A node as the control server describes it.
#[derive(Debug, PartialEq, Eq)]
pub struct NodeRecord {
    pub id: Id,
    pub stable_id: String,
    pub name: String,
    pub tags: Option<Vec<String>>,
    pub addresses: (Ipv4Prefix, Ipv6Prefix),
    pub key: [u8; 32],
    pub key_expiry: Option<Timestamp>,
    pub machine: Option<[u8; 32]>,
    pub disco_key: Option<[u8; 32]>,
    pub allowed_ips: Option<Vec<IpPrefix>>,
    pub endpoints: Vec<SocketAddress>,
    pub home_derp: Option<u32>,
    pub legacy_derp_string: Option<u32>,
    /// The preferred DERP region from the host's network info, where that info is present.
    pub preferred_derp: Option<u32>,
}

/// A node in a tailnet.
#[derive(Debug, Clone, PartialEq, Eq, Hash)]
pub struct Node {
    /// The node's id.
    pub id: Id,
    /// The node's stable id.
    pub stable_id: StableId,
    /// The name of the node.
    pub name: String,
    /// The tags assigned to this node.
    pub tags: Vec<String>,
    /// The address of the node in the tailnet.
    pub tailnet_address: TailnetAddress,
    /// The node's public key.
    pub node_key: [u8; 32],
    /// The node key's expiration.
    pub node_key_expiry: Option<Timestamp>,
    /// The node's machine public key, if known.
    pub machine_key: Option<[u8; 32]>,
    /// The node's disco public key, if known.
    pub disco_key: Option<[u8; 32]>,
    /// The routes this node accepts traffic for.
    pub accepted_routes: Vec<IpPrefix>,
    /// The underlay addresses this node is reachable on.
    pub underlay_addresses: Vec<SocketAddress>,
    /// The DERP region for this node, if known.
    pub derp_region: Option<u32>,
}

/// What a node takes from a record: the allowed routes as they are, or else the node's two
/// networks; the tags as they are, or else none; the first DERP region present of home,
/// legacy and preferred.
pub proof fn lemma_record_fallbacks(r: NodeRecord)
    ensures
        r.allowed_ips is Some ==> accepted_routes_of(r) == r.allowed_ips.unwrap()@,
        r.allowed_ips is Some ==> accepted_routes_of(r).len() == r.allowed_ips.unwrap()@.len(),
        r.allowed_ips is None ==> accepted_routes_of(r) == seq![IpPrefix::V4(r.addresses.0), IpPrefix::V6(r.addresses.1)],
        r.tags is Some ==> tags_of(r) == r.tags.unwrap()@,
        r.tags is None ==> tags_of(r).len() == 0,
        r.home_derp is Some ==> first_present(r.home_derp, r.legacy_derp_string, r.preferred_derp) == r.home_derp,
        r.home_derp is None && r.legacy_derp_string is Some ==> first_present(
            r.home_derp,
            r.legacy_derp_string,
            r.preferred_derp,
        ) == r.legacy_derp_string,
        r.home_derp is None && r.legacy_derp_string is None ==> first_present(
            r.home_derp,
            r.legacy_derp_string,
            r.preferred_derp,
        ) == r.preferred_derp,
{
}

/// The first of `a`, `b`, `c` that is present.
pub open spec fn first_present(a: Option<u32>, b: Option<u32>, c: Option<u32>) -> Option<u32> {
    if a is Some {
        a
    } else if b is Some {
        b
    } else {
        c
    }
}

/// The routes a node accepts: those the record allows, or else the node's own two networks.
pub open spec fn accepted_routes_of(r: NodeRecord) -> Seq<IpPrefix> {
    match r.allowed_ips {
        Some(v) => v@,
        None => seq![IpPrefix::V4(r.addresses.0), IpPrefix::V6(r.addresses.1)],
    }
}

/// The tags of a node: those of the record, or none.
pub open spec fn tags_of(r: NodeRecord) -> Seq<String> {
    match r.tags {
        Some(v) => v@,
        None => Seq::empty(),
    }
}

fn clone_strings(v: &Vec<String>) -> (r: Vec<String>)
    ensures
        r@ == v@,
{
    let mut r: Vec<String> = Vec::new();
    let mut i: usize = 0;
    while i < v.len()
        invariant
            i <= v@.len(),
            r@ == v@.take(i as int),
        decreases v@.len() - i,
    {
        r.push(v[i].clone());
        proof {
            assert(v@.take(i + 1) =~= v@.take(i as int).push(v@[i as int]));
        }
        i = i + 1;
    }
    proof {
        assert(v@.take(v@.len() as int) =~= v@);
    }
    r
}

fn clone_prefixes(v: &Vec<IpPrefix>) -> (r: Vec<IpPrefix>)
    ensures
        r@ == v@,
{
    let mut r: Vec<IpPrefix> = Vec::new();
    let mut i: usize = 0;
    while i < v.len()
        invariant
            i <= v@.len(),
            r@ == v@.take(i as int),
        decreases v@.len() - i,
    {
        r.push(v[i]);
        proof {
            assert(v@.take(i + 1) =~= v@.take(i as int).push(v@[i as int]));
        }
        i = i + 1;
    }
    proof {
        assert(v@.take(v@.len() as int) =~= v@);
    }
    r
}

fn clone_sockets(v: &Vec<SocketAddress>) -> (r: Vec<SocketAddress>)
    ensures
        r@ == v@,
{
    let mut r: Vec<SocketAddress> = Vec::new();
    let mut i: usize = 0;
    while i < v.len()
        invariant
            i <= v@.len(),
            r@ == v@.take(i as int),
        decreases v@.len() - i,
    {
        r.push(v[i]);
        proof {
            assert(v@.take(i + 1) =~= v@.take(i as int).push(v@[i as int]));
        }
        i = i + 1;
    }
    proof {
        assert(v@.take(v@.len() as int) =~= v@);
    }
    r
}

impl Node {
    /// The node that a control record describes. Missing tags become none; missing allowed
    /// routes become the node's own two networks; the DERP region is the home region, else
    /// the legacy one, else the host's preferred one.
    pub fn from_record(value: &NodeRecord) -> (r: Node)
        ensures
            r.id == value.id,
            r.stable_id.0@ == value.stable_id@,
            r.name@ == value.name@,
            r.tags@ == tags_of(*value),
            r.tailnet_address == (TailnetAddress { ipv4: value.addresses.0, ipv6: value.addresses.1 }),
            r.node_key == value.key,
            r.node_key_expiry == value.key_expiry,
            r.machine_key == value.machine,
            r.disco_key == value.disco_key,
            r.accepted_routes@ == accepted_routes_of(*value),
            r.underlay_addresses@ == value.endpoints@,
            r.derp_region == first_present(value.home_derp, value.legacy_derp_string, value.preferred_derp),
            value.tags is Some ==> r.tags@ == value.tags.unwrap()@,
            value.tags is None ==> r.tags@.len() == 0,
            value.allowed_ips is Some ==> r.accepted_routes@ == value.allowed_ips.unwrap()@,
            value.allowed_ips is None ==> r.accepted_routes@ == seq![
                IpPrefix::V4(value.addresses.0),
                IpPrefix::V6(value.addresses.1),
            ],
            value.home_derp is Some ==> r.derp_region == value.home_derp,
            value.home_derp is None && value.legacy_derp_string is Some ==> r.derp_region
                == value.legacy_derp_string,
            value.home_derp is None && value.legacy_derp_string is None ==> r.derp_region
                == value.preferred_derp,
    {
        let tags = match &value.tags {
            Some(t) => clone_strings(t),
            None => Vec::new(),
        };
        let accepted_routes = match &value.allowed_ips {
            Some(a) => clone_prefixes(a),
            None => {
                let mut v: Vec<IpPrefix> = Vec::new();
                v.push(IpPrefix::V4(value.addresses.0));
                v.push(IpPrefix::V6(value.addresses.1));
                assert(v@ =~= seq![IpPrefix::V4(value.addresses.0), IpPrefix::V6(value.addresses.1)]);
                v
            },
        };
        let derp_region = match value.home_derp {
            Some(x) => Some(x),
            None => match value.legacy_derp_string {
                Some(x) => Some(x),
                None => value.preferred_derp,
            },
        };
        Node {
            id: value.id,
            stable_id: StableId(value.stable_id.clone()),
            name: value.name.clone(),
            tags,
            tailnet_address: TailnetAddress { ipv4: value.addresses.0, ipv6: value.addresses.1 },
            node_key: value.key,
            node_key_expiry: value.key_expiry,
            machine_key: value.machine,
            disco_key: value.disco_key,
            accepted_routes,
            underlay_addresses: clone_sockets(&value.endpoints),
            derp_region,
        }
    }
}

} // verus!
