//! Bookkeeping for TCP listeners.
//!
//! The sockets of the underlying stack have no listener abstraction, only plain sockets with
//! their own state machines: a socket listening for a connection becomes the established
//! connection, so a listener needs a new listening socket each time one connects. A listener
//! here is a persistent object that keeps the listening socket current and queues the
//! established connections until they are accepted.
//!
//! The socket operations themselves (creating, closing, querying) are done by the caller; the
//! registry decides which sockets to create, close and hand out.
use std::collections::VecDeque;
use vstd::prelude::*;

use super::error::{Error, SocketOpFailure};

verus! {

/// Opaque handle to a TCP listener.
#[derive(Copy, Clone, Debug, PartialEq, Eq, PartialOrd, Ord, Hash, Structural)]
pub struct ListenerHandle(usize);

impl ListenerHandle {
    /// The number that identifies the listener.
    pub closed spec fn id(self) -> usize {
        self.0
    }
}

/// State for a particular TCP listener: the listening socket and the sockets that have
/// upgraded from the listening state and wait to be accepted.
pub struct TcpListenerState<H, E> {
    /// The local endpoint on which this listener is listening.
    local_endpoint: E,
    /// Socket currently in listening state and waiting for a new connection.
    current_socket_handle: H,
    /// Sockets which have upgraded from the listening state and are waiting to be accepted.
    accept_queue: VecDeque<H>,
}

/// What a listener looks like: its number, endpoint, listening socket and queued sockets.
pub struct ListenerView<H, E> {
    pub id: usize,
    pub local_endpoint: E,
    pub current: H,
    pub queue: Seq<H>,
}

/// The TCP states a socket can be in.
#[derive(Copy, Clone, Debug, PartialEq, Eq, Structural)]
pub enum TcpState {
    Closed,
    Listen,
    SynSent,
    SynReceived,
    Established,
    FinWait1,
    FinWait2,
    CloseWait,
    Closing,
    LastAck,
    TimeWait,
}

/// What happens to a listener's current socket when accepting is pumped.
#[derive(Copy, Clone, Debug, PartialEq, Eq, Structural)]
pub enum PumpAction {
    /// The socket is still listening or connecting: leave the listener as it is.
    Keep,
    /// The socket has a connection: queue it for accepting and listen on a new socket.
    Enqueue,
    /// The socket was reset or closed before being established: close it and listen on a new
    /// socket.
    Discard,
}

/// The result of an accept request.
#[derive(Copy, Clone, Debug, PartialEq, Eq)]
pub enum AcceptOutcome<H> {
    /// A connection was waiting: its socket.
    Accepted(H),
    /// No connection is waiting yet; try again later.
    WouldBlock,
    /// The request failed.
    Error(Error),
}

/// The TCP listeners of a network stack.
pub struct TcpListeners<H, E> {
    /// Listeners, ordered by handle.
    listeners: Vec<(ListenerHandle, TcpListenerState<H, E>)>,
    /// The number of the next listener.
    next_tcp_listener_id: usize,
    /// Sockets that were closed and wait to be removed from the stack.
    pending_tcp_closes: Vec<H>,
}

/// The position of the listener numbered `id` in `ls`, if there is one.
pub open spec fn index_of<H, E>(ls: Seq<ListenerView<H, E>>, id: usize) -> Option<int> {
    if exists|i: int| 0 <= i < ls.len() && (#[trigger] ls[i]).id == id {
        Some(choose|i: int| 0 <= i < ls.len() && (#[trigger] ls[i]).id == id)
    } else {
        None
    }
}

/// What a pass does to a listener whose current socket is in `state`: a socket still
/// listening or connecting is kept, an established one is queued, any other is discarded.
pub open spec fn pump_action(state: TcpState) -> PumpAction {
    match state {
        TcpState::Listen | TcpState::SynReceived | TcpState::SynSent => PumpAction::Keep,
        TcpState::Established => PumpAction::Enqueue,
        _ => PumpAction::Discard,
    }
}

/// The plan for pumping accepts, given the states of the listeners' current sockets in
/// order: one action for every listener.
pub open spec fn pump_plan_spec(states: Seq<TcpState>) -> Seq<PumpAction> {
    Seq::new(states.len(), |i: int| pump_action(states[i]))
}

/// The sockets that a pass over the first listeners of `ls` closes: the current socket of
/// each listener whose action is `Discard`, in order.
pub open spec fn discarded<H, E>(ls: Seq<ListenerView<H, E>>, plan: Seq<PumpAction>) -> Seq<H>
    decreases plan.len(),
{
    if plan.len() == 0 {
        Seq::empty()
    } else {
        let rest = discarded(ls, plan.drop_last());
        if plan.last() == PumpAction::Discard {
            rest.push(ls[plan.len() - 1].current)
        } else {
            rest
        }
    }
}

/// A listener after a pass: on `Keep` it is unchanged; on `Enqueue` its socket joins the
/// queue; on `Enqueue` and `Discard` it listens on `new_socket`.
pub open spec fn pumped<H, E>(l: ListenerView<H, E>, action: PumpAction, new_socket: H) -> ListenerView<H, E> {
    if action == PumpAction::Keep {
        l
    } else {
        ListenerView {
            id: l.id,
            local_endpoint: l.local_endpoint,
            current: new_socket,
            queue: if action == PumpAction::Enqueue { l.queue.push(l.current) } else { l.queue },
        }
    }
}

/// The stack's error for a socket that could not be put into the listening state.
pub open spec fn listen_error(f: SocketOpFailure) -> Error {
    match f {
        SocketOpFailure::InvalidState => Error::InvariantViolated,
        SocketOpFailure::Unaddressable => Error::BadRequest,
    }
}

/// Listener numbers increase along `ls`.
pub open spec fn ids_increasing<H, E>(ls: Seq<ListenerView<H, E>>) -> bool {
    forall|i: int, j: int| 0 <= i < j < ls.len() ==> (#[trigger] ls[i]).id < (#[trigger] ls[j]).id
}

/// Once a listener is closed its handle finds nothing (so accepting or closing on it again is a
/// bad request), while every other listener is still found where it now stands.
pub proof fn lemma_closed_listener_gone<H, E>(ls: Seq<ListenerView<H, E>>, i: int)
    requires
        ids_increasing(ls),
        0 <= i < ls.len(),
    ensures
        index_of(ls.remove(i), ls[i].id) is None,
        forall|j: int|
            0 <= j < ls.len() && j != i ==> #[trigger] index_of(ls.remove(i), ls[j].id) == Some(
                if j < i { j } else { j - 1 },
            ),
{
    let r = ls.remove(i);
    assert forall|k: int| 0 <= k < r.len() implies (#[trigger] r[k]).id != ls[i].id by {
        if k < i {
            assert(r[k] == ls[k]);
        } else {
            assert(r[k] == ls[k + 1]);
        }
    }
    assert forall|j: int| 0 <= j < ls.len() && j != i implies #[trigger] index_of(r, ls[j].id) == Some(
        if j < i { j } else { j - 1 },
    ) by {
        let p = if j < i { j } else { j - 1 };
        assert(r[p] == ls[j]);
        let c = choose|k: int| 0 <= k < r.len() && (#[trigger] r[k]).id == ls[j].id;
        let c2 = if c < i { c } else { c + 1 };
        assert(r[c] == ls[c2]);
        if c2 < j {
            assert(ls[c2].id < ls[j].id);
        } else if c2 > j {
            assert(ls[j].id < ls[c2].id);
        }
    }
}

/// A listener opened with a number above all others is found at the end, so its handle can
/// be accepted on at once; its queue starts empty, so the first accept would block.
pub proof fn lemma_new_listener_found<H, E>(ls: Seq<ListenerView<H, E>>, v: ListenerView<H, E>)
    requires
        ids_increasing(ls),
        forall|i: int| 0 <= i < ls.len() ==> (#[trigger] ls[i]).id < v.id,
    ensures
        index_of(ls.push(v), v.id) == Some(ls.len() as int),
        ids_increasing(ls.push(v)),
{
    let r = ls.push(v);
    assert(r[ls.len() as int] == v);
    let c = choose|k: int| 0 <= k < r.len() && (#[trigger] r[k]).id == v.id;
    if c < ls.len() {
        assert(r[c] == ls[c]);
    }
    assert forall|i: int, j: int| 0 <= i < j < r.len() implies (#[trigger] r[i]).id < (#[trigger] r[j]).id by {
        assert(r[i] == ls[i]);
        if j < ls.len() {
            assert(r[j] == ls[j]);
        }
    }
}

impl<H: Copy, E> TcpListeners<H, E> {
    /// The listeners, ordered by handle.
    pub closed spec fn views(&self) -> Seq<ListenerView<H, E>> {
        Seq::new(
            self.listeners@.len(),
            |i: int|
                ListenerView {
                    id: self.listeners@[i].0.0,
                    local_endpoint: self.listeners@[i].1.local_endpoint,
                    current: self.listeners@[i].1.current_socket_handle,
                    queue: self.listeners@[i].1.accept_queue@,
                },
        )
    }

    /// The number the next listener gets.
    pub closed spec fn next_id(&self) -> usize {
        self.next_tcp_listener_id
    }

    /// Sockets closed by the registry, waiting to be removed from the stack.
    pub closed spec fn pending_closes(&self) -> Seq<H> {
        self.pending_tcp_closes@
    }

    /// The registry's invariant: listener numbers increase and are below the next number.
    pub open spec fn wf(&self) -> bool {
        &&& forall|i: int, j: int| 0 <= i < j < self.views().len() ==> (#[trigger] self.views()[i]).id
            < (#[trigger] self.views()[j]).id
        &&& forall|i: int| 0 <= i < self.views().len() ==> (#[trigger] self.views()[i]).id
            < self.next_id()
    }

    /// An empty registry.
    pub fn new() -> (r: TcpListeners<H, E>)
        ensures
            r.wf(),
            r.views().len() == 0,
            r.next_id() == 0,
            r.pending_closes().len() == 0,
    {
        let r = TcpListeners { listeners: Vec::new(), next_tcp_listener_id: 0, pending_tcp_closes: Vec::new() };
        assert(r.views() =~= Seq::<ListenerView<H, E>>::empty());
        r
    }

    /// The number of listeners.
    pub fn len(&self) -> (r: usize)
        ensures
            r == self.views().len(),
    {
        self.listeners.len()
    }

    /// Whether another listener can be numbered.
    pub fn can_listen(&self) -> (r: bool)
        ensures
            r == (self.next_id() < usize::MAX),
    {
        self.next_tcp_listener_id < usize::MAX
    }

    /// Hand over the sockets that wait to be removed from the stack, oldest first.
    pub fn take_pending_closes(&mut self) -> (r: Vec<H>)
        requires
            old(self).wf(),
        ensures
            final(self).wf(),
            r@ == old(self).pending_closes(),
            final(self).pending_closes().len() == 0,
            final(self).views() == old(self).views(),
            final(self).next_id() == old(self).next_id(),
    {
        let mut r: Vec<H> = Vec::new();
        std::mem::swap(&mut r, &mut self.pending_tcp_closes);
        assert(self.views() =~= old(self).views());
        r
    }

    /// Position of the listener `handle`.
    fn position(&self, handle: ListenerHandle) -> (r: Option<usize>)
        requires
            self.wf(),
        ensures
            r is None <==> index_of(self.views(), handle.id()) is None,
            r is Some ==> index_of(self.views(), handle.id()) == Some(r.unwrap() as int),
            r is Some ==> r.unwrap() < self.views().len(),
    {
        let n: usize = self.listeners.len();
        let mut i: usize = 0;
        while i < n
            invariant
                self.wf(),
                n == self.views().len(),
                i <= n,
                forall|j: int| 0 <= j < i ==> (#[trigger] self.views()[j]).id != handle.id(),
            decreases n - i,
        {
            if self.listeners[i].0.0 == handle.0 {
                assert(self.views()[i as int].id == handle.id());
                proof {
                    let ls = self.views();
                    let c = choose|k: int| 0 <= k < ls.len() && (#[trigger] ls[k]).id == handle.id();
                    if c < i {
                        assert(ls[c].id < ls[i as int].id);
                    } else if c > i {
                        assert(ls[i as int].id < ls[c].id);
                    }
                }
                return Some(i);
            }
            i = i + 1;
        }
        None
    }

    /// The local endpoint of the `i`th listener.
    pub fn local_endpoint(&self, i: usize) -> (r: &E)
        requires
            i < self.views().len(),
        ensures
            *r == self.views()[i as int].local_endpoint,
    {
        &self.listeners[i].1.local_endpoint
    }

    /// The current (listening) socket of each listener, in order.
    pub fn current_sockets(&self) -> (r: Vec<H>)
        ensures
            r@.len() == self.views().len(),
            forall|i: int| 0 <= i < r@.len() ==> #[trigger] r@[i] == self.views()[i].current,
    {
        let mut r: Vec<H> = Vec::new();
        let n: usize = self.listeners.len();
        let mut i: usize = 0;
        while i < n
            invariant
                n == self.views().len(),
                i <= n,
                r@.len() == i,
                forall|j: int| 0 <= j < i ==> #[trigger] r@[j] == self.views()[j].current,
            decreases n - i,
        {
            r.push(self.listeners[i].1.current_socket_handle);
            i = i + 1;
        }
        r
    }

    /// Finish a request to listen on `local_endpoint`, given how putting a new socket into the
    /// listening state went: on success (`Ok` with the socket, now part of the stack) the
    /// listener is registered and its handle returned; on failure nothing is registered and
    /// the failure comes back as the stack's error.
    pub fn process_listen(&mut self, local_endpoint: E, outcome: Result<H, SocketOpFailure>) -> (r: Result<
        ListenerHandle,
        Error,
    >)
        requires
            old(self).wf(),
            outcome is Ok ==> old(self).next_id() < usize::MAX,
        ensures
            final(self).wf(),
            final(self).pending_closes() == old(self).pending_closes(),
            match outcome {
                Err(f) => r == Err::<ListenerHandle, Error>(listen_error(f)) && final(self).views()
                    == old(self).views() && final(self).next_id() == old(self).next_id(),
                Ok(socket) => {
                    &&& r is Ok
                    &&& r.unwrap().id() == old(self).next_id()
                    &&& final(self).next_id() == old(self).next_id() + 1
                    &&& final(self).views() == old(self).views().push(
                        ListenerView { id: r.unwrap().id(), local_endpoint, current: socket, queue: Seq::empty() },
                    )
                },
            },
    {
        match outcome {
            Err(f) => Err(Error::from(f)),
            Ok(socket) => Ok(self.listen(local_endpoint, socket)),
        }
    }

    /// Register a listener on `local_endpoint` whose listening socket is `socket` (already
    /// listening); returns its handle, the next number.
    pub fn listen(&mut self, local_endpoint: E, socket: H) -> (r: ListenerHandle)
        requires
            old(self).wf(),
            old(self).next_id() < usize::MAX,
        ensures
            final(self).wf(),
            r.id() == old(self).next_id(),
            final(self).next_id() == old(self).next_id() + 1,
            final(self).views() == old(self).views().push(
                ListenerView { id: r.id(), local_endpoint, current: socket, queue: Seq::empty() },
            ),
            final(self).pending_closes() == old(self).pending_closes(),
    {
        let handle = ListenerHandle(self.next_tcp_listener_id);
        self.next_tcp_listener_id = self.next_tcp_listener_id + 1;
        self.listeners.push(
            (handle, TcpListenerState { current_socket_handle: socket, local_endpoint, accept_queue: VecDeque::new() }),
        );
        proof {
            let n = old(self).views().len();
            assert(self.views() =~= old(self).views().push(
                ListenerView { id: handle.id(), local_endpoint, current: socket, queue: Seq::empty() },
            ));
            assert forall|i: int, j: int| 0 <= i < j < self.views().len() implies (#[trigger] self.views()[i]).id
                < (#[trigger] self.views()[j]).id by {
                assert(self.views()[i] == old(self).views()[i]);
            }
            assert forall|i: int| 0 <= i < self.views().len() implies (#[trigger] self.views()[i]).id
                < self.next_id() by {
                if i < n {
                    assert(self.views()[i] == old(self).views()[i]);
                }
            }
        }
        handle
    }

    /// Accept a connection on the listener `handle`: the oldest queued socket, if any.
    pub fn accept(&mut self, handle: ListenerHandle) -> (r: AcceptOutcome<H>)
        requires
            old(self).wf(),
        ensures
            final(self).wf(),
            final(self).next_id() == old(self).next_id(),
            final(self).pending_closes() == old(self).pending_closes(),
            match index_of(old(self).views(), handle.id()) {
                None => r == AcceptOutcome::<H>::Error(Error::BadRequest) && final(self).views()
                    == old(self).views(),
                Some(i) => if old(self).views()[i].queue.len() == 0 {
                    r == AcceptOutcome::<H>::WouldBlock && final(self).views() == old(self).views()
                } else {
                    &&& r == AcceptOutcome::Accepted(old(self).views()[i].queue[0])
                    &&& final(self).views() == old(self).views().update(
                        i,
                        ListenerView { queue: old(self).views()[i].queue.drop_first(), ..old(self).views()[i] },
                    )
                },
            },
    {
        let i: usize = match self.position(handle) {
            Some(i) => i,
            None => return AcceptOutcome::Error(Error::BadRequest),
        };
        let (h, mut state) = self.listeners.remove(i);
        let popped = state.accept_queue.pop_front();
        self.listeners.insert(i, (h, state));
        proof {
            let nv = old(self).views().update(
                i as int,
                ListenerView { queue: old(self).views()[i as int].queue.drop_first(), ..old(self).views()[i as int] },
            );
            if popped is Some {
                assert(self.views() =~= nv);
            } else {
                assert(self.views() =~= old(self).views());
            }
            assert forall|a: int, b: int| 0 <= a < b < self.views().len() implies (#[trigger] self.views()[a]).id
                < (#[trigger] self.views()[b]).id by {
                assert(self.views()[a].id == old(self).views()[a].id);
                assert(self.views()[b].id == old(self).views()[b].id);
            }
            assert forall|a: int| 0 <= a < self.views().len() implies (#[trigger] self.views()[a]).id
                < self.next_id() by {
                assert(self.views()[a].id == old(self).views()[a].id);
            }
        }
        match popped {
            Some(s) => AcceptOutcome::Accepted(s),
            None => AcceptOutcome::WouldBlock,
        }
    }

    /// Close the listener `handle`: remove it and close its listening socket and every queued
    /// socket. Returns the sockets to close, which are also added to the pending closes.
    pub fn close(&mut self, handle: ListenerHandle) -> (r: Result<Vec<H>, Error>)
        requires
            old(self).wf(),
        ensures
            final(self).wf(),
            final(self).next_id() == old(self).next_id(),
            index_of(final(self).views(), handle.id()) is None,
            match index_of(old(self).views(), handle.id()) {
                None => r == Err::<Vec<H>, Error>(Error::BadRequest) && final(self).views() == old(self).views()
                    && final(self).pending_closes() == old(self).pending_closes(),
                Some(i) => {
                    &&& r is Ok
                    &&& r.unwrap()@ == seq![old(self).views()[i].current] + old(self).views()[i].queue
                    &&& final(self).views() == old(self).views().remove(i)
                    &&& final(self).pending_closes() == old(self).pending_closes() + r.unwrap()@
                },
            },
    {
        let i: usize = match self.position(handle) {
            Some(i) => i,
            None => return Err(Error::BadRequest),
        };
        let (_h, mut state) = self.listeners.remove(i);
        let mut closed: Vec<H> = Vec::new();
        closed.push(state.current_socket_handle);
        self.pending_tcp_closes.push(state.current_socket_handle);
        let ghost queue = state.accept_queue@;
        let ghost cur = state.current_socket_handle;
        let ghost mut k: int = 0;
        assert(cur == old(self).views()[i as int].current);
        loop
            invariant
                0 <= k <= queue.len(),
                closed@ == seq![cur] + queue.take(k),
                state.accept_queue@ == queue.skip(k),
                self.pending_tcp_closes@ == old(self).pending_closes() + closed@,
                self.listeners@ == old(self).listeners@.remove(i as int),
                self.next_tcp_listener_id == old(self).next_id(),
            ensures
                closed@ == seq![cur] + queue,
                self.pending_tcp_closes@ == old(self).pending_closes() + closed@,
                self.listeners@ == old(self).listeners@.remove(i as int),
                self.next_tcp_listener_id == old(self).next_id(),
            decreases queue.len() - k,
        {
            match state.accept_queue.pop_front() {
                Some(s) => {
                    assert(s == queue[k]);
                    closed.push(s);
                    self.pending_tcp_closes.push(s);
                    proof {
                        assert(queue.take(k + 1) =~= queue.take(k).push(queue[k]));
                        assert(queue.skip(k + 1) =~= queue.skip(k).drop_first());
                        k = k + 1;
                    }
                },
                None => {
                    assert(queue.take(k) =~= queue);
                    break;
                },
            }
        }
        proof {
            assert(self.views() =~= old(self).views().remove(i as int));
            let ov = old(self).views();
            assert forall|a: int, b: int| 0 <= a < b < self.views().len() implies (#[trigger] self.views()[a]).id
                < (#[trigger] self.views()[b]).id by {
                if a >= i {
                    assert(ov[a + 1].id < ov[b + 1].id);
                } else if b >= i {
                    assert(ov[a].id < ov[b + 1].id);
                } else {
                    assert(ov[a].id < ov[b].id);
                }
            }
            assert forall|a: int| 0 <= a < self.views().len() implies (#[trigger] self.views()[a]).id
                < self.next_id() by {
                if a >= i {
                    assert(ov[a + 1].id < self.next_id());
                }
            }
            assert forall|a: int| 0 <= a < self.views().len() implies (#[trigger] self.views()[a]).id != handle.id() by {
                if a >= i {
                    assert(ov[i as int].id < ov[a + 1].id);
                } else {
                    assert(ov[a].id < ov[i as int].id);
                }
            }
        }
        Ok(closed)
    }

    /// Plan a pass that accepts connections for all listeners, given the states of their
    /// current sockets in order (see [`pump_plan_spec`]).
    pub fn pump_plan(&self, states: &Vec<TcpState>) -> (r: Vec<PumpAction>)
        ensures
            r@ == pump_plan_spec(states@),
    {
        let mut r: Vec<PumpAction> = Vec::new();
        let n: usize = states.len();
        let mut i: usize = 0;
        while i < n
            invariant
                n == states@.len(),
                i <= n,
                r@.len() == i,
                forall|j: int| 0 <= j < i ==> #[trigger] r@[j] == pump_action(states@[j]),
            decreases n - i,
        {
            let action = match states[i] {
                TcpState::Listen | TcpState::SynReceived | TcpState::SynSent => PumpAction::Keep,
                TcpState::Established => PumpAction::Enqueue,
                _ => PumpAction::Discard,
            };
            r.push(action);
            i = i + 1;
        }
        assert(r@ =~= pump_plan_spec(states@));
        r
    }

    /// Carry out a pass: the first `plan.len()` listeners each get the matching action of
    /// `plan`; those not kept start listening on the matching socket of `new_sockets` (the
    /// entries for kept listeners are not used). Discarded sockets are added to the pending
    /// closes.
    pub fn pump_commit(&mut self, plan: &Vec<PumpAction>, new_sockets: &Vec<H>)
        requires
            old(self).wf(),
            plan@.len() == new_sockets@.len(),
            plan@.len() <= old(self).views().len(),
        ensures
            final(self).wf(),
            final(self).next_id() == old(self).next_id(),
            final(self).views() == Seq::new(
                old(self).views().len(),
                |i: int|
                    if i < plan@.len() {
                        pumped(old(self).views()[i], plan@[i], new_sockets@[i])
                    } else {
                        old(self).views()[i]
                    },
            ),
            final(self).pending_closes() == old(self).pending_closes() + discarded(old(self).views(), plan@),
    {
        let ghost ov = old(self).views();
        let m: usize = plan.len();
        let mut i: usize = 0;
        while i < m
            invariant
                ov == old(self).views(),
                m == plan@.len(),
                m == new_sockets@.len(),
                m <= ov.len(),
                i <= m,
                self.next_tcp_listener_id == old(self).next_id(),
                self.views() == Seq::new(
                    ov.len(),
                    |j: int|
                        if j < i {
                            pumped(ov[j], plan@[j], new_sockets@[j])
                        } else {
                            ov[j]
                        },
                ),
                self.pending_tcp_closes@ == old(self).pending_closes() + discarded(ov, plan@.take(i as int)),
            decreases m - i,
        {
            assert(self.listeners@.len() == self.views().len());
            assert(self.views()[i as int] == ov[i as int]);
            let ghost pre = self.listeners@;
            let ghost pre_views = self.views();
            let (h, mut state) = self.listeners.remove(i);
            let current = state.current_socket_handle;
            assert(current == ov[i as int].current);
            let action = plan[i];
            match action {
                PumpAction::Keep => {},
                PumpAction::Enqueue => {
                    state.accept_queue.push_back(current);
                    state.current_socket_handle = new_sockets[i];
                },
                PumpAction::Discard => {
                    self.pending_tcp_closes.push(current);
                    state.current_socket_handle = new_sockets[i];
                },
            }
            self.listeners.insert(i, (h, state));
            proof {
                assert(self.listeners@ =~= pre.update(i as int, (h, state)));
                assert forall|j: int| 0 <= j < ov.len() && j != i implies #[trigger] self.views()[j] == pre_views[j] by {}
                assert(self.views()[i as int] == pumped(ov[i as int], plan@[i as int], new_sockets@[i as int]));
                assert(plan@.take(i + 1).drop_last() =~= plan@.take(i as int));
                assert(plan@.take(i + 1).last() == plan@[i as int]);
                assert(self.views() =~= Seq::new(
                    ov.len(),
                    |j: int|
                        if j < i + 1 {
                            pumped(ov[j], plan@[j], new_sockets@[j])
                        } else {
                            ov[j]
                        },
                ));
            }
            i = i + 1;
        }
        proof {
            assert(plan@.take(m as int) =~= plan@);
            assert forall|a: int, b: int| 0 <= a < b < self.views().len() implies (#[trigger] self.views()[a]).id
                < (#[trigger] self.views()[b]).id by {
                assert(self.views()[a].id == ov[a].id);
                assert(self.views()[b].id == ov[b].id);
            }
            assert forall|a: int| 0 <= a < self.views().len() implies (#[trigger] self.views()[a]).id
                < self.next_id() by {
                assert(self.views()[a].id == ov[a].id);
            }
        }
    }
}

} // verus!
