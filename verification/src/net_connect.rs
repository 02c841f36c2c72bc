//! The decisions of a non-blocking TCP connect driven by polling.
//!
//! Each poll of the connect future is a short conversation: the future
//! names an action, the caller performs it against the operating system and
//! reports what happened, and the future names the next action, until it
//! answers the poll with `Pending` or a result.
use vstd::prelude::*;

verus! {

/// What the future is waiting to hear about.
#[derive(Clone, Copy, PartialEq, Eq, Structural)]
pub enum Stage {
    /// No action is outstanding: the poll has been answered.
    Idle,
    /// A TCP socket of the address's family is being created.
    Creating,
    /// The socket is being made non-blocking.
    SettingNonblocking,
    /// A connect to the address has been started.
    Connecting,
    /// The socket is being registered with the reactor.
    Registering,
    /// The first readiness poll, right after registration.
    FirstPoll,
    /// A readiness poll on the registered socket.
    Polling,
    /// The handshake has ended; the peer address is being read.
    CheckingPeer,
}

/// What the caller reports about the action it performed.
#[derive(Clone, Copy, PartialEq, Eq, Structural)]
pub enum ConnectEvent {
    /// The call returned `Ok` (for a readiness poll: `Ready(Ok)`).
    Succeeded,
    /// The call returned an error (for a readiness poll: `Ready(Err)`).
    Failed,
    /// The connect call returned an error of kind `WouldBlock`: the
    /// handshake goes on in the background.
    WouldBlock,
    /// The readiness poll returned `Pending`; the waker has been registered.
    Pending,
}

/// How a poll is answered with a result.
#[derive(Clone, Copy, PartialEq, Eq, Structural)]
pub enum ConnectOutcome {
    /// Clear the readiness, take the socket out and return it.
    Connected,
    /// Return the error of the call just reported.
    Failed,
    /// Return a `NotConnected` error: the socket was already handed out.
    NotConnected,
}

/// What the caller is to do next.
#[derive(Clone, Copy, PartialEq, Eq, Structural)]
pub enum ConnectAction {
    /// Create a stream socket for TCP, of the IPv4 family or else IPv6.
    CreateSocket { ipv4: bool },
    /// Make the socket non-blocking.
    SetNonblocking,
    /// Start connecting to the address.
    Connect,
    /// Turn the socket into a stream and register it with the reactor.
    Register,
    /// Poll the registered socket for write readiness.
    PollWriteReady,
    /// Read the peer address of the registered socket.
    CheckPeer,
    /// Answer the poll with `Pending`.
    Pending,
    /// Answer the poll with a result.
    Ready(ConnectOutcome),
}

/// What a connect to one address has done so far.
#[derive(Clone, Copy, PartialEq, Eq, Structural)]
pub struct ConnectState {
    /// The address is an IPv4 address.
    pub ipv4: bool,
    /// The handshake has been started and the socket registered.
    pub connect_initiated: bool,
    /// The registered socket is held (it has not been handed out).
    pub has_socket: bool,
    /// The action whose result is awaited.
    pub stage: Stage,
}

/// A connect to one address, driven by polling. Its state is always
/// `consistent`.
pub struct AsyncConnectFuture {
    state: ConnectState,
}

impl View for AsyncConnectFuture {
    type V = ConnectState;

    closed spec fn view(&self) -> ConnectState {
        self.state
    }
}

/// An action that answers the poll.
pub open spec fn is_answer(a: ConnectAction) -> bool {
    a is Pending || a is Ready
}

/// The events that the action awaited at `stage` can produce.
pub open spec fn expected(stage: Stage, ev: ConnectEvent) -> bool {
    match stage {
        Stage::Idle => false,
        Stage::Connecting => ev is Succeeded || ev is Failed || ev is WouldBlock,
        Stage::FirstPoll | Stage::Polling => ev is Succeeded || ev is Failed || ev is Pending,
        _ => ev is Succeeded || ev is Failed,
    }
}

/// The states a connect can be in: setting up before the socket is
/// registered, and holding the socket while its readiness is polled.
pub open spec fn consistent(s: ConnectState) -> bool {
    match s.stage {
        Stage::Idle => s.connect_initiated || !s.has_socket,
        Stage::Creating | Stage::SettingNonblocking | Stage::Connecting | Stage::Registering | Stage::FirstPoll =>
            !s.connect_initiated && !s.has_socket,
        _ => s.connect_initiated && s.has_socket,
    }
}

/// The first action of a poll.
pub open spec fn poll_start_spec(s: ConnectState) -> (ConnectState, ConnectAction) {
    if !s.connect_initiated {
        (ConnectState { stage: Stage::Creating, ..s }, ConnectAction::CreateSocket { ipv4: s.ipv4 })
    } else if s.has_socket {
        (ConnectState { stage: Stage::Polling, ..s }, ConnectAction::PollWriteReady)
    } else {
        (ConnectState { stage: Stage::Idle, ..s }, ConnectAction::Ready(ConnectOutcome::NotConnected))
    }
}

/// The next state and action after `ev` is reported at state `s`.
pub open spec fn connect_step(s: ConnectState, ev: ConnectEvent) -> (ConnectState, ConnectAction) {
    let idle = ConnectState { stage: Stage::Idle, ..s };
    let fail = (idle, ConnectAction::Ready(ConnectOutcome::Failed));
    match s.stage {
        Stage::Creating => if ev is Succeeded {
            (ConnectState { stage: Stage::SettingNonblocking, ..s }, ConnectAction::SetNonblocking)
        } else {
            fail
        },
        Stage::SettingNonblocking => if ev is Succeeded {
            (ConnectState { stage: Stage::Connecting, ..s }, ConnectAction::Connect)
        } else {
            fail
        },
        Stage::Connecting => if ev is Succeeded || ev is WouldBlock {
            (ConnectState { stage: Stage::Registering, ..s }, ConnectAction::Register)
        } else {
            fail
        },
        Stage::Registering => if ev is Succeeded {
            (ConnectState { stage: Stage::FirstPoll, ..s }, ConnectAction::PollWriteReady)
        } else {
            fail
        },
        Stage::FirstPoll => if ev is Pending {
            (ConnectState { stage: Stage::Idle, connect_initiated: true, has_socket: true, ..s }, ConnectAction::Pending)
        } else {
            (ConnectState { stage: Stage::Polling, connect_initiated: true, has_socket: true, ..s }, ConnectAction::PollWriteReady)
        },
        Stage::Polling => if ev is Pending {
            (idle, ConnectAction::Pending)
        } else if ev is Succeeded {
            (ConnectState { stage: Stage::CheckingPeer, ..s }, ConnectAction::CheckPeer)
        } else {
            fail
        },
        Stage::CheckingPeer => if ev is Succeeded {
            (ConnectState { stage: Stage::Idle, has_socket: false, ..s }, ConnectAction::Ready(ConnectOutcome::Connected))
        } else {
            fail
        },
        Stage::Idle => (s, ConnectAction::Ready(ConnectOutcome::Failed)),
    }
}

impl AsyncConnectFuture {
    #[verifier::type_invariant]
    closed spec fn inv(self) -> bool {
        consistent(self.state)
    }

    /// A connect to an address of the IPv4 family when `ipv4`, else IPv6,
    /// not yet started.
    pub fn new(ipv4: bool) -> (f: Self)
        ensures
            f@ == (ConnectState { ipv4, connect_initiated: false, has_socket: false, stage: Stage::Idle }),
    {
        AsyncConnectFuture { state: ConnectState { ipv4, connect_initiated: false, has_socket: false, stage: Stage::Idle } }
    }

    /// What the connect has done so far.
    pub fn state(&self) -> (s: ConnectState)
        ensures
            s == self@,
            consistent(s),
    {
        proof {
            use_type_invariant(self);
        }
        self.state
    }

    /// Whether the action now awaited can produce `ev`.
    pub fn expects(&self, ev: ConnectEvent) -> (b: bool)
        ensures
            b == expected(self@.stage, ev),
    {
        match self.state.stage {
            Stage::Idle => false,
            Stage::Connecting => match ev {
                ConnectEvent::Pending => false,
                _ => true,
            },
            Stage::FirstPoll | Stage::Polling => match ev {
                ConnectEvent::WouldBlock => false,
                _ => true,
            },
            _ => match ev {
                ConnectEvent::Succeeded | ConnectEvent::Failed => true,
                _ => false,
            },
        }
    }

    /// Begins a poll and names its first action: start the connect if it
    /// has not been started, poll the socket if it is held, and otherwise
    /// answer that the socket is gone.
    pub fn poll_start(&mut self) -> (a: ConnectAction)
        requires
            old(self)@.stage == Stage::Idle,
        ensures
            (final(self)@, a) == poll_start_spec(old(self)@),
    {
        proof {
            use_type_invariant(&*self);
        }
        let s = self.state;
        let (next, action) = if !s.connect_initiated {
            (ConnectState { stage: Stage::Creating, ..s }, ConnectAction::CreateSocket { ipv4: s.ipv4 })
        } else if s.has_socket {
            (ConnectState { stage: Stage::Polling, ..s }, ConnectAction::PollWriteReady)
        } else {
            (ConnectState { stage: Stage::Idle, ..s }, ConnectAction::Ready(ConnectOutcome::NotConnected))
        };
        self.state = next;
        action
    }

    /// Takes what the awaited action produced and names the next action.
    pub fn on_event(&mut self, ev: ConnectEvent) -> (a: ConnectAction)
        requires
            expected(old(self)@.stage, ev),
        ensures
            (final(self)@, a) == connect_step(old(self)@, ev),
    {
        proof {
            use_type_invariant(&*self);
        }
        let s = self.state;
        let idle = ConnectState { stage: Stage::Idle, ..s };
        let fail = ConnectAction::Ready(ConnectOutcome::Failed);
        let (next, action) = match s.stage {
            Stage::Creating => match ev {
                ConnectEvent::Succeeded => (ConnectState { stage: Stage::SettingNonblocking, ..s }, ConnectAction::SetNonblocking),
                _ => (idle, fail),
            },
            Stage::SettingNonblocking => match ev {
                ConnectEvent::Succeeded => (ConnectState { stage: Stage::Connecting, ..s }, ConnectAction::Connect),
                _ => (idle, fail),
            },
            Stage::Connecting => match ev {
                ConnectEvent::Succeeded | ConnectEvent::WouldBlock => (ConnectState { stage: Stage::Registering, ..s }, ConnectAction::Register),
                _ => (idle, fail),
            },
            Stage::Registering => match ev {
                ConnectEvent::Succeeded => (ConnectState { stage: Stage::FirstPoll, ..s }, ConnectAction::PollWriteReady),
                _ => (idle, fail),
            },
            Stage::FirstPoll => match ev {
                ConnectEvent::Pending => (
                    ConnectState { stage: Stage::Idle, connect_initiated: true, has_socket: true, ..s },
                    ConnectAction::Pending,
                ),
                _ => (
                    ConnectState { stage: Stage::Polling, connect_initiated: true, has_socket: true, ..s },
                    ConnectAction::PollWriteReady,
                ),
            },
            Stage::Polling => match ev {
                ConnectEvent::Pending => (idle, ConnectAction::Pending),
                ConnectEvent::Succeeded => (ConnectState { stage: Stage::CheckingPeer, ..s }, ConnectAction::CheckPeer),
                _ => (idle, fail),
            },
            Stage::CheckingPeer => match ev {
                ConnectEvent::Succeeded => (
                    ConnectState { stage: Stage::Idle, has_socket: false, ..s },
                    ConnectAction::Ready(ConnectOutcome::Connected),
                ),
                _ => (idle, fail),
            },
            Stage::Idle => (s, fail),
        };
        self.state = next;
        action
    }
}

/// How many actions at most remain before the poll is answered.
pub open spec fn remaining_steps(stage: Stage) -> nat {
    match stage {
        Stage::Idle => 0,
        Stage::CheckingPeer => 1,
        Stage::Polling => 2,
        Stage::FirstPoll => 3,
        Stage::Registering => 4,
        Stage::Connecting => 5,
        Stage::SettingNonblocking => 6,
        Stage::Creating => 7,
    }
}

/// The states a connect can be in stay consistent through every poll and
/// every event reported while an action is awaited.
pub proof fn law_consistency_kept(s: ConnectState, ev: ConnectEvent)
    requires
        consistent(s),
    ensures
        s.stage == Stage::Idle ==> consistent(poll_start_spec(s).0),
        s.stage != Stage::Idle ==> consistent(connect_step(s, ev).0),
{
}

/// Every call is answered or brings the poll closer to its answer: an
/// action answers the poll exactly when no action is outstanding any more,
/// and an action awaited in the middle of a poll that does not answer it
/// leaves fewer steps to go.
pub proof fn law_each_poll_ends(s: ConnectState, ev: ConnectEvent)
    ensures
        is_answer(drive(s, ev).1) <==> drive(s, ev).0.stage == Stage::Idle,
        s.stage != Stage::Idle && !is_answer(drive(s, ev).1) ==> remaining_steps(drive(s, ev).0.stage)
            < remaining_steps(s.stage),
{
}

/// A poll is answered `Pending` only while the started connect holds its
/// registered socket, whose readiness will wake the task.
pub proof fn law_pending_holds_socket(s: ConnectState, ev: ConnectEvent)
    requires
        consistent(s),
        expected(s.stage, ev),
        connect_step(s, ev).1 is Pending,
    ensures
        connect_step(s, ev).0.connect_initiated,
        connect_step(s, ev).0.has_socket,
{
}

/// The socket is handed out once: only after the peer address was read
/// from the held socket, and every later poll answers `NotConnected`.
pub proof fn law_socket_handed_out_once(s: ConnectState, ev: ConnectEvent)
    requires
        consistent(s),
        expected(s.stage, ev),
        connect_step(s, ev).1 == ConnectAction::Ready(ConnectOutcome::Connected),
    ensures
        s.stage == Stage::CheckingPeer && ev == ConnectEvent::Succeeded,
        s.has_socket,
        !connect_step(s, ev).0.has_socket,
        poll_start_spec(connect_step(s, ev).0).1 == ConnectAction::Ready(ConnectOutcome::NotConnected),
        poll_start_spec(connect_step(s, ev).0).0 == connect_step(s, ev).0,
{
}

/// A failure before the socket is registered leaves the connect unstarted,
/// so the next poll starts over with a new socket; a failure after that
/// keeps the socket, so the next poll polls it again.
pub proof fn law_failure_keeps_progress(s: ConnectState, ev: ConnectEvent)
    requires
        consistent(s),
        expected(s.stage, ev),
        connect_step(s, ev).1 == ConnectAction::Ready(ConnectOutcome::Failed),
    ensures
        connect_step(s, ev).0.connect_initiated == s.connect_initiated,
        connect_step(s, ev).0.has_socket == s.has_socket,
        !s.connect_initiated ==> poll_start_spec(connect_step(s, ev).0).1 == (ConnectAction::CreateSocket { ipv4: s.ipv4 }),
        s.connect_initiated ==> poll_start_spec(connect_step(s, ev).0).1 == ConnectAction::PollWriteReady,
{
}

/// One call on a connect: a poll begins when no action is awaited;
/// otherwise `ev` is what the awaited action produced.
pub open spec fn drive(s: ConnectState, ev: ConnectEvent) -> (ConnectState, ConnectAction) {
    if s.stage == Stage::Idle { poll_start_spec(s) } else { connect_step(s, ev) }
}

/// The state after the calls `evs`, one after another.
pub open spec fn drive_all(s: ConnectState, evs: Seq<ConnectEvent>) -> ConnectState
    decreases evs.len(),
{
    if evs.len() == 0 { s } else { drive(drive_all(s, evs.drop_last()), evs.last()).0 }
}

proof fn lemma_started_stays(s: ConnectState, evs: Seq<ConnectEvent>)
    requires
        consistent(s),
        s.connect_initiated,
    ensures
        consistent(drive_all(s, evs)),
        drive_all(s, evs).connect_initiated,
    decreases evs.len(),
{
    if evs.len() > 0 {
        lemma_started_stays(s, evs.drop_last());
    }
}

/// The action named by the call `evs[i]`, after the calls before it.
pub open spec fn action_at(s: ConnectState, evs: Seq<ConnectEvent>, i: int) -> ConnectAction {
    drive(drive_all(s, evs.take(i)), evs[i]).1
}

/// Once the connect has been started, no later call, in this poll or any
/// later one, creates a socket or starts a connect again: the handshake is
/// started at most once, and later polls only look at its socket.
pub proof fn law_connect_started_once(s: ConnectState, evs: Seq<ConnectEvent>)
    requires
        consistent(s),
        s.connect_initiated,
    ensures
        forall|i: int|
            0 <= i < evs.len() ==> !(#[trigger] action_at(s, evs, i) is CreateSocket)
                && !(action_at(s, evs, i) is Connect),
{
    assert forall|i: int| 0 <= i < evs.len() implies !(#[trigger] action_at(s, evs, i) is CreateSocket)
        && !(action_at(s, evs, i) is Connect) by {
        lemma_started_stays(s, evs.take(i));
    }
}

/// A connect that has not been started: what `AsyncConnectFuture::new`
/// gives.
pub open spec fn unstarted(ipv4: bool) -> ConnectState {
    ConnectState { ipv4, connect_initiated: false, has_socket: false, stage: Stage::Idle }
}

/// How many of the calls `evs` name the action `CreateSocket`.
pub open spec fn sockets_created(s: ConnectState, evs: Seq<ConnectEvent>) -> nat
    decreases evs.len(),
{
    if evs.len() == 0 {
        0
    } else {
        sockets_created(s, evs.drop_last()) + if action_at(s, evs, evs.len() - 1) is CreateSocket {
            1nat
        } else {
            0nat
        }
    }
}

/// How many of the calls `evs` name the action `Connect`.
pub open spec fn connects_started(s: ConnectState, evs: Seq<ConnectEvent>) -> nat
    decreases evs.len(),
{
    if evs.len() == 0 {
        0
    } else {
        connects_started(s, evs.drop_last()) + if action_at(s, evs, evs.len() - 1) is Connect {
            1nat
        } else {
            0nat
        }
    }
}

/// Where an unstarted connect can be after `c` sockets created and `k`
/// connects started, while no poll has been answered with a result.
spec fn setup_progress(st: ConnectState, c: nat, k: nat) -> bool {
    &&& consistent(st)
    &&& !st.connect_initiated ==> match st.stage {
        Stage::Idle => c == 0 && k == 0,
        Stage::Creating | Stage::SettingNonblocking => c == 1 && k == 0,
        _ => c == 1 && k == 1,
    }
    &&& st.connect_initiated ==> c <= 1 && k <= 1
}

proof fn lemma_setup_step(st: ConnectState, c: nat, k: nat, ev: ConnectEvent)
    requires
        setup_progress(st, c, k),
    ensures
        ({
            let (next, a) = drive(st, ev);
            let c2 = c + if a is CreateSocket { 1nat } else { 0nat };
            let k2 = k + if a is Connect { 1nat } else { 0nat };
            &&& c2 <= 1
            &&& k2 <= 1
            &&& !(a is Ready) ==> setup_progress(next, c2, k2)
        }),
{
}

proof fn lemma_setup_run(ipv4: bool, evs: Seq<ConnectEvent>)
    requires
        forall|i: int| 0 <= i < evs.len() ==> !(#[trigger] action_at(unstarted(ipv4), evs, i) is Ready),
    ensures
        setup_progress(
            drive_all(unstarted(ipv4), evs),
            sockets_created(unstarted(ipv4), evs),
            connects_started(unstarted(ipv4), evs),
        ),
    decreases evs.len(),
{
    let s = unstarted(ipv4);
    if evs.len() > 0 {
        let prev = evs.drop_last();
        let n = evs.len() - 1;
        assert forall|i: int| 0 <= i < prev.len() implies !(#[trigger] action_at(s, prev, i) is Ready) by {
            assert(prev.take(i) =~= evs.take(i));
            assert(!(action_at(s, evs, i) is Ready));
        }
        lemma_setup_run(ipv4, prev);
        assert(evs.take(n) =~= prev);
        assert(!(action_at(s, evs, n) is Ready));
        lemma_setup_step(drive_all(s, prev), sockets_created(s, prev), connects_started(s, prev), evs.last());
    }
}

/// Over a run of calls on a new connect in which every poll but possibly
/// the last is answered `Pending` (none is answered with a result before
/// the last call), a socket is created at most once and a connect started
/// at most once: the handshake is started once, and the later polls only
/// check the write readiness of that socket.
pub proof fn law_connect_at_most_once(ipv4: bool, evs: Seq<ConnectEvent>)
    requires
        forall|i: int| 0 <= i < evs.len() - 1 ==> !(#[trigger] action_at(unstarted(ipv4), evs, i) is Ready),
    ensures
        sockets_created(unstarted(ipv4), evs) <= 1,
        connects_started(unstarted(ipv4), evs) <= 1,
{
    let s = unstarted(ipv4);
    if evs.len() > 0 {
        let prev = evs.drop_last();
        let n = evs.len() - 1;
        assert forall|i: int| 0 <= i < prev.len() implies !(#[trigger] action_at(s, prev, i) is Ready) by {
            assert(prev.take(i) =~= evs.take(i));
            assert(!(action_at(s, evs, i) is Ready));
        }
        lemma_setup_run(ipv4, prev);
        assert(evs.take(n) =~= prev);
        lemma_setup_step(drive_all(s, prev), sockets_created(s, prev), connects_started(s, prev), evs.last());
    }
}

/// A poll is answered after at most eight actions: from a connect with no
/// action outstanding, at most seven calls in a row name an action that
/// does not answer the poll.
pub proof fn law_poll_bounded(s: ConnectState, evs: Seq<ConnectEvent>)
    requires
        s.stage == Stage::Idle,
        forall|i: int| 0 <= i < evs.len() ==> !is_answer(#[trigger] action_at(s, evs, i)),
    ensures
        evs.len() <= 7,
{
    lemma_poll_progress(s, evs);
}

proof fn lemma_poll_progress(s: ConnectState, evs: Seq<ConnectEvent>)
    requires
        s.stage == Stage::Idle,
        forall|i: int| 0 <= i < evs.len() ==> !is_answer(#[trigger] action_at(s, evs, i)),
    ensures
        evs.len() > 0 ==> drive_all(s, evs).stage != Stage::Idle && remaining_steps(drive_all(s, evs).stage)
            + evs.len() <= 8,
    decreases evs.len(),
{
    if evs.len() > 0 {
        let prev = evs.drop_last();
        let n = evs.len() - 1;
        assert forall|i: int| 0 <= i < prev.len() implies !is_answer(#[trigger] action_at(s, prev, i)) by {
            assert(prev.take(i) =~= evs.take(i));
            assert(!is_answer(action_at(s, evs, i)));
        }
        lemma_poll_progress(s, prev);
        assert(evs.take(n) =~= prev);
        assert(!is_answer(action_at(s, evs, n)));
        law_each_poll_ends(drive_all(s, prev), evs.last());
    }
}

/// A poll answered `Pending` leaves the connect started, so from then on
/// no socket is created and no connect started again.
pub proof fn law_pending_means_started(s: ConnectState, ev: ConnectEvent)
    requires
        consistent(s),
        drive(s, ev).1 is Pending,
    ensures
        consistent(drive(s, ev).0),
        drive(s, ev).0.connect_initiated,
{
}

/// A poll is answered `Pending` only right after a readiness poll that
/// itself reported `Pending`, so a waker is registered: a readiness poll
/// that reports the socket ready never leaves the poll waiting, and no
/// other call answers `Pending`.
pub proof fn law_pending_only_after_pending(s: ConnectState, ev: ConnectEvent)
    ensures
        drive(s, ev).1 is Pending ==> ev == ConnectEvent::Pending && (s.stage == Stage::FirstPoll
            || s.stage == Stage::Polling),
        (s.stage == Stage::FirstPoll || s.stage == Stage::Polling) && ev == ConnectEvent::Succeeded ==> !(drive(
            s,
            ev,
        ).1 is Pending),
{
}

/// When the readiness poll right after registration finds the socket
/// ready (with or without an error), the connect counts as started, keeps
/// its socket, and polls the socket again at once in the same poll.
pub proof fn law_first_ready_polls_again(s: ConnectState, ev: ConnectEvent)
    requires
        s.stage == Stage::FirstPoll,
        ev == ConnectEvent::Succeeded || ev == ConnectEvent::Failed,
    ensures
        drive(s, ev).1 == ConnectAction::PollWriteReady,
        drive(s, ev).0.connect_initiated,
        drive(s, ev).0.has_socket,
        drive(s, ev).0.stage == Stage::Polling,
{
}

} // verus!
