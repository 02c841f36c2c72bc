use blog::net_connect::{AsyncConnectFuture, ConnectAction, ConnectEvent, ConnectOutcome, Stage};

fn is(a: ConnectAction, b: ConnectAction) -> bool {
    a == b
}

#[test]
fn connect_succeeds_after_pending() {
    let mut f = AsyncConnectFuture::new(true);
    assert!(is(f.poll_start(), ConnectAction::CreateSocket { ipv4: true }));
    assert!(is(f.on_event(ConnectEvent::Succeeded), ConnectAction::SetNonblocking));
    assert!(is(f.on_event(ConnectEvent::Succeeded), ConnectAction::Connect));
    assert!(is(f.on_event(ConnectEvent::WouldBlock), ConnectAction::Register));
    assert!(is(f.on_event(ConnectEvent::Succeeded), ConnectAction::PollWriteReady));
    assert!(is(f.on_event(ConnectEvent::Pending), ConnectAction::Pending));
    assert!(f.state().connect_initiated && f.state().has_socket);
    assert!(f.state().stage == Stage::Idle);
    assert!(is(f.poll_start(), ConnectAction::PollWriteReady));
    assert!(is(f.on_event(ConnectEvent::Succeeded), ConnectAction::CheckPeer));
    assert!(is(f.on_event(ConnectEvent::Succeeded), ConnectAction::Ready(ConnectOutcome::Connected)));
    assert!(!f.state().has_socket);
    assert!(is(f.poll_start(), ConnectAction::Ready(ConnectOutcome::NotConnected)));
}

#[test]
fn connect_ready_at_once_polls_again() {
    let mut f = AsyncConnectFuture::new(false);
    assert!(is(f.poll_start(), ConnectAction::CreateSocket { ipv4: false }));
    f.on_event(ConnectEvent::Succeeded);
    f.on_event(ConnectEvent::Succeeded);
    assert!(is(f.on_event(ConnectEvent::Succeeded), ConnectAction::Register));
    f.on_event(ConnectEvent::Succeeded);
    assert!(is(f.on_event(ConnectEvent::Failed), ConnectAction::PollWriteReady));
    assert!(f.state().connect_initiated && f.state().has_socket && f.state().stage == Stage::Polling);
}

#[test]
fn connect_setup_failure_starts_over() {
    let mut f = AsyncConnectFuture::new(true);
    f.poll_start();
    f.on_event(ConnectEvent::Succeeded);
    f.on_event(ConnectEvent::Succeeded);
    assert!(is(f.on_event(ConnectEvent::Failed), ConnectAction::Ready(ConnectOutcome::Failed)));
    assert!(!f.state().connect_initiated && !f.state().has_socket);
    assert!(is(f.poll_start(), ConnectAction::CreateSocket { ipv4: true }));
    assert!(is(f.on_event(ConnectEvent::Failed), ConnectAction::Ready(ConnectOutcome::Failed)));
}

#[test]
fn connect_peer_failure_keeps_socket() {
    let mut f = AsyncConnectFuture::new(true);
    f.poll_start();
    f.on_event(ConnectEvent::Succeeded);
    f.on_event(ConnectEvent::Succeeded);
    f.on_event(ConnectEvent::Succeeded);
    f.on_event(ConnectEvent::Succeeded);
    f.on_event(ConnectEvent::Pending);
    f.poll_start();
    assert!(is(f.on_event(ConnectEvent::Succeeded), ConnectAction::CheckPeer));
    assert!(is(f.on_event(ConnectEvent::Failed), ConnectAction::Ready(ConnectOutcome::Failed)));
    assert!(f.state().has_socket && f.state().connect_initiated);
    assert!(is(f.poll_start(), ConnectAction::PollWriteReady));
    assert!(is(f.on_event(ConnectEvent::Failed), ConnectAction::Ready(ConnectOutcome::Failed)));
}

#[test]
fn connect_expects_only_what_the_action_can_produce() {
    let mut f = AsyncConnectFuture::new(true);
    assert!(!f.expects(ConnectEvent::Succeeded));
    f.poll_start();
    assert!(f.expects(ConnectEvent::Succeeded));
    assert!(f.expects(ConnectEvent::Failed));
    assert!(!f.expects(ConnectEvent::Pending));
    assert!(!f.expects(ConnectEvent::WouldBlock));
    f.on_event(ConnectEvent::Succeeded);
    f.on_event(ConnectEvent::Succeeded);
    assert!(f.expects(ConnectEvent::WouldBlock));
    assert!(!f.expects(ConnectEvent::Pending));
}

#[test]
fn connect_is_started_once_over_polls() {
    let mut f = AsyncConnectFuture::new(true);
    let mut creates = 0;
    let mut connects = 0;
    let mut count = |a: ConnectAction| {
        if let ConnectAction::CreateSocket { .. } = a {
            creates += 1;
        }
        if let ConnectAction::Connect = a {
            connects += 1;
        }
        a
    };
    count(f.poll_start());
    count(f.on_event(ConnectEvent::Succeeded));
    count(f.on_event(ConnectEvent::Succeeded));
    count(f.on_event(ConnectEvent::WouldBlock));
    count(f.on_event(ConnectEvent::Succeeded));
    count(f.on_event(ConnectEvent::Pending));
    for _ in 0..3 {
        count(f.poll_start());
        count(f.on_event(ConnectEvent::Pending));
    }
    count(f.poll_start());
    count(f.on_event(ConnectEvent::Succeeded));
    count(f.on_event(ConnectEvent::Succeeded));
    assert_eq!(creates, 1);
    assert_eq!(connects, 1);
}

#[test]
fn connect_started_once_over_pending_polls() {
    let mut f = AsyncConnectFuture::new(true);
    let mut creates = 0u32;
    let mut connects = 0u32;
    let mut actions: Vec<ConnectAction> = Vec::new();
    actions.push(f.poll_start());
    for ev in [ConnectEvent::Succeeded, ConnectEvent::Succeeded, ConnectEvent::WouldBlock, ConnectEvent::Succeeded, ConnectEvent::Pending] {
        actions.push(f.on_event(ev));
    }
    for _ in 0..3 {
        actions.push(f.poll_start());
        actions.push(f.on_event(ConnectEvent::Pending));
    }
    let mut steps_in_poll = 0u32;
    for a in &actions {
        match a {
            ConnectAction::CreateSocket { .. } => creates += 1,
            ConnectAction::Connect => connects += 1,
            _ => {}
        }
        steps_in_poll += 1;
        if matches!(a, ConnectAction::Pending | ConnectAction::Ready(_)) {
            assert!(steps_in_poll <= 8);
            steps_in_poll = 0;
        }
    }
    assert_eq!(creates, 1);
    assert_eq!(connects, 1);
    assert!(is(actions[actions.len() - 1], ConnectAction::Pending));
}
