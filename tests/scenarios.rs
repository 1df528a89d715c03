use throttle::config::Semaphores;
use throttle::leases::Counts;
use throttle::service::acquire_status;
use throttle::state::{wait_step, Error, State, WaitStep};

const MINUTE: u64 = 60_000;

fn state_a5() -> State {
    let mut semaphores = Semaphores::new();
    semaphores.insert("A", 5);
    State::new(semaphores)
}

#[test]
fn simple_grant() {
    let mut state = state_a5();
    let (p1, active) = state.acquire("A", 3, MINUTE, 0).unwrap();
    assert!(active);
    assert_eq!(state.remainder("A"), Ok(2));
    assert!(state.release(p1));
    assert_eq!(state.remainder("A"), Ok(5));
}

#[test]
fn pending_then_promoted() {
    let mut state = state_a5();
    let (p1, a1) = state.acquire("A", 3, MINUTE, 0).unwrap();
    let (p2, a2) = state.acquire("A", 3, MINUTE, 0).unwrap();
    assert!(a1);
    assert!(!a2);
    assert_eq!(state.remainder("A"), Ok(2));
    assert!(state.release(p1));
    assert_eq!(state.block_until_acquired(p2, MINUTE, "A", 3, 10), Ok(true));
    assert_eq!(state.remainder("A"), Ok(2));
}

#[test]
fn barging() {
    let mut state = state_a5();
    let (p1, a1) = state.acquire("A", 4, MINUTE, 0).unwrap();
    let (p2, a2) = state.acquire("A", 3, MINUTE, 0).unwrap();
    let (p3, a3) = state.acquire("A", 1, MINUTE, 0).unwrap();
    assert!(a1);
    assert!(!a2);
    assert!(a3);
    assert!(state.release(p1));
    assert_eq!(state.is_active(p2), Ok(true));
    assert_eq!(state.is_active(p3), Ok(true));
    assert_eq!(state.remainder("A"), Ok(1));
}

#[test]
fn forever_pending_refused() {
    let mut state = state_a5();
    assert_eq!(
        state.acquire("A", 6, MINUTE, 0),
        Err(Error::ForeverPending { asked: 6, max: 5 })
    );
    assert_eq!(state.remainder("A"), Ok(5));
}

#[test]
fn expiry_frees_capacity() {
    let mut state = state_a5();
    let (_p1, a1) = state.acquire("A", 5, 100, 0).unwrap();
    let (p2, a2) = state.acquire("A", 5, MINUTE, 0).unwrap();
    assert!(a1);
    assert!(!a2);
    assert_eq!(state.remove_expired(200), 1);
    assert_eq!(state.block_until_acquired(p2, MINUTE, "A", 5, 200), Ok(true));
    assert_eq!(state.remainder("A"), Ok(0));
}

#[test]
fn revenant_readmission() {
    let mut state = state_a5();
    let (p1, a1) = state.acquire("A", 2, 100, 0).unwrap();
    assert!(a1);
    assert_eq!(state.remove_expired(200), 1);
    assert_eq!(state.is_active(p1), Err(Error::UnknownPeer));
    assert_eq!(state.heartbeat_for_active_peer(p1, "A", 2, MINUTE, 200), Ok(()));
    assert_eq!(state.is_active(p1), Ok(true));
    assert_eq!(state.remainder("A"), Ok(3));
}

#[test]
fn overbook_on_revenant_refused() {
    let mut state = state_a5();
    let (p1, a1) = state.acquire("A", 5, 100, 0).unwrap();
    assert!(a1);
    assert_eq!(state.remove_expired(200), 1);
    let (_p2, a2) = state.acquire("A", 5, MINUTE, 200).unwrap();
    assert!(a2);
    assert_eq!(state.block_until_acquired(p1, MINUTE, "A", 5, 300), Ok(false));
    assert_eq!(state.is_active(p1), Ok(false));
    assert_eq!(state.remainder("A"), Ok(0));
}

#[test]
fn unknown_semaphore_is_reported() {
    let mut state = state_a5();
    assert_eq!(state.acquire("B", 1, MINUTE, 0), Err(Error::UnknownSemaphore));
    assert_eq!(state.remainder("B"), Err(Error::UnknownSemaphore));
    assert_eq!(
        state.heartbeat_for_active_peer(7, "B", 1, MINUTE, 0),
        Err(Error::UnknownSemaphore)
    );
    assert_eq!(
        state.block_until_acquired(7, MINUTE, "B", 1, 0),
        Err(Error::UnknownSemaphore)
    );
    assert_eq!(state.is_active(7), Err(Error::UnknownPeer));
}

#[test]
fn heartbeat_twice_keeps_state() {
    let mut state = state_a5();
    let (p1, _) = state.acquire("A", 2, 100, 0).unwrap();
    assert_eq!(state.heartbeat_for_active_peer(p1, "A", 2, 100, 50), Ok(()));
    assert_eq!(state.heartbeat_for_active_peer(p1, "A", 2, 100, 60), Ok(()));
    assert_eq!(state.remainder("A"), Ok(3));
    // the deadline is the later one: 160
    assert_eq!(state.remove_expired(159), 0);
    assert_eq!(state.remove_expired(160), 1);
}

#[test]
fn release_twice_is_noop() {
    let mut state = state_a5();
    let (p1, _) = state.acquire("A", 2, MINUTE, 0).unwrap();
    let (_p2, _) = state.acquire("A", 1, MINUTE, 0).unwrap();
    assert!(state.release(p1));
    assert!(!state.release(p1));
    assert_eq!(state.remainder("A"), Ok(4));
}

#[test]
fn acquire_release_restores_remainder() {
    let mut state = state_a5();
    let (_p0, _) = state.acquire("A", 4, MINUTE, 0).unwrap();
    let before = state.remainder("A");
    let (p1, a1) = state.acquire("A", 1, MINUTE, 0).unwrap();
    assert!(a1);
    assert!(state.release(p1));
    assert_eq!(state.remainder("A"), before);
    let (p2, a2) = state.acquire("A", 3, MINUTE, 0).unwrap();
    assert!(!a2);
    assert!(state.release(p2));
    assert_eq!(state.remainder("A"), before);
}

#[test]
fn full_count_request() {
    let mut state = state_a5();
    let (p1, a1) = state.acquire("A", 5, MINUTE, 0).unwrap();
    assert!(a1);
    let (_p2, a2) = state.acquire("A", 5, MINUTE, 0).unwrap();
    assert!(!a2);
    assert!(state.release(p1));
    assert_eq!(state.remainder("A"), Ok(0));
}

#[test]
fn zero_timeout_returns_at_once() {
    assert_eq!(wait_step(false, 0, 0), WaitStep::Done(false));
    assert_eq!(wait_step(true, 0, 0), WaitStep::Done(true));
    assert_eq!(wait_step(false, 250, 1000), WaitStep::Wait(750));
    assert_eq!(wait_step(false, 1000, 1000), WaitStep::Done(false));
}

#[test]
fn error_status_codes() {
    assert_eq!(Error::UnknownSemaphore.status_code(), 400);
    assert_eq!(Error::UnknownPeer.status_code(), 400);
    assert_eq!(Error::ForeverPending { asked: 6, max: 5 }.status_code(), 409);
}

#[test]
fn acquire_statuses() {
    let mut state = state_a5();
    let active = state.acquire("A", 5, MINUTE, 0);
    let pending = state.acquire("A", 1, MINUTE, 0);
    assert_eq!(acquire_status(&active), 201);
    assert_eq!(acquire_status(&pending), 202);
    assert_eq!(acquire_status(&state.acquire("A", 6, MINUTE, 0)), 409);
    assert_eq!(acquire_status(&state.acquire("B", 1, MINUTE, 0)), 400);
}

#[test]
fn snapshot_adds_to_given_counts() {
    let mut state = state_a5();
    state.acquire("A", 3, MINUTE, 0).unwrap();
    state.acquire("A", 4, MINUTE, 0).unwrap();
    let mut counts = vec![("A".to_string(), Counts { active: 1, pending: 1 })];
    state.snapshot(&mut counts);
    assert_eq!((counts[0].1.active, counts[0].1.pending), (4, 5));
}
