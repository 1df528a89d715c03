use throttle::config::Semaphores;
use throttle::leases::{Counts, Leases};
use throttle::service::{ActiveAdmissions, PendingAdmissions};

#[test]
fn add_counts_active_leases() {
    let mut leases = Leases::new();
    let (a1, p1) = leases.add("A", 3, 5, 100);
    let (a2, p2) = leases.add("A", 3, 5, 100);
    let (a3, _p3) = leases.add("B", 3, 5, 100);
    assert!(a1 && !a2 && a3);
    assert_ne!(p1, p2);
    assert_eq!(leases.count("A"), 3);
    assert_eq!(leases.count("B"), 3);
    assert_eq!(leases.count("C"), 0);
    assert_eq!(leases.has_pending(p1), Some(true));
    assert_eq!(leases.has_pending(p2), Some(false));
    assert_eq!(leases.len(), 3);
}

#[test]
fn peer_ids_are_distinct() {
    let mut leases = Leases::new();
    let mut ids = Vec::new();
    for _ in 0..50 {
        ids.push(leases.add("A", 1, 100, 0).1);
    }
    for i in 0..ids.len() {
        for j in i + 1..ids.len() {
            assert_ne!(ids[i], ids[j]);
        }
    }
}

#[test]
fn remove_returns_semaphore() {
    let mut leases = Leases::new();
    let (_, p1) = leases.add("A", 1, 5, 0);
    assert_eq!(leases.remove(p1), Some("A".to_string()));
    assert_eq!(leases.remove(p1), None);
    assert_eq!(leases.has_pending(p1), None);
}

#[test]
fn resolve_pending_is_first_fit() {
    let mut leases = Leases::new();
    let (_, p1) = leases.add("A", 5, 5, 0);
    let (_, p2) = leases.add("A", 4, 5, 0);
    let (_, p3) = leases.add("A", 2, 5, 0);
    let (_, p4) = leases.add("A", 1, 5, 0);
    leases.remove(p1);
    leases.resolve_pending("A", 5);
    assert_eq!(leases.has_pending(p2), Some(true));
    assert_eq!(leases.has_pending(p3), Some(false));
    assert_eq!(leases.has_pending(p4), Some(true));
    assert_eq!(leases.count("A"), 5);
}

#[test]
fn remove_expired_counts_removed() {
    let mut leases = Leases::new();
    leases.add("A", 1, 5, 10);
    let (_, p2) = leases.add("A", 1, 5, 20);
    leases.add("A", 1, 5, 30);
    assert_eq!(leases.remove_expired(20), 2);
    assert_eq!(leases.has_pending(p2), None);
    assert_eq!(leases.len(), 1);
}

#[test]
fn update_valid_until_finds_peer() {
    let mut leases = Leases::new();
    let (_, p1) = leases.add("A", 1, 5, 10);
    assert!(leases.update_valid_until(p1, 50));
    assert!(!leases.update_valid_until(p1.wrapping_add(1), 50));
    assert_eq!(leases.remove_expired(40), 0);
    assert_eq!(leases.remove_expired(50), 1);
}

#[test]
fn active_revenant_may_overbook() {
    let mut leases = Leases::new();
    leases.add("A", 5, 5, 0);
    leases.revenant(42, "A", 3, true, 5, 0);
    leases.revenant(43, "A", 3, false, 5, 0);
    assert_eq!(leases.has_pending(42), Some(true));
    assert_eq!(leases.has_pending(43), Some(false));
    assert_eq!(leases.count("A"), 8);
}

#[test]
fn fill_counts_sums_per_semaphore() {
    let mut leases = Leases::new();
    leases.add("A", 3, 5, 0);
    leases.add("A", 4, 5, 0);
    leases.add("B", 2, 5, 0);
    let mut counts = vec![
        ("A".to_string(), Counts { active: 0, pending: 0 }),
        ("B".to_string(), Counts { active: 0, pending: 0 }),
    ];
    leases.fill_counts(&mut counts);
    assert_eq!((counts[0].1.active, counts[0].1.pending), (3, 4));
    assert_eq!((counts[1].1.active, counts[1].1.pending), (2, 0));
}

#[test]
fn semaphores_insert_replaces() {
    let mut semaphores = Semaphores::new();
    assert_eq!(semaphores.get("A"), None);
    semaphores.insert("A", 5);
    semaphores.insert("B", 1);
    semaphores.insert("A", 7);
    assert_eq!(semaphores.get("A"), Some(7));
    assert_eq!(semaphores.get("B"), Some(1));
    assert_eq!(semaphores.names().len(), 3);
}

#[test]
fn admissions_pick_first_entry() {
    let empty = PendingAdmissions { pending: vec![], expires_in: 10 };
    assert_eq!(empty.pending(), None);
    let one = PendingAdmissions { pending: vec![("A".to_string(), 3)], expires_in: 10 };
    assert_eq!(one.pending(), Some(("A", 3)));
    let heartbeat = ActiveAdmissions { active: vec![("B".to_string(), 2)], expires_in: 10 };
    assert_eq!(heartbeat.active(), Some(("B", 2)));
}

#[test]
fn fill_counts_adds_to_given_counts() {
    let empty = Leases::new();
    let mut counts = vec![("A".to_string(), Counts { active: 1, pending: 2 })];
    empty.fill_counts(&mut counts);
    assert_eq!((counts[0].1.active, counts[0].1.pending), (1, 2));

    let mut leases = Leases::new();
    leases.add("A", 3, 5, 0);
    leases.add("A", 4, 5, 0);
    let mut counts = vec![("A".to_string(), Counts { active: 10, pending: 20 })];
    leases.fill_counts(&mut counts);
    assert_eq!((counts[0].1.active, counts[0].1.pending), (13, 24));
    leases.fill_counts(&mut counts);
    assert_eq!((counts[0].1.active, counts[0].1.pending), (16, 28));
}
