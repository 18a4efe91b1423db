use chat_lobby::{Lobby, LobbyError, Pairing};

fn lobby_with(ids: &[u64]) -> Lobby<u64> {
    let mut lobby = Lobby::new();
    for &id in ids {
        assert_eq!(lobby.register(id, id * 10), Ok(()));
    }
    lobby
}

#[test]
fn register_queues_in_arrival_order() {
    let lobby = lobby_with(&[7, 3]);
    assert_eq!(lobby.waiting_len(), 2);
    assert!(lobby.is_waiting(7));
    assert!(lobby.is_waiting(3));
    assert!(lobby.is_registered(7));
    assert_eq!(lobby.route(3), Some(&30));
}

#[test]
fn register_twice_is_refused() {
    let mut lobby = lobby_with(&[5]);
    assert_eq!(lobby.register(5, 99), Err(LobbyError::AlreadyRegistered));
    assert_eq!(lobby.waiting_len(), 1);
    assert_eq!(lobby.route(5), Some(&50));
}

#[test]
fn lone_client_cannot_pair() {
    let mut lobby = lobby_with(&[1]);
    assert_eq!(lobby.attempt_pair(1), Pairing::Unpaired);
    assert!(lobby.is_waiting(1));
}

#[test]
fn only_second_in_queue_makes_the_match() {
    let mut lobby = lobby_with(&[1, 2, 3]);
    assert_eq!(lobby.attempt_pair(1), Pairing::Unpaired);
    assert_eq!(lobby.attempt_pair(3), Pairing::Unpaired);
    assert_eq!(lobby.waiting_len(), 3);
    assert_eq!(lobby.attempt_pair(2), Pairing::Paired(1));
    assert_eq!(lobby.waiting_len(), 1);
    assert!(!lobby.is_waiting(1));
    assert!(!lobby.is_waiting(2));
    assert_eq!(lobby.partner_of(1), Some(2));
    assert_eq!(lobby.partner_of(2), Some(1));
    assert_eq!(lobby.partner_of(3), None);
    // the front entry learns of its partner from the table
    assert_eq!(lobby.attempt_pair(1), Pairing::Paired(2));
    assert_eq!(lobby.waiting_len(), 1);
}

#[test]
fn matches_never_overlap() {
    let mut lobby = lobby_with(&[1, 2, 3, 4, 5]);
    assert_eq!(lobby.attempt_pair(2), Pairing::Paired(1));
    // 2 is already paired: asking again reports the same partner and consumes nothing
    assert_eq!(lobby.attempt_pair(2), Pairing::Paired(1));
    assert_eq!(lobby.waiting_len(), 3);
    assert_eq!(lobby.attempt_pair(4), Pairing::Paired(3));
    assert_eq!(lobby.waiting_len(), 1);
    assert_eq!(lobby.attempt_pair(5), Pairing::Unpaired);
    assert_eq!(lobby.partner_of(1), Some(2));
    assert_eq!(lobby.partner_of(3), Some(4));
    assert_eq!(lobby.partner_of(5), None);
}

#[test]
fn give_up_removes_from_queue() {
    let mut lobby = lobby_with(&[1, 2, 3]);
    assert_eq!(lobby.give_up(2), Pairing::Unpaired);
    assert!(!lobby.is_waiting(2));
    assert!(lobby.is_waiting(1));
    assert!(lobby.is_waiting(3));
    assert_eq!(lobby.waiting_len(), 2);
    // still registered until its handler leaves
    assert!(lobby.is_registered(2));
}

#[test]
fn give_up_after_late_match_reports_partner() {
    let mut lobby = lobby_with(&[1, 2]);
    assert_eq!(lobby.attempt_pair(2), Pairing::Paired(1));
    assert_eq!(lobby.give_up(1), Pairing::Paired(2));
    assert_eq!(lobby.partner_of(1), Some(2));
}

#[test]
fn end_chat_removes_both_halves() {
    let mut lobby = lobby_with(&[1, 2]);
    assert_eq!(lobby.attempt_pair(2), Pairing::Paired(1));
    assert_eq!(lobby.end_chat(1), Some(2));
    assert_eq!(lobby.partner_of(1), None);
    assert_eq!(lobby.partner_of(2), None);
    assert_eq!(lobby.end_chat(2), None);
}

#[test]
fn unregister_cleans_everything_and_is_idempotent() {
    let mut lobby = lobby_with(&[1, 2, 3]);
    assert_eq!(lobby.attempt_pair(2), Pairing::Paired(1));
    lobby.unregister(2);
    assert!(!lobby.is_registered(2));
    assert_eq!(lobby.partner_of(1), None);
    assert_eq!(lobby.route(2), None);
    lobby.unregister(2);
    assert!(!lobby.is_registered(2));
    lobby.unregister(3);
    assert_eq!(lobby.waiting_len(), 0);
    assert!(lobby.is_registered(1));
}

#[test]
fn route_to_vanished_partner_is_none() {
    let mut lobby = lobby_with(&[1, 2]);
    assert_eq!(lobby.attempt_pair(2), Pairing::Paired(1));
    lobby.unregister(1);
    assert_eq!(lobby.route(1), None);
    assert_eq!(lobby.route(2), Some(&20));
}

#[test]
fn identity_may_return_after_leaving() {
    let mut lobby = lobby_with(&[1]);
    lobby.unregister(1);
    assert_eq!(lobby.register(1, 11), Ok(()));
    assert_eq!(lobby.route(1), Some(&11));
    assert_eq!(lobby.waiting_len(), 1);
}

#[test]
fn pairings_at_most_half_of_clients() {
    let ids: Vec<u64> = (1..=7).collect();
    let mut lobby = lobby_with(&ids);
    let mut pairings = 0;
    for _round in 0..3 {
        for &id in &ids {
            let before = lobby.waiting_len();
            if let Pairing::Paired(_) = lobby.attempt_pair(id) {
                if lobby.waiting_len() + 2 == before {
                    pairings += 1;
                }
            }
        }
    }
    assert_eq!(pairings, 3);
    assert_eq!(lobby.waiting_len(), 1);
    for &id in &ids {
        if let Some(p) = lobby.partner_of(id) {
            assert_ne!(p, id);
            assert_eq!(lobby.partner_of(p), Some(id));
        }
    }
}
