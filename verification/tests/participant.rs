use byzantine_generals::{General, Message};

#[test]
fn new_general_starts_empty() {
    let g = General::new(7, true);
    assert_eq!(g.id, 7);
    assert!(g.is_traitor);
    assert!(g.messages.is_empty());
    assert!(!g.decision);
    assert_eq!(g.total_messages_received, 0);
}

#[test]
fn first_order_seeds_decision() {
    let mut g = General::new(1, false);
    g.receive_order(Message { attack: true }, 2);
    assert!(g.decision);
    assert_eq!(g.total_messages_received, 1);
    g.receive_order(Message { attack: false }, 3);
    assert!(g.decision, "a later order must not reseed the decision");
    assert_eq!(g.total_messages_received, 2);
    assert_eq!(g.messages.len(), 2);
}

#[test]
fn first_retreat_order_seeds_retreat() {
    let mut g = General::new(1, false);
    g.receive_order(Message { attack: false }, 2);
    assert!(!g.decision);
}

#[test]
fn loyal_general_relays_its_decision() {
    let mut g = General::new(1, false);
    g.decision = true;
    assert!(g.next_order(0).attack);
    assert!(g.next_order(1).attack);
    g.decision = false;
    assert!(!g.next_order(0).attack);
    assert!(!g.next_order(1).attack);
}

#[test]
fn traitor_flips_for_even_recipients() {
    let mut g = General::new(1, true);
    g.decision = true;
    assert!(!g.next_order(0).attack);
    assert!(g.next_order(1).attack);
    assert!(!g.next_order(2).attack);
    assert!(g.next_order(3).attack);
    g.decision = false;
    assert!(g.next_order(0).attack);
    assert!(!g.next_order(1).attack);
}

#[test]
fn decide_follows_the_majority() {
    let mut g = General::new(1, false);
    g.receive_order(Message { attack: true }, 9);
    g.receive_order(Message { attack: false }, 9);
    g.receive_order(Message { attack: true }, 9);
    g.decide();
    assert!(g.decision);

    let mut h = General::new(2, false);
    h.receive_order(Message { attack: true }, 9);
    h.receive_order(Message { attack: false }, 9);
    h.receive_order(Message { attack: false }, 9);
    h.decide();
    assert!(!h.decision);
}

#[test]
fn tie_resolves_to_retreat() {
    let mut g = General::new(1, false);
    g.receive_order(Message { attack: true }, 9);
    g.receive_order(Message { attack: false }, 9);
    g.decide();
    assert!(!g.decision, "an attack/retreat tie must resolve to retreat");
}

#[test]
fn decide_on_empty_mailbox_is_retreat() {
    let mut g = General::new(1, false);
    g.decision = true;
    g.decide();
    assert!(!g.decision);
}

#[test]
fn decide_ignores_arrival_order() {
    let mut g = General::new(1, false);
    let mut h = General::new(2, false);
    let orders = [true, false, true, true, false];
    for &o in orders.iter() {
        g.receive_order(Message { attack: o }, 9);
    }
    for &o in orders.iter().rev() {
        h.receive_order(Message { attack: o }, 9);
    }
    g.decide();
    h.decide();
    assert_eq!(g.decision, h.decision);
}

#[test]
fn decide_is_idempotent() {
    let mut g = General::new(1, false);
    g.receive_order(Message { attack: false }, 9);
    g.receive_order(Message { attack: true }, 9);
    g.receive_order(Message { attack: true }, 9);
    g.decide();
    let first = g.decision;
    g.decide();
    assert_eq!(g.decision, first);
}
