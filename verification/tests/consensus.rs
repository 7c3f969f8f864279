use byzantine_generals::{run_random_trial, run_trial, General, Message, OMAlgorithm};

fn fresh_arena(num_generals: usize, traitors: &[usize]) -> Vec<General> {
    let mut arena = Vec::new();
    for i in 0..num_generals {
        arena.push(General::new(i + 1, traitors.contains(&i)));
    }
    arena
}

fn roster_without(num_generals: usize, commander: usize) -> Vec<usize> {
    (0..num_generals).filter(|&i| i != commander).collect()
}

#[test]
fn base_case_delivers_the_commanders_order() {
    let mut arena = fresh_arena(3, &[]);
    arena[0].decision = true;
    let roster = vec![1, 2];
    let om = OMAlgorithm { is_first_commander_loyal: true, original_order: Message { attack: true } };
    om.om_algorithm(&mut arena, &roster, 0, 0);
    assert_eq!(arena[1].messages.len(), 1);
    assert!(arena[1].messages[0].attack);
    assert!(arena[1].decision);
    assert_eq!(arena[2].messages.len(), 1);
    assert!(arena[2].messages[0].attack);
    assert!(arena[2].decision);
    assert!(arena[0].messages.is_empty(), "a commander never messages itself");
}

#[test]
fn base_case_traitor_commander_splits_its_lies() {
    let mut arena = fresh_arena(3, &[0]);
    arena[0].decision = true;
    let roster = vec![1, 2];
    let om = OMAlgorithm { is_first_commander_loyal: false, original_order: Message { attack: true } };
    om.om_algorithm(&mut arena, &roster, 0, 0);
    assert!(!arena[1].messages[0].attack, "even-positioned recipient gets the flipped order");
    assert!(arena[2].messages[0].attack, "odd-positioned recipient gets the true order");
}

#[test]
fn one_round_message_total() {
    let mut arena = fresh_arena(4, &[]);
    arena[0].decision = true;
    let roster = vec![1, 2, 3];
    let om = OMAlgorithm { is_first_commander_loyal: true, original_order: Message { attack: true } };
    om.om_algorithm(&mut arena, &roster, 0, 1);
    // The commander sends 3 orders; each of the 3 lieutenants then commands
    // the other 2, sending 2 orders each.
    assert_eq!(om.get_total_messages(&arena, &roster), 9);
    for &i in &roster {
        assert_eq!(arena[i].total_messages_received, arena[i].messages.len());
    }
}

#[test]
fn validator_accepts_unanimous_loyal_decisions() {
    let mut arena = fresh_arena(4, &[2]);
    for i in 0..4 {
        arena[i].decision = true;
    }
    let roster = vec![1, 2, 3];
    let om = OMAlgorithm { is_first_commander_loyal: true, original_order: Message { attack: true } };
    assert!(om.was_successful(&arena, &roster));
}

#[test]
fn validator_rejects_split_loyal_decisions() {
    let mut arena = fresh_arena(4, &[]);
    arena[1].decision = true;
    arena[2].decision = false;
    arena[3].decision = true;
    let roster = vec![1, 2, 3];
    let om = OMAlgorithm { is_first_commander_loyal: true, original_order: Message { attack: true } };
    assert!(!om.was_successful(&arena, &roster), "IC1 is broken");
}

#[test]
fn validator_rejects_disobeying_a_loyal_commander() {
    let mut arena = fresh_arena(4, &[]);
    for i in 0..4 {
        arena[i].decision = false;
    }
    let roster = vec![1, 2, 3];
    let om = OMAlgorithm { is_first_commander_loyal: true, original_order: Message { attack: true } };
    assert!(!om.was_successful(&arena, &roster), "IC2 is broken");
}

#[test]
fn validator_ignores_the_order_under_a_traitor_commander() {
    let mut arena = fresh_arena(4, &[0]);
    for i in 0..4 {
        arena[i].decision = false;
    }
    let roster = vec![1, 2, 3];
    let om = OMAlgorithm { is_first_commander_loyal: false, original_order: Message { attack: true } };
    assert!(om.was_successful(&arena, &roster), "IC2 is vacuous for a traitor commander");
}

#[test]
fn validator_ignores_traitor_decisions() {
    let mut arena = fresh_arena(4, &[1]);
    arena[1].decision = false;
    arena[2].decision = true;
    arena[3].decision = true;
    let roster = vec![1, 2, 3];
    let om = OMAlgorithm { is_first_commander_loyal: true, original_order: Message { attack: true } };
    assert!(om.was_successful(&arena, &roster));
}

#[test]
fn zero_traitors_reach_unanimity() {
    for commander in 0..4 {
        for m in 0..4 {
            for &attack in &[true, false] {
                let order = Message { attack };
                assert!(
                    run_trial(4, &vec![], commander, m, order),
                    "commander {} m {} order {}",
                    commander,
                    m,
                    attack
                );
            }
        }
    }
}

#[test]
fn zero_traitor_decisions_match_the_commander() {
    let mut arena = fresh_arena(5, &[]);
    arena[2].decision = true;
    let roster = vec![0, 1, 3, 4];
    let om = OMAlgorithm { is_first_commander_loyal: true, original_order: Message { attack: true } };
    om.om_algorithm(&mut arena, &roster, 2, 2);
    for &i in &roster {
        assert!(arena[i].decision, "general {} must adopt the commander's order", i);
    }
    assert!(arena[2].decision, "the commander keeps its own order");
}

#[test]
fn one_traitor_within_the_bound_always_succeeds() {
    // n = 4, t = 1, m = 1 satisfies n >= 3m + 1: every traitor assignment
    // and every commander choice must reach consensus.
    for traitor in 0..4 {
        for commander in 0..4 {
            for &attack in &[true, false] {
                let order = Message { attack };
                assert!(
                    run_trial(4, &vec![traitor], commander, 1, order),
                    "traitor {} commander {} order {}",
                    traitor,
                    commander,
                    attack
                );
            }
        }
    }
}

#[test]
fn two_traitors_beyond_the_bound_can_fail() {
    // n = 4, t = 2, m = 2 violates n >= 3m + 1: some fixed selection must
    // break consensus.
    let mut failures = 0;
    for a in 0..4 {
        for b in (a + 1)..4 {
            for commander in 0..4 {
                if !run_trial(4, &vec![a, b], commander, 2, Message { attack: true }) {
                    failures += 1;
                }
            }
        }
    }
    assert!(failures > 0, "a bound-violating configuration must exist");
}

#[test]
fn two_traitor_lieutenants_fool_a_loyal_commander() {
    // A pinned counterexample: with generals 2 and 3 as traitors and the
    // loyal general 0 commanding, the only loyal lieutenant ends up
    // deciding against the original order.
    assert!(!run_trial(4, &vec![2, 3], 0, 2, Message { attack: true }));
}

#[test]
fn random_trials_within_the_bound_succeed() {
    for _ in 0..20 {
        assert!(run_random_trial(4, 1, 1, Message { attack: true }));
    }
}

#[test]
fn random_trials_with_no_traitors_succeed() {
    for _ in 0..10 {
        assert!(run_random_trial(4, 0, 0, Message { attack: false }));
    }
}
