//! Running one experiment: build the generals, pick traitors and a first
//! commander, run the recursive protocol and validate the outcome.
//!
//! The deterministic core, `run_trial`, takes the traitor assignment and the
//! commander choice as plain values, so tests can fix a selection; the
//! randomized driver draws both through the random selection wrappers and is
//! verified for every outcome they may produce.

use vstd::prelude::*;

use crate::general::General;
use crate::message::Message;
use crate::model::{abs_arena, full_roster, initial_arena, trial_succeeds};
use crate::om::{
    all_loyal, counters_consistent, lemma_loyal_decisions_abs, lemma_loyal_decisions_all_equal,
    lemma_loyal_decisions_nonempty, ranks_preserved, roster_holds_only, roster_ok,
    roster_unanimous, OMAlgorithm,
};

verus! {

/// Linear membership test for a vector of indices.
fn contains_index(v: &Vec<usize>, x: usize) -> (found: bool)
    ensures
        found == v@.contains(x),
{
    let n = v.len();
    let mut j: usize = 0;
    while j < n
        invariant
            n == v@.len(),
            j <= n,
            forall|t: int| 0 <= t < j ==> (#[trigger] v@[t]) != x,
        decreases n - j,
    {
        if v[j] == x {
            proof {
                assert(v@[j as int] == x);
                assert(v@.contains(x));
            }
            return true;
        }
        j = j + 1;
    }
    proof {
        if v@.contains(x) {
            let t = choose|t: int| 0 <= t < v@.len() && v@[t] == x;
            assert(v@[t] != x);
        }
    }
    false
}

/// Whether any general other than the first commander is outside the
/// traitor set.
fn has_loyal_lieutenant(
    num_generals: usize,
    first_commander: usize,
    traitors: &Vec<usize>,
) -> (found: bool)
    ensures
        found == exists|i: usize|
            i < num_generals && i != first_commander && !traitors@.contains(i),
{
    let mut i: usize = 0;
    while i < num_generals
        invariant
            i <= num_generals,
            forall|x: usize| x < i ==> x == first_commander || #[trigger] traitors@.contains(x),
        decreases num_generals - i,
    {
        if i != first_commander {
            if !contains_index(traitors, i) {
                proof {
                    assert(i < num_generals && i != first_commander && !traitors@.contains(i));
                }
                return true;
            }
        }
        i = i + 1;
    }
    proof {
        if exists|x: usize| x < num_generals && x != first_commander && !traitors@.contains(x) {
            let x = choose|x: usize|
                x < num_generals && x != first_commander && !traitors@.contains(x);
            assert(x == first_commander || traitors@.contains(x));
        }
    }
    false
}

/// Relies on rand::seq::index::sample: exactly `amount` distinct indices
/// drawn from `0..length`, returned in random order; it panics when asked
/// for more indices than the range holds, which the precondition rules out.
#[verifier::external_body]
fn choose_traitors(num_generals: usize, num_traitors: usize) -> (chosen: Vec<usize>)
    requires
        num_traitors <= num_generals,
    ensures
        chosen@.len() == num_traitors as int,
        forall|k: int| 0 <= k < chosen@.len() ==> (#[trigger] chosen@[k]) < num_generals,
        forall|k1: int, k2: int| 0 <= k1 < k2 < chosen@.len() ==> chosen@[k1] != chosen@[k2],
{
    rand::seq::index::sample(&mut rand::rng(), num_generals, num_traitors).into_vec()
}

/// Relies on rand::random_range: a value uniformly drawn from the given
/// range; it panics on an empty range, which the precondition rules out.
#[verifier::external_body]
fn pick_first_commander(num_generals: usize) -> (picked: usize)
    requires
        1 <= num_generals,
    ensures
        picked < num_generals,
{
    rand::random_range(0..num_generals)
}

/// A freshly created general at arena slot `x`: numbered from one, loyal
/// exactly when `x` is outside the traitor set, holding no messages.
spec fn fresh_general(g: General, x: int, traitors: Seq<usize>) -> bool {
    &&& g.id == x + 1
    &&& g.is_traitor == traitors.contains(x as usize)
    &&& g.messages@.len() == 0
    &&& g.decision == false
    &&& g.total_messages_received == 0
}

/// One full experiment with a fixed selection: generals numbered from one,
/// the listed arena slots marked as traitors, the chosen first commander
/// seeded with the original order and excluded from the roster; then OM(m)
/// runs and the consistency validator judges the outcome.
///
/// With a loyal first commander the selection must leave some other general
/// loyal, since the validator compares against the first loyal decision.
/// With no traitors at all the trial is guaranteed to succeed.
#[verifier::loop_isolation(false)]
pub fn run_trial(
    num_generals: usize,
    traitors: &Vec<usize>,
    first_commander: usize,
    m: usize,
    original_order: Message,
) -> (success: bool)
    requires
        first_commander < num_generals,
        forall|k: int| 0 <= k < traitors@.len() ==> (#[trigger] traitors@[k]) < num_generals,
        !traitors@.contains(first_commander) ==> exists|i: usize|
            i < num_generals && i != first_commander && !traitors@.contains(i),
    ensures
        success == trial_succeeds(
            num_generals as int,
            traitors@,
            first_commander,
            m as nat,
            original_order,
        ),
        traitors@.len() == 0 ==> success,
{
    // Create the generals, loyalty fixed by the selection.
    let mut arena: Vec<General> = Vec::new();
    let mut i: usize = 0;
    while i < num_generals
        invariant
            i <= num_generals,
            arena@.len() == i as int,
            forall|x: int| 0 <= x < i ==> fresh_general(#[trigger] arena@[x], x, traitors@),
        decreases num_generals - i,
    {
        let is_t = contains_index(traitors, i);
        arena.push(General::new(i + 1, is_t));
        i = i + 1;
    }

    // The first commander starts out holding the original order as its
    // decision.
    let commander_ref = &mut arena[first_commander];
    commander_ref.decision = original_order.attack;

    let ghost init_model = initial_arena(
        num_generals as int,
        traitors@,
        first_commander,
        original_order,
    );
    proof {
        assert(abs_arena(arena@) == init_model) by {
            assert forall|x: int|
                0 <= x < num_generals implies abs_arena(arena@)[x] == init_model[x] by {
                assert(arena@[x].messages@ =~= Seq::<Message>::empty());
            }
            assert(abs_arena(arena@) =~= init_model);
        }
    }

    // The roster: every general but the first commander, in arena order.
    let mut roster: Vec<usize> = Vec::new();
    let mut j: usize = 0;
    while j < num_generals
        invariant
            j <= num_generals,
            forall|k1: int, k2: int|
                0 <= k1 < k2 < roster@.len() ==> roster@[k1] < roster@[k2],
            forall|k: int|
                0 <= k < roster@.len() ==> (#[trigger] roster@[k]) < j && roster@[k]
                    != first_commander,
            forall|x: usize| x < j && x != first_commander ==> #[trigger] roster@.contains(x),
            roster@ == full_roster(j as int, first_commander),
        decreases num_generals - j,
    {
        if j != first_commander {
            let ghost roster0 = roster@;
            roster.push(j);
            proof {
                assert forall|x: usize|
                    x < j + 1 && x != first_commander implies #[trigger] roster@.contains(x) by {
                    if x < j {
                        assert(roster0.contains(x));
                        let t = choose|t: int| 0 <= t < roster0.len() && roster0[t] == x;
                        assert(roster@[t] == x);
                    } else {
                        assert(roster@[roster@.len() - 1] == x);
                    }
                }
                assert(roster@ == full_roster(j as int + 1, first_commander));
            }
        } else {
            proof {
                assert(roster@ == full_roster(j as int + 1, first_commander));
            }
        }
        j = j + 1;
    }

    let ghost arena_before = arena@;
    let om = OMAlgorithm {
        is_first_commander_loyal: !contains_index(traitors, first_commander),
        original_order,
    };

    proof {
        assert(roster_ok(arena@, roster@, first_commander));
        assert(counters_consistent(arena@));
    }
    om.om_algorithm(&mut arena, &roster, first_commander, m);

    proof {
        let v = arena_before[first_commander as int].decision;
        assert(v == original_order.attack);
        if traitors@.len() == 0 {
            // Zero-traitor unanimity: everyone is loyal, every mailbox is
            // empty, so the protocol's loyal guarantee applies in full.
            assert(all_loyal(arena_before, roster@, first_commander));
            assert(roster_holds_only(arena_before, roster@, v));
            assert(roster_unanimous(arena@, roster@, v));
            assert(ranks_preserved(arena_before, arena@));
            assert forall|k: int|
                0 <= k < roster@.len() implies !arena@[(#[trigger] roster@[k]) as int].is_traitor
                && arena@[roster@[k] as int].decision == v by {}
            lemma_loyal_decisions_all_equal(arena@, roster@, v);
        }
        if om.is_first_commander_loyal {
            let w = choose|w: usize|
                w < num_generals && w != first_commander && !traitors@.contains(w);
            assert(roster@.contains(w));
            let t = choose|t: int| 0 <= t < roster@.len() && roster@[t] == w;
            assert(!arena@[(roster@[t]) as int].is_traitor);
        }
    }
    let success = om.was_successful(&arena, &roster);
    proof {
        lemma_loyal_decisions_abs(arena@, roster@);
        assert(success == trial_succeeds(
            num_generals as int,
            traitors@,
            first_commander,
            m as nat,
            original_order,
        )) by {
            assert(roster@ == full_roster(num_generals as int, first_commander));
            assert(abs_arena(arena_before) == init_model);
            assert(abs_arena(arena@) == crate::model::om_model(
                init_model,
                roster@,
                first_commander,
                m as nat,
            ));
        }
        if traitors@.len() == 0 {
            let ld = crate::om::loyal_decisions(arena@, roster@);
            let w = choose|w: usize|
                w < num_generals && w != first_commander && !traitors@.contains(w);
            assert(roster@.contains(w));
            assert(roster@.len() > 0);
            assert(ld[0] == original_order.attack);
        }
    }
    success
}

/// One full experiment with a random selection: `num_traitors` distinct
/// generals drawn as traitors and a random first commander. In the corner
/// case of a loyal commander facing an all-traitor roster the validator has
/// no loyal decision to compare, and the trial counts as failed consensus.
pub fn run_random_trial(
    num_generals: usize,
    num_traitors: usize,
    m: usize,
    original_order: Message,
) -> (success: bool)
    requires
        1 <= num_generals,
        num_traitors <= num_generals,
    ensures
        num_traitors == 0 && 2 <= num_generals ==> success,
{
    let traitors = choose_traitors(num_generals, num_traitors);
    let first_commander = pick_first_commander(num_generals);
    if !contains_index(&traitors, first_commander) {
        if !has_loyal_lieutenant(num_generals, first_commander, &traitors) {
            proof {
                if num_traitors == 0 && 2 <= num_generals {
                    let w: usize = if first_commander == 0 {
                        1
                    } else {
                        0
                    };
                    assert(w < num_generals && w != first_commander && !traitors@.contains(w));
                    assert(false);
                }
            }
            return false;
        }
    }
    run_trial(num_generals, &traitors, first_commander, m, original_order)
}

} // verus!
