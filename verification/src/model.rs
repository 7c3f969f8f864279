//! A mathematical model of one protocol run.
//!
//! The recursive orchestrator is deterministic, so its whole effect can be
//! written down as a spec-level function from an arena image to an arena
//! image. The orchestrator's contract states that the arena it leaves
//! behind is exactly the image this model computes, and the trial runner's
//! contract composes the model with the consistency conditions.

use vstd::prelude::*;

use crate::general::{majority_attack, General};
use crate::message::Message;

verus! {

/// The ghost image of a general: everything the protocol reads or writes.
pub ghost struct GeneralModel {
    pub id: int,
    pub is_traitor: bool,
    pub decision: bool,
    pub messages: Seq<Message>,
}

/// The image of one general.
pub open spec fn abs_general(g: General) -> GeneralModel {
    GeneralModel {
        id: g.id as int,
        is_traitor: g.is_traitor,
        decision: g.decision,
        messages: g.messages@,
    }
}

/// The image of a whole arena.
pub open spec fn abs_arena(arena: Seq<General>) -> Seq<GeneralModel> {
    arena.map_values(|g: General| abs_general(g))
}

/// The order the model general relays to the recipient at position `idx`:
/// loyal generals relay their decision, traitors invert it for
/// even-positioned recipients.
pub open spec fn model_relay(g: GeneralModel, idx: int) -> Message {
    Message {
        attack: if g.is_traitor && idx % 2 == 0 {
            !g.decision
        } else {
            g.decision
        },
    }
}

/// A model general after receiving one order: the order is appended, and the
/// very first order ever received seeds the decision.
pub open spec fn model_receive(g: GeneralModel, msg: Message) -> GeneralModel {
    GeneralModel {
        id: g.id,
        is_traitor: g.is_traitor,
        decision: if g.messages.len() == 0 {
            msg.attack
        } else {
            g.decision
        },
        messages: g.messages.push(msg),
    }
}

/// A model general after refolding its decision by strict majority.
pub open spec fn model_decide(g: GeneralModel) -> GeneralModel {
    GeneralModel {
        id: g.id,
        is_traitor: g.is_traitor,
        decision: majority_attack(g.messages),
        messages: g.messages,
    }
}

/// The arena after the commander's first `k` sends of one level.
pub open spec fn model_send(
    arena: Seq<GeneralModel>,
    roster: Seq<usize>,
    commander: int,
    k: int,
) -> Seq<GeneralModel>
    decreases k,
{
    if k <= 0 {
        arena
    } else {
        let prev = model_send(arena, roster, commander, k - 1);
        let gi = roster[k - 1] as int;
        prev.update(gi, model_receive(prev[gi], model_relay(arena[commander], k - 1)))
    }
}

/// The arena after the first `k` decision refolds of one level.
pub open spec fn model_decide_all(
    arena: Seq<GeneralModel>,
    roster: Seq<usize>,
    k: int,
) -> Seq<GeneralModel>
    decreases k,
{
    if k <= 0 {
        arena
    } else {
        let prev = model_decide_all(arena, roster, k - 1);
        let gi = roster[k - 1] as int;
        prev.update(gi, model_decide(prev[gi]))
    }
}

/// The roster handed to the general at roster position `k` when it plays
/// commander: everyone else, in roster order.
pub open spec fn sub_roster(roster: Seq<usize>, k: int) -> Seq<usize> {
    roster.subrange(0, k) + roster.subrange(k + 1, roster.len() as int)
}

/// The arena after the first `k` roster generals have each completed their
/// OM(m-1) sub-round of one level.
pub open spec fn model_rounds(
    arena: Seq<GeneralModel>,
    roster: Seq<usize>,
    m: nat,
    k: int,
) -> Seq<GeneralModel>
    decreases m, 0nat, k,
{
    if k <= 0 || m == 0 {
        arena
    } else {
        let prev = model_rounds(arena, roster, m, k - 1);
        om_model(prev, sub_roster(roster, k - 1), roster[k - 1], (m - 1) as nat)
    }
}

/// The arena after one full OM(m) run: the commander sends to the whole
/// roster; if `m > 0`, every roster general runs OM(m-1) over the others and
/// then every roster general refolds its decision.
pub open spec fn om_model(
    arena: Seq<GeneralModel>,
    roster: Seq<usize>,
    commander: usize,
    m: nat,
) -> Seq<GeneralModel>
    decreases m, 1nat, 0int,
{
    let sent = model_send(arena, roster, commander as int, roster.len() as int);
    if m == 0 {
        sent
    } else {
        model_decide_all(
            model_rounds(sent, roster, m, roster.len() as int),
            roster,
            roster.len() as int,
        )
    }
}

/// The freshly created arena of one trial: generals numbered from one, the
/// listed slots traitorous, the first commander seeded with the original
/// order, every mailbox empty.
pub open spec fn initial_arena(
    num_generals: int,
    traitors: Seq<usize>,
    first_commander: usize,
    original_order: Message,
) -> Seq<GeneralModel> {
    Seq::new(
        num_generals as nat,
        |i: int|
            GeneralModel {
                id: i + 1,
                is_traitor: traitors.contains(i as usize),
                decision: if i == first_commander as int {
                    original_order.attack
                } else {
                    false
                },
                messages: Seq::empty(),
            },
    )
}

/// The roster of one trial: every general but the first commander, in
/// ascending order.
pub open spec fn full_roster(num_generals: int, first_commander: usize) -> Seq<usize>
    decreases num_generals,
{
    if num_generals <= 0 {
        Seq::empty()
    } else {
        let rest = full_roster(num_generals - 1, first_commander);
        if num_generals - 1 == first_commander as int {
            rest
        } else {
            rest.push((num_generals - 1) as usize)
        }
    }
}

/// The decisions of the loyal roster generals of a model arena, in roster
/// order.
pub open spec fn model_loyal_decisions(arena: Seq<GeneralModel>, roster: Seq<usize>) -> Seq<bool>
    decreases roster.len(),
{
    if roster.len() == 0 {
        Seq::empty()
    } else {
        let rest = model_loyal_decisions(arena, roster.drop_last());
        if arena[roster.last() as int].is_traitor {
            rest
        } else {
            rest.push(arena[roster.last() as int].decision)
        }
    }
}

/// The verdict of one full trial with a fixed selection: the freshly
/// created arena runs OM(m), and the loyal decisions are held to the two
/// interactive consistency conditions.
pub open spec fn trial_succeeds(
    num_generals: int,
    traitors: Seq<usize>,
    first_commander: usize,
    m: nat,
    original_order: Message,
) -> bool {
    let roster = full_roster(num_generals, first_commander);
    let outcome = om_model(
        initial_arena(num_generals, traitors, first_commander, original_order),
        roster,
        first_commander,
        m,
    );
    let decisions = model_loyal_decisions(outcome, roster);
    crate::om::ic1_holds(decisions) && crate::om::ic2_holds(
        decisions,
        !traitors.contains(first_commander),
        original_order,
    )
}

/// Updating one general commutes with taking the arena's image.
pub proof fn lemma_abs_arena_update(arena: Seq<General>, i: int, g: General)
    requires
        0 <= i < arena.len(),
    ensures
        abs_arena(arena.update(i, g)) == abs_arena(arena).update(i, abs_general(g)),
{
    assert(abs_arena(arena.update(i, g)) =~= abs_arena(arena).update(i, abs_general(g)));
}

} // verus!
