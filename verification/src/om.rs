//! The recursive Oral-Messages orchestrator and the consistency validator.
//!
//! Participants live in an arena (a vector of generals addressed by stable
//! index); every recursion level works on a roster of arena indices, so the
//! "at most one mutator at a time" discipline is enforced structurally.

use vstd::prelude::*;

use crate::general::{
    all_messages_attack, lemma_majority_unanimous, relay_value, General,
};
use crate::message::Message;
use crate::model::{
    abs_arena, abs_general, lemma_abs_arena_update, model_decide, model_decide_all, model_receive,
    model_relay, model_rounds, model_send, om_model, sub_roster,
};

verus! {

/// The roster indices and the commander index address distinct generals of
/// the arena: all in bounds, pairwise distinct, commander excluded.
pub open spec fn roster_ok(arena: Seq<General>, roster: Seq<usize>, commander: usize) -> bool {
    &&& (commander as int) < arena.len()
    &&& forall|k: int| 0 <= k < roster.len() ==> (#[trigger] roster[k]) < arena.len()
    &&& forall|k: int| 0 <= k < roster.len() ==> (#[trigger] roster[k]) != commander
    &&& forall|k1: int, k2: int|
        0 <= k1 < k2 < roster.len() ==> roster[k1] != roster[k2]
}

/// Identity and loyalty of every general are unchanged between the two arena
/// states.
pub open spec fn ranks_preserved(before: Seq<General>, after: Seq<General>) -> bool {
    &&& after.len() == before.len()
    &&& forall|i: int|
        0 <= i < before.len() ==> (#[trigger] after[i]).id == before[i].id && after[i].is_traitor
            == before[i].is_traitor
}

/// Mailboxes only grow: each general's earlier message sequence is a prefix
/// of its later one.
pub open spec fn messages_extended(before: Seq<General>, after: Seq<General>) -> bool {
    &&& after.len() == before.len()
    &&& forall|i: int|
        0 <= i < before.len() ==> (#[trigger] before[i].messages@).is_prefix_of(
            after[i].messages@,
        )
}

/// The derived message counter of `g` agrees with its mailbox.
pub open spec fn counter_consistent(g: General) -> bool {
    g.total_messages_received == g.messages@.len()
}

/// Every counter of the arena agrees with its mailbox.
pub open spec fn counters_consistent(arena: Seq<General>) -> bool {
    forall|i: int| 0 <= i < arena.len() ==> counter_consistent(#[trigger] arena[i])
}

/// The commander and every roster general are loyal.
pub open spec fn all_loyal(arena: Seq<General>, roster: Seq<usize>, commander: usize) -> bool {
    &&& !arena[commander as int].is_traitor
    &&& forall|k: int|
        0 <= k < roster.len() ==> !arena[(#[trigger] roster[k]) as int].is_traitor
}

/// Every order `g` holds is `v`, and if it holds any order at all its
/// decision is `v` as well.
pub open spec fn holds_only(g: General, v: bool) -> bool {
    &&& all_messages_attack(g.messages@, v)
    &&& g.messages@.len() > 0 ==> g.decision == v
}

/// Every roster general holds nothing but the order `v`.
pub open spec fn roster_holds_only(arena: Seq<General>, roster: Seq<usize>, v: bool) -> bool {
    forall|k: int| 0 <= k < roster.len() ==> holds_only(arena[(#[trigger] roster[k]) as int], v)
}

/// Every roster general has received at least one order and decided `v`.
pub open spec fn roster_unanimous(arena: Seq<General>, roster: Seq<usize>, v: bool) -> bool {
    forall|k: int|
        0 <= k < roster.len() ==> {
            let g = arena[(#[trigger] roster[k]) as int];
            g.decision == v && g.messages@.len() > 0
        }
}

/// The general at roster position `k` has received exactly the order the
/// commander relays for that position, on top of the mailbox it held in
/// `before`; nothing else of it changed.
spec fn delivered(
    before: Seq<General>,
    after: Seq<General>,
    roster: Seq<usize>,
    commander: int,
    k: int,
) -> bool {
    let gi = roster[k] as int;
    let b = before[gi];
    let a = after[gi];
    &&& a.messages@ == b.messages@.push(relay_value(before[commander], k))
    &&& a.decision == (if b.messages@.len() == 0 {
        relay_value(before[commander], k).attack
    } else {
        b.decision
    })
    &&& a.id == b.id
    &&& a.is_traitor == b.is_traitor
    &&& a.total_messages_received == a.messages@.len()
}

/// How deep the orchestrator recurses below a call on a roster of
/// `roster_len` generals with fault parameter `m`: it recurses exactly when
/// `m > 0` and the roster is non-empty, handing each sub-commander the
/// remaining roster and `m - 1`.
pub open spec fn om_recursion_depth(roster_len: nat, m: nat) -> nat
    decreases m,
{
    if m == 0 || roster_len == 0 {
        0
    } else {
        1 + om_recursion_depth((roster_len - 1) as nat, (m - 1) as nat)
    }
}

/// The recursion depth is the smaller of `m` and the roster size.
pub proof fn lemma_om_recursion_depth(roster_len: nat, m: nat)
    ensures
        om_recursion_depth(roster_len, m) == (if m <= roster_len {
            m
        } else {
            roster_len
        }),
    decreases m,
{
    if m > 0 && roster_len > 0 {
        lemma_om_recursion_depth((roster_len - 1) as nat, (m - 1) as nat);
    }
}

/// Recursion termination bound: whenever `m` is smaller than the roster (the
/// usual configuration, since `m` matches the traitor count and the roster
/// must dwarf it), the maximum recursion depth is `min(m, roster_len - 1)`.
pub proof fn lemma_om_recursion_depth_bound(roster_len: nat, m: nat)
    requires
        m < roster_len,
    ensures
        om_recursion_depth(roster_len, m) == (if m <= roster_len - 1 {
            m as int
        } else {
            roster_len - 1
        }),
{
    lemma_om_recursion_depth(roster_len, m);
}

/// Prefixes chain: growing a mailbox twice still extends the original.
proof fn lemma_messages_extended_trans(a: Seq<General>, b: Seq<General>, c: Seq<General>)
    requires
        messages_extended(a, b),
        messages_extended(b, c),
    ensures
        messages_extended(a, c),
{
    assert forall|i: int| 0 <= i < a.len() implies (#[trigger] a[i].messages@).is_prefix_of(
        c[i].messages@,
    ) by {
        let sa = a[i].messages@;
        let sb = b[i].messages@;
        let sc = c[i].messages@;
        assert(sa =~= sc.subrange(0, sa.len() as int)) by {
            assert(sa =~= sb.subrange(0, sa.len() as int));
            assert(sb =~= sc.subrange(0, sb.len() as int));
        }
    }
}

/// The decisions of the loyal roster generals, in roster order.
pub open spec fn loyal_decisions(arena: Seq<General>, roster: Seq<usize>) -> Seq<bool>
    decreases roster.len(),
{
    if roster.len() == 0 {
        Seq::empty()
    } else {
        let rest = loyal_decisions(arena, roster.drop_last());
        if arena[roster.last() as int].is_traitor {
            rest
        } else {
            rest.push(arena[roster.last() as int].decision)
        }
    }
}

/// Interactive consistency condition one: all loyal generals obey the same
/// order.
pub open spec fn ic1_holds(decisions: Seq<bool>) -> bool {
    forall|i: int, j: int|
        0 <= i < decisions.len() && 0 <= j < decisions.len() ==> decisions[i] == decisions[j]
}

/// Interactive consistency condition two: if the first commander is loyal,
/// the loyal generals obey the order it was given. Only meaningful when at
/// least one loyal decision exists.
pub open spec fn ic2_holds(
    decisions: Seq<bool>,
    first_commander_loyal: bool,
    original_order: Message,
) -> bool {
    first_commander_loyal ==> decisions[0] == original_order.attack
}

/// The validator's collection of loyal decisions agrees with the model's.
pub proof fn lemma_loyal_decisions_abs(arena: Seq<General>, roster: Seq<usize>)
    requires
        forall|k: int| 0 <= k < roster.len() ==> (#[trigger] roster[k]) < arena.len(),
    ensures
        loyal_decisions(arena, roster) == crate::model::model_loyal_decisions(
            abs_arena(arena),
            roster,
        ),
    decreases roster.len(),
{
    if roster.len() > 0 {
        assert forall|k: int|
            0 <= k < roster.drop_last().len() implies (#[trigger] roster.drop_last()[k])
            < arena.len() by {
            assert(roster.drop_last()[k] == roster[k]);
        }
        lemma_loyal_decisions_abs(arena, roster.drop_last());
        assert(roster.last() == roster[roster.len() - 1]);
        assert(abs_arena(arena)[roster.last() as int] == abs_general(arena[roster.last() as int]));
    }
}

/// A roster with a loyal general somewhere yields at least one loyal
/// decision.
pub proof fn lemma_loyal_decisions_nonempty(arena: Seq<General>, roster: Seq<usize>)
    requires
        exists|k: int|
            0 <= k < roster.len() && !arena[(#[trigger] roster[k]) as int].is_traitor,
    ensures
        loyal_decisions(arena, roster).len() > 0,
    decreases roster.len(),
{
    let k = choose|k: int|
        0 <= k < roster.len() && !arena[(#[trigger] roster[k]) as int].is_traitor;
    if k == roster.len() - 1 {
        assert(roster.last() == roster[k]);
    } else {
        assert(roster.drop_last()[k] == roster[k]);
        lemma_loyal_decisions_nonempty(arena, roster.drop_last());
    }
}

/// In an all-loyal roster whose generals all decided `v`, the loyal
/// decisions are one `v` per roster general.
pub proof fn lemma_loyal_decisions_all_equal(arena: Seq<General>, roster: Seq<usize>, v: bool)
    requires
        forall|k: int|
            0 <= k < roster.len() ==> !arena[(#[trigger] roster[k]) as int].is_traitor && arena[
                roster[k] as int
            ].decision == v,
    ensures
        loyal_decisions(arena, roster).len() == roster.len(),
        forall|t: int| 0 <= t < roster.len() ==> loyal_decisions(arena, roster)[t] == v,
    decreases roster.len(),
{
    if roster.len() > 0 {
        assert forall|k: int|
            0 <= k < roster.drop_last().len() implies !arena[(
        #[trigger] roster.drop_last()[k]) as int].is_traitor && arena[roster.drop_last()[
            k
        ] as int].decision == v by {
            assert(roster.drop_last()[k] == roster[k]);
        }
        lemma_loyal_decisions_all_equal(arena, roster.drop_last(), v);
        assert(roster.last() == roster[roster.len() - 1]);
    }
}

/// Sum of the message counters of the roster generals.
pub open spec fn total_messages(arena: Seq<General>, roster: Seq<usize>) -> nat
    decreases roster.len(),
{
    if roster.len() == 0 {
        0
    } else {
        total_messages(arena, roster.drop_last()) + (arena[
            roster.last() as int
        ].total_messages_received as nat)
    }
}

/// A prefix of the roster accounts for no more messages than the whole.
proof fn lemma_total_messages_prefix_bound(arena: Seq<General>, roster: Seq<usize>, j: int)
    requires
        0 <= j <= roster.len(),
    ensures
        total_messages(arena, roster.take(j)) <= total_messages(arena, roster),
    decreases roster.len() - j,
{
    if j == roster.len() {
        assert(roster.take(j) =~= roster);
    } else {
        assert(roster.take(j + 1).drop_last() =~= roster.take(j));
        assert(roster.take(j + 1).last() == roster[j]);
        lemma_total_messages_prefix_bound(arena, roster, j + 1);
    }
}

/// One full experiment's fixed data: whether the very first commander was
/// loyal, and the order it was instructed to send.
pub struct OMAlgorithm {
    pub is_first_commander_loyal: bool,
    pub original_order: Message,
}

impl OMAlgorithm {
    /// OM(m). The commander relays an order to every roster general; if
    /// `m > 0`, every roster general in turn plays commander to the others
    /// one level deeper, and afterwards every roster general re-resolves its
    /// decision by majority.
    ///
    /// The final arena is pinned exactly: its image is what `om_model`
    /// computes from the starting image. Besides that and the frame
    /// conditions, the contract carries the zero-traitor guarantee in the
    /// open: if commander and roster are all loyal and every roster general
    /// so far holds nothing but the commander's current decision, then
    /// afterwards every roster general has decided exactly that order.
    #[verifier::loop_isolation(false)]
    #[verifier::rlimit(60)]
    pub fn om_algorithm(
        &self,
        arena: &mut Vec<General>,
        roster: &Vec<usize>,
        commander: usize,
        m: usize,
    )
        requires
            roster_ok(old(arena)@, roster@, commander),
        ensures
            ranks_preserved(old(arena)@, final(arena)@),
            messages_extended(old(arena)@, final(arena)@),
            forall|i: int|
                0 <= i < old(arena)@.len() && !roster@.contains(i as usize)
                    ==> #[trigger] final(arena)@[i] == old(arena)@[i],
            counters_consistent(old(arena)@) ==> counters_consistent(final(arena)@),
            (all_loyal(old(arena)@, roster@, commander) && roster_holds_only(
                old(arena)@,
                roster@,
                old(arena)@[commander as int].decision,
            )) ==> roster_unanimous(final(arena)@, roster@, old(arena)@[commander as int].decision)
                && roster_holds_only(
                final(arena)@,
                roster@,
                old(arena)@[commander as int].decision,
            ),
            abs_arena(final(arena)@) == om_model(
                abs_arena(old(arena)@),
                roster@,
                commander,
                m as nat,
            ),
        decreases m,
    {
        let ghost arena0 = arena@;
        let ghost model0 = abs_arena(arena0);
        let ghost v = arena@[commander as int].decision;
        let ghost loyal_hyp = all_loyal(arena0, roster@, commander) && roster_holds_only(
            arena0,
            roster@,
            v,
        );
        let n = roster.len();
        let arena_size = arena.len();
        proof {
            assert(arena0.len() == arena_size as int);
        }

        // Step 1: the commander sends one order to every roster general.
        let mut idx: usize = 0;
        while idx < n
            invariant
                n == roster@.len(),
                idx <= n,
                roster_ok(arena0, roster@, commander),
                arena@.len() == arena0.len(),
                forall|k: int|
                    idx <= k < n ==> arena@[(#[trigger] roster@[k]) as int]
                        == arena0[roster@[k] as int],
                forall|k: int| 0 <= k < idx ==> delivered(arena0, arena@, roster@, commander as int, k),
                forall|i: int|
                    0 <= i < arena0.len() && !roster@.contains(i as usize) ==> #[trigger] arena@[i]
                        == arena0[i],
                abs_arena(arena@) == model_send(model0, roster@, commander as int, idx as int),
            decreases n - idx,
        {
            proof {
                assert(!roster@.contains(commander)) by {
                    if roster@.contains(commander) {
                        let kk = choose|kk: int|
                            0 <= kk < roster@.len() && roster@[kk] == commander;
                        assert(roster@[kk] != commander);
                    }
                }
                assert(arena@[commander as int] == arena0[commander as int]);
                assert(arena@[roster@[idx as int] as int] == arena0[roster@[idx as int] as int]);
            }
            let commander_general = &arena[commander];
            let msg = commander_general.next_order(idx);
            let from = commander_general.id;
            let target = roster[idx];
            let ghost arena_prev = arena@;
            let receiver = &mut arena[target];
            receiver.receive_order(msg, from);
            proof {
                assert(roster@.contains(roster@[idx as int]));
                assert(delivered(arena0, arena@, roster@, commander as int, idx as int));
                assert forall|kk: int|
                    0 <= kk < n && kk != idx implies arena@[(#[trigger] roster@[kk]) as int]
                    == arena_prev[roster@[kk] as int] by {
                    assert(roster@[kk] != roster@[idx as int]);
                }
                assert forall|kk: int|
                    0 <= kk < idx implies delivered(
                    arena0,
                    arena@,
                    roster@,
                    commander as int,
                    kk,
                ) by {
                    assert(delivered(arena0, arena_prev, roster@, commander as int, kk));
                    assert(arena@[roster@[kk] as int] == arena_prev[roster@[kk] as int]);
                }
                assert forall|i: int|
                    0 <= i < arena0.len() && !roster@.contains(i as usize) implies #[trigger] arena@[i]
                    == arena0[i] by {
                    assert(i != target as int);
                }
                assert(abs_arena(arena@) == model_send(
                    model0,
                    roster@,
                    commander as int,
                    idx as int + 1,
                )) by {
                    let prev_model = model_send(model0, roster@, commander as int, idx as int);
                    assert(model0[commander as int] == abs_general(arena0[commander as int]));
                    assert(msg == model_relay(model0[commander as int], idx as int));
                    assert(arena@ == arena_prev.update(target as int, arena@[target as int]));
                    lemma_abs_arena_update(arena_prev, target as int, arena@[target as int]);
                    assert(prev_model[target as int] == abs_general(arena_prev[target as int]));
                    assert(abs_general(arena@[target as int]) == model_receive(
                        abs_general(arena_prev[target as int]),
                        msg,
                    ));
                }
            }
            idx = idx + 1;
        }

        let ghost arena1 = arena@;
        proof {
            assert(ranks_preserved(arena0, arena1)) by {
                assert forall|i: int|
                    0 <= i < arena0.len() implies (#[trigger] arena1[i]).id == arena0[i].id
                    && arena1[i].is_traitor == arena0[i].is_traitor by {
                    if roster@.contains(i as usize) {
                        let k = choose|k: int| 0 <= k < n && roster@[k] == i as usize;
                        assert(delivered(arena0, arena1, roster@, commander as int, k));
                    }
                }
            }
            assert(messages_extended(arena0, arena1)) by {
                assert forall|i: int| 0 <= i < arena0.len() implies (
                #[trigger] arena0[i].messages@).is_prefix_of(arena1[i].messages@) by {
                    if roster@.contains(i as usize) {
                        let k = choose|k: int| 0 <= k < n && roster@[k] == i as usize;
                        assert(delivered(arena0, arena1, roster@, commander as int, k));
                        let sa = arena0[i].messages@;
                        assert(sa =~= arena1[i].messages@.subrange(0, sa.len() as int));
                    }
                }
            }
            assert(counters_consistent(arena0) ==> counters_consistent(arena1)) by {
                if counters_consistent(arena0) {
                    assert forall|i: int| 0 <= i < arena1.len() implies counter_consistent(
                        #[trigger] arena1[i],
                    ) by {
                        if roster@.contains(i as usize) {
                            let k = choose|k: int| 0 <= k < n && roster@[k] == i as usize;
                            assert(delivered(arena0, arena1, roster@, commander as int, k));
                        }
                    }
                }
            }
            if loyal_hyp {
                assert(roster_holds_only(arena1, roster@, v) && roster_unanimous(arena1, roster@, v))
                    by {
                    assert forall|k: int| 0 <= k < n implies holds_only(
                        arena1[(#[trigger] roster@[k]) as int],
                        v,
                    ) && arena1[roster@[k] as int].decision == v
                        && arena1[roster@[k] as int].messages@.len() > 0 by {
                        assert(delivered(arena0, arena1, roster@, commander as int, k));
                        let gi = roster@[k] as int;
                        let b = arena0[gi];
                        let msg = relay_value(arena0[commander as int], k);
                        assert(msg.attack == v);
                        assert(holds_only(b, v));
                        assert(all_messages_attack(arena1[gi].messages@, v)) by {
                            let sa = arena1[gi].messages@;
                            assert forall|j: int| 0 <= j < sa.len() implies (#[trigger] sa[j]).attack
                                == v by {
                                if j < b.messages@.len() {
                                    assert(sa[j] == b.messages@[j]);
                                } else {
                                    assert(sa[j] == msg);
                                }
                            }
                        }
                    }
                }
            }
        }

        let ghost sent_model = abs_arena(arena1);
        proof {
            assert(sent_model == model_send(model0, roster@, commander as int, n as int));
        }

        if m == 0 {
            proof {
                assert(abs_arena(arena@) == om_model(model0, roster@, commander, m as nat));
            }
            return ;
        }

        // Step 2: every roster general in turn acts as commander for the
        // others, one recursion level deeper.
        let mut k: usize = 0;
        while k < n
            invariant
                n == roster@.len(),
                k <= n,
                1 <= m,
                roster_ok(arena0, roster@, commander),
                arena@.len() == arena0.len(),
                ranks_preserved(arena0, arena@),
                messages_extended(arena0, arena@),
                counters_consistent(arena0) ==> counters_consistent(arena@),
                forall|i: int|
                    0 <= i < arena0.len() && !roster@.contains(i as usize) ==> #[trigger] arena@[i]
                        == arena0[i],
                loyal_hyp ==> roster_holds_only(arena@, roster@, v) && roster_unanimous(
                    arena@,
                    roster@,
                    v,
                ),
                abs_arena(arena@) == model_rounds(sent_model, roster@, m as nat, k as int),
            decreases n - k,
        {
            let p = roster[k];

            // The sub-roster: every roster general but `p`, in roster order.
            let mut sub: Vec<usize> = Vec::new();
            let mut j: usize = 0;
            while j < n
                invariant
                    n == roster@.len(),
                    j <= n,
                    k < n,
                    sub@ == (if j <= k {
                        roster@.subrange(0, j as int)
                    } else {
                        roster@.subrange(0, k as int) + roster@.subrange(k as int + 1, j as int)
                    }),
                decreases n - j,
            {
                if j != k {
                    sub.push(roster[j]);
                    proof {
                        if j < k {
                            assert(roster@.subrange(0, j as int).push(roster@[j as int]) =~= roster@
                                .subrange(0, j + 1));
                        } else {
                            assert((roster@.subrange(0, k as int) + roster@.subrange(
                                k as int + 1,
                                j as int,
                            )).push(roster@[j as int]) =~= roster@.subrange(0, k as int) + roster@
                                .subrange(k as int + 1, j + 1));
                        }
                    }
                } else {
                    proof {
                        assert(roster@.subrange(0, k as int) + roster@.subrange(
                            k as int + 1,
                            k as int + 1,
                        ) =~= roster@.subrange(0, k as int));
                    }
                }
                j = j + 1;
            }
            let ghost subv = sub@;
            proof {
                assert(subv == roster@.subrange(0, k as int) + roster@.subrange(
                    k as int + 1,
                    n as int,
                ));
                assert(subv.len() == n - 1);
                assert forall|t: int| 0 <= t < subv.len() implies #[trigger] subv[t] == (if t < k {
                    roster@[t]
                } else {
                    roster@[t + 1]
                }) by {}
                assert(roster_ok(arena@, subv, p));
            }

            let ghost arena_pre = arena@;
            self.om_algorithm(arena, &sub, p, m - 1);

            proof {
                // Anything outside the sub-roster -- in particular `p` and
                // everything outside the roster -- is untouched.
                assert forall|i: int|
                    0 <= i < arena_pre.len() && !subv.contains(i as usize) implies #[trigger] arena@[i]
                    == arena_pre[i] by {}
                assert forall|i: int| 0 <= i < n implies (#[trigger] roster@[i]) == roster@[i] by {}
                assert(!subv.contains(p)) by {
                    if subv.contains(p) {
                        let t = choose|t: int| 0 <= t < subv.len() && subv[t] == p;
                        if t < k {
                            assert(roster@[t] == roster@[k as int]);
                        } else {
                            assert(roster@[t + 1] == roster@[k as int]);
                        }
                    }
                }
                assert forall|i: int|
                    0 <= i < arena0.len() && !roster@.contains(i as usize) implies #[trigger] arena@[i]
                    == arena0[i] by {
                    if subv.contains(i as usize) {
                        let t = choose|t: int| 0 <= t < subv.len() && subv[t] == i as usize;
                        if t < k {
                            assert(roster@.contains(roster@[t]));
                        } else {
                            assert(roster@.contains(roster@[t + 1]));
                        }
                    }
                }
                lemma_messages_extended_trans(arena0, arena_pre, arena@);
                assert(abs_arena(arena@) == model_rounds(
                    sent_model,
                    roster@,
                    m as nat,
                    k as int + 1,
                )) by {
                    assert(subv == sub_roster(roster@, k as int));
                    assert(abs_arena(arena_pre) == model_rounds(sent_model, roster@, m as nat, k as int));
                    assert((m as nat - 1) as nat == (m - 1) as nat);
                    assert(roster@[k as int] == p);
                }
                if loyal_hyp {
                    // The recursive call's loyal hypothesis held, so its
                    // loyal conclusion carries the invariant forward.
                    assert(all_loyal(arena_pre, subv, p)) by {
                        assert(!arena_pre[p as int].is_traitor) by {
                            assert(roster@.contains(roster@[k as int]));
                            assert(!arena0[p as int].is_traitor);
                        }
                        assert forall|t: int|
                            0 <= t < subv.len() implies !arena_pre[(
                        #[trigger] subv[t]) as int].is_traitor by {
                            if t < k {
                                assert(subv[t] == roster@[t]);
                            } else {
                                assert(subv[t] == roster@[t + 1]);
                            }
                        }
                    }
                    assert(arena_pre[p as int].decision == v) by {
                        assert(roster_unanimous(arena_pre, roster@, v));
                    }
                    assert(roster_holds_only(arena_pre, subv, v)) by {
                        assert forall|t: int| 0 <= t < subv.len() implies holds_only(
                            arena_pre[(#[trigger] subv[t]) as int],
                            v,
                        ) by {
                            if t < k {
                                assert(subv[t] == roster@[t]);
                            } else {
                                assert(subv[t] == roster@[t + 1]);
                            }
                        }
                    }
                    assert(roster_unanimous(arena@, subv, v) && roster_holds_only(arena@, subv, v));
                    assert forall|t: int|
                        0 <= t < n implies holds_only(arena@[(#[trigger] roster@[t]) as int], v)
                        && arena@[roster@[t] as int].decision == v
                        && arena@[roster@[t] as int].messages@.len() > 0 by {
                        if t == k {
                            assert(arena@[p as int] == arena_pre[p as int]);
                            assert(holds_only(arena_pre[p as int], v));
                            assert(arena_pre[p as int].messages@.len() > 0);
                        } else if t < k {
                            assert(subv[t] == roster@[t]);
                        } else {
                            assert(subv[t - 1] == roster@[t]);
                        }
                    }
                }
            }
            k = k + 1;
        }

        let ghost rounds_model = abs_arena(arena@);
        proof {
            assert(rounds_model == model_rounds(sent_model, roster@, m as nat, n as int));
        }

        // Step 3: every roster general folds everything accumulated at or
        // below this level into its decision.
        let mut k2: usize = 0;
        while k2 < n
            invariant
                n == roster@.len(),
                k2 <= n,
                roster_ok(arena0, roster@, commander),
                arena@.len() == arena0.len(),
                ranks_preserved(arena0, arena@),
                messages_extended(arena0, arena@),
                counters_consistent(arena0) ==> counters_consistent(arena@),
                forall|i: int|
                    0 <= i < arena0.len() && !roster@.contains(i as usize) ==> #[trigger] arena@[i]
                        == arena0[i],
                loyal_hyp ==> roster_holds_only(arena@, roster@, v) && roster_unanimous(
                    arena@,
                    roster@,
                    v,
                ),
                abs_arena(arena@) == model_decide_all(rounds_model, roster@, k2 as int),
            decreases n - k2,
        {
            let p = roster[k2];
            let ghost arena_pre = arena@;
            let decider = &mut arena[p];
            decider.decide();
            proof {
                assert(roster@.contains(roster@[k2 as int]));
                assert(abs_arena(arena@) == model_decide_all(
                    rounds_model,
                    roster@,
                    k2 as int + 1,
                )) by {
                    let prev_model = model_decide_all(rounds_model, roster@, k2 as int);
                    assert(arena@ == arena_pre.update(p as int, arena@[p as int]));
                    lemma_abs_arena_update(arena_pre, p as int, arena@[p as int]);
                    assert(prev_model[p as int] == abs_general(arena_pre[p as int]));
                    assert(abs_general(arena@[p as int]) == model_decide(
                        abs_general(arena_pre[p as int]),
                    ));
                }
                if loyal_hyp {
                    assert(holds_only(arena_pre[p as int], v));
                    assert(arena_pre[p as int].messages@.len() > 0);
                    lemma_majority_unanimous(arena_pre[p as int].messages@, v);
                    assert forall|t: int|
                        0 <= t < n implies holds_only(arena@[(#[trigger] roster@[t]) as int], v)
                        && arena@[roster@[t] as int].decision == v
                        && arena@[roster@[t] as int].messages@.len() > 0 by {
                        if roster@[t] != p {
                            assert(arena@[roster@[t] as int] == arena_pre[roster@[t] as int]);
                        }
                    }
                }
            }
            k2 = k2 + 1;
        }
        proof {
            assert(abs_arena(arena@) == om_model(model0, roster@, commander, m as nat));
        }
    }

    /// Sums how many messages the roster generals received, for reporting.
    pub fn get_total_messages(&self, arena: &Vec<General>, roster: &Vec<usize>) -> (total: usize)
        requires
            forall|k: int| 0 <= k < roster@.len() ==> (#[trigger] roster@[k]) < arena@.len(),
            total_messages(arena@, roster@) <= usize::MAX,
        ensures
            total == total_messages(arena@, roster@),
    {
        let n = roster.len();
        let mut total: usize = 0;
        let mut j: usize = 0;
        while j < n
            invariant
                n == roster@.len(),
                j <= n,
                forall|k: int| 0 <= k < roster@.len() ==> (#[trigger] roster@[k]) < arena@.len(),
                total_messages(arena@, roster@) <= usize::MAX,
                total == total_messages(arena@, roster@.take(j as int)),
            decreases n - j,
        {
            proof {
                assert(roster@.take(j + 1).drop_last() =~= roster@.take(j as int));
                assert(roster@.take(j + 1).last() == roster@[j as int]);
                lemma_total_messages_prefix_bound(arena@, roster@, j + 1);
            }
            total = total + arena[roster[j]].total_messages_received;
            j = j + 1;
        }
        proof {
            assert(roster@.take(n as int) =~= roster@);
        }
        total
    }

    /// The post-hoc consistency validator: collects the decision of every
    /// loyal roster general, checks that they agree (IC1) and, when the
    /// first commander was loyal, that they match the original order (IC2).
    ///
    /// With a loyal first commander the caller must supply a roster holding
    /// at least one loyal general, since IC2 compares against the first
    /// loyal decision.
    pub fn was_successful(&self, arena: &Vec<General>, roster: &Vec<usize>) -> (success: bool)
        requires
            forall|k: int| 0 <= k < roster@.len() ==> (#[trigger] roster@[k]) < arena@.len(),
            self.is_first_commander_loyal ==> exists|k: int|
                0 <= k < roster@.len() && !arena@[(#[trigger] roster@[k]) as int].is_traitor,
        ensures
            success == (ic1_holds(loyal_decisions(arena@, roster@)) && ic2_holds(
                loyal_decisions(arena@, roster@),
                self.is_first_commander_loyal,
                self.original_order,
            )),
    {
        let n = roster.len();
        let mut decisions: Vec<bool> = Vec::new();
        let mut j: usize = 0;
        while j < n
            invariant
                n == roster@.len(),
                j <= n,
                forall|k: int| 0 <= k < roster@.len() ==> (#[trigger] roster@[k]) < arena@.len(),
                decisions@ == loyal_decisions(arena@, roster@.take(j as int)),
            decreases n - j,
        {
            proof {
                assert(roster@.take(j + 1).drop_last() =~= roster@.take(j as int));
                assert(roster@.take(j + 1).last() == roster@[j as int]);
            }
            let g = &arena[roster[j]];
            if !g.is_traitor {
                decisions.push(g.decision);
            }
            j = j + 1;
        }
        proof {
            assert(roster@.take(n as int) =~= roster@);
        }
        let ghost ld = loyal_decisions(arena@, roster@);

        let mut consensus = true;
        let mut i: usize = 1;
        while i < decisions.len()
            invariant
                1 <= i,
                decisions@ == ld,
                consensus == (forall|t: int| 0 < t < i && t < ld.len() ==> #[trigger] ld[t] == ld[0]),
            decreases decisions@.len() - i,
        {
            if decisions[i] != decisions[0] {
                consensus = false;
            }
            i = i + 1;
        }
        proof {
            assert(consensus == ic1_holds(ld)) by {
                if consensus {
                    assert forall|a: int, b: int|
                        0 <= a < ld.len() && 0 <= b < ld.len() implies ld[a] == ld[b] by {
                        if a > 0 {
                            assert(ld[a] == ld[0]);
                        }
                        if b > 0 {
                            assert(ld[b] == ld[0]);
                        }
                    }
                } else {
                    let t = choose|t: int| 0 < t < ld.len() && #[trigger] ld[t] != ld[0];
                    assert(ld[t] != ld[0]);
                }
            }
        }
        if !consensus {
            return false;
        }
        if self.is_first_commander_loyal {
            proof {
                lemma_loyal_decisions_nonempty(arena@, roster@);
            }
            if self.original_order.attack != decisions[0] {
                return false;
            }
        }
        true
    }
}

} // verus!
