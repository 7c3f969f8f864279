//! Participants of the protocol and the majority resolver.

use vstd::multiset::Multiset;
use vstd::prelude::*;

use crate::message::Message;

verus! {

/// Number of attack orders among the messages of `s`.
pub open spec fn count_attack(s: Seq<Message>) -> nat
    decreases s.len(),
{
    if s.len() == 0 {
        0
    } else {
        count_attack(s.drop_last()) + (if s.last().attack {
            1nat
        } else {
            0nat
        })
    }
}

/// The strict-majority rule: attack wins only when attack orders outnumber
/// retreat orders, so a tie resolves to retreat.
pub open spec fn majority_attack(s: Seq<Message>) -> bool {
    2 * count_attack(s) > s.len()
}

/// Every message in `s` carries the order `v`.
pub open spec fn all_messages_attack(s: Seq<Message>, v: bool) -> bool {
    forall|j: int| 0 <= j < s.len() ==> (#[trigger] s[j]).attack == v
}

/// A simulated general: identity, loyalty, the orders accumulated so far and
/// the current decision. The message counter always mirrors how many orders
/// have been received.
pub struct General {
    pub id: usize,
    pub messages: Vec<Message>,
    pub is_traitor: bool,
    pub decision: bool,
    pub total_messages_received: usize,
}

/// The message a general relays to the recipient at position `idx` when
/// acting as commander: a loyal general relays its current decision
/// unchanged, while a traitor inverts it for even-positioned recipients.
pub open spec fn relay_value(g: General, idx: int) -> Message {
    Message {
        attack: if g.is_traitor && idx % 2 == 0 {
            !g.decision
        } else {
            g.decision
        },
    }
}

/// `after` is the state of a general whose decision was just recomputed from
/// the messages it held in state `before`, everything else unchanged.
pub open spec fn decided_from(before: General, after: General) -> bool {
    &&& after.decision == majority_attack(before.messages@)
    &&& after.messages@ == before.messages@
    &&& after.id == before.id
    &&& after.is_traitor == before.is_traitor
    &&& after.total_messages_received == before.total_messages_received
}

impl General {
    pub fn new(id: usize, is_traitor: bool) -> (g: General)
        ensures
            g.id == id,
            g.is_traitor == is_traitor,
            g.messages@ == Seq::<Message>::empty(),
            g.decision == false,
            g.total_messages_received == 0,
    {
        General {
            id,
            is_traitor,
            messages: Vec::new(),
            decision: false,
            total_messages_received: 0,
        }
    }

    /// Appends `msg` to the accumulated orders; the very first order ever
    /// received also seeds the decision. The sender's identity is accepted
    /// for interface fidelity but plays no part in the state change.
    pub fn receive_order(&mut self, msg: Message, _from: usize)
        ensures
            final(self).messages@ == old(self).messages@.push(msg),
            final(self).decision == (if old(self).messages@.len() == 0 {
                msg.attack
            } else {
                old(self).decision
            }),
            final(self).id == old(self).id,
            final(self).is_traitor == old(self).is_traitor,
            final(self).total_messages_received == final(self).messages@.len(),
    {
        if self.messages.is_empty() {
            self.decision = msg.attack;
        }
        self.messages.push(msg);
        self.total_messages_received = self.messages.len();
    }

    /// The order this general sends to the recipient at position `idx` when
    /// acting as commander.
    pub fn next_order(&self, idx: usize) -> (msg: Message)
        ensures
            msg == relay_value(*self, idx as int),
    {
        if self.is_traitor && idx % 2 == 0 {
            if self.decision {
                return Message { attack: false };
            } else {
                return Message { attack: true };
            }
        }
        Message { attack: self.decision }
    }

    /// Recomputes the decision as the strict majority of the accumulated
    /// orders; a tie resolves to retreat.
    pub fn decide(&mut self)
        ensures
            decided_from(*old(self), *final(self)),
    {
        let n = self.messages.len();
        let mut attack: usize = 0;
        let mut retreat: usize = 0;
        let mut i: usize = 0;
        while i < n
            invariant
                n == self.messages@.len(),
                i <= n,
                attack == count_attack(self.messages@.take(i as int)),
                attack + retreat == i,
            decreases n - i,
        {
            proof {
                assert(self.messages@.take(i + 1).drop_last() =~= self.messages@.take(i as int));
                assert(self.messages@.take(i + 1).last() == self.messages@[i as int]);
            }
            if self.messages[i].attack {
                attack = attack + 1;
            } else {
                retreat = retreat + 1;
            }
            i = i + 1;
        }
        proof {
            assert(self.messages@.take(n as int) =~= self.messages@);
        }
        if attack > retreat {
            self.decision = true;
        } else {
            self.decision = false;
        }
    }
}

/// The attack count of a message sequence is the multiplicity of the attack
/// order in the multiset of its elements.
pub proof fn lemma_count_attack_is_multiset_count(s: Seq<Message>)
    ensures
        count_attack(s) == s.to_multiset().count(Message { attack: true }),
    decreases s.len(),
{
    broadcast use vstd::seq_lib::group_to_multiset_ensures;
    broadcast use vstd::multiset::group_multiset_axioms;

    if s.len() == 0 {
        assert(s.to_multiset() =~= Multiset::<Message>::empty());
    } else {
        lemma_count_attack_is_multiset_count(s.drop_last());
        assert(s =~= s.drop_last().push(s.last()));
        assert(s.to_multiset() =~= s.drop_last().to_multiset().insert(s.last()));
    }
}

/// Majority determinism: the resolver is a pure function of the multiset of
/// received orders, so the order in which messages arrived is irrelevant.
pub proof fn lemma_majority_is_multiset_function(s1: Seq<Message>, s2: Seq<Message>)
    requires
        s1.to_multiset() == s2.to_multiset(),
    ensures
        count_attack(s1) == count_attack(s2),
        majority_attack(s1) == majority_attack(s2),
{
    broadcast use vstd::seq_lib::group_to_multiset_ensures;

    lemma_count_attack_is_multiset_count(s1);
    lemma_count_attack_is_multiset_count(s2);
    assert(s1.len() == s1.to_multiset().len());
    assert(s2.len() == s2.to_multiset().len());
}

/// Deciding is idempotent: resolving a second time without new messages
/// leaves the participant exactly as the first resolution did.
pub proof fn lemma_decide_idempotent(g: General, h: General, k: General)
    requires
        decided_from(g, h),
        decided_from(h, k),
    ensures
        k.decision == h.decision,
        k.messages@ == h.messages@,
{
}

/// Tie policy: with as many attack as retreat orders, the resolver picks
/// retreat.
pub proof fn lemma_tie_resolves_to_retreat(s: Seq<Message>)
    requires
        2 * count_attack(s) == s.len(),
    ensures
        !majority_attack(s),
{
}

/// In a unanimous mailbox every order is `v`, so the attack count is either
/// everything or nothing.
pub proof fn lemma_count_attack_unanimous(s: Seq<Message>, v: bool)
    requires
        all_messages_attack(s, v),
    ensures
        count_attack(s) == (if v {
            s.len()
        } else {
            0nat
        }),
    decreases s.len(),
{
    if s.len() > 0 {
        assert(all_messages_attack(s.drop_last(), v));
        lemma_count_attack_unanimous(s.drop_last(), v);
        assert(s.last() == s[s.len() - 1]);
    }
}

/// A non-empty unanimous mailbox resolves to the order it holds.
pub proof fn lemma_majority_unanimous(s: Seq<Message>, v: bool)
    requires
        all_messages_attack(s, v),
        s.len() > 0,
    ensures
        majority_attack(s) == v,
{
    lemma_count_attack_unanimous(s, v);
}

} // verus!
