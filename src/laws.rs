use vstd::prelude::*;
use crate::inventory::{first_worn_in, toggled, worn_in};
use crate::manager::{next_ai, walks};
use crate::messages::{entry, logged, Entry, MessageKind};
use crate::object::{
    attack_damage, attacked, clamp_i32, death_entry, hit, kills, took_damage, xp_award, Ai, DeathCallback,
    Equipment, Object, Slot,
};

verus! {

/// An attack deals `max(0, power - defense)`: the defender loses exactly that many hit
/// points (held within `i32`), unless the blow kills a monster, which then becomes a
/// corpse. Damage of 0 or less changes nobody and logs that the attack had no effect.
pub proof fn attack_deals_power_minus_defense(
    a0: Object,
    d0: Object,
    inv: Seq<Object>,
    log0: Seq<Entry>,
    a1: Object,
    d1: Object,
    log1: Seq<Entry>,
)
    requires
        attacked(a0, d0, inv, log0, a1, d1, log1),
    ensures
        ({
            let damage = attack_damage(a0, d0, inv);
            let dealt = if damage > 0 { damage } else { 0 };
            &&& damage <= 0 ==> a1 == a0 && d1 == d0 && log1 == logged(
                log0,
                entry(MessageKind::NoEffect, a0.name@, d0.name@, 0),
            )
            &&& (d0.fighter is Some && !(kills(d0, damage) && d0.fighter.unwrap().on_death == DeathCallback::Monster))
                ==> (d1.fighter is Some && d1.fighter.unwrap().hp == clamp_i32(d0.fighter.unwrap().hp - dealt))
        }),
{
}

/// A fighter dies exactly once. A blow that brings a living fighter to 0 hit points or
/// below marks it dead, logs its death and yields its experience; any later damage
/// leaves it dead, logs no death and yields nothing.
pub proof fn death_happens_once(
    o0: Object,
    damage1: int,
    l0: Seq<Entry>,
    o1: Object,
    l1: Seq<Entry>,
    damage2: int,
    o2: Object,
    l2: Seq<Entry>,
)
    requires
        took_damage(o0, damage1, l0, o1, l1),
        took_damage(o1, damage2, l1, o2, l2),
    ensures
        kills(o0, damage1) ==> {
            &&& !o1.alive
            &&& xp_award(o0, damage1) == Some(o0.fighter.unwrap().xp)
            &&& l1 == logged(l0, death_entry(Object { alive: false, ..hit(o0, damage1) }))
            &&& !o2.alive
            &&& xp_award(o1, damage2) is None
            &&& l2 == l1
        },
        !kills(o0, damage1) ==> o1.alive == o0.alive && l1 == l0 && xp_award(o0, damage1) is None,
        !o0.alive ==> !o1.alive && !o2.alive && l1 == l0 && l2 == l1,
{
}

/// No two items of the inventory are worn in the same slot.
pub open spec fn slot_exclusive(inv: Seq<Object>) -> bool {
    forall|i: int, j: int| 0 <= i < j < inv.len() && #[trigger] inv[i].equipment is Some
        && #[trigger] inv[j].equipment is Some && inv[i].equipment.unwrap().equipped
        && inv[j].equipment.unwrap().equipped ==> inv[i].equipment.unwrap().slot != inv[j].equipment.unwrap().slot
}

proof fn lemma_first_worn(inv: Seq<Object>, slot: Slot)
    ensures
        first_worn_in(inv, slot) matches Some(k) ==> 0 <= k < inv.len() && worn_in(inv[k], slot),
        first_worn_in(inv, slot) is None ==> forall|k: int| 0 <= k < inv.len() ==> !worn_in(#[trigger] inv[k], slot),
    decreases inv.len(),
{
    if inv.len() > 0 {
        lemma_first_worn(inv.drop_last(), slot);
        assert forall|k: int| 0 <= k < inv.len() - 1 implies inv.drop_last()[k] == #[trigger] inv[k] by {}
    }
}

/// Putting on an item takes off exactly the item worn in its slot before, if any, and
/// nothing else: afterwards the new item is the only one worn in that slot, and no two
/// items share a slot.
pub proof fn equip_replaces_occupant(inv: Seq<Object>, id: int)
    requires
        0 <= id < inv.len(),
        inv[id].item is Some,
        inv[id].equipment is Some,
        !inv[id].equipment.unwrap().equipped,
        slot_exclusive(inv),
    ensures
        ({
            let out = toggled(inv, id);
            let e = inv[id].equipment.unwrap();
            &&& out.len() == inv.len()
            &&& out[id] == (Object { equipment: Some(Equipment { equipped: true, ..e }), ..inv[id] })
            &&& forall|k: int| 0 <= k < inv.len() && k != id && worn_in(#[trigger] inv[k], e.slot) ==> out[k] == (Object {
                equipment: Some(Equipment { equipped: false, ..inv[k].equipment.unwrap() }),
                ..inv[k]
            })
            &&& forall|k: int| 0 <= k < inv.len() && k != id && !worn_in(#[trigger] inv[k], e.slot) ==> out[k] == inv[k]
            &&& forall|k: int| 0 <= k < inv.len() && k != id ==> !worn_in(#[trigger] out[k], e.slot)
            &&& slot_exclusive(out)
        }),
{
    let e = inv[id].equipment.unwrap();
    lemma_first_worn(inv, e.slot);
    let out = toggled(inv, id);
    match first_worn_in(inv, e.slot) {
        Some(p) => {
            assert forall|k: int| 0 <= k < inv.len() && k != id && worn_in(#[trigger] inv[k], e.slot) implies k == p by {
                if k < p {
                    assert(inv[k].equipment is Some && inv[p].equipment is Some);
                } else if k > p {
                    assert(inv[p].equipment is Some && inv[k].equipment is Some);
                }
            }
        },
        None => {},
    }
    assert forall|i: int, j: int| 0 <= i < j < out.len() && #[trigger] out[i].equipment is Some
        && #[trigger] out[j].equipment is Some && out[i].equipment.unwrap().equipped
        && out[j].equipment.unwrap().equipped implies out[i].equipment.unwrap().slot != out[j].equipment.unwrap().slot by {
        assert(inv[i].equipment is Some && inv[j].equipment is Some);
    }
}

/// The behaviour after `turns` turns.
pub open spec fn ai_after(ai: Ai, turns: nat) -> Ai
    decreases turns,
{
    if turns == 0 { ai } else { next_ai(ai_after(ai, (turns - 1) as nat)) }
}

/// How many of the first `turns` turns are random steps.
pub open spec fn walk_count(ai: Ai, turns: nat) -> nat
    decreases turns,
{
    if turns == 0 {
        0
    } else {
        walk_count(ai, (turns - 1) as nat) + if walks(ai_after(ai, (turns - 1) as nat)) { 1nat } else { 0nat }
    }
}

proof fn lemma_countdown(previous: Ai, n: i32, t: nat)
    requires
        0 <= n,
        t <= n + 1,
    ensures
        ai_after(Ai::Confused { previous_ai: Box::new(previous), num_turns: n }, t)
            == (Ai::Confused { previous_ai: Box::new(previous), num_turns: (n - t) as i32 }),
        walk_count(Ai::Confused { previous_ai: Box::new(previous), num_turns: n }, t) == t,
    decreases t,
{
    if t > 0 {
        lemma_countdown(previous, n, (t - 1) as nat);
    }
}

/// Confusion with a counter of `n` lasts `n + 1` turns, each a random step, after which
/// the entity takes back exactly the behaviour it had before.
pub proof fn confusion_wears_off(previous: Ai, n: i32)
    requires
        0 <= n,
    ensures
        ({
            let confused = Ai::Confused { previous_ai: Box::new(previous), num_turns: n };
            &&& forall|t: nat| t <= n ==> walks(#[trigger] ai_after(confused, t))
            &&& walk_count(confused, (n + 1) as nat) == n + 1
            &&& !walks(ai_after(confused, (n + 1) as nat))
            &&& ai_after(confused, (n + 2) as nat) == previous
        }),
{
    let confused = Ai::Confused { previous_ai: Box::new(previous), num_turns: n };
    assert forall|t: nat| t <= n implies walks(#[trigger] ai_after(confused, t)) by {
        lemma_countdown(previous, n, t);
    }
    lemma_countdown(previous, n, (n + 1) as nat);
}

} // verus!
