use vstd::prelude::*;
use crate::config::{MAX_INVENTORY_SIZE, PLAYER};
use crate::game::Game;
use crate::manager::ObjectsManager;
use crate::messages::{entry, logged, message, Entry, Message, MessageKind};
use crate::object::{dequipped_form, equipped_form, log_opt, Object, Slot};

verus! {

/// What using an item came to.
#[derive(Clone, Copy, Debug, PartialEq, Eq, Structural)]
pub enum UseResult {
    /// The item is spent and leaves the inventory.
    UsedUp,
    /// The item did its work and stays.
    UsedAndKept,
    /// Nothing happened.
    Cancelled,
}

/// The item is worn in `slot`.
pub open spec fn worn_in(o: Object, slot: Slot) -> bool {
    o.equipment matches Some(e) && e.equipped && e.slot == slot
}

/// The first item of `inv` worn in `slot`.
pub open spec fn first_worn_in(inv: Seq<Object>, slot: Slot) -> Option<int>
    decreases inv.len(),
{
    if inv.len() == 0 {
        None
    } else {
        match first_worn_in(inv.drop_last(), slot) {
            Some(i) => Some(i),
            None => if worn_in(inv.last(), slot) { Some(inv.len() - 1) } else { None },
        }
    }
}

proof fn lemma_first_worn_grow(inv: Seq<Object>, slot: Slot, n: int, m: int)
    requires
        0 < n <= m <= inv.len(),
        first_worn_in(inv.subrange(0, n - 1), slot) is None,
        worn_in(inv[n - 1], slot),
    ensures
        first_worn_in(inv.subrange(0, m), slot) == Some(n - 1),
    decreases m - n,
{
    if m == n {
        assert(inv.subrange(0, n).drop_last() =~= inv.subrange(0, n - 1));
    } else {
        lemma_first_worn_grow(inv, slot, n, m - 1);
        assert(inv.subrange(0, m).drop_last() =~= inv.subrange(0, m - 1));
    }
}

/// The inventory index of the first item worn in `slot`.
pub fn get_equipped_in_slot(slot: Slot, inventory: &[Object]) -> (r: Option<usize>)
    ensures
        r matches Some(i) ==> i < inventory@.len() && first_worn_in(inventory@, slot) == Some(i as int),
        r is None ==> first_worn_in(inventory@, slot) is None,
{
    let mut i: usize = 0;
    while i < inventory.len()
        invariant
            i <= inventory@.len(),
            first_worn_in(inventory@.subrange(0, i as int), slot) is None,
        decreases inventory@.len() - i,
    {
        assert(inventory@.subrange(0, i + 1).drop_last() =~= inventory@.subrange(0, i as int));
        let found = match inventory[i].equipment {
            Some(e) => e.equipped && e.slot == slot,
            None => false,
        };
        if found {
            proof {
                lemma_first_worn_grow(inventory@, slot, i + 1, inventory@.len() as int);
                assert(inventory@.subrange(0, inventory@.len() as int) =~= inventory@);
            }
            return Some(i);
        }
        i = i + 1;
    }
    assert(inventory@.subrange(0, i as int) =~= inventory@);
    None
}

/// Picks up entity `object_id` into the inventory, unless the inventory is full. The
/// other entities keep their order.
pub fn pick_item_up(object_id: usize, object_manager: &mut ObjectsManager, game: &mut Game)
    requires
        old(object_manager).wf(),
        PLAYER < object_id < old(object_manager).objects@.len(),
    ensures
        final(object_manager).wf(),
        final(game).map == old(game).map,
        final(game).dungeon_level == old(game).dungeon_level,
        ({
            let item = old(object_manager).objects@[object_id as int];
            if old(game).inventory@.len() >= MAX_INVENTORY_SIZE {
                &&& final(object_manager).objects@ == old(object_manager).objects@
                &&& final(game).inventory@ == old(game).inventory@
                &&& final(game).log_entries() == logged(
                    old(game).log_entries(),
                    entry(MessageKind::InventoryFull, item.name@, Seq::empty(), 0),
                )
            } else {
                &&& final(object_manager).objects@ == old(object_manager).objects@.remove(object_id as int)
                &&& final(game).inventory@ == old(game).inventory@.push(item)
                &&& final(game).log_entries() == logged(
                    old(game).log_entries(),
                    entry(MessageKind::PickedUp, item.name@, Seq::empty(), 0),
                )
            }
        }),
{
    if game.inventory.len() >= MAX_INVENTORY_SIZE {
        message(&mut game.log, Message::about(MessageKind::InventoryFull, object_manager.objects[object_id].name.as_str()));
    } else {
        let item = object_manager.objects.remove(object_id);
        message(&mut game.log, Message::about(MessageKind::PickedUp, item.name.as_str()));
        game.inventory.push(item);
    }
}

/// The item as it lands when dropped at `(x, y)`: taken off first if it is equipment.
pub open spec fn dropped_form(o: Object, x: i32, y: i32) -> Object {
    let d = if o.equipment is Some { dequipped_form(o).0 } else { o };
    Object { x, y, ..d }
}

/// The log entry, if any, of taking the item off before it is dropped.
pub open spec fn drop_dequip_entry(o: Object) -> Option<Entry> {
    if o.equipment is Some { dequipped_form(o).1 } else { None }
}

/// Drops inventory item `inventory_id` where the player stands.
pub fn drop_item(inventory_id: usize, object_manager: &mut ObjectsManager, game: &mut Game)
    requires
        old(object_manager).wf(),
        inventory_id < old(game).inventory@.len(),
    ensures
        final(object_manager).wf(),
        final(game).map == old(game).map,
        final(game).dungeon_level == old(game).dungeon_level,
        final(game).inventory@ == old(game).inventory@.remove(inventory_id as int),
        ({
            let item = old(game).inventory@[inventory_id as int];
            let p = old(object_manager).objects@[PLAYER as int];
            &&& final(object_manager).objects@ == old(object_manager).objects@.push(dropped_form(item, p.x, p.y))
            &&& final(game).log_entries() == logged(
                log_opt(old(game).log_entries(), drop_dequip_entry(item)),
                entry(MessageKind::Dropped, item.name@, Seq::empty(), 0),
            )
        }),
{
    let mut item = game.inventory.remove(inventory_id);
    if item.equipment.is_some() {
        item.dequip(&mut game.log);
    }
    let (x, y) = object_manager.objects[PLAYER].pos();
    item.set_pos(x, y);
    message(&mut game.log, Message::about(MessageKind::Dropped, item.name.as_str()));
    object_manager.objects.push(item);
}

/// The inventory after the item at `id`, which has equipment, is toggled: worn equipment
/// is taken off; otherwise the first item worn in its slot is taken off and it is put on.
pub open spec fn toggled(inv: Seq<Object>, id: int) -> Seq<Object> {
    let e = inv[id].equipment.unwrap();
    if e.equipped {
        inv.update(id, dequipped_form(inv[id]).0)
    } else {
        let cleared = match first_worn_in(inv, e.slot) {
            Some(k) => inv.update(k, dequipped_form(inv[k]).0),
            None => inv,
        };
        cleared.update(id, equipped_form(inv[id]).0)
    }
}

/// The log entries that toggling the item at `id` adds.
pub open spec fn toggle_log(inv: Seq<Object>, id: int, log: Seq<Entry>) -> Seq<Entry> {
    let e = inv[id].equipment.unwrap();
    if e.equipped {
        log_opt(log, dequipped_form(inv[id]).1)
    } else {
        let cleared = match first_worn_in(inv, e.slot) {
            Some(k) => log_opt(log, dequipped_form(inv[k]).1),
            None => log,
        };
        log_opt(cleared, equipped_form(inv[id]).1)
    }
}

/// Puts on or takes off inventory item `inventory_id`. Putting it on first takes off
/// whatever is worn in the same slot.
pub fn toggle_equipment(inventory_id: usize, _object_manager: &mut ObjectsManager, game: &mut Game) -> (r: UseResult)
    requires
        inventory_id < old(game).inventory@.len(),
    ensures
        *final(_object_manager) == *old(_object_manager),
        final(game).inventory@.len() == old(game).inventory@.len(),
        final(game).map == old(game).map,
        final(game).dungeon_level == old(game).dungeon_level,
        old(game).inventory@[inventory_id as int].equipment is None ==> r == UseResult::Cancelled
            && *final(game) == *old(game),
        old(game).inventory@[inventory_id as int].equipment is Some ==> r == UseResult::UsedAndKept
            && final(game).inventory@ == toggled(old(game).inventory@, inventory_id as int)
            && final(game).log_entries() == toggle_log(old(game).inventory@, inventory_id as int, old(game).log_entries()),
{
    let equipment = match game.inventory[inventory_id].equipment {
        Some(e) => e,
        None => return UseResult::Cancelled,
    };
    if equipment.equipped {
        game.inventory[inventory_id].dequip(&mut game.log);
    } else {
        if let Some(old_equipment) = get_equipped_in_slot(equipment.slot, game.inventory.as_slice()) {
            game.inventory[old_equipment].dequip(&mut game.log);
        }
        game.inventory[inventory_id].equip(&mut game.log);
    }
    UseResult::UsedAndKept
}

} // verus!
