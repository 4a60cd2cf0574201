use vstd::prelude::*;
use crate::map::{blocked_at, in_bounds, is_blocked, map_wf, TileMap};
use crate::object::{Ai, Color, DeathCallback, Equipment, Fighter, Item, MonsterType, Object, Slot};

verus! {

/// What a spawn request asks for.
#[derive(Clone, Copy, Debug, PartialEq, Eq, Structural)]
pub enum Spawn {
    Monster(MonsterType),
    Item(Item),
}

/// One spawn: the cells to try, in order, and what to put on the first free one.
pub type SpawnRequest = (Vec<(i32, i32)>, Spawn);

pub open spec fn item_name(k: Item) -> Seq<char> {
    match k {
        Item::Heal => "healing potion"@,
        Item::Lightning => "scroll of lightning bolt"@,
        Item::Fireball => "scroll of fireball"@,
        Item::Confuse => "scroll of confusion"@,
        Item::Sword => "sword"@,
        Item::Shield => "shield"@,
    }
}

pub open spec fn item_glyph(k: Item) -> char {
    match k {
        Item::Heal => '!',
        Item::Sword => '/',
        Item::Shield => '[',
        _ => '#',
    }
}

pub open spec fn item_color(k: Item) -> Color {
    match k {
        Item::Heal => Color::Violet,
        Item::Sword | Item::Shield => Color::Sky,
        _ => Color::LightYellow,
    }
}

/// The equipment an item of kind `k` comes with.
pub open spec fn item_equipment(k: Item) -> Option<Equipment> {
    match k {
        Item::Sword => Some(
            Equipment { slot: Slot::RightHand, equipped: false, max_hp_bonus: 0, power_bonus: 3, defense_bonus: 0 },
        ),
        Item::Shield => Some(
            Equipment { slot: Slot::LeftHand, equipped: false, max_hp_bonus: 0, power_bonus: 0, defense_bonus: 1 },
        ),
        _ => None,
    }
}

/// `e` is a freshly spawned `what` on the cell `(x, y)`: an orc (20 hit points,
/// defense 0, power 4, worth 35 experience) or a troll (30 hit points, defense 2,
/// power 8, worth 100), alive, blocking and with the basic behaviour; or an item that
/// does not block and is always visible.
pub open spec fn spawned_as(e: Object, what: Spawn, x: int, y: int) -> bool {
    &&& e.x == x && e.y == y && e.level == 1 && !e.is_player
    &&& match what {
        Spawn::Monster(MonsterType::Orc) => {
            &&& e.name@ == "orc"@ && e.char == 'o' && e.color == Color::DesaturatedGreen
            &&& e.blocks && e.alive && !e.always_visible
            &&& e.fighter == Some(Fighter {
                base_max_hp: 20,
                hp: 20,
                base_defense: 0,
                base_power: 4,
                xp: 35,
                on_death: DeathCallback::Monster,
            })
            &&& e.ai == Some(Ai::Basic) && e.item is None && e.equipment is None
        },
        Spawn::Monster(MonsterType::Troll) => {
            &&& e.name@ == "troll"@ && e.char == 'T' && e.color == Color::DarkerGreen
            &&& e.blocks && e.alive && !e.always_visible
            &&& e.fighter == Some(Fighter {
                base_max_hp: 30,
                hp: 30,
                base_defense: 2,
                base_power: 8,
                xp: 100,
                on_death: DeathCallback::Monster,
            })
            &&& e.ai == Some(Ai::Basic) && e.item is None && e.equipment is None
        },
        Spawn::Item(k) => {
            &&& e.name@ == item_name(k) && e.char == item_glyph(k) && e.color == item_color(k)
            &&& !e.blocks && !e.alive && e.always_visible
            &&& e.fighter is None && e.ai is None
            &&& e.item == Some(k) && e.equipment == item_equipment(k)
        },
    }
}

/// The cell is on the map and free: not a wall, and no blocking entity of `objs` on it.
pub open spec fn free_cell(map: &TileMap, objs: Seq<Object>, c: (i32, i32)) -> bool {
    in_bounds(c.0 as int, c.1 as int) && !blocked_at(map, objs, c.0 as int, c.1 as int)
}

/// The index of the first free cell of `cells`.
pub open spec fn first_free(map: &TileMap, objs: Seq<Object>, cells: Seq<(i32, i32)>) -> Option<int>
    decreases cells.len(),
{
    if cells.len() == 0 {
        None
    } else {
        match first_free(map, objs, cells.drop_last()) {
            Some(k) => Some(k),
            None => if free_cell(map, objs, cells.last()) { Some(cells.len() - 1) } else { None },
        }
    }
}

/// One spawn turns the store `o0` into `o1`: `what` is appended on the first free cell
/// of `cells`, or nothing happens when none is free.
pub open spec fn spawn_step(map: &TileMap, o0: Seq<Object>, cells: Seq<(i32, i32)>, what: Spawn, o1: Seq<Object>) -> bool {
    match first_free(map, o0, cells) {
        None => o1 == o0,
        Some(k) => {
            &&& o1.len() == o0.len() + 1
            &&& o1.drop_last() == o0
            &&& spawned_as(o1.last(), what, cells[k].0 as int, cells[k].1 as int)
        },
    }
}

fn new_monster(kind: MonsterType, x: i32, y: i32) -> (m: Object)
    ensures
        spawned_as(m, Spawn::Monster(kind), x as int, y as int),
{
    let mut m = match kind {
        MonsterType::Orc => {
            let mut orc = Object::new(x, y, 'o', "orc", Color::DesaturatedGreen, true);
            orc.fighter = Some(Fighter {
                base_max_hp: 20,
                hp: 20,
                base_defense: 0,
                base_power: 4,
                xp: 35,
                on_death: DeathCallback::Monster,
            });
            orc
        },
        MonsterType::Troll => {
            let mut troll = Object::new(x, y, 'T', "troll", Color::DarkerGreen, true);
            troll.fighter = Some(Fighter {
                base_max_hp: 30,
                hp: 30,
                base_defense: 2,
                base_power: 8,
                xp: 100,
                on_death: DeathCallback::Monster,
            });
            troll
        },
    };
    m.ai = Some(Ai::Basic);
    m.alive = true;
    m
}

fn new_item(kind: Item, x: i32, y: i32) -> (o: Object)
    ensures
        spawned_as(o, Spawn::Item(kind), x as int, y as int),
{
    let mut object = match kind {
        Item::Heal => Object::new(x, y, '!', "healing potion", Color::Violet, false),
        Item::Lightning => Object::new(x, y, '#', "scroll of lightning bolt", Color::LightYellow, false),
        Item::Fireball => Object::new(x, y, '#', "scroll of fireball", Color::LightYellow, false),
        Item::Confuse => Object::new(x, y, '#', "scroll of confusion", Color::LightYellow, false),
        Item::Sword => {
            let mut o = Object::new(x, y, '/', "sword", Color::Sky, false);
            o.equipment = Some(Equipment {
                equipped: false,
                slot: Slot::RightHand,
                power_bonus: 3,
                defense_bonus: 0,
                max_hp_bonus: 0,
            });
            o
        },
        Item::Shield => {
            let mut o = Object::new(x, y, '[', "shield", Color::Sky, false);
            o.equipment = Some(Equipment {
                equipped: false,
                slot: Slot::LeftHand,
                power_bonus: 0,
                defense_bonus: 1,
                max_hp_bonus: 0,
            });
            o
        },
    };
    object.item = Some(kind);
    object.always_visible = true;
    object
}

/// Puts `what` on the first free cell of `cells`; returns whether one was free.
pub fn spawn(map: &TileMap, objects: &mut Vec<Object>, cells: &Vec<(i32, i32)>, what: Spawn) -> (placed: bool)
    requires
        map_wf(map),
    ensures
        placed == first_free(map, old(objects)@, cells@) is Some,
        spawn_step(map, old(objects)@, cells@, what, final(objects)@),
{
    let mut k: usize = 0;
    while k < cells.len()
        invariant
            map_wf(map),
            k <= cells@.len(),
            objects@ == old(objects)@,
            first_free(map, objects@, cells@.subrange(0, k as int)) is None,
        decreases cells@.len() - k,
    {
        assert(cells@.subrange(0, k + 1).drop_last() =~= cells@.subrange(0, k as int));
        let (x, y) = cells[k];
        if 0 <= x && x < crate::config::MAP_WIDTH && 0 <= y && y < crate::config::MAP_HEIGHT
            && !is_blocked(x, y, map, objects.as_slice()) {
            proof { lemma_first_free_grow(map, objects@, cells@, k as int + 1, cells@.len() as int); }
            assert(cells@.subrange(0, cells@.len() as int) =~= cells@);
            let e = match what {
                Spawn::Monster(m) => new_monster(m, x, y),
                Spawn::Item(i) => new_item(i, x, y),
            };
            objects.push(e);
            assert(objects@.drop_last() =~= old(objects)@);
            return true;
        }
        k = k + 1;
    }
    assert(cells@.subrange(0, k as int) =~= cells@);
    false
}

proof fn lemma_first_free_grow(map: &TileMap, objs: Seq<Object>, cells: Seq<(i32, i32)>, n: int, m: int)
    requires
        0 < n <= m <= cells.len(),
        first_free(map, objs, cells.subrange(0, n - 1)) is None,
        free_cell(map, objs, cells[n - 1]),
    ensures
        first_free(map, objs, cells.subrange(0, m)) == Some(n - 1),
    decreases m - n,
{
    if m == n {
        assert(cells.subrange(0, n).drop_last() =~= cells.subrange(0, n - 1));
    } else {
        lemma_first_free_grow(map, objs, cells, n, m - 1);
        assert(cells.subrange(0, m).drop_last() =~= cells.subrange(0, m - 1));
    }
}

proof fn lemma_first_free(map: &TileMap, objs: Seq<Object>, cells: Seq<(i32, i32)>)
    ensures
        first_free(map, objs, cells) matches Some(k) ==> 0 <= k < cells.len() && free_cell(map, objs, cells[k]),
    decreases cells.len(),
{
    if cells.len() > 0 {
        lemma_first_free(map, objs, cells.drop_last());
        if let Some(k) = first_free(map, objs, cells.drop_last()) {
            assert(cells.drop_last()[k] == cells[k]);
        }
    }
}

/// Entity `i` of `objs` was spawned by one of `requests` on one of its cells, which was
/// free of walls and of the blocking entities before it.
pub open spec fn spawned_by(map: &TileMap, objs: Seq<Object>, i: int, requests: Seq<SpawnRequest>) -> bool {
    exists|k: int, c: int| 0 <= k < requests.len() && 0 <= c < requests[k].0@.len()
        && #[trigger] spawned_as(objs[i], requests[k].1, requests[k].0@[c].0 as int, requests[k].0@[c].1 as int)
        && free_cell(map, objs.subrange(0, i), requests[k].0@[c])
}

/// Serving `requests` in order, each as one spawn step, turns `o0` into `o1`: the store
/// passes through one state per request.
pub open spec fn populated(map: &TileMap, o0: Seq<Object>, requests: Seq<SpawnRequest>, o1: Seq<Object>) -> bool {
    exists|states: Seq<Seq<Object>>| {
        &&& states.len() == requests.len() + 1
        &&& states[0] == o0
        &&& states.last() == o1
        &&& forall|k: int| 0 <= k < requests.len() ==> #[trigger] spawn_step(
            map,
            states[k],
            requests[k].0@,
            requests[k].1,
            states[k + 1],
        )
    }
}

/// Serves `requests` in order, each as `spawn` does: the store passes through one state
/// per request, from the old store to the final one. At most one entity per request is
/// appended; the entities before stay as they were.
pub fn populate_room(map: &TileMap, objects: &mut Vec<Object>, requests: &Vec<SpawnRequest>)
    requires
        map_wf(map),
    ensures
        populated(map, old(objects)@, requests@, final(objects)@),
        old(objects)@.len() <= final(objects)@.len() <= old(objects)@.len() + requests@.len(),
        final(objects)@.subrange(0, old(objects)@.len() as int) == old(objects)@,
        forall|i: int| old(objects)@.len() <= i < final(objects)@.len() ==> #[trigger] spawned_by(map, final(objects)@, i, requests@),
{
    let ghost mut states: Seq<Seq<Object>> = seq![objects@];
    let mut k: usize = 0;
    while k < requests.len()
        invariant
            map_wf(map),
            k <= requests@.len(),
            states.len() == k + 1,
            states[0] == old(objects)@,
            states.last() == objects@,
            forall|j: int| 0 <= j < k ==> #[trigger] spawn_step(map, states[j], requests@[j].0@, requests@[j].1, states[j + 1]),
            old(objects)@.len() <= objects@.len() <= old(objects)@.len() + k,
            objects@.subrange(0, old(objects)@.len() as int) == old(objects)@,
            forall|i: int| old(objects)@.len() <= i < objects@.len() ==> #[trigger] spawned_by(map, objects@, i, requests@),
        decreases requests@.len() - k,
    {
        let ghost o0 = objects@;
        let placed = spawn(map, objects, &requests[k].0, requests[k].1);
        proof {
            lemma_first_free(map, o0, requests@[k as int].0@);
            let s0 = states;
            states = states.push(objects@);
            assert forall|j: int| 0 <= j < k + 1 implies #[trigger] spawn_step(map, states[j], requests@[j].0@, requests@[j].1, states[j + 1]) by {
                if j < k {
                    assert(states[j] == s0[j] && states[j + 1] == s0[j + 1]);
                }
            }
            if placed {
                assert(objects@.subrange(0, o0.len() as int) =~= o0);
                assert(objects@.subrange(0, old(objects)@.len() as int) =~= o0.subrange(0, old(objects)@.len() as int));
                assert forall|i: int| old(objects)@.len() <= i < objects@.len() implies #[trigger] spawned_by(map, objects@, i, requests@) by {
                    if i < o0.len() {
                        assert(objects@[i] == o0[i]);
                        assert(objects@.subrange(0, i) =~= o0.subrange(0, i));
                        assert(spawned_by(map, o0, i, requests@));
                        let (kk, c) = choose|kk: int, c: int| 0 <= kk < requests@.len() && 0 <= c < requests@[kk].0@.len()
                            && #[trigger] spawned_as(o0[i], requests@[kk].1, requests@[kk].0@[c].0 as int, requests@[kk].0@[c].1 as int)
                            && free_cell(map, o0.subrange(0, i), requests@[kk].0@[c]);
                        assert(spawned_as(objects@[i], requests@[kk].1, requests@[kk].0@[c].0 as int, requests@[kk].0@[c].1 as int));
                    } else {
                        let c = first_free(map, o0, requests@[k as int].0@).unwrap();
                        assert(objects@.subrange(0, i) =~= o0);
                        assert(spawned_as(objects@[i], requests@[k as int].1, requests@[k as int].0@[c].0 as int, requests@[k as int].0@[c].1 as int));
                    }
                }
            }
        }
        k = k + 1;
    }
    assert(states.len() == requests@.len() + 1);
}

} // verus!
