use vstd::prelude::*;
use crate::config::{LEVEL_UP_BASE, LEVEL_UP_FACTOR, MAX_INVENTORY_SIZE, PLAYER};
use crate::manager::ObjectsManager;
use crate::messages::{entry, logged, message, Message, MessageKind};
use crate::object::{clamp_i32, saturate, Fighter, LevelUpStat};
use crate::map::{map_wf, TileMap};
use crate::messages::{log_view, Entry, Messages};
use crate::object::Object;

verus! {

/// Everything about a running game besides the entity store.
#[derive(Debug, PartialEq, Eq)]
pub struct Game {
    pub map: TileMap,
    pub log: Messages,
    /// What the player carries; these entities are not in the entity store.
    pub inventory: Vec<Object>,
    pub dungeon_level: u32,
}

impl Game {
    pub open spec fn wf(&self) -> bool {
        &&& map_wf(&self.map)
        &&& self.inventory@.len() <= MAX_INVENTORY_SIZE
    }

    /// `after` differs from `self` only in its log.
    pub open spec fn same_but_log(&self, after: &Game) -> bool {
        &&& after.map == self.map
        &&& after.inventory == self.inventory
        &&& after.dungeon_level == self.dungeon_level
    }

    pub open spec fn log_entries(&self) -> Seq<Entry> {
        log_view(self.log@)
    }
}

/// The experience needed to leave character level `level`.
pub open spec fn level_up_threshold(level: i32) -> int {
    LEVEL_UP_BASE + level * LEVEL_UP_FACTOR
}

/// The player's fighter after it levels up, raising `stat`, at a cost of `threshold`
/// experience.
pub open spec fn raised(f: Fighter, stat: LevelUpStat, threshold: int) -> Fighter {
    let f = Fighter { xp: clamp_i32(f.xp - threshold) as i32, ..f };
    match stat {
        LevelUpStat::Constitution => Fighter {
            base_max_hp: clamp_i32(f.base_max_hp + 20) as i32,
            hp: clamp_i32(f.hp + 20) as i32,
            ..f
        },
        LevelUpStat::Strength => Fighter { base_power: clamp_i32(f.base_power + 1) as i32, ..f },
        LevelUpStat::Agility => Fighter { base_defense: clamp_i32(f.base_defense + 1) as i32, ..f },
    }
}

/// The experience the player needs to reach the next level.
pub fn level_up_xp(object_manager: &ObjectsManager) -> (r: i64)
    requires
        object_manager.wf(),
    ensures
        r == level_up_threshold(object_manager.objects@[PLAYER as int].level),
{
    let level: i64 = object_manager.objects[PLAYER].level as i64;
    assert(-0x8000_0000 * 150 <= level * 150 <= 0x8000_0000 * 150) by (nonlinear_arith)
        requires -0x8000_0000 <= level <= 0x8000_0000;
    LEVEL_UP_BASE as i64 + level * LEVEL_UP_FACTOR as i64
}

/// Whether the player has the experience to level up.
pub fn can_level_up(object_manager: &ObjectsManager) -> (b: bool)
    requires
        object_manager.wf(),
    ensures
        b == (object_manager.objects@[PLAYER as int].fighter matches Some(f)
            && f.xp >= level_up_threshold(object_manager.objects@[PLAYER as int].level)),
{
    let threshold = level_up_xp(object_manager);
    match object_manager.objects[PLAYER].fighter {
        Some(f) => f.xp as i64 >= threshold,
        None => false,
    }
}

/// Levels the player up when it has the experience: its level rises by one, the
/// threshold is taken from its experience and the chosen statistic grows (20 maximum
/// hit points, or 1 power, or 1 defense). Returns whether it levelled up.
pub fn level_up(object_manager: &mut ObjectsManager, game: &mut Game, choice: LevelUpStat) -> (done: bool)
    requires
        old(object_manager).wf(),
    ensures
        final(object_manager).wf(),
        old(game).same_but_log(final(game)),
        done == (old(object_manager).objects@[PLAYER as int].fighter matches Some(f)
            && f.xp >= level_up_threshold(old(object_manager).objects@[PLAYER as int].level)),
        !done ==> *final(object_manager) == *old(object_manager) && *final(game) == *old(game),
        done ==> {
            let p = old(object_manager).objects@[PLAYER as int];
            let level = clamp_i32(p.level + 1) as i32;
            &&& final(object_manager).objects@ == old(object_manager).objects@.update(
                PLAYER as int,
                crate::object::Object {
                    level,
                    fighter: Some(raised(p.fighter.unwrap(), choice, level_up_threshold(p.level))),
                    ..p
                },
            )
            &&& final(game).log_entries() == logged(
                old(game).log_entries(),
                entry(MessageKind::LevelUp, Seq::empty(), Seq::empty(), level as int),
            )
        },
{
    let threshold = level_up_xp(object_manager);
    let mut f = match object_manager.objects[PLAYER].fighter {
        Some(f) => f,
        None => return false,
    };
    if (f.xp as i64) < threshold {
        return false;
    }
    let level = saturate(object_manager.objects[PLAYER].level as i128 + 1);
    object_manager.objects[PLAYER].level = level;
    message(&mut game.log, Message::new(MessageKind::LevelUp, "", "", level as i64));
    proof {
        reveal_strlit("");
        assert(""@ =~= Seq::<char>::empty());
    }
    f.xp = saturate(f.xp as i128 - threshold as i128);
    match choice {
        LevelUpStat::Constitution => {
            f.base_max_hp = saturate(f.base_max_hp as i128 + 20);
            f.hp = saturate(f.hp as i128 + 20);
        },
        LevelUpStat::Strength => {
            f.base_power = saturate(f.base_power as i128 + 1);
        },
        LevelUpStat::Agility => {
            f.base_defense = saturate(f.base_defense as i128 + 1);
        },
    }
    object_manager.objects[PLAYER].fighter = Some(f);
    true
}

} // verus!
