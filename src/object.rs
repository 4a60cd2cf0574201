use vstd::prelude::*;
use vstd::string::StringExecFns;
use crate::game::Game;
use crate::config::MAX_INVENTORY_SIZE;
use crate::messages::{entry, log_view, logged, message, Entry, Message, MessageKind, Messages};

verus! {

/// The colours that entities are drawn in; the front end picks the shades.
#[derive(Clone, Copy, Debug, PartialEq, Eq, Structural)]
pub enum Color {
    White,
    DarkRed,
    DesaturatedGreen,
    DarkerGreen,
    Violet,
    LightYellow,
    Sky,
}

/// What happens when a fighter's hit points run out.
#[derive(Clone, Copy, Debug, PartialEq, Eq, Structural)]
pub enum DeathCallback {
    Player,
    Monster,
}

#[derive(Clone, Copy, Debug, PartialEq, Eq, Structural)]
pub struct Fighter {
    pub base_max_hp: i32,
    pub hp: i32,
    pub base_defense: i32,
    pub base_power: i32,
    pub xp: i32,
    pub on_death: DeathCallback,
}

#[derive(Clone, Copy, Debug, PartialEq, Eq, Structural)]
pub enum Item {
    Heal,
    Lightning,
    Confuse,
    Fireball,
    Sword,
    Shield,
}

#[derive(Clone, Copy, Debug, PartialEq, Eq, Structural)]
pub enum Slot {
    LeftHand,
    RightHand,
    Head,
}

/// An object that can be equipped, yielding bonuses.
#[derive(Clone, Copy, Debug, PartialEq, Eq, Structural)]
pub struct Equipment {
    pub slot: Slot,
    pub equipped: bool,
    pub max_hp_bonus: i32,
    pub power_bonus: i32,
    pub defense_bonus: i32,
}

#[derive(Clone, Copy, Debug, PartialEq, Eq, Structural)]
pub enum MonsterType {
    Orc,
    Troll,
}

/// A monster's behaviour. `Confused` holds the behaviour to go back to.
#[derive(Debug, PartialEq, Eq)]
pub enum Ai {
    Basic,
    Confused { previous_ai: Box<Ai>, num_turns: i32 },
}

/// The three derived statistics of a fighter.
#[derive(Clone, Copy, Debug, PartialEq, Eq, Structural)]
pub enum LevelUpStat {
    /// Maximum hit points.
    Constitution,
    /// Attack power.
    Strength,
    /// Defense.
    Agility,
}

/// Anything on the map: the player, monsters, items, corpses, stairs.
#[derive(Debug, PartialEq, Eq)]
pub struct Object {
    pub x: i32,
    pub y: i32,
    pub char: char,
    pub color: Color,
    pub name: String,
    pub blocks: bool,
    pub alive: bool,
    pub fighter: Option<Fighter>,
    pub ai: Option<Ai>,
    pub item: Option<Item>,
    pub always_visible: bool,
    pub level: i32,
    pub equipment: Option<Equipment>,
    /// Marks the player, whose equipped inventory counts towards its statistics.
    pub is_player: bool,
}

impl Slot {
    /// The slot's name as shown to the player.
    pub fn label(&self) -> (s: &'static str)
        ensures
            s@ == slot_label(*self),
    {
        match self {
            Slot::LeftHand => "left hand",
            Slot::RightHand => "right hand",
            Slot::Head => "head",
        }
    }
}

pub open spec fn slot_label(s: Slot) -> Seq<char> {
    match s {
        Slot::LeftHand => "left hand"@,
        Slot::RightHand => "right hand"@,
        Slot::Head => "head"@,
    }
}

impl Ai {
    /// A copy of this behaviour.
    pub fn duplicate(&self) -> (r: Ai)
        ensures
            r == *self,
        decreases self,
    {
        match self {
            Ai::Basic => Ai::Basic,
            Ai::Confused { previous_ai, num_turns } => {
                let p = (**previous_ai).duplicate();
                Ai::Confused { previous_ai: Box::new(p), num_turns: *num_turns }
            },
        }
    }
}

/// `v` held within the bounds of `i32`.
pub open spec fn clamp_i32(v: int) -> int {
    if v < i32::MIN {
        i32::MIN as int
    } else if v > i32::MAX {
        i32::MAX as int
    } else {
        v
    }
}

/// Converts `v` to `i32`, saturating at the bounds.
pub fn saturate(v: i128) -> (r: i32)
    ensures
        r == clamp_i32(v as int),
{
    if v < i32::MIN as i128 {
        i32::MIN
    } else if v > i32::MAX as i128 {
        i32::MAX
    } else {
        v as i32
    }
}

/// The bonus that `e` gives to `stat`.
pub open spec fn bonus(e: Equipment, stat: LevelUpStat) -> int {
    match stat {
        LevelUpStat::Constitution => e.max_hp_bonus as int,
        LevelUpStat::Strength => e.power_bonus as int,
        LevelUpStat::Agility => e.defense_bonus as int,
    }
}

/// The equipment of the items of `inv` that are equipped, in inventory order.
pub open spec fn equipped_of(inv: Seq<Object>) -> Seq<Equipment>
    decreases inv.len(),
{
    if inv.len() == 0 {
        Seq::empty()
    } else {
        let rest = equipped_of(inv.drop_last());
        match inv.last().equipment {
            Some(e) => if e.equipped { rest.push(e) } else { rest },
            None => rest,
        }
    }
}

/// The sum of the bonuses that `es` give to `stat`.
pub open spec fn bonus_sum(es: Seq<Equipment>, stat: LevelUpStat) -> int
    decreases es.len(),
{
    if es.len() == 0 {
        0
    } else {
        bonus_sum(es.drop_last(), stat) + bonus(es.last(), stat)
    }
}

/// The base value of `stat` in a fighter, 0 without one.
pub open spec fn base_stat(f: Option<Fighter>, stat: LevelUpStat) -> int {
    match f {
        Some(f) => match stat {
            LevelUpStat::Constitution => f.base_max_hp as int,
            LevelUpStat::Strength => f.base_power as int,
            LevelUpStat::Agility => f.base_defense as int,
        },
        None => 0,
    }
}

/// A derived statistic: the base value plus, for the player, the bonuses of every
/// equipped item in the inventory `inv`.
pub open spec fn derived(o: Object, inv: Seq<Object>, stat: LevelUpStat) -> int {
    base_stat(o.fighter, stat) + if o.is_player { bonus_sum(equipped_of(inv), stat) } else { 0 }
}

proof fn lemma_equipped_len(inv: Seq<Object>)
    ensures
        equipped_of(inv).len() <= inv.len(),
    decreases inv.len(),
{
    if inv.len() > 0 {
        lemma_equipped_len(inv.drop_last());
    }
}

proof fn lemma_bonus_bound(es: Seq<Equipment>, stat: LevelUpStat)
    ensures
        -(es.len() * 0x8000_0000) <= bonus_sum(es, stat) <= es.len() * 0x8000_0000,
    decreases es.len(),
{
    if es.len() > 0 {
        lemma_bonus_bound(es.drop_last(), stat);
    }
}

/// A derived statistic stays within 27 times the range of `i32` over a full inventory.
pub proof fn lemma_derived_bound(o: Object, inv: Seq<Object>, stat: LevelUpStat)
    requires
        inv.len() <= MAX_INVENTORY_SIZE,
    ensures
        -27 * 0x8000_0000 <= derived(o, inv, stat) <= 27 * 0x8000_0000,
{
    lemma_equipped_len(inv);
    lemma_bonus_bound(equipped_of(inv), stat);
}

fn bonus_of(e: &Equipment, stat: LevelUpStat) -> (r: i32)
    ensures
        r == bonus(*e, stat),
{
    match stat {
        LevelUpStat::Constitution => e.max_hp_bonus,
        LevelUpStat::Strength => e.power_bonus,
        LevelUpStat::Agility => e.defense_bonus,
    }
}

impl Object {
    pub fn new(x: i32, y: i32, char: char, name: &str, color: Color, blocks: bool) -> (o: Self)
        ensures
            o.x == x && o.y == y && o.char == char && o.color == color,
            o.name@ == name@,
            o.blocks == blocks,
            !o.alive,
            o.fighter.is_none() && o.ai.is_none() && o.item.is_none() && o.equipment.is_none(),
            !o.always_visible,
            o.level == 1,
            !o.is_player,
    {
        Object {
            x,
            y,
            char,
            color,
            name: String::from_str(name),
            blocks,
            alive: false,
            fighter: None,
            ai: None,
            item: None,
            always_visible: false,
            level: 1,
            equipment: None,
            is_player: false,
        }
    }

    pub fn pos(&self) -> (p: (i32, i32))
        ensures
            p == (self.x, self.y),
    {
        (self.x, self.y)
    }

    pub fn set_pos(&mut self, x: i32, y: i32)
        ensures
            *final(self) == (Object { x, y, ..*old(self) }),
    {
        self.x = x;
        self.y = y;
    }

    /// The square of the Euclidean distance to the cell `(x, y)`.
    pub open spec fn spec_distance_sq(&self, x: int, y: int) -> int {
        (x - self.x) * (x - self.x) + (y - self.y) * (y - self.y)
    }

    /// The square of the Euclidean distance to the cell `(x, y)`.
    pub fn distance_sq(&self, x: i32, y: i32) -> (d: i128)
        ensures
            d == self.spec_distance_sq(x as int, y as int),
    {
        let dx: i128 = x as i128 - self.x as i128;
        let dy: i128 = y as i128 - self.y as i128;
        assert(dx * dx <= 0x1_0000_0000 * 0x1_0000_0000) by (nonlinear_arith)
            requires -0x1_0000_0000 <= dx <= 0x1_0000_0000;
        assert(dy * dy <= 0x1_0000_0000 * 0x1_0000_0000) by (nonlinear_arith)
            requires -0x1_0000_0000 <= dy <= 0x1_0000_0000;
        assert(0 <= dx * dx && 0 <= dy * dy) by (nonlinear_arith);
        dx * dx + dy * dy
    }

    /// The square of the Euclidean distance to `other`.
    pub fn distance_sq_to(&self, other: &Object) -> (d: i128)
        ensures
            d == self.spec_distance_sq(other.x as int, other.y as int),
    {
        self.distance_sq(other.x, other.y)
    }

    /// The equipment of every equipped item in the inventory, for the player; none
    /// for anybody else.
    pub fn get_all_equipped(&self, game: &Game) -> (r: Vec<Equipment>)
        ensures
            r@ == (if self.is_player { equipped_of(game.inventory@) } else { Seq::empty() }),
    {
        let mut r: Vec<Equipment> = Vec::new();
        if self.is_player {
            let mut i: usize = 0;
            while i < game.inventory.len()
                invariant
                    i <= game.inventory@.len(),
                    r@ == equipped_of(game.inventory@.subrange(0, i as int)),
                decreases game.inventory@.len() - i,
            {
                assert(game.inventory@.subrange(0, i + 1).drop_last() =~= game.inventory@.subrange(0, i as int));
                match game.inventory[i].equipment {
                    Some(e) => {
                        if e.equipped {
                            r.push(e);
                        }
                    },
                    None => {},
                }
                i = i + 1;
            }
            assert(game.inventory@.subrange(0, i as int) =~= game.inventory@);
        }
        r
    }

    /// A derived statistic; see `derived`.
    pub fn stat(&self, game: &Game, stat: LevelUpStat) -> (r: i64)
        requires
            game.inventory@.len() <= crate::config::MAX_INVENTORY_SIZE,
        ensures
            r == derived(*self, game.inventory@, stat),
    {
        let base: i32 = match self.fighter {
            Some(f) => match stat {
                LevelUpStat::Constitution => f.base_max_hp,
                LevelUpStat::Strength => f.base_power,
                LevelUpStat::Agility => f.base_defense,
            },
            None => 0,
        };
        let es = self.get_all_equipped(game);
        proof { lemma_equipped_len(game.inventory@); }
        let mut sum: i64 = 0;
        let mut i: usize = 0;
        while i < es.len()
            invariant
                i <= es@.len() <= 26,
                sum == bonus_sum(es@.subrange(0, i as int), stat),
            decreases es@.len() - i,
        {
            assert(es@.subrange(0, i + 1).drop_last() =~= es@.subrange(0, i as int));
            proof { lemma_bonus_bound(es@.subrange(0, i as int), stat); }
            sum = sum + bonus_of(&es[i], stat) as i64;
            i = i + 1;
        }
        assert(es@.subrange(0, i as int) =~= es@);
        proof { lemma_bonus_bound(es@, stat); }
        base as i64 + sum
    }

    pub fn power(&self, game: &Game) -> (r: i64)
        requires
            game.inventory@.len() <= crate::config::MAX_INVENTORY_SIZE,
        ensures
            r == derived(*self, game.inventory@, LevelUpStat::Strength),
    {
        self.stat(game, LevelUpStat::Strength)
    }

    pub fn defense(&self, game: &Game) -> (r: i64)
        requires
            game.inventory@.len() <= crate::config::MAX_INVENTORY_SIZE,
        ensures
            r == derived(*self, game.inventory@, LevelUpStat::Agility),
    {
        self.stat(game, LevelUpStat::Agility)
    }

    pub fn max_hp(&self, game: &Game) -> (r: i64)
        requires
            game.inventory@.len() <= crate::config::MAX_INVENTORY_SIZE,
        ensures
            r == derived(*self, game.inventory@, LevelUpStat::Constitution),
    {
        self.stat(game, LevelUpStat::Constitution)
    }
}


/// Hit points after `damage` is taken: only positive damage counts.
pub open spec fn hp_after(hp: i32, damage: int) -> int {
    if damage > 0 { clamp_i32(hp - damage) } else { hp as int }
}

/// `o` with its hit points after `damage`.
pub open spec fn hit(o: Object, damage: int) -> Object {
    match o.fighter {
        Some(f) => Object { fighter: Some(Fighter { hp: hp_after(f.hp, damage) as i32, ..f }), ..o },
        None => o,
    }
}

/// `damage` kills `o`: it has a fighter, is alive, and its hit points drop to 0 or below.
pub open spec fn kills(o: Object, damage: int) -> bool {
    &&& o.fighter is Some
    &&& o.alive
    &&& hp_after(o.fighter.unwrap().hp, damage) <= 0
}

/// The experience that `damage` to `o` yields: the fighter's, when it kills.
pub open spec fn xp_award(o: Object, damage: int) -> Option<i32> {
    if kills(o, damage) { Some(o.fighter.unwrap().xp) } else { None }
}

/// The entry that the death of `o` adds to the log.
pub open spec fn death_entry(o: Object) -> Entry {
    match o.fighter.unwrap().on_death {
        DeathCallback::Player => entry(MessageKind::PlayerDied, Seq::empty(), Seq::empty(), 0),
        DeathCallback::Monster => entry(MessageKind::MonsterDied, o.name@, Seq::empty(), o.fighter.unwrap().xp as int),
    }
}

/// The player's body: only its look changes.
pub open spec fn player_remains(o: Object) -> Object {
    Object { char: '%', color: Color::DarkRed, ..o }
}

/// `after` is the corpse that monster `o` leaves: renamed, without fighter or AI, not blocking.
pub open spec fn monster_remains(o: Object, after: Object) -> bool {
    &&& after.name@ == "remains of "@ + o.name@
    &&& after == Object {
        name: after.name,
        char: '%',
        color: Color::DarkRed,
        blocks: false,
        fighter: None,
        ai: None,
        ..o
    }
}

/// `after` is what `o` becomes when it dies, by its fighter's death tag.
pub open spec fn dead_form(o: Object, after: Object) -> bool {
    match o.fighter.unwrap().on_death {
        DeathCallback::Player => after == player_remains(o),
        DeathCallback::Monster => monster_remains(o, after),
    }
}

/// Taking `damage` turns `before` into `after`.
pub open spec fn damaged(before: Object, damage: int, after: Object) -> bool {
    if kills(before, damage) {
        dead_form(Object { alive: false, ..hit(before, damage) }, after)
    } else {
        after == hit(before, damage)
    }
}

/// Taking `damage` turns `before` into `after` and the log `log0` into `log1`.
pub open spec fn took_damage(before: Object, damage: int, log0: Seq<Entry>, after: Object, log1: Seq<Entry>) -> bool {
    &&& damaged(before, damage, after)
    &&& log1 == if kills(before, damage) {
        logged(log0, death_entry(Object { alive: false, ..hit(before, damage) }))
    } else {
        log0
    }
}

/// `o` credited with the experience `award`, if any.
pub open spec fn gain_xp(o: Object, award: Option<i32>) -> Object {
    match (award, o.fighter) {
        (Some(xp), Some(f)) => Object { fighter: Some(Fighter { xp: clamp_i32(f.xp + xp) as i32, ..f }), ..o },
        _ => o,
    }
}

/// The damage that `a` deals to `d`: power minus defense, derived with inventory `inv`.
pub open spec fn attack_damage(a: Object, d: Object, inv: Seq<Object>) -> int {
    derived(a, inv, LevelUpStat::Strength) - derived(d, inv, LevelUpStat::Agility)
}

/// `a0` attacking `d0` gives `a1` and `d1`, and turns the log `log0` into `log1`.
pub open spec fn attacked(
    a0: Object,
    d0: Object,
    inv: Seq<Object>,
    log0: Seq<Entry>,
    a1: Object,
    d1: Object,
    log1: Seq<Entry>,
) -> bool {
    let damage = attack_damage(a0, d0, inv);
    if damage > 0 {
        &&& took_damage(d0, damage, logged(log0, entry(MessageKind::Attack, a0.name@, d0.name@, damage)), d1, log1)
        &&& a1 == gain_xp(a0, xp_award(d0, damage))
    } else {
        &&& a1 == a0
        &&& d1 == d0
        &&& log1 == logged(log0, entry(MessageKind::NoEffect, a0.name@, d0.name@, 0))
    }
}

impl DeathCallback {
    /// Turns `object` into its dead form, as this tag says.
    pub fn callback(self, object: &mut Object, game: &mut Game)
        requires
            old(object).fighter is Some,
            old(object).fighter.unwrap().on_death == self,
        ensures
            dead_form(*old(object), *final(object)),
            old(game).same_but_log(final(game)),
            final(game).log_entries() == logged(old(game).log_entries(), death_entry(*old(object))),
    {
        match self {
            DeathCallback::Player => player_death(object, game),
            DeathCallback::Monster => monster_death(object, game),
        }
    }
}

/// The player's death: it changes look and the log says so.
pub fn player_death(player: &mut Object, game: &mut Game)
    requires
        old(player).fighter is Some,
    ensures
        *final(player) == player_remains(*old(player)),
        old(game).same_but_log(final(game)),
        final(game).log_entries() == logged(
            old(game).log_entries(),
            entry(MessageKind::PlayerDied, Seq::empty(), Seq::empty(), 0),
        ),
{
    message(&mut game.log, Message::plain(MessageKind::PlayerDied));
    player.char = '%';
    player.color = Color::DarkRed;
}

/// A monster's death: it becomes a corpse that nothing blocks on and that never acts.
pub fn monster_death(monster: &mut Object, game: &mut Game)
    requires
        old(monster).fighter is Some,
    ensures
        monster_remains(*old(monster), *final(monster)),
        old(game).same_but_log(final(game)),
        final(game).log_entries() == logged(
            old(game).log_entries(),
            entry(MessageKind::MonsterDied, old(monster).name@, Seq::empty(), old(monster).fighter.unwrap().xp as int),
        ),
{
    let xp: i32 = match monster.fighter {
        Some(f) => f.xp,
        None => 0,
    };
    message(&mut game.log, Message::new(MessageKind::MonsterDied, monster.name.as_str(), "", xp as i64));
    proof {
        reveal_strlit("");
        assert(""@ =~= Seq::<char>::empty());
    }
    monster.char = '%';
    monster.color = Color::DarkRed;
    monster.blocks = false;
    monster.fighter = None;
    monster.ai = None;
    let mut name = String::from_str("remains of ");
    name.append(monster.name.as_str());
    monster.name = name;
}

impl Object {
    /// Takes `damage` hit points if it is positive. When that brings the hit points of a
    /// living fighter to 0 or below, the entity dies (once: a dead one stays as it is)
    /// and the fighter's experience value is returned.
    pub fn take_damage(&mut self, damage: i64, game: &mut Game) -> (r: Option<i32>)
        ensures
            r == xp_award(*old(self), damage as int),
            took_damage(*old(self), damage as int, old(game).log_entries(), *final(self), final(game).log_entries()),
            old(game).same_but_log(final(game)),
    {
        if let Some(mut f) = self.fighter {
            if damage > 0 {
                f.hp = saturate(f.hp as i128 - damage as i128);
                self.fighter = Some(f);
            }
            if f.hp <= 0 && self.alive {
                self.alive = false;
                f.on_death.callback(self, game);
                return Some(f.xp);
            }
        }
        None
    }

    /// Attacks `target`: power minus the target's defense is dealt as damage when it is
    /// positive, and the experience of a kill goes to the attacker.
    pub fn attack(&mut self, target: &mut Object, game: &mut Game)
        requires
            old(game).inventory@.len() <= MAX_INVENTORY_SIZE,
        ensures
            attacked(
                *old(self),
                *old(target),
                old(game).inventory@,
                old(game).log_entries(),
                *final(self),
                *final(target),
                final(game).log_entries(),
            ),
            old(game).same_but_log(final(game)),
    {
        proof {
            lemma_derived_bound(*self, game.inventory@, LevelUpStat::Strength);
            lemma_derived_bound(*target, game.inventory@, LevelUpStat::Agility);
        }
        let damage: i64 = self.power(game) - target.defense(game);
        if damage > 0 {
            message(&mut game.log, Message::new(MessageKind::Attack, self.name.as_str(), target.name.as_str(), damage));
            let award = target.take_damage(damage, game);
            self.gain_xp(award);
        } else {
            message(&mut game.log, Message::new(MessageKind::NoEffect, self.name.as_str(), target.name.as_str(), 0));
        }
    }

    /// Credits the experience `award`, if any, to this entity's fighter.
    pub fn gain_xp(&mut self, award: Option<i32>)
        ensures
            *final(self) == gain_xp(*old(self), award),
    {
        if let Some(xp) = award {
            if let Some(mut f) = self.fighter {
                f.xp = saturate(f.xp as i128 + xp as i128);
                self.fighter = Some(f);
            }
        }
    }
}

/// Hit points after healing by `amount`, capped at `max`.
pub open spec fn healed_hp(hp: i32, amount: i32, max: int) -> int {
    clamp_i32(if hp + amount > max { max } else { hp + amount })
}

/// `o` healed by `amount`, up to `max` hit points.
pub open spec fn healed(o: Object, amount: i32, max: int) -> Object {
    match o.fighter {
        Some(f) => Object { fighter: Some(Fighter { hp: healed_hp(f.hp, amount, max) as i32, ..f }), ..o },
        None => o,
    }
}

/// What `equip` does to an entity, and the entry it logs, if any.
pub open spec fn equipped_form(o: Object) -> (Object, Option<Entry>) {
    match (o.item, o.equipment) {
        (Some(_), Some(e)) => if e.equipped {
            (o, None)
        } else {
            (
                Object { equipment: Some(Equipment { equipped: true, ..e }), ..o },
                Some(entry(MessageKind::Equipped, o.name@, slot_label(e.slot), 0)),
            )
        },
        _ => (o, Some(entry(MessageKind::NotEquipment, o.name@, Seq::empty(), 0))),
    }
}

/// What `dequip` does to an entity, and the entry it logs, if any.
pub open spec fn dequipped_form(o: Object) -> (Object, Option<Entry>) {
    match o.equipment {
        Some(e) => if !e.equipped {
            (o, None)
        } else {
            (
                Object { equipment: Some(Equipment { equipped: false, ..e }), ..o },
                Some(entry(MessageKind::Dequipped, o.name@, slot_label(e.slot), 0)),
            )
        },
        None => (o, Some(entry(MessageKind::NotEquipment, o.name@, Seq::empty(), 0))),
    }
}

/// The log `log` after the entry `e`, if any.
pub open spec fn log_opt(log: Seq<Entry>, e: Option<Entry>) -> Seq<Entry> {
    match e {
        Some(e) => logged(log, e),
        None => log,
    }
}

impl Object {
    /// Restores `amount` hit points, up to the derived maximum.
    pub fn heal(&mut self, amount: i32, game: &Game)
        requires
            game.inventory@.len() <= MAX_INVENTORY_SIZE,
        ensures
            *final(self) == healed(*old(self), amount, derived(*old(self), game.inventory@, LevelUpStat::Constitution)),
    {
        let max_hp = self.max_hp(game);
        if let Some(mut f) = self.fighter {
            let mut hp: i64 = f.hp as i64 + amount as i64;
            if hp > max_hp {
                hp = max_hp;
            }
            proof { lemma_derived_bound(*self, game.inventory@, LevelUpStat::Constitution); }
            f.hp = saturate(hp as i128);
            self.fighter = Some(f);
        }
    }

    /// Marks the equipment as worn. Something that is not an equippable item is
    /// left as it is, with a log entry saying so.
    pub fn equip(&mut self, log: &mut Messages)
        ensures
            *final(self) == equipped_form(*old(self)).0,
            log_view(final(log)@) == log_opt(log_view(old(log)@), equipped_form(*old(self)).1),
    {
        if self.item.is_none() {
            message(log, Message::about(MessageKind::NotEquipment, self.name.as_str()));
            return;
        }
        if let Some(mut e) = self.equipment {
            if !e.equipped {
                e.equipped = true;
                self.equipment = Some(e);
                message(log, Message::new(MessageKind::Equipped, self.name.as_str(), e.slot.label(), 0));
            }
        } else {
            message(log, Message::about(MessageKind::NotEquipment, self.name.as_str()));
        }
    }

    /// Marks the equipment as no longer worn, whatever kind of entity wears it. An
    /// entity without equipment is left as it is, with a log entry saying so.
    pub fn dequip(&mut self, log: &mut Messages)
        ensures
            *final(self) == dequipped_form(*old(self)).0,
            log_view(final(log)@) == log_opt(log_view(old(log)@), dequipped_form(*old(self)).1),
    {
        if let Some(mut e) = self.equipment {
            if e.equipped {
                e.equipped = false;
                self.equipment = Some(e);
                message(log, Message::new(MessageKind::Dequipped, self.name.as_str(), e.slot.label(), 0));
            }
        } else {
            message(log, Message::about(MessageKind::NotEquipment, self.name.as_str()));
        }
    }
}

/// An attack leaves who is the player, and where everybody stands, as they were.
pub proof fn lemma_attacked_keeps(
    a0: Object,
    d0: Object,
    inv: Seq<Object>,
    log0: Seq<Entry>,
    a1: Object,
    d1: Object,
    log1: Seq<Entry>,
)
    requires
        attacked(a0, d0, inv, log0, a1, d1, log1),
    ensures
        a1.is_player == a0.is_player && a1.x == a0.x && a1.y == a0.y && a1.ai == a0.ai,
        d1.is_player == d0.is_player && d1.x == d0.x && d1.y == d0.y,
{
}

} // verus!
