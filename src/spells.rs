use vstd::prelude::*;
use crate::config::{
    CONFUSE_NUM_TURNS, FIREBALL_DAMAGE, FIREBALL_RADIUS, HEAL_AMOUNT, LIGHTNING_DAMAGE, LIGHTNING_RANGE, PLAYER,
};
use crate::game::Game;
use crate::inventory::{toggle_equipment, toggle_log, toggled, UseResult};
use crate::manager::ObjectsManager;
use crate::map::{is_in_fov, visible, Fov};
use crate::messages::{entry, logged, message, Entry, Message, MessageKind};
use crate::object::{
    clamp_i32, damaged, death_entry, derived, gain_xp, healed, hit, kills, took_damage, xp_award, Ai, Item,
    LevelUpStat, Object,
};

verus! {

/// Entity `i` is a monster the player can see: not the player, with a fighter and a
/// behaviour, on a cell in view.
pub open spec fn is_target(objs: Seq<Object>, fov: &Fov, i: int) -> bool {
    &&& i != PLAYER
    &&& objs[i].fighter is Some
    &&& objs[i].ai is Some
    &&& visible(fov, objs[i].x as int, objs[i].y as int)
}

/// The square of the distance from the player to entity `i`.
pub open spec fn player_dist(objs: Seq<Object>, i: int) -> int {
    objs[PLAYER as int].spec_distance_sq(objs[i].x as int, objs[i].y as int)
}

/// A squared distance `d` lies below `max_range + 1`.
pub open spec fn in_reach(d: int, max_range: int) -> bool {
    max_range + 1 > 0 && d < (max_range + 1) * (max_range + 1)
}

/// Entity `i` is the nearest target in reach; of equally near ones, the first.
pub open spec fn is_closest(objs: Seq<Object>, fov: &Fov, max_range: int, i: int) -> bool {
    &&& 0 <= i < objs.len()
    &&& is_target(objs, fov, i)
    &&& in_reach(player_dist(objs, i), max_range)
    &&& forall|j: int| 0 <= j < objs.len() && is_target(objs, fov, j) ==> player_dist(objs, i) <= #[trigger] player_dist(objs, j)
    &&& forall|j: int| 0 <= j < i && is_target(objs, fov, j) ==> player_dist(objs, i) < #[trigger] player_dist(objs, j)
}

/// No target is in reach.
pub open spec fn none_in_reach(objs: Seq<Object>, fov: &Fov, max_range: int) -> bool {
    forall|j: int| 0 <= j < objs.len() && is_target(objs, fov, j) ==> !in_reach(#[trigger] player_dist(objs, j), max_range)
}

/// The nearest monster in view within `max_range`; see `is_closest`.
pub fn closest_monster(max_range: i32, object_manager: &ObjectsManager, fov: &Fov) -> (r: Option<usize>)
    requires
        object_manager.wf(),
    ensures
        r matches Some(i) ==> is_closest(object_manager.objects@, fov, max_range as int, i as int),
        r is None ==> none_in_reach(object_manager.objects@, fov, max_range as int),
{
    let ghost objs = object_manager.objects@;
    let reach: i128 = max_range as i128 + 1;
    let mut closest: Option<usize> = None;
    assert(0 <= reach * reach <= 0x1_0000_0000 * 0x1_0000_0000) by (nonlinear_arith)
        requires -0x1_0000_0000 <= reach <= 0x1_0000_0000;
    let mut closest_dist: i128 = reach * reach;
    let mut id: usize = 0;
    while id < object_manager.objects.len()
        invariant
            objs == object_manager.objects@,
            objs.len() > PLAYER,
            id <= objs.len(),
            reach == max_range + 1,
            closest is None ==> closest_dist == reach * reach,
            closest is None ==> forall|j: int| 0 <= j < id && is_target(objs, fov, j) ==> !in_reach(#[trigger] player_dist(objs, j), max_range as int),
            closest matches Some(c) ==> c < id && is_target(objs, fov, c as int) && in_reach(player_dist(objs, c as int), max_range as int)
                && closest_dist == player_dist(objs, c as int)
                && (forall|j: int| 0 <= j < id && is_target(objs, fov, j) ==> closest_dist <= #[trigger] player_dist(objs, j))
                && (forall|j: int| 0 <= j < c && is_target(objs, fov, j) ==> closest_dist < #[trigger] player_dist(objs, j)),
        decreases objs.len() - id,
    {
        let o = &object_manager.objects[id];
        if id != PLAYER && o.fighter.is_some() && o.ai.is_some() && is_in_fov(fov, o.x, o.y) {
            let dist = object_manager.objects[PLAYER].distance_sq_to(o);
            if dist < closest_dist && (closest.is_some() || reach > 0) {
                closest = Some(id);
                closest_dist = dist;
            }
        }
        id = id + 1;
    }
    closest
}

/// Healing turns the store `o0` into `o1` and the log `l0` into `l1`, with result `r`;
/// `inv` is the inventory.
pub open spec fn heal_done(
    o0: Seq<Object>,
    inv: Seq<Object>,
    l0: Seq<Entry>,
    o1: Seq<Object>,
    l1: Seq<Entry>,
    r: UseResult,
) -> bool {
    let p = o0[PLAYER as int];
    let max = derived(p, inv, LevelUpStat::Constitution);
    match p.fighter {
        None => r == UseResult::Cancelled && o1 == o0 && l1 == l0,
        Some(f) => if f.hp == max {
            &&& r == UseResult::Cancelled
            &&& o1 == o0
            &&& l1 == logged(l0, entry(MessageKind::FullHealth, Seq::empty(), Seq::empty(), 0))
        } else {
            &&& r == UseResult::UsedUp
            &&& o1 == o0.update(PLAYER as int, healed(p, HEAL_AMOUNT, max))
            &&& l1 == logged(l0, entry(MessageKind::Healed, Seq::empty(), Seq::empty(), 0))
        },
    }
}

/// Heals the player by `HEAL_AMOUNT`, unless it is already at full health.
pub fn cast_heal(_inventory_id: usize, object_manager: &mut ObjectsManager, game: &mut Game) -> (r: UseResult)
    requires
        old(object_manager).wf(),
        old(game).wf(),
    ensures
        old(game).same_but_log(final(game)),
        final(object_manager).wf(),
        heal_done(
            old(object_manager).objects@,
            old(game).inventory@,
            old(game).log_entries(),
            final(object_manager).objects@,
            final(game).log_entries(),
            r,
        ),
{
    let max_hp = object_manager.objects[PLAYER].max_hp(game);
    if let Some(f) = object_manager.objects[PLAYER].fighter {
        if f.hp as i64 == max_hp {
            message(&mut game.log, Message::plain(MessageKind::FullHealth));
            return UseResult::Cancelled;
        }
        message(&mut game.log, Message::plain(MessageKind::Healed));
        object_manager.objects[PLAYER].heal(HEAL_AMOUNT, game);
        return UseResult::UsedUp;
    }
    UseResult::Cancelled
}

/// The lightning spell turns the store `o0` into `o1` and the log `l0` into `l1`,
/// with result `r`.
pub open spec fn lightning_done(
    o0: Seq<Object>,
    fov: &Fov,
    l0: Seq<Entry>,
    o1: Seq<Object>,
    l1: Seq<Entry>,
    r: UseResult,
) -> bool {
    &&& none_in_reach(o0, fov, LIGHTNING_RANGE as int) ==> r == UseResult::Cancelled && o1 == o0
        && l1 == logged(l0, entry(MessageKind::NoEnemyClose, Seq::empty(), Seq::empty(), 0))
    &&& forall|m: int| #[trigger] is_closest(o0, fov, LIGHTNING_RANGE as int, m) ==> {
        &&& r == UseResult::UsedUp
        &&& o1.len() == o0.len()
        &&& took_damage(
            o0[m],
            LIGHTNING_DAMAGE as int,
            logged(l0, entry(MessageKind::Lightning, o0[m].name@, Seq::empty(), LIGHTNING_DAMAGE as int)),
            o1[m],
            l1,
        )
        &&& o1[PLAYER as int] == gain_xp(o0[PLAYER as int], xp_award(o0[m], LIGHTNING_DAMAGE as int))
        &&& forall|i: int| 0 <= i < o0.len() && i != m && i != PLAYER ==> o1[i] == o0[i]
    }
}

/// Strikes the nearest monster in view within `LIGHTNING_RANGE` for `LIGHTNING_DAMAGE`;
/// the player gains the experience of a kill.
pub fn cast_lightning(_inventory_id: usize, object_manager: &mut ObjectsManager, game: &mut Game, fov: &Fov) -> (r: UseResult)
    requires
        old(object_manager).wf(),
        old(game).wf(),
    ensures
        old(game).same_but_log(final(game)),
        final(object_manager).wf(),
        lightning_done(
            old(object_manager).objects@,
            fov,
            old(game).log_entries(),
            final(object_manager).objects@,
            final(game).log_entries(),
            r,
        ),
{
    let ghost o0 = object_manager.objects@;
    match closest_monster(LIGHTNING_RANGE, object_manager, fov) {
        Some(m) => {
            message(&mut game.log, Message::new(MessageKind::Lightning, object_manager.objects[m].name.as_str(), "", LIGHTNING_DAMAGE as i64));
            proof {
                reveal_strlit("");
                assert(""@ =~= Seq::<char>::empty());
            }
            let award = object_manager.objects[m].take_damage(LIGHTNING_DAMAGE as i64, game);
            object_manager.objects[PLAYER].gain_xp(award);
            proof {
                assert forall|k: int| #[trigger] is_closest(o0, fov, LIGHTNING_RANGE as int, k) implies k == m by {
                    if k < m {
                        assert(player_dist(o0, m as int) <= player_dist(o0, k));
                    } else if k > m {
                        assert(player_dist(o0, k) <= player_dist(o0, m as int));
                    }
                }
            }
            UseResult::UsedUp
        },
        None => {
            message(&mut game.log, Message::plain(MessageKind::NoEnemyClose));
            UseResult::Cancelled
        },
    }
}

/// The behaviour `ai` wrapped in confusion for `CONFUSE_NUM_TURNS` counts; an entity
/// without behaviour is taken to have the basic one.
pub open spec fn confused_ai(ai: Option<Ai>) -> Ai {
    Ai::Confused {
        previous_ai: Box::new(match ai { Some(a) => a, None => Ai::Basic }),
        num_turns: CONFUSE_NUM_TURNS,
    }
}

/// The confusion spell on `target` turns the store `o0` into `o1` and the log `l0`
/// into `l1`, with result `r`.
pub open spec fn confuse_done(
    o0: Seq<Object>,
    target: Option<usize>,
    l0: Seq<Entry>,
    o1: Seq<Object>,
    l1: Seq<Entry>,
    r: UseResult,
) -> bool {
    match target {
        None => r == UseResult::Cancelled && o1 == o0
            && l1 == logged(l0, entry(MessageKind::NoEnemyClose, Seq::empty(), Seq::empty(), 0)),
        Some(m) => {
            let o = o0[m as int];
            &&& r == UseResult::UsedUp
            &&& o1 == o0.update(m as int, Object { ai: Some(confused_ai(o.ai)), ..o })
            &&& l1 == logged(l0, entry(MessageKind::Confused, o.name@, Seq::empty(), 0))
        },
    }
}

/// Confuses entity `target`, chosen by the player, or is cancelled when none was chosen.
pub fn cast_confuse(
    _inventory_id: usize,
    object_manager: &mut ObjectsManager,
    game: &mut Game,
    target: Option<usize>,
) -> (r: UseResult)
    requires
        old(object_manager).wf(),
        target matches Some(m) ==> PLAYER < m < old(object_manager).objects@.len(),
    ensures
        old(game).same_but_log(final(game)),
        final(object_manager).wf(),
        confuse_done(
            old(object_manager).objects@,
            target,
            old(game).log_entries(),
            final(object_manager).objects@,
            final(game).log_entries(),
            r,
        ),
{
    match target {
        Some(m) => {
            let ghost o0 = object_manager.objects@;
            let old_ai = object_manager.objects[m].ai.take().unwrap_or(Ai::Basic);
            object_manager.objects[m].ai = Some(Ai::Confused { previous_ai: Box::new(old_ai), num_turns: CONFUSE_NUM_TURNS });
            assert(object_manager.objects@ =~= o0.update(m as int, Object { ai: Some(confused_ai(o0[m as int].ai)), ..o0[m as int] }));
            message(&mut game.log, Message::about(MessageKind::Confused, object_manager.objects[m].name.as_str()));
            UseResult::UsedUp
        },
        None => {
            message(&mut game.log, Message::plain(MessageKind::NoEnemyClose));
            UseResult::Cancelled
        },
    }
}

/// The entity can fight and stands within `FIREBALL_RADIUS` of `(x, y)`.
pub open spec fn in_blast(o: Object, x: int, y: int) -> bool {
    o.fighter is Some && o.spec_distance_sq(x, y) <= FIREBALL_RADIUS * FIREBALL_RADIUS
}

/// The experience the player gains from a fireball at `(x, y)` from the first `n`
/// entities: the awards of the fighters other than the player that it kills, added up
/// in store order, each sum held within `i32`.
pub open spec fn blast_xp(o0: Seq<Object>, x: int, y: int, n: int) -> int
    decreases n,
{
    if n <= 0 {
        0
    } else {
        let before = blast_xp(o0, x, y, n - 1);
        let o = o0[n - 1];
        if n - 1 != PLAYER && in_blast(o, x, y) && kills(o, FIREBALL_DAMAGE as int) {
            clamp_i32(before + o.fighter.unwrap().xp)
        } else {
            before
        }
    }
}

/// The log `l` after a fireball at `(x, y)` burned the first `n` entities: for each
/// fighter in the blast, in store order, an entry that it burns, then one for its death
/// if the blast kills it.
pub open spec fn blast_log(o0: Seq<Object>, x: int, y: int, n: int, l: Seq<Entry>) -> Seq<Entry>
    decreases n,
{
    if n <= 0 {
        l
    } else {
        let before = blast_log(o0, x, y, n - 1, l);
        let o = o0[n - 1];
        if in_blast(o, x, y) {
            let burned = logged(before, entry(MessageKind::Burned, o.name@, Seq::empty(), FIREBALL_DAMAGE as int));
            if kills(o, FIREBALL_DAMAGE as int) {
                logged(burned, death_entry(Object { alive: false, ..hit(o, FIREBALL_DAMAGE as int) }))
            } else {
                burned
            }
        } else {
            before
        }
    }
}

/// The fireball aimed at `target` turns the store `o0` into `o1` and the log `l0` into
/// `l1`, with result `r`.
pub open spec fn fireball_done(
    o0: Seq<Object>,
    target: Option<(i32, i32)>,
    l0: Seq<Entry>,
    o1: Seq<Object>,
    l1: Seq<Entry>,
    r: UseResult,
) -> bool {
    &&& o1.len() == o0.len()
    &&& match target {
        None => r == UseResult::Cancelled && o1 == o0 && l1 == l0,
        Some((x, y)) => {
            &&& r == UseResult::UsedUp
            &&& forall|i: int| 0 <= i < o0.len() && i != PLAYER ==> if in_blast(#[trigger] o0[i], x as int, y as int) {
                damaged(o0[i], FIREBALL_DAMAGE as int, o1[i])
            } else {
                o1[i] == o0[i]
            }
            &&& exists|p: Object| o1[PLAYER as int] == #[trigger] gain_xp(
                p,
                Some(blast_xp(o0, x as int, y as int, o0.len() as int) as i32),
            ) && if in_blast(o0[PLAYER as int], x as int, y as int) {
                damaged(o0[PLAYER as int], FIREBALL_DAMAGE as int, p)
            } else {
                p == o0[PLAYER as int]
            }
            &&& l1 == blast_log(
                o0,
                x as int,
                y as int,
                o0.len() as int,
                logged(l0, entry(MessageKind::Fireball, Seq::empty(), Seq::empty(), FIREBALL_RADIUS as int)),
            )
        },
    }
}

/// Burns every fighter within `FIREBALL_RADIUS` of the chosen cell for `FIREBALL_DAMAGE`,
/// the player included; the player gains the experience of every other kill. Without a
/// chosen cell it is cancelled.
pub fn cast_fireball(
    _inventory_id: usize,
    object_manager: &mut ObjectsManager,
    game: &mut Game,
    target: Option<(i32, i32)>,
) -> (r: UseResult)
    requires
        old(object_manager).wf(),
    ensures
        old(game).same_but_log(final(game)),
        final(object_manager).wf(),
        target is None ==> *final(game) == *old(game),
        fireball_done(
            old(object_manager).objects@,
            target,
            old(game).log_entries(),
            final(object_manager).objects@,
            final(game).log_entries(),
            r,
        ),
{
    let (x, y) = match target {
        Some(t) => t,
        None => return UseResult::Cancelled,
    };
    message(&mut game.log, Message::new(MessageKind::Fireball, "", "", FIREBALL_RADIUS as i64));
    proof {
        reveal_strlit("");
        assert(""@ =~= Seq::<char>::empty());
    }
    let ghost o0 = object_manager.objects@;
    let ghost l_start = game.log_entries();
    let mut xp_to_gain: i32 = 0;
    let n = object_manager.objects.len();
    let mut id: usize = 0;
    while id < n
        invariant
            n == o0.len() == object_manager.objects@.len(),
            o0.len() > PLAYER,
            id <= n,
            old(game).same_but_log(game),
            xp_to_gain == blast_xp(o0, x as int, y as int, id as int),
            game.log_entries() == blast_log(o0, x as int, y as int, id as int, l_start),
            forall|i: int| id <= i < n ==> object_manager.objects@[i] == o0[i],
            forall|i: int| 0 <= i < id ==> if in_blast(#[trigger] o0[i], x as int, y as int) {
                damaged(o0[i], FIREBALL_DAMAGE as int, object_manager.objects@[i])
            } else {
                object_manager.objects@[i] == o0[i]
            },
        decreases n - id,
    {
        let burn = object_manager.objects[id].distance_sq(x, y) <= (FIREBALL_RADIUS * FIREBALL_RADIUS) as i128
            && object_manager.objects[id].fighter.is_some();
        if burn {
            message(&mut game.log, Message::new(MessageKind::Burned, object_manager.objects[id].name.as_str(), "", FIREBALL_DAMAGE as i64));
            proof {
                reveal_strlit("");
                assert(""@ =~= Seq::<char>::empty());
            }
            if let Some(xp) = object_manager.objects[id].take_damage(FIREBALL_DAMAGE as i64, game) {
                if id != PLAYER {
                    xp_to_gain = crate::object::saturate(xp_to_gain as i128 + xp as i128);
                }
            }
        }
        id = id + 1;
    }
    let ghost p = object_manager.objects@[PLAYER as int];
    object_manager.objects[PLAYER].gain_xp(Some(xp_to_gain));
    proof {
        let o1 = object_manager.objects@;
        assert(o1[PLAYER as int] == gain_xp(p, Some(xp_to_gain)));
    }
    UseResult::UsedUp
}

/// Using the item `item` at inventory index `id` turns the store `o0`, inventory `inv0`
/// and log `l0` into `o1`, `inv1` and `l1`, with result `r`, before a spent item is
/// removed.
pub open spec fn dispatched(
    item: Item,
    id: int,
    o0: Seq<Object>,
    inv0: Seq<Object>,
    l0: Seq<Entry>,
    fov: &Fov,
    confuse_target: Option<usize>,
    fireball_target: Option<(i32, i32)>,
    o1: Seq<Object>,
    inv1: Seq<Object>,
    l1: Seq<Entry>,
    r: UseResult,
) -> bool {
    match item {
        Item::Heal => heal_done(o0, inv0, l0, o1, l1, r) && inv1 == inv0,
        Item::Lightning => lightning_done(o0, fov, l0, o1, l1, r) && inv1 == inv0,
        Item::Confuse => confuse_done(o0, confuse_target, l0, o1, l1, r) && inv1 == inv0,
        Item::Fireball => fireball_done(o0, fireball_target, l0, o1, l1, r) && inv1 == inv0,
        Item::Sword | Item::Shield => {
            &&& o1 == o0
            &&& inv0[id].equipment is None ==> r == UseResult::Cancelled && inv1 == inv0 && l1 == l0
            &&& inv0[id].equipment is Some ==> r == UseResult::UsedAndKept && inv1 == toggled(inv0, id)
                && l1 == toggle_log(inv0, id, l0)
        },
    }
}

/// Uses inventory item `inventory_id`. Healing, lightning, confusion and fireball spells
/// are spent when they take effect; equipment is put on or taken off and kept. The
/// player's choices are passed in: the monster to confuse and the cell to aim a
/// fireball at (`None` when the player cancelled).
pub fn use_item(
    inventory_id: usize,
    object_manager: &mut ObjectsManager,
    game: &mut Game,
    fov: &Fov,
    confuse_target: Option<usize>,
    fireball_target: Option<(i32, i32)>,
)
    requires
        old(object_manager).wf(),
        old(game).wf(),
        inventory_id < old(game).inventory@.len(),
        confuse_target matches Some(m) ==> PLAYER < m < old(object_manager).objects@.len(),
    ensures
        final(object_manager).wf(),
        final(game).wf(),
        final(game).map == old(game).map,
        final(game).dungeon_level == old(game).dungeon_level,
        old(game).inventory@[inventory_id as int].item is None ==> {
            &&& final(object_manager).objects@ == old(object_manager).objects@
            &&& final(game).inventory@ == old(game).inventory@
            &&& final(game).log_entries() == logged(
                old(game).log_entries(),
                entry(MessageKind::CannotUse, old(game).inventory@[inventory_id as int].name@, Seq::empty(), 0),
            )
        },
        old(game).inventory@[inventory_id as int].item matches Some(k) ==> exists|
            o1: Seq<Object>,
            inv1: Seq<Object>,
            l1: Seq<Entry>,
            r: UseResult,
        | {
            &&& #[trigger] dispatched(
                k,
                inventory_id as int,
                old(object_manager).objects@,
                old(game).inventory@,
                old(game).log_entries(),
                fov,
                confuse_target,
                fireball_target,
                o1,
                inv1,
                l1,
                r,
            )
            &&& final(object_manager).objects@ == o1
            &&& final(game).inventory@ == if r == UseResult::UsedUp { inv1.remove(inventory_id as int) } else { inv1 }
            &&& final(game).log_entries() == if r == UseResult::Cancelled {
                logged(l1, entry(MessageKind::Cancelled, Seq::empty(), Seq::empty(), 0))
            } else {
                l1
            }
        },
{
    let ghost o0 = object_manager.objects@;
    let ghost inv0 = game.inventory@;
    let ghost l0 = game.log_entries();
    let kind = match game.inventory[inventory_id].item {
        Some(k) => k,
        None => {
            message(&mut game.log, Message::about(MessageKind::CannotUse, game.inventory[inventory_id].name.as_str()));
            return;
        },
    };
    let r = match kind {
        Item::Heal => cast_heal(inventory_id, object_manager, game),
        Item::Lightning => cast_lightning(inventory_id, object_manager, game, fov),
        Item::Confuse => cast_confuse(inventory_id, object_manager, game, confuse_target),
        Item::Fireball => cast_fireball(inventory_id, object_manager, game, fireball_target),
        Item::Sword | Item::Shield => toggle_equipment(inventory_id, object_manager, game),
    };
    let ghost o1 = object_manager.objects@;
    let ghost inv1 = game.inventory@;
    let ghost l1 = game.log_entries();
    assert(dispatched(kind, inventory_id as int, o0, inv0, l0, fov, confuse_target, fireball_target, o1, inv1, l1, r));
    match r {
        UseResult::UsedUp => {
            game.inventory.remove(inventory_id);
        },
        UseResult::UsedAndKept => {},
        UseResult::Cancelled => {
            message(&mut game.log, Message::plain(MessageKind::Cancelled));
        },
    }
}

} // verus!
