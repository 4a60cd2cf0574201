use vstd::prelude::*;
use crate::config::{MAP_HEIGHT, MAP_WIDTH, MAX_INVENTORY_SIZE, PLAYER};
use crate::game::Game;
use crate::map::{blocked_at, in_bounds, is_blocked, is_in_fov, map_wf, visible, Fov, TileMap};
use crate::messages::{entry, logged, message, Entry, Message, MessageKind};
use crate::object::{attacked, lemma_attacked_keeps, Ai, Color, Object};
use crate::random::random_range;

verus! {

/// The entity store. The player is at index `PLAYER` and is never removed.
#[derive(Debug, PartialEq, Eq)]
pub struct ObjectsManager {
    pub objects: Vec<Object>,
}

/// `objs` after entity `id` tries to step by `(dx, dy)`: it moves when the new cell is
/// on the map and not blocked.
pub open spec fn moved(objs: Seq<Object>, map: &TileMap, id: int, dx: int, dy: int) -> Seq<Object> {
    let nx = objs[id].x + dx;
    let ny = objs[id].y + dy;
    if in_bounds(nx, ny) && !blocked_at(map, objs, nx, ny) {
        objs.update(id, Object { x: nx as i32, y: ny as i32, ..objs[id] })
    } else {
        objs
    }
}

/// Step along one axis toward a target at offset `(a, b)`: the rounded component of the
/// unit vector, with the distance taken over both deltas. It is the sign of `a` when
/// `|a| / sqrt(a*a + b*b) >= 1/2`, that is `3*a*a >= b*b`, and 0 otherwise.
pub open spec fn unit_step(a: int, b: int) -> int {
    if a != 0 && 3 * (a * a) >= b * b {
        if a > 0 { 1 } else { -1 }
    } else {
        0
    }
}

/// The entity stands on `(x, y)` and can fight.
pub open spec fn fighter_on(o: Object, x: int, y: int) -> bool {
    o.fighter is Some && o.x == x && o.y == y
}

/// The first entity of `objs` that stands on `(x, y)` and can fight.
pub open spec fn first_fighter_at(objs: Seq<Object>, x: int, y: int) -> Option<int>
    decreases objs.len(),
{
    if objs.len() == 0 {
        None
    } else {
        match first_fighter_at(objs.drop_last(), x, y) {
            Some(i) => Some(i),
            None => if fighter_on(objs.last(), x, y) { Some(objs.len() - 1) } else { None },
        }
    }
}

/// `o1` is `o0` after entity `a` attacked entity `d`, all others unchanged.
pub open spec fn pair_attacked(
    o0: Seq<Object>,
    o1: Seq<Object>,
    a: int,
    d: int,
    inv: Seq<Object>,
    log0: Seq<Entry>,
    log1: Seq<Entry>,
) -> bool {
    &&& o1.len() == o0.len()
    &&& attacked(o0[a], o0[d], inv, log0, o1[a], o1[d], log1)
    &&& forall|i: int| 0 <= i < o0.len() && i != a && i != d ==> o1[i] == o0[i]
}

/// The behaviour that follows `ai` after one turn. A confused entity counts down
/// while its counter is at least 0, then goes back to its earlier behaviour.
pub open spec fn next_ai(ai: Ai) -> Ai {
    match ai {
        Ai::Basic => Ai::Basic,
        Ai::Confused { previous_ai, num_turns } => if num_turns >= 0 {
            Ai::Confused { previous_ai, num_turns: (num_turns - 1) as i32 }
        } else {
            *previous_ai
        },
    }
}

/// An entity's behaviour after its turn; one without behaviour does not act.
pub open spec fn ai_step(ai: Option<Ai>) -> Option<Ai> {
    match ai {
        Some(a) => Some(next_ai(a)),
        None => None,
    }
}

/// One turn of entity `id` turns the store `o0` into `o1` and the log `l0` into `l1`,
/// with map `map`, view `fov` and inventory `inv`: by its behaviour, if it has one.
pub open spec fn took_turn(
    o0: Seq<Object>,
    l0: Seq<Entry>,
    o1: Seq<Object>,
    l1: Seq<Entry>,
    id: int,
    map: &TileMap,
    fov: &Fov,
    inv: Seq<Object>,
) -> bool {
    &&& o1.len() == o0.len()
    &&& match o0[id].ai {
        None => o1 == o0 && l1 == l0,
        Some(a) => if a == Ai::Basic {
            basic_turn(o0, o1, id, map, fov, inv, l0, l1)
        } else if walks(a) {
            l1 == l0 && exists|dx: int, dy: int| -1 <= dx <= 1 && -1 <= dy <= 1
                && o1 == with_ai(#[trigger] moved(o0, map, id, dx, dy), id, Some(next_ai(a)))
        } else {
            &&& o1 == with_ai(o0, id, Some(next_ai(a)))
            &&& l1 == logged(l0, entry(MessageKind::NoLongerConfused, o0[id].name@, Seq::empty(), 0))
        },
    }
}

/// In this turn the entity takes a random step.
pub open spec fn walks(ai: Ai) -> bool {
    ai matches Ai::Confused { num_turns, .. } && num_turns >= 0
}

/// `objs` with the behaviour of entity `id` replaced by `ai`.
pub open spec fn with_ai(objs: Seq<Object>, id: int, ai: Option<Ai>) -> Seq<Object> {
    objs.update(id, Object { ai, ..objs[id] })
}

/// One turn of the basic behaviour of entity `id`: when its cell is in view it walks
/// toward the player while at distance 2 or more, and attacks it when closer.
pub open spec fn basic_turn(
    o0: Seq<Object>,
    o1: Seq<Object>,
    id: int,
    map: &TileMap,
    fov: &Fov,
    inv: Seq<Object>,
    log0: Seq<Entry>,
    log1: Seq<Entry>,
) -> bool {
    let m = o0[id];
    let p = o0[PLAYER as int];
    if visible(fov, m.x as int, m.y as int) && m.spec_distance_sq(p.x as int, p.y as int) >= 4 {
        &&& o1 == moved(o0, map, id, unit_step(p.x - m.x, p.y - m.y), unit_step(p.y - m.y, p.x - m.x))
        &&& log1 == log0
    } else if visible(fov, m.x as int, m.y as int) && id != PLAYER {
        pair_attacked(o0, o1, id, PLAYER as int, inv, log0, log1)
    } else {
        o1 == o0 && log1 == log0
    }
}

impl ObjectsManager {
    pub open spec fn wf(&self) -> bool {
        &&& self.objects@.len() > PLAYER
        &&& self.objects@[PLAYER as int].is_player
    }

    /// Moves entity `id` by `(dx, dy)` unless that leaves the map or the cell is blocked.
    pub fn move_by(&mut self, id: usize, dx: i32, dy: i32, map: &TileMap)
        requires
            id < old(self).objects@.len(),
            map_wf(map),
        ensures
            final(self).objects@ == moved(old(self).objects@, map, id as int, dx as int, dy as int),
    {
        let (x, y) = self.objects[id].pos();
        let nx: i64 = x as i64 + dx as i64;
        let ny: i64 = y as i64 + dy as i64;
        if nx < 0 || ny < 0 || nx >= MAP_WIDTH as i64 || ny >= MAP_HEIGHT as i64 {
            return;
        }
        if !is_blocked(nx as i32, ny as i32, map, self.objects.as_slice()) {
            self.objects[id].set_pos(nx as i32, ny as i32);
        }
    }

    /// Takes one step from entity `id` toward `(target_x, target_y)`; see `unit_step`.
    pub fn move_towards(&mut self, id: usize, target_x: i32, target_y: i32, map: &TileMap)
        requires
            id < old(self).objects@.len(),
            map_wf(map),
        ensures
            final(self).objects@ == moved(
                old(self).objects@,
                map,
                id as int,
                unit_step(target_x - old(self).objects@[id as int].x, target_y - old(self).objects@[id as int].y),
                unit_step(target_y - old(self).objects@[id as int].y, target_x - old(self).objects@[id as int].x),
            ),
    {
        let (x, y) = self.objects[id].pos();
        let dx: i128 = target_x as i128 - x as i128;
        let dy: i128 = target_y as i128 - y as i128;
        let sx = step_toward(dx, dy);
        let sy = step_toward(dy, dx);
        self.move_by(id, sx, sy, map);
    }

    /// The first entity that can fight and stands on `(x, y)`.
    pub fn fighter_at(&self, x: i64, y: i64) -> (r: Option<usize>)
        ensures
            r matches Some(i) ==> i < self.objects@.len() && first_fighter_at(self.objects@, x as int, y as int) == Some(i as int),
            r is None ==> first_fighter_at(self.objects@, x as int, y as int) is None,
    {
        let mut i: usize = 0;
        while i < self.objects.len()
            invariant
                i <= self.objects@.len(),
                first_fighter_at(self.objects@.subrange(0, i as int), x as int, y as int) is None,
            decreases self.objects@.len() - i,
        {
            assert(self.objects@.subrange(0, i + 1).drop_last() =~= self.objects@.subrange(0, i as int));
            let o = &self.objects[i];
            if o.fighter.is_some() && o.x as i64 == x && o.y as i64 == y {
                proof { lemma_first_fighter_prefix(self.objects@, x as int, y as int, i + 1); }
                return Some(i);
            }
            i = i + 1;
        }
        assert(self.objects@.subrange(0, i as int) =~= self.objects@);
        None
    }

    /// Entity `attacker` attacks entity `defender`. The two must differ: when they are
    /// the same entity nothing happens and `false` is returned.
    pub fn attack_by_id(&mut self, attacker: usize, defender: usize, game: &mut Game) -> (done: bool)
        requires
            attacker < old(self).objects@.len(),
            defender < old(self).objects@.len(),
            old(game).inventory@.len() <= MAX_INVENTORY_SIZE,
        ensures
            done == (attacker != defender),
            old(game).same_but_log(final(game)),
            done ==> pair_attacked(
                old(self).objects@,
                final(self).objects@,
                attacker as int,
                defender as int,
                old(game).inventory@,
                old(game).log_entries(),
                final(game).log_entries(),
            ),
            !done ==> final(self).objects@ == old(self).objects@ && *final(game) == *old(game),
    {
        if attacker == defender {
            return false;
        }
        let mut target = Object::new(0, 0, ' ', "", Color::White, false);
        std::mem::swap(&mut target, &mut self.objects[defender]);
        self.objects[attacker].attack(&mut target, game);
        std::mem::swap(&mut target, &mut self.objects[defender]);
        true
    }
}

impl ObjectsManager {
    /// The player steps by `(dx, dy)`, or attacks the first fighter standing there.
    pub fn player_move_or_attack(&mut self, dx: i32, dy: i32, game: &mut Game)
        requires
            old(self).wf(),
            old(game).wf(),
        ensures
            old(game).same_but_log(final(game)),
            ({
                let p = old(self).objects@[PLAYER as int];
                match first_fighter_at(old(self).objects@, p.x + dx, p.y + dy) {
                    Some(t) => if t != PLAYER {
                        pair_attacked(
                            old(self).objects@,
                            final(self).objects@,
                            PLAYER as int,
                            t,
                            old(game).inventory@,
                            old(game).log_entries(),
                            final(game).log_entries(),
                        )
                    } else {
                        final(self).objects@ == old(self).objects@ && *final(game) == *old(game)
                    },
                    None => final(self).objects@ == moved(old(self).objects@, &old(game).map, PLAYER as int, dx as int, dy as int)
                        && *final(game) == *old(game),
                }
            }),
    {
        let (x, y) = self.objects[PLAYER].pos();
        let target = self.fighter_at(x as i64 + dx as i64, y as i64 + dy as i64);
        match target {
            Some(t) => {
                self.attack_by_id(PLAYER, t, game);
            },
            None => {
                self.move_by(PLAYER, dx, dy, &game.map);
            },
        }
    }

    /// One turn of the basic behaviour of entity `monster_id`; see `basic_turn`.
    pub fn ai_basic(&mut self, monster_id: usize, game: &mut Game, fov: &Fov) -> (next: Ai)
        requires
            old(self).wf(),
            old(game).wf(),
            monster_id < old(self).objects@.len(),
        ensures
            next == Ai::Basic,
            final(self).wf(),
            final(self).objects@.len() == old(self).objects@.len(),
            old(game).same_but_log(final(game)),
            basic_turn(
                old(self).objects@,
                final(self).objects@,
                monster_id as int,
                &old(game).map,
                fov,
                old(game).inventory@,
                old(game).log_entries(),
                final(game).log_entries(),
            ),
    {
        let (mx, my) = self.objects[monster_id].pos();
        if is_in_fov(fov, mx, my) {
            let d = self.objects[monster_id].distance_sq_to(&self.objects[PLAYER]);
            if d >= 4 {
                let (px, py) = self.objects[PLAYER].pos();
                self.move_towards(monster_id, px, py, &game.map);
            } else {
                let ghost o0 = self.objects@;
                let ghost g0 = game.log_entries();
                if self.attack_by_id(monster_id, PLAYER, game) {
                    proof {
                        lemma_attacked_keeps(o0[monster_id as int], o0[PLAYER as int], game.inventory@, g0,
                            self.objects@[monster_id as int], self.objects@[PLAYER as int], game.log_entries());
                    }
                }
            }
        }
        Ai::Basic
    }

    /// One turn of a confused entity, whose random step `(dx, dy)` has been drawn: while
    /// the counter is at least 0 it steps and counts down, after that it goes back to
    /// `previous_ai` and the log says so.
    pub fn confused_step(
        &mut self,
        monster_id: usize,
        game: &mut Game,
        previous_ai: Box<Ai>,
        num_turns: i32,
        dx: i32,
        dy: i32,
    ) -> (next: Ai)
        requires
            monster_id < old(self).objects@.len(),
            map_wf(&old(game).map),
        ensures
            next == next_ai(Ai::Confused { previous_ai, num_turns }),
            old(game).same_but_log(final(game)),
            num_turns >= 0 ==> final(self).objects@ == moved(old(self).objects@, &old(game).map, monster_id as int, dx as int, dy as int)
                && final(game).log_entries() == old(game).log_entries(),
            num_turns < 0 ==> final(self).objects@ == old(self).objects@ && final(game).log_entries() == logged(
                old(game).log_entries(),
                entry(MessageKind::NoLongerConfused, old(self).objects@[monster_id as int].name@, Seq::empty(), 0),
            ),
    {
        if num_turns >= 0 {
            self.move_by(monster_id, dx, dy, &game.map);
            Ai::Confused { previous_ai, num_turns: num_turns - 1 }
        } else {
            message(&mut game.log, Message::about(MessageKind::NoLongerConfused, self.objects[monster_id].name.as_str()));
            *previous_ai
        }
    }

    /// One turn of a confused entity: draws a step in `{-1, 0, 1}` on each axis and
    /// hands it to `confused_step`.
    pub fn ai_confused(&mut self, monster_id: usize, game: &mut Game, previous_ai: Box<Ai>, num_turns: i32) -> (next: Ai)
        requires
            monster_id < old(self).objects@.len(),
            map_wf(&old(game).map),
        ensures
            next == next_ai(Ai::Confused { previous_ai, num_turns }),
            old(game).same_but_log(final(game)),
            num_turns >= 0 ==> exists|dx: int, dy: int| -1 <= dx <= 1 && -1 <= dy <= 1
                && final(self).objects@ == #[trigger] moved(old(self).objects@, &old(game).map, monster_id as int, dx, dy),
            num_turns >= 0 ==> final(game).log_entries() == old(game).log_entries(),
            num_turns < 0 ==> final(self).objects@ == old(self).objects@ && final(game).log_entries() == logged(
                old(game).log_entries(),
                entry(MessageKind::NoLongerConfused, old(self).objects@[monster_id as int].name@, Seq::empty(), 0),
            ),
    {
        let dx = random_range(-1, 2);
        let dy = random_range(-1, 2);
        self.confused_step(monster_id, game, previous_ai, num_turns, dx, dy)
    }

    /// Entity `monster_id` acts by its behaviour, if it has one, which then moves on
    /// as `next_ai` says.
    pub fn ai_take_turn(&mut self, monster_id: usize, game: &mut Game, fov: &Fov)
        requires
            old(self).wf(),
            old(game).wf(),
            monster_id < old(self).objects@.len(),
        ensures
            final(self).wf(),
            final(self).objects@.len() == old(self).objects@.len(),
            old(game).same_but_log(final(game)),
            final(self).objects@[monster_id as int].ai == match old(self).objects@[monster_id as int].ai {
                Some(a) => Some(next_ai(a)),
                None => None,
            },
            old(self).objects@[monster_id as int].ai is None ==> final(self).objects@ == old(self).objects@
                && *final(game) == *old(game),
            took_turn(
                old(self).objects@,
                old(game).log_entries(),
                final(self).objects@,
                final(game).log_entries(),
                monster_id as int,
                &old(game).map,
                fov,
                old(game).inventory@,
            ),
            forall|j: int| 0 <= j < old(self).objects@.len() && j != monster_id && j != PLAYER
                ==> #[trigger] final(self).objects@[j].ai == old(self).objects@[j].ai,
            old(self).objects@[monster_id as int].ai == Some(Ai::Basic) ==> basic_turn(
                old(self).objects@,
                final(self).objects@,
                monster_id as int,
                &old(game).map,
                fov,
                old(game).inventory@,
                old(game).log_entries(),
                final(game).log_entries(),
            ),
            ({
                let a = old(self).objects@[monster_id as int].ai;
                a is Some && walks(a.unwrap()) ==> final(game).log_entries() == old(game).log_entries()
                    && exists|dx: int, dy: int| -1 <= dx <= 1 && -1 <= dy <= 1 && final(self).objects@
                        == with_ai(#[trigger] moved(old(self).objects@, &old(game).map, monster_id as int, dx, dy),
                            monster_id as int, Some(next_ai(a.unwrap())))
            }),
            ({
                let a = old(self).objects@[monster_id as int].ai;
                a is Some && a.unwrap() is Confused && !walks(a.unwrap()) ==> final(self).objects@
                    == with_ai(old(self).objects@, monster_id as int, Some(next_ai(a.unwrap())))
                    && final(game).log_entries() == logged(
                        old(game).log_entries(),
                        entry(MessageKind::NoLongerConfused, old(self).objects@[monster_id as int].name@, Seq::empty(), 0),
                    )
            }),
    {
        let ai = match &self.objects[monster_id].ai {
            Some(a) => a.duplicate(),
            None => return,
        };
        let ghost o0 = self.objects@;
        let ghost l0 = game.log_entries();
        let next = match ai {
            Ai::Basic => {
                let next = self.ai_basic(monster_id, game, fov);
                proof {
                    let m = o0[monster_id as int];
                    let p = o0[PLAYER as int];
                    if visible(fov, m.x as int, m.y as int) && m.spec_distance_sq(p.x as int, p.y as int) < 4
                        && monster_id != PLAYER {
                        lemma_attacked_keeps(m, p, game.inventory@, l0, self.objects@[monster_id as int],
                            self.objects@[PLAYER as int], game.log_entries());
                    }
                }
                next
            },
            Ai::Confused { previous_ai, num_turns } => self.ai_confused(monster_id, game, previous_ai, num_turns),
        };
        let ghost mid = self.objects@;
        self.objects[monster_id].ai = Some(next);
        proof {
            if o0[monster_id as int].ai == Some(Ai::Basic) {
                assert(self.objects@ =~= mid);
            }
        }
    }
}

impl ObjectsManager {
    /// Every entity that has a behaviour acts once, in store order.
    pub fn ai_turn(&mut self, game: &mut Game, fov: &Fov)
        requires
            old(self).wf(),
            old(game).wf(),
        ensures
            final(self).wf(),
            final(self).objects@.len() == old(self).objects@.len(),
            old(game).same_but_log(final(game)),
            forall|j: int| 0 <= j < old(self).objects@.len() && j != PLAYER ==> #[trigger] final(self).objects@[j].ai
                == ai_step(old(self).objects@[j].ai),
            exists|states: Seq<Seq<Object>>, logs: Seq<Seq<Entry>>| {
                &&& states.len() == old(self).objects@.len() + 1
                &&& logs.len() == states.len()
                &&& states[0] == old(self).objects@
                &&& logs[0] == old(game).log_entries()
                &&& states.last() == final(self).objects@
                &&& logs.last() == final(game).log_entries()
                &&& forall|k: int| 0 <= k < old(self).objects@.len() ==> #[trigger] took_turn(
                    states[k],
                    logs[k],
                    states[k + 1],
                    logs[k + 1],
                    k,
                    &old(game).map,
                    fov,
                    old(game).inventory@,
                )
            },
    {
        let n = self.objects.len();
        let mut id: usize = 0;
        let ghost mut states: Seq<Seq<Object>> = seq![self.objects@];
        let ghost mut logs: Seq<Seq<Entry>> = seq![game.log_entries()];
        while id < n
            invariant
                states.len() == id + 1,
                logs.len() == id + 1,
                states[0] == old(self).objects@,
                logs[0] == old(game).log_entries(),
                states.last() == self.objects@,
                logs.last() == game.log_entries(),
                forall|k: int| 0 <= k < id ==> #[trigger] took_turn(
                    states[k],
                    logs[k],
                    states[k + 1],
                    logs[k + 1],
                    k,
                    &old(game).map,
                    fov,
                    old(game).inventory@,
                ),
                self.wf(),
                game.wf(),
                n == self.objects@.len(),
                n == old(self).objects@.len(),
                old(game).same_but_log(game),
                id <= n,
                forall|j: int| 0 <= j < id && j != PLAYER ==> #[trigger] self.objects@[j].ai == ai_step(old(self).objects@[j].ai),
                forall|j: int| id <= j < n && j != PLAYER ==> #[trigger] self.objects@[j].ai == old(self).objects@[j].ai,
            decreases n - id,
        {
            if self.objects[id].ai.is_some() {
                self.ai_take_turn(id, game, fov);
            }
            proof {
                let ghost s0 = states;
                let ghost g0 = logs;
                states = states.push(self.objects@);
                logs = logs.push(game.log_entries());
                assert forall|k: int| 0 <= k < id + 1 implies #[trigger] took_turn(
                    states[k],
                    logs[k],
                    states[k + 1],
                    logs[k + 1],
                    k,
                    &old(game).map,
                    fov,
                    old(game).inventory@,
                ) by {
                    if k < id {
                        assert(states[k] == s0[k] && states[k + 1] == s0[k + 1]);
                        assert(logs[k] == g0[k] && logs[k + 1] == g0[k + 1]);
                    }
                }
            }
            id = id + 1;
        }
        assert(states.len() == old(self).objects@.len() + 1);
    }
}

/// The entity is a fighter other than the player standing on `(x, y)`.
pub open spec fn monster_on(objs: Seq<Object>, i: int, x: int, y: int) -> bool {
    i != PLAYER && fighter_on(objs[i], x, y)
}

impl ObjectsManager {
    /// The first fighter other than the player that stands on `(x, y)`: what a click on
    /// that cell targets.
    pub fn monster_at(&self, x: i32, y: i32) -> (r: Option<usize>)
        ensures
            r matches Some(i) ==> i < self.objects@.len() && monster_on(self.objects@, i as int, x as int, y as int)
                && forall|j: int| 0 <= j < i ==> !monster_on(self.objects@, j, x as int, y as int),
            r is None ==> forall|j: int| 0 <= j < self.objects@.len() ==> !monster_on(self.objects@, j, x as int, y as int),
    {
        let mut i: usize = 0;
        while i < self.objects.len()
            invariant
                i <= self.objects@.len(),
                forall|j: int| 0 <= j < i ==> !monster_on(self.objects@, j, x as int, y as int),
            decreases self.objects@.len() - i,
        {
            let o = &self.objects[i];
            if i != PLAYER && o.fighter.is_some() && o.x == x && o.y == y {
                return Some(i);
            }
            i = i + 1;
        }
        None
    }

    /// Whether the cell `(x, y)` lies within `max_range` of the player; any cell does
    /// when there is no range.
    pub fn in_player_range(&self, x: i32, y: i32, max_range: Option<i32>) -> (b: bool)
        requires
            self.wf(),
        ensures
            b == match max_range {
                None => true,
                Some(r) => r >= 0 && self.objects@[PLAYER as int].spec_distance_sq(x as int, y as int) <= r * r,
            },
    {
        match max_range {
            None => true,
            Some(r) => {
                assert(0 <= r * r <= 0x8000_0000 * 0x8000_0000) by (nonlinear_arith)
                    requires -0x8000_0000 <= r <= 0x8000_0000;
                r >= 0 && self.objects[PLAYER].distance_sq(x, y) <= r as i128 * r as i128
            },
        }
    }
}

proof fn lemma_first_fighter_prefix(objs: Seq<Object>, x: int, y: int, n: int)
    requires
        0 < n <= objs.len(),
        first_fighter_at(objs.subrange(0, n - 1), x, y) is None,
        fighter_on(objs[n - 1], x, y),
    ensures
        first_fighter_at(objs, x, y) == Some(n - 1),
    decreases objs.len() - n,
{
    assert(objs.subrange(0, n).drop_last() =~= objs.subrange(0, n - 1));
    if n < objs.len() {
        lemma_first_fighter_grow(objs, x, y, n, objs.len() as int);
        assert(objs.subrange(0, objs.len() as int) =~= objs);
    } else {
        assert(objs.subrange(0, n) =~= objs);
    }
}

proof fn lemma_first_fighter_grow(objs: Seq<Object>, x: int, y: int, n: int, m: int)
    requires
        0 < n <= m <= objs.len(),
        first_fighter_at(objs.subrange(0, n - 1), x, y) is None,
        fighter_on(objs[n - 1], x, y),
    ensures
        first_fighter_at(objs.subrange(0, m), x, y) == Some(n - 1),
    decreases m - n,
{
    if m == n {
        assert(objs.subrange(0, n).drop_last() =~= objs.subrange(0, n - 1));
    } else {
        lemma_first_fighter_grow(objs, x, y, n, m - 1);
        assert(objs.subrange(0, m).drop_last() =~= objs.subrange(0, m - 1));
    }
}

/// The step along one axis toward an offset `(a, b)`; see `unit_step`.
fn step_toward(a: i128, b: i128) -> (s: i32)
    requires
        -0x1_0000_0000 <= a <= 0x1_0000_0000,
        -0x1_0000_0000 <= b <= 0x1_0000_0000,
    ensures
        s == unit_step(a as int, b as int),
{
    assert(0 <= a * a <= 0x1_0000_0000 * 0x1_0000_0000) by (nonlinear_arith)
        requires -0x1_0000_0000 <= a <= 0x1_0000_0000;
    assert(0 <= b * b <= 0x1_0000_0000 * 0x1_0000_0000) by (nonlinear_arith)
        requires -0x1_0000_0000 <= b <= 0x1_0000_0000;
    if a != 0 && 3 * (a * a) >= b * b {
        if a > 0 { 1 } else { -1 }
    } else {
        0
    }
}

} // verus!
