use vstd::prelude::*;
use crate::config::{MAP_HEIGHT, MAP_WIDTH, MAX_ROOMS, MAX_SPAWN_TRIES, PLAYER, ROOM_MAX_SIZE, ROOM_MIN_SIZE};
use crate::rect::Rect;
use crate::object::{Color, Item, MonsterType, Object};
use crate::random::{random_bool, random_range, weight_total, weighted_index};
use crate::spawn::{free_cell, populate_room, populated, spawned_as, spawned_by, Spawn, SpawnRequest};
use crate::tile::Tile;

verus! {

/// The level's cells, indexed first by column `x`, then by row `y`.
pub type TileMap = Vec<Vec<Tile>>;

/// The map has `MAP_WIDTH` columns of `MAP_HEIGHT` cells each.
pub open spec fn map_wf(map: &TileMap) -> bool {
    &&& map@.len() == MAP_WIDTH
    &&& forall|x: int| 0 <= x < MAP_WIDTH ==> #[trigger] map@[x]@.len() == MAP_HEIGHT
}

pub open spec fn in_bounds(x: int, y: int) -> bool {
    0 <= x < MAP_WIDTH && 0 <= y < MAP_HEIGHT
}

pub open spec fn tile_at(map: &TileMap, x: int, y: int) -> Tile {
    map@[x]@[y]
}

pub open spec fn floor() -> Tile {
    Tile { blocked: false, block_sight: false, explored: false }
}

/// `after` is `before` with exactly the cells that `carved` selects made floor.
pub open spec fn carved_from(before: &TileMap, after: &TileMap, carved: spec_fn(int, int) -> bool) -> bool {
    &&& map_wf(after)
    &&& forall|x: int, y: int| #[trigger] in_bounds(x, y) ==> tile_at(after, x, y) == (
        if carved(x, y) { floor() } else { tile_at(before, x, y) })
}

fn set_floor(map: &mut TileMap, x: usize, y: usize)
    requires
        map_wf(old(map)),
        in_bounds(x as int, y as int),
    ensures
        carved_from(old(map), final(map), |i: int, j: int| i == x && j == y),
{
    map[x][y] = Tile::empty();
}


/// The interior of `room` lies on the map; it may be empty.
pub open spec fn interior_on_map(room: Rect) -> bool {
    -1 <= room.x1 && room.x2 <= MAP_WIDTH && -1 <= room.y1 && room.y2 <= MAP_HEIGHT
}

/// Makes the interior of `room` floor.
pub fn create_room(room: Rect, map: &mut TileMap)
    requires
        map_wf(old(map)),
        interior_on_map(room),
    ensures
        carved_from(old(map), final(map), |x: int, y: int| room.in_interior(x, y)),
{
    let mut x: i64 = room.x1 as i64 + 1;
    while x < room.x2 as i64
        invariant
            interior_on_map(room),
            room.x1 + 1 <= x,
            x <= room.x2 || x == room.x1 + 1,
            carved_from(old(map), map, |i: int, j: int| room.x1 < i < x && room.y1 < j < room.y2),
        decreases room.x2 - x,
    {
        let mut y: i64 = room.y1 as i64 + 1;
        while y < room.y2 as i64
            invariant
                interior_on_map(room),
                room.x1 + 1 <= x < room.x2,
                room.y1 + 1 <= y,
                y <= room.y2 || y == room.y1 + 1,
                carved_from(old(map), map, |i: int, j: int|
                    (room.x1 < i < x && room.y1 < j < room.y2) || (i == x && room.y1 < j < y)),
            decreases room.y2 - y,
        {
            set_floor(map, x as usize, y as usize);
            y = y + 1;
        }
        let ghost m = *map;
        proof {
            assert forall|i: int, j: int| #[trigger] in_bounds(i, j) implies tile_at(map, i, j) == (
                if room.x1 < i < x + 1 && room.y1 < j < room.y2 { floor() } else { tile_at(old(map), i, j) }) by {
                assert(tile_at(&m, i, j) == (if (room.x1 < i < x && room.y1 < j < room.y2) || (i == x && room.y1 < j < y) {
                    floor()
                } else {
                    tile_at(old(map), i, j)
                }));
            }
        }
        x = x + 1;
    }
    let ghost m = *map;
    proof {
        assert forall|i: int, j: int| #[trigger] in_bounds(i, j) implies tile_at(map, i, j) == (
            if room.in_interior(i, j) { floor() } else { tile_at(old(map), i, j) }) by {
            assert(tile_at(&m, i, j) == (if room.x1 < i < x && room.y1 < j < room.y2 {
                floor()
            } else {
                tile_at(old(map), i, j)
            }));
        }
    }
}

pub open spec fn min_int(a: int, b: int) -> int {
    if a <= b { a } else { b }
}

pub open spec fn max_int(a: int, b: int) -> int {
    if a >= b { a } else { b }
}

/// The cell lies on the horizontal run from `x1` to `x2` (both included) on row `y`.
pub open spec fn on_h_run(x1: int, x2: int, y: int, i: int, j: int) -> bool {
    j == y && min_int(x1, x2) <= i <= max_int(x1, x2)
}

/// The cell lies on the vertical run from `y1` to `y2` (both included) on column `x`.
pub open spec fn on_v_run(y1: int, y2: int, x: int, i: int, j: int) -> bool {
    i == x && min_int(y1, y2) <= j <= max_int(y1, y2)
}

/// Makes floor of the horizontal run from `x1` to `x2`, both included, on row `y`.
pub fn create_h_tunnel(x1: i32, x2: i32, y: i32, map: &mut TileMap)
    requires
        map_wf(old(map)),
        in_bounds(x1 as int, y as int),
        in_bounds(x2 as int, y as int),
    ensures
        carved_from(old(map), final(map), |i: int, j: int| on_h_run(x1 as int, x2 as int, y as int, i, j)),
{
    let lo: i32 = if x1 <= x2 { x1 } else { x2 };
    let hi: i32 = if x1 <= x2 { x2 } else { x1 };
    let mut x: i32 = lo;
    while x <= hi
        invariant
            lo == min_int(x1 as int, x2 as int),
            hi == max_int(x1 as int, x2 as int),
            in_bounds(lo as int, y as int),
            in_bounds(hi as int, y as int),
            lo <= x <= hi + 1,
            carved_from(old(map), map, |i: int, j: int| j == y && lo <= i < x),
        decreases hi + 1 - x,
    {
        set_floor(map, x as usize, y as usize);
        x = x + 1;
    }
}

/// Makes floor of the vertical run from `y1` to `y2`, both included, on column `x`.
pub fn create_v_tunnel(y1: i32, y2: i32, x: i32, map: &mut TileMap)
    requires
        map_wf(old(map)),
        in_bounds(x as int, y1 as int),
        in_bounds(x as int, y2 as int),
    ensures
        carved_from(old(map), final(map), |i: int, j: int| on_v_run(y1 as int, y2 as int, x as int, i, j)),
{
    let lo: i32 = if y1 <= y2 { y1 } else { y2 };
    let hi: i32 = if y1 <= y2 { y2 } else { y1 };
    let mut y: i32 = lo;
    while y <= hi
        invariant
            lo == min_int(y1 as int, y2 as int),
            hi == max_int(y1 as int, y2 as int),
            in_bounds(x as int, lo as int),
            in_bounds(x as int, hi as int),
            lo <= y <= hi + 1,
            carved_from(old(map), map, |i: int, j: int| i == x && lo <= j < y),
        decreases hi + 1 - y,
    {
        set_floor(map, x as usize, y as usize);
        y = y + 1;
    }
}

/// From dungeon level `level` on, a table gives `value`.
#[derive(Clone, Copy, Debug, PartialEq, Eq, Structural)]
pub struct Transition {
    pub level: u32,
    pub value: u32,
}

/// The transition with the highest threshold that is at most `level`, the first such
/// one in table order on a tie; none when every threshold lies above `level`.
pub open spec fn best_transition(table: Seq<Transition>, level: u32) -> Option<Transition>
    decreases table.len(),
{
    if table.len() == 0 {
        None
    } else {
        let before = best_transition(table.drop_last(), level);
        let t = table.last();
        if t.level <= level && (before is None || t.level > before.unwrap().level) {
            Some(t)
        } else {
            before
        }
    }
}

/// The value that `table` gives at dungeon level `level`: that of the transition with
/// the highest threshold at most `level`, 0 when there is none.
pub open spec fn level_value(table: Seq<Transition>, level: u32) -> u32 {
    match best_transition(table, level) {
        Some(t) => t.value,
        None => 0,
    }
}

/// What `best_transition` picks: an entry of the table whose threshold is at most
/// `level` and at least every other such threshold.
pub proof fn lemma_best_transition(table: Seq<Transition>, level: u32)
    ensures
        best_transition(table, level) matches Some(t) ==> t.level <= level
            && (exists|i: int| 0 <= i < table.len() && table[i] == t)
            && forall|j: int| 0 <= j < table.len() && #[trigger] table[j].level <= level ==> table[j].level <= t.level,
        best_transition(table, level) is None ==> forall|j: int| 0 <= j < table.len() ==> #[trigger] table[j].level > level,
    decreases table.len(),
{
    if table.len() > 0 {
        let init = table.drop_last();
        lemma_best_transition(init, level);
        assert forall|j: int| 0 <= j < table.len() - 1 implies #[trigger] table[j] == init[j] by {}
        if let Some(t) = best_transition(table, level) {
            if t == table.last() && !(best_transition(init, level) matches Some(b) && b == t) {
                assert(table[table.len() - 1] == t);
            } else {
                let i = choose|i: int| 0 <= i < init.len() && init[i] == t;
                assert(table[i] == t);
            }
        }
    }
}

/// Returns the value that `table` gives at dungeon level `level`: that of the transition
/// with the highest threshold at most `level`, 0 when every threshold lies above it.
pub fn from_dungeon_level(table: &[Transition], level: u32) -> (r: u32)
    ensures
        r == level_value(table@, level),
{
    let mut best: Option<Transition> = None;
    let mut i: usize = 0;
    while i < table.len()
        invariant
            i <= table@.len(),
            best == best_transition(table@.subrange(0, i as int), level),
        decreases table@.len() - i,
    {
        let t = table[i];
        assert(table@.subrange(0, i + 1).drop_last() =~= table@.subrange(0, i as int));
        let better = match best {
            Some(b) => t.level <= level && t.level > b.level,
            None => t.level <= level,
        };
        if better {
            best = Some(t);
        }
        i = i + 1;
    }
    assert(table@.subrange(0, i as int) =~= table@);
    match best {
        Some(t) => t.value,
        None => 0,
    }
}

/// The cell is a wall or holds an entity that blocks.
pub open spec fn blocked_at(map: &TileMap, objects: Seq<Object>, x: int, y: int) -> bool {
    tile_at(map, x, y).blocked || exists|i: int| 0 <= i < objects.len() && #[trigger] objects[i].blocks
        && objects[i].x == x && objects[i].y == y
}

/// Whether the cell `(x, y)` is a wall or holds an entity that blocks.
pub fn is_blocked(x: i32, y: i32, map: &TileMap, objects: &[Object]) -> (b: bool)
    requires
        map_wf(map),
        in_bounds(x as int, y as int),
    ensures
        b == blocked_at(map, objects@, x as int, y as int),
{
    if map[x as usize][y as usize].blocked {
        return true;
    }
    let mut i: usize = 0;
    while i < objects.len()
        invariant
            i <= objects@.len(),
            forall|j: int| 0 <= j < i ==> !(#[trigger] objects@[j].blocks && objects@[j].x == x && objects@[j].y == y),
        decreases objects@.len() - i,
    {
        if objects[i].blocks && objects[i].x == x && objects[i].y == y {
            return true;
        }
        i = i + 1;
    }
    false
}

/// Which cells the player currently sees, indexed like the map.
pub type Fov = Vec<Vec<bool>>;

/// The cell lies within `fov` and is marked visible there.
pub open spec fn visible(fov: &Fov, x: int, y: int) -> bool {
    0 <= x < fov@.len() && 0 <= y < fov@[x]@.len() && fov@[x]@[y]
}

/// Whether the cell `(x, y)` is in view; cells outside the grid are not.
pub fn is_in_fov(fov: &Fov, x: i32, y: i32) -> (b: bool)
    ensures
        b == visible(fov, x as int, y as int),
{
    if x < 0 || y < 0 || x as usize >= fov.len() {
        return false;
    }
    let col = &fov[x as usize];
    if y as usize >= col.len() {
        return false;
    }
    col[y as usize]
}

/// The cell is on the map and can be walked on.
pub open spec fn floor_at(map: &TileMap, x: int, y: int) -> bool {
    in_bounds(x, y) && !tile_at(map, x, y).blocked
}

/// Every cell of the L-shaped path from `(ax, ay)` to `(bx, by)` that runs along row
/// `ay` first, then along column `bx`, can be walked on.
pub open spec fn h_then_v_clear(map: &TileMap, ax: int, ay: int, bx: int, by: int) -> bool {
    &&& forall|i: int| min_int(ax, bx) <= i <= max_int(ax, bx) ==> #[trigger] floor_at(map, i, ay)
    &&& forall|j: int| min_int(ay, by) <= j <= max_int(ay, by) ==> #[trigger] floor_at(map, bx, j)
}

/// Every cell of the L-shaped path from `(ax, ay)` to `(bx, by)` that runs along column
/// `ax` first, then along row `by`, can be walked on.
pub open spec fn v_then_h_clear(map: &TileMap, ax: int, ay: int, bx: int, by: int) -> bool {
    &&& forall|j: int| min_int(ay, by) <= j <= max_int(ay, by) ==> #[trigger] floor_at(map, ax, j)
    &&& forall|i: int| min_int(ax, bx) <= i <= max_int(ax, bx) ==> #[trigger] floor_at(map, i, by)
}

/// A walkable L-shaped tunnel joins the centers of rooms `a` and `b`.
pub open spec fn joined(map: &TileMap, a: Rect, b: Rect) -> bool {
    let (ax, ay) = a.spec_center();
    let (bx, by) = b.spec_center();
    h_then_v_clear(map, ax, ay, bx, by) || v_then_h_clear(map, ax, ay, bx, by)
}

/// The rooms lie on the map, none overlaps another, each interior can be walked on,
/// and each room is joined by a tunnel to the one before it, so that all of them can
/// be reached from the first.
pub open spec fn rooms_laid_out(map: &TileMap, rooms: Seq<Rect>) -> bool {
    &&& forall|k: int| 0 <= k < rooms.len() ==> (#[trigger] rooms[k]).within_map()
    &&& forall|k: int, l: int| 0 <= k < l < rooms.len() ==> !(#[trigger] rooms[k]).overlaps(#[trigger] rooms[l])
    &&& forall|k: int, x: int, y: int| 0 <= k < rooms.len() && (#[trigger] rooms[k]).in_interior(x, y)
        ==> #[trigger] floor_at(map, x, y)
    &&& forall|k: int| 0 < k < rooms.len() ==> joined(map, rooms[k - 1], #[trigger] rooms[k])
}

pub open spec fn wall_tile() -> Tile {
    Tile { blocked: true, block_sight: true, explored: false }
}

/// The cell lies on the L-shaped path from `(ax, ay)` to `(bx, by)`: along row `ay`
/// first and then along column `bx` when `h_first`, along column `ax` first and then
/// along row `by` otherwise.
pub open spec fn on_l_path(ax: int, ay: int, bx: int, by: int, h_first: bool, x: int, y: int) -> bool {
    if h_first {
        on_h_run(ax, bx, ay, x, y) || on_v_run(ay, by, bx, x, y)
    } else {
        on_v_run(ay, by, ax, x, y) || on_h_run(ax, bx, by, x, y)
    }
}

/// The cell lies in the interior of one of `rooms`, or on the tunnel from a room's
/// predecessor to it, which runs horizontally first where `h_first` says so.
pub open spec fn carved_by(rooms: Seq<Rect>, h_first: Seq<bool>, x: int, y: int) -> bool
    decreases rooms.len(),
{
    if rooms.len() == 0 {
        false
    } else {
        let k = rooms.len() - 1;
        ||| carved_by(rooms.drop_last(), h_first.drop_last(), x, y)
        ||| rooms[k].in_interior(x, y)
        ||| k > 0 && on_l_path(
            rooms[k - 1].spec_center().0,
            rooms[k - 1].spec_center().1,
            rooms[k].spec_center().0,
            rooms[k].spec_center().1,
            h_first[k],
            x,
            y,
        )
    }
}

/// Every cell that the rooms and tunnels carve is floor, and every other cell is a
/// wall; nothing is explored.
pub open spec fn map_is_carved(map: &TileMap, rooms: Seq<Rect>, h_first: Seq<bool>) -> bool {
    &&& map_wf(map)
    &&& forall|x: int, y: int| #[trigger] in_bounds(x, y) ==> tile_at(map, x, y) == if carved_by(rooms, h_first, x, y) {
        floor()
    } else {
        wall_tile()
    }
}

/// A generated level: between one and `MAX_ROOMS` rooms are laid out and carved, with
/// their tunnels, into a map of walls; the player stands at the center of the first
/// room and the stairs, the last entity, at the center of the last. The stairs do not
/// block, are always visible and neither fight nor act.
pub open spec fn dungeon_layout(map: &TileMap, rooms: Seq<Rect>, h_first: Seq<bool>, objects: Seq<Object>) -> bool {
    &&& map_wf(map)
    &&& 0 < rooms.len() <= MAX_ROOMS
    &&& h_first.len() == rooms.len()
    &&& rooms_laid_out(map, rooms)
    &&& map_is_carved(map, rooms, h_first)
    &&& objects.len() > PLAYER + 1
    &&& (objects[PLAYER as int].x as int, objects[PLAYER as int].y as int) == rooms[0].spec_center()
    &&& objects.last().name@ == "stairs"@
    &&& (objects.last().x as int, objects.last().y as int) == rooms.last().spec_center()
    &&& !objects.last().blocks && objects.last().always_visible
    &&& objects.last().fighter is None && objects.last().ai is None
}

proof fn lemma_carve_keeps_floor(before: &TileMap, after: &TileMap, carved: spec_fn(int, int) -> bool)
    requires
        map_wf(before),
        carved_from(before, after, carved),
    ensures
        forall|x: int, y: int| #[trigger] floor_at(before, x, y) ==> floor_at(after, x, y),
{
    assert forall|x: int, y: int| #[trigger] floor_at(before, x, y) implies floor_at(after, x, y) by {
        assert(in_bounds(x, y));
    }
}

proof fn lemma_level_value_bound(table: Seq<Transition>, level: u32, bound: u32)
    requires
        forall|i: int| 0 <= i < table.len() ==> #[trigger] table[i].value <= bound,
    ensures
        level_value(table, level) <= bound,
{
    lemma_best_transition(table, level);
}

/// The item kind at index `choice` of the item table.
fn item_kind(choice: usize) -> (k: Item)
    ensures
        k == item_at(choice as int),
{
    if choice == 0 {
        Item::Heal
    } else if choice == 1 {
        Item::Lightning
    } else if choice == 2 {
        Item::Fireball
    } else if choice == 3 {
        Item::Confuse
    } else if choice == 4 {
        Item::Sword
    } else {
        Item::Shield
    }
}

proof fn lemma_weight_total(w: Seq<u32>, bound: u32)
    requires
        forall|i: int| 0 <= i < w.len() ==> #[trigger] w[i] <= bound,
    ensures
        0 <= weight_total(w) <= w.len() * bound,
        w.len() > 0 ==> weight_total(w) >= w[0],
    decreases w.len(),
{
    if w.len() > 0 {
        lemma_weight_total(w.drop_last(), bound);
        assert((w.len() - 1) * bound + bound == w.len() * bound) by (nonlinear_arith);
        if w.len() > 1 {
            assert(w.drop_last()[0] == w[0]);
        }
    }
}

/// The `Transition` table entry from `level` on.
fn transition(level: u32, value: u32) -> (t: Transition)
    ensures
        t == (Transition { level, value }),
{
    Transition { level, value }
}

pub open spec fn item_at(choice: int) -> Item {
    if choice == 0 {
        Item::Heal
    } else if choice == 1 {
        Item::Lightning
    } else if choice == 2 {
        Item::Fireball
    } else if choice == 3 {
        Item::Confuse
    } else if choice == 4 {
        Item::Sword
    } else {
        Item::Shield
    }
}

/// How many monsters a room may hold, by dungeon level.
pub open spec fn monster_cap_table() -> Seq<Transition> {
    seq![Transition { level: 1, value: 2 }, Transition { level: 4, value: 3 }, Transition { level: 6, value: 5 }]
}

/// How many items a room may hold, by dungeon level.
pub open spec fn item_cap_table() -> Seq<Transition> {
    seq![Transition { level: 1, value: 1 }, Transition { level: 4, value: 2 }]
}

/// From which dungeon level on an item kind can appear.
pub open spec fn unlocked(k: Item, level: u32) -> bool {
    match k {
        Item::Heal => true,
        Item::Confuse => level >= 2,
        Item::Lightning | Item::Sword => level >= 4,
        Item::Fireball => level >= 6,
        Item::Shield => level >= 8,
    }
}

/// `e` is a new orc, or from dungeon level 3 on a new troll, where it stands.
pub open spec fn monster_for_level(e: Object, level: u32) -> bool {
    ||| spawned_as(e, Spawn::Monster(MonsterType::Orc), e.x as int, e.y as int)
    ||| level >= 3 && spawned_as(e, Spawn::Monster(MonsterType::Troll), e.x as int, e.y as int)
}

/// `e` is a new item, of a kind that dungeon level `level` has unlocked, where it lies.
pub open spec fn item_for_level(e: Object, level: u32) -> bool {
    e.item matches Some(k) && unlocked(k, level) && spawned_as(e, Spawn::Item(k), e.x as int, e.y as int)
}

/// The entities of `objs` from `start` on are monsters up to `m` and items after it,
/// within the counts and kinds that dungeon level `level` allows.
pub open spec fn spawned_for_level(objs: Seq<Object>, start: int, m: int, level: u32) -> bool {
    &&& start <= m <= objs.len()
    &&& m - start <= level_value(monster_cap_table(), level)
    &&& objs.len() - m <= level_value(item_cap_table(), level)
    &&& forall|i: int| start <= i < m ==> monster_for_level(#[trigger] objs[i], level)
    &&& forall|i: int| m <= i < objs.len() ==> item_for_level(#[trigger] objs[i], level)
}

/// A request is for a monster of the level, on cells inside `room`.
pub open spec fn monster_request_ok(r: SpawnRequest, room: Rect, level: u32) -> bool {
    &&& forall|c: int| 0 <= c < r.0@.len() ==> room.in_interior(#[trigger] r.0@[c].0 as int, r.0@[c].1 as int)
    &&& (r.1 == Spawn::Monster(MonsterType::Orc) || (level >= 3 && r.1 == Spawn::Monster(MonsterType::Troll)))
}

/// A request is for an item unlocked at the level, on cells inside `room`.
pub open spec fn item_request_ok(r: SpawnRequest, room: Rect, level: u32) -> bool {
    &&& forall|c: int| 0 <= c < r.0@.len() ==> room.in_interior(#[trigger] r.0@[c].0 as int, r.0@[c].1 as int)
    &&& r.1 matches Spawn::Item(k) && unlocked(k, level)
}

/// `MAX_SPAWN_TRIES` cells drawn at random in the interior of `room`.
fn random_cells(room: Rect) -> (cells: Vec<(i32, i32)>)
    requires
        room.within_map(),
        room.x2 - room.x1 >= 2,
        room.y2 - room.y1 >= 2,
    ensures
        forall|c: int| 0 <= c < cells@.len() ==> room.in_interior(#[trigger] cells@[c].0 as int, cells@[c].1 as int),
{
    let mut cells: Vec<(i32, i32)> = Vec::new();
    let mut tries: u32 = 0;
    while tries < MAX_SPAWN_TRIES
        invariant
            room.within_map(),
            room.x2 - room.x1 >= 2,
            room.y2 - room.y1 >= 2,
            forall|c: int| 0 <= c < cells@.len() ==> room.in_interior(#[trigger] cells@[c].0 as int, cells@[c].1 as int),
        decreases MAX_SPAWN_TRIES - tries,
    {
        let x = random_range(room.x1 + 1, room.x2);
        let y = random_range(room.y1 + 1, room.y2);
        cells.push((x, y));
        tries = tries + 1;
    }
    cells
}

proof fn lemma_unlocked_by_weight(table: Seq<Transition>, level: u32, threshold: u32)
    requires
        forall|i: int| 0 <= i < table.len() ==> #[trigger] table[i].level >= threshold,
        level_value(table, level) > 0,
    ensures
        level >= threshold,
{
    lemma_best_transition(table, level);
    let t = best_transition(table, level).unwrap();
    let i = choose|i: int| 0 <= i < table.len() && table[i] == t;
    assert(table[i].level >= threshold);
}

/// Populates `room` with monsters and items for dungeon level `level`. Their numbers,
/// kinds and candidate cells are drawn at random and handed to `populate_room`, the
/// monsters first: at most as many monsters and items as the level's tables allow,
/// orcs or (from level 3) trolls, and items of the kinds the level has unlocked. Each
/// stands on a cell of the room's interior that no wall and no blocking entity holds.
pub fn place_objects(room: Rect, map: &TileMap, objects: &mut Vec<Object>, level: u32)
    requires
        map_wf(map),
        room.within_map(),
        room.x2 - room.x1 >= 2,
        room.y2 - room.y1 >= 2,
    ensures
        final(objects)@.len() >= old(objects)@.len(),
        forall|i: int| 0 <= i < old(objects)@.len() ==> #[trigger] final(objects)@[i] == old(objects)@[i],
        exists|m: int| #[trigger] spawned_for_level(final(objects)@, old(objects)@.len() as int, m, level),
        exists|monsters: Seq<SpawnRequest>, items: Seq<SpawnRequest>, mid: Seq<Object>| {
            &&& monsters.len() <= level_value(monster_cap_table(), level)
            &&& items.len() <= level_value(item_cap_table(), level)
            &&& (forall|r: int| 0 <= r < monsters.len() ==> monster_request_ok(#[trigger] monsters[r], room, level))
            &&& (forall|r: int| 0 <= r < items.len() ==> item_request_ok(#[trigger] items[r], room, level))
            &&& #[trigger] populated(map, old(objects)@, monsters, mid)
            &&& #[trigger] populated(map, mid, items, final(objects)@)
        },
        forall|i: int| old(objects)@.len() <= i < final(objects)@.len() ==> {
            let e = #[trigger] final(objects)@[i];
            &&& room.in_interior(e.x as int, e.y as int)
            &&& !e.is_player
            &&& free_cell(map, final(objects)@.subrange(0, i), (e.x, e.y))
        },
        forall|i: int, j: int| old(objects)@.len() <= i < j < final(objects)@.len() && (#[trigger] final(objects)@[j]).blocks
            ==> (final(objects)@[j].x, final(objects)@[j].y) != (#[trigger] final(objects)@[i].x, final(objects)@[i].y),
{
    let max_monsters_table = [transition(1, 2), transition(4, 3), transition(6, 5)];
    assert(max_monsters_table@ =~= monster_cap_table());
    let max_monsters = from_dungeon_level(&max_monsters_table, level);
    proof { lemma_level_value_bound(max_monsters_table@, level, 5); }
    let troll_table = [transition(3, 15), transition(5, 30), transition(7, 60)];
    let troll_chance = from_dungeon_level(&troll_table, level);
    proof {
        lemma_level_value_bound(troll_table@, level, 60);
        if troll_chance > 0 {
            lemma_unlocked_by_weight(troll_table@, level, 3);
        }
    }
    let mut monster_chances: Vec<u32> = Vec::new();
    monster_chances.push(80);
    monster_chances.push(troll_chance);
    proof { lemma_weight_total(monster_chances@, 80); }

    let num_monsters = random_range(0, max_monsters as i32 + 1);
    let mut monster_requests: Vec<SpawnRequest> = Vec::new();
    let mut k: i32 = 0;
    while k < num_monsters
        invariant
            room.within_map(),
            room.x2 - room.x1 >= 2,
            room.y2 - room.y1 >= 2,
            monster_chances@ == seq![80u32, troll_chance],
            troll_chance > 0 ==> level >= 3,
            0 < weight_total(monster_chances@) <= u32::MAX,
            0 <= k <= num_monsters,
            monster_requests@.len() == k,
            forall|r: int| 0 <= r < monster_requests@.len() ==> monster_request_ok(#[trigger] monster_requests@[r], room, level),
        decreases num_monsters - k,
    {
        let cells = random_cells(room);
        let kind = if weighted_index(&monster_chances) == 0 { MonsterType::Orc } else { MonsterType::Troll };
        monster_requests.push((cells, Spawn::Monster(kind)));
        k = k + 1;
    }
    let ghost o0 = objects@;
    populate_room(map, objects, &monster_requests);
    let ghost o1 = objects@;

    let max_items_table = [transition(1, 1), transition(4, 2)];
    assert(max_items_table@ =~= item_cap_table());
    let max_items = from_dungeon_level(&max_items_table, level);
    proof { lemma_level_value_bound(max_items_table@, level, 2); }
    let lightning_table = [transition(4, 25)];
    let fireball_table = [transition(6, 25)];
    let confuse_table = [transition(2, 10)];
    let sword_table = [transition(4, 5)];
    let shield_table = [transition(8, 15)];
    let mut item_chances: Vec<u32> = Vec::new();
    // a healing potion can always show up, even where every other item has no chance
    item_chances.push(35);
    let lightning = from_dungeon_level(&lightning_table, level);
    item_chances.push(lightning);
    let fireball = from_dungeon_level(&fireball_table, level);
    item_chances.push(fireball);
    let confuse = from_dungeon_level(&confuse_table, level);
    item_chances.push(confuse);
    let sword = from_dungeon_level(&sword_table, level);
    item_chances.push(sword);
    let shield = from_dungeon_level(&shield_table, level);
    item_chances.push(shield);
    proof {
        lemma_level_value_bound(lightning_table@, level, 25);
        lemma_level_value_bound(fireball_table@, level, 25);
        lemma_level_value_bound(confuse_table@, level, 10);
        lemma_level_value_bound(sword_table@, level, 5);
        lemma_level_value_bound(shield_table@, level, 15);
        if lightning > 0 { lemma_unlocked_by_weight(lightning_table@, level, 4); }
        if fireball > 0 { lemma_unlocked_by_weight(fireball_table@, level, 6); }
        if confuse > 0 { lemma_unlocked_by_weight(confuse_table@, level, 2); }
        if sword > 0 { lemma_unlocked_by_weight(sword_table@, level, 4); }
        if shield > 0 { lemma_unlocked_by_weight(shield_table@, level, 8); }
        lemma_weight_total(item_chances@, 35);
        assert forall|c: int| 0 <= c < 6 && item_chances@[c] > 0 implies #[trigger] unlocked(item_at(c), level) by {}
    }

    let num_items = random_range(0, max_items as i32 + 1);
    let mut item_requests: Vec<SpawnRequest> = Vec::new();
    let mut k: i32 = 0;
    while k < num_items
        invariant
            room.within_map(),
            room.x2 - room.x1 >= 2,
            room.y2 - room.y1 >= 2,
            item_chances@.len() == 6,
            forall|c: int| 0 <= c < 6 && item_chances@[c] > 0 ==> #[trigger] unlocked(item_at(c), level),
            0 < weight_total(item_chances@) <= u32::MAX,
            0 <= k <= num_items,
            item_requests@.len() == k,
            forall|r: int| 0 <= r < item_requests@.len() ==> item_request_ok(#[trigger] item_requests@[r], room, level),
        decreases num_items - k,
    {
        let cells = random_cells(room);
        let choice = weighted_index(&item_chances);
        let kind = item_kind(choice);
        proof { assert(unlocked(item_at(choice as int), level)); }
        item_requests.push((cells, Spawn::Item(kind)));
        k = k + 1;
    }
    populate_room(map, objects, &item_requests);
    proof {
        let o2 = objects@;
        let m = o1.len() as int;
        assert forall|i: int| 0 <= i < m implies #[trigger] o2[i] == o1[i] by {
            assert(o2.subrange(0, m)[i] == o2[i]);
        }
        assert forall|i: int| 0 <= i < o0.len() implies #[trigger] o1[i] == o0[i] by {
            assert(o1.subrange(0, o0.len() as int)[i] == o1[i]);
        }
        assert forall|i: int| o0.len() <= i < m implies (#[trigger] spawned_by(map, o2, i, monster_requests@)) by {
            assert(spawned_by(map, o1, i, monster_requests@));
            assert(o2.subrange(0, i) =~= o1.subrange(0, i));
            let (kk, c) = choose|kk: int, c: int| 0 <= kk < monster_requests@.len() && 0 <= c < monster_requests@[kk].0@.len()
                && #[trigger] spawned_as(o1[i], monster_requests@[kk].1, monster_requests@[kk].0@[c].0 as int, monster_requests@[kk].0@[c].1 as int)
                && free_cell(map, o1.subrange(0, i), monster_requests@[kk].0@[c]);
            assert(spawned_as(o2[i], monster_requests@[kk].1, monster_requests@[kk].0@[c].0 as int, monster_requests@[kk].0@[c].1 as int));
        }
        assert forall|i: int| o0.len() <= i < m implies {
            let e = #[trigger] o2[i];
            &&& monster_for_level(e, level)
            &&& room.in_interior(e.x as int, e.y as int)
            &&& !e.is_player
            &&& e.blocks
            &&& free_cell(map, o2.subrange(0, i), (e.x, e.y))
        } by {
            assert(spawned_by(map, o2, i, monster_requests@));
            let (kk, c) = choose|kk: int, c: int| 0 <= kk < monster_requests@.len() && 0 <= c < monster_requests@[kk].0@.len()
                && #[trigger] spawned_as(o2[i], monster_requests@[kk].1, monster_requests@[kk].0@[c].0 as int, monster_requests@[kk].0@[c].1 as int)
                && free_cell(map, o2.subrange(0, i), monster_requests@[kk].0@[c]);
            assert(monster_request_ok(monster_requests@[kk], room, level));
            assert(room.in_interior(monster_requests@[kk].0@[c].0 as int, monster_requests@[kk].0@[c].1 as int));
        }
        assert forall|i: int| m <= i < o2.len() implies {
            let e = #[trigger] o2[i];
            &&& item_for_level(e, level)
            &&& room.in_interior(e.x as int, e.y as int)
            &&& !e.is_player
            &&& !e.blocks
            &&& free_cell(map, o2.subrange(0, i), (e.x, e.y))
        } by {
            assert(spawned_by(map, o2, i, item_requests@));
            let (kk, c) = choose|kk: int, c: int| 0 <= kk < item_requests@.len() && 0 <= c < item_requests@[kk].0@.len()
                && #[trigger] spawned_as(o2[i], item_requests@[kk].1, item_requests@[kk].0@[c].0 as int, item_requests@[kk].0@[c].1 as int)
                && free_cell(map, o2.subrange(0, i), item_requests@[kk].0@[c]);
            assert(item_request_ok(item_requests@[kk], room, level));
            assert(room.in_interior(item_requests@[kk].0@[c].0 as int, item_requests@[kk].0@[c].1 as int));
        }
        assert forall|i: int, j: int| o0.len() <= i < j < o2.len() && (#[trigger] o2[j]).blocks
            implies (o2[j].x, o2[j].y) != (#[trigger] o2[i].x, o2[i].y) by {
            assert(j < m);
            assert(o2[i].blocks);
            assert(o2.subrange(0, j)[i] == o2[i]);
        }
        assert(spawned_for_level(o2, o0.len() as int, m, level));
        assert(populated(map, o0, monster_requests@, o1));
        assert(populated(map, o1, item_requests@, o2));
    }
}

/// A map of walls only.
fn wall_map() -> (map: TileMap)
    ensures
        map_wf(&map),
        forall|x: int, y: int| #[trigger] in_bounds(x, y) ==> tile_at(&map, x, y) == wall_tile(),
{
    let mut map: TileMap = Vec::new();
    let mut x: i32 = 0;
    while x < MAP_WIDTH
        invariant
            0 <= x <= MAP_WIDTH,
            map@.len() == x,
            forall|i: int| 0 <= i < x ==> #[trigger] map@[i]@.len() == MAP_HEIGHT,
            forall|i: int, j: int| 0 <= i < x && 0 <= j < MAP_HEIGHT ==> #[trigger] map@[i]@[j] == wall_tile(),
        decreases MAP_WIDTH - x,
    {
        let mut column: Vec<Tile> = Vec::new();
        let mut y: i32 = 0;
        while y < MAP_HEIGHT
            invariant
                0 <= y <= MAP_HEIGHT,
                column@.len() == y,
                forall|j: int| 0 <= j < y ==> #[trigger] column@[j] == wall_tile(),
            decreases MAP_HEIGHT - y,
        {
            column.push(Tile::wall());
            y = y + 1;
        }
        map.push(column);
        x = x + 1;
    }
    map
}

/// Whether `room` overlaps any of `rooms`.
fn overlaps_any(room: &Rect, rooms: &Vec<Rect>) -> (b: bool)
    ensures
        b == exists|k: int| 0 <= k < rooms@.len() && room.overlaps(#[trigger] rooms@[k]),
{
    let mut k: usize = 0;
    while k < rooms.len()
        invariant
            k <= rooms@.len(),
            forall|j: int| 0 <= j < k ==> !room.overlaps(#[trigger] rooms@[j]),
        decreases rooms@.len() - k,
    {
        if room.intersects_with(&rooms[k]) {
            return true;
        }
        k = k + 1;
    }
    false
}

/// Carves a tunnel between two cells: horizontal then vertical when `horizontal_first`,
/// the other way round otherwise.
fn connect(prev_x: i32, prev_y: i32, new_x: i32, new_y: i32, horizontal_first: bool, map: &mut TileMap)
    requires
        map_wf(old(map)),
        in_bounds(prev_x as int, prev_y as int),
        in_bounds(new_x as int, new_y as int),
    ensures
        map_wf(final(map)),
        carved_from(old(map), final(map), |x: int, y: int|
            on_l_path(prev_x as int, prev_y as int, new_x as int, new_y as int, horizontal_first, x, y)),
        forall|x: int, y: int| #[trigger] floor_at(old(map), x, y) ==> floor_at(final(map), x, y),
        horizontal_first ==> h_then_v_clear(final(map), prev_x as int, prev_y as int, new_x as int, new_y as int),
        !horizontal_first ==> v_then_h_clear(final(map), prev_x as int, prev_y as int, new_x as int, new_y as int),
{
    let ghost m0 = *map;
    if horizontal_first {
        create_h_tunnel(prev_x, new_x, prev_y, map);
        let ghost m1 = *map;
        proof {
            lemma_carve_keeps_floor(&m0, &m1, |i: int, j: int| on_h_run(prev_x as int, new_x as int, prev_y as int, i, j));
        }
        create_v_tunnel(prev_y, new_y, new_x, map);
        proof {
            lemma_carve_keeps_floor(&m1, map, |i: int, j: int| on_v_run(prev_y as int, new_y as int, new_x as int, i, j));
            assert forall|i: int| min_int(prev_x as int, new_x as int) <= i <= max_int(prev_x as int, new_x as int)
                implies #[trigger] floor_at(map, i, prev_y as int) by {
                assert(in_bounds(i, prev_y as int));
            }
            assert forall|j: int| min_int(prev_y as int, new_y as int) <= j <= max_int(prev_y as int, new_y as int)
                implies #[trigger] floor_at(map, new_x as int, j) by {
                assert(in_bounds(new_x as int, j));
            }
            assert forall|i: int, j: int| #[trigger] in_bounds(i, j) implies tile_at(map, i, j) == (if on_l_path(
                prev_x as int, prev_y as int, new_x as int, new_y as int, horizontal_first, i, j) {
                floor()
            } else {
                tile_at(&m0, i, j)
            }) by {
                assert(in_bounds(i, j));
            }
        }
    } else {
        create_v_tunnel(prev_y, new_y, prev_x, map);
        let ghost m1 = *map;
        proof {
            lemma_carve_keeps_floor(&m0, &m1, |i: int, j: int| on_v_run(prev_y as int, new_y as int, prev_x as int, i, j));
        }
        create_h_tunnel(prev_x, new_x, new_y, map);
        proof {
            lemma_carve_keeps_floor(&m1, map, |i: int, j: int| on_h_run(prev_x as int, new_x as int, new_y as int, i, j));
            assert forall|j: int| min_int(prev_y as int, new_y as int) <= j <= max_int(prev_y as int, new_y as int)
                implies #[trigger] floor_at(map, prev_x as int, j) by {
                assert(in_bounds(prev_x as int, j));
            }
            assert forall|i: int| min_int(prev_x as int, new_x as int) <= i <= max_int(prev_x as int, new_x as int)
                implies #[trigger] floor_at(map, i, new_y as int) by {
                assert(in_bounds(i, new_y as int));
            }
            assert forall|i: int, j: int| #[trigger] in_bounds(i, j) implies tile_at(map, i, j) == (if on_l_path(
                prev_x as int, prev_y as int, new_x as int, new_y as int, horizontal_first, i, j) {
                floor()
            } else {
                tile_at(&m0, i, j)
            }) by {
                assert(in_bounds(i, j));
            }
        }
    }
}

proof fn lemma_joined_grows(m0: &TileMap, m1: &TileMap, a: Rect, b: Rect)
    requires
        joined(m0, a, b),
        forall|x: int, y: int| #[trigger] floor_at(m0, x, y) ==> floor_at(m1, x, y),
    ensures
        joined(m1, a, b),
{
    let (ax, ay) = a.spec_center();
    let (bx, by) = b.spec_center();
    if h_then_v_clear(m0, ax, ay, bx, by) {
        assert forall|i: int| min_int(ax, bx) <= i <= max_int(ax, bx) implies #[trigger] floor_at(m1, i, ay) by {
            assert(floor_at(m0, i, ay));
        }
        assert forall|j: int| min_int(ay, by) <= j <= max_int(ay, by) implies #[trigger] floor_at(m1, bx, j) by {
            assert(floor_at(m0, bx, j));
        }
    } else {
        assert forall|j: int| min_int(ay, by) <= j <= max_int(ay, by) implies #[trigger] floor_at(m1, ax, j) by {
            assert(floor_at(m0, ax, j));
        }
        assert forall|i: int| min_int(ax, bx) <= i <= max_int(ax, bx) implies #[trigger] floor_at(m1, i, by) by {
            assert(floor_at(m0, i, by));
        }
    }
}

proof fn lemma_layout_grows(m0: &TileMap, m1: &TileMap, rooms: Seq<Rect>)
    requires
        rooms_laid_out(m0, rooms),
        forall|x: int, y: int| #[trigger] floor_at(m0, x, y) ==> floor_at(m1, x, y),
    ensures
        rooms_laid_out(m1, rooms),
{
    assert forall|k: int| 0 < k < rooms.len() implies joined(m1, rooms[k - 1], #[trigger] rooms[k]) by {
        lemma_joined_grows(m0, m1, rooms[k - 1], rooms[k]);
    }
    assert forall|k: int, x: int, y: int| 0 <= k < rooms.len() && (#[trigger] rooms[k]).in_interior(x, y)
        implies #[trigger] floor_at(m1, x, y) by {
        assert(floor_at(m0, x, y));
    }
}

/// Generates a level: up to `MAX_ROOMS` candidate rooms of random size and place, each
/// kept unless it overlaps one kept before, carved out, joined by a tunnel to the
/// previous one and populated for dungeon level `level`. The player is moved to the
/// center of the first room, and stairs are added at the center of the last.
pub fn make_map(objects: &mut Vec<Object>, level: u32) -> (map: TileMap)
    requires
        old(objects)@.len() > PLAYER,
    ensures
        exists|rooms: Seq<Rect>, h_first: Seq<bool>| #[trigger] dungeon_layout(&map, rooms, h_first, final(objects)@),
        final(objects)@.len() > old(objects)@.len(),
        final(objects)@[PLAYER as int] == (Object {
            x: final(objects)@[PLAYER as int].x,
            y: final(objects)@[PLAYER as int].y,
            ..old(objects)@[PLAYER as int]
        }),
        forall|i: int| PLAYER < i < old(objects)@.len() ==> #[trigger] final(objects)@[i] == old(objects)@[i],
{
    let mut map = wall_map();
    let mut rooms: Vec<Rect> = Vec::new();
    let ghost mut hs: Seq<bool> = Seq::empty();
    let mut attempt: i32 = 0;
    while attempt < MAX_ROOMS
        invariant
            0 <= attempt <= MAX_ROOMS,
            map_wf(&map),
            rooms@.len() <= attempt,
            hs.len() == rooms@.len(),
            map_is_carved(&map, rooms@, hs),
            rooms_laid_out(&map, rooms@),
            attempt > 0 ==> rooms@.len() > 0,
            old(objects)@.len() > PLAYER,
            objects@.len() >= old(objects)@.len(),
            rooms@.len() > 0 ==> (objects@[PLAYER as int].x as int, objects@[PLAYER as int].y as int) == rooms@[0].spec_center(),
            objects@[PLAYER as int] == (Object {
                x: objects@[PLAYER as int].x,
                y: objects@[PLAYER as int].y,
                ..old(objects)@[PLAYER as int]
            }),
            forall|i: int| PLAYER < i < old(objects)@.len() ==> #[trigger] objects@[i] == old(objects)@[i],
        decreases MAX_ROOMS - attempt,
    {
        let w = random_range(ROOM_MIN_SIZE, ROOM_MAX_SIZE + 1);
        let h = random_range(ROOM_MIN_SIZE, ROOM_MAX_SIZE + 1);
        let x = random_range(0, MAP_WIDTH - w);
        let y = random_range(0, MAP_HEIGHT - h);
        let new_room = Rect::new(x, y, w, h);
        if !overlaps_any(&new_room, &rooms) {
            let ghost m0 = map;
            create_room(new_room, &mut map);
            let ghost m_room = map;
            proof {
                lemma_carve_keeps_floor(&m0, &map, |i: int, j: int| new_room.in_interior(i, j));
                lemma_layout_grows(&m0, &map, rooms@);
            }
            let (new_x, new_y) = new_room.center();
            let mut h_first = false;
            if rooms.len() == 0 {
                objects[PLAYER].set_pos(new_x, new_y);
            } else {
                let (prev_x, prev_y) = rooms[rooms.len() - 1].center();
                let ghost m1 = map;
                h_first = random_bool();
                connect(prev_x, prev_y, new_x, new_y, h_first, &mut map);
                proof { lemma_layout_grows(&m1, &map, rooms@); }
            }
            proof {
                let r1 = rooms@.push(new_room);
                let h1 = hs.push(h_first);
                assert(r1.drop_last() =~= rooms@);
                assert(h1.drop_last() =~= hs);
                assert forall|i: int, j: int| #[trigger] in_bounds(i, j) implies tile_at(&map, i, j) == (if carved_by(r1, h1, i, j) {
                    floor()
                } else {
                    wall_tile()
                }) by {
                    assert(in_bounds(i, j));
                    assert(tile_at(&m_room, i, j) == (if new_room.in_interior(i, j) { floor() } else { tile_at(&m0, i, j) }));
                }
                hs = h1;
            }
            let ghost before_place = objects@;
            place_objects(new_room, &map, objects, level);
            proof {
                assert(objects@[PLAYER as int] == before_place[PLAYER as int]);
            }
            let ghost r0 = rooms@;
            rooms.push(new_room);
            proof {
                assert(rooms@[rooms@.len() - 1] == new_room);
                assert forall|k: int, l: int| 0 <= k < l < rooms@.len() implies !(#[trigger] rooms@[k]).overlaps(#[trigger] rooms@[l]) by {
                    if l < r0.len() {
                        assert(rooms@[k] == r0[k] && rooms@[l] == r0[l]);
                    } else {
                        assert(rooms@[k] == r0[k]);
                        assert(!new_room.overlaps(r0[k]));
                    }
                }
                assert forall|k: int, i: int, j: int| 0 <= k < rooms@.len() && (#[trigger] rooms@[k]).in_interior(i, j)
                    implies #[trigger] floor_at(&map, i, j) by {
                    if k < r0.len() {
                        assert(rooms@[k] == r0[k]);
                    } else {
                        assert(in_bounds(i, j));
                        assert(floor_at(&m_room, i, j));
                    }
                }
                assert forall|k: int| 0 < k < rooms@.len() implies joined(&map, rooms@[k - 1], #[trigger] rooms@[k]) by {
                    if k < r0.len() {
                        assert(rooms@[k] == r0[k] && rooms@[k - 1] == r0[k - 1]);
                    } else {
                        assert(rooms@[k - 1] == r0[r0.len() - 1]);
                    }
                }
            }
        }
        attempt = attempt + 1;
    }
    let (last_x, last_y) = rooms[rooms.len() - 1].center();
    let mut stairs = Object::new(last_x, last_y, '<', "stairs", Color::White, false);
    stairs.always_visible = true;
    objects.push(stairs);
    assert(dungeon_layout(&map, rooms@, hs, objects@));
    map
}

} // verus!
