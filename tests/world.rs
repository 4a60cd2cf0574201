use roguelike::codec::{load, save, LoadError};
use roguelike::game::Game;
use roguelike::inventory::{drop_item, get_equipped_in_slot, pick_item_up, toggle_equipment, UseResult};
use roguelike::manager::ObjectsManager;
use roguelike::map::{
    create_h_tunnel, create_room, create_v_tunnel, from_dungeon_level, is_blocked, is_in_fov, make_map, place_objects,
    Transition,
};
use roguelike::messages::{Message, MessageKind};
use roguelike::object::{Ai, Color, DeathCallback, Equipment, Fighter, Item, Object, Slot};
use roguelike::object::MonsterType;
use roguelike::rect::Rect;
use roguelike::spawn::{populate_room, Spawn};
use roguelike::spells::{cast_confuse, cast_fireball, cast_heal, cast_lightning, closest_monster, use_item};
use roguelike::tile::Tile;

fn wall_map() -> Vec<Vec<Tile>> {
    vec![vec![Tile::wall(); 43]; 80]
}

fn open_map() -> Vec<Vec<Tile>> {
    vec![vec![Tile::empty(); 43]; 80]
}

fn game_with(map: Vec<Vec<Tile>>) -> Game {
    Game { map, log: Vec::new(), inventory: Vec::new(), dungeon_level: 1 }
}

fn all_visible() -> Vec<Vec<bool>> {
    vec![vec![true; 43]; 80]
}

fn player_at(x: i32, y: i32) -> Object {
    let mut p = Object::new(x, y, '@', "player", Color::White, true);
    p.alive = true;
    p.is_player = true;
    p.fighter = Some(Fighter {
        base_max_hp: 30,
        hp: 30,
        base_defense: 2,
        base_power: 5,
        xp: 0,
        on_death: DeathCallback::Player,
    });
    p
}

fn orc_at(x: i32, y: i32) -> Object {
    let mut o = Object::new(x, y, 'o', "orc", Color::DesaturatedGreen, true);
    o.alive = true;
    o.ai = Some(Ai::Basic);
    o.fighter = Some(Fighter {
        base_max_hp: 20,
        hp: 20,
        base_defense: 0,
        base_power: 4,
        xp: 35,
        on_death: DeathCallback::Monster,
    });
    o
}

fn potion_at(x: i32, y: i32) -> Object {
    let mut o = Object::new(x, y, '!', "healing potion", Color::Violet, false);
    o.item = Some(Item::Heal);
    o
}

fn gear(name: &str, item: Item, slot: Slot, power: i32, defense: i32, hp: i32) -> Object {
    let mut o = Object::new(0, 0, '/', name, Color::Sky, false);
    o.item = Some(item);
    o.equipment = Some(Equipment { slot, equipped: false, max_hp_bonus: hp, power_bonus: power, defense_bonus: defense });
    o
}

#[test]
fn tiles_are_floor_or_wall() {
    let e = Tile::empty();
    assert!(!e.blocked && !e.block_sight && !e.explored);
    let w = Tile::wall();
    assert!(w.blocked && w.block_sight && !w.explored);
}

#[test]
fn rects_center_and_overlap() {
    let a = Rect::new(10, 10, 6, 8);
    assert_eq!((a.x2, a.y2), (16, 18));
    assert_eq!(a.center(), (13, 14));
    assert!(a.intersects_with(&Rect::new(16, 18, 6, 6)));
    assert!(!a.intersects_with(&Rect::new(17, 10, 6, 6)));
}

#[test]
fn level_table_takes_highest_threshold() {
    let table = [Transition { level: 1, value: 2 }, Transition { level: 4, value: 3 }, Transition { level: 6, value: 5 }];
    assert_eq!(from_dungeon_level(&table, 0), 0);
    assert_eq!(from_dungeon_level(&table, 1), 2);
    assert_eq!(from_dungeon_level(&table, 3), 2);
    assert_eq!(from_dungeon_level(&table, 4), 3);
    assert_eq!(from_dungeon_level(&table, 5), 3);
    assert_eq!(from_dungeon_level(&table, 9), 5);
    assert_eq!(from_dungeon_level(&[], 9), 0);
}

#[test]
fn rooms_and_tunnels_are_carved() {
    let mut map = wall_map();
    create_room(Rect::new(2, 3, 5, 4), &mut map);
    for x in 0..80 {
        for y in 0..43 {
            let inside = x > 2 && x < 7 && y > 3 && y < 7;
            assert_eq!(map[x][y].blocked, !inside, "cell {} {}", x, y);
        }
    }
    let mut map = wall_map();
    create_h_tunnel(9, 4, 20, &mut map);
    create_v_tunnel(30, 25, 40, &mut map);
    for x in 0..80usize {
        for y in 0..43usize {
            let on_h = y == 20 && (4..=9).contains(&x);
            let on_v = x == 40 && (25..=30).contains(&y);
            assert_eq!(map[x][y].blocked, !(on_h || on_v), "cell {} {}", x, y);
        }
    }
}

#[test]
fn generated_map_places_player_and_stairs_on_floor() {
    for level in 1..8 {
        let mut objects = vec![player_at(0, 0)];
        let map = make_map(&mut objects, level);
        assert_eq!(map.len(), 80);
        assert!(map.iter().all(|c| c.len() == 43));
        assert!(objects.len() >= 2);
        let p = &objects[0];
        assert!(p.is_player);
        assert!(!map[p.x as usize][p.y as usize].blocked);
        let stairs = objects.last().unwrap();
        assert_eq!(stairs.name, "stairs");
        assert!(stairs.always_visible);
        assert!(!map[stairs.x as usize][stairs.y as usize].blocked);
        for o in &objects {
            assert!(o.x >= 0 && o.x < 80 && o.y >= 0 && o.y < 43);
            assert!(!map[o.x as usize][o.y as usize].blocked);
        }
        for o in &objects[1..objects.len() - 1] {
            assert!(o.name == "orc" || o.name == "troll" || o.item.is_some(), "{}", o.name);
        }
    }
}

#[test]
fn placed_objects_stay_inside_room() {
    let mut map = wall_map();
    let room = Rect::new(10, 10, 8, 8);
    create_room(room, &mut map);
    let mut objects = vec![player_at(0, 0)];
    for _ in 0..20 {
        place_objects(room, &map, &mut objects, 8);
    }
    assert!(objects.len() > 1);
    for o in &objects[1..] {
        assert!(o.x > 10 && o.x < 18 && o.y > 10 && o.y < 18);
        if o.fighter.is_some() {
            assert!(o.name == "orc" || o.name == "troll");
            assert!(o.alive && o.blocks);
        } else {
            assert!(o.item.is_some() && o.always_visible);
        }
    }
}

#[test]
fn blocked_cells_and_view() {
    let map = open_map();
    let objects = vec![player_at(3, 3), potion_at(4, 4)];
    assert!(is_blocked(3, 3, &map, &objects));
    assert!(!is_blocked(4, 4, &map, &objects));
    assert!(is_blocked(1, 1, &wall_map(), &objects));
    let mut fov = vec![vec![false; 43]; 80];
    fov[5][6] = true;
    assert!(is_in_fov(&fov, 5, 6));
    assert!(!is_in_fov(&fov, 6, 5));
    assert!(!is_in_fov(&fov, -1, 6));
    assert!(!is_in_fov(&fov, 80, 6));
}

#[test]
fn moves_respect_walls_and_edges() {
    let mut map = open_map();
    map[5][4] = Tile::wall();
    let mut store = ObjectsManager { objects: vec![player_at(5, 5), orc_at(6, 6)] };
    store.move_by(0, 0, -1, &map);
    assert_eq!(store.objects[0].pos(), (5, 5));
    store.move_by(0, 1, 1, &map);
    assert_eq!(store.objects[0].pos(), (5, 5));
    store.move_by(0, -1, 0, &map);
    assert_eq!(store.objects[0].pos(), (4, 5));
    let mut edge = ObjectsManager { objects: vec![player_at(0, 0)] };
    edge.move_by(0, -1, 0, &map);
    assert_eq!(edge.objects[0].pos(), (0, 0));
}

#[test]
fn move_towards_steps_along_the_larger_axis() {
    let map = open_map();
    let mut store = ObjectsManager { objects: vec![player_at(10, 10), orc_at(20, 11)] };
    store.move_towards(1, 10, 10, &map);
    assert_eq!(store.objects[1].pos(), (19, 11));
    store.move_towards(1, 14, 5, &map);
    assert_eq!(store.objects[1].pos(), (18, 10));
    store.move_towards(1, 18, 1, &map);
    assert_eq!(store.objects[1].pos(), (18, 9));
}

#[test]
fn player_moves_or_attacks() {
    let mut game = game_with(open_map());
    let mut store = ObjectsManager { objects: vec![player_at(5, 5), orc_at(6, 5)] };
    store.player_move_or_attack(1, 0, &mut game);
    assert_eq!(store.objects[0].pos(), (5, 5));
    assert_eq!(store.objects[1].fighter.unwrap().hp, 15);
    store.player_move_or_attack(0, 1, &mut game);
    assert_eq!(store.objects[0].pos(), (5, 6));
}

#[test]
fn monster_walks_toward_then_attacks() {
    let mut game = game_with(open_map());
    let fov = all_visible();
    let mut store = ObjectsManager { objects: vec![player_at(5, 5), orc_at(9, 5)] };
    store.ai_take_turn(1, &mut game, &fov);
    assert_eq!(store.objects[1].pos(), (8, 5));
    store.ai_turn(&mut game, &fov);
    store.ai_turn(&mut game, &fov);
    assert_eq!(store.objects[1].pos(), (6, 5));
    store.ai_turn(&mut game, &fov);
    assert_eq!(store.objects[0].fighter.unwrap().hp, 28);
    let hidden = vec![vec![false; 43]; 80];
    store.ai_turn(&mut game, &hidden);
    assert_eq!(store.objects[0].fighter.unwrap().hp, 28);
    assert_eq!(store.objects[1].ai, Some(Ai::Basic));
}

#[test]
fn confusion_counts_down_then_reverts() {
    let mut game = game_with(open_map());
    let fov = all_visible();
    let mut store = ObjectsManager { objects: vec![player_at(5, 5), orc_at(20, 20)] };
    let r = cast_confuse(0, &mut store, &mut game, Some(1));
    assert_eq!(r, UseResult::UsedUp);
    assert_eq!(
        store.objects[1].ai,
        Some(Ai::Confused { previous_ai: Box::new(Ai::Basic), num_turns: 10 })
    );
    for turn in 0..11 {
        let (x, y) = store.objects[1].pos();
        store.ai_take_turn(1, &mut game, &fov);
        let (nx, ny) = store.objects[1].pos();
        assert!((nx - x).abs() <= 1 && (ny - y).abs() <= 1);
        assert_eq!(
            store.objects[1].ai,
            Some(Ai::Confused { previous_ai: Box::new(Ai::Basic), num_turns: 9 - turn })
        );
    }
    store.ai_take_turn(1, &mut game, &fov);
    assert_eq!(store.objects[1].ai, Some(Ai::Basic));
    assert_eq!(game.log.last().unwrap().kind, MessageKind::NoLongerConfused);
}

#[test]
fn confused_step_moves_by_the_drawn_offset() {
    let mut game = game_with(open_map());
    let mut store = ObjectsManager { objects: vec![player_at(5, 5), orc_at(20, 20)] };
    let next = store.confused_step(1, &mut game, Box::new(Ai::Basic), 0, 1, -1);
    assert_eq!(store.objects[1].pos(), (21, 19));
    assert_eq!(next, Ai::Confused { previous_ai: Box::new(Ai::Basic), num_turns: -1 });
    let back = store.confused_step(1, &mut game, Box::new(Ai::Basic), -1, 1, 1);
    assert_eq!(back, Ai::Basic);
    assert_eq!(store.objects[1].pos(), (21, 19));
}

#[test]
fn pickup_with_full_inventory_leaves_item() {
    let mut game = game_with(open_map());
    for i in 0..26 {
        game.inventory.push(potion_at(i, 0));
    }
    let mut store = ObjectsManager { objects: vec![player_at(5, 5), potion_at(5, 5)] };
    pick_item_up(1, &mut store, &mut game);
    assert_eq!(game.inventory.len(), 26);
    assert_eq!(store.objects.len(), 2);
    assert_eq!(store.objects[1].name, "healing potion");
    let last = game.log.last().unwrap();
    assert_eq!(last.kind, MessageKind::InventoryFull);
    assert_eq!(last.subject, "healing potion");
}

#[test]
fn pickup_and_drop_move_the_item() {
    let mut game = game_with(open_map());
    let mut store = ObjectsManager { objects: vec![player_at(5, 5), potion_at(5, 5), orc_at(9, 9)] };
    pick_item_up(1, &mut store, &mut game);
    assert_eq!(game.inventory.len(), 1);
    assert_eq!(store.objects.len(), 2);
    assert_eq!(store.objects[1].name, "orc");
    assert_eq!(game.log.last().unwrap().kind, MessageKind::PickedUp);
    store.objects[0].set_pos(7, 8);
    drop_item(0, &mut store, &mut game);
    assert!(game.inventory.is_empty());
    assert_eq!(store.objects[2].pos(), (7, 8));
    assert_eq!(game.log.last().unwrap().kind, MessageKind::Dropped);
}

#[test]
fn dropping_equipment_takes_it_off() {
    let mut game = game_with(open_map());
    let mut store = ObjectsManager { objects: vec![player_at(5, 5)] };
    game.inventory.push(gear("sword", Item::Sword, Slot::RightHand, 3, 0, 0));
    toggle_equipment(0, &mut store, &mut game);
    assert_eq!(store.objects[0].power(&game), 8);
    drop_item(0, &mut store, &mut game);
    assert!(!store.objects[1].equipment.unwrap().equipped);
    assert_eq!(store.objects[0].power(&game), 5);
}

#[test]
fn equipping_replaces_the_slot_occupant() {
    let mut game = game_with(open_map());
    let mut store = ObjectsManager { objects: vec![player_at(5, 5)] };
    game.inventory.push(gear("sword", Item::Sword, Slot::RightHand, 3, 0, 0));
    game.inventory.push(gear("shield", Item::Shield, Slot::LeftHand, 0, 1, 5));
    game.inventory.push(gear("axe", Item::Sword, Slot::RightHand, 4, 0, 0));
    assert_eq!(toggle_equipment(0, &mut store, &mut game), UseResult::UsedAndKept);
    assert_eq!(toggle_equipment(1, &mut store, &mut game), UseResult::UsedAndKept);
    assert_eq!(get_equipped_in_slot(Slot::RightHand, &game.inventory), Some(0));
    let p = &store.objects[0];
    assert_eq!(p.power(&game), 8);
    assert_eq!(p.defense(&game), 3);
    assert_eq!(p.max_hp(&game), 35);
    toggle_equipment(2, &mut store, &mut game);
    assert!(!game.inventory[0].equipment.unwrap().equipped);
    assert!(game.inventory[1].equipment.unwrap().equipped);
    assert!(game.inventory[2].equipment.unwrap().equipped);
    assert_eq!(get_equipped_in_slot(Slot::RightHand, &game.inventory), Some(2));
    let p = &store.objects[0];
    assert_eq!(p.power(&game), 9);
    assert_eq!(p.get_all_equipped(&game).len(), 2);
    let kinds: Vec<MessageKind> = game.log.iter().map(|m| m.kind).collect();
    assert_eq!(
        kinds,
        vec![MessageKind::Equipped, MessageKind::Equipped, MessageKind::Dequipped, MessageKind::Equipped]
    );
    assert_eq!(game.log[2].subject, "sword");
    assert_eq!(game.log[2].object, "right hand");
    toggle_equipment(2, &mut store, &mut game);
    assert_eq!(store.objects[0].power(&game), 5);
    let monster = orc_at(1, 1);
    assert_eq!(monster.power(&game), 4);
}

#[test]
fn heal_spell_refuses_at_full_health() {
    let mut game = game_with(open_map());
    let mut store = ObjectsManager { objects: vec![player_at(5, 5)] };
    assert_eq!(cast_heal(0, &mut store, &mut game), UseResult::Cancelled);
    assert_eq!(game.log[0].kind, MessageKind::FullHealth);
    store.objects[0].fighter = Some(Fighter { hp: 20, ..store.objects[0].fighter.unwrap() });
    assert_eq!(cast_heal(0, &mut store, &mut game), UseResult::UsedUp);
    assert_eq!(store.objects[0].fighter.unwrap().hp, 24);
}

#[test]
fn lightning_hits_the_closest_visible_monster() {
    let mut game = game_with(open_map());
    let fov = all_visible();
    let mut store = ObjectsManager { objects: vec![player_at(10, 10), orc_at(14, 10), orc_at(12, 12), orc_at(13, 10)] };
    assert_eq!(closest_monster(5, &store, &fov), Some(2));
    assert_eq!(closest_monster(1, &store, &fov), None);
    assert_eq!(cast_lightning(0, &mut store, &mut game, &fov), UseResult::UsedUp);
    assert!(!store.objects[2].alive);
    assert_eq!(store.objects[2].name, "remains of orc");
    assert_eq!(store.objects[0].fighter.unwrap().xp, 35);
    assert_eq!(closest_monster(5, &store, &fov), Some(3));
    let far = ObjectsManager { objects: vec![player_at(10, 10), orc_at(16, 10)] };
    assert_eq!(closest_monster(5, &far, &fov), None);
    let mut far = far;
    assert_eq!(cast_lightning(0, &mut far, &mut game, &fov), UseResult::Cancelled);
    assert_eq!(game.log.last().unwrap().kind, MessageKind::NoEnemyClose);
}

#[test]
fn fireball_burns_everyone_in_radius() {
    let mut game = game_with(open_map());
    let mut store = ObjectsManager { objects: vec![player_at(10, 10), orc_at(12, 10), orc_at(20, 20), potion_at(11, 10)] };
    assert_eq!(cast_fireball(0, &mut store, &mut game, None), UseResult::Cancelled);
    assert!(game.log.is_empty());
    assert_eq!(cast_fireball(0, &mut store, &mut game, Some((11, 10))), UseResult::UsedUp);
    assert_eq!(store.objects[0].fighter.unwrap().hp, 18);
    assert_eq!(store.objects[1].fighter.unwrap().hp, 8);
    assert_eq!(store.objects[2].fighter.unwrap().hp, 20);
    assert_eq!(cast_fireball(0, &mut store, &mut game, Some((12, 10))), UseResult::UsedUp);
    assert!(!store.objects[1].alive);
    assert_eq!(store.objects[0].fighter.unwrap().xp, 35);
}

#[test]
fn use_item_dispatches_and_spends() {
    let mut game = game_with(open_map());
    let fov = all_visible();
    let mut store = ObjectsManager { objects: vec![player_at(10, 10), orc_at(12, 10)] };
    game.inventory.push(potion_at(0, 0));
    let mut scroll = Object::new(0, 0, '#', "scroll of confusion", Color::LightYellow, false);
    scroll.item = Some(Item::Confuse);
    game.inventory.push(scroll);
    game.inventory.push(Object::new(0, 0, '<', "rock", Color::White, false));
    use_item(0, &mut store, &mut game, &fov, None, None);
    assert_eq!(game.inventory.len(), 3);
    assert_eq!(game.log.last().unwrap().kind, MessageKind::Cancelled);
    use_item(1, &mut store, &mut game, &fov, None, None);
    assert_eq!(game.inventory.len(), 3);
    use_item(1, &mut store, &mut game, &fov, Some(1), None);
    assert_eq!(game.inventory.len(), 2);
    assert!(matches!(store.objects[1].ai, Some(Ai::Confused { .. })));
    use_item(1, &mut store, &mut game, &fov, None, None);
    assert_eq!(game.inventory.len(), 2);
    assert_eq!(game.log.last().unwrap().kind, MessageKind::CannotUse);
    store.objects[0].fighter = Some(Fighter { hp: 3, ..store.objects[0].fighter.unwrap() });
    use_item(0, &mut store, &mut game, &fov, None, None);
    assert_eq!(game.inventory.len(), 1);
    assert_eq!(store.objects[0].fighter.unwrap().hp, 7);
}

#[test]
fn save_then_load_gives_back_the_same_game() {
    let mut map = wall_map();
    create_room(Rect::new(2, 2, 6, 6), &mut map);
    map[4][4].explored = true;
    let mut player = player_at(3, 4);
    player.level = 3;
    let mut confused = orc_at(5, 5);
    confused.ai = Some(Ai::Confused { previous_ai: Box::new(Ai::Basic), num_turns: 4 });
    let mut doubly = orc_at(6, 5);
    doubly.ai = Some(Ai::Confused {
        previous_ai: Box::new(Ai::Confused { previous_ai: Box::new(Ai::Basic), num_turns: -2 }),
        num_turns: 7,
    });
    let mut corpse = orc_at(6, 6);
    corpse.fighter = None;
    corpse.ai = None;
    corpse.name = String::from("remains of ünïcode orc");
    let objects = vec![player, confused, doubly, corpse, potion_at(7, 7)];
    let mut sword = gear("sword", Item::Sword, Slot::RightHand, 3, -1, i32::MIN);
    sword.equipment = Some(Equipment { equipped: true, ..sword.equipment.unwrap() });
    let log = vec![
        Message::plain(MessageKind::Welcome),
        Message::new(MessageKind::Attack, "player", "orc", i64::MIN),
        Message::new(MessageKind::LevelUp, "", "", i64::MAX),
    ];
    let game = Game { map, log, inventory: vec![sword, potion_at(0, 0)], dungeon_level: u32::MAX };
    let bytes = save(&objects, &game);
    assert_eq!(bytes.len() % 8, 0);
    let (objects2, game2) = load(&bytes).unwrap();
    assert_eq!(objects2, objects);
    assert_eq!(game2, game);
}

#[test]
fn load_rejects_malformed_bytes() {
    assert_eq!(load(&vec![1, 2, 3]), Err(LoadError::Malformed));
    assert_eq!(load(&Vec::new()), Err(LoadError::Malformed));
    let objects = vec![player_at(1, 1)];
    let game = game_with(wall_map());
    let mut bytes = save(&objects, &game);
    bytes.truncate(bytes.len() - 8);
    assert_eq!(load(&bytes), Err(LoadError::Malformed));
    let mut bytes = save(&objects, &game);
    bytes.extend_from_slice(&[0; 8]);
    assert_eq!(load(&bytes), Err(LoadError::Malformed));
}

#[test]
fn level_table_ignores_entry_order() {
    let table = [Transition { level: 5, value: 50 }, Transition { level: 1, value: 10 }];
    assert_eq!(from_dungeon_level(&table, 6), 50);
    assert_eq!(from_dungeon_level(&table, 3), 10);
    assert_eq!(from_dungeon_level(&table, 0), 0);
}

#[test]
fn equipment_without_item_kind_is_taken_off() {
    let mut game = game_with(open_map());
    let mut store = ObjectsManager { objects: vec![player_at(5, 5)] };
    let mut odd = gear("ring", Item::Sword, Slot::RightHand, 1, 0, 0);
    odd.item = None;
    odd.equipment = Some(Equipment { equipped: true, ..odd.equipment.unwrap() });
    game.inventory.push(odd);
    game.inventory.push(gear("sword", Item::Sword, Slot::RightHand, 3, 0, 0));
    toggle_equipment(1, &mut store, &mut game);
    assert!(!game.inventory[0].equipment.unwrap().equipped);
    assert!(game.inventory[1].equipment.unwrap().equipped);
    let mut odd = gear("amulet", Item::Sword, Slot::Head, 0, 1, 0);
    odd.item = None;
    odd.equipment = Some(Equipment { equipped: true, ..odd.equipment.unwrap() });
    game.inventory.push(odd);
    drop_item(2, &mut store, &mut game);
    assert!(!store.objects[1].equipment.unwrap().equipped);
}

#[test]
fn pickup_keeps_the_store_order() {
    let mut game = game_with(open_map());
    let mut store =
        ObjectsManager { objects: vec![player_at(5, 5), potion_at(5, 5), orc_at(9, 9), orc_at(9, 10), potion_at(1, 1)] };
    pick_item_up(1, &mut store, &mut game);
    let positions: Vec<(i32, i32)> = store.objects.iter().map(|o| o.pos()).collect();
    assert_eq!(positions, vec![(5, 5), (9, 9), (9, 10), (1, 1)]);
}

#[test]
fn fireball_xp_is_the_sum_of_kills() {
    let mut game = game_with(open_map());
    let mut a = orc_at(11, 10);
    a.fighter = Some(Fighter { hp: 5, ..a.fighter.unwrap() });
    let mut b = orc_at(12, 11);
    b.fighter = Some(Fighter { hp: 12, xp: 100, ..b.fighter.unwrap() });
    let c = orc_at(10, 12);
    let mut store = ObjectsManager { objects: vec![player_at(10, 10), a, b, c] };
    cast_fireball(0, &mut store, &mut game, Some((11, 11)));
    assert_eq!(store.objects[0].fighter.unwrap().xp, 135);
    assert_eq!(store.objects[3].fighter.unwrap().hp, 8);
    assert_eq!(store.objects[0].fighter.unwrap().hp, 18);
    // the announcement has left the six-entry log; the player was burned first
    let kinds: Vec<MessageKind> = game.log.iter().map(|m| m.kind).collect();
    assert_eq!(
        kinds,
        vec![
            MessageKind::Burned,
            MessageKind::Burned,
            MessageKind::MonsterDied,
            MessageKind::Burned,
            MessageKind::MonsterDied,
            MessageKind::Burned,
        ]
    );
}

#[test]
fn populate_room_uses_the_first_free_cell() {
    let map = open_map();
    let mut objects = vec![player_at(5, 5)];
    let requests = vec![
        (vec![(5, 5), (6, 6)], Spawn::Monster(MonsterType::Orc)),
        (vec![(6, 6), (7, 7)], Spawn::Monster(MonsterType::Troll)),
        (vec![(7, 7), (0, 0)], Spawn::Item(Item::Sword)),
        (vec![(-1, 3), (80, 0)], Spawn::Item(Item::Heal)),
    ];
    populate_room(&map, &mut objects, &requests);
    assert_eq!(objects.len(), 4);
    assert_eq!((objects[1].name.as_str(), objects[1].pos()), ("orc", (6, 6)));
    assert_eq!(objects[1].fighter.unwrap().hp, 20);
    assert_eq!((objects[2].name.as_str(), objects[2].pos()), ("troll", (7, 7)));
    assert_eq!(objects[2].fighter.unwrap().base_power, 8);
    assert_eq!((objects[3].name.as_str(), objects[3].pos()), ("sword", (0, 0)));
    assert!(!objects[3].blocks && objects[3].always_visible);
    assert_eq!(objects[3].equipment.unwrap().power_bonus, 3);
}

#[test]
fn load_rejects_a_corrupted_count() {
    let objects = vec![player_at(1, 1)];
    let game = game_with(wall_map());
    let mut bytes = save(&objects, &game);
    bytes[0] = 2;
    assert_eq!(load(&bytes), Err(LoadError::Malformed));
}
