use roguelike::game::{level_up, Game};
use roguelike::manager::ObjectsManager;
use roguelike::messages::{message, Message, MessageKind, MessageLog};
use roguelike::object::{Ai, Color, DeathCallback, Fighter, LevelUpStat, Object};
use roguelike::tile::Tile;

fn wall_map() -> Vec<Vec<Tile>> {
    vec![vec![Tile::wall(); 43]; 80]
}

fn new_game() -> Game {
    Game { map: wall_map(), log: Vec::new(), inventory: Vec::new(), dungeon_level: 1 }
}

fn player_at(x: i32, y: i32) -> Object {
    let mut p = Object::new(x, y, '@', "player", Color::White, true);
    p.alive = true;
    p.is_player = true;
    p.fighter = Some(Fighter {
        base_max_hp: 30,
        hp: 30,
        base_defense: 2,
        base_power: 5,
        xp: 0,
        on_death: DeathCallback::Player,
    });
    p
}

fn orc_at(x: i32, y: i32) -> Object {
    let mut o = Object::new(x, y, 'o', "orc", Color::DesaturatedGreen, true);
    o.alive = true;
    o.ai = Some(Ai::Basic);
    o.fighter = Some(Fighter {
        base_max_hp: 20,
        hp: 20,
        base_defense: 0,
        base_power: 4,
        xp: 35,
        on_death: DeathCallback::Monster,
    });
    o
}

#[test]
fn player_kills_orc_in_four_hits() {
    let mut game = new_game();
    let mut player = player_at(1, 1);
    let mut orc = orc_at(2, 1);
    for hit in 1..=4 {
        player.attack(&mut orc, &mut game);
        let last = game.log.last().unwrap();
        assert_eq!(last.kind, if hit < 4 { MessageKind::Attack } else { MessageKind::MonsterDied });
        if hit < 4 {
            assert_eq!(orc.fighter.unwrap().hp, 20 - 5 * hit);
            assert!(orc.alive);
        }
    }
    assert!(!orc.alive);
    assert!(orc.fighter.is_none());
    assert!(orc.ai.is_none());
    assert!(!orc.blocks);
    assert_eq!(orc.name, "remains of orc");
    assert_eq!(orc.char, '%');
    assert_eq!(player.fighter.unwrap().xp, 35);
}

#[test]
fn each_player_attack_deals_five() {
    let mut game = new_game();
    let mut player = player_at(1, 1);
    let mut orc = orc_at(2, 1);
    player.attack(&mut orc, &mut game);
    assert_eq!(orc.fighter.unwrap().hp, 15);
    let m = &game.log[0];
    assert_eq!(m.kind, MessageKind::Attack);
    assert_eq!(m.subject, "player");
    assert_eq!(m.object, "orc");
    assert_eq!(m.amount, 5);
}

#[test]
fn orc_attack_on_player_deals_two() {
    let mut game = new_game();
    let mut player = player_at(1, 1);
    let mut orc = orc_at(2, 1);
    orc.attack(&mut player, &mut game);
    assert_eq!(player.fighter.unwrap().hp, 28);
    assert_eq!(game.log[0].amount, 2);
}

#[test]
fn attack_without_effect_changes_nothing() {
    let mut game = new_game();
    let mut weak = orc_at(1, 1);
    weak.fighter = Some(Fighter { base_power: 2, ..weak.fighter.unwrap() });
    let mut tough = orc_at(2, 1);
    tough.fighter = Some(Fighter { base_defense: 3, ..tough.fighter.unwrap() });
    weak.attack(&mut tough, &mut game);
    assert_eq!(tough.fighter.unwrap().hp, 20);
    assert_eq!(game.log.len(), 1);
    assert_eq!(game.log[0].kind, MessageKind::NoEffect);
    tough.fighter = Some(Fighter { base_defense: 2, ..tough.fighter.unwrap() });
    weak.attack(&mut tough, &mut game);
    assert_eq!(tough.fighter.unwrap().hp, 20);
    assert_eq!(game.log[1].kind, MessageKind::NoEffect);
}

#[test]
fn death_happens_only_once() {
    let mut game = new_game();
    let mut orc = orc_at(2, 1);
    assert_eq!(orc.take_damage(25, &mut game), Some(35));
    assert!(!orc.alive);
    assert_eq!(game.log.len(), 1);
    assert_eq!(orc.take_damage(5, &mut game), None);
    assert!(!orc.alive);
    assert_eq!(game.log.len(), 1);

    let mut player = player_at(1, 1);
    assert_eq!(player.take_damage(30, &mut game), Some(0));
    assert!(!player.alive);
    assert_eq!(player.char, '%');
    assert_eq!(player.color, Color::DarkRed);
    assert_eq!(game.log.last().unwrap().kind, MessageKind::PlayerDied);
    assert_eq!(player.take_damage(3, &mut game), None);
    assert_eq!(player.fighter.unwrap().hp, -3);
    assert_eq!(game.log.len(), 2);
}

#[test]
fn non_positive_damage_is_ignored() {
    let mut game = new_game();
    let mut orc = orc_at(2, 1);
    assert_eq!(orc.take_damage(0, &mut game), None);
    assert_eq!(orc.take_damage(-7, &mut game), None);
    assert_eq!(orc.fighter.unwrap().hp, 20);
}

#[test]
fn heal_is_capped_at_max_hp() {
    let game = new_game();
    let mut player = player_at(1, 1);
    player.fighter = Some(Fighter { hp: 28, ..player.fighter.unwrap() });
    player.heal(4, &game);
    assert_eq!(player.fighter.unwrap().hp, 30);
    player.fighter = Some(Fighter { hp: 10, ..player.fighter.unwrap() });
    player.heal(4, &game);
    assert_eq!(player.fighter.unwrap().hp, 14);
}

#[test]
fn attack_by_id_refuses_same_entity() {
    let mut game = new_game();
    let mut store = ObjectsManager { objects: vec![player_at(1, 1), orc_at(2, 1)] };
    assert!(!store.attack_by_id(1, 1, &mut game));
    assert_eq!(store.objects[1].fighter.unwrap().hp, 20);
    assert!(store.attack_by_id(0, 1, &mut game));
    assert_eq!(store.objects[1].fighter.unwrap().hp, 15);
}

#[test]
fn log_keeps_the_latest_entries() {
    let mut log: Vec<Message> = Vec::new();
    for i in 0..10 {
        message(&mut log, Message::new(MessageKind::Burned, "orc", "", i));
    }
    assert_eq!(log.len(), 6);
    assert_eq!(log[0].amount, 4);
    assert_eq!(log[5].amount, 9);
    log.add(Message::plain(MessageKind::Welcome));
    assert_eq!(log.len(), 6);
    assert_eq!(log[5].kind, MessageKind::Welcome);
    assert_eq!(log[0].amount, 5);
}

#[test]
fn level_up_raises_the_chosen_stat() {
    let mut game = new_game();
    let mut store = ObjectsManager { objects: vec![player_at(1, 1)] };
    assert!(!level_up(&mut store, &mut game, LevelUpStat::Strength));
    store.objects[0].fighter = Some(Fighter { xp: 400, ..store.objects[0].fighter.unwrap() });
    assert!(level_up(&mut store, &mut game, LevelUpStat::Strength));
    let f = store.objects[0].fighter.unwrap();
    assert_eq!(store.objects[0].level, 2);
    assert_eq!(f.xp, 50);
    assert_eq!(f.base_power, 6);
    assert_eq!(game.log[0].kind, MessageKind::LevelUp);
    assert_eq!(game.log[0].amount, 2);
    store.objects[0].fighter = Some(Fighter { xp: 500, ..f });
    assert!(level_up(&mut store, &mut game, LevelUpStat::Constitution));
    let f = store.objects[0].fighter.unwrap();
    assert_eq!(f.base_max_hp, 50);
    assert_eq!(f.hp, 50);
    assert_eq!(f.xp, 0);
    store.objects[0].fighter = Some(Fighter { xp: 650, ..f });
    assert!(level_up(&mut store, &mut game, LevelUpStat::Agility));
    assert_eq!(store.objects[0].fighter.unwrap().base_defense, 3);
}
