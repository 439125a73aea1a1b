use roguelike::combat::{healed_hp, hp_after_damage, melee_damage};
use roguelike::components::{Position, Viewshed, WantsToDrinkPotion, WantsToDropItem, WantsToMelee};
use roguelike::map::{xy_idx, GameMap, TileType, MAPCOUNT, MAPHEIGHT, MAPWIDTH};
use roguelike::rect::Rect;
use roguelike::turn::{next_state, ItemMenuResult, TickEvent};
use roguelike::world::World;
use roguelike::{RunState, State};
use rltk::RandomNumberGenerator;

fn open_map() -> GameMap {
    GameMap::from_room_candidates(&vec![Rect::new(2, 2, 30, 20)]).unwrap()
}

fn flood_fill_reaches_all_floor(map: &GameMap) -> bool {
    let (sx, sy) = map.rooms[0].center();
    let mut seen = vec![false; MAPCOUNT];
    let mut stack = vec![(sx, sy)];
    seen[xy_idx(sx, sy)] = true;
    while let Some((x, y)) = stack.pop() {
        for (dx, dy) in [(1, 0), (-1, 0), (0, 1), (0, -1)] {
            let (nx, ny) = (x + dx, y + dy);
            if nx < 0 || ny < 0 || nx >= MAPWIDTH || ny >= MAPHEIGHT {
                continue;
            }
            let i = xy_idx(nx, ny);
            if !seen[i] && map.tiles[i] == TileType::Floor {
                seen[i] = true;
                stack.push((nx, ny));
            }
        }
    }
    (0..MAPCOUNT).all(|i| map.tiles[i] == TileType::Wall || seen[i])
}

#[test]
fn generated_maps_are_connected() {
    for seed in 0..20u64 {
        let mut rng = RandomNumberGenerator::seeded(seed);
        let map = GameMap::new_map_rooms_and_corridors(&mut rng);
        assert!(!map.rooms.is_empty());
        let (sx, sy) = map.rooms[0].center();
        assert_eq!(map.tiles[xy_idx(sx, sy)], TileType::Floor);
        assert!(flood_fill_reaches_all_floor(&map));
        for (i, a) in map.rooms.iter().enumerate() {
            for b in map.rooms.iter().skip(i + 1) {
                assert!(!a.intersect(b));
            }
        }
    }
}

#[test]
fn generated_rooms_vary_in_size() {
    let mut rng = RandomNumberGenerator::seeded(3);
    let map = GameMap::new_map_rooms_and_corridors(&mut rng);
    assert!(map.rooms.iter().all(|r| r.x2 - r.x1 >= 6 && r.x2 - r.x1 < 10));
    assert!(map.rooms.iter().all(|r| r.x1 >= 0 && r.x2 < MAPWIDTH - 1 && r.y2 < MAPHEIGHT - 1));
    let mut widths = Vec::new();
    let mut most_rooms = 0;
    for seed in 0..10u64 {
        let mut rng = RandomNumberGenerator::seeded(seed);
        let map = GameMap::new_map_rooms_and_corridors(&mut rng);
        most_rooms = most_rooms.max(map.rooms.len());
        widths.extend(map.rooms.iter().map(|r| r.x2 - r.x1));
    }
    assert!(most_rooms > 1);
    assert!(widths.iter().any(|&w| w != widths[0]));
}

#[test]
fn candidates_that_collide_or_leave_the_grid_are_skipped() {
    let cands = vec![
        Rect::new(70, 40, 20, 20),
        Rect::new(2, 2, 8, 8),
        Rect::new(5, 5, 8, 8),
        Rect::new(30, 20, 8, 8),
    ];
    let map = GameMap::from_room_candidates(&cands).unwrap();
    assert_eq!(map.rooms, vec![cands[1], cands[3]]);
    assert!(flood_fill_reaches_all_floor(&map));
    // corridor along row 6 from x 6 to x 34, then down column 34 to row 24
    assert_eq!(map.tiles[xy_idx(20, 6)], TileType::Floor);
    assert_eq!(map.tiles[xy_idx(34, 15)], TileType::Floor);
    assert_eq!(map.tiles[xy_idx(20, 15)], TileType::Wall);
    assert!(GameMap::from_room_candidates(&vec![Rect::new(75, 0, 10, 10)]).is_none());
    assert!(GameMap::from_room_candidates(&vec![]).is_none());
}

#[test]
fn rect_center_and_intersect() {
    let a = Rect::new(2, 4, 6, 8);
    assert_eq!(a.center(), (5, 8));
    assert!(a.intersect(&Rect::new(8, 12, 3, 3)));
    assert!(!a.intersect(&Rect::new(9, 12, 3, 3)));
    assert_eq!(Rect::new(-5, -5, 2, 2).center(), (-4, -4));
    assert_eq!(Rect::new(-5, -5, 1, 1).center(), (-5, -5));
}

#[test]
fn melee_damage_is_at_least_one() {
    assert_eq!(melee_damage(5, 1), 4);
    assert_eq!(melee_damage(4, 2), 2);
    assert_eq!(melee_damage(2, 2), 1);
    assert_eq!(melee_damage(1, 10), 1);
    assert_eq!(melee_damage(i32::MAX, i32::MIN), 4294967295);
}

#[test]
fn damage_sums_pending_amounts() {
    assert_eq!(hp_after_damage(16, &vec![3, 4]), 9);
    assert_eq!(hp_after_damage(5, &vec![]), 5);
    assert_eq!(hp_after_damage(5, &vec![10]), -5);
    assert_eq!(hp_after_damage(i32::MIN, &vec![1]), i32::MIN);
}

#[test]
fn healing_is_capped() {
    assert_eq!(healed_hp(25, 30, 8), 30);
    assert_eq!(healed_hp(10, 30, 8), 18);
    assert_eq!(healed_hp(40, 30, 8), 30);
}

fn duel() -> (World, usize, usize) {
    let mut w = World::new(open_map());
    let p = w.spawn_player(10, 10);
    let m = w.spawn_monster(11, 10, true);
    (w, p, m)
}

#[test]
fn player_and_monster_trade_blows() {
    let (mut w, p, m) = duel();
    w.entities[p].wants_melee = Some(WantsToMelee { target: m });
    w.melee_combat_system();
    w.damage_system();
    assert_eq!(w.entities[m].stats.unwrap().hp, 12);
    assert!(w.entities[p].wants_melee.is_none());
    assert!(w.entities[m].suffer_damage.is_none());
    assert_eq!(w.log.last().unwrap(), "Player hits Orc, for 4 hp.");
    w.entities[m].viewshed = Some(Viewshed { visible_tiles: vec![Position { x: 10, y: 10 }], range: 8, dirty: false });
    w.monster_ai_system();
    assert_eq!(w.entities[m].wants_melee, Some(WantsToMelee { target: p }));
    w.melee_combat_system();
    w.damage_system();
    assert_eq!(w.entities[p].stats.unwrap().hp, 28);
    assert_eq!(w.log.len(), 2);
}

#[test]
fn hits_from_several_attackers_accumulate() {
    let (mut w, p, m) = duel();
    let g = w.spawn_monster(9, 10, false);
    w.entities[m].wants_melee = Some(WantsToMelee { target: p });
    w.entities[g].wants_melee = Some(WantsToMelee { target: p });
    w.melee_combat_system();
    assert_eq!(w.entities[p].suffer_damage.as_ref().unwrap().amount, vec![2, 2]);
    w.damage_system();
    assert_eq!(w.entities[p].stats.unwrap().hp, 26);
    w.damage_system();
    assert_eq!(w.entities[p].stats.unwrap().hp, 26);
}

#[test]
fn dead_monster_is_removed_after_flush() {
    let (mut w, p, m) = duel();
    let mut stats = w.entities[m].stats.unwrap();
    stats.hp = 3;
    w.entities[m].stats = Some(stats);
    w.entities[p].wants_melee = Some(WantsToMelee { target: m });
    w.melee_combat_system();
    w.damage_system();
    assert_eq!(w.entities[m].stats.unwrap().hp, -1);
    assert!(w.entities[m].alive);
    let player_dead = w.delete_the_dead();
    assert!(!player_dead);
    assert!(!w.entities[m].alive);
    assert!(w.entities[m].renderable.is_none());
    assert!(w.entities[m].position.is_none());
    assert!(w.entities[p].alive);
}

#[test]
fn dead_player_is_signalled_not_deleted() {
    let (mut w, p, _m) = duel();
    let mut stats = w.entities[p].stats.unwrap();
    stats.hp = 0;
    w.entities[p].stats = Some(stats);
    assert!(w.delete_the_dead());
    assert!(w.entities[p].alive);
}

#[test]
fn pickup_moves_item_into_backpack() {
    let (mut w, p, _m) = duel();
    let potion = w.spawn_health_potion(10, 10);
    w.get_item();
    w.item_collection_system();
    assert_eq!(w.entities[potion].in_backpack.map(|b| b.owner), Some(p));
    assert!(w.entities[potion].position.is_none());
    assert!(w.entities[p].wants_pickup.is_none());
    assert_eq!(w.log.last().unwrap(), "You pick up the Health Potion.");
}

#[test]
fn pickup_with_nothing_here_logs() {
    let (mut w, p, _m) = duel();
    w.get_item();
    assert!(w.entities[p].wants_pickup.is_none());
    assert_eq!(w.log.last().unwrap(), "There is nothing here to pick up.");
}

#[test]
fn potion_heals_up_to_max_and_is_deleted() {
    let (mut w, p, _m) = duel();
    let potion = w.spawn_health_potion(10, 10);
    let mut stats = w.entities[p].stats.unwrap();
    stats.hp = 25;
    w.entities[p].stats = Some(stats);
    w.entities[p].wants_drink = Some(WantsToDrinkPotion { potion });
    w.potion_use_system();
    assert_eq!(w.entities[p].stats.unwrap().hp, 30);
    assert!(w.entities[p].wants_drink.is_none());
    assert_eq!(w.pending_deletes, vec![potion]);
    assert!(w.entities[potion].alive);
    w.maintain();
    assert!(!w.entities[potion].alive);
}

#[test]
fn drop_places_item_at_dropper() {
    let (mut w, p, _m) = duel();
    let potion = w.spawn_health_potion(10, 10);
    w.get_item();
    w.item_collection_system();
    w.entities[p].position = Some(Position { x: 12, y: 14 });
    w.entities[p].wants_drop = Some(WantsToDropItem { item: potion });
    w.item_drop_system();
    assert_eq!(w.entities[potion].position, Some(Position { x: 12, y: 14 }));
    assert!(w.entities[potion].in_backpack.is_none());
    assert!(w.entities[p].wants_drop.is_none());
}

#[test]
fn visibility_twice_gives_same_tiles() {
    let (mut w, p, _m) = duel();
    let fov = vec![Position { x: 10, y: 10 }, Position { x: 11, y: 10 }, Position { x: -1, y: 3 }];
    assert!(w.needs_fov(p));
    w.apply_viewshed(p, &fov);
    let first = w.entities[p].viewshed.as_ref().unwrap().visible_tiles.clone();
    let visible_first = w.map.visible_tiles.clone();
    assert_eq!(first, vec![Position { x: 10, y: 10 }, Position { x: 11, y: 10 }]);
    assert!(w.map.visible_tiles[xy_idx(11, 10)]);
    assert!(w.map.revealed_tiles[xy_idx(11, 10)]);
    assert!(!w.needs_fov(p));
    w.apply_viewshed(p, &vec![Position { x: 3, y: 3 }]);
    assert_eq!(w.entities[p].viewshed.as_ref().unwrap().visible_tiles, first);
    assert_eq!(w.map.visible_tiles, visible_first);
}

#[test]
fn revealed_tiles_stay_revealed() {
    let (mut w, p, _m) = duel();
    w.apply_viewshed(p, &vec![Position { x: 10, y: 10 }]);
    w.try_move_player(0, 1);
    w.apply_viewshed(p, &vec![Position { x: 10, y: 11 }]);
    assert!(!w.map.visible_tiles[xy_idx(10, 10)]);
    assert!(w.map.revealed_tiles[xy_idx(10, 10)]);
    assert!(w.map.visible_tiles[xy_idx(10, 11)]);
}

#[test]
fn indexing_marks_walls_and_blockers() {
    let (mut w, p, m) = duel();
    w.map_indexing_system();
    assert!(w.map.blocked[xy_idx(11, 10)]);
    assert!(!w.map.blocked[xy_idx(10, 10)]);
    assert!(w.map.blocked[xy_idx(0, 0)]);
    assert_eq!(w.map.tile_content[xy_idx(11, 10)], vec![m]);
    assert_eq!(w.map.tile_content[xy_idx(10, 10)], vec![p]);
}

#[test]
fn moving_into_a_monster_attacks_it() {
    let (mut w, p, m) = duel();
    w.map_indexing_system();
    w.try_move_player(1, 0);
    assert_eq!(w.entities[p].wants_melee, Some(WantsToMelee { target: m }));
    assert_eq!(w.entities[p].position, Some(Position { x: 10, y: 10 }));
    w.try_move_player(0, -1);
    assert_eq!(w.entities[p].position, Some(Position { x: 10, y: 9 }));
    assert!(w.entities[p].viewshed.as_ref().unwrap().dirty);
}

#[test]
fn walls_stop_the_player() {
    let mut w = World::new(open_map());
    let p = w.spawn_player(3, 3);
    w.map_indexing_system();
    w.try_move_player(-1, 0);
    assert_eq!(w.entities[p].position, Some(Position { x: 3, y: 3 }));
}

#[test]
fn monster_steps_toward_visible_player() {
    let mut w = World::new(open_map());
    let p = w.spawn_player(10, 10);
    let m = w.spawn_monster(14, 12, false);
    w.entities[m].viewshed = Some(Viewshed { visible_tiles: vec![Position { x: 10, y: 10 }], range: 8, dirty: false });
    w.map_indexing_system();
    w.monster_ai_system();
    assert_eq!(w.entities[m].position, Some(Position { x: 13, y: 11 }));
    assert!(w.entities[m].viewshed.as_ref().unwrap().dirty);
    assert!(w.entities[m].wants_melee.is_none());
    let _ = p;
}

#[test]
fn monster_does_not_step_into_a_wall() {
    let mut w = World::new(open_map());
    let _p = w.spawn_player(1, 3);
    let m = w.spawn_monster(3, 3, true);
    w.entities[m].viewshed = Some(Viewshed { visible_tiles: vec![Position { x: 1, y: 3 }], range: 8, dirty: false });
    w.monster_ai_system();
    assert_eq!(w.entities[m].position, Some(Position { x: 3, y: 3 }));
    assert!(w.entities[m].wants_melee.is_none());
}

#[test]
fn potion_logs_its_effect() {
    let (mut w, p, _m) = duel();
    let potion = w.spawn_health_potion(10, 10);
    let mut stats = w.entities[p].stats.unwrap();
    stats.hp = 20;
    w.entities[p].stats = Some(stats);
    w.entities[p].wants_drink = Some(WantsToDrinkPotion { potion });
    w.potion_use_system();
    assert_eq!(w.log.last().unwrap(), "Player drinks the Health Potion, healing to 28 hp.");
}

#[test]
fn monster_that_cannot_see_stays() {
    let (mut w, _p, m) = duel();
    w.monster_ai_system();
    assert_eq!(w.entities[m].position, Some(Position { x: 11, y: 10 }));
    assert!(w.entities[m].wants_melee.is_none());
}

#[test]
fn deleted_slots_are_reused() {
    let (mut w, _p, m) = duel();
    w.delete_entity(m);
    assert!(w.entities[m].alive);
    w.maintain();
    assert!(!w.entities[m].alive);
    let g = w.spawn_monster(20, 10, false);
    assert_eq!(g, m);
}

#[test]
fn spawn_room_places_inside_room() {
    let mut w = World::new(open_map());
    let room = Rect::new(10, 10, 6, 6);
    for seed in 0..10u64 {
        let mut rng = RandomNumberGenerator::seeded(seed);
        let (monsters, potions) = w.spawn_room(&mut rng, &room);
        assert!(monsters.len() <= 4 && potions.len() <= 2);
        assert!(monsters.iter().all(|&m| w.entities[m].stats.is_some()));
        assert!(potions.iter().all(|&p| w.entities[p].potion.is_some()));
    }
    assert!(w.entities.len() > 0);
    for e in w.entities.iter() {
        let pos = e.position.unwrap();
        assert!(pos.x > 10 && pos.x <= 16 && pos.y > 10 && pos.y <= 16);
    }
}

#[test]
fn run_state_transitions() {
    assert_eq!(next_state(RunState::PreRun, TickEvent::Idle), RunState::AwaitingInput);
    assert_eq!(next_state(RunState::PlayerTurn, TickEvent::Idle), RunState::MonsterTurn);
    assert_eq!(next_state(RunState::MonsterTurn, TickEvent::Idle), RunState::AwaitingInput);
    assert_eq!(next_state(RunState::AwaitingInput, TickEvent::Input(RunState::PlayerTurn)), RunState::PlayerTurn);
    assert_eq!(next_state(RunState::AwaitingInput, TickEvent::Input(RunState::MonsterTurn)), RunState::AwaitingInput);
    assert_eq!(next_state(RunState::ShowInventory, TickEvent::Menu(ItemMenuResult::Cancel)), RunState::AwaitingInput);
    assert_eq!(next_state(RunState::ShowInventory, TickEvent::Menu(ItemMenuResult::NoResponse)), RunState::ShowInventory);
    assert_eq!(next_state(RunState::ShowDropItem, TickEvent::Menu(ItemMenuResult::Selected(3))), RunState::PlayerTurn);
}

#[test]
fn tick_runs_the_pipeline_and_consumes_intents() {
    let (w, p, m) = duel();
    let mut gs = State { ecs: w, run_state: RunState::PreRun };
    assert!(!gs.tick(TickEvent::Idle, &vec![]));
    assert_eq!(gs.run_state, RunState::AwaitingInput);
    gs.tick(TickEvent::Input(RunState::PlayerTurn), &vec![]);
    assert_eq!(gs.run_state, RunState::PlayerTurn);
    gs.ecs.entities[p].wants_melee = Some(WantsToMelee { target: m });
    gs.tick(TickEvent::Idle, &vec![]);
    assert_eq!(gs.run_state, RunState::MonsterTurn);
    assert_eq!(gs.ecs.entities[m].stats.unwrap().hp, 12);
    assert!(gs.ecs.entities[p].wants_melee.is_none());
}

#[test]
fn warm_up_pass_seeds_visibility() {
    let (w, p, _m) = duel();
    let mut gs = State { ecs: w, run_state: RunState::PreRun };
    let mut fovs = vec![Vec::new(); gs.ecs.entities.len()];
    fovs[p] = vec![Position { x: 10, y: 10 }, Position { x: 11, y: 10 }];
    gs.tick(TickEvent::Idle, &fovs);
    assert!(!gs.ecs.entities[p].viewshed.as_ref().unwrap().dirty);
    assert!(gs.ecs.map.visible_tiles[xy_idx(11, 10)]);
    assert!(gs.ecs.map.revealed_tiles[xy_idx(10, 10)]);
    assert!(!gs.ecs.map.visible_tiles[xy_idx(12, 10)]);
}

#[test]
fn menu_selection_gives_player_an_intent() {
    let (w, p, _m) = duel();
    let mut gs = State { ecs: w, run_state: RunState::ShowInventory };
    let potion = gs.ecs.spawn_health_potion(10, 10);
    gs.tick(TickEvent::Menu(ItemMenuResult::Selected(potion)), &vec![]);
    assert_eq!(gs.run_state, RunState::PlayerTurn);
    assert_eq!(gs.ecs.entities[p].wants_drink, Some(WantsToDrinkPotion { potion }));
}

#[test]
fn new_game_puts_player_in_first_room() {
    let mut rng = RandomNumberGenerator::seeded(11);
    let w = World::new_game(&mut rng);
    let (cx, cy) = w.map.rooms[0].center();
    assert_eq!(w.entities[w.player].position, Some(Position { x: cx, y: cy }));
    assert_eq!(w.entities[w.player].name.as_deref(), Some("Player"));
    assert_eq!(w.log, vec!["Welcome to Rusty Roguelike".to_string()]);
    for (i, e) in w.entities.iter().enumerate() {
        if i != w.player {
            let name = e.name.as_deref().unwrap();
            assert!(name == "Orc" || name == "Goblin" || name == "Health Potion");
        }
    }
}
