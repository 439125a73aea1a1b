use vstd::prelude::*;
use crate::components::{CombatStats, Entity, EntityData, EntityView, Position, Potion, Renderable, Role, Viewshed, ViewshedView};
use crate::map::{fits, GameMap};
use crate::rect::Rect;
use crate::rng::rng_range;
use crate::world::World;
use rltk::RandomNumberGenerator;
use vstd::string::StringExecFns;

verus! {

pub const MAX_MONSTERS: i32 = 4;
pub const MAX_ITEMS: i32 = 2;

/// The records that spawning adds.
pub open spec fn player_record(x: i32, y: i32) -> EntityView {
    EntityView {
        alive: true,
        position: Some(Position { x, y }),
        renderable: Some(Renderable { glyph: 64, fg: 0xFFFF00, bg: 0, render_order: 0 }),
        viewshed: Some(ViewshedView { visible_tiles: seq![], range: 8, dirty: true }),
        stats: Some(CombatStats { max_hp: 30, hp: 30, defense: 2, power: 5 }),
        name: Some("Player"@),
        role: Some(Role::Player),
        ..EntityView::empty()
    }
}

pub open spec fn monster_record(x: i32, y: i32, glyph: u16) -> EntityView {
    EntityView {
        alive: true,
        position: Some(Position { x, y }),
        renderable: Some(Renderable { glyph, fg: 0xFF0000, bg: 0, render_order: 1 }),
        viewshed: Some(ViewshedView { visible_tiles: seq![], range: 8, dirty: true }),
        stats: Some(CombatStats { max_hp: 16, hp: 16, defense: 1, power: 4 }),
        name: Some(if glyph == 111u16 { "Orc"@ } else { "Goblin"@ }),
        role: Some(Role::Monster),
        blocks_tile: true,
        ..EntityView::empty()
    }
}

pub open spec fn potion_record(x: i32, y: i32) -> EntityView {
    EntityView {
        alive: true,
        position: Some(Position { x, y }),
        renderable: Some(Renderable { glyph: 161, fg: 0xFF00FF, bg: 0, render_order: 2 }),
        name: Some("Health Potion"@),
        item: true,
        potion: Some(Potion { heal_amount: 8 }),
        ..EntityView::empty()
    }
}

/// `n` is `o` with entity `r` created as `v`.
pub open spec fn spawned(o: World, n: World, r: int, v: EntityView) -> bool {
    &&& n.map == o.map
    &&& n.log == o.log
    &&& n.pending_deletes == o.pending_deletes
    &&& 0 <= r < n.ents().len()
    &&& (r < o.ents().len() ==> !o.ents()[r].alive)
    &&& n.ents().len() == if r < o.ents().len() { o.ents().len() } else { o.ents().len() + 1 }
    &&& forall|i: int| 0 <= i < n.ents().len() && i != r ==> #[trigger] n.ents()[i] == o.ents()[i]
    &&& n.ents()[r] == v
}

fn named(mut d: EntityData, name: &str) -> (r: EntityData)
    ensures
        r@ == (EntityView { name: Some(name@), ..d@ }),
{
    d.name = Some(String::from_str(name));
    d
}

/// `v` is an orc or a goblin as spawning makes them, at the position it holds.
pub open spec fn monster_spawn(v: EntityView) -> bool {
    let p = v.position.unwrap();
    v == monster_record(p.x, p.y, 111u16) || v == monster_record(p.x, p.y, 103u16)
}

/// `v` is a health potion as spawning makes it, at the position it holds.
pub open spec fn potion_spawn(v: EntityView) -> bool {
    let p = v.position.unwrap();
    v == potion_record(p.x, p.y)
}

/// `v` is a monster or a potion as spawning makes them.
pub open spec fn room_spawn(v: EntityView) -> bool {
    monster_spawn(v) || potion_spawn(v)
}

impl World {
    fn spawn(&mut self, d: EntityData) -> (r: Entity)
        requires
            d.alive,
        ensures
            final(self).player == old(self).player,
            spawned(*old(self), *final(self), r as int, d@),
    {
        let r = self.create_entity(d);
        proof {
            if r < old(self).ents().len() {
                assert forall|i: int| 0 <= i < self.ents().len() && i != r implies #[trigger] self.ents()[i] == old(self).ents()[i] by {}
            }
        }
        r
    }

    /// Creates the player at (x, y) and records it as the player entity.
    pub fn spawn_player(&mut self, x: i32, y: i32) -> (r: Entity)
        ensures
            final(self).player == r,
            spawned(*old(self), *final(self), r as int, player_record(x, y)),
    {
        let mut d = EntityData::new();
        d.position = Some(Position { x, y });
        d.renderable = Some(Renderable { glyph: 64, fg: 0xFFFF00, bg: 0, render_order: 0 });
        d.viewshed = Some(Viewshed { visible_tiles: Vec::new(), range: 8, dirty: true });
        d.stats = Some(CombatStats { max_hp: 30, hp: 30, defense: 2, power: 5 });
        d.role = Some(Role::Player);
        let d = named(d, "Player");
        let r = self.spawn(d);
        assert(d@ == player_record(x, y));
        self.player = r;
        r
    }

    /// Creates a monster at (x, y): an orc (`o`) or a goblin (`g`).
    pub fn spawn_monster(&mut self, x: i32, y: i32, orc: bool) -> (r: Entity)
        ensures
            final(self).player == old(self).player,
            spawned(*old(self), *final(self), r as int, monster_record(x, y, if orc { 111u16 } else { 103u16 })),
    {
        let glyph: u16 = if orc { 111 } else { 103 };
        let mut d = EntityData::new();
        d.position = Some(Position { x, y });
        d.renderable = Some(Renderable { glyph, fg: 0xFF0000, bg: 0, render_order: 1 });
        d.viewshed = Some(Viewshed { visible_tiles: Vec::new(), range: 8, dirty: true });
        d.stats = Some(CombatStats { max_hp: 16, hp: 16, defense: 1, power: 4 });
        d.role = Some(Role::Monster);
        d.blocks_tile = true;
        let d = if orc { named(d, "Orc") } else { named(d, "Goblin") };
        let r = self.spawn(d);
        assert(d@ == monster_record(x, y, glyph));
        r
    }

    /// Creates a health potion lying at (x, y).
    pub fn spawn_health_potion(&mut self, x: i32, y: i32) -> (r: Entity)
        ensures
            final(self).player == old(self).player,
            spawned(*old(self), *final(self), r as int, potion_record(x, y)),
    {
        let mut d = EntityData::new();
        d.position = Some(Position { x, y });
        d.renderable = Some(Renderable { glyph: 161, fg: 0xFF00FF, bg: 0, render_order: 2 });
        d.item = true;
        d.potion = Some(Potion { heal_amount: 8 });
        let d = named(d, "Health Potion");
        let r = self.spawn(d);
        assert(d@ == potion_record(x, y));
        r
    }

    /// A new game: a generated map, every room but the first filled by `spawn_room`, and
    /// the player at the centre of the first room, where the map's connectivity starts.
    pub fn new_game(rng: &mut RandomNumberGenerator) -> (r: World)
        ensures
            r.wf(),
            r.pending_deletes@.len() == 0,
            r.player < r.ents().len(),
            r.ents()[r.player as int] == player_record(r.map.spawn().0 as i32, r.map.spawn().1 as i32),
            forall|i: int| 0 <= i < r.ents().len() && i != r.player && (#[trigger] r.ents()[i]).alive ==> room_spawn(r.ents()[i]),
            r.log@.len() == 1,
    {
        let map = GameMap::new_map_rooms_and_corridors(rng);
        let mut w = World::new(map);
        let mut k: usize = 1;
        while k < w.map.rooms.len()
            invariant
                1 <= k <= w.map.rooms@.len(),
                w.wf(),
                w.pending_deletes@.len() == 0,
                w.log@.len() == 0,
                forall|i: int| 0 <= i < w.ents().len() && (#[trigger] w.ents()[i]).alive ==> room_spawn(w.ents()[i]),
            decreases w.map.rooms@.len() - k,
        {
            let room = w.map.rooms[k];
            assert(fits(w.map.rooms@[k as int]));
            let ghost before = w;
            w.spawn_room(rng, &room);
            proof {
                assert forall|i: int| 0 <= i < w.ents().len() && (#[trigger] w.ents()[i]).alive implies room_spawn(w.ents()[i]) by {
                    if i < before.ents().len() && before.ents()[i].alive {
                        assert(w.ents()[i] == before.ents()[i]);
                    }
                }
            }
            k = k + 1;
        }
        let (cx, cy) = w.map.rooms[0].center();
        let ghost before = w;
        let p = w.spawn_player(cx, cy);
        proof {
            assert forall|i: int| 0 <= i < w.ents().len() && i != p && (#[trigger] w.ents()[i]).alive implies room_spawn(w.ents()[i]) by {
                assert(w.ents()[i] == before.ents()[i]);
            }
        }
        w.log.push(String::from_str("Welcome to Rusty Roguelike"));
        w
    }

    /// Fills a room with up to `MAX_MONSTERS` monsters and `MAX_ITEMS` potions at random
    /// tiles of its interior, and returns the monsters and the potions it created. Live
    /// entities are left as they were.
    pub fn spawn_room(&mut self, rng: &mut RandomNumberGenerator, room: &Rect) -> (r: (Vec<Entity>, Vec<Entity>))
        requires
            room.x1 < room.x2 < i32::MAX,
            room.y1 < room.y2 < i32::MAX,
        ensures
            final(self).player == old(self).player,
            final(self).map == old(self).map,
            final(self).log == old(self).log,
            final(self).pending_deletes == old(self).pending_deletes,
            final(self).ents().len() >= old(self).ents().len(),
            forall|i: int| 0 <= i < old(self).ents().len() && old(self).ents()[i].alive ==> #[trigger] final(self).ents()[i] == old(self).ents()[i],
            forall|i: int|
                0 <= i < final(self).ents().len() && !(i < old(self).ents().len() && old(self).ents()[i].alive) && (
                #[trigger] final(self).ents()[i]).alive ==> room.interior_contains(
                    final(self).ents()[i].position.unwrap().x as int,
                    final(self).ents()[i].position.unwrap().y as int,
                ) && final(self).ents()[i].position.is_some() && room_spawn(final(self).ents()[i]) && (
                r.0@.contains(i as usize) || r.1@.contains(i as usize)),
            r.0@.len() <= MAX_MONSTERS,
            r.1@.len() <= MAX_ITEMS,
            forall|k: int|
                0 <= k < r.0@.len() ==> #[trigger] r.0@[k] < final(self).ents().len() && monster_spawn(
                    final(self).ents()[r.0@[k] as int],
                ),
            forall|k: int|
                0 <= k < r.1@.len() ==> #[trigger] r.1@[k] < final(self).ents().len() && potion_spawn(
                    final(self).ents()[r.1@[k] as int],
                ),
    {
        let mut monsters: Vec<Entity> = Vec::new();
        let mut potions: Vec<Entity> = Vec::new();
        let num_monsters = rng_range(rng, 0, MAX_MONSTERS + 1);
        let num_items = rng_range(rng, 0, MAX_ITEMS + 1);
        let mut k: i32 = 0;
        while k < num_monsters + num_items
            invariant
                0 <= k <= num_monsters + num_items,
                num_monsters + num_items <= MAX_MONSTERS + MAX_ITEMS,
                room.x1 < room.x2 < i32::MAX,
                room.y1 < room.y2 < i32::MAX,
                self.player == old(self).player,
                self.map == old(self).map,
                self.log == old(self).log,
                self.pending_deletes == old(self).pending_deletes,
                self.ents().len() >= old(self).ents().len(),
                forall|i: int| 0 <= i < old(self).ents().len() && old(self).ents()[i].alive ==> #[trigger] self.ents()[i] == old(self).ents()[i],
                forall|i: int|
                    0 <= i < self.ents().len() && !(i < old(self).ents().len() && old(self).ents()[i].alive) && (
                    #[trigger] self.ents()[i]).alive ==> room.interior_contains(
                        self.ents()[i].position.unwrap().x as int,
                        self.ents()[i].position.unwrap().y as int,
                    ) && self.ents()[i].position.is_some() && room_spawn(self.ents()[i]) && (monsters@.contains(
                        i as usize,
                    ) || potions@.contains(i as usize)),
                0 <= num_monsters <= MAX_MONSTERS,
                0 <= num_items <= MAX_ITEMS,
                monsters@.len() == if k < num_monsters { k } else { num_monsters },
                potions@.len() == if k < num_monsters { 0 } else { k - num_monsters },
                forall|j: int|
                    0 <= j < monsters@.len() ==> #[trigger] monsters@[j] < self.ents().len() && monster_spawn(
                        self.ents()[monsters@[j] as int],
                    ) && self.ents()[monsters@[j] as int].alive,
                forall|j: int|
                    0 <= j < potions@.len() ==> #[trigger] potions@[j] < self.ents().len() && potion_spawn(
                        self.ents()[potions@[j] as int],
                    ) && self.ents()[potions@[j] as int].alive,
            decreases num_monsters + num_items - k,
        {
            let x = rng_range(rng, room.x1 + 1, room.x2 + 1);
            let y = rng_range(rng, room.y1 + 1, room.y2 + 1);
            let ghost before = *self;
            let ghost mb = monsters@;
            let ghost pb = potions@;
            let created: Entity;
            if k < num_monsters {
                let orc = rng_range(rng, 0, 2) == 0;
                created = self.spawn_monster(x, y, orc);
                monsters.push(created);
            } else {
                created = self.spawn_health_potion(x, y);
                potions.push(created);
            }
            proof {
                assert forall|j: int| 0 <= j < mb.len() implies mb[j] != created by {
                    assert(before.ents()[mb[j] as int].alive);
                }
                assert forall|j: int| 0 <= j < pb.len() implies pb[j] != created by {
                    assert(before.ents()[pb[j] as int].alive);
                }
                assert forall|j: int| 0 <= j < monsters@.len() implies #[trigger] monsters@[j] < self.ents().len() && monster_spawn(
                    self.ents()[monsters@[j] as int],
                ) && self.ents()[monsters@[j] as int].alive by {
                    if j < mb.len() {
                        assert(monsters@[j] == mb[j]);
                    }
                }
                assert forall|j: int| 0 <= j < potions@.len() implies #[trigger] potions@[j] < self.ents().len() && potion_spawn(
                    self.ents()[potions@[j] as int],
                ) && self.ents()[potions@[j] as int].alive by {
                    if j < pb.len() {
                        assert(potions@[j] == pb[j]);
                    }
                }
                assert forall|i: int|
                    0 <= i < self.ents().len() && !(i < old(self).ents().len() && old(self).ents()[i].alive) && (
                    #[trigger] self.ents()[i]).alive implies monsters@.contains(i as usize) || potions@.contains(i as usize) by {
                    if i == created as int {
                        if k < num_monsters {
                            assert(monsters@[monsters@.len() - 1] == created);
                        } else {
                            assert(potions@[potions@.len() - 1] == created);
                        }
                    } else {
                        assert(before.ents()[i] == self.ents()[i]);
                        if mb.contains(i as usize) {
                            let j = choose|j: int| 0 <= j < mb.len() && mb[j] == i as usize;
                            assert(monsters@[j] == i as usize);
                        } else {
                            let j = choose|j: int| 0 <= j < pb.len() && pb[j] == i as usize;
                            assert(potions@[j] == i as usize);
                        }
                    }
                }
                assert forall|i: int| 0 <= i < old(self).ents().len() && old(self).ents()[i].alive implies #[trigger] self.ents()[i] == old(self).ents()[i] by {
                    assert(before.ents()[i] == old(self).ents()[i]);
                }
            }
            k = k + 1;
        }
        (monsters, potions)
    }
}

} // verus!
