use vstd::prelude::*;
use crate::combat::{clamp_i32, healed_hp, hp_after_damage, melee_damage, spec_healed_hp, spec_melee_damage, sum_of};
use crate::components::{CombatStats, Entity, EntityData, EntityView, InBackpack, Position, Role, SufferDamage, Viewshed, ViewshedView, WantsToMelee};
use vstd::string::StringExecFns;
use crate::text::{decimal_of, i64_text};
use crate::map::{idx_of, in_bounds, xy_idx, GameMap, TileType, MAPCOUNT, MAPHEIGHT, MAPWIDTH};

verus! {

/// Every entity's components, the current map, the player's identifier, the message log,
/// and the deletions waiting for the next flush.
pub struct World {
    pub entities: Vec<EntityData>,
    pub map: GameMap,
    pub player: Entity,
    pub log: Vec<String>,
    pub pending_deletes: Vec<Entity>,
}

/// An entity whose pending damage has been subtracted from its hit points and cleared.
pub open spec fn damaged(v: EntityView) -> EntityView {
    match v.suffer_damage {
        None => v,
        Some(s) => EntityView {
            stats: match v.stats {
                Some(st) => Some(CombatStats { hp: clamp_i32(st.hp - sum_of(s)) as i32, ..st }),
                None => None,
            },
            suffer_damage: None,
            ..v
        },
    }
}

pub open spec fn is_dead(v: EntityView) -> bool {
    v.alive && v.stats.is_some() && v.stats.unwrap().hp < 1
}

/// An attack by `a` on `t` lands when both are live and have hit points above zero.
pub open spec fn attack_lands(ents: Seq<EntityView>, a: int, t: int) -> bool {
    &&& 0 <= a < ents.len()
    &&& 0 <= t < ents.len()
    &&& ents[a].alive
    &&& ents[t].alive
    &&& ents[a].stats.is_some()
    &&& ents[t].stats.is_some()
    &&& ents[a].stats.unwrap().hp > 0
    &&& ents[t].stats.unwrap().hp > 0
}

/// `v` with one more pending damage amount.
pub open spec fn with_damage(v: EntityView, dmg: int) -> EntityView {
    EntityView {
        suffer_damage: Some(
            match v.suffer_damage {
                Some(s) => s.push(dmg as i64),
                None => seq![dmg as i64],
            },
        ),
        ..v
    }
}

/// Resolves the melee intent of entity `a`, if it has one.
pub open spec fn melee_step(ents: Seq<EntityView>, a: int) -> Seq<EntityView> {
    match ents[a].wants_melee {
        None => ents,
        Some(w) => {
            let c = ents.update(a, EntityView { wants_melee: None, ..ents[a] });
            let t = w.target as int;
            if attack_lands(ents, a, t) {
                let dmg = spec_melee_damage(ents[a].stats.unwrap().power as int, ents[t].stats.unwrap().defense as int);
                c.update(t, with_damage(c[t], dmg))
            } else {
                c
            }
        },
    }
}

/// Entity `a` has a melee intent whose attack lands.
pub open spec fn melee_lands(ents: Seq<EntityView>, a: int) -> bool {
    match ents[a].wants_melee {
        Some(w) => attack_lands(ents, a, w.target as int),
        None => false,
    }
}

/// The name shown for an entity in the log.
pub open spec fn name_text(v: EntityView) -> Seq<char> {
    match v.name {
        Some(n) => n,
        None => "Someone"@,
    }
}

/// The text of the log lines.
pub open spec fn log_text(log: Seq<String>) -> Seq<Seq<char>> {
    log.map_values(|s: String| s@)
}

/// The log line for the landed attack of entity `a`.
pub open spec fn hit_line(ents: Seq<EntityView>, a: int) -> Seq<char> {
    let t = ents[a].wants_melee.unwrap().target as int;
    let dmg = spec_melee_damage(ents[a].stats.unwrap().power as int, ents[t].stats.unwrap().defense as int);
    name_text(ents[a]) + " hits "@ + name_text(ents[t]) + ", for "@ + decimal_of(dmg) + " hp."@
}

/// The log lines of the landed attacks of entities `0..k`, in order.
pub open spec fn hit_lines(ents: Seq<EntityView>, k: int) -> Seq<Seq<char>>
    decreases k,
{
    if k <= 0 {
        seq![]
    } else {
        let m = melee_upto(ents, k - 1);
        if melee_lands(m, k - 1) {
            hit_lines(ents, k - 1).push(hit_line(m, k - 1))
        } else {
            hit_lines(ents, k - 1)
        }
    }
}

/// The log line for entity `e`'s drink.
pub open spec fn drink_line(ents: Seq<EntityView>, e: int) -> Seq<char> {
    let p = ents[e].wants_drink.unwrap().potion as int;
    name_text(ents[e]) + " drinks the "@ + name_text(ents[p]) + ", healing to "@ + decimal_of(
        drink_result(ents, e).stats.unwrap().hp as int,
    ) + " hp."@
}

/// The log lines of the valid drinks of entities `0..k`, in order.
pub open spec fn drink_lines(ents: Seq<EntityView>, k: int) -> Seq<Seq<char>>
    decreases k,
{
    if k <= 0 {
        seq![]
    } else if drink_ok(ents, k - 1) {
        drink_lines(ents, k - 1).push(drink_line(ents, k - 1))
    } else {
        drink_lines(ents, k - 1)
    }
}

/// The log lines of the player's successful pickups among entities `0..k`, in order.
pub open spec fn pickup_lines(ents: Seq<EntityView>, k: int, player: Entity) -> Seq<Seq<char>>
    decreases k,
{
    if k <= 0 {
        seq![]
    } else {
        let m = pickup_upto(ents, k - 1);
        if player_picks_up(m, k - 1, player) {
            pickup_lines(ents, k - 1, player).push(
                "You pick up the "@ + name_text(m[m[k - 1].wants_pickup.unwrap().item as int]) + "."@,
            )
        } else {
            pickup_lines(ents, k - 1, player)
        }
    }
}

/// How many of the melee intents of entities `0..k` land, each adding a log line.
pub open spec fn hits_upto(ents: Seq<EntityView>, k: int) -> nat
    decreases k,
{
    if k <= 0 {
        0
    } else {
        hits_upto(ents, k - 1) + if melee_lands(melee_upto(ents, k - 1), k - 1) {
            1nat
        } else {
            0nat
        }
    }
}

/// The melee intents of entities `0..k` resolved in order.
pub open spec fn melee_upto(ents: Seq<EntityView>, k: int) -> Seq<EntityView>
    decreases k,
{
    if k <= 0 {
        ents
    } else {
        melee_step(melee_upto(ents, k - 1), k - 1)
    }
}

pub open spec fn sign(d: int) -> int {
    if d > 0 {
        1
    } else if d < 0 {
        -1
    } else {
        0
    }
}

pub open spec fn abs(d: int) -> int {
    if d < 0 {
        -d
    } else {
        d
    }
}

/// Chebyshev distance: diagonal neighbours are one step apart.
pub open spec fn chebyshev(a: Position, b: Position) -> int {
    let dx = abs(a.x - b.x);
    let dy = abs(a.y - b.y);
    if dx > dy {
        dx
    } else {
        dy
    }
}

/// What the monster AI makes of entity `e`: a monster that sees the player attacks when
/// adjacent, else steps one tile toward the player unless that tile is a wall or blocked; anything
/// else is left as it is.
pub open spec fn ai_result(ents: Seq<EntityView>, blocked: Seq<bool>, tiles: Seq<TileType>, player: int, e: int) -> EntityView {
    let d = ents[e];
    if e == player || !d.alive || d.role != Some(Role::Monster) || d.viewshed.is_none() || d.position.is_none()
        || !(0 <= player < ents.len()) || ents[player].position.is_none() {
        d
    } else {
        let pp = ents[player].position.unwrap();
        let pos = d.position.unwrap();
        let vs = d.viewshed.unwrap();
        if !vs.visible_tiles.contains(pp) {
            d
        } else if chebyshev(pos, pp) <= 1 {
            EntityView { wants_melee: Some(WantsToMelee { target: player as usize }), ..d }
        } else {
            let nx = pos.x + sign(pp.x - pos.x);
            let ny = pos.y + sign(pp.y - pos.y);
            if in_bounds(nx, ny) && !blocked[idx_of(nx, ny)] && tiles[idx_of(nx, ny)] == TileType::Floor {
                EntityView {
                    position: Some(Position { x: nx as i32, y: ny as i32 }),
                    viewshed: Some(ViewshedView { dirty: true, ..vs }),
                    ..d
                }
            } else {
                d
            }
        }
    }
}

/// Entity `e` is live and stands on tile `i`.
pub open spec fn occupies(ents: Seq<EntityView>, e: int, i: int) -> bool {
    &&& 0 <= e < ents.len()
    &&& ents[e].alive
    &&& ents[e].position.is_some()
    &&& in_bounds(ents[e].position.unwrap().x as int, ents[e].position.unwrap().y as int)
    &&& idx_of(ents[e].position.unwrap().x as int, ents[e].position.unwrap().y as int) == i
}

/// Whether `p` is among the tiles of `vs`.
fn sees(vs: &Viewshed, p: Position) -> (r: bool)
    ensures
        r == vs@.visible_tiles.contains(p),
{
    let mut i: usize = 0;
    while i < vs.visible_tiles.len()
        invariant
            i <= vs.visible_tiles@.len(),
            forall|j: int| 0 <= j < i ==> vs.visible_tiles@[j] != p,
        decreases vs.visible_tiles@.len() - i,
    {
        if vs.visible_tiles[i] == p {
            return true;
        }
        i = i + 1;
    }
    false
}

fn sign_of(d: i64) -> (r: i32)
    ensures
        r == sign(d as int),
{
    if d > 0 {
        1
    } else if d < 0 {
        -1
    } else {
        0
    }
}

/// Resolves the pickup intent of entity `e`: a live item gets an `InBackpack` for the
/// live collector and loses its position.
pub open spec fn pickup_step(ents: Seq<EntityView>, e: int) -> Seq<EntityView> {
    match ents[e].wants_pickup {
        None => ents,
        Some(w) => {
            let c = ents.update(e, EntityView { wants_pickup: None, ..ents[e] });
            let it = w.item as int;
            let who = w.collected_by as int;
            if 0 <= it < c.len() && c[it].alive && c[it].item && 0 <= who < c.len() && c[who].alive {
                c.update(it, EntityView { position: None, in_backpack: Some(InBackpack { owner: w.collected_by }), ..c[it] })
            } else {
                c
            }
        },
    }
}

/// Entity `e`'s pickup intent succeeds for the player, which adds a log line.
pub open spec fn player_picks_up(ents: Seq<EntityView>, e: int, player: Entity) -> bool {
    match ents[e].wants_pickup {
        None => false,
        Some(w) => {
            let it = w.item as int;
            let who = w.collected_by as int;
            0 <= it < ents.len() && ents[it].alive && ents[it].item && 0 <= who < ents.len() && ents[who].alive
                && w.collected_by == player
        },
    }
}

/// How many of the pickup intents of entities `0..k` succeed for the player.
pub open spec fn player_pickups_upto(ents: Seq<EntityView>, k: int, player: Entity) -> nat
    decreases k,
{
    if k <= 0 {
        0
    } else {
        player_pickups_upto(ents, k - 1, player) + if player_picks_up(pickup_upto(ents, k - 1), k - 1, player) {
            1nat
        } else {
            0nat
        }
    }
}

pub open spec fn pickup_upto(ents: Seq<EntityView>, k: int) -> Seq<EntityView>
    decreases k,
{
    if k <= 0 {
        ents
    } else {
        pickup_step(pickup_upto(ents, k - 1), k - 1)
    }
}

/// Resolves the drop intent of entity `e`: a live item leaves any backpack and is placed
/// at `e`'s position, when `e` has one.
pub open spec fn drop_step(ents: Seq<EntityView>, e: int) -> Seq<EntityView> {
    match ents[e].wants_drop {
        None => ents,
        Some(w) => {
            let c = ents.update(e, EntityView { wants_drop: None, ..ents[e] });
            let it = w.item as int;
            if 0 <= it < c.len() && c[it].alive && c[e].position.is_some() {
                c.update(it, EntityView { position: c[e].position, in_backpack: None, ..c[it] })
            } else {
                c
            }
        },
    }
}

pub open spec fn drop_upto(ents: Seq<EntityView>, k: int) -> Seq<EntityView>
    decreases k,
{
    if k <= 0 {
        ents
    } else {
        drop_step(drop_upto(ents, k - 1), k - 1)
    }
}

/// Entity `e` asks to drink a live potion and has combat stats.
pub open spec fn drink_ok(ents: Seq<EntityView>, e: int) -> bool {
    match ents[e].wants_drink {
        None => false,
        Some(w) => {
            let p = w.potion as int;
            0 <= p < ents.len() && ents[p].alive && ents[p].potion.is_some() && ents[e].stats.is_some()
        },
    }
}

/// Entity `e` after its potion intent: healed up to its maximum when the drink is valid,
/// and without the intent in any case.
pub open spec fn drink_result(ents: Seq<EntityView>, e: int) -> EntityView {
    match ents[e].wants_drink {
        None => ents[e],
        Some(w) => {
            let d = EntityView { wants_drink: None, ..ents[e] };
            if drink_ok(ents, e) {
                let st = ents[e].stats.unwrap();
                let heal = ents[w.potion as int].potion.unwrap().heal_amount;
                EntityView {
                    stats: Some(CombatStats { hp: spec_healed_hp(st.hp as int, st.max_hp as int, heal as int) as i32, ..st }),
                    ..d
                }
            } else {
                d
            }
        },
    }
}

/// The potions drunk by entities `0..k`, in order.
pub open spec fn drunk_potions(ents: Seq<EntityView>, k: int) -> Seq<Entity>
    decreases k,
{
    if k <= 0 {
        seq![]
    } else if drink_ok(ents, k - 1) {
        drunk_potions(ents, k - 1).push(ents[k - 1].wants_drink.unwrap().potion)
    } else {
        drunk_potions(ents, k - 1)
    }
}

/// The tiles of `s` that lie on the map, in order.
pub open spec fn keep_in_bounds(s: Seq<Position>) -> Seq<Position>
    decreases s.len(),
{
    if s.len() == 0 {
        seq![]
    } else {
        let r = keep_in_bounds(s.drop_last());
        if in_bounds(s.last().x as int, s.last().y as int) {
            r.push(s.last())
        } else {
            r
        }
    }
}

/// Tile index `i` is one of `tiles`.
pub open spec fn covers(tiles: Seq<Position>, i: int) -> bool {
    exists|k: int| 0 <= k < tiles.len() && idx_of(tiles[k].x as int, tiles[k].y as int) == i
}

/// Entity `e` has a viewshed waiting to be recomputed.
pub open spec fn fov_pending(w: World, e: int) -> bool {
    &&& w.live(e)
    &&& w.ents()[e].viewshed.is_some()
    &&& w.ents()[e].viewshed.unwrap().dirty
    &&& w.ents()[e].position.is_some()
}

/// `n` is `o` after entity `e`'s viewshed took the on-map tiles of `fov`: only a dirty
/// viewshed is recomputed; for the player, the visible bitset becomes exactly those
/// tiles and they are added to the revealed bitset.
pub open spec fn viewshed_applied(o: World, e: int, fov: Seq<Position>, n: World) -> bool {
    if !fov_pending(o, e) {
        n == o
    } else {
        let d = o.ents()[e];
        let vs = d.viewshed.unwrap();
        let tiles = keep_in_bounds(fov);
        &&& n.ents() == o.ents().update(
            e,
            EntityView { viewshed: Some(ViewshedView { visible_tiles: tiles, dirty: false, ..vs }), ..d },
        )
        &&& n.player == o.player
        &&& n.log == o.log
        &&& n.pending_deletes == o.pending_deletes
        &&& n.map.tiles == o.map.tiles
        &&& n.map.rooms == o.map.rooms
        &&& n.map.blocked == o.map.blocked
        &&& n.map.tile_content == o.map.tile_content
        &&& n.map.visible_tiles@.len() == MAPCOUNT
        &&& n.map.revealed_tiles@.len() == MAPCOUNT
        &&& if e == o.player {
            forall|i: int|
                0 <= i < MAPCOUNT ==> (#[trigger] n.map.visible_tiles@[i] == covers(tiles, i)
                    && n.map.revealed_tiles@[i] == (o.map.revealed_tiles@[i] || covers(tiles, i)))
        } else {
            n.map.visible_tiles == o.map.visible_tiles && n.map.revealed_tiles == o.map.revealed_tiles
        }
    }
}

proof fn lemma_keep_in_bounds(s: Seq<Position>)
    ensures
        forall|j: int|
            0 <= j < keep_in_bounds(s).len() ==> in_bounds(#[trigger] keep_in_bounds(s)[j].x as int, keep_in_bounds(s)[j].y as int),
    decreases s.len(),
{
    if s.len() > 0 {
        lemma_keep_in_bounds(s.drop_last());
        let r = keep_in_bounds(s.drop_last());
        assert forall|j: int| 0 <= j < keep_in_bounds(s).len() implies in_bounds(
            #[trigger] keep_in_bounds(s)[j].x as int,
            keep_in_bounds(s)[j].y as int,
        ) by {
            if j < r.len() {
                assert(keep_in_bounds(s)[j] == r[j]);
            }
        }
    }
}

fn keep_on_map(fov: &Vec<Position>) -> (r: Vec<Position>)
    ensures
        r@ == keep_in_bounds(fov@),
{
    let mut r: Vec<Position> = Vec::new();
    let mut i: usize = 0;
    while i < fov.len()
        invariant
            i <= fov@.len(),
            r@ == keep_in_bounds(fov@.take(i as int)),
        decreases fov@.len() - i,
    {
        assert(fov@.take(i + 1).drop_last() =~= fov@.take(i as int));
        let p = fov[i];
        if 0 <= p.x && p.x < MAPWIDTH && 0 <= p.y && p.y < MAPHEIGHT {
            r.push(p);
        }
        i = i + 1;
    }
    assert(fov@.take(fov@.len() as int) =~= fov@);
    r
}

impl World {
    /// The entity's name for the message log.
    fn name_of(&self, e: Entity) -> (r: String)
        requires
            e < self.entities@.len(),
        ensures
            r@ == name_text(self.entities@[e as int]@),
    {
        match &self.entities[e].name {
            Some(n) => n.clone(),
            None => String::from_str("Someone"),
        }
    }

    pub open spec fn ents(&self) -> Seq<EntityView> {
        self.entities@.map_values(|d: EntityData| d@)
    }

    pub open spec fn live(&self, e: int) -> bool {
        0 <= e < self.ents().len() && self.ents()[e].alive
    }

    pub open spec fn wf(&self) -> bool {
        self.map.wf()
    }

    /// Everything but the entity records is as in `o`.
    pub open spec fn same_resources(&self, o: &World) -> bool {
        &&& self.map == o.map
        &&& self.player == o.player
        &&& self.log == o.log
        &&& self.pending_deletes == o.pending_deletes
    }

    /// An empty world on the given map.
    pub fn new(map: GameMap) -> (r: World)
        ensures
            r.ents().len() == 0,
            r.map == map,
            r.log@.len() == 0,
            r.pending_deletes@.len() == 0,
    {
        World { entities: Vec::new(), map, player: 0, log: Vec::new(), pending_deletes: Vec::new() }
    }

    /// Adds a live entity, reusing the first free slot if there is one.
    pub fn create_entity(&mut self, d: EntityData) -> (r: Entity)
        requires
            d.alive,
        ensures
            final(self).same_resources(old(self)),
            r < final(self).ents().len(),
            r < old(self).ents().len() ==> !old(self).ents()[r as int].alive
                && final(self).ents() == old(self).ents().update(r as int, d@),
            r >= old(self).ents().len() ==> r == old(self).ents().len()
                && final(self).ents() == old(self).ents().push(d@),
            forall|i: int| 0 <= i < r && i < old(self).ents().len() ==> old(self).ents()[i].alive,
    {
        let mut i: usize = 0;
        while i < self.entities.len()
            invariant
                i <= self.entities@.len(),
                self.entities == old(self).entities,
                self.same_resources(old(self)),
                forall|j: int| 0 <= j < i ==> (#[trigger] self.entities@[j]).alive,
            decreases self.entities@.len() - i,
        {
            if !self.entities[i].alive {
                self.entities.set(i, d);
                proof {
                    assert(self.ents() =~= old(self).ents().update(i as int, d@));
                }
                return i;
            }
            i = i + 1;
        }
        self.entities.push(d);
        proof {
            assert(self.ents() =~= old(self).ents().push(d@));
        }
        i
    }

    /// Asks for `e` to be deleted at the next flush; nothing is removed now.
    pub fn delete_entity(&mut self, e: Entity)
        ensures
            final(self).entities == old(self).entities,
            final(self).map == old(self).map,
            final(self).player == old(self).player,
            final(self).log == old(self).log,
            final(self).pending_deletes@ == old(self).pending_deletes@.push(e),
    {
        self.pending_deletes.push(e);
    }

    /// Applies the buffered deletions in order and empties the buffer.
    pub fn maintain(&mut self)
        ensures
            final(self).map == old(self).map,
            final(self).player == old(self).player,
            final(self).log == old(self).log,
            final(self).pending_deletes@.len() == 0,
            final(self).ents().len() == old(self).ents().len(),
            forall|i: int|
                0 <= i < old(self).ents().len() ==> #[trigger] final(self).ents()[i] == if old(
                    self,
                ).pending_deletes@.contains(i as usize) {
                    EntityView::empty()
                } else {
                    old(self).ents()[i]
                },
    {
        let mut k: usize = 0;
        while k < self.pending_deletes.len()
            invariant
                k <= self.pending_deletes@.len(),
                self.pending_deletes == old(self).pending_deletes,
                self.map == old(self).map,
                self.player == old(self).player,
                self.log == old(self).log,
                self.ents().len() == old(self).ents().len(),
                forall|i: int|
                    0 <= i < old(self).ents().len() ==> #[trigger] self.ents()[i] == if self.pending_deletes@.take(
                        k as int,
                    ).contains(i as usize) {
                        EntityView::empty()
                    } else {
                        old(self).ents()[i]
                    },
            decreases self.pending_deletes@.len() - k,
        {
            let e = self.pending_deletes[k];
            let ghost prev = self.ents();
            if e < self.entities.len() {
                self.entities.set(e, EntityData::empty());
            }
            proof {
                let before = self.pending_deletes@.take(k as int);
                let after = self.pending_deletes@.take(k + 1);
                assert(after =~= before.push(e));
                assert forall|i: int| 0 <= i < old(self).ents().len() implies #[trigger] self.ents()[i] == if after.contains(
                    i as usize,
                ) {
                    EntityView::empty()
                } else {
                    old(self).ents()[i]
                } by {
                    assert(prev[i] == if before.contains(i as usize) {
                        EntityView::empty()
                    } else {
                        old(self).ents()[i]
                    });
                    if i == e as int {
                        assert(after[k as int] == e);
                    } else {
                        assert(after.contains(i as usize) == before.contains(i as usize)) by {
                            if after.contains(i as usize) {
                                let j = choose|j: int| 0 <= j < after.len() && after[j] == i as usize;
                                assert(before[j] == i as usize);
                            }
                        }
                    }
                }
            }
            k = k + 1;
        }
        self.pending_deletes = Vec::new();
        proof {
            assert(old(self).pending_deletes@.take(old(self).pending_deletes@.len() as int)
                =~= old(self).pending_deletes@);
        }
    }

    /// Resolves every melee intent in entity order: a landed attack adds
    /// `max(1, power - defense)` to the target's pending damage and a line to the log.
    /// Every intent is removed.
    pub fn melee_combat_system(&mut self)
        ensures
            final(self).map == old(self).map,
            final(self).player == old(self).player,
            final(self).pending_deletes == old(self).pending_deletes,
            final(self).ents() == melee_upto(old(self).ents(), old(self).ents().len() as int),
            old(self).log@.is_prefix_of(final(self).log@),
            final(self).log@.len() == old(self).log@.len() + hits_upto(old(self).ents(), old(self).ents().len() as int),
            log_text(final(self).log@) == log_text(old(self).log@) + hit_lines(old(self).ents(), old(self).ents().len() as int),
    {
        let mut e: usize = 0;
        while e < self.entities.len()
            invariant
                e <= self.entities@.len(),
                self.map == old(self).map,
                self.player == old(self).player,
                self.pending_deletes == old(self).pending_deletes,
                self.ents().len() == old(self).ents().len(),
                self.ents() == melee_upto(old(self).ents(), e as int),
                old(self).log@.is_prefix_of(self.log@),
                self.log@.len() == old(self).log@.len() + hits_upto(old(self).ents(), e as int),
                log_text(self.log@) == log_text(old(self).log@) + hit_lines(old(self).ents(), e as int),
            decreases self.entities@.len() - e,
        {
            let ghost prev = self.ents();
            assert(prev[e as int] == self.entities@[e as int]@);
            if let Some(w) = self.entities[e].wants_melee {
                self.entities[e].wants_melee = None;
                let t = w.target;
                assert(self.ents() =~= prev.update(e as int, EntityView { wants_melee: None, ..prev[e as int] }));
                if t < self.entities.len() {
                    assert(prev[t as int] == self.entities@[t as int]@ || t == e);
                    let lands = match (self.entities[e].stats, self.entities[t].stats) {
                        (Some(sa), Some(st)) => self.entities[e].alive && self.entities[t].alive && sa.hp > 0 && st.hp > 0,
                        _ => false,
                    };
                    assert(lands == attack_lands(prev, e as int, t as int));
                    if lands {
                        let power = self.entities[e].stats.unwrap().power;
                        let defense = self.entities[t].stats.unwrap().defense;
                        let dmg = melee_damage(power, defense);
                        let ghost mid = self.ents();
                        let pending = self.entities[t].suffer_damage.take();
                        let mut amounts: Vec<i64> = match pending {
                            Some(sd) => sd.amount,
                            None => Vec::new(),
                        };
                        amounts.push(dmg);
                        self.entities[t].suffer_damage = Some(SufferDamage { amount: amounts });
                        assert(self.ents() =~= mid.update(t as int, with_damage(mid[t as int], dmg as int)));
                        let mut line = self.name_of(e);
                        line.append(" hits ");
                        let target_name = self.name_of(t);
                        line.append(target_name.as_str());
                        line.append(", for ");
                        let amount = i64_text(dmg);
                        line.append(amount.as_str());
                        line.append(" hp.");
                        let ghost lb = self.log@;
                        self.log.push(line);
                        proof {
                            assert(line@ == hit_line(prev, e as int));
                            assert(log_text(self.log@) =~= log_text(lb).push(line@));
                        }
                    }
                }
            }
            e = e + 1;
        }
    }

    /// Lets every monster act on what it sees, deciding from the state before the pass.
    pub fn monster_ai_system(&mut self)
        requires
            old(self).wf(),
        ensures
            final(self).same_resources(old(self)),
            final(self).ents().len() == old(self).ents().len(),
            forall|i: int|
                0 <= i < old(self).ents().len() ==> #[trigger] final(self).ents()[i] == ai_result(
                    old(self).ents(),
                    old(self).map.blocked@,
                    old(self).map.tiles@,
                    old(self).player as int,
                    i,
                ),
    {
        let player = self.player;
        let mut e: usize = 0;
        while e < self.entities.len()
            invariant
                e <= self.entities@.len(),
                self.same_resources(old(self)),
                self.map.wf(),
                self.ents().len() == old(self).ents().len(),
                player == self.player,
                forall|i: int|
                    0 <= i < e ==> #[trigger] self.ents()[i] == ai_result(
                        old(self).ents(),
                        old(self).map.blocked@,
                        old(self).map.tiles@,
                        player as int,
                        i,
                    ),
                forall|i: int| e <= i < self.ents().len() ==> #[trigger] self.ents()[i] == old(self).ents()[i],
                player < self.ents().len() ==> self.ents()[player as int] == old(self).ents()[player as int],
            decreases self.entities@.len() - e,
        {
            let ghost prev = self.ents();
            let ghost want = ai_result(old(self).ents(), old(self).map.blocked@, old(self).map.tiles@, player as int, e as int);
            assert(prev[e as int] == self.entities@[e as int]@);
            assert(prev[e as int] == old(self).ents()[e as int]);
            let ppos: Option<Position> = if player < self.entities.len() {
                assert(self.entities@[player as int]@ == old(self).ents()[player as int]);
                self.entities[player].position
            } else {
                None
            };
            let is_monster = match self.entities[e].role {
                Some(Role::Monster) => true,
                _ => false,
            };
            if e != player && self.entities[e].alive && is_monster && self.entities[e].viewshed.is_some() {
                match (self.entities[e].position, ppos) {
                    (Some(pos), Some(pp)) => {
                        let visible = match &self.entities[e].viewshed {
                            Some(vs) => sees(vs, pp),
                            None => false,
                        };
                        if visible {
                            let dx: i64 = pp.x as i64 - pos.x as i64;
                            let dy: i64 = pp.y as i64 - pos.y as i64;
                            let adx: i64 = if dx < 0 { -dx } else { dx };
                            let ady: i64 = if dy < 0 { -dy } else { dy };
                            if adx <= 1 && ady <= 1 {
                                self.entities[e].wants_melee = Some(WantsToMelee { target: player });
                            } else {
                                let nx: i64 = pos.x as i64 + sign_of(dx) as i64;
                                let ny: i64 = pos.y as i64 + sign_of(dy) as i64;
                                if 0 <= nx && nx < MAPWIDTH as i64 && 0 <= ny && ny < MAPHEIGHT as i64 {
                                    let idx = xy_idx(nx as i32, ny as i32);
                                    if !self.map.blocked[idx] && self.map.tiles[idx] == TileType::Floor {
                                        self.entities[e].position = Some(Position { x: nx as i32, y: ny as i32 });
                                        let mut vs = self.entities[e].viewshed.take().unwrap();
                                        vs.dirty = true;
                                        self.entities[e].viewshed = Some(vs);
                                    }
                                }
                            }
                        }
                    },
                    _ => {},
                }
            }
            proof {
                assert(self.ents()[e as int] == self.entities@[e as int]@);
                assert(self.ents()[e as int] == want);
                assert forall|i: int| 0 <= i < self.ents().len() && i != e implies #[trigger] self.ents()[i] == prev[i] by {}
            }
            e = e + 1;
        }
    }

    /// Rebuilds the blocked bitset (walls, and tiles where a live entity that blocks
    /// stands) and the list of live entities on each tile.
    pub fn map_indexing_system(&mut self)
        requires
            old(self).wf(),
        ensures
            final(self).wf(),
            final(self).entities == old(self).entities,
            final(self).player == old(self).player,
            final(self).log == old(self).log,
            final(self).pending_deletes == old(self).pending_deletes,
            final(self).map.tiles == old(self).map.tiles,
            final(self).map.rooms == old(self).map.rooms,
            final(self).map.visible_tiles == old(self).map.visible_tiles,
            final(self).map.revealed_tiles == old(self).map.revealed_tiles,
            forall|i: int|
                0 <= i < MAPCOUNT ==> #[trigger] final(self).map.blocked@[i] == (old(self).map.tiles@[i] == TileType::Wall
                    || exists|e: int| occupies(old(self).ents(), e, i) && old(self).ents()[e].blocks_tile),
            forall|i: int, e: usize|
                0 <= i < MAPCOUNT ==> (#[trigger] final(self).map.tile_content@[i]@.contains(e)
                    <==> occupies(old(self).ents(), e as int, i)),
    {
        let mut i: usize = 0;
        while i < MAPCOUNT
            invariant
                i <= MAPCOUNT,
                self.map.wf(),
                self.entities == old(self).entities,
                self.player == old(self).player,
                self.log == old(self).log,
                self.pending_deletes == old(self).pending_deletes,
                self.map.tiles == old(self).map.tiles,
                self.map.rooms == old(self).map.rooms,
                self.map.visible_tiles == old(self).map.visible_tiles,
                self.map.revealed_tiles == old(self).map.revealed_tiles,
                forall|j: int| 0 <= j < i ==> #[trigger] self.map.blocked@[j] == (self.map.tiles@[j] == TileType::Wall),
                forall|j: int| 0 <= j < i ==> (#[trigger] self.map.tile_content@[j])@.len() == 0,
            decreases MAPCOUNT - i,
        {
            let wall = self.map.tiles[i] == TileType::Wall;
            self.map.blocked.set(i, wall);
            self.map.tile_content.set(i, Vec::new());
            i = i + 1;
        }
        let mut e: usize = 0;
        while e < self.entities.len()
            invariant
                e <= self.entities@.len(),
                self.map.wf(),
                self.entities == old(self).entities,
                self.player == old(self).player,
                self.log == old(self).log,
                self.pending_deletes == old(self).pending_deletes,
                self.map.tiles == old(self).map.tiles,
                self.map.rooms == old(self).map.rooms,
                self.map.visible_tiles == old(self).map.visible_tiles,
                self.map.revealed_tiles == old(self).map.revealed_tiles,
                forall|j: int|
                    0 <= j < MAPCOUNT ==> #[trigger] self.map.blocked@[j] == (self.map.tiles@[j] == TileType::Wall
                        || exists|x: int| 0 <= x < e && occupies(self.ents(), x, j) && self.ents()[x].blocks_tile),
                forall|j: int, x: usize|
                    0 <= j < MAPCOUNT ==> (#[trigger] self.map.tile_content@[j]@.contains(x)
                        <==> (occupies(self.ents(), x as int, j) && x < e)),
            decreases self.entities@.len() - e,
        {
            assert(self.ents()[e as int] == self.entities@[e as int]@);
            if self.entities[e].alive {
                if let Some(p) = self.entities[e].position {
                    if 0 <= p.x && p.x < MAPWIDTH && 0 <= p.y && p.y < MAPHEIGHT {
                        let idx = xy_idx(p.x, p.y);
                        let ghost before_content = self.map.tile_content@;
                        let ghost before_blocked = self.map.blocked@;
                        self.map.tile_content[idx].push(e);
                        if self.entities[e].blocks_tile {
                            self.map.blocked.set(idx, true);
                        }
                        proof {
                            assert forall|j: int, x: usize|
                                0 <= j < MAPCOUNT implies (#[trigger] self.map.tile_content@[j]@.contains(x)
                                    <==> (occupies(self.ents(), x as int, j) && x < e + 1)) by {
                                if j == idx as int {
                                    let now = self.map.tile_content@[j]@;
                                    let was = before_content[j]@;
                                    assert(now == was.push(e));
                                    if x == e {
                                        assert(now[was.len() as int] == e);
                                    } else if now.contains(x) {
                                        let k = choose|k: int| 0 <= k < now.len() && now[k] == x;
                                        assert(k != was.len());
                                        assert(was[k] == x);
                                    }
                                    if was.contains(x) {
                                        let k = choose|k: int| 0 <= k < was.len() && was[k] == x;
                                        assert(now[k] == x);
                                    }
                                } else {
                                    assert(self.map.tile_content@[j] == before_content[j]);
                                    if occupies(self.ents(), x as int, j) && x == e {
                                        assert(idx_of(p.x as int, p.y as int) == idx as int);
                                    }
                                }
                            }
                            assert forall|j: int|
                                0 <= j < MAPCOUNT implies #[trigger] self.map.blocked@[j] == (self.map.tiles@[j] == TileType::Wall
                                    || exists|x: int| 0 <= x < e + 1 && occupies(self.ents(), x, j) && self.ents()[x].blocks_tile) by {
                                if before_blocked[j] != (self.map.tiles@[j] == TileType::Wall) {
                                    let x = choose|x: int| 0 <= x < e && occupies(self.ents(), x, j) && self.ents()[x].blocks_tile;
                                    assert(0 <= x < e + 1 && occupies(self.ents(), x, j) && self.ents()[x].blocks_tile);
                                }
                                if self.map.blocked@[j] && self.map.tiles@[j] != TileType::Wall && j == idx as int && self.entities@[e as int].blocks_tile {
                                    assert(occupies(self.ents(), e as int, j));
                                }
                            }
                        }
                    }
                }
            }
            e = e + 1;
        }
    }

    /// Resolves every pickup intent in entity order and removes it.
    pub fn item_collection_system(&mut self)
        ensures
            final(self).map == old(self).map,
            final(self).player == old(self).player,
            final(self).pending_deletes == old(self).pending_deletes,
            final(self).ents() == pickup_upto(old(self).ents(), old(self).ents().len() as int),
            old(self).log@.is_prefix_of(final(self).log@),
            final(self).log@.len() == old(self).log@.len() + player_pickups_upto(
                old(self).ents(),
                old(self).ents().len() as int,
                old(self).player,
            ),
            log_text(final(self).log@) == log_text(old(self).log@) + pickup_lines(
                old(self).ents(),
                old(self).ents().len() as int,
                old(self).player,
            ),
    {
        let mut e: usize = 0;
        while e < self.entities.len()
            invariant
                e <= self.entities@.len(),
                self.map == old(self).map,
                self.player == old(self).player,
                self.pending_deletes == old(self).pending_deletes,
                self.ents().len() == old(self).ents().len(),
                self.ents() == pickup_upto(old(self).ents(), e as int),
                old(self).log@.is_prefix_of(self.log@),
                self.log@.len() == old(self).log@.len() + player_pickups_upto(old(self).ents(), e as int, self.player),
                log_text(self.log@) == log_text(old(self).log@) + pickup_lines(old(self).ents(), e as int, self.player),
            decreases self.entities@.len() - e,
        {
            let ghost prev = self.ents();
            assert(prev[e as int] == self.entities@[e as int]@);
            if let Some(w) = self.entities[e].wants_pickup {
                self.entities[e].wants_pickup = None;
                let ghost c = self.ents();
                assert(c =~= prev.update(e as int, EntityView { wants_pickup: None, ..prev[e as int] }));
                let it = w.item;
                let who = w.collected_by;
                if it < self.entities.len() && who < self.entities.len() {
                    assert(c[it as int] == self.entities@[it as int]@);
                    assert(c[who as int] == self.entities@[who as int]@);
                    if self.entities[it].alive && self.entities[it].item && self.entities[who].alive {
                        self.entities[it].position = None;
                        self.entities[it].in_backpack = Some(InBackpack { owner: who });
                        assert(self.ents() =~= c.update(
                            it as int,
                            EntityView { position: None, in_backpack: Some(InBackpack { owner: who }), ..c[it as int] },
                        ));
                        if who == self.player {
                            let mut line = String::from_str("You pick up the ");
                            let item_name = self.name_of(it);
                            line.append(item_name.as_str());
                            line.append(".");
                            let ghost lb = self.log@;
                            self.log.push(line);
                            proof {
                                assert(name_text(self.entities@[it as int]@) == name_text(prev[it as int]));
                                assert(log_text(self.log@) =~= log_text(lb).push(line@));
                            }
                        }
                    }
                }
            }
            e = e + 1;
        }
    }

    /// Resolves every potion intent: a valid drink heals the drinker, capped at its
    /// maximum, and queues the potion for deletion. Every intent is removed.
    pub fn potion_use_system(&mut self)
        ensures
            final(self).map == old(self).map,
            final(self).player == old(self).player,
            final(self).ents().len() == old(self).ents().len(),
            forall|i: int| 0 <= i < old(self).ents().len() ==> #[trigger] final(self).ents()[i] == drink_result(old(self).ents(), i),
            final(self).pending_deletes@ == old(self).pending_deletes@ + drunk_potions(old(self).ents(), old(self).ents().len() as int),
            old(self).log@.is_prefix_of(final(self).log@),
            final(self).log@.len() == old(self).log@.len() + drunk_potions(old(self).ents(), old(self).ents().len() as int).len(),
            log_text(final(self).log@) == log_text(old(self).log@) + drink_lines(old(self).ents(), old(self).ents().len() as int),
    {
        let mut e: usize = 0;
        while e < self.entities.len()
            invariant
                e <= self.entities@.len(),
                self.map == old(self).map,
                self.player == old(self).player,
                self.ents().len() == old(self).ents().len(),
                forall|i: int| 0 <= i < e ==> #[trigger] self.ents()[i] == drink_result(old(self).ents(), i),
                forall|i: int| e <= i < self.ents().len() ==> #[trigger] self.ents()[i] == old(self).ents()[i],
                forall|i: int| 0 <= i < self.ents().len() ==> (#[trigger] self.ents()[i]).alive == old(self).ents()[i].alive
                    && self.ents()[i].potion == old(self).ents()[i].potion,
                self.pending_deletes@ == old(self).pending_deletes@ + drunk_potions(old(self).ents(), e as int),
                old(self).log@.is_prefix_of(self.log@),
                self.log@.len() == old(self).log@.len() + drunk_potions(old(self).ents(), e as int).len(),
                log_text(self.log@) == log_text(old(self).log@) + drink_lines(old(self).ents(), e as int),
            decreases self.entities@.len() - e,
        {
            let ghost prev = self.ents();
            let ghost o = old(self).ents();
            assert(prev[e as int] == self.entities@[e as int]@);
            assert(prev[e as int] == o[e as int]);
            if let Some(w) = self.entities[e].wants_drink {
                self.entities[e].wants_drink = None;
                let p = w.potion;
                if p < self.entities.len() {
                    assert(prev[p as int] == self.entities@[p as int]@ || p == e);
                    let heal: Option<i32> = match self.entities[p].potion {
                        Some(pot) => if self.entities[p].alive { Some(pot.heal_amount) } else { None },
                        None => None,
                    };
                    if let (Some(amount), Some(st)) = (heal, self.entities[e].stats) {
                        assert(drink_ok(o, e as int));
                        let hp = healed_hp(st.hp, st.max_hp, amount);
                        self.entities[e].stats = Some(CombatStats { hp, ..st });
                        self.pending_deletes.push(p);
                        let mut line = self.name_of(e);
                        line.append(" drinks the ");
                        let potion_name = self.name_of(p);
                        line.append(potion_name.as_str());
                        line.append(", healing to ");
                        let now = i64_text(hp as i64);
                        line.append(now.as_str());
                        line.append(" hp.");
                        let ghost lb = self.log@;
                        self.log.push(line);
                        proof {
                            assert(name_text(self.entities@[e as int]@) == name_text(o[e as int]));
                            assert(name_text(self.entities@[p as int]@) == name_text(o[p as int]));
                            assert(line@ == drink_line(o, e as int));
                            assert(log_text(self.log@) =~= log_text(lb).push(line@));
                        }
                    }
                }
            }
            proof {
                assert(self.ents()[e as int] == self.entities@[e as int]@);
                assert(self.ents()[e as int] == drink_result(o, e as int));
                assert forall|i: int| 0 <= i < self.ents().len() && i != e implies #[trigger] self.ents()[i] == prev[i] by {}
                assert(self.pending_deletes@ =~= old(self).pending_deletes@ + drunk_potions(o, e + 1));
            }
            e = e + 1;
        }
    }

    /// Resolves every drop intent in entity order and removes it.
    pub fn item_drop_system(&mut self)
        ensures
            final(self).map == old(self).map,
            final(self).player == old(self).player,
            final(self).pending_deletes == old(self).pending_deletes,
            final(self).log == old(self).log,
            final(self).ents() == drop_upto(old(self).ents(), old(self).ents().len() as int),
    {
        let mut e: usize = 0;
        while e < self.entities.len()
            invariant
                e <= self.entities@.len(),
                self.map == old(self).map,
                self.player == old(self).player,
                self.pending_deletes == old(self).pending_deletes,
                self.log == old(self).log,
                self.ents().len() == old(self).ents().len(),
                self.ents() == drop_upto(old(self).ents(), e as int),
            decreases self.entities@.len() - e,
        {
            let ghost prev = self.ents();
            assert(prev[e as int] == self.entities@[e as int]@);
            if let Some(w) = self.entities[e].wants_drop {
                self.entities[e].wants_drop = None;
                let ghost c = self.ents();
                assert(c =~= prev.update(e as int, EntityView { wants_drop: None, ..prev[e as int] }));
                let it = w.item;
                if it < self.entities.len() {
                    assert(c[it as int] == self.entities@[it as int]@);
                    assert(c[e as int] == self.entities@[e as int]@);
                    let here = self.entities[e].position;
                    if self.entities[it].alive && here.is_some() {
                        self.entities[it].position = here;
                        self.entities[it].in_backpack = None;
                        assert(self.ents() =~= c.update(
                            it as int,
                            EntityView { position: here, in_backpack: None, ..c[it as int] },
                        ));
                    }
                }
            }
            e = e + 1;
        }
    }

    /// Whether entity `e`'s viewshed must be recomputed before the next pass.
    pub fn needs_fov(&self, e: Entity) -> (r: bool)
        ensures
            r == fov_pending(*self, e as int),
    {
        if e < self.entities.len() {
            assert(self.ents()[e as int] == self.entities@[e as int]@);
            match &self.entities[e].viewshed {
                Some(vs) => self.entities[e].alive && vs.dirty && self.entities[e].position.is_some(),
                None => false,
            }
        } else {
            false
        }
    }

    /// The visibility step: every entity with a dirty viewshed and a field of view in
    /// `fovs` takes it (see `visibility_applied`).
    pub fn visibility_system(&mut self, fovs: &Vec<Vec<Position>>)
        requires
            old(self).wf(),
        ensures
            visibility_applied(*old(self), fovs@, *final(self)),
    {
        let player = self.player;
        let mut e: usize = 0;
        while e < self.entities.len()
            invariant
                e <= self.entities@.len(),
                self.wf(),
                old(self).wf(),
                player == old(self).player,
                self.ents().len() == old(self).ents().len(),
                self.entities@.len() == old(self).ents().len(),
                forall|i: int| 0 <= i < e && i != player ==> #[trigger] self.ents()[i] == seen_entity(*old(self), fovs@, i),
                forall|i: int| 0 <= i < self.ents().len() && (e <= i || i == player) ==> #[trigger] self.ents()[i] == old(self).ents()[i],
                self.player == old(self).player,
                self.log == old(self).log,
                self.pending_deletes == old(self).pending_deletes,
                self.map == old(self).map,
            decreases self.entities@.len() - e,
        {
            let ghost before = *self;
            if e < fovs.len() && e != player {
                assert(fov_pending(before, e as int) == fov_pending(*old(self), e as int));
                self.apply_viewshed(e, &fovs[e]);
            }
            proof {
                assert forall|i: int| 0 <= i < self.ents().len() && i != e implies #[trigger] self.ents()[i] == before.ents()[i] by {}
                assert(self.entities@.len() == self.ents().len());
            }
            e = e + 1;
        }
        let ghost mid = *self;
        if player < fovs.len() && player < self.entities.len() {
            assert(fov_pending(mid, player as int) == fov_pending(*old(self), player as int));
            self.apply_viewshed(player, &fovs[player]);
            proof {
                assert forall|i: int| 0 <= i < self.ents().len() && i != player implies #[trigger] self.ents()[i] == mid.ents()[i] by {}
            }
        }
        proof {
            assert(self.ents() =~= seen_ents(*old(self), fovs@));
        }
    }

    /// Stores the field of view computed for entity `e` (see `viewshed_applied`).
    pub fn apply_viewshed(&mut self, e: Entity, fov: &Vec<Position>)
        requires
            old(self).wf(),
        ensures
            viewshed_applied(*old(self), e as int, fov@, *final(self)),
            final(self).wf(),
    {
        if !self.needs_fov(e) {
            return;
        }
        let tiles = keep_on_map(fov);
        proof {
            lemma_keep_in_bounds(fov@);
        }
        let ghost o = self.ents();
        assert(o[e as int] == self.entities@[e as int]@);
        let mut vs = self.entities[e].viewshed.take().unwrap();
        vs.visible_tiles = tiles.clone();
        vs.dirty = false;
        self.entities[e].viewshed = Some(vs);
        assert(self.ents() =~= o.update(
            e as int,
            EntityView {
                viewshed: Some(ViewshedView { visible_tiles: tiles@, dirty: false, ..o[e as int].viewshed.unwrap() }),
                ..o[e as int]
            },
        ));
        if e == self.player {
            let ghost mid = *self;
            let mut i: usize = 0;
            while i < MAPCOUNT
                invariant
                    i <= MAPCOUNT,
                    self.entities == mid.entities,
                    self.player == mid.player,
                    self.log == mid.log,
                    self.pending_deletes == mid.pending_deletes,
                    self.map.tiles == mid.map.tiles,
                    self.map.rooms == mid.map.rooms,
                    self.map.blocked == mid.map.blocked,
                    self.map.tile_content == mid.map.tile_content,
                    mid.map.revealed_tiles == old(self).map.revealed_tiles,
                    self.map.revealed_tiles == mid.map.revealed_tiles,
                    self.map.visible_tiles@.len() == MAPCOUNT,
                    forall|j: int| 0 <= j < i ==> !(#[trigger] self.map.visible_tiles@[j]),
                decreases MAPCOUNT - i,
            {
                self.map.visible_tiles.set(i, false);
                i = i + 1;
            }
            let mut k: usize = 0;
            while k < tiles.len()
                invariant
                    k <= tiles@.len(),
                    self.entities == mid.entities,
                    self.player == mid.player,
                    self.log == mid.log,
                    self.pending_deletes == mid.pending_deletes,
                    self.map.tiles == mid.map.tiles,
                    self.map.rooms == mid.map.rooms,
                    self.map.blocked == mid.map.blocked,
                    self.map.tile_content == mid.map.tile_content,
                    mid.map.revealed_tiles == old(self).map.revealed_tiles,
                    tiles@ == keep_in_bounds(fov@),
                    forall|j: int| 0 <= j < tiles@.len() ==> in_bounds(#[trigger] tiles@[j].x as int, tiles@[j].y as int),
                    self.map.visible_tiles@.len() == MAPCOUNT,
                    self.map.revealed_tiles@.len() == MAPCOUNT,
                    forall|j: int|
                        0 <= j < MAPCOUNT ==> (#[trigger] self.map.visible_tiles@[j] == covers(tiles@.take(k as int), j)
                            && self.map.revealed_tiles@[j] == (old(self).map.revealed_tiles@[j] || covers(
                            tiles@.take(k as int),
                            j,
                        ))),
                decreases tiles@.len() - k,
            {
                let p = tiles[k];
                assert(in_bounds(tiles@[k as int].x as int, tiles@[k as int].y as int));
                let idx = xy_idx(p.x, p.y);
                self.map.visible_tiles.set(idx, true);
                self.map.revealed_tiles.set(idx, true);
                proof {
                    let before = tiles@.take(k as int);
                    let after = tiles@.take(k + 1);
                    assert(after =~= before.push(p));
                    assert forall|j: int| 0 <= j < MAPCOUNT implies covers(after, j) == (covers(before, j) || j == idx as int) by {
                        if covers(after, j) {
                            let m = choose|m: int| 0 <= m < after.len() && idx_of(after[m].x as int, after[m].y as int) == j;
                            if m < before.len() {
                                assert(before[m] == after[m]);
                            }
                        }
                        if covers(before, j) {
                            let m = choose|m: int| 0 <= m < before.len() && idx_of(before[m].x as int, before[m].y as int) == j;
                            assert(after[m] == before[m]);
                        }
                        if j == idx as int {
                            assert(after[k as int] == p);
                        }
                    }
                }
                k = k + 1;
            }
            assert(tiles@.take(tiles@.len() as int) =~= tiles@);
        }
    }

    /// Subtracts each entity's pending damage from its hit points and removes the
    /// pending damage.
    pub fn damage_system(&mut self)
        ensures
            final(self).same_resources(old(self)),
            final(self).ents().len() == old(self).ents().len(),
            forall|i: int| 0 <= i < old(self).ents().len() ==> #[trigger] final(self).ents()[i] == damaged(old(self).ents()[i]),
    {
        let mut e: usize = 0;
        while e < self.entities.len()
            invariant
                e <= self.entities@.len(),
                self.same_resources(old(self)),
                self.ents().len() == old(self).ents().len(),
                forall|i: int| 0 <= i < e ==> #[trigger] self.ents()[i] == damaged(old(self).ents()[i]),
                forall|i: int| e <= i < self.ents().len() ==> #[trigger] self.ents()[i] == old(self).ents()[i],
            decreases self.entities@.len() - e,
        {
            let ghost prev = self.ents();
            let new_stats: Option<CombatStats> = match (&self.entities[e].suffer_damage, self.entities[e].stats) {
                (Some(sd), Some(st)) => Some(CombatStats { hp: hp_after_damage(st.hp, &sd.amount), ..st }),
                (_, st) => st,
            };
            assert(prev[e as int] == old(self).ents()[e as int]);
            assert(prev[e as int] == self.entities@[e as int]@);
            if self.entities[e].suffer_damage.is_some() {
                self.entities[e].stats = new_stats;
                self.entities[e].suffer_damage = None;
            }
            proof {
                assert(self.ents()[e as int] == self.entities@[e as int]@);
                assert(self.ents()[e as int] == damaged(old(self).ents()[e as int]));
                assert forall|i: int| 0 <= i < self.ents().len() && i != e implies #[trigger] self.ents()[i] == prev[i] by {}
            }
            e = e + 1;
        }
    }

    /// Flushes pending deletions together with the deletion of every entity other than
    /// the player whose hit points are below one. Returns whether the player is dead,
    /// which ends the game.
    pub fn delete_the_dead(&mut self) -> (player_dead: bool)
        ensures
            final(self).map == old(self).map,
            final(self).player == old(self).player,
            final(self).log == old(self).log,
            final(self).pending_deletes@.len() == 0,
            final(self).ents().len() == old(self).ents().len(),
            player_dead == (old(self).player < old(self).ents().len() && is_dead(old(self).ents()[old(self).player as int])),
            forall|i: int|
                0 <= i < old(self).ents().len() ==> #[trigger] final(self).ents()[i] == if old(
                    self,
                ).pending_deletes@.contains(i as usize) || (is_dead(old(self).ents()[i]) && i != old(self).player) {
                    EntityView::empty()
                } else {
                    old(self).ents()[i]
                },
    {
        let mut player_dead = false;
        let mut e: usize = 0;
        while e < self.entities.len()
            invariant
                e <= self.entities@.len(),
                self.entities == old(self).entities,
                self.map == old(self).map,
                self.player == old(self).player,
                self.log == old(self).log,
                player_dead == (self.player < e && is_dead(old(self).ents()[self.player as int])),
                forall|i: int|
                    0 <= i < self.ents().len() ==> (#[trigger] self.pending_deletes@.contains(i as usize) <==> (
                    old(self).pending_deletes@.contains(i as usize) || (i < e && is_dead(old(self).ents()[i])
                        && i != self.player))),
            decreases self.entities@.len() - e,
        {
            let dead = match self.entities[e].stats {
                Some(st) => self.entities[e].alive && st.hp < 1,
                None => false,
            };
            assert(dead == is_dead(self.ents()[e as int]));
            if dead {
                if e == self.player {
                    player_dead = true;
                } else {
                    let ghost before = self.pending_deletes@;
                    self.pending_deletes.push(e);
                    proof {
                        assert forall|i: int| 0 <= i < self.ents().len() implies (#[trigger] self.pending_deletes@.contains(i as usize)
                            <==> (before.contains(i as usize) || i == e)) by {
                            if self.pending_deletes@.contains(i as usize) && i != e {
                                let j = choose|j: int| 0 <= j < self.pending_deletes@.len() && self.pending_deletes@[j] == i as usize;
                                assert(before[j] == i as usize);
                            }
                            if before.contains(i as usize) {
                                let j = choose|j: int| 0 <= j < before.len() && before[j] == i as usize;
                                assert(self.pending_deletes@[j] == i as usize);
                            }
                            if i == e {
                                assert(self.pending_deletes@[before.len() as int] == e);
                            }
                        }
                    }
                }
            }
            e = e + 1;
        }
        self.maintain();
        player_dead
    }
}

/// Every attack that lands adds a pending damage of at least one to its target, whatever
/// the target's defense and the attacker's power.
pub proof fn lemma_landed_hit_deals_damage(ents: Seq<EntityView>, a: int)
    requires
        0 <= a < ents.len(),
        ents[a].wants_melee.is_some(),
        attack_lands(ents, a, ents[a].wants_melee.unwrap().target as int),
    ensures
        ({
            let t = ents[a].wants_melee.unwrap().target as int;
            let s = melee_step(ents, a)[t].suffer_damage;
            &&& s.is_some()
            &&& s.unwrap().last() >= 1
            &&& s.unwrap().drop_last() == match ents[t].suffer_damage {
                Some(b) => b,
                None => seq![],
            }
        }),
{
    let t = ents[a].wants_melee.unwrap().target as int;
    let s = melee_step(ents, a)[t].suffer_damage.unwrap();
    assert(s.drop_last() =~= match ents[t].suffer_damage {
        Some(b) => b,
        None => seq![],
    });
}

/// Over any number of attackers, melee only appends: pending damage already present stays
/// as a prefix, and when every amount present is at least one, every amount afterwards is
/// at least one too (each landed hit adds `max(1, power - defense)`).
pub proof fn lemma_melee_accumulates(ents: Seq<EntityView>, k: int)
    requires
        0 <= k <= ents.len(),
    ensures
        melee_upto(ents, k).len() == ents.len(),
        forall|i: int|
            0 <= i < ents.len() && ents[i].suffer_damage.is_some() ==> (#[trigger] melee_upto(ents, k)[i]).suffer_damage.is_some()
                && ents[i].suffer_damage.unwrap().is_prefix_of(melee_upto(ents, k)[i].suffer_damage.unwrap()),
        (forall|i: int, j: int|
            0 <= i < ents.len() && ents[i].suffer_damage.is_some() && 0 <= j < ents[i].suffer_damage.unwrap().len()
                ==> #[trigger] ents[i].suffer_damage.unwrap()[j] >= 1) ==> forall|i: int, j: int|
            0 <= i < ents.len() && melee_upto(ents, k)[i].suffer_damage.is_some() && 0 <= j < melee_upto(
                ents,
                k,
            )[i].suffer_damage.unwrap().len() ==> #[trigger] melee_upto(ents, k)[i].suffer_damage.unwrap()[j] >= 1,
    decreases k,
{
    if k > 0 {
        lemma_melee_accumulates(ents, k - 1);
        let m = melee_upto(ents, k - 1);
        let r = melee_upto(ents, k);
        assert(r == melee_step(m, k - 1));
        assert forall|i: int|
            0 <= i < ents.len() && ents[i].suffer_damage.is_some() implies (#[trigger] r[i]).suffer_damage.is_some()
                && ents[i].suffer_damage.unwrap().is_prefix_of(r[i].suffer_damage.unwrap()) by {
            assert(m[i].suffer_damage.is_some());
            let a = ents[i].suffer_damage.unwrap();
            let b = m[i].suffer_damage.unwrap();
            let c = r[i].suffer_damage.unwrap();
            assert(a.is_prefix_of(b));
            assert(b.is_prefix_of(c)) by {
                if c != b {
                    assert(c == b.push(c.last()));
                    assert forall|j: int| 0 <= j < b.len() implies c[j] == b[j] by {}
                }
            }
            assert forall|j: int| 0 <= j < a.len() implies c[j] == a[j] by {
                assert(b[j] == a[j]);
            }
        }
        if forall|i: int, j: int|
            0 <= i < ents.len() && ents[i].suffer_damage.is_some() && 0 <= j < ents[i].suffer_damage.unwrap().len()
                ==> #[trigger] ents[i].suffer_damage.unwrap()[j] >= 1 {
            assert forall|i: int, j: int|
                0 <= i < ents.len() && r[i].suffer_damage.is_some() && 0 <= j < r[i].suffer_damage.unwrap().len()
                    implies #[trigger] r[i].suffer_damage.unwrap()[j] >= 1 by {
                let c = r[i].suffer_damage.unwrap();
                if m[i].suffer_damage.is_some() {
                    let b = m[i].suffer_damage.unwrap();
                    if j < b.len() && (c == b || c == b.push(c.last())) {
                        assert(c[j] == b[j]);
                        assert(b[j] >= 1);
                    }
                }
            }
        }
    }
}

/// Running the visibility step twice without moving the entity or marking its viewshed
/// dirty in between leaves the world as the first run left it; in particular the visible
/// tiles are the same both times.
pub proof fn lemma_visibility_idempotent(w0: World, w1: World, w2: World, e: int, fov1: Seq<Position>, fov2: Seq<Position>)
    requires
        viewshed_applied(w0, e, fov1, w1),
        viewshed_applied(w1, e, fov2, w2),
    ensures
        w2 == w1,
        w2.map.visible_tiles == w1.map.visible_tiles,
{
    if fov_pending(w0, e) {
        assert(!w1.ents()[e].viewshed.unwrap().dirty);
    }
}

/// A damage batch is applied exactly once: hit points drop by the sum of the pending
/// amounts (when that sum keeps them within `i32`), the pending damage is gone, and a
/// second application changes nothing.
pub proof fn lemma_damage_batch(v: EntityView)
    requires
        v.suffer_damage.is_some(),
        v.stats.is_some(),
        i32::MIN <= v.stats.unwrap().hp - sum_of(v.suffer_damage.unwrap()) <= i32::MAX,
    ensures
        damaged(v).stats.unwrap().hp == v.stats.unwrap().hp - sum_of(v.suffer_damage.unwrap()),
        damaged(v).stats.unwrap().max_hp == v.stats.unwrap().max_hp,
        damaged(v).suffer_damage.is_none(),
        damaged(damaged(v)) == damaged(v),
{
}

/// Drinking never raises hit points above the maximum: a valid drink leaves them at most
/// at the maximum, and any other intent leaves the stats as they were.
pub proof fn lemma_potion_capped(ents: Seq<EntityView>, e: int)
    requires
        0 <= e < ents.len(),
        ents[e].stats.is_some(),
    ensures
        drink_ok(ents, e) ==> drink_result(ents, e).stats.unwrap().hp <= ents[e].stats.unwrap().max_hp,
        !drink_ok(ents, e) ==> drink_result(ents, e).stats == ents[e].stats,
        ents[e].stats.unwrap().hp <= ents[e].stats.unwrap().max_hp
            ==> drink_result(ents, e).stats.unwrap().hp <= ents[e].stats.unwrap().max_hp,
{
}

/// A dropped item lands on the dropper's position at drop time and is in no backpack.
pub proof fn lemma_drop_places_item(ents: Seq<EntityView>, e: int)
    requires
        0 <= e < ents.len(),
        ents[e].wants_drop.is_some(),
        0 <= ents[e].wants_drop.unwrap().item < ents.len(),
        ents[ents[e].wants_drop.unwrap().item as int].alive,
        ents[e].position.is_some(),
    ensures
        drop_step(ents, e)[ents[e].wants_drop.unwrap().item as int].position == ents[e].position,
        drop_step(ents, e)[ents[e].wants_drop.unwrap().item as int].in_backpack.is_none(),
        drop_step(ents, e)[e].wants_drop.is_none(),
{
}

/// No intent of the kinds resolved in a pass, and no pending damage.
pub open spec fn no_intents(v: EntityView) -> bool {
    &&& v.wants_melee.is_none()
    &&& v.suffer_damage.is_none()
    &&& v.wants_pickup.is_none()
    &&& v.wants_drink.is_none()
    &&& v.wants_drop.is_none()
}

proof fn lemma_melee_upto(ents: Seq<EntityView>, k: int)
    requires
        0 <= k <= ents.len(),
    ensures
        melee_upto(ents, k).len() == ents.len(),
        forall|i: int| 0 <= i < k ==> (#[trigger] melee_upto(ents, k)[i]).wants_melee.is_none(),
    decreases k,
{
    if k > 0 {
        lemma_melee_upto(ents, k - 1);
    }
}

proof fn lemma_pickup_upto(ents: Seq<EntityView>, k: int)
    requires
        0 <= k <= ents.len(),
    ensures
        pickup_upto(ents, k).len() == ents.len(),
        forall|i: int| 0 <= i < k ==> (#[trigger] pickup_upto(ents, k)[i]).wants_pickup.is_none(),
        forall|i: int|
            0 <= i < ents.len() ==> {
                let v = #[trigger] pickup_upto(ents, k)[i];
                &&& v.wants_melee == ents[i].wants_melee
                &&& v.suffer_damage == ents[i].suffer_damage
                &&& v.wants_drink == ents[i].wants_drink
                &&& v.wants_drop == ents[i].wants_drop
            },
    decreases k,
{
    if k > 0 {
        lemma_pickup_upto(ents, k - 1);
    }
}

proof fn lemma_drop_upto(ents: Seq<EntityView>, k: int)
    requires
        0 <= k <= ents.len(),
    ensures
        drop_upto(ents, k).len() == ents.len(),
        forall|i: int| 0 <= i < k ==> (#[trigger] drop_upto(ents, k)[i]).wants_drop.is_none(),
        forall|i: int|
            0 <= i < ents.len() ==> {
                let v = #[trigger] drop_upto(ents, k)[i];
                &&& v.wants_melee == ents[i].wants_melee
                &&& v.suffer_damage == ents[i].suffer_damage
                &&& v.wants_drink == ents[i].wants_drink
                &&& v.wants_pickup == ents[i].wants_pickup
            },
    decreases k,
{
    if k > 0 {
        lemma_drop_upto(ents, k - 1);
    }
}

/// Entity `i` has a dirty viewshed and a field of view was handed over for it.
pub open spec fn fov_fed(w: World, fovs: Seq<Vec<Position>>, i: int) -> bool {
    fov_pending(w, i) && i < fovs.len()
}

/// Entity `i` after the visibility step: a fed, dirty viewshed takes the on-map tiles of
/// its field of view and is clean.
pub open spec fn seen_entity(w: World, fovs: Seq<Vec<Position>>, i: int) -> EntityView {
    let d = w.ents()[i];
    if fov_fed(w, fovs, i) {
        EntityView {
            viewshed: Some(ViewshedView { visible_tiles: keep_in_bounds(fovs[i]@), dirty: false, ..d.viewshed.unwrap() }),
            ..d
        }
    } else {
        d
    }
}

pub open spec fn seen_ents(w: World, fovs: Seq<Vec<Position>>) -> Seq<EntityView> {
    Seq::new(w.ents().len(), |i: int| seen_entity(w, fovs, i))
}

/// `n` is `o` after the visibility step: viewsheds as `seen_entity` says; when the player
/// was fed, the visible bitset is exactly its tiles and they are added to the revealed
/// bitset; nothing else changes.
pub open spec fn visibility_applied(o: World, fovs: Seq<Vec<Position>>, n: World) -> bool {
    &&& n.wf()
    &&& n.ents() == seen_ents(o, fovs)
    &&& n.player == o.player
    &&& n.log == o.log
    &&& n.pending_deletes == o.pending_deletes
    &&& n.map.tiles == o.map.tiles
    &&& n.map.rooms == o.map.rooms
    &&& n.map.blocked == o.map.blocked
    &&& n.map.tile_content == o.map.tile_content
    &&& if fov_fed(o, fovs, o.player as int) {
        forall|j: int|
            0 <= j < MAPCOUNT ==> (#[trigger] n.map.visible_tiles@[j] == covers(keep_in_bounds(fovs[o.player as int]@), j)
                && n.map.revealed_tiles@[j] == (o.map.revealed_tiles@[j] || covers(
                keep_in_bounds(fovs[o.player as int]@),
                j,
            )))
    } else {
        n.map.visible_tiles == o.map.visible_tiles && n.map.revealed_tiles == o.map.revealed_tiles
    }
}

/// Every entity after the monster AI, deciding from `ents` and the map.
pub open spec fn ai_pass_of(ents: Seq<EntityView>, blocked: Seq<bool>, tiles: Seq<TileType>, player: Entity) -> Seq<EntityView> {
    Seq::new(ents.len(), |i: int| ai_result(ents, blocked, tiles, player as int, i))
}

pub open spec fn ai_pass(w: World) -> Seq<EntityView> {
    ai_pass_of(w.ents(), w.map.blocked@, w.map.tiles@, w.player)
}

/// The entities after melee and damage, from the entities as the AI left them.
pub open spec fn damage_stage(moved: Seq<EntityView>) -> Seq<EntityView> {
    let after_melee = melee_upto(moved, moved.len() as int);
    Seq::new(moved.len(), |i: int| damaged(after_melee[i]))
}

/// The entities after pickups as well.
pub open spec fn pickup_stage(moved: Seq<EntityView>) -> Seq<EntityView> {
    pickup_upto(damage_stage(moved), moved.len() as int)
}

/// Every entity after the systems that follow the AI: melee, damage, pickup, potions,
/// drops, and then the flush of `pending` and of the potions drunk in the pass.
pub open spec fn rest_of_pass(moved: Seq<EntityView>, pending: Seq<Entity>) -> Seq<EntityView> {
    let n = moved.len() as int;
    let after_pickup = pickup_stage(moved);
    let after_drink = Seq::new(n as nat, |i: int| drink_result(after_pickup, i));
    let after_drop = drop_upto(after_drink, n);
    let deleted = pending + drunk_potions(after_pickup, n);
    Seq::new(n as nat, |i: int| if deleted.contains(i as usize) { EntityView::empty() } else { after_drop[i] })
}

/// The entities as the AI of a pass leaves them, after visibility.
pub open spec fn pass_moved(w: World, fovs: Seq<Vec<Position>>) -> Seq<EntityView> {
    ai_pass_of(seen_ents(w, fovs), w.map.blocked@, w.map.tiles@, w.player)
}

/// Every entity after one pass: visibility, AI, melee, damage, pickup, potions, drops, flush.
pub open spec fn pass_result(w: World, fovs: Seq<Vec<Position>>) -> Seq<EntityView> {
    rest_of_pass(pass_moved(w, fovs), w.pending_deletes@)
}

/// How many log lines a pass adds: one per landed hit, per pickup by the player and per drink.
pub open spec fn pass_log_lines(w: World, fovs: Seq<Vec<Position>>) -> nat {
    let moved = pass_moved(w, fovs);
    let n = moved.len() as int;
    hits_upto(moved, n) + player_pickups_upto(damage_stage(moved), n, w.player) + drunk_potions(pickup_stage(moved), n).len()
}

/// The lines a pass adds: landed hits, then the player's pickups, then drinks.
pub open spec fn pass_log_text(w: World, fovs: Seq<Vec<Position>>) -> Seq<Seq<char>> {
    let moved = pass_moved(w, fovs);
    let n = moved.len() as int;
    hit_lines(moved, n) + pickup_lines(damage_stage(moved), n, w.player) + drink_lines(pickup_stage(moved), n)
}

/// What one pass does to the map and the log: the visibility bitsets as the visibility
/// step sets them, the spatial index rebuilt from the entities as the AI left them, the
/// tile grid and rooms unchanged, and the lines of `pass_log_text` appended.
pub open spec fn pass_map_applied(o: World, fovs: Seq<Vec<Position>>, n: World) -> bool {
    let moved = pass_moved(o, fovs);
    &&& n.wf()
    &&& n.map.tiles == o.map.tiles
    &&& n.map.rooms == o.map.rooms
    &&& if fov_fed(o, fovs, o.player as int) {
        forall|j: int|
            0 <= j < MAPCOUNT ==> (#[trigger] n.map.visible_tiles@[j] == covers(keep_in_bounds(fovs[o.player as int]@), j)
                && n.map.revealed_tiles@[j] == (o.map.revealed_tiles@[j] || covers(
                keep_in_bounds(fovs[o.player as int]@),
                j,
            )))
    } else {
        n.map.visible_tiles == o.map.visible_tiles && n.map.revealed_tiles == o.map.revealed_tiles
    }
    &&& forall|i: int|
        0 <= i < MAPCOUNT ==> #[trigger] n.map.blocked@[i] == (o.map.tiles@[i] == TileType::Wall || exists|e: int|
            occupies(moved, e, i) && moved[e].blocks_tile)
    &&& forall|i: int, e: usize|
        0 <= i < MAPCOUNT ==> (#[trigger] n.map.tile_content@[i]@.contains(e) <==> occupies(moved, e as int, i))
    &&& o.log@.is_prefix_of(n.log@)
    &&& n.log@.len() == o.log@.len() + pass_log_lines(o, fovs)
    &&& log_text(n.log@) == log_text(o.log@) + pass_log_text(o, fovs)
}

/// `n` is `o` after one pass with the fields of view `fovs`: entities as `pass_result`
/// says, map and log as `pass_map_applied` says, and the deletion buffer empty.
pub open spec fn pass_applied(o: World, fovs: Seq<Vec<Position>>, n: World) -> bool {
    &&& pass_map_applied(o, fovs, n)
    &&& n.player == o.player
    &&& n.pending_deletes@.len() == 0
    &&& n.ents() == pass_result(o, fovs)
}

impl World {
    /// One pass of the pipeline: visibility from the fields of view `fovs` (indexed by
    /// entity), monster AI, spatial index, melee, damage, pickup, potions, drops, then the
    /// flush (see `pass_applied`). Every intent and every pending damage is consumed.
    pub fn run_systems(&mut self, fovs: &Vec<Vec<Position>>)
        requires
            old(self).wf(),
        ensures
            pass_applied(*old(self), fovs@, *final(self)),
            final(self).ents().len() == old(self).ents().len(),
            forall|i: int| 0 <= i < final(self).ents().len() ==> no_intents(#[trigger] final(self).ents()[i]),
    {
        let ghost o = *self;
        self.visibility_system(fovs);
        let ghost w0 = *self;
        self.monster_ai_system();
        proof {
            assert(self.ents() =~= ai_pass(w0));
            assert(ai_pass(w0) == pass_moved(o, fovs@));
        }
        self.map_indexing_system();
        let ghost w2 = self.ents();
        let ghost n = w2.len() as int;
        self.melee_combat_system();
        proof {
            lemma_melee_upto(w2, w2.len() as int);
        }
        let ghost w3 = self.ents();
        self.damage_system();
        let ghost w4 = self.ents();
        proof {
            assert(w4 =~= Seq::new(n as nat, |i: int| damaged(w3[i])));
        }
        self.item_collection_system();
        proof {
            lemma_pickup_upto(w4, w4.len() as int);
        }
        let ghost w5 = self.ents();
        let ghost pend = self.pending_deletes@;
        self.potion_use_system();
        let ghost w6 = self.ents();
        proof {
            assert(w6 =~= Seq::new(n as nat, |i: int| drink_result(w5, i)));
        }
        self.item_drop_system();
        proof {
            lemma_drop_upto(w6, w6.len() as int);
        }
        let ghost w7 = self.ents();
        let ghost deleted = self.pending_deletes@;
        self.maintain();
        proof {
            assert(deleted == w0.pending_deletes@ + drunk_potions(w5, n));
            assert(w4 == damage_stage(ai_pass(w0)));
            assert(w5 == pickup_stage(ai_pass(w0)));
            assert(self.ents() =~= pass_result(o, fovs@));
            assert(log_text(self.log@) =~= log_text(o.log@) + pass_log_text(o, fovs@));
            assert forall|i: int| 0 <= i < self.ents().len() implies no_intents(#[trigger] self.ents()[i]) by {
                assert(w3[i].wants_melee.is_none());
                assert(w4[i] == damaged(w3[i]));
                assert(w6[i] == drink_result(w5, i));
                assert(w7[i].wants_melee == w6[i].wants_melee);
            }
        }
    }
}

} // verus!
