use vstd::prelude::*;
use crate::components::{EntityView, Position, ViewshedView, WantsToMelee, WantsToPickupItem};
use crate::map::{idx_of, in_bounds, xy_idx, MAPHEIGHT, MAPWIDTH};
use crate::world::World;
use vstd::string::StringExecFns;

verus! {

/// Entity `t` can be attacked: it is live and has combat stats.
pub open spec fn attackable(ents: Seq<EntityView>, t: int) -> bool {
    0 <= t < ents.len() && ents[t].alive && ents[t].stats.is_some()
}

/// Entity `t` is a live item lying at `p`.
pub open spec fn item_at(ents: Seq<EntityView>, t: int, p: Position) -> bool {
    0 <= t < ents.len() && ents[t].alive && ents[t].item && ents[t].position == Some(p)
}

/// The live player, when it has a position.
pub open spec fn player_pos(w: World) -> Option<Position> {
    let p = w.player as int;
    if 0 <= p < w.ents().len() && w.ents()[p].alive {
        w.ents()[p].position
    } else {
        None
    }
}

impl World {
    /// Moves the player by (dx, dy). If an entity with combat stats stands on the
    /// destination, the player instead gets a melee intent on the first such entity
    /// listed for that tile; if the destination is off the map or blocked, nothing
    /// changes. A move marks the player's viewshed dirty.
    pub fn try_move_player(&mut self, dx: i32, dy: i32)
        requires
            old(self).wf(),
        ensures
            final(self).wf(),
            final(self).map == old(self).map,
            final(self).player == old(self).player,
            final(self).log == old(self).log,
            final(self).pending_deletes == old(self).pending_deletes,
            final(self).ents().len() == old(self).ents().len(),
            forall|i: int| 0 <= i < old(self).ents().len() && i != old(self).player ==> #[trigger] final(self).ents()[i] == old(self).ents()[i],
            ({
                let o = old(self).ents();
                let n = final(self).ents();
                let p = old(self).player as int;
                match player_pos(*old(self)) {
                    None => n == o,
                    Some(pos) => {
                        let nx = pos.x + dx;
                        let ny = pos.y + dy;
                        if !in_bounds(nx, ny) {
                            n == o
                        } else {
                            let content = old(self).map.tile_content@[idx_of(nx, ny)]@;
                            if exists|k: int| 0 <= k < content.len() && attackable(o, content[k] as int) {
                                exists|k: int|
                                    0 <= k < content.len() && #[trigger] attackable(o, content[k] as int)
                                        && (forall|j: int| 0 <= j < k ==> !attackable(o, content[j] as int))
                                        && n[p] == (EntityView { wants_melee: Some(WantsToMelee { target: content[k] }), ..o[p] })
                            } else if old(self).map.blocked@[idx_of(nx, ny)] {
                                n == o
                            } else {
                                n[p] == (EntityView {
                                    position: Some(Position { x: nx as i32, y: ny as i32 }),
                                    viewshed: match o[p].viewshed {
                                        Some(vs) => Some(ViewshedView { dirty: true, ..vs }),
                                        None => None,
                                    },
                                    ..o[p]
                                })
                            }
                        }
                    },
                }
            }),
    {
        let p = self.player;
        if p >= self.entities.len() || !self.entities[p].alive {
            return;
        }
        let ghost o = self.ents();
        assert(o[p as int] == self.entities@[p as int]@);
        let pos = match self.entities[p].position {
            Some(pos) => pos,
            None => {
                return;
            },
        };
        let nx: i64 = pos.x as i64 + dx as i64;
        let ny: i64 = pos.y as i64 + dy as i64;
        if !(0 <= nx && nx < MAPWIDTH as i64 && 0 <= ny && ny < MAPHEIGHT as i64) {
            return;
        }
        let idx = xy_idx(nx as i32, ny as i32);
        let n = self.map.tile_content[idx].len();
        let mut k: usize = 0;
        while k < n
            invariant
                k <= n,
                n == self.map.tile_content@[idx as int]@.len(),
                idx as int == idx_of(pos.x + dx, pos.y + dy),
                in_bounds(pos.x + dx, pos.y + dy),
                nx == pos.x + dx,
                ny == pos.y + dy,
                idx < self.map.tile_content@.len(),
                self.ents() == o,
                self.entities@.len() == o.len(),
                p < self.entities@.len(),
                self.map == old(self).map,
                self.map.wf(),
                self.player == p,
                p == old(self).player,
                o == old(self).ents(),
                player_pos(*old(self)) == Some(pos),
                self.entities@.len() == o.len(),
                self.log == old(self).log,
                self.pending_deletes == old(self).pending_deletes,
                forall|j: int| 0 <= j < k ==> !attackable(o, self.map.tile_content@[idx as int]@[j] as int),
            decreases n - k,
        {
            let t = self.map.tile_content[idx][k];
            if t < self.entities.len() {
                assert(o[t as int] == self.entities@[t as int]@);
                if self.entities[t].alive && self.entities[t].stats.is_some() {
                    self.entities[p].wants_melee = Some(WantsToMelee { target: t });
                    proof {
                        assert forall|i: int| 0 <= i < o.len() && i != p implies #[trigger] self.ents()[i] == o[i] by {}
                        assert(self.ents()[p as int] == self.entities@[p as int]@);
                        let content = old(self).map.tile_content@[idx as int]@;
                        assert(content[k as int] == t);
                        assert(attackable(o, content[k as int] as int));
                        assert(self.ents()[p as int] == (EntityView { wants_melee: Some(WantsToMelee { target: content[k as int] }), ..o[p as int] }));
                        assert(0 <= k < content.len() && attackable(o, content[k as int] as int)
                            && (forall|j: int| 0 <= j < k ==> !attackable(o, content[j] as int))
                            && self.ents()[p as int] == (EntityView { wants_melee: Some(WantsToMelee { target: content[k as int] }), ..o[p as int] }));
                    }
                    return;
                }
            }
            k = k + 1;
        }
        if !self.map.blocked[idx] {
            self.entities[p].position = Some(Position { x: nx as i32, y: ny as i32 });
            if self.entities[p].viewshed.is_some() {
                let mut vs = self.entities[p].viewshed.take().unwrap();
                vs.dirty = true;
                self.entities[p].viewshed = Some(vs);
            }
            proof {
                assert forall|i: int| 0 <= i < o.len() && i != p implies #[trigger] self.ents()[i] == o[i] by {}
                assert(self.ents()[p as int] == self.entities@[p as int]@);
            }
        } else {
            assert(self.ents() =~= o);
        }
    }

    /// Asks to pick up the first live item lying on the player's tile; when there is none,
    /// logs that there is nothing to pick up.
    pub fn get_item(&mut self)
        ensures
            final(self).map == old(self).map,
            final(self).player == old(self).player,
            final(self).pending_deletes == old(self).pending_deletes,
            final(self).ents().len() == old(self).ents().len(),
            forall|i: int| 0 <= i < old(self).ents().len() && i != old(self).player ==> #[trigger] final(self).ents()[i] == old(self).ents()[i],
            ({
                let o = old(self).ents();
                let p = old(self).player as int;
                match player_pos(*old(self)) {
                    None => final(self).ents() == o && final(self).log == old(self).log,
                    Some(pos) => if exists|t: int| item_at(o, t, pos) {
                        exists|t: int|
                            #[trigger] item_at(o, t, pos) && (forall|j: int| 0 <= j < t ==> !item_at(o, j, pos))
                                && final(self).ents()[p] == (EntityView {
                                wants_pickup: Some(WantsToPickupItem { collected_by: p as usize, item: t as usize }),
                                ..o[p]
                            }) && final(self).log == old(self).log
                    } else {
                        final(self).ents() == o && final(self).log@.len() == old(self).log@.len() + 1
                            && final(self).log@.last()@ == "There is nothing here to pick up."@
                    },
                }
            }),
    {
        let p = self.player;
        if p >= self.entities.len() || !self.entities[p].alive {
            return;
        }
        let ghost o = self.ents();
        assert(o[p as int] == self.entities@[p as int]@);
        let pos = match self.entities[p].position {
            Some(pos) => pos,
            None => {
                return;
            },
        };
        let mut t: usize = 0;
        while t < self.entities.len()
            invariant
                t <= self.entities@.len(),
                self.ents() == o,
                p < self.entities@.len(),
                self.map == old(self).map,
                self.player == p,
                p == old(self).player,
                o == old(self).ents(),
                player_pos(*old(self)) == Some(pos),
                self.entities@.len() == o.len(),
                self.log == old(self).log,
                self.pending_deletes == old(self).pending_deletes,
                forall|j: int| 0 <= j < t ==> !item_at(o, j, pos),
            decreases self.entities@.len() - t,
        {
            assert(o[t as int] == self.entities@[t as int]@);
            if self.entities[t].alive && self.entities[t].item && self.entities[t].position == Some(pos) {
                self.entities[p].wants_pickup = Some(WantsToPickupItem { collected_by: p, item: t });
                proof {
                    assert(item_at(o, t as int, pos));
                    assert(self.ents()[p as int] == self.entities@[p as int]@);
                    assert(self.ents()[p as int] == (EntityView {
                        wants_pickup: Some(WantsToPickupItem { collected_by: p, item: t }),
                        ..o[p as int]
                    }));
                    assert(player_pos(*old(self)) == Some(pos));
                    assert(self.log == old(self).log);
                    assert forall|i: int| 0 <= i < o.len() && i != p implies #[trigger] self.ents()[i] == o[i] by {}
                    assert(self.ents()[p as int] == self.entities@[p as int]@);
                }
                return;
            }
            t = t + 1;
        }
        self.log.push(String::from_str("There is nothing here to pick up."));
    }
}

} // verus!
